//! What the value of a device or a parameter denotes: a number, with a scale suffix or without
//! one, or a symbol. Surrounding space, braces and quotation marks make no difference.

use crate::expr::{first_letter, scalar, Expr};
use crate::scalar::Scalar;
use crate::text;
use crate::text::{trim, trim_end_by, trim_start_by, unquote};
use vstd::prelude::*;

verus! {

/// An ASCII letter.
pub open spec fn is_alphabetic(c: char) -> bool {
    ('a' <= c <= 'z') || ('A' <= c <= 'Z')
}

/// A mark that may stand around a value.
pub open spec fn is_mark(c: char) -> bool {
    c == '{' || c == '}' || c == '\'' || c == '"'
}

/// A text that neither begins nor ends with space or a mark.
pub open spec fn is_bare(raw: Seq<char>) -> bool {
    &&& raw.len() > 0
    &&& !text::is_space(raw[0]) && !is_mark(raw[0])
    &&& !text::is_space(raw.last()) && !is_mark(raw.last())
}

/// Every character is one of a kind.
pub open spec fn consists_of(s: Seq<char>, kind: spec_fn(char) -> bool) -> bool {
    forall|i: int| 0 <= i < s.len() ==> kind(#[trigger] s[i])
}

/// A text with marks around it, and space around those.
pub open spec fn dressed(
    space: Seq<char>,
    marks: Seq<char>,
    raw: Seq<char>,
    other_marks: Seq<char>,
    other_space: Seq<char>,
) -> Seq<char> {
    space + marks + raw + other_marks + other_space
}

/// The same letter, in upper or lower case.
pub open spec fn is_either(c: char, small: char, large: char) -> bool {
    c == small || c == large
}

/// The power of ten that a scale suffix stands for, in upper or lower case; what follows it is
/// a unit. `m` is a thousandth, and `meg` a million.
pub open spec fn scale(suffix: Seq<char>) -> Option<int> {
    let c = suffix[0];
    if is_either(c, 't', 'T') {
        Some(12)
    } else if is_either(c, 'g', 'G') {
        Some(9)
    } else if is_either(c, 'm', 'M') && suffix.len() >= 3 && is_either(suffix[1], 'e', 'E')
        && is_either(suffix[2], 'g', 'G') {
        Some(6)
    } else if is_either(c, 'k', 'K') {
        Some(3)
    } else if is_either(c, 'm', 'M') {
        Some(-3)
    } else if is_either(c, 'u', 'U') {
        Some(-6)
    } else if is_either(c, 'n', 'N') {
        Some(-9)
    } else if is_either(c, 'p', 'P') {
        Some(-12)
    } else if is_either(c, 'f', 'F') {
        Some(-15)
    } else {
        None
    }
}

proof fn lemma_bare(raw: Seq<char>)
    requires
        is_bare(raw),
    ensures
        unquote(trim(raw)) == raw,
{
    let space = |c: char| text::is_space(c);
    let quote = |c: char| text::is_quote(c);
    assert(trim_start_by(raw, space) == raw);
    assert(trim_end_by(raw, space) == raw);
    assert(trim_start_by(raw, quote) == raw);
    assert(trim_end_by(raw, quote) == raw);
}

/// Leading characters that are dropped make no difference.
proof fn lemma_drop_leading(before: Seq<char>, s: Seq<char>, drop: spec_fn(char) -> bool)
    requires
        consists_of(before, drop),
    ensures
        trim_start_by(before + s, drop) == trim_start_by(s, drop),
    decreases before.len(),
{
    if before.len() == 0 {
        assert(before + s =~= s);
    } else {
        let all = before + s;
        assert(drop(before[0]));
        assert(all[0] == before[0]);
        assert(all.skip(1) =~= before.skip(1) + s);
        assert forall|i: int| 0 <= i < before.skip(1).len() implies drop(
            #[trigger] before.skip(1)[i],
        ) by {
            assert(drop(before[i + 1]));
        }
        lemma_drop_leading(before.skip(1), s, drop);
    }
}

/// Trailing characters that are dropped make no difference.
proof fn lemma_drop_trailing(s: Seq<char>, after: Seq<char>, drop: spec_fn(char) -> bool)
    requires
        consists_of(after, drop),
    ensures
        trim_end_by(s + after, drop) == trim_end_by(s, drop),
    decreases after.len(),
{
    if after.len() == 0 {
        assert(s + after =~= s);
    } else {
        let all = s + after;
        assert(drop(after[after.len() - 1]));
        assert(all.last() == after.last());
        assert(all.drop_last() =~= s + after.drop_last());
        assert forall|i: int| 0 <= i < after.drop_last().len() implies drop(
            #[trigger] after.drop_last()[i],
        ) by {
            assert(drop(after[i]));
        }
        lemma_drop_trailing(s, after.drop_last(), drop);
    }
}

/// What is left of a text that is trimmed on both sides.
proof fn lemma_undressed(
    before: Seq<char>,
    s: Seq<char>,
    after: Seq<char>,
    drop: spec_fn(char) -> bool,
)
    requires
        consists_of(before, drop),
        consists_of(after, drop),
        s.len() > 0,
        !drop(s[0]),
        !drop(s.last()),
    ensures
        trim_end_by(trim_start_by(before + s + after, drop), drop) == s,
{
    assert(before + s + after =~= before + (s + after));
    lemma_drop_leading(before, s + after, drop);
    assert((s + after)[0] == s[0]);
    assert(trim_start_by(s + after, drop) == s + after);
    lemma_drop_trailing(s, after, drop);
    assert(trim_end_by(s, drop) == s);
}

/// Space around a value makes no difference, and neither do braces and quotation marks.
pub proof fn law_surroundings_make_no_difference<S: Scalar>(
    space: Seq<char>,
    marks: Seq<char>,
    raw: Seq<char>,
    other_marks: Seq<char>,
    other_space: Seq<char>,
)
    requires
        is_bare(raw),
        consists_of(space, |c: char| text::is_space(c)),
        consists_of(marks, |c: char| is_mark(c)),
        consists_of(other_marks, |c: char| is_mark(c)),
        consists_of(other_space, |c: char| text::is_space(c)),
    ensures
        match scalar::<S>(raw) {
            Ok(e) => scalar::<S>(dressed(space, marks, raw, other_marks, other_space)) == Ok::<
                Expr<S>,
                Seq<char>,
            >(e),
            Err(_) => scalar::<S>(dressed(space, marks, raw, other_marks, other_space)) is Err,
        },
{
    let drop_space = |c: char| text::is_space(c);
    let drop_mark = |c: char| text::is_quote(c);
    let all = dressed(space, marks, raw, other_marks, other_space);
    let inner = marks + raw + other_marks;
    assert(all =~= space + inner + other_space);
    assert forall|i: int| 0 <= i < marks.len() implies is_mark(#[trigger] marks[i]) by {
        assert((|c: char| is_mark(c))(marks[i]));
    }
    assert forall|i: int| 0 <= i < other_marks.len() implies is_mark(#[trigger] other_marks[i]) by {
        assert((|c: char| is_mark(c))(other_marks[i]));
    }
    assert(!drop_space(inner[0])) by {
        if marks.len() > 0 {
            assert(inner[0] == marks[0]);
        } else {
            assert(inner[0] == raw[0]);
        }
    }
    assert(!drop_space(inner.last())) by {
        if other_marks.len() > 0 {
            assert(inner.last() == other_marks[other_marks.len() - 1]);
        } else {
            assert(inner.last() == raw.last());
        }
    }
    lemma_undressed(space, inner, other_space, drop_space);
    assert(consists_of(marks, drop_mark));
    assert(consists_of(other_marks, drop_mark));
    lemma_undressed(marks, raw, other_marks, drop_mark);
    assert(unquote(trim(all)) == raw);
    lemma_bare(raw);
}

/// What reads as a number without a suffix is that number.
pub proof fn law_numbers_stand_for_themselves<S: Scalar>(raw: Seq<char>, x: S)
    requires
        is_bare(raw),
        !raw.contains('='),
        S::read(raw) == Some(x),
    ensures
        scalar::<S>(raw) == Ok::<Expr<S>, Seq<char>>(Expr::Constant(x)),
{
    lemma_bare(raw);
}

proof fn lemma_first_letter(s: Seq<char>, from: int, at: int)
    requires
        0 <= from <= at < s.len(),
        is_alphabetic(s[at]),
        forall|i: int| from <= i < at ==> !is_alphabetic(#[trigger] s[i]),
    ensures
        first_letter(s, from) == at,
    decreases at - from,
{
    if from < at {
        assert(!is_alphabetic(s[from]));
        lemma_first_letter(s, from + 1, at);
    }
}

/// A number with a scale suffix is that number times the power of ten that the suffix stands
/// for; letters without such a meaning make it no value at all.
pub proof fn law_suffix_scales_its_number<S: Scalar>(number: Seq<char>, suffix: Seq<char>, x: S)
    requires
        is_bare(number + suffix),
        suffix.len() > 0,
        is_alphabetic(suffix[0]),
        number.len() > 0,
        !is_alphabetic(number[0]) && number[0] != '_',
        forall|i: int| 0 <= i < number.len() ==> !is_alphabetic(#[trigger] number[i]),
        !number.contains('='),
        S::read(number) == Some(x),
        S::read(number + suffix) is None,
    ensures
        match scale(suffix) {
            Some(power) => scalar::<S>(number + suffix) == Ok::<Expr<S>, Seq<char>>(
                Expr::Constant(x.product(S::decade(power))),
            ),
            None => scalar::<S>(number + suffix) is Err,
        },
{
    let raw = number + suffix;
    lemma_bare(raw);
    assert(raw[number.len() as int] == suffix[0]);
    assert forall|i: int| 0 <= i < number.len() implies !is_alphabetic(#[trigger] raw[i]) by {
        assert(raw[i] == number[i]);
    }
    lemma_first_letter(raw, 0, number.len() as int);
    assert(raw.take(number.len() as int) =~= number);
    assert(raw.skip(number.len() as int) =~= suffix);
    assert(raw[0] == number[0]);
    let low = text::lower(suffix);
    assert(low.len() == suffix.len());
    assert(low[0] == text::lower_char(suffix[0]));
    if suffix.len() >= 3 {
        assert(low[1] == text::lower_char(suffix[1]));
        assert(low[2] == text::lower_char(suffix[2]));
        lemma_cases(suffix[1]);
        lemma_cases(suffix[2]);
    }
    lemma_cases(suffix[0]);
}

proof fn lemma_cases(c: char)
    ensures
        text::lower_char(c) == 't' <==> is_either(c, 't', 'T'),
        text::lower_char(c) == 'g' <==> is_either(c, 'g', 'G'),
        text::lower_char(c) == 'm' <==> is_either(c, 'm', 'M'),
        text::lower_char(c) == 'e' <==> is_either(c, 'e', 'E'),
        text::lower_char(c) == 'k' <==> is_either(c, 'k', 'K'),
        text::lower_char(c) == 'u' <==> is_either(c, 'u', 'U'),
        text::lower_char(c) == 'n' <==> is_either(c, 'n', 'N'),
        text::lower_char(c) == 'p' <==> is_either(c, 'p', 'P'),
        text::lower_char(c) == 'f' <==> is_either(c, 'f', 'F'),
{
}

/// A character that a symbol may have behind its first one.
pub open spec fn is_symbol_part(c: char) -> bool {
    is_alphabetic(c) || ('0' <= c <= '9') || c == '_' || c == '$' || c == '.'
}

/// What begins with a letter or an underscore and reads as no number is the symbol of that
/// name, if it is made of letters, digits, underscores, dollar signs and dots, and no value at
/// all otherwise.
pub proof fn law_names_are_symbols<S: Scalar>(raw: Seq<char>)
    requires
        is_bare(raw),
        is_alphabetic(raw[0]) || raw[0] == '_',
        forall|i: int| 0 <= i <= raw.len() ==> S::read(#[trigger] raw.take(i)) is None,
    ensures
        if consists_of(raw, |c: char| is_symbol_part(c)) {
            scalar::<S>(raw) == Ok::<Expr<S>, Seq<char>>(Expr::Symbol(raw))
        } else {
            scalar::<S>(raw) is Err
        },
{
    lemma_bare(raw);
    let kind = |c: char| is_symbol_part(c);
    assert(raw.take(raw.len() as int) =~= raw);
    lemma_letter_range(raw, 0);
    assert(S::read(raw.take(first_letter(raw, 0))) is None);
    if consists_of(raw, kind) {
        assert forall|i: int| 1 <= i < raw.len() implies is_symbol_part(#[trigger] raw[i]) by {
            assert(kind(raw[i]));
        }
    } else {
        let i = choose|i: int| 0 <= i < raw.len() && !kind(#[trigger] raw[i]);
        assert(!is_symbol_part(raw[i]));
        assert(i != 0);
    }
}

proof fn lemma_letter_range(s: Seq<char>, from: int)
    requires
        0 <= from <= s.len(),
    ensures
        from <= first_letter(s, from) <= s.len(),
    decreases s.len() - from,
{
    if from < s.len() && !text::is_letter(s[from]) {
        lemma_letter_range(s, from + 1);
    }
}

} // verus!
