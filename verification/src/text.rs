//! Character-level text operations used by the netlist layers.
//!
//! Every operation is stated over the sequence of characters of its argument, so the
//! rest of the library reasons about names and tokens as plain `Seq<char>` values.

use vstd::prelude::*;

verus! {

/// `String::push` appends one character to the end of the text.
pub assume_specification[ String::push ](s: &mut String, c: char)
    ensures
        final(s)@ == old(s)@.push(c),
;

/// What `Debug` of `str` makes of a text: the text in double quotes, with quotes, backslashes
/// and characters that cannot be printed escaped.
pub uninterp spec fn quoted(s: Seq<char>) -> Seq<char>;

/// `Debug` of `str`: the text in double quotes. How each character is escaped is left unsaid.
#[verifier::external_body]
pub(crate) fn quote(s: &str) -> (r: String)
    ensures
        r@ == quoted(s@),
{
    format!("{s:?}")
}

/// The ASCII upper-case form of one character; every other character is kept.
pub open spec fn upper_char(c: char) -> char {
    if 'a' <= c && c <= 'z' {
        ((c as u32 - 32) as u32) as char
    } else {
        c
    }
}

/// The ASCII lower-case form of one character; every other character is kept.
pub open spec fn lower_char(c: char) -> char {
    if 'A' <= c && c <= 'Z' {
        ((c as u32 + 32) as u32) as char
    } else {
        c
    }
}

/// ASCII upper-casing of a text.
pub open spec fn upper(s: Seq<char>) -> Seq<char> {
    Seq::new(s.len(), |i: int| upper_char(s[i]))
}

/// ASCII lower-casing of a text.
pub open spec fn lower(s: Seq<char>) -> Seq<char> {
    Seq::new(s.len(), |i: int| lower_char(s[i]))
}

/// Equality that ignores ASCII letter case.
pub open spec fn eq_ignoring_case(a: Seq<char>, b: Seq<char>) -> bool {
    upper(a) == upper(b)
}

/// An ASCII letter.
pub open spec fn is_letter(c: char) -> bool {
    ('a' <= c && c <= 'z') || ('A' <= c && c <= 'Z')
}

/// An ASCII digit.
pub open spec fn is_digit(c: char) -> bool {
    '0' <= c && c <= '9'
}

/// A character with the Unicode `White_Space` property.
pub open spec fn is_space(c: char) -> bool {
    let p = c as u32;
    (9 <= p && p <= 13) || p == 0x20 || p == 0x85 || p == 0xa0 || p == 0x1680 || (0x2000 <= p && p
        <= 0x200a) || p == 0x2028 || p == 0x2029 || p == 0x202f || p == 0x205f || p == 0x3000
}

/// The text without its leading characters that satisfy `drop`.
pub open spec fn trim_start_by(s: Seq<char>, drop: spec_fn(char) -> bool) -> Seq<char>
    decreases s.len(),
{
    if s.len() > 0 && drop(s[0]) {
        trim_start_by(s.skip(1), drop)
    } else {
        s
    }
}

/// The text without its trailing characters that satisfy `drop`.
pub open spec fn trim_end_by(s: Seq<char>, drop: spec_fn(char) -> bool) -> Seq<char>
    decreases s.len(),
{
    if s.len() > 0 && drop(s.last()) {
        trim_end_by(s.drop_last(), drop)
    } else {
        s
    }
}

/// The text without surrounding white space.
pub open spec fn trim(s: Seq<char>) -> Seq<char> {
    trim_end_by(trim_start_by(s, |c: char| is_space(c)), |c: char| is_space(c))
}

/// A character that may surround a scalar value: a brace or a quotation mark.
pub open spec fn is_quote(c: char) -> bool {
    c == '{' || c == '}' || c == '\'' || c == '"'
}

/// The text without surrounding braces and quotation marks.
pub open spec fn unquote(s: Seq<char>) -> Seq<char> {
    trim_end_by(trim_start_by(s, |c: char| is_quote(c)), |c: char| is_quote(c))
}

/// The position of the first `c` at or after `from`, or the length of the text.
pub open spec fn find_from(s: Seq<char>, c: char, from: int) -> int
    decreases s.len() - from,
{
    if from < 0 || from >= s.len() {
        s.len() as int
    } else if s[from] == c {
        from
    } else {
        find_from(s, c, from + 1)
    }
}

/// The position of the first `c`, or the length of the text.
pub open spec fn find(s: Seq<char>, c: char) -> int {
    find_from(s, c, 0)
}

/// The pieces of the text between occurrences of `c`, always at least one.
pub open spec fn split(s: Seq<char>, c: char) -> Seq<Seq<char>>
    decreases s.len(),
{
    let at = find(s, c);
    if 0 <= at < s.len() {
        seq![s.take(at)] + split(s.skip(at + 1), c)
    } else {
        seq![s]
    }
}

/// Code-point lexicographic order, strict.
pub open spec fn precedes(a: Seq<char>, b: Seq<char>) -> bool
    decreases a.len(),
{
    if b.len() == 0 {
        false
    } else if a.len() == 0 {
        true
    } else if a[0] == b[0] {
        precedes(a.skip(1), b.skip(1))
    } else {
        a[0] < b[0]
    }
}

/// The decimal digit character of `d`.
pub open spec fn digit_char(d: int) -> char {
    ((48 + d) as u32) as char
}

/// The decimal notation of a natural number.
pub open spec fn decimal(n: nat) -> Seq<char>
    decreases n,
{
    if n < 10 {
        seq![digit_char(n as int)]
    } else {
        decimal(n / 10).push(digit_char((n % 10) as int))
    }
}

/// The views of a list of texts.
pub open spec fn texts(v: Seq<String>) -> Seq<Seq<char>> {
    Seq::new(v.len(), |i: int| v[i]@)
}

/// The texts one after the other with `glue` in between.
pub open spec fn join(parts: Seq<Seq<char>>, glue: Seq<char>) -> Seq<char>
    decreases parts.len(),
{
    if parts.len() == 0 {
        Seq::empty()
    } else if parts.len() == 1 {
        parts[0]
    } else {
        join(parts.drop_last(), glue) + glue + parts.last()
    }
}

/// The characters of a text as a vector.
pub fn chars_of(s: &str) -> (r: Vec<char>)
    ensures
        r@ == s@,
{
    let mut v: Vec<char> = Vec::new();
    for c in it: s.chars()
        invariant
            v@ == it.seq().take(it.index() as int),
    {
        v.push(c);
    }
    v
}

/// The text made of the characters from `from` up to `to`.
pub fn text_of(v: &Vec<char>, from: usize, to: usize) -> (r: String)
    requires
        from <= to <= v@.len(),
    ensures
        r@ == v@.subrange(from as int, to as int),
{
    let mut s = String::new();
    let mut i: usize = from;
    while i < to
        invariant
            from <= i <= to <= v@.len(),
            s@ == v@.subrange(from as int, i as int),
        decreases to - i,
    {
        s.push(v[i]);
        i = i + 1;
        proof {
            assert(v@.subrange(from as int, i as int) =~= v@.subrange(from as int, i - 1).push(
                v@[i - 1],
            ));
        }
    }
    s
}

/// A copy of the text.
pub fn copy(s: &str) -> (r: String)
    ensures
        r@ == s@,
{
    s.to_owned()
}

/// Whether two texts hold the same characters.
pub fn same(a: &str, b: &str) -> (r: bool)
    ensures
        r == (a@ == b@),
{
    copy(a) == copy(b)
}

fn upper_of_char(c: char) -> (r: char)
    ensures
        r == upper_char(c),
{
    if 'a' <= c && c <= 'z' {
        ((c as u8) - 32) as char
    } else {
        c
    }
}

fn lower_of_char(c: char) -> (r: char)
    ensures
        r == lower_char(c),
{
    if 'A' <= c && c <= 'Z' {
        ((c as u8) + 32) as char
    } else {
        c
    }
}

/// The ASCII upper-case form of a text.
pub fn to_upper(s: &str) -> (r: String)
    ensures
        r@ == upper(s@),
{
    let mut out = String::new();
    for c in it: s.chars()
        invariant
            out@ == upper(it.seq().take(it.index() as int)),
    {
        out.push(upper_of_char(c));
        proof {
            assert(upper(it.seq().take(it.index() + 1)) =~= upper(
                it.seq().take(it.index() as int),
            ).push(upper_char(c)));
        }
    }
    out
}

/// The ASCII lower-case form of a text.
pub fn to_lower(s: &str) -> (r: String)
    ensures
        r@ == lower(s@),
{
    let mut out = String::new();
    for c in it: s.chars()
        invariant
            out@ == lower(it.seq().take(it.index() as int)),
    {
        out.push(lower_of_char(c));
        proof {
            assert(lower(it.seq().take(it.index() + 1)) =~= lower(
                it.seq().take(it.index() as int),
            ).push(lower_char(c)));
        }
    }
    out
}

/// Whether two texts are equal when ASCII letter case is ignored.
pub fn same_ignoring_case(a: &str, b: &str) -> (r: bool)
    ensures
        r == eq_ignoring_case(a@, b@),
{
    to_upper(a) == to_upper(b)
}

/// Two texts one after the other.
pub fn concat(a: &str, b: &str) -> (r: String)
    ensures
        r@ == a@ + b@,
{
    let mut s = copy(a);
    s.append(b);
    s
}

/// Three texts one after the other.
pub fn concat3(a: &str, b: &str, c: &str) -> (r: String)
    ensures
        r@ == a@ + b@ + c@,
{
    let mut s = concat(a, b);
    s.append(c);
    s
}

/// Five texts one after the other.
pub fn concat5(a: &str, b: &str, c: &str, d: &str, e: &str) -> (r: String)
    ensures
        r@ == a@ + b@ + c@ + d@ + e@,
{
    let mut s = concat3(a, b, c);
    s.append(d);
    s.append(e);
    s
}

/// Whether a character is white space.
pub fn is_space_char(c: char) -> (r: bool)
    ensures
        r == is_space(c),
{
    let p: u32 = c as u32;
    (9 <= p && p <= 13) || p == 0x20 || p == 0x85 || p == 0xa0 || p == 0x1680 || (0x2000 <= p && p
        <= 0x200a) || p == 0x2028 || p == 0x2029 || p == 0x202f || p == 0x205f || p == 0x3000
}

proof fn lemma_trim_start_step(v: Seq<char>, i: int, drop: spec_fn(char) -> bool)
    requires
        0 <= i < v.len(),
        drop(v[i]),
    ensures
        trim_start_by(v.skip(i), drop) == trim_start_by(v.skip(i + 1), drop),
{
    assert(v.skip(i).skip(1) =~= v.skip(i + 1));
}

proof fn lemma_trim_end_step(v: Seq<char>, from: int, to: int, drop: spec_fn(char) -> bool)
    requires
        0 <= from < to <= v.len(),
        drop(v[to - 1]),
    ensures
        trim_end_by(v.subrange(from, to), drop) == trim_end_by(v.subrange(from, to - 1), drop),
{
    assert(v.subrange(from, to).drop_last() =~= v.subrange(from, to - 1));
}

/// The text without surrounding white space.
pub fn trimmed(s: &str) -> (r: String)
    ensures
        r@ == trim(s@),
{
    let v = chars_of(s);
    let ghost drop = |c: char| is_space(c);
    let mut from: usize = 0;
    assert(v@.skip(0) =~= v@);
    while from < v.len() && is_space_char(v[from])
        invariant
            from <= v@.len(),
            drop == (|c: char| is_space(c)),
            trim_start_by(v@.skip(from as int), drop) == trim_start_by(v@, drop),
        decreases v@.len() - from,
    {
        proof {
            lemma_trim_start_step(v@, from as int, drop);
        }
        from = from + 1;
    }
    let mut to: usize = v.len();
    assert(v@.skip(from as int) =~= v@.subrange(from as int, to as int));
    while from < to && is_space_char(v[to - 1])
        invariant
            from <= to <= v@.len(),
            drop == (|c: char| is_space(c)),
            trim_end_by(v@.subrange(from as int, to as int), drop) == trim(v@),
        decreases to,
    {
        proof {
            lemma_trim_end_step(v@, from as int, to as int, drop);
        }
        to = to - 1;
    }
    text_of(&v, from, to)
}

fn is_quote_char(c: char) -> (r: bool)
    ensures
        r == is_quote(c),
{
    c == '{' || c == '}' || c == '\'' || c == '"'
}

/// The text without surrounding braces and quotation marks.
pub fn unquoted(s: &str) -> (r: String)
    ensures
        r@ == unquote(s@),
{
    let v = chars_of(s);
    let ghost drop = |c: char| is_quote(c);
    let mut from: usize = 0;
    assert(v@.skip(0) =~= v@);
    while from < v.len() && is_quote_char(v[from])
        invariant
            from <= v@.len(),
            drop == (|c: char| is_quote(c)),
            trim_start_by(v@.skip(from as int), drop) == trim_start_by(v@, drop),
        decreases v@.len() - from,
    {
        proof {
            lemma_trim_start_step(v@, from as int, drop);
        }
        from = from + 1;
    }
    let mut to: usize = v.len();
    assert(v@.skip(from as int) =~= v@.subrange(from as int, to as int));
    while from < to && is_quote_char(v[to - 1])
        invariant
            from <= to <= v@.len(),
            drop == (|c: char| is_quote(c)),
            trim_end_by(v@.subrange(from as int, to as int), drop) == unquote(v@),
        decreases to,
    {
        proof {
            lemma_trim_end_step(v@, from as int, to as int, drop);
        }
        to = to - 1;
    }
    text_of(&v, from, to)
}

/// The first position of a character holds it, and no earlier position does.
pub proof fn lemma_find(s: Seq<char>, c: char, from: int)
    requires
        0 <= from <= s.len(),
    ensures
        from <= find_from(s, c, from) <= s.len(),
        find_from(s, c, from) < s.len() ==> s[find_from(s, c, from)] == c,
        forall|i: int| from <= i < find_from(s, c, from) ==> s[i] != c,
    decreases s.len() - from,
{
    if from < s.len() && s[from] != c {
        lemma_find(s, c, from + 1);
    }
}

/// The position of the first `c` at or after `from`, or the number of characters.
pub fn position(v: &Vec<char>, c: char, from: usize) -> (r: usize)
    requires
        from <= v@.len(),
    ensures
        r == find_from(v@, c, from as int),
        from <= r <= v@.len(),
        r < v@.len() ==> v@[r as int] == c,
{
    let mut i: usize = from;
    while i < v.len() && v[i] != c
        invariant
            from <= i <= v@.len(),
            find_from(v@, c, i as int) == find_from(v@, c, from as int),
        decreases v@.len() - i,
    {
        i = i + 1;
    }
    i
}

/// Splits a text at the first `c`, without it; `None` where `c` does not occur.
pub fn split_once(s: &str, c: char) -> (r: Option<(String, String)>)
    ensures
        match r {
            Some((before, after)) => {
                &&& find(s@, c) < s@.len()
                &&& before@ == s@.take(find(s@, c))
                &&& after@ == s@.skip(find(s@, c) + 1)
            },
            None => find(s@, c) == s@.len(),
        },
{
    let v = chars_of(s);
    let at = position(&v, c, 0);
    if at < v.len() {
        let before = text_of(&v, 0, at);
        let after = text_of(&v, at + 1, v.len());
        assert(v@.subrange(0, at as int) =~= v@.take(at as int));
        assert(v@.subrange(at + 1, v@.len() as int) =~= v@.skip(at + 1));
        Some((before, after))
    } else {
        None
    }
}

proof fn lemma_find_skip(s: Seq<char>, c: char, k: int, from: int)
    requires
        0 <= k <= from <= s.len(),
    ensures
        find_from(s, c, from) == k + find_from(s.skip(k), c, from - k),
    decreases s.len() - from,
{
    if from < s.len() {
        assert(s.skip(k)[from - k] == s[from]);
        if s[from] != c {
            lemma_find_skip(s, c, k, from + 1);
        }
    }
}

/// The pieces of a text between occurrences of `c`.
pub fn pieces(s: &str, c: char) -> (r: Vec<String>)
    ensures
        texts(r@) == split(s@, c),
        r@.len() >= 1,
{
    let v = chars_of(s);
    let mut out: Vec<String> = Vec::new();
    let mut from: usize = 0;
    let ghost whole = split(v@, c);
    assert(v@.skip(0) =~= v@);
    assert(texts(out@) + split(v@, c) =~= whole);
    let mut at: usize = position(&v, c, 0);
    while at < v.len()
        invariant
            from <= at <= v@.len(),
            at == find_from(v@, c, from as int),
            at < v@.len() ==> v@[at as int] == c,
            whole == split(s@, c),
            v@ == s@,
            texts(out@) + split(v@.skip(from as int), c) == whole,
        decreases v@.len() - at,
    {
        proof {
            lemma_find_skip(v@, c, from as int, from as int);
        }
        let ghost rest = v@.skip(from as int);
        let piece = text_of(&v, from, at);
        let ghost before = out@;
        out.push(piece);
        proof {
            assert(find(rest, c) == at - from);
            assert(rest.take(at - from) =~= v@.subrange(from as int, at as int));
            assert(rest.skip(at - from + 1) =~= v@.skip(at + 1));
            assert(texts(out@) =~= texts(before).push(piece@));
            assert(texts(out@) + split(v@.skip(at + 1), c) =~= texts(before) + (seq![piece@]
                + split(v@.skip(at + 1), c)));
        }
        from = at + 1;
        at = position(&v, c, from);
    }
    proof {
        lemma_find_skip(v@, c, from as int, from as int);
    }
    let ghost before = out@;
    let piece = text_of(&v, from, v.len());
    out.push(piece);
    proof {
        assert(v@.skip(from as int) =~= v@.subrange(from as int, v@.len() as int));
        assert(texts(out@) =~= texts(before) + seq![piece@]);
    }
    out
}

/// The texts one after the other with `glue` in between.
pub fn joined(parts: &Vec<String>, glue: &str) -> (r: String)
    ensures
        r@ == join(texts(parts@), glue@),
{
    let mut s = String::new();
    let mut i: usize = 0;
    assert(texts(parts@).take(0) =~= Seq::<Seq<char>>::empty());
    while i < parts.len()
        invariant
            i <= parts@.len(),
            s@ == join(texts(parts@).take(i as int), glue@),
        decreases parts@.len() - i,
    {
        proof {
            assert(texts(parts@).take(i + 1).drop_last() =~= texts(parts@).take(i as int));
        }
        if i > 0 {
            s.append(glue);
        }
        s.append(parts[i].as_str());
        proof {
            if i == 0 {
                assert(s@ =~= parts@[0]@);
            }
        }
        i = i + 1;
    }
    assert(texts(parts@).take(i as int) =~= texts(parts@));
    s
}

/// Whether `a` comes strictly before `b` in code-point order.
pub fn is_before(a: &str, b: &str) -> (r: bool)
    ensures
        r == precedes(a@, b@),
{
    let x = chars_of(a);
    let y = chars_of(b);
    let mut i: usize = 0;
    assert(x@.skip(0) =~= x@);
    assert(y@.skip(0) =~= y@);
    while i < x.len() && i < y.len() && x[i] == y[i]
        invariant
            i <= x@.len(),
            i <= y@.len(),
            precedes(x@.skip(i as int), y@.skip(i as int)) == precedes(x@, y@),
        decreases x@.len() - i,
    {
        proof {
            assert(x@.skip(i as int).skip(1) =~= x@.skip(i + 1));
            assert(y@.skip(i as int).skip(1) =~= y@.skip(i + 1));
        }
        i = i + 1;
    }
    if i >= y.len() {
        false
    } else if i >= x.len() {
        true
    } else {
        x[i] < y[i]
    }
}

/// The decimal notation of a number.
pub fn number_text(n: usize) -> (r: String)
    ensures
        r@ == decimal(n as nat),
{
    large_number_text(n as u128)
}

/// The decimal notation of a number that may exceed the address range.
pub fn large_number_text(n: u128) -> (r: String)
    ensures
        r@ == decimal(n as nat),
    decreases n,
{
    if n < 10 {
        let mut s = String::new();
        s.push((48 + n as u8) as char);
        assert(s@ =~= seq![digit_char(n as int)]);
        s
    } else {
        let mut s = large_number_text(n / 10);
        s.push((48 + (n % 10) as u8) as char);
        s
    }
}

/// A copy of a list of texts.
pub fn copy_texts(list: &Vec<String>) -> (r: Vec<String>)
    ensures
        texts(r@) == texts(list@),
        r@.len() == list@.len(),
        forall|i: int| 0 <= i < r@.len() ==> (#[trigger] r@[i])@ == list@[i]@,
{
    let mut out: Vec<String> = Vec::new();
    let mut i: usize = 0;
    while i < list.len()
        invariant
            i <= list@.len(),
            out@.len() == i,
            forall|j: int| 0 <= j < i ==> (#[trigger] out@[j])@ == list@[j]@,
        decreases list@.len() - i,
    {
        out.push(list[i].clone());
        i = i + 1;
    }
    assert(texts(out@) =~= texts(list@));
    out
}

/// The order on texts is irreflexive.
pub proof fn lemma_precedes_irreflexive(a: Seq<char>)
    ensures
        !precedes(a, a),
    decreases a.len(),
{
    if a.len() > 0 {
        lemma_precedes_irreflexive(a.skip(1));
    }
}

/// The order on texts is transitive.
pub proof fn lemma_precedes_transitive(a: Seq<char>, b: Seq<char>, c: Seq<char>)
    requires
        precedes(a, b),
        precedes(b, c),
    ensures
        precedes(a, c),
    decreases a.len(),
{
    if a.len() > 0 && b.len() > 0 && c.len() > 0 && a[0] == b[0] && b[0] == c[0] {
        lemma_precedes_transitive(a.skip(1), b.skip(1), c.skip(1));
    }
}

/// Of two different texts one comes before the other.
pub proof fn lemma_precedes_total(a: Seq<char>, b: Seq<char>)
    ensures
        a == b || precedes(a, b) || precedes(b, a),
    decreases a.len(),
{
    if a.len() > 0 && b.len() > 0 && a[0] == b[0] {
        lemma_precedes_total(a.skip(1), b.skip(1));
        if a.skip(1) == b.skip(1) {
            assert(a =~= seq![a[0]] + a.skip(1));
            assert(b =~= seq![b[0]] + b.skip(1));
            assert(a == b);
        }
    } else if a.len() == 0 && b.len() == 0 {
        assert(a =~= b);
    }
}

/// The number a sequence of digits denotes.
pub open spec fn digits_value(s: Seq<char>) -> nat
    decreases s.len(),
{
    if s.len() == 0 {
        0
    } else {
        digits_value(s.drop_last()) * 10 + (s.last() as u32 - 48) as nat
    }
}

/// The natural number a text denotes: digits, at least one, behind an optional plus sign.
pub open spec fn natural(s: Seq<char>) -> Option<nat> {
    let digits = if s.len() > 0 && s[0] == '+' {
        s.skip(1)
    } else {
        s
    };
    if digits.len() > 0 && all_digits(digits) {
        Some(digits_value(digits))
    } else {
        None
    }
}

/// Every character is a digit.
pub open spec fn all_digits(s: Seq<char>) -> bool {
    forall|i: int| 0 <= i < s.len() ==> is_digit(#[trigger] s[i])
}

/// Reads a natural number; `None` too where it is too large to be held.
pub fn parse_natural(s: &str) -> (r: Option<usize>)
    ensures
        match natural(s@) {
            Some(n) => r == (if n <= usize::MAX {
                Some(n as usize)
            } else {
                None
            }),
            None => r is None,
        },
{
    let v = chars_of(s);
    let from: usize = if v.len() > 0 && v[0] == '+' {
        1
    } else {
        0
    };
    let ghost digits = s@.skip(from as int);
    proof {
        assert(s@.skip(0) =~= s@);
    }
    if from == v.len() {
        return None;
    }
    let mut value: usize = 0;
    let mut fits: bool = true;
    let mut i: usize = from;
    assert(digits.take(0) =~= Seq::empty());
    while i < v.len()
        invariant
            from <= i <= v@.len(),
            v@ == s@,
            digits == s@.skip(from as int),
            digits == (if s@.len() > 0 && s@[0] == '+' {
                s@.skip(1)
            } else {
                s@
            }),
            digits.len() > 0,
            forall|j: int| 0 <= j < i - from ==> is_digit(#[trigger] digits[j]),
            fits ==> value == digits_value(digits.take(i - from)),
            !fits ==> digits_value(digits.take(i - from)) > usize::MAX,
        decreases v@.len() - i,
    {
        let c = v[i];
        assert(digits[i - from] == c);
        if !(c >= '0' && c <= '9') {
            assert(!is_digit(digits[i - from]));
            assert(!all_digits(digits));
            return None;
        }
        let d: usize = (c as u32 - 48) as usize;
        let ghost before = digits.take(i - from);
        assert(digits.take(i - from + 1).drop_last() =~= before);
        if fits {
            match value.checked_mul(10) {
                Some(tens) => match tens.checked_add(d) {
                    Some(sum) => {
                        value = sum;
                    },
                    None => {
                        fits = false;
                    },
                },
                None => {
                    fits = false;
                },
            }
        }
        i = i + 1;
    }
    assert(digits.take(i - from) =~= digits);
    if fits {
        Some(value)
    } else {
        None
    }
}

} // verus!
