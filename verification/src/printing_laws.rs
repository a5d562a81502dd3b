//! The text of an expression denotes its value, apart from rounding.
//!
//! The text is read as any calculator would read it: sums of products of factors, `*` and `/`
//! from the left, brackets, and the function `sqrt`.

use crate::expr::{
    coefficient_and_base, collected_factors, collected_terms, constant_product, constant_sum,
    denominator, difference, factors_of, group_terms, groups_terms, is_simple_symbol, leaves,
    leaves_of, minus_one, negation, net_powers, numerator, product, product_of_factors, reciprocal,
    resolve, scalar, shown, shown_list, sqrt, sum, sum_of_terms, term_groups, terms_of, under_one,
    value, value_of_product, value_of_sum, Expr,
};
use crate::field::{
    exact, lemma_equal, lemma_product_associates, lemma_product_cancels, lemma_product_commutes,
    lemma_product_one, lemma_quotient, lemma_sum_associates, lemma_sum_zero,
};
use crate::residue::Residue;
use crate::scalar::Scalar;
use crate::text;
use vstd::prelude::*;

verus! {

// A reader of arithmetic

/// A character that a number is written with.
pub open spec fn in_number(c: char) -> bool {
    text::is_digit(c) || c == '.' || c == '-'
}

/// A character that a name is written with.
pub open spec fn in_name(c: char) -> bool {
    text::is_letter(c) || text::is_digit(c) || c == '_' || c == '$' || c == '.'
}

/// The end of a run of characters, from a position on.
pub open spec fn run_end(s: Seq<char>, i: int, within: spec_fn(char) -> bool) -> int
    decreases s.len() - i,
{
    if 0 <= i < s.len() && within(s[i]) {
        run_end(s, i + 1, within)
    } else {
        i
    }
}

/// An operator with a space on either side stands at a position.
pub open spec fn operator_at(s: Seq<char>, i: int, c: char) -> bool {
    0 <= i && i + 3 <= s.len() && s[i] == ' ' && s[i + 1] == c && s[i + 2] == ' '
}

/// Reads a factor: a number, a name, a square root, or a sum in brackets. The result is its
/// value and where it ends.
pub open spec fn read_factor<S: Scalar>(s: Seq<char>, i: int, values: Map<Seq<char>, S>) -> Option<
    (S, int),
>
    decreases s.len() - i, 0nat,
{
    if i < 0 || i >= s.len() {
        None
    } else if s[i] == '(' {
        match read_sum(s, i + 1, S::nought(), values) {
            Some((v, j)) => if 0 <= j < s.len() && s[j] == ')' {
                Some((v, j + 1))
            } else {
                None
            },
            None => None,
        }
    } else if text::is_digit(s[i]) || s[i] == '-' {
        let j = run_end(s, i, |c: char| in_number(c));
        match S::read(s.subrange(i, j)) {
            Some(v) => Some((v, j)),
            None => None,
        }
    } else if in_name(s[i]) {
        let j = run_end(s, i, |c: char| in_name(c));
        if i < j < s.len() && s[j] == '(' {
            if s.subrange(i, j) == "sqrt"@ {
                match read_sum(s, j + 1, S::nought(), values) {
                    Some((v, k)) => if 0 <= k < s.len() && s[k] == ')' {
                        Some((v.root(), k + 1))
                    } else {
                        None
                    },
                    None => None,
                }
            } else {
                None
            }
        } else {
            match resolve(values, s.subrange(i, j)) {
                Some(v) => Some((v, j)),
                None => None,
            }
        }
    } else {
        None
    }
}

/// Reads a product from a factor on, multiplied by what came before.
pub open spec fn read_product<S: Scalar>(
    s: Seq<char>,
    i: int,
    before: S,
    values: Map<Seq<char>, S>,
) -> Option<(S, int)>
    decreases s.len() - i, 1nat,
{
    match read_factor(s, i, values) {
        Some((v, j)) => if i < j <= s.len() {
            read_product_on(s, j, before.product(v), values)
        } else {
            None
        },
        None => None,
    }
}

/// Reads a product from an operator on.
pub open spec fn read_product_on<S: Scalar>(
    s: Seq<char>,
    i: int,
    before: S,
    values: Map<Seq<char>, S>,
) -> Option<(S, int)>
    decreases s.len() - i, 2nat,
{
    if operator_at(s, i, '*') {
        read_product(s, i + 3, before, values)
    } else if operator_at(s, i, '/') {
        match read_factor(s, i + 3, values) {
            Some((v, j)) => if i + 3 < j <= s.len() && !v.equal(S::nought()) {
                read_product_on(s, j, before.quotient(v), values)
            } else {
                None
            },
            None => None,
        }
    } else {
        Some((before, i))
    }
}

/// Reads a sum from a product on, added to what came before.
pub open spec fn read_sum<S: Scalar>(
    s: Seq<char>,
    i: int,
    before: S,
    values: Map<Seq<char>, S>,
) -> Option<(S, int)>
    decreases s.len() - i, 3nat,
{
    match read_product(s, i, S::unit(), values) {
        Some((v, j)) => if i < j <= s.len() {
            read_sum_on(s, j, before.sum(v), values)
        } else {
            None
        },
        None => None,
    }
}

/// Reads a sum from an operator on.
pub open spec fn read_sum_on<S: Scalar>(
    s: Seq<char>,
    i: int,
    before: S,
    values: Map<Seq<char>, S>,
) -> Option<(S, int)>
    decreases s.len() - i, 4nat,
{
    if operator_at(s, i, '+') {
        read_sum(s, i + 3, before, values)
    } else {
        Some((before, i))
    }
}

/// The value that a text denotes, with values for its names; `None` where it is no arithmetic.
pub open spec fn denoted<S: Scalar>(s: Seq<char>, values: Map<Seq<char>, S>) -> Option<S> {
    match read_sum(s, 0, S::nought(), values) {
        Some((v, j)) => if j == s.len() {
            Some(v)
        } else {
            None
        },
        None => None,
    }
}

// Expressions that can be read

/// A number whose text is read as the number.
pub open spec fn is_legible_number<S: Scalar>(x: S) -> bool {
    &&& x.shown().len() > 0
    &&& text::is_digit(x.shown()[0]) || x.shown()[0] == '-'
    &&& forall|i: int| 0 <= i < x.shown().len() ==> in_number(#[trigger] x.shown()[i])
    &&& S::read(x.shown()) == Some(x)
}

/// An expression whose numbers and names can be read, with no empty sum or product in it, and no
/// reciprocal directly under another, which [`crate::expr::reciprocal`] never makes.
pub open spec fn is_legible<S: Scalar>(e: Expr<S>) -> bool
    decreases e,
{
    match e {
        Expr::Constant(x) => is_legible_number(x),
        Expr::Symbol(name) => is_simple_symbol(name),
        Expr::Add(list) => list.len() > 0 && forall|i: int|
            0 <= i < list.len() ==> is_legible(#[trigger] list[i]),
        Expr::Multiply(list) => list.len() > 0 && forall|i: int|
            0 <= i < list.len() ==> is_legible(#[trigger] list[i]),
        Expr::Reciprocal(inner) => is_legible(*inner) && !(*inner is Reciprocal),
        Expr::Sqrt(inner) => is_legible(*inner),
    }
}

/// A text stands at a position of another.
spec fn stands_at(s: Seq<char>, i: int, t: Seq<char>) -> bool {
    0 <= i && i + t.len() <= s.len() && forall|k: int|
        0 <= k < t.len() ==> s[i + k] == #[trigger] t[k]
}

proof fn lemma_stands(s: Seq<char>, i: int, t: Seq<char>)
    requires
        stands_at(s, i, t),
    ensures
        s.subrange(i, i + t.len()) == t,
{
    assert(s.subrange(i, i + t.len()) =~= t);
}

proof fn lemma_stands_apart(s: Seq<char>, i: int, a: Seq<char>, b: Seq<char>)
    requires
        stands_at(s, i, a + b),
    ensures
        stands_at(s, i, a),
        stands_at(s, i + a.len(), b),
{
    let t = a + b;
    assert forall|k: int| 0 <= k < a.len() implies s[i + k] == #[trigger] a[k] by {
        assert(t[k] == a[k]);
    }
    assert forall|k: int| 0 <= k < b.len() implies s[i + a.len() + k] == #[trigger] b[k] by {
        assert(t[a.len() + k] == b[k]);
        assert(s[i + (a.len() + k)] == t[a.len() + k]);
    }
}

/// A factor is over at a position.
spec fn is_factor_end(s: Seq<char>, p: int) -> bool {
    p == s.len() || (0 <= p < s.len() && (s[p] == ' ' || s[p] == ')'))
}

/// A product is over at a position.
spec fn is_product_end(s: Seq<char>, p: int) -> bool {
    p == s.len() || (0 <= p < s.len() && s[p] == ')') || operator_at(s, p, '+')
}

proof fn lemma_run(s: Seq<char>, i: int, j: int, within: spec_fn(char) -> bool)
    requires
        0 <= i <= j <= s.len(),
        forall|k: int| i <= k < j ==> within(#[trigger] s[k]),
        j == s.len() || !within(s[j]),
    ensures
        run_end(s, i, within) == j,
    decreases j - i,
{
    if i < j {
        assert(within(s[i]));
        lemma_run(s, i + 1, j, within);
    }
}

/// Reading `1` gives one.
pub open spec fn reads_one<S: Scalar>() -> bool {
    S::read("1"@) == Some(S::unit())
}

/// The text of a factor is read as its value.
proof fn lemma_factor<S: Scalar>(e: Expr<S>, s: Seq<char>, i: int, values: Map<Seq<char>, S>)
    requires
        exact::<S>(),
        reads_one::<S>(),
        is_legible(e),
        !(e is Reciprocal),
        value(e, values) is Ok,
        stands_at(s, i, shown(e, 3)),
        is_factor_end(s, i + shown(e, 3).len()),
    ensures
        shown(e, 3).len() > 0,
        read_factor(s, i, values) == Some((value(e, values)->Ok_0, i + shown(e, 3).len())),
    decreases e, 0nat,
{
    let t = shown(e, 3);
    let end = i + t.len();
    match e {
        Expr::Constant(x) => {
            let within = |c: char| in_number(c);
            assert(s[i + 0] == t[0]);
            assert forall|k: int| i <= k < end implies within(#[trigger] s[k]) by {
                assert(s[i + (k - i)] == t[k - i]);
                assert(in_number(x.shown()[k - i]));
            }
            lemma_run(s, i, end, within);
            lemma_stands(s, i, t);
        },
        Expr::Symbol(name) => {
            let within = |c: char| in_name(c);
            assert(s[i + 0] == t[0]);
            assert forall|k: int| i <= k < end implies within(#[trigger] s[k]) by {
                assert(s[i + (k - i)] == t[k - i]);
                if k > i {
                    assert(text::is_letter(name[k - i]) || text::is_digit(name[k - i])
                        || name[k - i] == '_' || name[k - i] == '$' || name[k - i] == '.');
                }
            }
            lemma_run(s, i, end, within);
            lemma_stands(s, i, t);
        },
        Expr::Add(list) => {
            let body = shown_list(list, list.len(), " + "@, 1);
            reveal_strlit("(");
            reveal_strlit(")");
            assert(t == "("@ + body + ")"@);
            lemma_stands_apart(s, i, "("@ + body, ")"@);
            lemma_stands_apart(s, i, "("@, body);
            let q = i + 1 + body.len();
            assert(s[i + 0] == "("@[0]);
            assert(s[q + 0] == ")"@[0]);
            lemma_sum_list(list, list.len(), s, i + 1, S::nought(), values);
            lemma_sum_zero(value(e, values)->Ok_0);
        },
        Expr::Multiply(list) => {
            let body = shown_list(list, list.len(), " * "@, 2);
            reveal_strlit("(");
            reveal_strlit(")");
            assert(t == "("@ + body + ")"@);
            lemma_stands_apart(s, i, "("@ + body, ")"@);
            lemma_stands_apart(s, i, "("@, body);
            let q = i + 1 + body.len();
            assert(s[i + 0] == "("@[0]);
            assert(s[q + 0] == ")"@[0]);
            lemma_product_list(list, list.len(), s, i + 1, S::unit(), values);
            let v = value(e, values)->Ok_0;
            lemma_product_one(v);
            assert(read_product_on(s, q, v, values) == Some((v, q)));
            lemma_sum_zero(v);
            assert(read_sum_on(s, q, v, values) == Some((v, q)));
        },
        Expr::Reciprocal(_) => {},
        Expr::Sqrt(inner) => {
            let body = shown(*inner, 0);
            reveal_strlit("sqrt(");
            reveal_strlit("sqrt");
            reveal_strlit(")");
            assert(t == "sqrt("@ + body + ")"@);
            lemma_stands_apart(s, i, "sqrt("@ + body, ")"@);
            lemma_stands_apart(s, i, "sqrt("@, body);
            let q = i + 5 + body.len();
            assert(s[i + 0] == "sqrt("@[0]);
            assert(s[i + 1] == "sqrt("@[1]);
            assert(s[i + 2] == "sqrt("@[2]);
            assert(s[i + 3] == "sqrt("@[3]);
            assert(s[i + 4] == "sqrt("@[4]);
            assert(s[q + 0] == ")"@[0]);
            lemma_run(s, i, i + 4, |c: char| in_name(c));
            assert(s.subrange(i, i + 4) =~= "sqrt"@);
            lemma_sum(*inner, s, i + 5, S::nought(), values);
            lemma_same_text(*inner);
            lemma_sum_zero(value(*inner, values)->Ok_0);
        },
    }
}

/// On the outermost level and in a sum an expression has the same text; and what is no sum has
/// it in a product too.
proof fn lemma_same_text<S: Scalar>(e: Expr<S>)
    ensures
        shown(e, 0) == shown(e, 1),
        !(e is Add) ==> shown(e, 1) == shown(e, 2),
        !(e is Multiply) && !(e is Reciprocal) ==> shown(e, 2) == shown(e, 3),
{
}

/// The text of what stands in a product is read as its value, from the left.
proof fn lemma_product_text<S: Scalar>(
    e: Expr<S>,
    s: Seq<char>,
    i: int,
    before: S,
    values: Map<Seq<char>, S>,
)
    requires
        exact::<S>(),
        reads_one::<S>(),
        is_legible(e),
        value(e, values) is Ok,
        stands_at(s, i, shown(e, 2)),
        is_factor_end(s, i + shown(e, 2).len()),
    ensures
        shown(e, 2).len() > 0,
        read_product(s, i, before, values) == read_product_on(
            s,
            i + shown(e, 2).len(),
            before.product(value(e, values)->Ok_0),
            values,
        ),
    decreases e, 1nat,
{
    lemma_same_text(e);
    match e {
        Expr::Multiply(list) => {
            lemma_product_list(list, list.len(), s, i, before, values);
        },
        Expr::Reciprocal(inner) => {
            let head = "1 / "@;
            let body = shown(*inner, 3);
            reveal_strlit("1 / ");
            reveal_strlit("1");
            lemma_stands_apart(s, i, head, body);
            assert(s[i + 0] == head[0]);
            assert(s[i + 1] == head[1]);
            assert(s[i + 2] == head[2]);
            assert(s[i + 3] == head[3]);
            let within = |c: char| in_number(c);
            lemma_run(s, i, i + 1, within);
            assert(s.subrange(i, i + 1) =~= "1"@);
            assert(read_factor(s, i, values) == Some((S::unit(), i + 1)));
            lemma_factor(*inner, s, i + 4, values);
            let d = value(*inner, values)->Ok_0;
            assert(operator_at(s, i + 1, '/'));
            assert(!operator_at(s, i + 1, '*'));
            lemma_product_one(before);
            lemma_over(before, d);
            assert(read_product(s, i, before, values) == read_product_on(
                s,
                i + 1,
                before,
                values,
            ));
        },
        _ => {
            lemma_factor(e, s, i, values);
        },
    }
}

/// `x / d == x * (1 / d)`.
proof fn lemma_over<S: Scalar>(x: S, d: S)
    requires
        exact::<S>(),
        !d.equal(S::nought()),
    ensures
        x.quotient(d) == x.product(S::unit().quotient(d)),
{
    lemma_equal(d, S::nought());
    let q = S::unit().quotient(d);
    lemma_quotient(S::unit(), d);
    lemma_quotient(x, d);
    lemma_product_associates(x, q, d);
    lemma_product_one(x);
    lemma_product_commutes(x.product(q), d);
    lemma_product_commutes(x.quotient(d), d);
    lemma_product_cancels(d, x.product(q), x.quotient(d));
}

proof fn lemma_product_list<S: Scalar>(
    list: Seq<Expr<S>>,
    n: nat,
    s: Seq<char>,
    i: int,
    before: S,
    values: Map<Seq<char>, S>,
)
    requires
        exact::<S>(),
        reads_one::<S>(),
        1 <= n <= list.len(),
        forall|k: int| 0 <= k < list.len() ==> is_legible(#[trigger] list[k]),
        value_of_product(list, n, values) is Ok,
        stands_at(s, i, shown_list(list, n, " * "@, 2)),
        is_factor_end(s, i + shown_list(list, n, " * "@, 2).len()),
    ensures
        shown_list(list, n, " * "@, 2).len() > 0,
        read_product(s, i, before, values) == read_product_on(
            s,
            i + shown_list(list, n, " * "@, 2).len(),
            before.product(value_of_product(list, n, values)->Ok_0),
            values,
        ),
    decreases list, n,
{
    let e = list[n - 1];
    assert(is_legible(e));
    reveal_with_fuel(value_of_product, 2);
    if n == 1 {
        lemma_product_text(e, s, i, before, values);
        lemma_product_one(value(e, values)->Ok_0);
    } else {
        let less = (n - 1) as nat;
        let first = shown_list(list, less, " * "@, 2);
        let last = shown(e, 2);
        reveal_strlit(" * ");
        assert(shown_list(list, n, " * "@, 2) == first + " * "@ + last);
        lemma_stands_apart(s, i, first + " * "@, last);
        lemma_stands_apart(s, i, first, " * "@);
        let p = i + first.len();
        assert(s[p + 0] == " * "@[0]);
        assert(s[p + 1] == " * "@[1]);
        assert(s[p + 2] == " * "@[2]);
        lemma_product_list(list, less, s, i, before, values);
        let v = value_of_product(list, less, values)->Ok_0;
        assert(operator_at(s, p, '*'));
        lemma_product_text(e, s, p + 3, before.product(v), values);
        lemma_product_associates(before, v, value(e, values)->Ok_0);
    }
}

/// The text of what stands in a sum is read as its value, from the left.
proof fn lemma_sum<S: Scalar>(
    e: Expr<S>,
    s: Seq<char>,
    i: int,
    before: S,
    values: Map<Seq<char>, S>,
)
    requires
        exact::<S>(),
        reads_one::<S>(),
        is_legible(e),
        value(e, values) is Ok,
        stands_at(s, i, shown(e, 1)),
        is_product_end(s, i + shown(e, 1).len()),
    ensures
        shown(e, 1).len() > 0,
        read_sum(s, i, before, values) == read_sum_on(
            s,
            i + shown(e, 1).len(),
            before.sum(value(e, values)->Ok_0),
            values,
        ),
    decreases e, 2nat,
{
    lemma_same_text(e);
    match e {
        Expr::Add(list) => {
            lemma_sum_list(list, list.len(), s, i, before, values);
        },
        _ => {
            let p = i + shown(e, 1).len();
            lemma_product_text(e, s, i, S::unit(), values);
            let v = value(e, values)->Ok_0;
            lemma_product_one(v);
            assert(read_product_on(s, p, v, values) == Some((v, p)));
        },
    }
}

proof fn lemma_sum_list<S: Scalar>(
    list: Seq<Expr<S>>,
    n: nat,
    s: Seq<char>,
    i: int,
    before: S,
    values: Map<Seq<char>, S>,
)
    requires
        exact::<S>(),
        reads_one::<S>(),
        1 <= n <= list.len(),
        forall|k: int| 0 <= k < list.len() ==> is_legible(#[trigger] list[k]),
        value_of_sum(list, n, values) is Ok,
        stands_at(s, i, shown_list(list, n, " + "@, 1)),
        is_product_end(s, i + shown_list(list, n, " + "@, 1).len()),
    ensures
        shown_list(list, n, " + "@, 1).len() > 0,
        read_sum(s, i, before, values) == read_sum_on(
            s,
            i + shown_list(list, n, " + "@, 1).len(),
            before.sum(value_of_sum(list, n, values)->Ok_0),
            values,
        ),
    decreases list, n,
{
    let e = list[n - 1];
    assert(is_legible(e));
    reveal_with_fuel(value_of_sum, 2);
    if n == 1 {
        lemma_sum(e, s, i, before, values);
        lemma_sum_zero(value(e, values)->Ok_0);
    } else {
        let less = (n - 1) as nat;
        let first = shown_list(list, less, " + "@, 1);
        let last = shown(e, 1);
        reveal_strlit(" + ");
        assert(shown_list(list, n, " + "@, 1) == first + " + "@ + last);
        lemma_stands_apart(s, i, first + " + "@, last);
        lemma_stands_apart(s, i, first, " + "@);
        let p = i + first.len();
        assert(s[p + 0] == " + "@[0]);
        assert(s[p + 1] == " + "@[1]);
        assert(s[p + 2] == " + "@[2]);
        assert(operator_at(s, p, '+'));
        lemma_sum_list(list, less, s, i, before, values);
        let v = value_of_sum(list, less, values)->Ok_0;
        lemma_sum(e, s, p + 3, before.sum(v), values);
        lemma_sum_associates(before, v, value(e, values)->Ok_0);
    }
}

/// The text of an expression denotes its value.
pub proof fn law_text_denotes_value<S: Scalar>(e: Expr<S>, values: Map<Seq<char>, S>)
    requires
        exact::<S>(),
        reads_one::<S>(),
        is_legible(e),
        value(e, values) is Ok,
    ensures
        denoted(shown(e, 0), values) == Some(value(e, values)->Ok_0),
{
    let s = shown(e, 0);
    lemma_same_text(e);
    assert(stands_at(s, 0, s));
    lemma_sum(e, s, 0, S::nought(), values);
    lemma_sum_zero(value(e, values)->Ok_0);
}

// Expressions that are made

/// Every sum and every product in an expression has two operands or more.
pub open spec fn has_operands<S: Scalar>(e: Expr<S>) -> bool
    decreases e,
{
    match e {
        Expr::Constant(_) => true,
        Expr::Symbol(_) => true,
        Expr::Add(list) => list.len() > 1 && forall|i: int|
            0 <= i < list.len() ==> has_operands(#[trigger] list[i]),
        Expr::Multiply(list) => list.len() > 1 && forall|i: int|
            0 <= i < list.len() ==> has_operands(#[trigger] list[i]),
        Expr::Reciprocal(inner) => has_operands(*inner),
        Expr::Sqrt(inner) => has_operands(*inner),
    }
}

/// An expression that can be read and in which no operator is left without operands.
pub open spec fn is_tidy<S: Scalar>(e: Expr<S>) -> bool {
    is_legible(e) && has_operands(e)
}

/// Every number can be read.
pub open spec fn reads_numbers<S: Scalar>() -> bool {
    forall|x: S| #[trigger] is_legible_number(x)
}

spec fn all_tidy<S: Scalar>(list: Seq<Expr<S>>) -> bool {
    forall|i: int| 0 <= i < list.len() ==> is_tidy(#[trigger] list[i])
}

proof fn lemma_tidy_list<S: Scalar>(list: Seq<Expr<S>>)
    requires
        all_tidy(list),
        list.len() > 1,
    ensures
        is_tidy(Expr::Add(list)),
        is_tidy(Expr::Multiply(list)),
{
    assert forall|i: int| 0 <= i < list.len() implies is_legible(#[trigger] list[i])
        && has_operands(list[i]) by {
        assert(is_tidy(list[i]));
    }
}

proof fn lemma_tidy_operands<S: Scalar>(e: Expr<S>)
    requires
        is_tidy(e),
    ensures
        all_tidy(terms_of(e)),
        all_tidy(factors_of(e)),
        e is Multiply ==> e->Multiply_0.len() > 1,
{
}

proof fn lemma_tidy_base<S: Scalar>(e: Expr<S>)
    requires
        is_tidy(e),
    ensures
        is_tidy(coefficient_and_base(e).1),
{
    lemma_tidy_operands(e);
    if let Expr::Multiply(factors) = e {
        assert(factors_of(e) == factors);
        if factors.len() > 2 {
            let rest = factors.skip(1);
            assert forall|i: int| 0 <= i < rest.len() implies is_tidy(#[trigger] rest[i]) by {
                assert(is_tidy(factors[i + 1]));
            }
            lemma_tidy_list(rest);
        } else {
            assert(is_tidy(factors[1]));
        }
    }
}

spec fn tidy_bases<S: Scalar>(groups: Seq<(S, Expr<S>)>) -> bool {
    forall|i: int| 0 <= i < groups.len() ==> is_tidy((#[trigger] groups[i]).1)
}

proof fn lemma_tidy_groups<S: Scalar>(terms: Seq<Expr<S>>, n: nat)
    requires
        all_tidy(terms),
        n <= terms.len(),
    ensures
        tidy_bases(term_groups(terms, n)),
    decreases n,
{
    if n > 0 {
        lemma_tidy_groups(terms, (n - 1) as nat);
        assert(is_tidy(terms[n - 1]));
        lemma_tidy_base(terms[n - 1]);
        let before = term_groups(terms, (n - 1) as nat);
        let after = term_groups(terms, n);
        assert forall|i: int| 0 <= i < after.len() implies is_tidy((#[trigger] after[i]).1) by {
            if i < before.len() {
                assert(is_tidy(before[i].1));
            }
        }
    }
}

proof fn lemma_tidy_group<S: Scalar>(group: (S, Expr<S>))
    requires
        reads_numbers::<S>(),
        is_tidy(group.1),
    ensures
        all_tidy(group_terms(group)),
{
    let c = Expr::Constant(group.0);
    assert(is_legible_number(group.0));
    assert(is_legible_number(S::unit().negation()));
    assert(is_tidy(c));
    assert(is_tidy(minus_one::<S>()));
    assert(all_tidy(seq![c, group.1]));
    assert(all_tidy(seq![minus_one(), group.1]));
    lemma_tidy_list(seq![c, group.1]);
    lemma_tidy_list(seq![minus_one(), group.1]);
}

proof fn lemma_tidy_groups_terms<S: Scalar>(groups: Seq<(S, Expr<S>)>, n: nat)
    requires
        reads_numbers::<S>(),
        n <= groups.len(),
        tidy_bases(groups),
    ensures
        all_tidy(groups_terms(groups, n)),
    decreases n,
{
    if n > 0 {
        lemma_tidy_groups_terms(groups, (n - 1) as nat);
        assert(is_tidy(groups[n - 1].1));
        lemma_tidy_group(groups[n - 1]);
    }
}

proof fn lemma_tidy_sum<S: Scalar>(terms: Seq<Expr<S>>)
    requires
        reads_numbers::<S>(),
        all_tidy(terms),
    ensures
        is_tidy(sum_of_terms(terms)),
{
    let constant = constant_sum(terms, terms.len());
    assert(is_legible_number(constant));
    assert(is_legible_number(S::nought()));
    assert(is_tidy(Expr::Constant(constant)));
    let groups = term_groups(terms, terms.len());
    lemma_tidy_groups(terms, terms.len());
    lemma_tidy_groups_terms(groups, groups.len());
    let left = collected_terms(terms);
    assert(all_tidy(left));
    if left.len() > 1 {
        lemma_tidy_list(left);
    } else if left.len() == 1 {
        assert(is_tidy(left[0]));
    }
}

/// A factor that is no product and no reciprocal.
spec fn is_leaf<S: Scalar>(e: Expr<S>) -> bool {
    is_tidy(e) && !(e is Reciprocal) && !(e is Multiply)
}

spec fn all_leaves<S: Scalar>(list: Seq<(Expr<S>, bool)>) -> bool {
    forall|i: int| 0 <= i < list.len() ==> is_leaf((#[trigger] list[i]).0)
}

spec fn leaf_atoms<S: Scalar>(atoms: Seq<(Expr<S>, int)>) -> bool {
    forall|i: int| 0 <= i < atoms.len() ==> is_leaf((#[trigger] atoms[i]).0)
}

spec fn leaf_factors<S: Scalar>(list: Seq<Expr<S>>) -> bool {
    forall|i: int| 0 <= i < list.len() ==> is_leaf(#[trigger] list[i])
}

proof fn lemma_leaves<S: Scalar>(e: Expr<S>, inverted: bool)
    requires
        is_tidy(e),
    ensures
        all_leaves(leaves(e, inverted)),
    decreases e, 0nat,
{
    match e {
        Expr::Reciprocal(inner) => {
            lemma_leaves(*inner, !inverted);
        },
        Expr::Multiply(factors) => {
            lemma_tidy_operands(e);
            assert(factors_of(e) == factors);
            lemma_leaves_of(factors, factors.len(), inverted);
        },
        _ => {},
    }
}

proof fn lemma_leaves_of<S: Scalar>(factors: Seq<Expr<S>>, n: nat, inverted: bool)
    requires
        all_tidy(factors),
        n <= factors.len(),
    ensures
        all_leaves(leaves_of(factors, n, inverted)),
    decreases factors, n,
{
    if n > 0 {
        lemma_leaves_of(factors, (n - 1) as nat, inverted);
        assert(is_tidy(factors[n - 1]));
        lemma_leaves(factors[n - 1], inverted);
    }
}

proof fn lemma_leaf_powers<S: Scalar>(factors: Seq<(Expr<S>, bool)>, n: nat)
    requires
        all_leaves(factors),
        n <= factors.len(),
    ensures
        leaf_atoms(net_powers(factors, n)),
    decreases n,
{
    if n > 0 {
        lemma_leaf_powers(factors, (n - 1) as nat);
        assert(is_leaf(factors[n - 1].0));
        let before = net_powers(factors, (n - 1) as nat);
        let after = net_powers(factors, n);
        assert forall|i: int| 0 <= i < after.len() implies is_leaf((#[trigger] after[i]).0) by {
            if i < before.len() {
                assert(is_leaf(before[i].0));
            }
        }
    }
}

proof fn lemma_leaf_factors<S: Scalar>(atoms: Seq<(Expr<S>, int)>, n: nat)
    requires
        leaf_atoms(atoms),
        n <= atoms.len(),
    ensures
        leaf_factors(numerator(atoms, n)),
        leaf_factors(denominator(atoms, n)),
    decreases n,
{
    if n > 0 {
        lemma_leaf_factors(atoms, (n - 1) as nat);
        assert(is_leaf(atoms[n - 1].0));
    }
}

proof fn lemma_tidy_product<S: Scalar>(factors: Seq<Expr<S>>)
    requires
        reads_numbers::<S>(),
        all_tidy(factors),
    ensures
        is_tidy(product_of_factors(factors)),
{
    let all = leaves_of(factors, factors.len(), false);
    let constant = constant_product(all, all.len());
    let atoms = net_powers(all, all.len());
    lemma_leaves_of(factors, factors.len(), false);
    lemma_leaf_powers(all, all.len());
    lemma_leaf_factors(atoms, atoms.len());
    assert(is_legible_number(constant));
    assert(is_legible_number(S::nought()));
    assert(is_legible_number(S::unit()));
    assert(is_tidy(Expr::Constant(constant)));
    let below = denominator(atoms, atoms.len());
    let above = numerator(atoms, atoms.len());
    assert forall|i: int| 0 <= i < below.len() implies is_tidy(#[trigger] below[i]) by {
        assert(is_leaf(below[i]));
    }
    assert forall|i: int| 0 <= i < above.len() implies is_tidy(#[trigger] above[i]) by {
        assert(is_leaf(above[i]));
    }
    if below.len() == 1 {
        assert(is_leaf(below[0]));
        assert(is_tidy(Expr::Reciprocal(Box::new(below[0]))));
    } else if below.len() > 1 {
        lemma_tidy_list(below);
        assert(is_tidy(Expr::Reciprocal(Box::new(Expr::Multiply(below)))));
    }
    assert(all_tidy(under_one(below)));
    let left = collected_factors(constant, atoms);
    assert(all_tidy(left));
    if left.len() > 1 {
        lemma_tidy_list(left);
    } else if left.len() == 1 {
        assert(is_tidy(left[0]));
    }
}

/// Every operation on expressions that can be read gives one that can be read.
pub proof fn law_operations_keep_expressions_legible<S: Scalar>(a: Expr<S>, b: Expr<S>)
    requires
        reads_numbers::<S>(),
        is_tidy(a),
        is_tidy(b),
    ensures
        is_tidy(sum(a, b)),
        is_tidy(difference(a, b)),
        is_tidy(product(a, b)),
        is_tidy(negation(a)),
        is_tidy(reciprocal(a)),
        is_tidy(sqrt(a)),
{
    lemma_tidy_negation(a);
    lemma_tidy_negation(b);
    lemma_tidy_binary(a, b);
    lemma_tidy_binary(a, negation(b));
    lemma_tidy_operands(a);
    match a {
        Expr::Constant(x) => {
            assert(is_legible_number(S::unit().quotient(x)));
            assert(is_legible_number(x.root()));
        },
        _ => {},
    }
}

proof fn lemma_tidy_negation<S: Scalar>(e: Expr<S>)
    requires
        reads_numbers::<S>(),
        is_tidy(e),
    ensures
        is_tidy(negation(e)),
{
    assert(is_legible_number(S::unit().negation()));
    assert(is_tidy(minus_one::<S>()));
    assert(all_tidy(seq![minus_one(), e]));
    lemma_tidy_list(seq![minus_one(), e]);
    lemma_tidy_operands(e);
    match e {
        Expr::Constant(x) => {
            assert(is_legible_number(x.negation()));
        },
        Expr::Multiply(factors) => {
            assert(factors_of(e) == factors);
            if factors[0] is Constant {
                let x = factors[0]->Constant_0.negation();
                assert(is_legible_number(x));
                let list = factors.update(0, Expr::Constant(x));
                assert forall|i: int| 0 <= i < list.len() implies is_tidy(#[trigger] list[i]) by {
                    assert(is_tidy(factors[i]));
                }
                lemma_tidy_list(list);
            }
        },
        _ => {},
    }
}

proof fn lemma_tidy_binary<S: Scalar>(a: Expr<S>, b: Expr<S>)
    requires
        reads_numbers::<S>(),
        is_tidy(a),
        is_tidy(b),
    ensures
        is_tidy(sum(a, b)),
        is_tidy(product(a, b)),
{
    lemma_tidy_operands(a);
    lemma_tidy_operands(b);
    assert(all_tidy(terms_of(a) + terms_of(b)));
    assert(all_tidy(factors_of(a) + factors_of(b)));
    lemma_tidy_sum(terms_of(a) + terms_of(b));
    lemma_tidy_product(factors_of(a) + factors_of(b));
    assert(is_legible_number(S::nought()));
    match (a, b) {
        (Expr::Constant(x), Expr::Constant(y)) => {
            assert(is_legible_number(x.sum(y)));
            assert(is_legible_number(x.product(y)));
        },
        _ => {},
    }
}

/// What a scalar token denotes can be read.
pub proof fn law_scalars_are_legible<S: Scalar>(raw: Seq<char>)
    requires
        reads_numbers::<S>(),
        scalar::<S>(raw) is Ok,
    ensures
        is_tidy(scalar::<S>(raw)->Ok_0),
{
    if let Expr::Constant(x) = scalar::<S>(raw)->Ok_0 {
        assert(is_legible_number(x));
    }
}

proof fn lemma_digit(n: nat)
    requires
        n < 10,
    ensures
        text::is_digit(text::digit_char(n as int)),
        text::natural(seq![text::digit_char(n as int)]) == Some(n),
{
    let t = seq![text::digit_char(n as int)];
    assert(t[0] == text::digit_char(n as int));
    assert(t.last() == t[0]);
    assert(t.drop_last().len() == 0);
    reveal_with_fuel(text::digits_value, 2);
}

/// Every residue can be read.
pub proof fn law_residues_are_legible()
    ensures
        reads_numbers::<Residue>(),
        reads_one::<Residue>(),
{
    assert forall|x: Residue| #[trigger] is_legible_number(x) by {
        let n = x.number() as nat;
        let t = x.shown();
        assert(t == text::decimal(n));
        assert(t =~= seq![text::digit_char(n as int)]);
        lemma_digit(n);
    }
    reveal_strlit("1");
    lemma_digit(1);
    assert("1"@ =~= seq![text::digit_char(1)]);
}

} // verus!
