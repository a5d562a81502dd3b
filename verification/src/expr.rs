//! The mathematical model of symbolic expressions: what a sum, a product, a reciprocal or
//! a square root of expressions simplifies to.

use crate::scalar::Scalar;
use crate::text;
use vstd::prelude::*;

verus! {

/// The mathematical form of an expression.
#[verifier::ext_equal]
pub enum Expr<S> {
    /// A numeric constant.
    Constant(S),
    /// A named quantity.
    Symbol(Seq<char>),
    /// A sum.
    Add(Seq<Expr<S>>),
    /// A product.
    Multiply(Seq<Expr<S>>),
    /// A reciprocal.
    Reciprocal(Box<Expr<S>>),
    /// A square root.
    Sqrt(Box<Expr<S>>),
}

/// The constant zero.
pub open spec fn zero<S: Scalar>() -> Expr<S> {
    Expr::Constant(S::nought())
}

/// The constant one.
pub open spec fn one<S: Scalar>() -> Expr<S> {
    Expr::Constant(S::unit())
}

/// The constant minus one.
pub open spec fn minus_one<S: Scalar>() -> Expr<S> {
    Expr::Constant(S::unit().negation())
}

/// Structural equality; constants are compared as numbers.
pub open spec fn same<S: Scalar>(a: Expr<S>, b: Expr<S>) -> bool
    decreases a,
{
    match (a, b) {
        (Expr::Constant(x), Expr::Constant(y)) => x.equal(y),
        (Expr::Symbol(x), Expr::Symbol(y)) => x == y,
        (Expr::Add(x), Expr::Add(y)) => x.len() == y.len() && forall|i: int|
            0 <= i < x.len() ==> same(#[trigger] x[i], y[i]),
        (Expr::Multiply(x), Expr::Multiply(y)) => x.len() == y.len() && forall|i: int|
            0 <= i < x.len() ==> same(#[trigger] x[i], y[i]),
        (Expr::Reciprocal(x), Expr::Reciprocal(y)) => same(*x, *y),
        (Expr::Sqrt(x), Expr::Sqrt(y)) => same(*x, *y),
        _ => false,
    }
}

/// An exact zero constant.
pub open spec fn is_zero<S: Scalar>(e: Expr<S>) -> bool {
    e matches Expr::Constant(value) && value.equal(S::nought())
}

/// An exact one constant.
pub open spec fn is_one<S: Scalar>(e: Expr<S>) -> bool {
    e matches Expr::Constant(value) && value.equal(S::unit())
}

/// The addends of a sum; any other expression is its own single addend.
pub open spec fn terms_of<S: Scalar>(e: Expr<S>) -> Seq<Expr<S>> {
    match e {
        Expr::Add(terms) => terms,
        _ => seq![e],
    }
}

/// The factors of a product; any other expression is its own single factor.
pub open spec fn factors_of<S: Scalar>(e: Expr<S>) -> Seq<Expr<S>> {
    match e {
        Expr::Multiply(factors) => factors,
        _ => seq![e],
    }
}

/// A term as a numeric coefficient and what it multiplies.
pub open spec fn coefficient_and_base<S: Scalar>(e: Expr<S>) -> (S, Expr<S>) {
    match e {
        Expr::Multiply(factors) => if factors.len() > 0 && factors[0] is Constant {
            (
                factors[0]->Constant_0,
                if factors.len() == 2 {
                    factors[1]
                } else {
                    Expr::Multiply(factors.skip(1))
                },
            )
        } else {
            (S::unit(), e)
        },
        _ => (S::unit(), e),
    }
}

/// The sum of the constants among the first `n` terms, added from the left.
pub open spec fn constant_sum<S: Scalar>(terms: Seq<Expr<S>>, n: nat) -> S
    decreases n,
{
    if n == 0 {
        S::nought()
    } else {
        let before = constant_sum(terms, (n - 1) as nat);
        match terms[n - 1] {
            Expr::Constant(value) => before.sum(value),
            _ => before,
        }
    }
}

/// The first group at or after `from` with the given base, or the number of groups.
pub open spec fn group_of<S: Scalar>(groups: Seq<(S, Expr<S>)>, base: Expr<S>, from: int) -> int
    decreases groups.len() - from,
{
    if from < 0 || from >= groups.len() {
        groups.len() as int
    } else if same(groups[from].1, base) {
        from
    } else {
        group_of(groups, base, from + 1)
    }
}

/// The groups after one more term `coefficient * base`: added to the group of its base,
/// or a new group at the end.
pub open spec fn grouped<S: Scalar>(
    groups: Seq<(S, Expr<S>)>,
    coefficient: S,
    base: Expr<S>,
) -> Seq<(S, Expr<S>)> {
    let at = group_of(groups, base, 0);
    if 0 <= at < groups.len() {
        groups.update(at, (groups[at].0.sum(coefficient), groups[at].1))
    } else {
        groups.push((coefficient, base))
    }
}

/// The first `n` terms without the constants, as one group of coefficients per base,
/// in the order in which the bases occur.
pub open spec fn term_groups<S: Scalar>(terms: Seq<Expr<S>>, n: nat) -> Seq<(S, Expr<S>)>
    decreases n,
{
    if n == 0 {
        Seq::empty()
    } else {
        let before = term_groups(terms, (n - 1) as nat);
        if terms[n - 1] is Constant {
            before
        } else {
            let (coefficient, base) = coefficient_and_base(terms[n - 1]);
            grouped(before, coefficient, base)
        }
    }
}

/// One group as a list of terms: none where its coefficient is zero.
pub open spec fn group_terms<S: Scalar>(group: (S, Expr<S>)) -> Seq<Expr<S>> {
    if group.0.equal(S::nought()) {
        Seq::empty()
    } else if group.0.equal(S::unit()) {
        seq![group.1]
    } else if group.0.equal(S::unit().negation()) {
        seq![Expr::Multiply(seq![minus_one(), group.1])]
    } else {
        seq![Expr::Multiply(seq![Expr::Constant(group.0), group.1])]
    }
}

/// The terms of the first `n` groups.
pub open spec fn groups_terms<S: Scalar>(groups: Seq<(S, Expr<S>)>, n: nat) -> Seq<Expr<S>>
    decreases n,
{
    if n == 0 {
        Seq::empty()
    } else {
        groups_terms(groups, (n - 1) as nat) + group_terms(groups[n - 1])
    }
}

/// The terms that are left when constants are added up and equal bases collected.
pub open spec fn collected_terms<S: Scalar>(terms: Seq<Expr<S>>) -> Seq<Expr<S>> {
    let constant = constant_sum(terms, terms.len());
    let groups = term_groups(terms, terms.len());
    (if constant.equal(S::nought()) {
        Seq::empty()
    } else {
        seq![Expr::Constant(constant)]
    }) + groups_terms(groups, groups.len())
}

/// The simplified sum of a list of terms.
pub open spec fn sum_of_terms<S: Scalar>(terms: Seq<Expr<S>>) -> Expr<S> {
    let left = collected_terms(terms);
    if left.len() == 0 {
        zero()
    } else if left.len() == 1 {
        left[0]
    } else {
        Expr::Add(left)
    }
}

/// The simplified sum of two expressions.
pub open spec fn sum<S: Scalar>(a: Expr<S>, b: Expr<S>) -> Expr<S> {
    if is_zero(a) {
        b
    } else if is_zero(b) {
        a
    } else {
        match (a, b) {
            (Expr::Constant(x), Expr::Constant(y)) => Expr::Constant(x.sum(y)),
            _ => sum_of_terms(terms_of(a) + terms_of(b)),
        }
    }
}

/// The negated expression.
pub open spec fn negation<S: Scalar>(e: Expr<S>) -> Expr<S> {
    match e {
        Expr::Constant(value) => Expr::Constant(value.negation()),
        Expr::Multiply(factors) => if factors.len() > 0 && factors[0] is Constant {
            Expr::Multiply(
                factors.update(0, Expr::Constant(factors[0]->Constant_0.negation())),
            )
        } else {
            Expr::Multiply(seq![minus_one(), e])
        },
        _ => Expr::Multiply(seq![minus_one(), e]),
    }
}

/// The simplified difference of two expressions.
pub open spec fn difference<S: Scalar>(a: Expr<S>, b: Expr<S>) -> Expr<S> {
    sum(a, negation(b))
}

/// The innermost factors of an expression, products and reciprocals taken apart; a factor
/// is paired with whether it stands in the denominator.
pub open spec fn leaves<S: Scalar>(e: Expr<S>, inverted: bool) -> Seq<(Expr<S>, bool)>
    decreases e, 0nat,
{
    match e {
        Expr::Reciprocal(inner) => leaves(*inner, !inverted),
        Expr::Multiply(factors) => leaves_of(factors, factors.len(), inverted),
        _ => seq![(e, inverted)],
    }
}

/// The innermost factors of the first `n` factors.
pub open spec fn leaves_of<S: Scalar>(
    factors: Seq<Expr<S>>,
    n: nat,
    inverted: bool,
) -> Seq<(Expr<S>, bool)>
    decreases factors, n,
{
    if n == 0 || n > factors.len() {
        Seq::empty()
    } else {
        leaves_of(factors, (n - 1) as nat, inverted) + leaves(factors[n - 1], inverted)
    }
}

/// The product of the constants among the first `n` factors, taken from the left;
/// a constant in the denominator divides.
pub open spec fn constant_product<S: Scalar>(factors: Seq<(Expr<S>, bool)>, n: nat) -> S
    decreases n,
{
    if n == 0 {
        S::unit()
    } else {
        let before = constant_product(factors, (n - 1) as nat);
        match factors[n - 1].0 {
            Expr::Constant(value) => if factors[n - 1].1 {
                before.quotient(value)
            } else {
                before.product(value)
            },
            _ => before,
        }
    }
}

/// The first atom at or after `from` with the given base, or the number of atoms.
pub open spec fn atom_of<S: Scalar>(atoms: Seq<(Expr<S>, int)>, base: Expr<S>, from: int) -> int
    decreases atoms.len() - from,
{
    if from < 0 || from >= atoms.len() {
        atoms.len() as int
    } else if same(atoms[from].0, base) {
        from
    } else {
        atom_of(atoms, base, from + 1)
    }
}

/// The atoms after one more factor: its power is added to the atom of its base, or a new
/// atom is put at the end.
pub open spec fn with_power<S: Scalar>(
    atoms: Seq<(Expr<S>, int)>,
    base: Expr<S>,
    power: int,
) -> Seq<(Expr<S>, int)> {
    let at = atom_of(atoms, base, 0);
    if 0 <= at < atoms.len() {
        atoms.update(at, (atoms[at].0, atoms[at].1 + power))
    } else {
        atoms.push((base, power))
    }
}

/// The first `n` factors without the constants, as one net power per base, in the order
/// in which the bases occur.
pub open spec fn net_powers<S: Scalar>(factors: Seq<(Expr<S>, bool)>, n: nat) -> Seq<
    (Expr<S>, int),
>
    decreases n,
{
    if n == 0 {
        Seq::empty()
    } else {
        let before = net_powers(factors, (n - 1) as nat);
        let (factor, inverted) = factors[n - 1];
        if factor is Constant {
            before
        } else {
            with_power(
                before,
                factor,
                if inverted {
                    -1
                } else {
                    1
                },
            )
        }
    }
}

/// `count` copies of an expression; none where the count is negative.
pub open spec fn copies<S: Scalar>(e: Expr<S>, count: int) -> Seq<Expr<S>> {
    Seq::new(
        if count > 0 {
            count as nat
        } else {
            0
        },
        |i: int| e,
    )
}

/// The factors of the numerator that the first `n` atoms contribute.
pub open spec fn numerator<S: Scalar>(atoms: Seq<(Expr<S>, int)>, n: nat) -> Seq<Expr<S>>
    decreases n,
{
    if n == 0 {
        Seq::empty()
    } else {
        numerator(atoms, (n - 1) as nat) + copies(atoms[n - 1].0, atoms[n - 1].1)
    }
}

/// The factors of the denominator that the first `n` atoms contribute.
pub open spec fn denominator<S: Scalar>(atoms: Seq<(Expr<S>, int)>, n: nat) -> Seq<Expr<S>>
    decreases n,
{
    if n == 0 {
        Seq::empty()
    } else {
        denominator(atoms, (n - 1) as nat) + copies(atoms[n - 1].0, -atoms[n - 1].1)
    }
}

/// The reciprocal of a product of factors, as a list: empty where there are none.
pub open spec fn under_one<S: Scalar>(factors: Seq<Expr<S>>) -> Seq<Expr<S>> {
    if factors.len() == 0 {
        Seq::empty()
    } else if factors.len() == 1 {
        seq![Expr::Reciprocal(Box::new(factors[0]))]
    } else {
        seq![Expr::Reciprocal(Box::new(Expr::Multiply(factors)))]
    }
}

/// The factors that are left when constants are multiplied and equal bases cancelled.
pub open spec fn collected_factors<S: Scalar>(constant: S, atoms: Seq<(Expr<S>, int)>) -> Seq<
    Expr<S>,
> {
    (if constant.equal(S::unit()) {
        Seq::empty()
    } else {
        seq![Expr::Constant(constant)]
    }) + numerator(atoms, atoms.len()) + under_one(denominator(atoms, atoms.len()))
}

/// The simplified product of a list of factors.
pub open spec fn product_of_factors<S: Scalar>(factors: Seq<Expr<S>>) -> Expr<S> {
    let all = leaves_of(factors, factors.len(), false);
    let constant = constant_product(all, all.len());
    let left = collected_factors(constant, net_powers(all, all.len()));
    if constant.equal(S::nought()) {
        zero()
    } else if left.len() == 0 {
        one()
    } else if left.len() == 1 {
        left[0]
    } else {
        Expr::Multiply(left)
    }
}

/// The simplified product of two expressions.
pub open spec fn product<S: Scalar>(a: Expr<S>, b: Expr<S>) -> Expr<S> {
    if is_zero(a) || is_zero(b) {
        zero()
    } else if is_one(a) {
        b
    } else if is_one(b) {
        a
    } else {
        match (a, b) {
            (Expr::Constant(x), Expr::Constant(y)) => Expr::Constant(x.product(y)),
            _ => product_of_factors(factors_of(a) + factors_of(b)),
        }
    }
}

/// `1 / e`.
pub open spec fn reciprocal<S: Scalar>(e: Expr<S>) -> Expr<S> {
    match e {
        Expr::Constant(value) => Expr::Constant(S::unit().quotient(value)),
        Expr::Reciprocal(inner) => *inner,
        _ => Expr::Reciprocal(Box::new(e)),
    }
}

/// The square root of `e`.
pub open spec fn sqrt<S: Scalar>(e: Expr<S>) -> Expr<S> {
    match e {
        Expr::Constant(value) => if S::nought().below(value) || value.equal(S::nought()) {
            Expr::Constant(value.root())
        } else {
            Expr::Sqrt(Box::new(e))
        },
        _ => Expr::Sqrt(Box::new(e)),
    }
}

/// Why an expression has no value.
#[verifier::ext_equal]
pub enum Failure<S> {
    /// No value was supplied for a symbol.
    MissingSymbol(Seq<char>),
    /// A reciprocal of zero.
    DivisionByZero,
    /// A square root of a negative value.
    NegativeSquareRoot(S),
}

/// `name` matches `wanted` up to letter case, and no other such name comes before it.
pub open spec fn closest<S>(values: Map<Seq<char>, S>, wanted: Seq<char>, name: Seq<char>) -> bool {
    &&& values.contains_key(name)
    &&& text::eq_ignoring_case(name, wanted)
    &&& forall|other: Seq<char>| #[trigger]
        values.contains_key(other) && text::eq_ignoring_case(other, wanted) ==> other == name
            || text::precedes(name, other)
}

/// The value of a symbol: that of its name as written, else that of the first name which
/// matches it up to letter case.
pub open spec fn resolve<S>(values: Map<Seq<char>, S>, wanted: Seq<char>) -> Option<S> {
    if values.contains_key(wanted) {
        Some(values[wanted])
    } else if exists|name: Seq<char>| closest(values, wanted, name) {
        Some(values[choose|name: Seq<char>| closest(values, wanted, name)])
    } else {
        None
    }
}

/// The value of an expression under an assignment of values to symbols.
pub open spec fn value<S: Scalar>(e: Expr<S>, values: Map<Seq<char>, S>) -> Result<S, Failure<S>>
    decreases e, 0nat,
{
    match e {
        Expr::Constant(v) => Ok(v),
        Expr::Symbol(name) => match resolve(values, name) {
            Some(v) => Ok(v),
            None => Err(Failure::MissingSymbol(name)),
        },
        Expr::Add(terms) => value_of_sum(terms, terms.len(), values),
        Expr::Multiply(factors) => value_of_product(factors, factors.len(), values),
        Expr::Reciprocal(inner) => match value(*inner, values) {
            Ok(v) => if v.equal(S::nought()) {
                Err(Failure::DivisionByZero)
            } else {
                Ok(S::unit().quotient(v))
            },
            Err(failure) => Err(failure),
        },
        Expr::Sqrt(inner) => match value(*inner, values) {
            Ok(v) => if v.below(S::nought()) {
                Err(Failure::NegativeSquareRoot(v))
            } else {
                Ok(v.root())
            },
            Err(failure) => Err(failure),
        },
    }
}

/// The sum of the values of the first `n` terms, or the first failure among them.
pub open spec fn value_of_sum<S: Scalar>(
    terms: Seq<Expr<S>>,
    n: nat,
    values: Map<Seq<char>, S>,
) -> Result<S, Failure<S>>
    decreases terms, n,
{
    if n == 0 || n > terms.len() {
        Ok(S::nought())
    } else {
        match value_of_sum(terms, (n - 1) as nat, values) {
            Ok(before) => match value(terms[n - 1], values) {
                Ok(v) => Ok(before.sum(v)),
                Err(failure) => Err(failure),
            },
            Err(failure) => Err(failure),
        }
    }
}

/// The product of the values of the first `n` factors, or the first failure among them.
pub open spec fn value_of_product<S: Scalar>(
    factors: Seq<Expr<S>>,
    n: nat,
    values: Map<Seq<char>, S>,
) -> Result<S, Failure<S>>
    decreases factors, n,
{
    if n == 0 || n > factors.len() {
        Ok(S::unit())
    } else {
        match value_of_product(factors, (n - 1) as nat, values) {
            Ok(before) => match value(factors[n - 1], values) {
                Ok(v) => Ok(before.product(v)),
                Err(failure) => Err(failure),
            },
            Err(failure) => Err(failure),
        }
    }
}

/// The names of the symbols in an expression.
pub open spec fn symbols<S: Scalar>(e: Expr<S>) -> Set<Seq<char>>
    decreases e, 0nat,
{
    match e {
        Expr::Constant(_) => Set::empty(),
        Expr::Symbol(name) => set![name],
        Expr::Add(list) => symbols_of(list, list.len()),
        Expr::Multiply(list) => symbols_of(list, list.len()),
        Expr::Reciprocal(inner) => symbols(*inner),
        Expr::Sqrt(inner) => symbols(*inner),
    }
}

/// The names of the symbols in the first `n` expressions.
pub open spec fn symbols_of<S: Scalar>(list: Seq<Expr<S>>, n: nat) -> Set<Seq<char>>
    decreases list, n,
{
    if n == 0 || n > list.len() {
        Set::empty()
    } else {
        symbols_of(list, (n - 1) as nat).union(symbols(list[n - 1]))
    }
}

/// A text, in parentheses where asked for.
pub open spec fn wrapped(body: Seq<char>, wrap: bool) -> Seq<char> {
    if wrap {
        "("@ + body + ")"@
    } else {
        body
    }
}

/// The text of an expression inside a context of the given binding strength: 1 for a term
/// of a sum, 2 for a factor of a product, 3 for what stands under a reciprocal.
pub open spec fn shown<S: Scalar>(e: Expr<S>, parent: int) -> Seq<char>
    decreases e, 0nat,
{
    match e {
        Expr::Constant(v) => v.shown(),
        Expr::Symbol(name) => name,
        Expr::Add(terms) => wrapped(shown_list(terms, terms.len(), " + "@, 1), parent > 1),
        Expr::Multiply(factors) => wrapped(
            shown_list(factors, factors.len(), " * "@, 2),
            parent > 2,
        ),
        Expr::Reciprocal(inner) => "1 / "@ + shown(*inner, 3),
        Expr::Sqrt(inner) => "sqrt("@ + shown(*inner, 0) + ")"@,
    }
}

/// The texts of the first `n` expressions with `glue` in between.
pub open spec fn shown_list<S: Scalar>(
    list: Seq<Expr<S>>,
    n: nat,
    glue: Seq<char>,
    level: int,
) -> Seq<char>
    decreases list, n,
{
    if n == 0 || n > list.len() {
        Seq::empty()
    } else if n == 1 {
        shown(list[0], level)
    } else {
        shown_list(list, (n - 1) as nat, glue, level) + glue + shown(list[n - 1], level)
    }
}

/// The power of ten a (lower-case) scale suffix stands for.
pub open spec fn suffix_exponent(suffix: Seq<char>) -> Option<int> {
    if suffix.len() >= 3 && suffix[0] == 'm' && suffix[1] == 'e' && suffix[2] == 'g' {
        Some(6)
    } else if suffix.len() == 0 {
        None
    } else if suffix[0] == 't' {
        Some(12)
    } else if suffix[0] == 'g' {
        Some(9)
    } else if suffix[0] == 'k' {
        Some(3)
    } else if suffix[0] == 'm' {
        Some(-3)
    } else if suffix[0] == 'u' {
        Some(-6)
    } else if suffix[0] == 'n' {
        Some(-9)
    } else if suffix[0] == 'p' {
        Some(-12)
    } else if suffix[0] == 'f' {
        Some(-15)
    } else {
        None
    }
}

/// The position of the first ASCII letter at or after `from`, or the length of the text.
pub open spec fn first_letter(s: Seq<char>, from: int) -> int
    decreases s.len() - from,
{
    if from < 0 || from >= s.len() {
        s.len() as int
    } else if text::is_letter(s[from]) {
        from
    } else {
        first_letter(s, from + 1)
    }
}

/// The number a text without a scale suffix denotes. No number is written with an equals sign.
pub open spec fn plain_number<S: Scalar>(raw: Seq<char>) -> Option<S> {
    if raw.contains('=') {
        None
    } else {
        S::read(raw)
    }
}

/// The number a SPICE token denotes: a plain number, or one with a scale suffix.
pub open spec fn spice_number<S: Scalar>(raw: Seq<char>) -> Option<S> {
    match plain_number(raw) {
        Some(v) => Some(v),
        None => {
            let split = first_letter(raw, 0);
            if split >= raw.len() {
                None
            } else {
                match (plain_number::<S>(raw.take(split)), suffix_exponent(text::lower(raw.skip(split)))) {
                    (Some(base), Some(exponent)) => Some(base.product(S::decade(exponent))),
                    _ => None,
                }
            }
        },
    }
}

/// A letter or underscore followed by letters, digits, underscores, dollar signs or dots.
pub open spec fn is_simple_symbol(s: Seq<char>) -> bool {
    &&& s.len() > 0
    &&& text::is_letter(s[0]) || s[0] == '_'
    &&& forall|i: int|
        1 <= i < s.len() ==> text::is_letter(#[trigger] s[i]) || text::is_digit(s[i]) || s[i] == '_'
            || s[i] == '$' || s[i] == '.'
}

/// What a scalar token denotes: a number, a symbol, or an error message.
pub open spec fn scalar<S: Scalar>(raw: Seq<char>) -> Result<Expr<S>, Seq<char>> {
    let inner = text::unquote(text::trim(raw));
    if inner.len() == 0 {
        Err("empty scalar value"@)
    } else {
        match spice_number::<S>(inner) {
            Some(v) => Ok(Expr::Constant(v)),
            None => if is_simple_symbol(inner) {
                Ok(Expr::Symbol(inner))
            } else {
                Err("unsupported scalar expression '"@ + raw + "'; use a number or symbol"@)
            },
        }
    }
}

} // verus!
