//! Simplifying an expression keeps its value, apart from rounding, and cancels what cancels.

use crate::expr::{
    atom_of, coefficient_and_base, collected_factors, collected_terms, constant_product,
    constant_sum, copies, denominator, difference, factors_of, group_of, group_terms, grouped,
    groups_terms, is_zero, leaves, leaves_of, negation, net_powers, numerator, one, product,
    product_of_factors, reciprocal, same, sqrt, sum, sum_of_terms, term_groups, terms_of, under_one,
    value, value_of_product, value_of_sum, with_power, zero, Expr, Failure,
};
use crate::field::{
    exact, lemma_difference, lemma_distributes, lemma_equal, lemma_inverse, lemma_minus_one,
    lemma_negation, lemma_negation_of_product, lemma_negation_twice, lemma_no_zero_divisors,
    lemma_one_is_not_zero, lemma_product_associates, lemma_product_cancels, lemma_product_commutes,
    lemma_product_exchange, lemma_product_one, lemma_product_zero, lemma_sum_associates,
    lemma_sum_commutes, lemma_sum_zero,
};
use crate::scalar::Scalar;
use vstd::prelude::*;

verus! {

/// Expressions that are the same are equal.
proof fn lemma_same<S: Scalar>(a: Expr<S>, b: Expr<S>)
    requires
        exact::<S>(),
        same(a, b),
    ensures
        a == b,
    decreases a,
{
    match (a, b) {
        (Expr::Constant(x), Expr::Constant(y)) => {
            lemma_equal(x, y);
        },
        (Expr::Add(x), Expr::Add(y)) => {
            assert forall|i: int| 0 <= i < x.len() implies #[trigger] x[i] == y[i] by {
                lemma_same(x[i], y[i]);
            }
            assert(x =~= y);
        },
        (Expr::Multiply(x), Expr::Multiply(y)) => {
            assert forall|i: int| 0 <= i < x.len() implies #[trigger] x[i] == y[i] by {
                lemma_same(x[i], y[i]);
            }
            assert(x =~= y);
        },
        (Expr::Reciprocal(x), Expr::Reciprocal(y)) => {
            lemma_same(*x, *y);
        },
        (Expr::Sqrt(x), Expr::Sqrt(y)) => {
            lemma_same(*x, *y);
        },
        _ => {},
    }
}

/// A number that is equal to itself and cancels with its negation, which is zero only where the
/// number is. Binary floating point has these for every finite number.
pub open spec fn is_ordinary<S: Scalar>(x: S) -> bool {
    &&& x.equal(x)
    &&& x.sum(x.negation()).equal(S::nought())
    &&& x.equal(S::nought()) <==> x.negation().equal(S::nought())
}

/// Every constant in an expression is ordinary.
pub open spec fn is_ordinary_throughout<S: Scalar>(e: Expr<S>) -> bool
    decreases e,
{
    match e {
        Expr::Constant(x) => is_ordinary(x),
        Expr::Symbol(_) => true,
        Expr::Add(list) => forall|i: int|
            0 <= i < list.len() ==> is_ordinary_throughout(#[trigger] list[i]),
        Expr::Multiply(list) => forall|i: int|
            0 <= i < list.len() ==> is_ordinary_throughout(#[trigger] list[i]),
        Expr::Reciprocal(inner) => is_ordinary_throughout(*inner),
        Expr::Sqrt(inner) => is_ordinary_throughout(*inner),
    }
}

/// Zero and one are ordinary, and one is not zero.
pub open spec fn has_ordinary_units<S: Scalar>() -> bool {
    &&& is_ordinary(S::nought())
    &&& is_ordinary(S::unit())
    &&& !S::unit().equal(S::nought())
}

/// An expression is the same as itself.
proof fn lemma_same_reflexive<S: Scalar>(a: Expr<S>)
    requires
        is_ordinary_throughout(a),
    ensures
        same(a, a),
    decreases a,
{
    match a {
        Expr::Constant(_) => {},
        Expr::Symbol(_) => {},
        Expr::Add(x) => {
            assert forall|i: int| 0 <= i < x.len() implies same(#[trigger] x[i], x[i]) by {
                lemma_same_reflexive(x[i]);
            }
        },
        Expr::Multiply(x) => {
            assert forall|i: int| 0 <= i < x.len() implies same(#[trigger] x[i], x[i]) by {
                lemma_same_reflexive(x[i]);
            }
        },
        Expr::Reciprocal(x) => {
            lemma_same_reflexive(*x);
        },
        Expr::Sqrt(x) => {
            lemma_same_reflexive(*x);
        },
    }
}

// Sums and products of lists

/// Every expression among the first `n` has a value.
spec fn valued<S: Scalar>(list: Seq<Expr<S>>, values: Map<Seq<char>, S>, n: nat) -> bool {
    forall|i: int| 0 <= i < n ==> value(#[trigger] list[i], values) is Ok
}

proof fn lemma_product_is_valued<S: Scalar>(
    factors: Seq<Expr<S>>,
    n: nat,
    values: Map<Seq<char>, S>,
)
    requires
        n <= factors.len(),
    ensures
        value_of_product(factors, n, values) is Ok <==> valued(factors, values, n),
    decreases n,
{
    if n > 0 {
        lemma_product_is_valued(factors, (n - 1) as nat, values);
        if value_of_product(factors, n, values) is Ok {
            assert forall|i: int| 0 <= i < n implies value(
                #[trigger] factors[i],
                values,
            ) is Ok by {
                if i < n - 1 {
                    assert(valued(factors, values, (n - 1) as nat));
                }
            }
        }
        if valued(factors, values, n) {
            assert(value(factors[n - 1], values) is Ok);
        }
    }
}

proof fn lemma_sum_congruent<S: Scalar>(
    a: Seq<Expr<S>>,
    b: Seq<Expr<S>>,
    n: nat,
    values: Map<Seq<char>, S>,
)
    requires
        n <= a.len(),
        n <= b.len(),
        forall|i: int| 0 <= i < n ==> #[trigger] a[i] == b[i],
    ensures
        value_of_sum(a, n, values) == value_of_sum(b, n, values),
        value_of_product(a, n, values) == value_of_product(b, n, values),
    decreases n,
{
    if n > 0 {
        lemma_sum_congruent(a, b, (n - 1) as nat, values);
        assert(a[n - 1] == b[n - 1]);
    }
}

/// The sum of two lists one behind the other is the sum of their sums.
proof fn lemma_sum_concat<S: Scalar>(
    a: Seq<Expr<S>>,
    b: Seq<Expr<S>>,
    n: nat,
    values: Map<Seq<char>, S>,
)
    requires
        exact::<S>(),
        n <= b.len(),
        value_of_sum(a, a.len(), values) is Ok,
        value_of_sum(b, n, values) is Ok,
    ensures
        value_of_sum(a + b, a.len() + n, values) == Ok::<S, Failure<S>>(
            value_of_sum(a, a.len(), values)->Ok_0.sum(value_of_sum(b, n, values)->Ok_0),
        ),
    decreases n,
{
    let x = value_of_sum(a, a.len(), values)->Ok_0;
    if n == 0 {
        lemma_sum_congruent(a + b, a, a.len(), values);
        lemma_sum_zero(x);
    } else {
        let less = (n - 1) as nat;
        lemma_sum_concat(a, b, less, values);
        assert((a + b)[a.len() + n - 1] == b[n - 1]);
        lemma_sum_associates(
            x,
            value_of_sum(b, less, values)->Ok_0,
            value(b[n - 1], values)->Ok_0,
        );
    }
}

/// The product of two lists one behind the other is the product of their products.
proof fn lemma_product_concat<S: Scalar>(
    a: Seq<Expr<S>>,
    b: Seq<Expr<S>>,
    n: nat,
    values: Map<Seq<char>, S>,
)
    requires
        exact::<S>(),
        n <= b.len(),
        value_of_product(a, a.len(), values) is Ok,
        value_of_product(b, n, values) is Ok,
    ensures
        value_of_product(a + b, a.len() + n, values) == Ok::<S, Failure<S>>(
            value_of_product(a, a.len(), values)->Ok_0.product(
                value_of_product(b, n, values)->Ok_0,
            ),
        ),
    decreases n,
{
    let x = value_of_product(a, a.len(), values)->Ok_0;
    if n == 0 {
        lemma_sum_congruent(a + b, a, a.len(), values);
        lemma_product_one(x);
    } else {
        let less = (n - 1) as nat;
        lemma_product_concat(a, b, less, values);
        assert((a + b)[a.len() + n - 1] == b[n - 1]);
        lemma_product_associates(
            x,
            value_of_product(b, less, values)->Ok_0,
            value(b[n - 1], values)->Ok_0,
        );
    }
}

proof fn lemma_single<S: Scalar>(e: Expr<S>, values: Map<Seq<char>, S>)
    requires
        exact::<S>(),
        value(e, values) is Ok,
    ensures
        value_of_sum(seq![e], 1, values) == value(e, values),
        value_of_product(seq![e], 1, values) == value(e, values),
{
    let x = value(e, values)->Ok_0;
    reveal_with_fuel(value_of_sum, 2);
    reveal_with_fuel(value_of_product, 2);
    lemma_sum_zero(x);
    lemma_product_one(x);
}

proof fn lemma_pair_product<S: Scalar>(c: S, e: Expr<S>, values: Map<Seq<char>, S>)
    requires
        exact::<S>(),
        value(e, values) is Ok,
    ensures
        value(Expr::Multiply(seq![Expr::Constant(c), e]), values) == Ok::<S, Failure<S>>(
            c.product(value(e, values)->Ok_0),
        ),
{
    let list = seq![Expr::Constant(c), e];
    reveal_with_fuel(value_of_product, 3);
    lemma_product_one(c);
    assert(value(Expr::Multiply(list), values) == value_of_product(list, 2, values));
}

// Sums

/// The product of a list is its first factor times the product of the others.
proof fn lemma_product_first<S: Scalar>(
    factors: Seq<Expr<S>>,
    n: nat,
    values: Map<Seq<char>, S>,
)
    requires
        exact::<S>(),
        1 <= n <= factors.len(),
        value_of_product(factors, n, values) is Ok,
    ensures
        value(factors[0], values) is Ok,
        value_of_product(factors.skip(1), (n - 1) as nat, values) is Ok,
        value_of_product(factors, n, values)->Ok_0 == value(factors[0], values)->Ok_0.product(
            value_of_product(factors.skip(1), (n - 1) as nat, values)->Ok_0,
        ),
    decreases n,
{
    reveal_with_fuel(value_of_product, 2);
    if n == 1 {
        let x = value(factors[0], values)->Ok_0;
        lemma_product_one(x);
    } else {
        lemma_product_first(factors, (n - 1) as nat, values);
        assert(factors.skip(1)[n - 2] == factors[n - 1]);
        lemma_product_associates(
            value(factors[0], values)->Ok_0,
            value_of_product(factors.skip(1), (n - 2) as nat, values)->Ok_0,
            value(factors[n - 1], values)->Ok_0,
        );
    }
}

/// A term is its coefficient times its base.
proof fn lemma_coefficient_and_base<S: Scalar>(e: Expr<S>, values: Map<Seq<char>, S>)
    requires
        exact::<S>(),
        value(e, values) is Ok,
    ensures
        ({
            let (c, base) = coefficient_and_base(e);
            &&& value(base, values) is Ok
            &&& value(e, values)->Ok_0 == c.product(value(base, values)->Ok_0)
        }),
{
    lemma_product_one(value(e, values)->Ok_0);
    match e {
        Expr::Multiply(factors) => {
            if factors.len() > 0 && factors[0] is Constant {
                lemma_product_first(factors, factors.len(), values);
                let rest = factors.skip(1);
                if factors.len() == 2 {
                    assert(rest =~= seq![factors[1]]);
                    reveal_with_fuel(value_of_product, 2);
                    lemma_single(factors[1], values);
                }
            }
        },
        _ => {},
    }
}

/// Every group has a base with a value.
spec fn groups_valued<S: Scalar>(groups: Seq<(S, Expr<S>)>, values: Map<Seq<char>, S>) -> bool {
    forall|i: int| 0 <= i < groups.len() ==> value((#[trigger] groups[i]).1, values) is Ok
}

/// The value of one group.
spec fn group_value<S: Scalar>(group: (S, Expr<S>), values: Map<Seq<char>, S>) -> S {
    group.0.product(value(group.1, values)->Ok_0)
}

/// The sum of the values of the first `n` groups.
spec fn groups_total<S: Scalar>(
    groups: Seq<(S, Expr<S>)>,
    n: nat,
    values: Map<Seq<char>, S>,
) -> S
    decreases n,
{
    if n == 0 {
        S::nought()
    } else {
        groups_total(groups, (n - 1) as nat, values).sum(group_value(groups[n - 1], values))
    }
}

proof fn lemma_groups_prefix<S: Scalar>(
    a: Seq<(S, Expr<S>)>,
    b: Seq<(S, Expr<S>)>,
    n: nat,
    values: Map<Seq<char>, S>,
)
    requires
        forall|i: int| 0 <= i < n ==> #[trigger] a[i] == b[i],
    ensures
        groups_total(a, n, values) == groups_total(b, n, values),
    decreases n,
{
    if n > 0 {
        lemma_groups_prefix(a, b, (n - 1) as nat, values);
        assert(a[n - 1] == b[n - 1]);
    }
}

/// Changing the coefficient of one group changes the total by as much.
proof fn lemma_groups_update<S: Scalar>(
    groups: Seq<(S, Expr<S>)>,
    at: int,
    c: S,
    n: nat,
    values: Map<Seq<char>, S>,
)
    requires
        exact::<S>(),
        0 <= at < n <= groups.len(),
    ensures
        groups_total(groups.update(at, (groups[at].0.sum(c), groups[at].1)), n, values)
            == groups_total(groups, n, values).sum(
            c.product(value(groups[at].1, values)->Ok_0),
        ),
    decreases n,
{
    let changed = groups.update(at, (groups[at].0.sum(c), groups[at].1));
    let less = (n - 1) as nat;
    let v = value(groups[at].1, values)->Ok_0;
    let before = groups_total(groups, less, values);
    let more = c.product(v);
    if at == n - 1 {
        lemma_groups_prefix(changed, groups, less, values);
        lemma_distributes(v, groups[at].0, c);
        lemma_sum_associates(before, groups[at].0.product(v), more);
    } else {
        lemma_groups_update(groups, at, c, less, values);
        let last = group_value(groups[n - 1], values);
        lemma_sum_associates(before, more, last);
        lemma_sum_commutes(more, last);
        lemma_sum_associates(before, last, more);
    }
}

proof fn lemma_group_of<S: Scalar>(groups: Seq<(S, Expr<S>)>, base: Expr<S>, from: int)
    requires
        0 <= from <= groups.len(),
    ensures
        from <= group_of(groups, base, from) <= groups.len(),
        group_of(groups, base, from) < groups.len() ==> same(
            groups[group_of(groups, base, from)].1,
            base,
        ),
    decreases groups.len() - from,
{
    if from < groups.len() && !same(groups[from].1, base) {
        lemma_group_of(groups, base, from + 1);
    }
}

proof fn lemma_grouped<S: Scalar>(
    groups: Seq<(S, Expr<S>)>,
    c: S,
    base: Expr<S>,
    values: Map<Seq<char>, S>,
)
    requires
        exact::<S>(),
        groups_valued(groups, values),
        value(base, values) is Ok,
    ensures
        groups_valued(grouped(groups, c, base), values),
        groups_total(grouped(groups, c, base), grouped(groups, c, base).len(), values)
            == groups_total(groups, groups.len(), values).sum(
            c.product(value(base, values)->Ok_0),
        ),
{
    let at = group_of(groups, base, 0);
    lemma_group_of(groups, base, 0);
    let out = grouped(groups, c, base);
    if at < groups.len() {
        lemma_same(groups[at].1, base);
        lemma_groups_update(groups, at, c, groups.len(), values);
        assert forall|i: int| 0 <= i < out.len() implies value(
            (#[trigger] out[i]).1,
            values,
        ) is Ok by {
            assert(value(groups[i].1, values) is Ok);
        }
    } else {
        lemma_groups_prefix(out, groups, groups.len(), values);
        assert forall|i: int| 0 <= i < out.len() implies value(
            (#[trigger] out[i]).1,
            values,
        ) is Ok by {
            if i < groups.len() {
                assert(out[i] == groups[i]);
            }
        }
    }
}

/// A sum is that of its constants and that of its groups.
proof fn lemma_collected<S: Scalar>(terms: Seq<Expr<S>>, n: nat, values: Map<Seq<char>, S>)
    requires
        exact::<S>(),
        n <= terms.len(),
        value_of_sum(terms, n, values) is Ok,
    ensures
        groups_valued(term_groups(terms, n), values),
        value_of_sum(terms, n, values)->Ok_0 == constant_sum(terms, n).sum(
            groups_total(term_groups(terms, n), term_groups(terms, n).len(), values),
        ),
    decreases n,
{
    if n == 0 {
        lemma_sum_zero(S::nought());
    } else {
        let less = (n - 1) as nat;
        lemma_collected(terms, less, values);
        let k = constant_sum(terms, less);
        let groups = term_groups(terms, less);
        let g = groups_total(groups, groups.len(), values);
        let x = value(terms[n - 1], values)->Ok_0;
        lemma_sum_associates(k, g, x);
        if terms[n - 1] is Constant {
            lemma_sum_commutes(g, x);
            lemma_sum_associates(k, x, g);
        } else {
            let (c, base) = coefficient_and_base(terms[n - 1]);
            lemma_coefficient_and_base(terms[n - 1], values);
            lemma_grouped(groups, c, base, values);
        }
    }
}

proof fn lemma_group_terms<S: Scalar>(group: (S, Expr<S>), values: Map<Seq<char>, S>)
    requires
        exact::<S>(),
        value(group.1, values) is Ok,
    ensures
        value_of_sum(group_terms(group), group_terms(group).len(), values) == Ok::<
            S,
            Failure<S>,
        >(group_value(group, values)),
{
    let (c, base) = group;
    let v = value(base, values)->Ok_0;
    lemma_equal(c, S::nought());
    lemma_equal(c, S::unit());
    lemma_equal(c, S::unit().negation());
    lemma_product_zero(v);
    lemma_product_one(v);
    lemma_single(base, values);
    lemma_pair_product(c, base, values);
    let scaled = Expr::Multiply(seq![Expr::Constant(c), base]);
    lemma_single(scaled, values);
}

proof fn lemma_groups_terms<S: Scalar>(
    groups: Seq<(S, Expr<S>)>,
    n: nat,
    values: Map<Seq<char>, S>,
)
    requires
        exact::<S>(),
        n <= groups.len(),
        groups_valued(groups, values),
    ensures
        value_of_sum(groups_terms(groups, n), groups_terms(groups, n).len(), values) == Ok::<
            S,
            Failure<S>,
        >(groups_total(groups, n, values)),
    decreases n,
{
    if n > 0 {
        let less = (n - 1) as nat;
        lemma_groups_terms(groups, less, values);
        assert(value(groups[n - 1].1, values) is Ok);
        lemma_group_terms(groups[n - 1], values);
        let more = group_terms(groups[n - 1]);
        lemma_sum_concat(groups_terms(groups, less), more, more.len(), values);
    }
}

/// The simplified sum of a list has the value of the list's sum.
proof fn lemma_sum_of_terms<S: Scalar>(terms: Seq<Expr<S>>, values: Map<Seq<char>, S>)
    requires
        exact::<S>(),
        value_of_sum(terms, terms.len(), values) is Ok,
    ensures
        value(sum_of_terms(terms), values) == value_of_sum(terms, terms.len(), values),
{
    let k = constant_sum(terms, terms.len());
    let groups = term_groups(terms, terms.len());
    let rest = groups_terms(groups, groups.len());
    let left = collected_terms(terms);
    let g = groups_total(groups, groups.len(), values);
    lemma_collected(terms, terms.len(), values);
    lemma_groups_terms(groups, groups.len(), values);
    lemma_equal(k, S::nought());
    if k.equal(S::nought()) {
        assert(left =~= rest);
        lemma_sum_zero(g);
    } else {
        lemma_single(Expr::Constant(k), values);
        lemma_sum_concat(seq![Expr::Constant(k)], rest, rest.len(), values);
        assert(left == seq![Expr::Constant(k)] + rest);
    }
    assert(value_of_sum(left, left.len(), values) == value_of_sum(terms, terms.len(), values));
    if left.len() == 1 {
        assert(left =~= seq![left[0]]);
        reveal_with_fuel(value_of_sum, 2);
        lemma_single(left[0], values);
    }
}

proof fn lemma_terms_of<S: Scalar>(e: Expr<S>, values: Map<Seq<char>, S>)
    requires
        exact::<S>(),
        value(e, values) is Ok,
    ensures
        value_of_sum(terms_of(e), terms_of(e).len(), values) == value(e, values),
{
    lemma_single(e, values);
}

/// The value of a simplified sum is the sum of the values.
pub proof fn law_sum_keeps_value<S: Scalar>(a: Expr<S>, b: Expr<S>, values: Map<Seq<char>, S>)
    requires
        exact::<S>(),
        value(a, values) is Ok,
        value(b, values) is Ok,
    ensures
        value(sum(a, b), values) == Ok::<S, Failure<S>>(
            value(a, values)->Ok_0.sum(value(b, values)->Ok_0),
        ),
{
    let x = value(a, values)->Ok_0;
    let y = value(b, values)->Ok_0;
    lemma_equal(x, S::nought());
    lemma_equal(y, S::nought());
    lemma_sum_zero(x);
    lemma_sum_zero(y);
    lemma_terms_of(a, values);
    lemma_terms_of(b, values);
    lemma_sum_concat(terms_of(a), terms_of(b), terms_of(b).len(), values);
    lemma_sum_of_terms(terms_of(a) + terms_of(b), values);
}

/// The value of a negated expression is the negated value.
pub proof fn law_negation_keeps_value<S: Scalar>(e: Expr<S>, values: Map<Seq<char>, S>)
    requires
        exact::<S>(),
        value(e, values) is Ok,
    ensures
        value(negation(e), values) == Ok::<S, Failure<S>>(value(e, values)->Ok_0.negation()),
{
    let x = value(e, values)->Ok_0;
    lemma_minus_one(x);
    lemma_pair_product(S::unit().negation(), e, values);
    match e {
        Expr::Multiply(factors) => {
            if factors.len() > 0 && factors[0] is Constant {
                let c = factors[0]->Constant_0;
                let changed = factors.update(0, Expr::Constant(c.negation()));
                lemma_product_first(factors, factors.len(), values);
                lemma_product_is_valued(factors, factors.len(), values);
                assert forall|i: int| 0 <= i < changed.len() implies value(
                    #[trigger] changed[i],
                    values,
                ) is Ok by {
                    assert(value(factors[i], values) is Ok);
                }
                lemma_product_is_valued(changed, changed.len(), values);
                lemma_product_first(changed, changed.len(), values);
                assert(changed.skip(1) =~= factors.skip(1));
                lemma_negation_of_product(
                    c,
                    value_of_product(
                        factors.skip(1),
                        (factors.len() - 1) as nat,
                        values,
                    )->Ok_0,
                );
            }
        },
        _ => {},
    }
}

/// The value of a simplified difference is the difference of the values.
pub proof fn law_difference_keeps_value<S: Scalar>(
    a: Expr<S>,
    b: Expr<S>,
    values: Map<Seq<char>, S>,
)
    requires
        exact::<S>(),
        value(a, values) is Ok,
        value(b, values) is Ok,
    ensures
        value(difference(a, b), values) == Ok::<S, Failure<S>>(
            value(a, values)->Ok_0.difference(value(b, values)->Ok_0),
        ),
{
    law_negation_keeps_value(b, values);
    law_sum_keeps_value(a, negation(b), values);
    lemma_difference(value(a, values)->Ok_0, value(b, values)->Ok_0);
}

// Products

/// The value of a factor: its inverse where it stands in the denominator.
spec fn leaf_value<S: Scalar>(leaf: (Expr<S>, bool), values: Map<Seq<char>, S>) -> S {
    let v = value(leaf.0, values)->Ok_0;
    if leaf.1 {
        S::unit().quotient(v)
    } else {
        v
    }
}

/// Every factor has a value, and not zero where it stands in the denominator.
spec fn leaves_valued<S: Scalar>(list: Seq<(Expr<S>, bool)>, values: Map<Seq<char>, S>) -> bool {
    forall|i: int|
        0 <= i < list.len() ==> {
            let leaf = #[trigger] list[i];
            &&& value(leaf.0, values) is Ok
            &&& leaf.1 ==> value(leaf.0, values)->Ok_0 != S::nought()
        }
}

/// The product of the first `n` factors.
spec fn leaves_product<S: Scalar>(
    list: Seq<(Expr<S>, bool)>,
    n: nat,
    values: Map<Seq<char>, S>,
) -> S
    decreases n,
{
    if n == 0 {
        S::unit()
    } else {
        leaves_product(list, (n - 1) as nat, values).product(leaf_value(list[n - 1], values))
    }
}

proof fn lemma_leaves_prefix<S: Scalar>(
    a: Seq<(Expr<S>, bool)>,
    b: Seq<(Expr<S>, bool)>,
    n: nat,
    values: Map<Seq<char>, S>,
)
    requires
        forall|i: int| 0 <= i < n ==> #[trigger] a[i] == b[i],
    ensures
        leaves_product(a, n, values) == leaves_product(b, n, values),
    decreases n,
{
    if n > 0 {
        lemma_leaves_prefix(a, b, (n - 1) as nat, values);
        assert(a[n - 1] == b[n - 1]);
    }
}

proof fn lemma_leaves_concat<S: Scalar>(
    a: Seq<(Expr<S>, bool)>,
    b: Seq<(Expr<S>, bool)>,
    n: nat,
    values: Map<Seq<char>, S>,
)
    requires
        exact::<S>(),
        n <= b.len(),
    ensures
        leaves_product(a + b, a.len() + n, values) == leaves_product(a, a.len(), values).product(
            leaves_product(b, n, values),
        ),
    decreases n,
{
    let x = leaves_product(a, a.len(), values);
    if n == 0 {
        lemma_leaves_prefix(a + b, a, a.len(), values);
        lemma_product_one(x);
    } else {
        let less = (n - 1) as nat;
        lemma_leaves_concat(a, b, less, values);
        assert((a + b)[a.len() + n - 1] == b[n - 1]);
        lemma_product_associates(
            x,
            leaves_product(b, less, values),
            leaf_value(b[n - 1], values),
        );
    }
}

/// The inverse of a product is the product of the inverses.
proof fn lemma_inverse_of_product<S: Scalar>(a: S, b: S)
    requires
        exact::<S>(),
        a != S::nought(),
        b != S::nought(),
    ensures
        a.product(b) != S::nought(),
        S::unit().quotient(a.product(b)) == S::unit().quotient(a).product(
            S::unit().quotient(b),
        ),
{
    let (i, j) = (S::unit().quotient(a), S::unit().quotient(b));
    lemma_no_zero_divisors(a, b);
    let p = a.product(b);
    lemma_inverse(S::unit(), a);
    lemma_inverse(S::unit(), b);
    lemma_inverse(S::unit(), p);
    lemma_product_exchange(i, j, a, b);
    lemma_product_one(S::unit());
    lemma_product_cancels(p, S::unit().quotient(p), i.product(j));
}

/// The inverse of the inverse.
proof fn lemma_inverse_twice<S: Scalar>(a: S)
    requires
        exact::<S>(),
        a != S::nought(),
    ensures
        S::unit().quotient(a) != S::nought(),
        S::unit().quotient(S::unit().quotient(a)) == a,
{
    let i = S::unit().quotient(a);
    lemma_inverse(S::unit(), a);
    lemma_inverse(S::unit(), i);
    lemma_product_commutes(i, a);
    lemma_product_cancels(i, S::unit().quotient(i), a);
}

/// The innermost factors of an expression multiply to its value, or to its inverse.
proof fn lemma_leaves<S: Scalar>(e: Expr<S>, inverted: bool, values: Map<Seq<char>, S>)
    requires
        exact::<S>(),
        value(e, values) is Ok,
        inverted ==> value(e, values)->Ok_0 != S::nought(),
    ensures
        leaves_valued(leaves(e, inverted), values),
        leaves_product(leaves(e, inverted), leaves(e, inverted).len(), values) == leaf_value(
            (e, inverted),
            values,
        ),
    decreases e, 0nat,
{
    let x = value(e, values)->Ok_0;
    match e {
        Expr::Reciprocal(inner) => {
            let w = value(*inner, values)->Ok_0;
            lemma_equal(w, S::nought());
            lemma_inverse_twice(w);
            lemma_leaves(*inner, !inverted, values);
        },
        Expr::Multiply(factors) => {
            lemma_leaves_of(factors, factors.len(), inverted, values);
        },
        _ => {
            reveal_with_fuel(leaves_product, 2);
            lemma_product_one(leaf_value((e, inverted), values));
        },
    }
}

proof fn lemma_leaves_of<S: Scalar>(
    factors: Seq<Expr<S>>,
    n: nat,
    inverted: bool,
    values: Map<Seq<char>, S>,
)
    requires
        exact::<S>(),
        n <= factors.len(),
        value_of_product(factors, n, values) is Ok,
        inverted ==> value_of_product(factors, n, values)->Ok_0 != S::nought(),
    ensures
        leaves_valued(leaves_of(factors, n, inverted), values),
        leaves_product(
            leaves_of(factors, n, inverted),
            leaves_of(factors, n, inverted).len(),
            values,
        ) == (if inverted {
            S::unit().quotient(value_of_product(factors, n, values)->Ok_0)
        } else {
            value_of_product(factors, n, values)->Ok_0
        }),
    decreases factors, n,
{
    if n == 0 {
        lemma_one_is_not_zero::<S>();
        lemma_inverse(S::unit(), S::unit());
        lemma_product_one(S::unit().quotient(S::unit()));
    } else {
        let less = (n - 1) as nat;
        let p = value_of_product(factors, less, values)->Ok_0;
        let x = value(factors[n - 1], values)->Ok_0;
        if inverted {
            if p == S::nought() {
                lemma_product_zero(x);
            }
            if x == S::nought() {
                lemma_product_zero(p);
            }
            lemma_inverse_of_product(p, x);
        }
        lemma_leaves_of(factors, less, inverted, values);
        lemma_leaves(factors[n - 1], inverted, values);
        let before = leaves_of(factors, less, inverted);
        let more = leaves(factors[n - 1], inverted);
        lemma_leaves_concat(before, more, more.len(), values);
        let all = before + more;
        assert forall|i: int| 0 <= i < all.len() implies {
            let leaf = #[trigger] all[i];
            &&& value(leaf.0, values) is Ok
            &&& leaf.1 ==> value(leaf.0, values)->Ok_0 != S::nought()
        } by {
            if i < before.len() {
                assert(all[i] == before[i]);
            } else {
                assert(all[i] == more[i - before.len()]);
            }
        }
    }
}

/// A number multiplied with itself.
spec fn power<S: Scalar>(x: S, n: nat) -> S
    decreases n,
{
    if n == 0 {
        S::unit()
    } else {
        power(x, (n - 1) as nat).product(x)
    }
}

/// A power of an atom: of its inverse where the power is negative.
spec fn atom_value<S: Scalar>(atom: (Expr<S>, int), values: Map<Seq<char>, S>) -> S {
    let v = value(atom.0, values)->Ok_0;
    if atom.1 >= 0 {
        power(v, atom.1 as nat)
    } else {
        power(S::unit().quotient(v), (-atom.1) as nat)
    }
}

/// Every atom has a value; one that is zero stands in the numerator only.
spec fn atoms_valued<S: Scalar>(atoms: Seq<(Expr<S>, int)>, values: Map<Seq<char>, S>) -> bool {
    forall|i: int|
        0 <= i < atoms.len() ==> {
            let atom = #[trigger] atoms[i];
            &&& value(atom.0, values) is Ok
            &&& value(atom.0, values)->Ok_0 == S::nought() ==> atom.1 >= 1
        }
}

/// The product of the first `n` atoms.
spec fn atoms_product<S: Scalar>(
    atoms: Seq<(Expr<S>, int)>,
    n: nat,
    values: Map<Seq<char>, S>,
) -> S
    decreases n,
{
    if n == 0 {
        S::unit()
    } else {
        atoms_product(atoms, (n - 1) as nat, values).product(atom_value(atoms[n - 1], values))
    }
}

proof fn lemma_atoms_prefix<S: Scalar>(
    a: Seq<(Expr<S>, int)>,
    b: Seq<(Expr<S>, int)>,
    n: nat,
    values: Map<Seq<char>, S>,
)
    requires
        forall|i: int| 0 <= i < n ==> #[trigger] a[i] == b[i],
    ensures
        atoms_product(a, n, values) == atoms_product(b, n, values),
    decreases n,
{
    if n > 0 {
        lemma_atoms_prefix(a, b, (n - 1) as nat, values);
        assert(a[n - 1] == b[n - 1]);
    }
}

/// One more factor of an atom raises its power by one, or lowers it.
proof fn lemma_power_step<S: Scalar>(
    base: Expr<S>,
    p: int,
    inverted: bool,
    values: Map<Seq<char>, S>,
)
    requires
        exact::<S>(),
        value(base, values) is Ok,
        value(base, values)->Ok_0 == S::nought() ==> p >= 0 && !inverted,
    ensures
        atom_value(
            (
                base,
                p + (if inverted {
                    -1int
                } else {
                    1int
                }),
            ),
            values,
        ) == atom_value((base, p), values).product(leaf_value((base, inverted), values)),
{
    let v = value(base, values)->Ok_0;
    let i = S::unit().quotient(v);
    reveal_with_fuel(power, 2);
    if v != S::nought() {
        lemma_inverse(S::unit(), v);
        lemma_product_commutes(i, v);
        if inverted {
            if p > 0 {
                let before = power(v, (p - 1) as nat);
                lemma_product_associates(before, v, i);
                lemma_product_one(before);
            }
        } else {
            if p < 0 {
                let before = power(i, (-p - 1) as nat);
                lemma_product_associates(before, i, v);
                lemma_product_one(before);
            }
        }
    }
}

proof fn lemma_atom_of<S: Scalar>(atoms: Seq<(Expr<S>, int)>, base: Expr<S>, from: int)
    requires
        0 <= from <= atoms.len(),
    ensures
        from <= atom_of(atoms, base, from) <= atoms.len(),
        atom_of(atoms, base, from) < atoms.len() ==> same(
            atoms[atom_of(atoms, base, from)].0,
            base,
        ),
    decreases atoms.len() - from,
{
    if from < atoms.len() && !same(atoms[from].0, base) {
        lemma_atom_of(atoms, base, from + 1);
    }
}

proof fn lemma_atoms_update<S: Scalar>(
    atoms: Seq<(Expr<S>, int)>,
    at: int,
    inverted: bool,
    n: nat,
    values: Map<Seq<char>, S>,
)
    requires
        exact::<S>(),
        0 <= at < n <= atoms.len(),
        atoms_valued(atoms, values),
        inverted ==> value(atoms[at].0, values)->Ok_0 != S::nought(),
    ensures
        atoms_product(
            atoms.update(
                at,
                (
                    atoms[at].0,
                    atoms[at].1 + (if inverted {
                        -1int
                    } else {
                        1int
                    }),
                ),
            ),
            n,
            values,
        ) == atoms_product(atoms, n, values).product(
            leaf_value((atoms[at].0, inverted), values),
        ),
    decreases n,
{
    let changed = atoms.update(
        at,
        (
            atoms[at].0,
            atoms[at].1 + (if inverted {
                -1int
            } else {
                1int
            }),
        ),
    );
    let less = (n - 1) as nat;
    let more = leaf_value((atoms[at].0, inverted), values);
    let before = atoms_product(atoms, less, values);
    if at == n - 1 {
        lemma_atoms_prefix(changed, atoms, less, values);
        assert(value(atoms[at].0, values) is Ok);
        lemma_power_step(atoms[at].0, atoms[at].1, inverted, values);
        lemma_product_associates(before, atom_value(atoms[at], values), more);
    } else {
        lemma_atoms_update(atoms, at, inverted, less, values);
        let last = atom_value(atoms[n - 1], values);
        lemma_product_associates(before, more, last);
        lemma_product_commutes(more, last);
        lemma_product_associates(before, last, more);
    }
}

proof fn lemma_with_power<S: Scalar>(
    atoms: Seq<(Expr<S>, int)>,
    base: Expr<S>,
    inverted: bool,
    values: Map<Seq<char>, S>,
)
    requires
        exact::<S>(),
        atoms_valued(atoms, values),
        value(base, values) is Ok,
        inverted ==> value(base, values)->Ok_0 != S::nought(),
    ensures
        ({
            let out = with_power(
                atoms,
                base,
                if inverted {
                    -1
                } else {
                    1
                },
            );
            &&& atoms_valued(out, values)
            &&& atoms_product(out, out.len(), values) == atoms_product(
                atoms,
                atoms.len(),
                values,
            ).product(leaf_value((base, inverted), values))
        }),
{
    let change: int = if inverted {
        -1
    } else {
        1
    };
    let out = with_power(atoms, base, change);
    let at = atom_of(atoms, base, 0);
    lemma_atom_of(atoms, base, 0);
    if at < atoms.len() {
        lemma_same(atoms[at].0, base);
        lemma_atoms_update(atoms, at, inverted, atoms.len(), values);
    } else {
        lemma_atoms_prefix(out, atoms, atoms.len(), values);
        reveal_with_fuel(power, 2);
        lemma_product_one(value(base, values)->Ok_0);
        lemma_product_one(S::unit().quotient(value(base, values)->Ok_0));
    }
    assert forall|i: int| 0 <= i < out.len() implies {
        let atom = #[trigger] out[i];
        &&& value(atom.0, values) is Ok
        &&& value(atom.0, values)->Ok_0 == S::nought() ==> atom.1 >= 1
    } by {
        if i < atoms.len() {
            assert(value(atoms[i].0, values) is Ok);
        }
    }
}

/// A product is that of its constants and that of its atoms.
proof fn lemma_net_powers<S: Scalar>(
    list: Seq<(Expr<S>, bool)>,
    n: nat,
    values: Map<Seq<char>, S>,
)
    requires
        exact::<S>(),
        n <= list.len(),
        leaves_valued(list, values),
    ensures
        atoms_valued(net_powers(list, n), values),
        leaves_product(list, n, values) == constant_product(list, n).product(
            atoms_product(net_powers(list, n), net_powers(list, n).len(), values),
        ),
    decreases n,
{
    if n == 0 {
        lemma_product_one(S::unit());
    } else {
        let less = (n - 1) as nat;
        lemma_net_powers(list, less, values);
        let c = constant_product(list, less);
        let atoms = net_powers(list, less);
        let q = atoms_product(atoms, atoms.len(), values);
        let leaf = list[n - 1];
        assert(value(leaf.0, values) is Ok);
        let x = leaf_value(leaf, values);
        lemma_product_associates(c, q, x);
        match leaf.0 {
            Expr::Constant(v) => {
                if leaf.1 {
                    lemma_inverse(c, v);
                }
                lemma_product_commutes(q, x);
                lemma_product_associates(c, x, q);
            },
            _ => {
                lemma_with_power(atoms, leaf.0, leaf.1, values);
            },
        }
    }
}

proof fn lemma_copies<S: Scalar>(e: Expr<S>, count: nat, values: Map<Seq<char>, S>)
    requires
        value(e, values) is Ok,
    ensures
        value_of_product(copies(e, count as int), count, values) == Ok::<S, Failure<S>>(
            power(value(e, values)->Ok_0, count),
        ),
    decreases count,
{
    if count > 0 {
        let less = (count - 1) as nat;
        lemma_copies(e, less, values);
        lemma_sum_congruent(copies(e, count as int), copies(e, less as int), less, values);
    }
}

proof fn lemma_power_not_zero<S: Scalar>(x: S, n: nat)
    requires
        exact::<S>(),
        x != S::nought(),
    ensures
        power(x, n) != S::nought(),
        power(S::unit().quotient(x), n) == S::unit().quotient(power(x, n)),
    decreases n,
{
    lemma_one_is_not_zero::<S>();
    if n == 0 {
        lemma_inverse(S::unit(), S::unit());
        lemma_product_one(S::unit().quotient(S::unit()));
    } else {
        lemma_power_not_zero(x, (n - 1) as nat);
        lemma_inverse_of_product(power(x, (n - 1) as nat), x);
    }
}

/// The atoms multiply to a numerator over a denominator that is not zero.
proof fn lemma_numerator_and_denominator<S: Scalar>(
    atoms: Seq<(Expr<S>, int)>,
    n: nat,
    values: Map<Seq<char>, S>,
)
    requires
        exact::<S>(),
        n <= atoms.len(),
        atoms_valued(atoms, values),
    ensures
        ({
            let above = numerator(atoms, n);
            let below = denominator(atoms, n);
            &&& value_of_product(above, above.len(), values) is Ok
            &&& value_of_product(below, below.len(), values) is Ok
            &&& value_of_product(below, below.len(), values)->Ok_0 != S::nought()
            &&& atoms_product(atoms, n, values) == value_of_product(
                above,
                above.len(),
                values,
            )->Ok_0.product(
                S::unit().quotient(value_of_product(below, below.len(), values)->Ok_0),
            )
        }),
    decreases n,
{
    lemma_one_is_not_zero::<S>();
    if n == 0 {
        lemma_inverse(S::unit(), S::unit());
        lemma_product_one(S::unit().quotient(S::unit()));
    } else {
        let less = (n - 1) as nat;
        lemma_numerator_and_denominator(atoms, less, values);
        let (e, p) = atoms[n - 1];
        assert(value(e, values) is Ok);
        let v = value(e, values)->Ok_0;
        let above = numerator(atoms, less);
        let below = denominator(atoms, less);
        let a = value_of_product(above, above.len(), values)->Ok_0;
        let b = value_of_product(below, below.len(), values)->Ok_0;
        let i = S::unit().quotient(b);
        let up = copies(e, p);
        let down = copies(e, -p);
        if p >= 0 {
            lemma_copies(e, p as nat, values);
            lemma_product_concat(above, up, up.len(), values);
            assert(down =~= Seq::empty());
            assert(below + down =~= below);
            let w = power(v, p as nat);
            lemma_product_associates(a, i, w);
            lemma_product_commutes(i, w);
            lemma_product_associates(a, w, i);
        } else {
            lemma_copies(e, (-p) as nat, values);
            lemma_product_concat(below, down, down.len(), values);
            assert(up =~= Seq::empty());
            assert(above + up =~= above);
            let w = power(v, (-p) as nat);
            lemma_power_not_zero(v, (-p) as nat);
            lemma_inverse_of_product(b, w);
            lemma_product_associates(a, i, S::unit().quotient(w));
        }
    }
}

proof fn lemma_under_one<S: Scalar>(factors: Seq<Expr<S>>, values: Map<Seq<char>, S>)
    requires
        exact::<S>(),
        value_of_product(factors, factors.len(), values) is Ok,
        value_of_product(factors, factors.len(), values)->Ok_0 != S::nought(),
    ensures
        value_of_product(under_one(factors), under_one(factors).len(), values) == Ok::<
            S,
            Failure<S>,
        >(S::unit().quotient(value_of_product(factors, factors.len(), values)->Ok_0)),
{
    let b = value_of_product(factors, factors.len(), values)->Ok_0;
    lemma_equal(b, S::nought());
    if factors.len() == 0 {
        lemma_inverse(S::unit(), S::unit());
        lemma_product_one(S::unit().quotient(S::unit()));
    } else {
        if factors.len() == 1 {
            assert(factors =~= seq![factors[0]]);
            reveal_with_fuel(value_of_product, 2);
            lemma_product_is_valued(factors, 1, values);
            assert(value(factors[0], values) is Ok);
            lemma_single(factors[0], values);
        }
        let inner = if factors.len() == 1 {
            factors[0]
        } else {
            Expr::Multiply(factors)
        };
        let e = Expr::Reciprocal(Box::new(inner));
        assert(under_one(factors) =~= seq![e]);
        assert(value(inner, values) == Ok::<S, Failure<S>>(b));
        assert(value(e, values) == Ok::<S, Failure<S>>(S::unit().quotient(b)));
        lemma_single(e, values);
    }
}

/// The simplified product of a list has the value of the list's product.
proof fn lemma_product_of_factors<S: Scalar>(factors: Seq<Expr<S>>, values: Map<Seq<char>, S>)
    requires
        exact::<S>(),
        value_of_product(factors, factors.len(), values) is Ok,
    ensures
        value(product_of_factors(factors), values) == value_of_product(
            factors,
            factors.len(),
            values,
        ),
{
    let total = value_of_product(factors, factors.len(), values)->Ok_0;
    let all = leaves_of(factors, factors.len(), false);
    lemma_leaves_of(factors, factors.len(), false, values);
    let c = constant_product(all, all.len());
    let atoms = net_powers(all, all.len());
    lemma_net_powers(all, all.len(), values);
    lemma_numerator_and_denominator(atoms, atoms.len(), values);
    let above = numerator(atoms, atoms.len());
    let below = denominator(atoms, atoms.len());
    let a = value_of_product(above, above.len(), values)->Ok_0;
    let b = value_of_product(below, below.len(), values)->Ok_0;
    let i = S::unit().quotient(b);
    let q = atoms_product(atoms, atoms.len(), values);
    lemma_equal(c, S::nought());
    lemma_equal(c, S::unit());
    lemma_product_zero(q);
    let head = if c.equal(S::unit()) {
        Seq::empty()
    } else {
        seq![Expr::Constant(c)]
    };
    let last = under_one(below);
    let left = collected_factors(c, atoms);
    lemma_under_one(below, values);
    lemma_single(Expr::Constant(c), values);
    lemma_product_concat(head, above, above.len(), values);
    lemma_product_concat(head + above, last, last.len(), values);
    assert(left == head + above + last);
    lemma_product_associates(c, a, i);
    assert(value_of_product(left, left.len(), values) == Ok::<S, Failure<S>>(total));
    if left.len() == 1 {
        assert(left =~= seq![left[0]]);
        reveal_with_fuel(value_of_product, 2);
        lemma_product_is_valued(left, 1, values);
        assert(value(left[0], values) is Ok);
        lemma_single(left[0], values);
    }
}

proof fn lemma_factors_of<S: Scalar>(e: Expr<S>, values: Map<Seq<char>, S>)
    requires
        exact::<S>(),
        value(e, values) is Ok,
    ensures
        value_of_product(factors_of(e), factors_of(e).len(), values) == value(e, values),
{
    lemma_single(e, values);
}

/// The value of a simplified product is the product of the values.
pub proof fn law_product_keeps_value<S: Scalar>(
    a: Expr<S>,
    b: Expr<S>,
    values: Map<Seq<char>, S>,
)
    requires
        exact::<S>(),
        value(a, values) is Ok,
        value(b, values) is Ok,
    ensures
        value(product(a, b), values) == Ok::<S, Failure<S>>(
            value(a, values)->Ok_0.product(value(b, values)->Ok_0),
        ),
{
    let x = value(a, values)->Ok_0;
    let y = value(b, values)->Ok_0;
    lemma_equal(x, S::nought());
    lemma_equal(y, S::nought());
    lemma_equal(x, S::unit());
    lemma_equal(y, S::unit());
    lemma_product_zero(x);
    lemma_product_zero(y);
    lemma_product_one(x);
    lemma_product_one(y);
    lemma_factors_of(a, values);
    lemma_factors_of(b, values);
    lemma_product_concat(factors_of(a), factors_of(b), factors_of(b).len(), values);
    lemma_product_of_factors(factors_of(a) + factors_of(b), values);
}

/// The value of a reciprocal is the inverse of the value, where that is not zero.
pub proof fn law_reciprocal_keeps_value<S: Scalar>(e: Expr<S>, values: Map<Seq<char>, S>)
    requires
        exact::<S>(),
        value(e, values) is Ok,
        value(e, values)->Ok_0 != S::nought(),
    ensures
        value(reciprocal(e), values) == Ok::<S, Failure<S>>(
            S::unit().quotient(value(e, values)->Ok_0),
        ),
{
    lemma_equal(value(e, values)->Ok_0, S::nought());
    match e {
        Expr::Reciprocal(inner) => {
            let w = value(*inner, values)->Ok_0;
            lemma_equal(w, S::nought());
            lemma_inverse_twice(w);
        },
        _ => {},
    }
}

/// The value of a square root is the root of the value, where that is not negative.
pub proof fn law_root_keeps_value<S: Scalar>(e: Expr<S>, values: Map<Seq<char>, S>)
    requires
        value(e, values) is Ok,
        !value(e, values)->Ok_0.below(S::nought()),
    ensures
        value(sqrt(e), values) == Ok::<S, Failure<S>>(value(e, values)->Ok_0.root()),
{
}

// Cancellation

/// Where numbers are exact, all of them are ordinary.
pub proof fn law_exact_numbers_are_ordinary<S: Scalar>(e: Expr<S>)
    requires
        exact::<S>(),
    ensures
        is_ordinary_throughout(e),
        has_ordinary_units::<S>(),
    decreases e,
{
    lemma_ordinary(S::nought());
    lemma_ordinary(S::unit());
    lemma_one_is_not_zero::<S>();
    lemma_equal(S::unit(), S::nought());
    match e {
        Expr::Constant(x) => {
            lemma_ordinary(x);
        },
        Expr::Symbol(_) => {},
        Expr::Add(x) => {
            assert forall|i: int| 0 <= i < x.len() implies is_ordinary_throughout(
                #[trigger] x[i],
            ) by {
                law_exact_numbers_are_ordinary(x[i]);
            }
        },
        Expr::Multiply(x) => {
            assert forall|i: int| 0 <= i < x.len() implies is_ordinary_throughout(
                #[trigger] x[i],
            ) by {
                law_exact_numbers_are_ordinary(x[i]);
            }
        },
        Expr::Reciprocal(x) => {
            law_exact_numbers_are_ordinary(*x);
        },
        Expr::Sqrt(x) => {
            law_exact_numbers_are_ordinary(*x);
        },
    }
}

proof fn lemma_ordinary<S: Scalar>(x: S)
    requires
        exact::<S>(),
    ensures
        is_ordinary(x),
{
    lemma_equal(x, x);
    lemma_negation(x);
    lemma_equal(x.sum(x.negation()), S::nought());
    lemma_equal(x, S::nought());
    lemma_equal(x.negation(), S::nought());
    lemma_negation_twice(x);
    lemma_negation(S::nought());
    lemma_sum_zero(S::nought().negation());
}

/// An expression and its negation cancel, to the literal zero unless the expression is itself a
/// constant. A sum is left out: its negation is a single term, which does not cancel term by
/// term. Nothing is asked of the numbers but that those in the expression are ordinary.
pub proof fn law_negation_cancels<S: Scalar>(e: Expr<S>)
    requires
        has_ordinary_units::<S>(),
        is_ordinary_throughout(e),
        !(e is Add),
    ensures
        is_zero(sum(e, negation(e))),
        !(e is Constant) ==> sum(e, negation(e)) == zero::<S>(),
{
    let n = negation(e);
    if !(e is Constant) {
        let terms = terms_of(e) + terms_of(n);
        let (c, base) = coefficient_and_base(e);
        let (d, other) = coefficient_and_base(n);
        assert(terms =~= seq![e, n]);
        match e {
            Expr::Multiply(factors) => {
                if factors.len() > 0 && factors[0] is Constant {
                    let changed = factors.update(
                        0,
                        Expr::Constant(factors[0]->Constant_0.negation()),
                    );
                    assert(changed.skip(1) =~= factors.skip(1));
                    assert(is_ordinary_throughout(factors[0]));
                    let rest = factors.skip(1);
                    assert forall|i: int| 0 <= i < rest.len() implies is_ordinary_throughout(
                        #[trigger] rest[i],
                    ) by {
                        assert(is_ordinary_throughout(factors[i + 1]));
                    }
                    if factors.len() == 2 {
                        assert(is_ordinary_throughout(factors[1]));
                    }
                }
            },
            _ => {},
        }
        assert(base == other && d == c.negation());
        assert(is_ordinary_throughout(base) && is_ordinary(c));
        lemma_same_reflexive(base);
        reveal_with_fuel(term_groups, 3);
        reveal_with_fuel(constant_sum, 3);
        reveal_with_fuel(group_of, 2);
        reveal_with_fuel(groups_terms, 2);
        let groups = term_groups(terms, 2);
        assert(groups =~= seq![(c.sum(d), base)]);
        assert(constant_sum(terms, 2) == S::nought());
        assert(collected_terms(terms) =~= Seq::empty());
    }
}

/// Zero is neutral: added on either side it leaves every expression as it is, except that one of
/// two zeros is left of them.
pub proof fn law_zero_is_neutral<S: Scalar>(e: Expr<S>)
    requires
        has_ordinary_units::<S>(),
    ensures
        sum(zero(), e) == e,
        !is_zero(e) ==> sum(e, zero()) == e,
        is_zero(e) ==> is_zero(sum(e, zero())),
{
}

/// The reciprocal of a reciprocal is the expression itself. Constants are left out, whose
/// reciprocal is another constant, and reciprocals, which are taken away first.
pub proof fn law_reciprocal_twice<S: Scalar>(e: Expr<S>)
    requires
        !(e is Constant),
        !(e is Reciprocal),
    ensures
        reciprocal(reciprocal(e)) == e,
{
}

/// An expression times its reciprocal is one, where the expression is not itself a constant,
/// a product or a reciprocal.
pub proof fn law_reciprocal_cancels<S: Scalar>(e: Expr<S>)
    requires
        has_ordinary_units::<S>(),
        is_ordinary_throughout(e),
        !(e is Constant),
        !(e is Multiply),
        !(e is Reciprocal),
    ensures
        product(e, reciprocal(e)) == one::<S>(),
{
    let factors = factors_of(e) + factors_of(reciprocal(e));
    assert(factors =~= seq![e, reciprocal(e)]);
    reveal_with_fuel(leaves_of, 3);
    reveal_with_fuel(leaves, 3);
    let all = leaves_of(factors, 2, false);
    assert(all =~= seq![(e, false), (e, true)]);
    lemma_same_reflexive(e);
    reveal_with_fuel(net_powers, 3);
    reveal_with_fuel(atom_of, 2);
    reveal_with_fuel(constant_product, 3);
    reveal_with_fuel(numerator, 2);
    reveal_with_fuel(denominator, 2);
    let atoms = net_powers(all, 2);
    assert(atoms =~= seq![(e, 0int)]);
    assert(collected_factors(S::unit(), atoms) =~= Seq::empty());
}

} // verus!
