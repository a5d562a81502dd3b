//! Exact arithmetic: what a number type has to satisfy for results to be exact, and what
//! follows for sums of products.

use crate::scalar::Scalar;
use vstd::prelude::*;

verus! {

/// The operations of a number type are those of a field, and numeric equality is equality.
///
/// Types that round, such as binary floating point, are not exact. What is proved of exact
/// types shows that an algorithm is right apart from rounding.
#[verifier::opaque]
pub open spec fn exact<S: Scalar>() -> bool {
    &&& forall|a: S, b: S| #[trigger] a.sum(b) == b.sum(a)
    &&& forall|a: S, b: S, c: S| #[trigger] a.sum(b).sum(c) == a.sum(b.sum(c))
    &&& forall|a: S| #[trigger] a.sum(S::nought()) == a
    &&& forall|a: S| a.sum(#[trigger] a.negation()) == S::nought()
    &&& forall|a: S, b: S| #[trigger] a.difference(b) == a.sum(b.negation())
    &&& forall|a: S, b: S| #[trigger] a.product(b) == b.product(a)
    &&& forall|a: S, b: S, c: S| #[trigger] a.product(b).product(c) == a.product(b.product(c))
    &&& forall|a: S| #[trigger] a.product(S::unit()) == a
    &&& forall|a: S, b: S, c: S| #[trigger]
        a.product(b.sum(c)) == a.product(b).sum(a.product(c))
    &&& forall|a: S, b: S| b != S::nought() ==> (#[trigger] a.quotient(b)).product(b) == a
    &&& S::unit() != S::nought()
    &&& forall|a: S, b: S| #[trigger] a.equal(b) <==> a == b
}

// The axioms, one by one

pub proof fn lemma_sum_commutes<S: Scalar>(a: S, b: S)
    requires
        exact::<S>(),
    ensures
        a.sum(b) == b.sum(a),
{
    reveal(exact);
}

pub proof fn lemma_sum_associates<S: Scalar>(a: S, b: S, c: S)
    requires
        exact::<S>(),
    ensures
        a.sum(b).sum(c) == a.sum(b.sum(c)),
{
    reveal(exact);
}

pub proof fn lemma_sum_zero<S: Scalar>(a: S)
    requires
        exact::<S>(),
    ensures
        a.sum(S::nought()) == a,
        S::nought().sum(a) == a,
{
    reveal(exact);
}

pub proof fn lemma_negation<S: Scalar>(a: S)
    requires
        exact::<S>(),
    ensures
        a.sum(a.negation()) == S::nought(),
        a.negation().sum(a) == S::nought(),
{
    reveal(exact);
}

pub proof fn lemma_difference<S: Scalar>(a: S, b: S)
    requires
        exact::<S>(),
    ensures
        a.difference(b) == a.sum(b.negation()),
{
    reveal(exact);
}

pub proof fn lemma_product_commutes<S: Scalar>(a: S, b: S)
    requires
        exact::<S>(),
    ensures
        a.product(b) == b.product(a),
{
    reveal(exact);
}

pub proof fn lemma_product_associates<S: Scalar>(a: S, b: S, c: S)
    requires
        exact::<S>(),
    ensures
        a.product(b).product(c) == a.product(b.product(c)),
{
    reveal(exact);
}

pub proof fn lemma_product_one<S: Scalar>(a: S)
    requires
        exact::<S>(),
    ensures
        a.product(S::unit()) == a,
        S::unit().product(a) == a,
{
    reveal(exact);
}

pub proof fn lemma_distributes<S: Scalar>(a: S, b: S, c: S)
    requires
        exact::<S>(),
    ensures
        a.product(b.sum(c)) == a.product(b).sum(a.product(c)),
        b.sum(c).product(a) == b.product(a).sum(c.product(a)),
{
    reveal(exact);
}

pub proof fn lemma_quotient<S: Scalar>(a: S, b: S)
    requires
        exact::<S>(),
        b != S::nought(),
    ensures
        a.quotient(b).product(b) == a,
{
    reveal(exact);
}

pub proof fn lemma_one_is_not_zero<S: Scalar>()
    requires
        exact::<S>(),
    ensures
        S::unit() != S::nought(),
{
    reveal(exact);
}

pub proof fn lemma_equal<S: Scalar>(a: S, b: S)
    requires
        exact::<S>(),
    ensures
        a.equal(b) <==> a == b,
{
    reveal(exact);
}

// Consequences

pub proof fn lemma_sum_cancels<S: Scalar>(a: S, b: S, c: S)
    requires
        exact::<S>(),
        a.sum(b) == a.sum(c),
    ensures
        b == c,
{
    let n = a.negation();
    lemma_sum_associates(n, a, b);
    lemma_sum_associates(n, a, c);
    lemma_negation(a);
    lemma_sum_zero(b);
    lemma_sum_zero(c);
}

pub proof fn lemma_product_zero<S: Scalar>(a: S)
    requires
        exact::<S>(),
    ensures
        a.product(S::nought()) == S::nought(),
        S::nought().product(a) == S::nought(),
{
    let z = S::nought();
    lemma_sum_zero(z);
    lemma_distributes(a, z, z);
    lemma_sum_zero(a.product(z));
    lemma_sum_cancels(a.product(z), a.product(z), z);
    lemma_product_commutes(a, z);
}

pub proof fn lemma_negation_is_unique<S: Scalar>(a: S, b: S)
    requires
        exact::<S>(),
        a.sum(b) == S::nought(),
    ensures
        b == a.negation(),
{
    lemma_negation(a);
    lemma_sum_cancels(a, b, a.negation());
}

pub proof fn lemma_negation_of_product<S: Scalar>(a: S, b: S)
    requires
        exact::<S>(),
    ensures
        a.negation().product(b) == a.product(b).negation(),
        a.product(b.negation()) == a.product(b).negation(),
{
    lemma_negation(a);
    lemma_negation(b);
    lemma_distributes(b, a, a.negation());
    lemma_distributes(a, b, b.negation());
    lemma_product_zero(b);
    lemma_product_zero(a);
    lemma_negation_is_unique(a.product(b), a.negation().product(b));
    lemma_negation_is_unique(a.product(b), a.product(b.negation()));
}

pub proof fn lemma_negation_of_sum<S: Scalar>(a: S, b: S)
    requires
        exact::<S>(),
    ensures
        a.sum(b).negation() == a.negation().sum(b.negation()),
{
    lemma_exchange(a, b, a.negation(), b.negation());
    lemma_negation(a);
    lemma_negation(b);
    lemma_sum_zero(S::nought());
    lemma_negation_is_unique(a.sum(b), a.negation().sum(b.negation()));
}

pub proof fn lemma_negation_twice<S: Scalar>(a: S)
    requires
        exact::<S>(),
    ensures
        a.negation().negation() == a,
        S::nought().negation() == S::nought(),
{
    lemma_negation(a);
    lemma_negation_is_unique(a.negation(), a);
    lemma_sum_zero(S::nought());
    lemma_negation_is_unique(S::nought(), S::nought());
}

pub proof fn lemma_minus_one<S: Scalar>(a: S)
    requires
        exact::<S>(),
    ensures
        S::unit().negation().product(a) == a.negation(),
{
    lemma_negation_of_product(S::unit(), a);
    lemma_product_one(a);
}

/// `(a + b) + (c + d) == (a + c) + (b + d)`.
pub proof fn lemma_exchange<S: Scalar>(a: S, b: S, c: S, d: S)
    requires
        exact::<S>(),
    ensures
        a.sum(b).sum(c.sum(d)) == a.sum(c).sum(b.sum(d)),
{
    lemma_sum_associates(a, b, c.sum(d));
    lemma_sum_associates(b, c, d);
    lemma_sum_commutes(b, c);
    lemma_sum_associates(c, b, d);
    lemma_sum_associates(a, c, b.sum(d));
}

/// `(a * b) * (c * d) == (a * c) * (b * d)`.
pub proof fn lemma_product_exchange<S: Scalar>(a: S, b: S, c: S, d: S)
    requires
        exact::<S>(),
    ensures
        a.product(b).product(c.product(d)) == a.product(c).product(b.product(d)),
{
    lemma_product_associates(a, b, c.product(d));
    lemma_product_associates(b, c, d);
    lemma_product_commutes(b, c);
    lemma_product_associates(c, b, d);
    lemma_product_associates(a, c, b.product(d));
}

pub proof fn lemma_no_zero_divisors<S: Scalar>(a: S, b: S)
    requires
        exact::<S>(),
        a != S::nought(),
        b != S::nought(),
    ensures
        a.product(b) != S::nought(),
{
    if a.product(b) == S::nought() {
        let i = S::unit().quotient(b);
        lemma_quotient(S::unit(), b);
        lemma_product_associates(a, b, i);
        lemma_product_commutes(b, i);
        lemma_product_one(a);
        lemma_product_zero(i);
    }
}

pub proof fn lemma_product_cancels<S: Scalar>(a: S, b: S, c: S)
    requires
        exact::<S>(),
        a != S::nought(),
        b.product(a) == c.product(a),
    ensures
        b == c,
{
    let i = S::unit().quotient(a);
    lemma_quotient(S::unit(), a);
    lemma_product_commutes(i, a);
    lemma_product_associates(b, a, i);
    lemma_product_associates(c, a, i);
    lemma_product_one(b);
    lemma_product_one(c);
}

/// Dividing is multiplying by the inverse, which is not zero.
pub proof fn lemma_inverse<S: Scalar>(a: S, b: S)
    requires
        exact::<S>(),
        b != S::nought(),
    ensures
        a.quotient(b) == a.product(S::unit().quotient(b)),
        S::unit().quotient(b).product(b) == S::unit(),
        S::unit().quotient(b) != S::nought(),
{
    let i = S::unit().quotient(b);
    lemma_quotient(S::unit(), b);
    lemma_quotient(a, b);
    lemma_product_associates(a, i, b);
    lemma_product_one(a);
    lemma_product_cancels(b, a.quotient(b), a.product(i));
    if i == S::nought() {
        lemma_product_zero(b);
        lemma_one_is_not_zero::<S>();
    }
}

// Sums of products

/// The sum of the products of the first `n` entries of two lists.
pub open spec fn combination<S: Scalar>(row: Seq<S>, v: Seq<S>, n: nat) -> S
    decreases n,
{
    if n == 0 {
        S::nought()
    } else {
        combination(row, v, (n - 1) as nat).sum(row[n - 1].product(v[n - 1]))
    }
}

pub proof fn lemma_combination_congruent<S: Scalar>(
    row: Seq<S>,
    v: Seq<S>,
    other_row: Seq<S>,
    other_v: Seq<S>,
    n: nat,
)
    requires
        forall|j: int|
            0 <= j < n ==> #[trigger] row[j] == other_row[j] && v[j] == other_v[j],
    ensures
        combination(row, v, n) == combination(other_row, other_v, n),
    decreases n,
{
    if n > 0 {
        lemma_combination_congruent(row, v, other_row, other_v, (n - 1) as nat);
        assert(row[n - 1] == other_row[n - 1]);
    }
}

/// Scaling a row scales its combination.
pub proof fn lemma_combination_scaled<S: Scalar>(
    row: Seq<S>,
    scaled: Seq<S>,
    s: S,
    v: Seq<S>,
    n: nat,
)
    requires
        exact::<S>(),
        forall|j: int| 0 <= j < n ==> #[trigger] scaled[j] == row[j].product(s),
    ensures
        combination(scaled, v, n) == combination(row, v, n).product(s),
    decreases n,
{
    if n == 0 {
        lemma_product_zero(s);
    } else {
        lemma_combination_scaled(row, scaled, s, v, (n - 1) as nat);
        assert(scaled[n - 1] == row[n - 1].product(s));
        let before = combination(row, v, (n - 1) as nat);
        let (r, x) = (row[n - 1], v[n - 1]);
        lemma_product_associates(r, s, x);
        lemma_product_commutes(s, x);
        lemma_product_associates(r, x, s);
        lemma_distributes(s, before, r.product(x));
    }
}

/// Adding rows adds their combinations.
pub proof fn lemma_combination_added<S: Scalar>(
    first: Seq<S>,
    second: Seq<S>,
    total: Seq<S>,
    v: Seq<S>,
    n: nat,
)
    requires
        exact::<S>(),
        forall|j: int| 0 <= j < n ==> #[trigger] total[j] == first[j].sum(second[j]),
    ensures
        combination(total, v, n) == combination(first, v, n).sum(combination(second, v, n)),
    decreases n,
{
    if n == 0 {
        lemma_sum_zero(S::nought());
    } else {
        lemma_combination_added(first, second, total, v, (n - 1) as nat);
        assert(total[n - 1] == first[n - 1].sum(second[n - 1]));
        let x = v[n - 1];
        lemma_distributes(x, first[n - 1], second[n - 1]);
        lemma_exchange(
            combination(first, v, (n - 1) as nat),
            combination(second, v, (n - 1) as nat),
            first[n - 1].product(x),
            second[n - 1].product(x),
        );
    }
}

/// The two lists of a combination can change places.
pub proof fn lemma_combination_commutes<S: Scalar>(row: Seq<S>, v: Seq<S>, n: nat)
    requires
        exact::<S>(),
    ensures
        combination(row, v, n) == combination(v, row, n),
    decreases n,
{
    if n > 0 {
        lemma_combination_commutes(row, v, (n - 1) as nat);
        lemma_product_commutes(row[n - 1], v[n - 1]);
    }
}

/// A row that is negated has the negated combination.
pub proof fn lemma_combination_negated<S: Scalar>(
    row: Seq<S>,
    negated: Seq<S>,
    v: Seq<S>,
    n: nat,
)
    requires
        exact::<S>(),
        forall|j: int| 0 <= j < n ==> #[trigger] negated[j] == row[j].negation(),
    ensures
        combination(negated, v, n) == combination(row, v, n).negation(),
    decreases n,
{
    if n == 0 {
        lemma_negation_twice(S::nought());
    } else {
        lemma_combination_negated(row, negated, v, (n - 1) as nat);
        assert(negated[n - 1] == row[n - 1].negation());
        lemma_negation_of_product(row[n - 1], v[n - 1]);
        lemma_negation_of_sum(
            combination(row, v, (n - 1) as nat),
            row[n - 1].product(v[n - 1]),
        );
    }
}

/// A row of zeros has the combination zero.
pub proof fn lemma_combination_zero<S: Scalar>(row: Seq<S>, v: Seq<S>, n: nat)
    requires
        exact::<S>(),
        forall|j: int| 0 <= j < n ==> #[trigger] row[j] == S::nought(),
    ensures
        combination(row, v, n) == S::nought(),
    decreases n,
{
    if n > 0 {
        lemma_combination_zero(row, v, (n - 1) as nat);
        assert(row[n - 1] == S::nought());
        lemma_product_zero(v[n - 1]);
        lemma_sum_zero(S::nought());
    }
}

/// A row with a single one picks an entry.
pub proof fn lemma_combination_unit<S: Scalar>(row: Seq<S>, v: Seq<S>, i: int, n: nat)
    requires
        exact::<S>(),
        0 <= i < n,
        forall|j: int|
            0 <= j < n ==> #[trigger] row[j] == (if i == j {
                S::unit()
            } else {
                S::nought()
            }),
    ensures
        combination(row, v, n) == v[i],
    decreases n,
{
    assert(row[n - 1] == (if i == n - 1 {
        S::unit()
    } else {
        S::nought()
    }));
    if i == n - 1 {
        lemma_combination_zero(row, v, (n - 1) as nat);
        lemma_product_one(v[i]);
        lemma_sum_zero(v[i]);
    } else {
        lemma_combination_unit(row, v, i, (n - 1) as nat);
        lemma_product_zero(v[n - 1]);
        lemma_sum_zero(v[i]);
    }
}

/// A column of a matrix.
pub open spec fn column_of<S>(m: Seq<Seq<S>>, c: int) -> Seq<S> {
    Seq::new(m.len(), |k: int| m[k][c])
}

/// The combinations of the rows of a matrix with a list.
pub open spec fn applied_to<S: Scalar>(m: Seq<Seq<S>>, v: Seq<S>, n: nat) -> Seq<S> {
    Seq::new(m.len(), |k: int| combination(m[k], v, n))
}

/// Combining a row with the columns of a matrix, and the result with a list, is combining the
/// row with the combinations of the matrix's rows with the list.
pub proof fn lemma_combination_associates<S: Scalar>(
    row: Seq<S>,
    m: Seq<Seq<S>>,
    through: Seq<S>,
    v: Seq<S>,
    n: nat,
)
    requires
        exact::<S>(),
        forall|j: int|
            0 <= j < n ==> #[trigger] through[j] == combination(row, column_of(m, j), m.len()),
    ensures
        combination(through, v, n) == combination(row, applied_to(m, v, n), m.len()),
    decreases n,
{
    if n == 0 {
        let zeros = applied_to(m, v, 0);
        lemma_combination_commutes(row, zeros, m.len());
        lemma_combination_zero(zeros, row, m.len());
    } else {
        let less = (n - 1) as nat;
        lemma_combination_associates(row, m, through, v, less);
        assert(through[n - 1] == combination(row, column_of(m, n - 1), m.len()));
        let x = v[n - 1];
        let last = column_of(m, n - 1);
        let scaled = Seq::new(m.len(), |k: int| last[k].product(x));
        lemma_combination_commutes(row, last, m.len());
        lemma_combination_scaled(last, scaled, x, row, m.len());
        lemma_combination_commutes(row, scaled, m.len());
        let before = applied_to(m, v, less);
        let after = applied_to(m, v, n);
        assert forall|k: int| 0 <= k < m.len() implies #[trigger] after[k] == before[k].sum(
            scaled[k],
        ) by {
            assert(after[k] == combination(m[k], v, n));
        }
        lemma_combination_added(before, scaled, after, row, m.len());
        lemma_combination_commutes(row, before, m.len());
        lemma_combination_commutes(row, after, m.len());
    }
}

} // verus!
