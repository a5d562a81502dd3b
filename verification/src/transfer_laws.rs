//! The Faddeev-LeVerrier recursion gives the characteristic polynomial and the adjugate, and
//! transfer functions are what they say, apart from rounding.

use crate::determinant::{
    cofactor, combined, counts, covers, derived, det, det_term, lemma_alien_cofactors, lemma_degree,
    lemma_derivative, lemma_det, lemma_expanded, lemma_own_cofactors, lemma_total_added,
    lemma_total_congruent, lemma_total_negated, lemma_total_scaled, lemma_total_single,
    lemma_total_swapped, lemma_total_zero, times, total,
};
use crate::expr;
use crate::expr::{is_zero, product, sum, value, Expr, Failure};
use crate::expression_laws::{law_product_keeps_value, law_sum_keeps_value};
use crate::field::{
    combination, exact, lemma_distributes, lemma_equal, lemma_exchange, lemma_negation,
    lemma_negation_of_product, lemma_negation_twice, lemma_product_associates,
    lemma_product_commutes, lemma_product_one, lemma_product_zero, lemma_quotient,
    lemma_sum_associates, lemma_sum_cancels, lemma_sum_commutes, lemma_sum_zero,
};
use crate::matrix::of_width;
use crate::numeric;
use crate::residue::Residue;
use crate::scalar::Scalar;
use crate::symbolic;
use crate::symbolic::{adjugate_term, characteristic, numerator_entry, trace};
use crate::symbolic_laws::{lemma_dot_value, row_values, rows_valued, rows_value};
use vstd::prelude::*;

verus! {

// The matrix `s*I - A`

/// Zero and one, as the entries of the unit matrix.
pub open spec fn delta<S: Scalar>(i: int, j: int) -> S {
    if i == j {
        S::unit()
    } else {
        S::nought()
    }
}

/// The rows of `s*I - A`.
pub open spec fn shifted<S: Scalar>(a: Seq<Seq<S>>) -> Seq<Seq<(S, S)>> {
    Seq::new(
        a.len(),
        |i: int| Seq::new(a.len(), |j: int| (delta::<S>(i, j), a[i][j].negation())),
    )
}

/// All columns of a square matrix.
pub open spec fn all_columns(n: nat) -> Seq<int> {
    Seq::new(n, |j: int| j)
}

/// The coefficient of `s^(n-t)` in the characteristic polynomial `det(s*I - A)`.
pub open spec fn characteristic_coefficient<S: Scalar>(a: Seq<Seq<S>>, t: int) -> S {
    det(shifted(a), all_columns(a.len()), a.len() - t)
}

/// The coefficient of `s^(n-t)` in an entry of the adjugate of `s*I - A`: the cofactor of the
/// transposed place.
pub open spec fn adjugate_coefficient<S: Scalar>(a: Seq<Seq<S>>, t: int, i: int, j: int) -> S {
    cofactor(shifted(a), all_columns(a.len()), j, i, a.len() - t)
}

/// The numbers up to `n` count, and none of them but zero is zero.
pub open spec fn counts_to<S: Scalar>(n: nat) -> bool {
    &&& counts::<S>()
    &&& forall|k: nat| 1 <= k <= n ==> #[trigger] S::of_count(k) != S::nought()
}

proof fn lemma_covers<S: Scalar>(a: Seq<Seq<S>>)
    ensures
        covers(shifted(a), all_columns(a.len())),
{
}

proof fn lemma_two<S: Scalar>(n: nat)
    requires
        exact::<S>(),
        counts_to::<S>(n),
        n >= 2,
    ensures
        S::unit().sum(S::unit()) != S::nought(),
{
    assert(S::of_count(0 + 1) == S::of_count(0).sum(S::unit()));
    assert(S::of_count(1 + 1) == S::of_count(1).sum(S::unit()));
    lemma_sum_zero(S::unit());
    assert(S::of_count(2) != S::nought());
}

proof fn lemma_counts_add<S: Scalar>(m: nat, n: nat)
    requires
        exact::<S>(),
        counts::<S>(),
    ensures
        S::of_count(m + n) == S::of_count(m).sum(S::of_count(n)),
    decreases n,
{
    if n == 0 {
        lemma_sum_zero(S::of_count(m));
    } else {
        let less = (n - 1) as nat;
        lemma_counts_add::<S>(m, less);
        assert(S::of_count((m + less) + 1) == S::of_count(m + less).sum(S::unit()));
        assert(S::of_count(less + 1) == S::of_count(less).sum(S::unit()));
        lemma_sum_associates(S::of_count(m), S::of_count(less), S::unit());
        assert((m + less) + 1 == m + n);
        assert(less + 1 == n);
    }
}

/// The sum of a value repeated.
proof fn lemma_total_constant<S: Scalar>(f: spec_fn(int) -> S, x: S, n: nat)
    requires
        exact::<S>(),
        counts::<S>(),
        forall|i: int| 0 <= i < n ==> #[trigger] f(i) == x,
    ensures
        total(f, n) == S::of_count(n).product(x),
    decreases n,
{
    if n == 0 {
        lemma_product_zero(x);
    } else {
        let less = (n - 1) as nat;
        lemma_total_constant(f, x, less);
        assert(f(n - 1) == x);
        assert(S::of_count(less + 1) == S::of_count(less).sum(S::unit()));
        lemma_distributes(x, S::of_count(less), S::unit());
        lemma_product_one(x);
    }
}

// What the coefficients satisfy

/// The coefficients of the adjugate follow from each other: `B_(t+1) = A*B_t + d_t*I`.
proof fn lemma_recursion<S: Scalar>(a: Seq<Seq<S>>, t: int, i: int, k: int)
    requires
        exact::<S>(),
        counts_to::<S>(a.len()),
        0 <= i < a.len(),
        0 <= k < a.len(),
    ensures
        adjugate_coefficient(a, t + 1, i, k) == total(
            |j: int| a[i][j].product(adjugate_coefficient(a, t, j, k)),
            a.len(),
        ).sum(delta::<S>(i, k).product(characteristic_coefficient(a, t))),
{
    let n = a.len();
    let rows = shifted(a);
    let cols = all_columns(n);
    let m = n - t;
    let d = characteristic_coefficient(a, t);
    if i == k {
        lemma_own_cofactors(rows, cols, k, m);
        lemma_product_one(d);
    } else {
        lemma_two::<S>(n);
        lemma_alien_cofactors(rows, cols, i, k, m);
        lemma_product_zero(d);
    }
    let right = delta::<S>(i, k).product(d);
    assert(combined(rows[i], rows, cols, k, m) == right);
    let all = |j: int|
        times(
            rows[i][cols[j]],
            cofactor(rows, cols, k, j, m - 1),
            cofactor(rows, cols, k, j, m),
        );
    let own = |j: int| delta::<S>(i, j).product(adjugate_coefficient(a, t + 1, j, k));
    let fed = |j: int| a[i][j].product(adjugate_coefficient(a, t, j, k));
    let back = |j: int| fed(j).negation();
    assert forall|j: int| 0 <= j < n implies #[trigger] all(j) == own(j).sum(back(j)) by {
        assert(rows[i][cols[j]] == (delta::<S>(i, j), a[i][j].negation()));
        lemma_negation_of_product(a[i][j], adjugate_coefficient(a, t, j, k));
    }
    lemma_total_added(own, back, all, n);
    lemma_total_negated(fed, back, n);
    assert forall|j: int| 0 <= j < n && j != i implies #[trigger] own(j) == S::nought() by {
        lemma_product_zero(adjugate_coefficient(a, t + 1, j, k));
    }
    lemma_total_single(own, i, n);
    let x = adjugate_coefficient(a, t + 1, i, k);
    let y = total(fed, n);
    lemma_product_one(x);
    assert(x.sum(y.negation()) == right);
    lemma_sum_associates(x, y.negation(), y);
    lemma_negation(y);
    lemma_sum_zero(x);
    lemma_sum_commutes(right, y);
}

/// The adjugate has no coefficient before the first and none behind the last.
proof fn lemma_adjugate_ends<S: Scalar>(a: Seq<Seq<S>>, i: int, j: int)
    requires
        exact::<S>(),
        0 <= i < a.len(),
        0 <= j < a.len(),
    ensures
        adjugate_coefficient(a, 0, i, j) == S::nought(),
        adjugate_coefficient(a, (a.len() + 1) as int, i, j) == S::nought(),
{
    let rows = shifted(a);
    let cols = all_columns(a.len());
    lemma_degree(rows.remove(j), cols.remove(i), a.len() as int);
    lemma_degree(rows.remove(j), cols.remove(i), -1);
    lemma_negation_twice(S::nought());
}

/// A determinant whose leading coefficients are those of the unit matrix begins with one.
proof fn lemma_leading<S: Scalar>(rows: Seq<Seq<(S, S)>>, cols: Seq<int>)
    requires
        exact::<S>(),
        rows.len() == cols.len(),
        forall|i: int, j: int|
            0 <= i < rows.len() && 0 <= j < cols.len() ==> (#[trigger] rows[i][cols[j]]).0
                == delta::<S>(i, j),
    ensures
        det(rows, cols, rows.len() as int) == S::unit(),
    decreases rows.len(),
{
    let n = rows.len();
    if n > 0 {
        let rest = rows.skip(1);
        lemma_det(rows, cols, n as int);
        let f = |j: int| det_term(rows, cols, n as int, j);
        assert forall|j: int| 0 <= j < n && j != 0 implies #[trigger] f(j) == S::nought() by {
            assert(rows[0][cols[j]].0 == delta::<S>(0, j));
            lemma_degree(rest, cols.remove(j), n as int);
            lemma_product_zero(det(rest, cols.remove(j), n - 1));
            lemma_product_zero(rows[0][cols[j]].1);
            lemma_sum_zero(S::nought());
            lemma_negation_twice(S::nought());
        }
        lemma_total_single(f, 0, n);
        let left = cols.remove(0);
        assert forall|i: int, j: int| 0 <= i < rest.len() && 0 <= j < left.len() implies (
        #[trigger] rest[i][left[j]]).0 == delta::<S>(i, j) by {
            assert(left[j] == cols[j + 1]);
            assert(rest[i] == rows[i + 1]);
            assert(rows[i + 1][cols[j + 1]].0 == delta::<S>(i + 1, j + 1));
        }
        lemma_leading(rest, left);
        assert(rows[0][cols[0]].0 == delta::<S>(0, 0));
        lemma_degree(rest, left, n as int);
        lemma_product_one(S::unit());
        lemma_product_zero(rows[0][cols[0]].1);
        lemma_sum_zero(S::unit());
    }
}

proof fn lemma_first_coefficient<S: Scalar>(a: Seq<Seq<S>>)
    requires
        exact::<S>(),
    ensures
        characteristic_coefficient(a, 0) == S::unit(),
{
    let rows = shifted(a);
    let cols = all_columns(a.len());
    assert forall|i: int, j: int| 0 <= i < rows.len() && 0 <= j < cols.len() implies (
    #[trigger] rows[i][cols[j]]).0 == delta::<S>(i, j) by {}
    lemma_leading(rows, cols);
}

/// The trace of the adjugate is the derivative of the characteristic polynomial.
proof fn lemma_trace_of_adjugate<S: Scalar>(a: Seq<Seq<S>>, t: nat)
    requires
        exact::<S>(),
        counts_to::<S>(a.len()),
        t <= a.len(),
    ensures
        total(|i: int| adjugate_coefficient(a, (t + 1) as int, i, i), a.len()) == S::of_count(
            (a.len() - t) as nat,
        ).product(characteristic_coefficient(a, t as int)),
{
    let n = a.len();
    let rows = shifted(a);
    let cols = all_columns(n);
    let diagonal = |i: int| adjugate_coefficient(a, (t + 1) as int, i, i);
    if t == n {
        assert forall|i: int| 0 <= i < n implies #[trigger] diagonal(i) == S::nought() by {
            lemma_adjugate_ends(a, i, i);
        }
        lemma_total_zero(diagonal, n);
        lemma_product_zero(characteristic_coefficient(a, t as int));
    } else {
        let k = (n - t - 1) as nat;
        lemma_covers(a);
        lemma_derivative(rows, cols, k);
        let each = |i: int| det(rows.update(i, derived(rows[i])), cols, k as int);
        assert forall|i: int| 0 <= i < n implies #[trigger] each(i) == diagonal(i) by {
            let row = derived(rows[i]);
            lemma_expanded(row, rows, cols, i, k as int);
            let f = |j: int|
                times(
                    row[cols[j]],
                    cofactor(rows, cols, i, j, k - 1),
                    cofactor(rows, cols, i, j, k as int),
                );
            assert forall|j: int| 0 <= j < n implies #[trigger] f(j) == delta::<S>(i, j).product(
                cofactor(rows, cols, i, j, k as int),
            ) by {
                assert(row[cols[j]] == (S::nought(), delta::<S>(i, j)));
                lemma_product_zero(cofactor(rows, cols, i, j, k - 1));
                lemma_sum_zero(delta::<S>(i, j).product(cofactor(rows, cols, i, j, k as int)));
            }
            assert forall|j: int| 0 <= j < n && j != i implies #[trigger] f(j)
                == S::nought() by {
                lemma_product_zero(cofactor(rows, cols, i, j, k as int));
                assert(f(j) == delta::<S>(i, j).product(cofactor(rows, cols, i, j, k as int)));
            }
            lemma_total_single(f, i, n);
            lemma_product_one(cofactor(rows, cols, i, i, k as int));
            assert(f(i) == delta::<S>(i, i).product(cofactor(rows, cols, i, i, k as int)));
        }
        lemma_total_congruent(each, diagonal, n);
    }
}

/// The trace of `A*B_t` is minus `t` times the coefficient of the characteristic polynomial.
proof fn lemma_trace_of_product<S: Scalar>(a: Seq<Seq<S>>, t: nat)
    requires
        exact::<S>(),
        counts_to::<S>(a.len()),
        t <= a.len(),
    ensures
        total(
            |i: int|
                total(|j: int| a[i][j].product(adjugate_coefficient(a, t as int, j, i)), a.len()),
            a.len(),
        ) == S::of_count(t).product(characteristic_coefficient(a, t as int)).negation(),
{
    let n = a.len();
    let d = characteristic_coefficient(a, t as int);
    let inner = |i: int|
        total(|j: int| a[i][j].product(adjugate_coefficient(a, t as int, j, i)), n);
    let diagonal = |i: int| adjugate_coefficient(a, (t + 1) as int, i, i);
    let same = |i: int| d;
    assert forall|i: int| 0 <= i < n implies #[trigger] diagonal(i) == inner(i).sum(same(i)) by {
        lemma_recursion(a, t as int, i, i);
        lemma_product_one(d);
    }
    lemma_total_added(inner, same, diagonal, n);
    lemma_total_constant(same, d, n);
    lemma_trace_of_adjugate(a, t);
    lemma_counts_add::<S>((n - t) as nat, t);
    assert(((n - t) as nat) + t == n);
    let (x, y) = (S::of_count((n - t) as nat), S::of_count(t));
    lemma_distributes(d, x, y);
    // total(inner) + (x + y)*d == x*d
    let p = total(inner, n);
    let (xd, yd) = (x.product(d), y.product(d));
    assert(p.sum(xd.sum(yd)) == xd);
    lemma_sum_commutes(xd, yd);
    lemma_sum_associates(p, yd, xd);
    lemma_sum_commutes(p.sum(yd), xd);
    lemma_sum_zero(xd);
    lemma_sum_cancels(xd, p.sum(yd), S::nought());
    lemma_sum_commutes(p, yd);
    crate::field::lemma_negation_is_unique(yd, p);
}

// The recursion, evaluated

proof fn lemma_dot_is_total<S: Scalar>(row: Seq<S>, m: Seq<Seq<S>>, col: int, n: nat)
    ensures
        numeric::dot(row, m, col, n) == total(|l: int| row[l].product(m[l][col]), n),
    decreases n,
{
    if n > 0 {
        lemma_dot_is_total(row, m, col, (n - 1) as nat);
    }
}

proof fn lemma_trace_value<S: Scalar>(
    m: Seq<Seq<Expr<S>>>,
    values: Map<Seq<char>, S>,
    n: nat,
)
    requires
        exact::<S>(),
        n <= m.len(),
        forall|i: int| 0 <= i < n ==> value(#[trigger] m[i][i], values) is Ok,
    ensures
        value(trace(m, n), values) == Ok::<S, Failure<S>>(
            total(|i: int| value(m[i][i], values)->Ok_0, n),
        ),
    decreases n,
{
    if n > 0 {
        let less = (n - 1) as nat;
        lemma_trace_value(m, values, less);
        let e = m[n - 1][n - 1];
        assert(value(e, values) is Ok);
        let before = trace(m, less);
        if is_zero(e) {
            lemma_equal(e->Constant_0, S::nought());
            lemma_sum_zero(value(before, values)->Ok_0);
        } else {
            law_sum_keeps_value(before, e, values);
        }
    }
}

/// The matrices and coefficients of the recursion, evaluated, are those of the adjugate and of
/// the characteristic polynomial.
proof fn lemma_faddeev<S: Scalar>(a: Seq<Seq<Expr<S>>>, values: Map<Seq<char>, S>, t: nat)
    requires
        exact::<S>(),
        counts_to::<S>(a.len()),
        of_width(a, a.len()),
        rows_valued(a, values),
        t <= a.len(),
    ensures
        adjugate_term(a, t).len() == a.len(),
        of_width(adjugate_term(a, t), a.len()),
        forall|i: int, j: int|
            0 <= i < a.len() && 0 <= j < a.len() ==> value(
                #[trigger] adjugate_term(a, t)[i][j],
                values,
            ) == Ok::<S, Failure<S>>(
                adjugate_coefficient(rows_value(a, values), t as int, i, j),
            ),
        value(characteristic(a, t), values) == Ok::<S, Failure<S>>(
            characteristic_coefficient(rows_value(a, values), t as int),
        ),
    decreases t,
{
    let n = a.len();
    let v = rows_value(a, values);
    let m = adjugate_term(a, t);
    assert(v.len() == n);
    if t == 0 {
        assert forall|i: int, j: int| 0 <= i < n && 0 <= j < n implies value(
            #[trigger] m[i][j],
            values,
        ) == Ok::<S, Failure<S>>(adjugate_coefficient(v, 0, i, j)) by {
            lemma_adjugate_ends(v, i, j);
        }
        lemma_first_coefficient(v);
    } else {
        let less = (t - 1) as nat;
        lemma_faddeev(a, values, less);
        assert forall|i: int, j: int| 0 <= i < n && 0 <= j < n implies value(
            #[trigger] m[i][j],
            values,
        ) == Ok::<S, Failure<S>>(adjugate_coefficient(v, t as int, i, j)) by {
            lemma_next_term(a, values, less, i, j);
        }
        let step = symbolic::matrix_product(a, m, n);
        let dt = characteristic_coefficient(v, t as int);
        let diagonal = |i: int| value(step[i][i], values)->Ok_0;
        let inner = |i: int|
            total(|l: int| v[i][l].product(adjugate_coefficient(v, t as int, l, i)), n);
        assert forall|i: int| 0 <= i < n implies value(#[trigger] step[i][i], values) == Ok::<
            S,
            Failure<S>,
        >(inner(i)) by {
            lemma_product_entry(a, m, values, t, i, i);
        }
        lemma_trace_value(step, values, n);
        assert forall|i: int| 0 <= i < n implies #[trigger] diagonal(i) == inner(i) by {
            assert(value(step[i][i], values) is Ok);
        }
        lemma_total_congruent(diagonal, inner, n);
        lemma_trace_of_product(v, t);
        let factor = S::unit().negation().quotient(S::of_count(t));
        law_product_keeps_value(trace(step, n), Expr::Constant(factor), values);
        assert(S::of_count(t) != S::nought());
        lemma_undone(S::of_count(t), dt);
    }
}

/// An entry of the matrix after one that has been evaluated.
proof fn lemma_next_term<S: Scalar>(
    a: Seq<Seq<Expr<S>>>,
    values: Map<Seq<char>, S>,
    t: nat,
    i: int,
    j: int,
)
    requires
        exact::<S>(),
        counts_to::<S>(a.len()),
        of_width(a, a.len()),
        rows_valued(a, values),
        adjugate_term(a, t).len() == a.len(),
        of_width(adjugate_term(a, t), a.len()),
        forall|i: int, j: int|
            0 <= i < a.len() && 0 <= j < a.len() ==> value(
                #[trigger] adjugate_term(a, t)[i][j],
                values,
            ) == Ok::<S, Failure<S>>(
                adjugate_coefficient(rows_value(a, values), t as int, i, j),
            ),
        value(characteristic(a, t), values) == Ok::<S, Failure<S>>(
            characteristic_coefficient(rows_value(a, values), t as int),
        ),
        0 <= i < a.len(),
        0 <= j < a.len(),
    ensures
        value(adjugate_term(a, t + 1)[i][j], values) == Ok::<S, Failure<S>>(
            adjugate_coefficient(rows_value(a, values), (t + 1) as int, i, j),
        ),
{
    let n = a.len();
    let before = adjugate_term(a, t);
    let c = characteristic(a, t);
    lemma_product_entry(a, before, values, t, i, j);
    let unit = if i == j {
        expr::one::<S>()
    } else {
        expr::zero::<S>()
    };
    law_product_keeps_value(unit, c, values);
    law_sum_keeps_value(symbolic::dot(a[i], before, j, n), product(unit, c), values);
    lemma_recursion(rows_value(a, values), t as int, i, j);
    assert(adjugate_term(a, t + 1)[i][j] == sum(
        symbolic::dot(a[i], before, j, n),
        product(unit, c),
    ));
}

/// `-(k*d) * (-1/k) == d`.
proof fn lemma_undone<S: Scalar>(k: S, d: S)
    requires
        exact::<S>(),
        k != S::nought(),
    ensures
        k.product(d).negation().product(S::unit().negation().quotient(k)) == d,
{
    let q = S::unit().negation().quotient(k);
    lemma_quotient(S::unit().negation(), k);
    lemma_negation_of_product(k.product(d), q);
    lemma_product_commutes(k, d);
    lemma_product_associates(d, k, q);
    lemma_product_commutes(k, q);
    lemma_negation_of_product(d, S::unit());
    lemma_product_one(d);
    lemma_negation_twice(d);
}

/// An entry of the product of the matrix with a coefficient of its adjugate.
proof fn lemma_product_entry<S: Scalar>(
    a: Seq<Seq<Expr<S>>>,
    m: Seq<Seq<Expr<S>>>,
    values: Map<Seq<char>, S>,
    t: nat,
    i: int,
    j: int,
)
    requires
        exact::<S>(),
        of_width(a, a.len()),
        rows_valued(a, values),
        m.len() == a.len(),
        of_width(m, a.len()),
        forall|i: int, j: int|
            0 <= i < a.len() && 0 <= j < a.len() ==> value(#[trigger] m[i][j], values) == Ok::<
                S,
                Failure<S>,
            >(adjugate_coefficient(rows_value(a, values), t as int, i, j)),
        0 <= i < a.len(),
        0 <= j < a.len(),
    ensures
        value(symbolic::dot(a[i], m, j, a.len()), values) == Ok::<S, Failure<S>>(
            total(
                |l: int|
                    rows_value(a, values)[i][l].product(
                        adjugate_coefficient(rows_value(a, values), t as int, l, j),
                    ),
                a.len(),
            ),
        ),
{
    let n = a.len();
    let v = rows_value(a, values);
    assert(a[i].len() == n);
    assert forall|l: int| 0 <= l < n implies value(#[trigger] a[i][l], values) is Ok by {}
    assert forall|l: int| 0 <= l < n implies 0 <= j < (#[trigger] m[l]).len() && value(
        m[l][j],
        values,
    ) is Ok by {
        assert(m[l].len() == n);
        assert(value(m[l][j], values) is Ok);
    }
    lemma_dot_value(a[i], m, j, n, values);
    let w = rows_value(m, values);
    lemma_dot_is_total(row_values(a[i], values), w, j, n);
    let f = |l: int| row_values(a[i], values)[l].product(w[l][j]);
    let g = |l: int| v[i][l].product(adjugate_coefficient(v, t as int, l, j));
    assert forall|l: int| 0 <= l < n implies #[trigger] f(l) == g(l) by {
        assert(m[l].len() == n);
        assert(value(m[l][j], values) == Ok::<S, Failure<S>>(
            adjugate_coefficient(v, t as int, l, j),
        ));
    }
    lemma_total_congruent(f, g, n);
}

// What the coefficients solve

/// The coefficient of `s^(n-t)` in `adj(s*I - A)*b`.
spec fn moved<S: Scalar>(a: Seq<Seq<S>>, b: Seq<S>, t: int, i: int) -> S {
    total(|k: int| adjugate_coefficient(a, t, i, k).product(b[k]), a.len())
}

/// `B_(t+1)*b = A*(B_t*b) + d_t*b`.
proof fn lemma_moved<S: Scalar>(a: Seq<Seq<S>>, b: Seq<S>, t: int, i: int)
    requires
        exact::<S>(),
        counts_to::<S>(a.len()),
        0 <= i < a.len(),
    ensures
        moved(a, b, t + 1, i) == total(
            |j: int| a[i][j].product(moved(a, b, t, j)),
            a.len(),
        ).sum(characteristic_coefficient(a, t).product(b[i])),
{
    let n = a.len();
    let d = characteristic_coefficient(a, t);
    let all = |k: int| adjugate_coefficient(a, t + 1, i, k).product(b[k]);
    let part = |k: int, j: int| a[i][j].product(adjugate_coefficient(a, t, j, k)).product(b[k]);
    let fed = |k: int| total(|j: int| part(k, j), n);
    let own = |k: int| delta::<S>(i, k).product(d).product(b[k]);
    assert forall|k: int| 0 <= k < n implies #[trigger] all(k) == fed(k).sum(own(k)) by {
        lemma_recursion(a, t, i, k);
        let inner = |j: int| a[i][j].product(adjugate_coefficient(a, t, j, k));
        let outer = |j: int| part(k, j);
        assert forall|j: int| 0 <= j < n implies #[trigger] outer(j) == b[k].product(inner(j)) by {
            lemma_product_commutes(inner(j), b[k]);
        }
        lemma_total_scaled(inner, outer, b[k], n);
        let x = total(inner, n);
        let y = delta::<S>(i, k).product(d);
        lemma_distributes(b[k], x, y);
        lemma_product_commutes(b[k], x);
        lemma_product_commutes(b[k], y);
        lemma_product_commutes(x.sum(y), b[k]);
    }
    lemma_total_added(fed, own, all, n);
    assert forall|k: int| 0 <= k < n && k != i implies #[trigger] own(k) == S::nought() by {
        lemma_product_zero(d);
        lemma_product_zero(b[k]);
    }
    lemma_total_single(own, i, n);
    lemma_product_one(d);
    lemma_total_swapped(part, n, n);
    let turned = |j: int| total(|k: int| part(k, j), n);
    let wanted = |j: int| a[i][j].product(moved(a, b, t, j));
    assert forall|j: int| 0 <= j < n implies #[trigger] turned(j) == wanted(j) by {
        let inner = |k: int| adjugate_coefficient(a, t, j, k).product(b[k]);
        let outer = |k: int| part(k, j);
        assert forall|k: int| 0 <= k < n implies #[trigger] outer(k) == a[i][j].product(
            inner(k),
        ) by {
            lemma_product_associates(a[i][j], adjugate_coefficient(a, t, j, k), b[k]);
        }
        lemma_total_scaled(inner, outer, a[i][j], n);
    }
    lemma_total_congruent(turned, wanted, n);
}

proof fn lemma_moved_ends<S: Scalar>(a: Seq<Seq<S>>, b: Seq<S>, i: int)
    requires
        exact::<S>(),
        0 <= i < a.len(),
    ensures
        moved(a, b, 0, i) == S::nought(),
        moved(a, b, (a.len() + 1) as int, i) == S::nought(),
{
    let n = a.len();
    let first = |k: int| adjugate_coefficient(a, 0, i, k).product(b[k]);
    let last = |k: int| adjugate_coefficient(a, (n + 1) as int, i, k).product(b[k]);
    assert forall|k: int| 0 <= k < n implies #[trigger] first(k) == S::nought() by {
        lemma_adjugate_ends(a, i, k);
        lemma_product_zero(b[k]);
    }
    assert forall|k: int| 0 <= k < n implies #[trigger] last(k) == S::nought() by {
        lemma_adjugate_ends(a, i, k);
        lemma_product_zero(b[k]);
    }
    lemma_total_zero(first, n);
    lemma_total_zero(last, n);
}

/// The value at `s` of the polynomial with the given coefficients, highest power first.
pub open spec fn polynomial<S: Scalar>(coefficients: Seq<S>, s: S) -> S
    decreases coefficients.len(),
{
    if coefficients.len() == 0 {
        S::nought()
    } else {
        polynomial(coefficients.drop_last(), s).product(s).sum(coefficients.last())
    }
}

/// The first `m` coefficients of a numerator.
spec fn numerator<S: Scalar>(a: Seq<Seq<S>>, b: Seq<S>, i: int, m: nat) -> Seq<S> {
    Seq::new(m, |k: int| moved(a, b, k + 1, i))
}

/// The first `m` coefficients of the denominator.
spec fn denominator<S: Scalar>(a: Seq<Seq<S>>, m: nat) -> Seq<S> {
    Seq::new(m, |k: int| characteristic_coefficient(a, k))
}

/// Every numerator is the one before, moved on by the matrix, and the input times the
/// denominator as far as it goes.
proof fn lemma_numerators<S: Scalar>(a: Seq<Seq<S>>, b: Seq<S>, s: S, i: int, m: nat)
    requires
        exact::<S>(),
        counts_to::<S>(a.len()),
        0 <= i < a.len(),
    ensures
        polynomial(numerator(a, b, i, m + 1), s) == total(
            |j: int| a[i][j].product(polynomial(numerator(a, b, j, m), s)),
            a.len(),
        ).sum(polynomial(denominator(a, m + 1), s).product(b[i])),
    decreases m,
{
    let n = a.len();
    let d = characteristic_coefficient(a, m as int);
    let now = numerator(a, b, i, m + 1);
    assert(now.drop_last() =~= numerator(a, b, i, m));
    assert(now.last() == moved(a, b, (m + 1) as int, i));
    let den = denominator(a, m + 1);
    assert(den.drop_last() =~= denominator(a, m));
    let before = polynomial(numerator(a, b, i, m), s);
    let den_before = polynomial(denominator(a, m), s);
    lemma_moved(a, b, m as int, i);
    let all = |j: int| a[i][j].product(polynomial(numerator(a, b, j, m), s));
    let fresh = |j: int| a[i][j].product(moved(a, b, m as int, j));
    // before*s + total(fresh) + d*b == total(all) + (den_before*s + d)*b
    let db = d.product(b[i]);
    let pb = den_before.product(s).product(b[i]);
    lemma_product_commutes(den_before.product(s).sum(d), b[i]);
    lemma_distributes(b[i], den_before.product(s), d);
    lemma_product_commutes(b[i], den_before.product(s));
    lemma_product_commutes(b[i], d);
    assert(polynomial(den, s).product(b[i]) == pb.sum(db));
    if m == 0 {
        assert(numerator(a, b, i, 0).len() == 0);
        assert(denominator(a, 0).len() == 0);
        lemma_product_zero(s);
        lemma_product_zero(b[i]);
        assert forall|j: int| 0 <= j < n implies #[trigger] all(j) == fresh(j) by {
            assert(numerator(a, b, j, 0).len() == 0);
            lemma_moved_ends(a, b, j);
        }
        lemma_total_congruent(all, fresh, n);
        lemma_sum_zero(db);
        lemma_sum_zero(total(fresh, n).sum(db));
    } else {
        let less = (m - 1) as nat;
        lemma_numerators(a, b, s, i, less);
        assert(less + 1 == m);
        let old_all = |j: int| a[i][j].product(polynomial(numerator(a, b, j, less), s));
        let carried = |j: int| s.product(old_all(j));
        lemma_total_scaled(old_all, carried, s, n);
        assert forall|j: int| 0 <= j < n implies #[trigger] all(j) == carried(j).sum(
            fresh(j),
        ) by {
            let list = numerator(a, b, j, m);
            assert(list.drop_last() =~= numerator(a, b, j, less));
            let p = polynomial(numerator(a, b, j, less), s);
            assert(list.last() == moved(a, b, m as int, j));
            lemma_distributes(a[i][j], p.product(s), moved(a, b, m as int, j));
            lemma_product_associates(a[i][j], p, s);
            lemma_product_commutes(a[i][j].product(p), s);
        }
        lemma_total_added(carried, fresh, all, n);
        let t = total(old_all, n);
        let q = den_before.product(b[i]);
        assert(before == t.sum(q));
        lemma_product_commutes(t.sum(q), s);
        lemma_distributes(s, t, q);
        // s*(den_before*b) == (den_before*s)*b
        lemma_product_commutes(den_before, s);
        lemma_product_associates(s, den_before, b[i]);
        lemma_exchange(s.product(t), pb, total(fresh, n), db);
    }
}

// Laws

/// The numbers are countable up to six: `of_count` of zero is zero, each further one is one
/// more, and only the first of them is zero.
pub proof fn law_residues_count()
    ensures
        counts_to::<Residue>(6),
{
}

/// The coefficients that the Faddeev-LeVerrier recursion gives are those of the characteristic
/// polynomial: the `t`-th one, evaluated, is the coefficient of `s^(n-t)` in `det(s*I - A)`.
pub proof fn law_characteristic_polynomial<S: Scalar>(
    a: Seq<Seq<Expr<S>>>,
    values: Map<Seq<char>, S>,
    t: nat,
)
    requires
        exact::<S>(),
        counts_to::<S>(a.len()),
        of_width(a, a.len()),
        rows_valued(a, values),
        t <= a.len(),
    ensures
        value(characteristic(a, t), values) == Ok::<S, Failure<S>>(
            det(shifted(rows_value(a, values)), all_columns(a.len()), a.len() - t),
        ),
{
    lemma_faddeev(a, values, t);
}

/// The matrices that the Faddeev-LeVerrier recursion gives are those of the adjugate: an entry
/// of the `t`-th one, evaluated, is the coefficient of `s^(n-t)` in the cofactor of `s*I - A` at
/// the transposed place.
pub proof fn law_adjugate<S: Scalar>(
    a: Seq<Seq<Expr<S>>>,
    values: Map<Seq<char>, S>,
    t: nat,
    i: int,
    j: int,
)
    requires
        exact::<S>(),
        counts_to::<S>(a.len()),
        of_width(a, a.len()),
        rows_valued(a, values),
        1 <= t <= a.len(),
        0 <= i < a.len(),
        0 <= j < a.len(),
    ensures
        value(adjugate_term(a, t)[i][j], values) == Ok::<S, Failure<S>>(
            cofactor(shifted(rows_value(a, values)), all_columns(a.len()), j, i, a.len() - t),
        ),
{
    lemma_faddeev(a, values, t);
}

/// A matrix satisfies its own characteristic polynomial: the recursion, carried one step beyond
/// the last matrix, ends at zero.
pub proof fn law_recursion_ends<S: Scalar>(
    a: Seq<Seq<Expr<S>>>,
    values: Map<Seq<char>, S>,
    i: int,
    j: int,
)
    requires
        exact::<S>(),
        counts_to::<S>(a.len()),
        of_width(a, a.len()),
        rows_valued(a, values),
        0 <= i < a.len(),
        0 <= j < a.len(),
    ensures
        value(adjugate_term(a, a.len() + 1)[i][j], values) == Ok::<S, Failure<S>>(S::nought()),
{
    let n = a.len();
    let v = rows_value(a, values);
    lemma_faddeev(a, values, n);
    lemma_next_term(a, values, n, i, j);
    lemma_adjugate_ends(v, i, j);
}

/// The coefficients of a numerator, evaluated.
pub open spec fn numerator_values<S: Scalar>(
    a: Seq<Seq<Expr<S>>>,
    b: Seq<Seq<Expr<S>>>,
    output: int,
    input: int,
    values: Map<Seq<char>, S>,
) -> Seq<S> {
    Seq::new(
        a.len(),
        |k: int|
            value(
                numerator_entry(adjugate_term(a, (k + 1) as nat)[output], b, input, a.len()),
                values,
            )->Ok_0,
    )
}

/// The coefficients of the denominator, evaluated.
pub open spec fn denominator_values<S: Scalar>(
    a: Seq<Seq<Expr<S>>>,
    values: Map<Seq<char>, S>,
) -> Seq<S> {
    Seq::new(a.len() + 1, |k: int| value(characteristic(a, k as nat), values)->Ok_0)
}

/// A transfer function is `(s*I - A)^-1 B`: with the state `x` made of the values of all the
/// numerators at any `s`, and `d` the value of the denominator there,
/// `s*x == A*x + d*b` holds, `b` being the chosen column of `B`.
pub proof fn law_transfer_function<S: Scalar>(
    a: Seq<Seq<Expr<S>>>,
    b: Seq<Seq<Expr<S>>>,
    input: int,
    inputs: nat,
    values: Map<Seq<char>, S>,
    s: S,
    i: int,
)
    requires
        exact::<S>(),
        counts_to::<S>(a.len()),
        of_width(a, a.len()),
        rows_valued(a, values),
        b.len() == a.len(),
        of_width(b, inputs),
        rows_valued(b, values),
        0 <= input < inputs,
        0 <= i < a.len(),
    ensures
        forall|j: int, k: nat|
            0 <= j < a.len() && 1 <= k <= a.len() ==> value(
                numerator_entry(#[trigger] adjugate_term(a, k)[j], b, input, a.len()),
                values,
            ) is Ok,
        ({
            let x = Seq::new(
                a.len(),
                |j: int| polynomial(numerator_values(a, b, j, input, values), s),
            );
            let d = polynomial(denominator_values(a, values), s);
            s.product(x[i]) == combination(rows_value(a, values)[i], x, a.len()).sum(
                d.product(rows_value(b, values)[i][input]),
            )
        }),
{
    let n = a.len();
    let v = rows_value(a, values);
    let u = Seq::new(n, |j: int| rows_value(b, values)[j][input]);
    let x = Seq::new(n, |j: int| polynomial(numerator_values(a, b, j, input, values), s));
    assert forall|j: int| 0 <= j < n implies #[trigger] numerator_values(a, b, j, input, values)
        == numerator(v, u, j, n) by {
        lemma_numerator_values(a, b, j, input, inputs, values);
    }
    assert forall|j: int, k: nat| 0 <= j < n && 1 <= k <= n implies value(
        numerator_entry(#[trigger] adjugate_term(a, k)[j], b, input, n),
        values,
    ) is Ok by {
        lemma_numerator_values(a, b, j, input, inputs, values);
    }
    assert(denominator_values(a, values) =~= denominator(v, n + 1)) by {
        assert forall|k: int| 0 <= k < n + 1 implies denominator_values(a, values)[k]
            == denominator(v, n + 1)[k] by {
            lemma_faddeev(a, values, k as nat);
        }
    }
    lemma_numerators(v, u, s, i, n);
    let longer = numerator(v, u, i, n + 1);
    assert(longer.drop_last() =~= numerator(v, u, i, n));
    assert(longer.last() == moved(v, u, (n + 1) as int, i));
    lemma_moved_ends(v, u, i);
    assert(numerator_values(a, b, i, input, values) == numerator(v, u, i, n));
    lemma_sum_zero(x[i].product(s));
    lemma_product_commutes(x[i], s);
    let f = |j: int| v[i][j].product(polynomial(numerator(v, u, j, n), s));
    let g = |j: int| v[i][j].product(x[j]);
    assert forall|j: int| 0 <= j < n implies #[trigger] f(j) == g(j) by {
        assert(numerator_values(a, b, j, input, values) == numerator(v, u, j, n));
    }
    lemma_total_congruent(f, g, n);
    lemma_combination_is_total(v[i], x, n);
}

proof fn lemma_combination_is_total<S: Scalar>(row: Seq<S>, x: Seq<S>, n: nat)
    ensures
        combination(row, x, n) == total(|j: int| row[j].product(x[j]), n),
    decreases n,
{
    if n > 0 {
        lemma_combination_is_total(row, x, (n - 1) as nat);
    }
}

proof fn lemma_numerator_values<S: Scalar>(
    a: Seq<Seq<Expr<S>>>,
    b: Seq<Seq<Expr<S>>>,
    output: int,
    input: int,
    inputs: nat,
    values: Map<Seq<char>, S>,
)
    requires
        exact::<S>(),
        counts_to::<S>(a.len()),
        of_width(a, a.len()),
        rows_valued(a, values),
        b.len() == a.len(),
        of_width(b, inputs),
        rows_valued(b, values),
        0 <= input < inputs,
        0 <= output < a.len(),
    ensures
        forall|k: nat|
            1 <= k <= a.len() ==> value(
                numerator_entry((#[trigger] adjugate_term(a, k))[output], b, input, a.len()),
                values,
            ) is Ok,
        numerator_values(a, b, output, input, values) == numerator(
            rows_value(a, values),
            Seq::new(a.len(), |j: int| rows_value(b, values)[j][input]),
            output,
            a.len(),
        ),
{
    let n = a.len();
    let v = rows_value(a, values);
    let u = Seq::new(n, |j: int| rows_value(b, values)[j][input]);
    let left = numerator_values(a, b, output, input, values);
    let right = numerator(v, u, output, n);
    assert forall|t: nat| 1 <= t <= n implies value(
        numerator_entry((#[trigger] adjugate_term(a, t))[output], b, input, n),
        values,
    ) == Ok::<S, Failure<S>>(moved(v, u, t as int, output)) by {
        lemma_faddeev(a, values, t);
        let m = adjugate_term(a, t);
        let row = m[output];
        assert(row.len() == n);
        assert forall|j: int| 0 <= j < n implies value(#[trigger] row[j], values) is Ok by {
            assert(value(m[output][j], values) is Ok);
        }
        assert forall|l: int| 0 <= l < n implies 0 <= input < (#[trigger] b[l]).len() && value(
            b[l][input],
            values,
        ) is Ok by {
            assert(b[l].len() == inputs);
            assert(value(b[l][input], values) is Ok);
        }
        lemma_dot_value(row, b, input, n, values);
        lemma_dot_is_total(row_values(row, values), rows_value(b, values), input, n);
        let f = |l: int| row_values(row, values)[l].product(rows_value(b, values)[l][input]);
        let g = |l: int| adjugate_coefficient(v, t as int, output, l).product(u[l]);
        assert forall|l: int| 0 <= l < n implies #[trigger] f(l) == g(l) by {
            assert(value(m[output][l], values) == Ok::<S, Failure<S>>(
                adjugate_coefficient(v, t as int, output, l),
            ));
        }
        lemma_total_congruent(f, g, n);
    }
    assert forall|k: int| 0 <= k < n implies left[k] == right[k] by {
        let m = adjugate_term(a, (k + 1) as nat);
        assert(value(numerator_entry(m[output], b, input, n), values) == Ok::<S, Failure<S>>(
            moved(v, u, k + 1, output),
        ));
    }
    assert(left =~= right);
}

} // verus!
