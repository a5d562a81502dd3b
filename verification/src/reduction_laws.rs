//! The explicit form of a descriptor system has the solutions of the descriptor system, apart
//! from rounding.

use crate::elimination_laws::{law_solution_solves, solves, tolerates_zero};
use crate::field::{
    applied_to, column_of, combination, exact, lemma_combination_added,
    lemma_combination_associates, lemma_combination_commutes, lemma_combination_congruent,
    lemma_combination_negated, lemma_combination_zero, lemma_difference, lemma_exchange,
    lemma_negation, lemma_negation_of_sum, lemma_negation_twice, lemma_sum_associates,
    lemma_sum_cancels, lemma_sum_commutes, lemma_sum_zero,
};
use crate::matrix::of_width;
use crate::numeric::{
    dot, is_dynamic, matrix_difference, matrix_negation, matrix_product, picked, picked_rows,
    reduction, rows_that_are, schur_complement, solution,
};
use crate::scalar::Scalar;
use vstd::prelude::*;

verus! {

// Rearranging sums

proof fn lemma_move_over<S: Scalar>(p: S, q: S, t: S)
    requires
        exact::<S>(),
    ensures
        p.sum(q) == t <==> q == t.difference(p),
{
    lemma_difference(t, p);
    let n = p.negation();
    lemma_sum_commutes(p, q);
    lemma_sum_associates(q, p, n);
    lemma_negation(p);
    lemma_sum_zero(q);
    lemma_sum_associates(t, n, p);
    lemma_sum_zero(t);
}

proof fn lemma_difference_cancels<S: Scalar>(x: S, d: S)
    requires
        exact::<S>(),
        x.sum(d) == x,
    ensures
        d == S::nought(),
{
    lemma_sum_zero(x);
    lemma_sum_cancels(x, d, S::nought());
}

proof fn lemma_zero_difference<S: Scalar>(v: S, w: S)
    requires
        exact::<S>(),
        v.sum(w.negation()) == S::nought(),
    ensures
        v == w,
{
    lemma_sum_associates(v, w.negation(), w);
    lemma_negation(w);
    lemma_sum_zero(v);
    lemma_sum_zero(w);
}

// Uniqueness

/// Each column of a matrix solves a linear system for the same column of the right-hand side,
/// and nothing else does.
pub open spec fn is_solution<S: Scalar>(
    m: Seq<Seq<S>>,
    rhs: Seq<Seq<S>>,
    cols: nat,
    x: Seq<Seq<S>>,
) -> bool {
    &&& x.len() == m.len()
    &&& of_width(x, cols)
    &&& forall|c: int, v: Seq<S>|
        0 <= c < cols && v.len() == m.len() ==> (#[trigger] solves(m, v, column_of(rhs, c))
            <==> v == column_of(x, c))
}

/// A system that is solved for some right-hand side has at most one solution for every
/// right-hand side.
proof fn lemma_unique<S: Scalar>(
    m: Seq<Seq<S>>,
    rhs: Seq<Seq<S>>,
    cols: nat,
    solved: Seq<Seq<S>>,
    v: Seq<S>,
    w: Seq<S>,
    right: Seq<S>,
)
    requires
        exact::<S>(),
        is_solution(m, rhs, cols, solved),
        rhs.len() == m.len(),
        0 < cols,
        v.len() == m.len(),
        w.len() == m.len(),
        solves(m, v, right),
        solves(m, w, right),
    ensures
        v == w,
{
    let n = m.len();
    let x = column_of(solved, 0);
    let gap = Seq::new(n, |k: int| v[k].sum(w[k].negation()));
    let y = Seq::new(n, |k: int| x[k].sum(gap[k]));
    let back = Seq::new(n, |k: int| w[k].negation());
    assert(solves(m, x, column_of(rhs, 0)));
    assert forall|i: int| 0 <= i < n implies combination(#[trigger] m[i], y, n) == column_of(
        rhs,
        0,
    )[i] by {
        let row = m[i];
        lemma_combination_commutes(row, v, n);
        lemma_combination_commutes(row, w, n);
        lemma_combination_commutes(row, x, n);
        lemma_combination_commutes(row, y, n);
        lemma_combination_negated(w, back, row, n);
        lemma_combination_added(v, back, gap, row, n);
        lemma_combination_added(x, gap, y, row, n);
        assert(combination(row, v, n) == right[i]);
        assert(combination(row, w, n) == right[i]);
        lemma_negation(right[i]);
        lemma_sum_zero(combination(row, x, n));
        assert(combination(row, x, n) == column_of(rhs, 0)[i]);
    }
    assert(solves(m, y, column_of(rhs, 0)));
    assert(y == x);
    assert forall|k: int| 0 <= k < n implies #[trigger] v[k] == w[k] by {
        assert(y[k] == x[k]);
        lemma_difference_cancels(x[k], gap[k]);
        lemma_zero_difference(v[k], w[k]);
    }
    assert(v =~= w);
}

proof fn lemma_step_shape<S: Scalar>(m: Seq<Seq<S>>, tolerance: S, col: int, width: nat)
    requires
        0 <= col <= m.len(),
        of_width(m, width),
    ensures
        crate::numeric::reduced_from(m, tolerance, col) matches Ok(r) ==> r.len() == m.len()
            && of_width(r, width),
    decreases m.len() - col,
{
    if col < m.len() {
        let at = crate::numeric::largest_row(m, col, col, col + 1);
        lemma_largest_in_range(m, col, col, col + 1);
        crate::symbolic::lemma_exchanged(m, col, at);
        let out = crate::numeric::elimination_step(m, col, at);
        assert forall|i: int| 0 <= i < out.len() implies (#[trigger] out[i]).len() == width by {
            assert(m[at].len() == width);
            assert(m[col].len() == width);
            assert(m[i].len() == width);
        }
        lemma_step_shape(out, tolerance, col + 1, width);
    }
}

proof fn lemma_largest_in_range<S: Scalar>(m: Seq<Seq<S>>, col: int, best: int, from: int)
    requires
        0 <= best < m.len(),
        0 <= from,
    ensures
        0 <= crate::numeric::largest_row(m, col, best, from) < m.len(),
    decreases m.len() - from,
{
    if from < m.len() {
        lemma_largest_in_range(m, col, best, from + 1);
        lemma_largest_in_range(m, col, from, from + 1);
    }
}

pub proof fn lemma_solution_shape<S: Scalar>(
    m: Seq<Seq<S>>,
    rhs: Seq<Seq<S>>,
    cols: nat,
    tolerance: S,
)
    requires
        rhs.len() == m.len(),
        of_width(m, m.len()),
        of_width(rhs, cols),
    ensures
        solution(m, rhs, tolerance) matches Ok(x) ==> x.len() == m.len() && of_width(x, cols),
{
    let all = crate::symbolic::beside(m, rhs);
    let width = m.len() + cols;
    assert forall|i: int| 0 <= i < all.len() implies (#[trigger] all[i]).len() == width by {
        assert(m[i].len() == m.len());
        assert(rhs[i].len() == cols);
    }
    lemma_step_shape(all, tolerance, 0, width);
    if let Ok(r) = crate::numeric::reduced_from(all, tolerance, 0) {
        let x = crate::symbolic::columns_from(r, m.len() as int);
        assert forall|i: int| 0 <= i < x.len() implies (#[trigger] x[i]).len() == cols by {
            assert(r[i].len() == width);
        }
    }
}

/// What the elimination returns is the solution.
pub proof fn lemma_is_solution<S: Scalar>(
    m: Seq<Seq<S>>,
    rhs: Seq<Seq<S>>,
    cols: nat,
    tolerance: S,
)
    requires
        exact::<S>(),
        tolerates_zero(tolerance),
        rhs.len() == m.len(),
        of_width(m, m.len()),
        of_width(rhs, cols),
    ensures
        solution(m, rhs, tolerance) matches Ok(x) ==> is_solution(m, rhs, cols, x),
{
    lemma_solution_shape(m, rhs, cols, tolerance);
    if let Ok(x) = solution(m, rhs, tolerance) {
        assert forall|c: int, v: Seq<S>| 0 <= c < cols && v.len() == m.len() implies (
        #[trigger] solves(m, v, column_of(rhs, c)) <==> v == column_of(x, c)) by {
            law_solution_solves(m, rhs, cols, tolerance, c, v);
        }
    }
}

/// Combining a row of coefficients with a solution that is itself combined with some values
/// gives the right-hand side combined with the values.
proof fn lemma_through<S: Scalar>(
    m: Seq<Seq<S>>,
    rhs: Seq<Seq<S>>,
    cols: nat,
    x: Seq<Seq<S>>,
    values: Seq<S>,
    i: int,
)
    requires
        exact::<S>(),
        is_solution(m, rhs, cols, x),
        rhs.len() == m.len(),
        of_width(rhs, cols),
        0 <= i < m.len(),
    ensures
        combination(m[i], applied_to(x, values, cols), m.len()) == combination(
            rhs[i],
            values,
            cols,
        ),
{
    let n = m.len();
    assert(rhs[i].len() == cols);
    assert forall|j: int| 0 <= j < cols implies #[trigger] rhs[i][j] == combination(
        m[i],
        column_of(x, j),
        x.len(),
    ) by {
        let v = column_of(x, j);
        assert(solves(m, v, column_of(rhs, j)));
        assert(combination(m[i], v, n) == column_of(rhs, j)[i]);
    }
    lemma_combination_associates(m[i], x, rhs[i], values, cols);
}

// Parts of a row

/// The chosen entries of a list.
pub open spec fn chosen<S>(v: Seq<S>, indices: Seq<usize>) -> Seq<S> {
    Seq::new(indices.len(), |i: int| v[indices[i] as int])
}

/// The indices below `n` that are marked, or that are not.
pub open spec fn indices(mask: Seq<bool>, marked: bool, n: nat) -> Seq<usize>
    decreases n,
{
    if n == 0 {
        Seq::empty()
    } else {
        let before = indices(mask, marked, (n - 1) as nat);
        if mask[n - 1] == marked {
            before.push((n - 1) as usize)
        } else {
            before
        }
    }
}

pub proof fn lemma_indices(mask: Seq<bool>, marked: bool, n: nat)
    requires
        n <= usize::MAX,
    ensures
        forall|i: int|
            0 <= i < indices(mask, marked, n).len() ==> {
                let row = #[trigger] indices(mask, marked, n)[i];
                row < n && mask[row as int] == marked
            },
    decreases n,
{
    let rows = indices(mask, marked, n);
    if n > 0 {
        let before = indices(mask, marked, (n - 1) as nat);
        lemma_indices(mask, marked, (n - 1) as nat);
        assert forall|i: int| 0 <= i < rows.len() implies {
            let row = #[trigger] rows[i];
            row < n && mask[row as int] == marked
        } by {
            if i < before.len() {
                assert(rows[i] == before[i]);
            } else {
                assert(rows[i] == n - 1);
            }
        }
    }
}

pub proof fn lemma_row_is_listed(mask: Seq<bool>, marked: bool, n: nat, row: int) -> (at: int)
    requires
        n <= usize::MAX,
        0 <= row < n,
        mask[row] == marked,
    ensures
        0 <= at < indices(mask, marked, n).len(),
        indices(mask, marked, n)[at] == row,
    decreases n,
{
    if row == n - 1 {
        indices(mask, marked, (n - 1) as nat).len() as int
    } else {
        lemma_row_is_listed(mask, marked, (n - 1) as nat, row)
    }
}

/// A combination splits into that of the dynamic and that of the other entries.
proof fn lemma_split<S: Scalar>(mask: Seq<bool>, row: Seq<S>, v: Seq<S>, n: nat)
    requires
        exact::<S>(),
        n <= usize::MAX,
    ensures
        ({
            let d = indices(mask, true, n);
            let l = indices(mask, false, n);
            combination(row, v, n) == combination(chosen(row, d), chosen(v, d), d.len()).sum(
                combination(chosen(row, l), chosen(v, l), l.len()),
            )
        }),
    decreases n,
{
    let d = indices(mask, true, n);
    let l = indices(mask, false, n);
    if n == 0 {
        lemma_sum_zero(S::nought());
    } else {
        let less = (n - 1) as nat;
        lemma_split(mask, row, v, less);
        let d0 = indices(mask, true, less);
        let l0 = indices(mask, false, less);
        let p = combination(chosen(row, d0), chosen(v, d0), d0.len());
        let q = combination(chosen(row, l0), chosen(v, l0), l0.len());
        let t = row[n - 1].product(v[n - 1]);
        lemma_combination_congruent(
            chosen(row, d),
            chosen(v, d),
            chosen(row, d0),
            chosen(v, d0),
            d0.len(),
        );
        lemma_combination_congruent(
            chosen(row, l),
            chosen(v, l),
            chosen(row, l0),
            chosen(v, l0),
            l0.len(),
        );
        if mask[n - 1] {
            lemma_sum_associates(p, q, t);
            lemma_sum_commutes(q, t);
            lemma_sum_associates(p, t, q);
        } else {
            lemma_sum_associates(p, q, t);
        }
    }
}

proof fn lemma_dot<S: Scalar>(row: Seq<S>, m: Seq<Seq<S>>, col: int, n: nat)
    requires
        n <= m.len(),
    ensures
        dot(row, m, col, n) == combination(row, column_of(m, col), n),
    decreases n,
{
    if n > 0 {
        lemma_dot(row, m, col, (n - 1) as nat);
    }
}

// The equation in its two forms

/// The values of unknowns, their derivatives and inputs satisfy one row of the descriptor
/// equation `A*x + K*dx = B*u`.
pub open spec fn row_holds<S: Scalar>(
    a: Seq<Seq<S>>,
    k: Seq<Seq<S>>,
    b: Seq<Seq<S>>,
    x: Seq<S>,
    dx: Seq<S>,
    u: Seq<S>,
    row: int,
) -> bool {
    combination(a[row], x, x.len()).sum(combination(k[row], dx, dx.len())) == combination(
        b[row],
        u,
        u.len(),
    )
}

/// The values satisfy the descriptor equation.
pub open spec fn describes<S: Scalar>(
    a: Seq<Seq<S>>,
    k: Seq<Seq<S>>,
    b: Seq<Seq<S>>,
    x: Seq<S>,
    dx: Seq<S>,
    u: Seq<S>,
) -> bool {
    forall|row: int| 0 <= row < a.len() ==> #[trigger] row_holds(a, k, b, x, dx, u, row)
}

/// The values satisfy the rows of the descriptor equation that are not marked.
pub open spec fn constraints_hold<S: Scalar>(
    a: Seq<Seq<S>>,
    k: Seq<Seq<S>>,
    b: Seq<Seq<S>>,
    x: Seq<S>,
    dx: Seq<S>,
    u: Seq<S>,
    mask: Seq<bool>,
) -> bool {
    forall|row: int|
        0 <= row < a.len() && !mask[row] ==> #[trigger] row_holds(a, k, b, x, dx, u, row)
}

/// All storage is between marked unknowns: the rows and the columns that are not marked are
/// empty.
pub open spec fn storage_is_marked<S: Scalar>(k: Seq<Seq<S>>, mask: Seq<bool>) -> bool {
    forall|i: int, j: int|
        0 <= i < k.len() && 0 <= j < k.len() && !mask[i] ==> #[trigger] k[i][j] == S::nought()
            && k[j][i] == S::nought()
}

/// The derivatives of the dynamic unknowns are those of the explicit form `A*x + B*u`.
pub open spec fn evolves<S: Scalar>(
    state_a: Seq<Seq<S>>,
    state_b: Seq<Seq<S>>,
    x: Seq<S>,
    dx: Seq<S>,
    u: Seq<S>,
    dynamic: Seq<usize>,
) -> bool {
    forall|i: int|
        0 <= i < dynamic.len() ==> #[trigger] chosen(dx, dynamic)[i] == combination(
            state_a[i],
            chosen(x, dynamic),
            dynamic.len(),
        ).sum(combination(state_b[i], u, u.len()))
}

/// The dimensions of a descriptor system and of the values agree.
pub open spec fn fits_together<S>(
    a: Seq<Seq<S>>,
    k: Seq<Seq<S>>,
    b: Seq<Seq<S>>,
    x: Seq<S>,
    dx: Seq<S>,
    u: Seq<S>,
) -> bool {
    let order = a.len();
    &&& order <= usize::MAX
    &&& k.len() == order && b.len() == order
    &&& x.len() == order && dx.len() == order
    &&& of_width(a, order) && of_width(k, order) && of_width(b, u.len())
}

/// A row without storage is an equation between the dynamic and the other unknowns.
proof fn lemma_algebraic_row<S: Scalar>(
    a: Seq<Seq<S>>,
    k: Seq<Seq<S>>,
    b: Seq<Seq<S>>,
    x: Seq<S>,
    dx: Seq<S>,
    u: Seq<S>,
    mask: Seq<bool>,
    row: int,
)
    requires
        exact::<S>(),
        fits_together(a, k, b, x, dx, u),
        storage_is_marked(k, mask),
        0 <= row < a.len(),
        !mask[row],
    ensures
        ({
            let d = indices(mask, true, a.len());
            let l = indices(mask, false, a.len());
            row_holds(a, k, b, x, dx, u, row) <==> combination(
                chosen(a[row], l),
                chosen(x, l),
                l.len(),
            ) == combination(b[row], u, u.len()).difference(
                combination(chosen(a[row], d), chosen(x, d), d.len()),
            )
        }),
{
    let order = a.len();
    let d = indices(mask, true, order);
    let l = indices(mask, false, order);
    assert forall|j: int| 0 <= j < order implies #[trigger] k[row][j] == S::nought() by {}
    lemma_combination_zero(k[row], dx, order);
    lemma_sum_zero(combination(a[row], x, order));
    lemma_split(mask, a[row], x, order);
    lemma_move_over(
        combination(chosen(a[row], d), chosen(x, d), d.len()),
        combination(chosen(a[row], l), chosen(x, l), l.len()),
        combination(b[row], u, u.len()),
    );
}

/// A row is an equation for the derivatives of the dynamic unknowns.
proof fn lemma_dynamic_row<S: Scalar>(
    a: Seq<Seq<S>>,
    k: Seq<Seq<S>>,
    b: Seq<Seq<S>>,
    x: Seq<S>,
    dx: Seq<S>,
    u: Seq<S>,
    mask: Seq<bool>,
    row: int,
)
    requires
        exact::<S>(),
        fits_together(a, k, b, x, dx, u),
        storage_is_marked(k, mask),
        0 <= row < a.len(),
    ensures
        ({
            let d = indices(mask, true, a.len());
            let l = indices(mask, false, a.len());
            row_holds(a, k, b, x, dx, u, row) <==> combination(
                chosen(k[row], d),
                chosen(dx, d),
                d.len(),
            ) == combination(b[row], u, u.len()).difference(
                combination(chosen(a[row], d), chosen(x, d), d.len()).sum(
                    combination(chosen(a[row], l), chosen(x, l), l.len()),
                ),
            )
        }),
{
    let order = a.len();
    let d = indices(mask, true, order);
    let l = indices(mask, false, order);
    lemma_indices(mask, false, order);
    lemma_split(mask, k[row], dx, order);
    lemma_split(mask, a[row], x, order);
    let stored = chosen(k[row], l);
    assert forall|j: int| 0 <= j < l.len() implies #[trigger] stored[j] == S::nought() by {
        let c = l[j] as int;
        assert(!mask[c]);
        assert(k[c][row] == S::nought() && k[row][c] == S::nought());
    }
    lemma_combination_zero(stored, chosen(dx, l), l.len());
    lemma_sum_zero(combination(chosen(k[row], d), chosen(dx, d), d.len()));
    lemma_move_over(
        combination(a[row], x, order),
        combination(chosen(k[row], d), chosen(dx, d), d.len()),
        combination(b[row], u, u.len()),
    );
}

/// `(b - q) - (a - p) == b - (a + (q - p))`.
proof fn lemma_regroup<S: Scalar>(b: S, q: S, a: S, p: S)
    requires
        exact::<S>(),
    ensures
        b.difference(q).difference(a.difference(p)) == b.difference(a.sum(q.difference(p))),
{
    lemma_difference(b, q);
    lemma_difference(a, p);
    lemma_difference(q, p);
    lemma_difference(b.difference(q), a.difference(p));
    lemma_difference(b, a.sum(q.difference(p)));
    let (nq, na, np) = (q.negation(), a.negation(), p.negation());
    lemma_negation_of_sum(a, np);
    lemma_negation_of_sum(a, q.sum(np));
    lemma_negation_of_sum(q, np);
    lemma_negation_twice(p);
    lemma_exchange(b, nq, na, p);
    lemma_sum_associates(b, na, nq.sum(p));
}

/// The combination of a difference of rows.
proof fn lemma_combination_subtracted<S: Scalar>(
    first: Seq<S>,
    second: Seq<S>,
    result: Seq<S>,
    v: Seq<S>,
    n: nat,
)
    requires
        exact::<S>(),
        forall|j: int| 0 <= j < n ==> #[trigger] result[j] == first[j].difference(second[j]),
    ensures
        combination(result, v, n) == combination(first, v, n).difference(
            combination(second, v, n),
        ),
{
    let back = Seq::new(n, |j: int| second[j].negation());
    assert forall|j: int| 0 <= j < n implies #[trigger] result[j] == first[j].sum(back[j]) by {
        lemma_difference(first[j], second[j]);
    }
    lemma_combination_negated(second, back, v, n);
    lemma_combination_added(first, back, result, v, n);
    lemma_difference(combination(first, v, n), combination(second, v, n));
}

/// Matrices with which the unknowns that are not dynamic are eliminated: the solutions for the
/// dynamic unknowns and for the inputs, and what is left of the system.
pub struct Elimination<S> {
    pub solved_a: Seq<Seq<S>>,
    pub solved_b: Seq<Seq<S>>,
    pub a: Seq<Seq<S>>,
    pub b: Seq<Seq<S>>,
}

/// The elimination is that of a descriptor system.
pub open spec fn eliminates<S: Scalar>(
    e: Elimination<S>,
    a: Seq<Seq<S>>,
    b: Seq<Seq<S>>,
    cols: nat,
    mask: Seq<bool>,
) -> bool {
    let d = indices(mask, true, a.len());
    let l = indices(mask, false, a.len());
    if l.len() == 0 {
        e.a == picked(a, d, d) && e.b == picked_rows(b, d)
    } else {
        &&& is_solution(picked(a, l, l), picked(a, l, d), d.len(), e.solved_a)
        &&& is_solution(picked(a, l, l), picked_rows(b, l), cols, e.solved_b)
        &&& e.a == matrix_difference(
            picked(a, d, d),
            matrix_product(picked(a, d, l), e.solved_a, d.len()),
        )
        &&& e.b == matrix_difference(
            picked_rows(b, d),
            matrix_product(picked(a, d, l), e.solved_b, cols),
        )
    }
}

/// The unknowns that are not dynamic, as the rows without storage determine them.
proof fn lemma_algebraic_values<S: Scalar>(
    a: Seq<Seq<S>>,
    k: Seq<Seq<S>>,
    b: Seq<Seq<S>>,
    x: Seq<S>,
    dx: Seq<S>,
    u: Seq<S>,
    mask: Seq<bool>,
    e: Elimination<S>,
)
    requires
        exact::<S>(),
        fits_together(a, k, b, x, dx, u),
        storage_is_marked(k, mask),
        constraints_hold(a, k, b, x, dx, u, mask),
        indices(mask, true, a.len()).len() > 0,
        indices(mask, false, a.len()).len() > 0,
        eliminates(e, a, b, u.len(), mask),
    ensures
        ({
            let d = indices(mask, true, a.len());
            let l = indices(mask, false, a.len());
            forall|i: int|
                0 <= i < l.len() ==> #[trigger] chosen(x, l)[i] == combination(
                    e.solved_b[i],
                    u,
                    u.len(),
                ).difference(combination(e.solved_a[i], chosen(x, d), d.len()))
        }),
{
    let order = a.len();
    let d = indices(mask, true, order);
    let l = indices(mask, false, order);
    lemma_indices(mask, true, order);
    lemma_indices(mask, false, order);
    let m = picked(a, l, l);
    let m_d = picked(a, l, d);
    let m_b = picked_rows(b, l);
    let n = l.len();
    assert forall|i: int| 0 <= i < n implies (#[trigger] m_b[i]).len() == u.len() by {
        let row = l[i] as int;
        assert(b[row].len() == u.len());
    }
    let p = e.solved_a;
    let q = e.solved_b;
    let xs = chosen(x, d);
    let xa = chosen(x, l);
    let pxs = applied_to(p, xs, d.len());
    let qu = applied_to(q, u, u.len());
    let w = Seq::new(n, |i: int| qu[i].difference(pxs[i]));
    let right = Seq::new(
        n,
        |i: int|
            combination(m_b[i], u, u.len()).difference(combination(m_d[i], xs, d.len())),
    );
    assert forall|i: int| 0 <= i < n implies combination(#[trigger] m[i], xa, n) == right[i] by {
        let row = l[i] as int;
        assert(!mask[row]);
        assert(row_holds(a, k, b, x, dx, u, row));
        lemma_algebraic_row(a, k, b, x, dx, u, mask, row);
        assert(m[i] =~= chosen(a[row], l));
        assert(m_d[i] =~= chosen(a[row], d));
    }
    assert forall|i: int| 0 <= i < n implies combination(#[trigger] m[i], w, n) == right[i] by {
        lemma_combination_commutes(m[i], w, n);
        lemma_combination_commutes(m[i], qu, n);
        lemma_combination_commutes(m[i], pxs, n);
        lemma_combination_subtracted(qu, pxs, w, m[i], n);
        lemma_through(m, m_d, d.len(), p, xs, i);
        lemma_through(m, m_b, u.len(), q, u, i);
    }
    lemma_unique(m, m_d, d.len(), p, xa, w, right);
    assert forall|i: int| 0 <= i < n implies #[trigger] chosen(x, l)[i] == combination(
        q[i],
        u,
        u.len(),
    ).difference(combination(p[i], xs, d.len())) by {
        assert(xa[i] == w[i]);
    }
}

/// Where the rows without storage hold, what is left of the system says of the dynamic
/// unknowns what the full one says.
proof fn lemma_schur<S: Scalar>(
    a: Seq<Seq<S>>,
    k: Seq<Seq<S>>,
    b: Seq<Seq<S>>,
    x: Seq<S>,
    dx: Seq<S>,
    u: Seq<S>,
    mask: Seq<bool>,
    e: Elimination<S>,
    i: int,
)
    requires
        exact::<S>(),
        fits_together(a, k, b, x, dx, u),
        storage_is_marked(k, mask),
        constraints_hold(a, k, b, x, dx, u, mask),
        0 <= i < indices(mask, true, a.len()).len(),
        eliminates(e, a, b, u.len(), mask),
    ensures
        ({
            let d = indices(mask, true, a.len());
            let l = indices(mask, false, a.len());
            let row = d[i] as int;
            &&& e.a.len() == d.len() && e.a[i].len() == d.len()
            &&& e.b.len() == d.len() && e.b[i].len() == u.len()
            &&& combination(e.b[i], u, u.len()).difference(
                combination(e.a[i], chosen(x, d), d.len()),
            ) == combination(b[row], u, u.len()).difference(
                combination(chosen(a[row], d), chosen(x, d), d.len()).sum(
                    combination(chosen(a[row], l), chosen(x, l), l.len()),
                ),
            )
        }),
{
    let order = a.len();
    let cols = u.len();
    let d = indices(mask, true, order);
    let l = indices(mask, false, order);
    lemma_indices(mask, true, order);
    lemma_indices(mask, false, order);
    let row = d[i] as int;
    let xs = chosen(x, d);
    let xa = chosen(x, l);
    let a_ss = picked(a, d, d);
    let b_s = picked_rows(b, d);
    let own = combination(chosen(a[row], d), xs, d.len());
    assert(a_ss[i] =~= chosen(a[row], d));
    assert(b_s[i] == b[row]);
    assert(b[row].len() == cols);
    if l.len() == 0 {
        lemma_sum_zero(own);
    } else {
        let a_sa = picked(a, d, l);
        let p = e.solved_a;
        let q = e.solved_b;
        lemma_algebraic_values(a, k, b, x, dx, u, mask, e);
        let r = a_sa[i];
        assert(r =~= chosen(a[row], l));
        let through_p = matrix_product(a_sa, p, d.len())[i];
        let through_q = matrix_product(a_sa, q, cols)[i];
        assert forall|j: int| 0 <= j < d.len() implies #[trigger] through_p[j] == combination(
            r,
            column_of(p, j),
            p.len(),
        ) by {
            lemma_dot(r, p, j, p.len());
        }
        assert forall|j: int| 0 <= j < cols implies #[trigger] through_q[j] == combination(
            r,
            column_of(q, j),
            q.len(),
        ) by {
            lemma_dot(r, q, j, q.len());
        }
        lemma_combination_associates(r, p, through_p, xs, d.len());
        lemma_combination_associates(r, q, through_q, u, cols);
        let pxs = applied_to(p, xs, d.len());
        let qu = applied_to(q, u, cols);
        assert forall|j: int| 0 <= j < l.len() implies #[trigger] xa[j] == qu[j].difference(
            pxs[j],
        ) by {
            assert(chosen(x, l)[j] == combination(q[j], u, cols).difference(
                combination(p[j], xs, d.len()),
            ));
        }
        lemma_combination_commutes(r, xa, l.len());
        lemma_combination_commutes(r, qu, l.len());
        lemma_combination_commutes(r, pxs, l.len());
        lemma_combination_subtracted(qu, pxs, xa, r, l.len());
        lemma_combination_subtracted(a_ss[i], through_p, e.a[i], xs, d.len());
        lemma_combination_subtracted(b_s[i], through_q, e.b[i], u, cols);
        lemma_regroup(
            combination(b_s[i], u, cols),
            combination(through_q, u, cols),
            combination(a_ss[i], xs, d.len()),
            combination(through_p, xs, d.len()),
        );
    }
}

/// Values that satisfy the rows without storage of a descriptor system `A*x + K*dx = B*u`
/// satisfy the whole system exactly when the dynamic unknowns evolve as an explicit form says
/// that is got by eliminating the other unknowns.
pub proof fn lemma_explicit_form<S: Scalar>(
    a: Seq<Seq<S>>,
    k: Seq<Seq<S>>,
    b: Seq<Seq<S>>,
    x: Seq<S>,
    dx: Seq<S>,
    u: Seq<S>,
    mask: Seq<bool>,
    e: Elimination<S>,
    state_a: Seq<Seq<S>>,
    state_b: Seq<Seq<S>>,
)
    requires
        exact::<S>(),
        fits_together(a, k, b, x, dx, u),
        storage_is_marked(k, mask),
        constraints_hold(a, k, b, x, dx, u, mask),
        eliminates(e, a, b, u.len(), mask),
        ({
            let d = indices(mask, true, a.len());
            &&& d.len() > 0
            &&& is_solution(picked(k, d, d), matrix_negation(e.a), d.len(), state_a)
            &&& is_solution(picked(k, d, d), e.b, u.len(), state_b)
        }),
    ensures
        describes(a, k, b, x, dx, u) <==> evolves(
            state_a,
            state_b,
            x,
            dx,
            u,
            indices(mask, true, a.len()),
        ),
{
    let order = a.len();
    let cols = u.len();
    let d = indices(mask, true, order);
    lemma_indices(mask, true, order);
    let n = d.len();
    let m = picked(k, d, d);
    let minus_a = matrix_negation(e.a);
    assert forall|i: int| 0 <= i < n implies (#[trigger] e.a[i]).len() == n && e.b[i].len()
        == cols by {
        lemma_schur(a, k, b, x, dx, u, mask, e, i);
    }
    lemma_schur(a, k, b, x, dx, u, mask, e, 0);
    assert forall|i: int| 0 <= i < minus_a.len() implies (#[trigger] minus_a[i]).len() == n by {
        assert(e.a[i].len() == n);
    }
    assert forall|i: int| 0 <= i < e.b.len() implies (#[trigger] e.b[i]).len() == cols by {
        assert(e.a[i].len() == n);
    }
    let xs = chosen(x, d);
    let ds = chosen(dx, d);
    let right = Seq::new(
        n,
        |i: int| combination(e.b[i], u, cols).difference(combination(e.a[i], xs, n)),
    );
    let from_a = applied_to(state_a, xs, n);
    let from_b = applied_to(state_b, u, cols);
    let f = Seq::new(n, |i: int| from_a[i].sum(from_b[i]));
    assert forall|i: int| 0 <= i < n implies combination(#[trigger] m[i], f, n) == right[i] by {
        assert(e.a[i].len() == n);
        lemma_combination_commutes(m[i], f, n);
        lemma_combination_commutes(m[i], from_a, n);
        lemma_combination_commutes(m[i], from_b, n);
        lemma_combination_added(from_a, from_b, f, m[i], n);
        lemma_through(m, minus_a, n, state_a, xs, i);
        lemma_through(m, e.b, cols, state_b, u, i);
        lemma_combination_negated(e.a[i], minus_a[i], xs, n);
        let (own, driven) = (combination(e.a[i], xs, n), combination(e.b[i], u, cols));
        lemma_difference(driven, own);
        lemma_sum_commutes(own.negation(), driven);
    }
    assert forall|i: int| 0 <= i < n implies (row_holds(
        a,
        k,
        b,
        x,
        dx,
        u,
        #[trigger] d[i] as int,
    ) <==> combination(m[i], ds, n) == right[i]) by {
        let row = d[i] as int;
        lemma_dynamic_row(a, k, b, x, dx, u, mask, row);
        lemma_schur(a, k, b, x, dx, u, mask, e, i);
        assert(m[i] =~= chosen(k[row], d));
    }
    if describes(a, k, b, x, dx, u) {
        assert forall|i: int| 0 <= i < n implies combination(#[trigger] m[i], ds, n)
            == right[i] by {
            let row = d[i] as int;
            assert(row_holds(a, k, b, x, dx, u, row));
        }
        lemma_unique(m, minus_a, n, state_a, ds, f, right);
        assert forall|i: int| 0 <= i < d.len() implies #[trigger] chosen(dx, d)[i]
            == combination(state_a[i], chosen(x, d), d.len()).sum(
            combination(state_b[i], u, u.len()),
        ) by {
            assert(ds[i] == f[i]);
        }
    }
    if evolves(state_a, state_b, x, dx, u, d) {
        assert forall|i: int| 0 <= i < n implies #[trigger] ds[i] == f[i] by {
            assert(chosen(dx, d)[i] == combination(state_a[i], chosen(x, d), d.len()).sum(
                combination(state_b[i], u, u.len()),
            ));
        }
        assert(ds =~= f);
        assert forall|row: int| 0 <= row < a.len() implies #[trigger] row_holds(
            a,
            k,
            b,
            x,
            dx,
            u,
            row,
        ) by {
            if mask[row] {
                let i = lemma_row_is_listed(mask, true, order, row);
                assert(d[i] == row);
                assert(combination(m[i], f, n) == right[i]);
            }
        }
    }
}

// Reduction of numeric systems

/// Which rows of a storage matrix hold more than the tolerance.
pub open spec fn dynamic_rows<S: Scalar>(k: Seq<Seq<S>>, tolerance: S) -> Seq<bool> {
    Seq::new(k.len(), |i: int| is_dynamic(k[i], tolerance))
}

pub proof fn lemma_rows_that_are<S: Scalar>(dynamic: bool, k: Seq<Seq<S>>, tolerance: S, n: nat)
    requires
        n <= k.len(),
    ensures
        rows_that_are(dynamic, k, tolerance, n) == indices(
            dynamic_rows(k, tolerance),
            dynamic,
            n,
        ),
    decreases n,
{
    if n > 0 {
        lemma_rows_that_are(dynamic, k, tolerance, (n - 1) as nat);
    }
}

/// Where a descriptor system `A*x + K*dx = B*u` has an explicit form, values that satisfy its
/// rows without storage satisfy the whole system exactly when the dynamic unknowns evolve as
/// the explicit form says. What lies within the tolerance in the storage matrix is neglected,
/// so it has to be nothing.
pub proof fn law_reduction_keeps_solutions<S: Scalar>(
    a: Seq<Seq<S>>,
    k: Seq<Seq<S>>,
    b: Seq<Seq<S>>,
    unknowns: Seq<Seq<char>>,
    tolerance: S,
    x: Seq<S>,
    dx: Seq<S>,
    u: Seq<S>,
)
    requires
        exact::<S>(),
        tolerates_zero(tolerance),
        fits_together(a, k, b, x, dx, u),
        unknowns.len() == a.len(),
        storage_is_marked(k, dynamic_rows(k, tolerance)),
        constraints_hold(a, k, b, x, dx, u, dynamic_rows(k, tolerance)),
    ensures
        reduction(a, k, b, u.len(), unknowns, tolerance) matches Ok((state_a, state_b, dynamic))
            ==> (describes(a, k, b, x, dx, u) <==> evolves(state_a, state_b, x, dx, u, dynamic)),
{
    let order = a.len();
    let cols = u.len();
    let mask = dynamic_rows(k, tolerance);
    lemma_rows_that_are(true, k, tolerance, order);
    lemma_rows_that_are(false, k, tolerance, order);
    let d = indices(mask, true, order);
    let l = indices(mask, false, order);
    lemma_indices(mask, true, order);
    lemma_indices(mask, false, order);
    if let Ok((state_a, state_b, dynamic)) = reduction(a, k, b, cols, unknowns, tolerance) {
        let (a_reduced, b_reduced) = schur_complement(a, b, cols, d, l, tolerance)->Ok_0;
        let m_b = picked_rows(b, l);
        assert forall|i: int| 0 <= i < m_b.len() implies (#[trigger] m_b[i]).len() == cols by {
            let row = l[i] as int;
            assert(b[row].len() == cols);
        }
        let e = Elimination {
            solved_a: solution(picked(a, l, l), picked(a, l, d), tolerance)->Ok_0,
            solved_b: solution(picked(a, l, l), m_b, tolerance)->Ok_0,
            a: a_reduced,
            b: b_reduced,
        };
        if l.len() > 0 {
            lemma_is_solution(picked(a, l, l), picked(a, l, d), d.len(), tolerance);
            lemma_is_solution(picked(a, l, l), m_b, cols, tolerance);
        }
        assert(eliminates(e, a, b, cols, mask));
        assert forall|i: int| 0 <= i < d.len() implies (#[trigger] a_reduced[i]).len() == d.len()
            && b_reduced[i].len() == cols by {
            lemma_schur(a, k, b, x, dx, u, mask, e, i);
        }
        lemma_schur(a, k, b, x, dx, u, mask, e, 0);
        let minus_a = matrix_negation(a_reduced);
        assert forall|i: int| 0 <= i < minus_a.len() implies (#[trigger] minus_a[i]).len()
            == d.len() by {
            assert(a_reduced[i].len() == d.len());
        }
        assert forall|i: int| 0 <= i < b_reduced.len() implies (#[trigger] b_reduced[i]).len()
            == cols by {
            assert(a_reduced[i].len() == d.len());
        }
        lemma_is_solution(picked(k, d, d), minus_a, d.len(), tolerance);
        lemma_is_solution(picked(k, d, d), b_reduced, cols, tolerance);
        lemma_explicit_form(a, k, b, x, dx, u, mask, e, state_a, state_b);
    }
}

} // verus!
