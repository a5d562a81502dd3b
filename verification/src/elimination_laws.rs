//! Gauss-Jordan elimination solves linear systems, apart from rounding.

use crate::field::{
    column_of, combination, exact, lemma_combination_added, lemma_combination_congruent,
    lemma_combination_scaled, lemma_combination_unit, lemma_difference, lemma_inverse,
    lemma_negation, lemma_negation_of_product, lemma_product_commutes, lemma_product_one,
    lemma_product_zero, lemma_sum_commutes, lemma_sum_zero,
};
use crate::matrix::of_width;
use crate::numeric::{
    eliminated, elimination_step, largest_row, normalized, reduced_from, solution,
};
use crate::scalar::{at_most, Scalar};
use crate::symbolic::{beside, columns_from, exchanged, lemma_exchanged};
use vstd::prelude::*;

verus! {

/// A tolerance up to which a pivot counts as zero: zero itself does.
pub open spec fn tolerates_zero<S: Scalar>(tolerance: S) -> bool {
    at_most(S::nought().magnitude(), tolerance)
}

/// The values satisfy the equation of an augmented row: the combination of its first `n`
/// entries with the values is its entry `at`.
pub open spec fn satisfies<S: Scalar>(row: Seq<S>, v: Seq<S>, n: nat, at: int) -> bool {
    combination(row, v, n) == row[at]
}

/// The values satisfy the equations of all rows.
pub open spec fn satisfies_all<S: Scalar>(m: Seq<Seq<S>>, v: Seq<S>, n: nat, at: int) -> bool {
    forall|i: int| 0 <= i < m.len() ==> satisfies(#[trigger] m[i], v, n, at)
}

/// The first columns are those of the unit matrix.
pub open spec fn cleared<S: Scalar>(m: Seq<Seq<S>>, col: int) -> bool {
    forall|i: int, j: int|
        0 <= i < m.len() && 0 <= j < col ==> #[trigger] m[i][j] == (if i == j {
            S::unit()
        } else {
            S::nought()
        })
}

proof fn lemma_largest_row<S: Scalar>(m: Seq<Seq<S>>, col: int, best: int, from: int)
    requires
        0 <= best < m.len(),
        best < from,
        col <= best,
    ensures
        col <= largest_row(m, col, best, from) < m.len(),
    decreases m.len() - from,
{
    if from < m.len() {
        lemma_largest_row(m, col, best, from + 1);
        lemma_largest_row(m, col, from, from + 1);
    }
}

/// A pivot row is divided as a whole, for what stands before the pivot is zero.
proof fn lemma_normalized<S: Scalar>(row: Seq<S>, col: int)
    requires
        exact::<S>(),
        0 <= col < row.len(),
        row[col] != S::nought(),
        forall|j: int| 0 <= j < col ==> #[trigger] row[j] == S::nought(),
    ensures
        normalized(row, col).len() == row.len(),
        normalized(row, col)[col] == S::unit(),
        forall|j: int|
            0 <= j < row.len() ==> #[trigger] normalized(row, col)[j] == row[j].product(
                S::unit().quotient(row[col]),
            ),
        forall|j: int| 0 <= j < col ==> #[trigger] normalized(row, col)[j] == S::nought(),
{
    let p = row[col];
    let inverse = S::unit().quotient(p);
    let out = normalized(row, col);
    lemma_inverse(p, p);
    lemma_product_commutes(p, inverse);
    assert forall|j: int| 0 <= j < row.len() implies #[trigger] out[j] == row[j].product(
        inverse,
    ) by {
        if j < col {
            lemma_product_zero(inverse);
        } else {
            lemma_inverse(row[j], p);
        }
    }
    assert(out[col] == p.product(inverse));
}

/// A multiple of the pivot row is subtracted from the whole row, for what stands before the
/// pivot is zero.
proof fn lemma_eliminated<S: Scalar>(row: Seq<S>, pivot: Seq<S>, col: int)
    requires
        exact::<S>(),
        0 <= col < row.len(),
        pivot.len() == row.len(),
        pivot[col] == S::unit(),
        forall|j: int| 0 <= j < col ==> #[trigger] pivot[j] == S::nought(),
    ensures
        eliminated(row, pivot, col).len() == row.len(),
        eliminated(row, pivot, col)[col] == S::nought(),
        forall|j: int| 0 <= j < col ==> #[trigger] eliminated(row, pivot, col)[j] == row[j],
        forall|j: int|
            0 <= j < row.len() ==> #[trigger] eliminated(row, pivot, col)[j] == row[j].sum(
                pivot[j].product(row[col].negation()),
            ),
{
    let f = row[col];
    let out = eliminated(row, pivot, col);
    assert forall|j: int| 0 <= j < row.len() implies #[trigger] out[j] == row[j].sum(
        pivot[j].product(f.negation()),
    ) by {
        if j < col {
            assert(pivot[j] == S::nought());
            lemma_product_zero(f.negation());
            lemma_sum_zero(row[j]);
        } else {
            lemma_difference(row[j], f.product(pivot[j]));
            lemma_product_commutes(f, pivot[j]);
            lemma_negation_of_product(pivot[j], f);
        }
    }
    lemma_product_one(f.negation());
    lemma_negation(f);
    assert(out[col] == f.sum(pivot[col].product(f.negation())));
}

/// The values satisfy a row exactly when they satisfy it divided by its pivot.
proof fn lemma_normalized_satisfied<S: Scalar>(
    row: Seq<S>,
    col: int,
    v: Seq<S>,
    n: nat,
    at: int,
)
    requires
        exact::<S>(),
        0 <= col < n <= at < row.len(),
        row[col] != S::nought(),
        forall|j: int| 0 <= j < col ==> #[trigger] row[j] == S::nought(),
    ensures
        satisfies(row, v, n, at) <==> satisfies(normalized(row, col), v, n, at),
{
    let p = row[col];
    let inverse = S::unit().quotient(p);
    let out = normalized(row, col);
    lemma_normalized(row, col);
    lemma_combination_scaled(row, out, inverse, v, n);
    lemma_inverse(S::unit(), p);
    let c = combination(row, v, n);
    assert(out[at] == row[at].product(inverse));
    if satisfies(out, v, n, at) {
        crate::field::lemma_product_cancels(inverse, c, row[at]);
    }
}

/// Where the values satisfy the pivot row, they satisfy a row exactly when they satisfy it
/// with a multiple of the pivot row subtracted.
proof fn lemma_eliminated_satisfied<S: Scalar>(
    row: Seq<S>,
    pivot: Seq<S>,
    col: int,
    v: Seq<S>,
    n: nat,
    at: int,
)
    requires
        exact::<S>(),
        0 <= col < n <= at < row.len(),
        pivot.len() == row.len(),
        pivot[col] == S::unit(),
        forall|j: int| 0 <= j < col ==> #[trigger] pivot[j] == S::nought(),
        satisfies(pivot, v, n, at),
    ensures
        satisfies(row, v, n, at) <==> satisfies(eliminated(row, pivot, col), v, n, at),
{
    let g = row[col].negation();
    let out = eliminated(row, pivot, col);
    lemma_eliminated(row, pivot, col);
    let scaled = Seq::new(row.len(), |j: int| pivot[j].product(g));
    lemma_combination_scaled(pivot, scaled, g, v, n);
    lemma_combination_added(row, scaled, out, v, n);
    let c = combination(row, v, n);
    let d = combination(scaled, v, n);
    assert(out[at] == row[at].sum(pivot[at].product(g)));
    assert(d == pivot[at].product(g));
    if satisfies(out, v, n, at) {
        lemma_sum_commutes(c, d);
        lemma_sum_commutes(row[at], d);
        crate::field::lemma_sum_cancels(d, c, row[at]);
    }
}

/// One step of the elimination clears one more column.
pub proof fn lemma_step_clears<S: Scalar>(m: Seq<Seq<S>>, col: int, at: int, width: nat)
    requires
        exact::<S>(),
        0 <= col <= at < m.len() <= width,
        of_width(m, width),
        m[at][col] != S::nought(),
        cleared(m, col),
    ensures
        elimination_step(m, col, at).len() == m.len(),
        of_width(elimination_step(m, col, at), width),
        cleared(elimination_step(m, col, at), col + 1),
{
    let n = m.len();
    let s = exchanged(m, col, at);
    lemma_exchanged(m, col, at);
    let head = s[col];
    assert(head == m[at]);
    assert(m[at].len() == width);
    assert forall|j: int| 0 <= j < col implies #[trigger] head[j] == S::nought() by {
        assert(m[at][j] == S::nought());
    }
    let pivot = normalized(head, col);
    let out = elimination_step(m, col, at);
    lemma_normalized(head, col);
    assert forall|i: int| 0 <= i < n implies (#[trigger] out[i]).len() == width by {
        assert(s[i].len() == width);
    }
    assert forall|i: int, j: int|
        0 <= i < n && 0 <= j < col + 1 implies #[trigger] out[i][j] == (if i == j {
        S::unit()
    } else {
        S::nought()
    }) by {
        let source = if i == col {
            at
        } else if i == at {
            col
        } else {
            i
        };
        assert(s[i] == m[source]);
        assert(m[source].len() == width);
        if i == col {
            assert(out[i] == pivot);
        } else {
            lemma_eliminated(s[i], pivot, col);
            assert(out[i] == eliminated(s[i], pivot, col));
            if j < col {
                assert(m[source][j] == (if source == j {
                    S::unit()
                } else {
                    S::nought()
                }));
            }
        }
    }
}

/// One step of the elimination keeps what is solved, and clears one more column.
pub proof fn lemma_step<S: Scalar>(
    m: Seq<Seq<S>>,
    col: int,
    at: int,
    width: nat,
    v: Seq<S>,
    rhs: int,
)
    requires
        exact::<S>(),
        0 <= col <= at < m.len(),
        m.len() <= rhs < width,
        of_width(m, width),
        m[at][col] != S::nought(),
        cleared(m, col),
    ensures
        elimination_step(m, col, at).len() == m.len(),
        of_width(elimination_step(m, col, at), width),
        cleared(elimination_step(m, col, at), col + 1),
        satisfies_all(m, v, m.len(), rhs) <==> satisfies_all(
            elimination_step(m, col, at),
            v,
            m.len(),
            rhs,
        ),
{
    let n = m.len();
    lemma_step_clears(m, col, at, width);
    let s = exchanged(m, col, at);
    lemma_exchanged(m, col, at);
    let head = s[col];
    assert(head == m[at]);
    assert(m[at].len() == width);
    assert forall|j: int| 0 <= j < col implies #[trigger] head[j] == S::nought() by {
        assert(m[at][j] == S::nought());
    }
    let pivot = normalized(head, col);
    let out = elimination_step(m, col, at);
    lemma_normalized(head, col);
    lemma_normalized_satisfied(head, col, v, n, rhs);
    if satisfies_all(m, v, n, rhs) {
        assert(satisfies(m[at], v, n, rhs));
        assert forall|i: int| 0 <= i < n implies satisfies(#[trigger] out[i], v, n, rhs) by {
            let source = if i == col {
                at
            } else if i == at {
                col
            } else {
                i
            };
            assert(s[i] == m[source]);
            assert(satisfies(m[source], v, n, rhs));
            assert(m[source].len() == width);
            if i != col {
                lemma_eliminated_satisfied(s[i], pivot, col, v, n, rhs);
            }
        }
    }
    if satisfies_all(out, v, n, rhs) {
        assert(out[col] == pivot);
        assert(satisfies(out[col], v, n, rhs));
        assert forall|k: int| 0 <= k < n implies satisfies(#[trigger] m[k], v, n, rhs) by {
            let i = if k == at {
                col
            } else if k == col {
                at
            } else {
                k
            };
            assert(s[i] == m[k]);
            assert(m[k].len() == width);
            assert(satisfies(out[i], v, n, rhs));
            if i != col {
                assert(out[i] == eliminated(s[i], pivot, col));
                lemma_eliminated_satisfied(s[i], pivot, col, v, n, rhs);
            }
        }
    }
}

proof fn lemma_reduced<S: Scalar>(
    m: Seq<Seq<S>>,
    tolerance: S,
    col: int,
    width: nat,
    v: Seq<S>,
    rhs: int,
)
    requires
        exact::<S>(),
        tolerates_zero(tolerance),
        0 <= col <= m.len(),
        m.len() <= rhs < width,
        of_width(m, width),
        cleared(m, col),
    ensures
        reduced_from(m, tolerance, col) matches Ok(r) ==> {
            &&& r.len() == m.len()
            &&& of_width(r, width)
            &&& cleared(r, m.len() as int)
            &&& satisfies_all(m, v, m.len(), rhs) <==> satisfies_all(r, v, m.len(), rhs)
        },
    decreases m.len() - col,
{
    if col < m.len() {
        lemma_largest_row(m, col, col, col + 1);
        let at = largest_row(m, col, col, col + 1);
        if !at_most(m[at][col].magnitude(), tolerance) {
            lemma_step(m, col, at, width, v, rhs);
            lemma_reduced(elimination_step(m, col, at), tolerance, col + 1, width, v, rhs);
        }
    }
}

pub proof fn lemma_unit_satisfied<S: Scalar>(r: Seq<Seq<S>>, v: Seq<S>, rhs: int, width: nat)
    requires
        exact::<S>(),
        cleared(r, r.len() as int),
        of_width(r, width),
        r.len() <= rhs < width,
    ensures
        satisfies_all(r, v, r.len(), rhs) <==> forall|i: int|
            0 <= i < r.len() ==> #[trigger] v[i] == r[i][rhs],
{
    assert forall|i: int| 0 <= i < r.len() implies combination(#[trigger] r[i], v, r.len())
        == v[i] by {
        assert forall|j: int| 0 <= j < r.len() implies #[trigger] r[i][j] == (if i == j {
            S::unit()
        } else {
            S::nought()
        }) by {}
        lemma_combination_unit(r[i], v, i, r.len());
    }
    if satisfies_all(r, v, r.len(), rhs) {
        assert forall|i: int| 0 <= i < r.len() implies #[trigger] v[i] == r[i][rhs] by {
            assert(satisfies(r[i], v, r.len(), rhs));
        }
    }
    if forall|i: int| 0 <= i < r.len() ==> #[trigger] v[i] == r[i][rhs] {
        assert forall|i: int| 0 <= i < r.len() implies satisfies(
            #[trigger] r[i],
            v,
            r.len(),
            rhs,
        ) by {
            assert(v[i] == r[i][rhs]);
        }
    }
}

/// The values solve a linear system: each row of coefficients, combined with them, gives the
/// right-hand side.
pub open spec fn solves<S: Scalar>(
    coefficients: Seq<Seq<S>>,
    v: Seq<S>,
    right: Seq<S>,
) -> bool {
    forall|i: int|
        0 <= i < coefficients.len() ==> combination(
            #[trigger] coefficients[i],
            v,
            coefficients.len(),
        ) == right[i]
}

/// Where the elimination of a square system succeeds, each column of its result solves the
/// system for the same column of the right-hand side, and nothing else does.
pub proof fn law_solution_solves<S: Scalar>(
    coefficients: Seq<Seq<S>>,
    rhs: Seq<Seq<S>>,
    cols: nat,
    tolerance: S,
    c: int,
    v: Seq<S>,
)
    requires
        exact::<S>(),
        tolerates_zero(tolerance),
        rhs.len() == coefficients.len(),
        of_width(coefficients, coefficients.len()),
        of_width(rhs, cols),
        0 <= c < cols,
        v.len() == coefficients.len(),
    ensures
        solution(coefficients, rhs, tolerance) matches Ok(x) ==> (solves(
            coefficients,
            v,
            column_of(rhs, c),
        ) <==> v == column_of(x, c)),
{
    let n = coefficients.len();
    let m = beside(coefficients, rhs);
    let width = n + cols;
    let at = n + c;
    assert forall|i: int| 0 <= i < m.len() implies (#[trigger] m[i]).len() == width by {
        assert(coefficients[i].len() == n);
        assert(rhs[i].len() == cols);
    }
    lemma_reduced(m, tolerance, 0, width, v, at);
    if let Ok(r) = reduced_from(m, tolerance, 0) {
        let x = columns_from(r, n as int);
        lemma_unit_satisfied(r, v, at, width);
        assert forall|i: int| 0 <= i < n implies #[trigger] x[i][c] == r[i][at] by {
            assert(r[i].len() == width);
        }
        assert forall|i: int| 0 <= i < n implies combination(#[trigger] m[i], v, n)
            == combination(coefficients[i], v, n) && m[i][at] == rhs[i][c] by {
            assert(coefficients[i].len() == n);
            assert(rhs[i].len() == cols);
            lemma_combination_congruent(m[i], v, coefficients[i], v, n);
        }
        let right = column_of(rhs, c);
        if solves(coefficients, v, right) {
            assert forall|i: int| 0 <= i < n implies satisfies(#[trigger] m[i], v, n, at) by {
                assert(combination(coefficients[i], v, n) == right[i]);
            }
            assert forall|i: int| 0 <= i < n implies #[trigger] v[i] == column_of(x, c)[i] by {
                assert(x[i][c] == r[i][at]);
            }
            assert(v =~= column_of(x, c));
        }
        if v == column_of(x, c) {
            assert forall|i: int| 0 <= i < n implies #[trigger] v[i] == r[i][at] by {
                assert(x[i][c] == r[i][at]);
            }
            assert forall|i: int| 0 <= i < n implies combination(
                #[trigger] coefficients[i],
                v,
                n,
            ) == right[i] by {
                assert(satisfies(m[i], v, n, at));
            }
        }
    }
}

} // verus!
