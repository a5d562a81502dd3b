//! Symbolic results, evaluated, are what evaluating first gives, apart from rounding.

use crate::circuit::expanded;
use crate::elimination_laws::{
    cleared, lemma_step, lemma_step_clears, lemma_unit_satisfied, satisfies, satisfies_all, solves,
    tolerates_zero,
};
use crate::expr::{is_zero, product, reciprocal, value, Expr, Failure};
use crate::expression::{exprs, Expression};
use crate::expression_laws::{
    law_difference_keeps_value, law_negation_keeps_value, law_product_keeps_value,
    law_reciprocal_keeps_value, law_sum_keeps_value,
};
use crate::field::{
    column_of, combination, exact, lemma_combination_congruent, lemma_difference, lemma_equal,
    lemma_inverse, lemma_negation_twice, lemma_product_zero, lemma_sum_zero,
};
use crate::matrix::{of_width, Matrix};
use crate::numeric;
use crate::numeric::{
    driven, evaluates_to, is_evaluation, lemma_evaluated, source_number, NumericMnaSystem,
    NumericStateSpace,
};
use crate::reduction_laws;
use crate::reduction_laws::{
    constraints_hold, describes, eliminates, evolves, fits_together, indices, is_solution,
    lemma_explicit_form, lemma_indices, lemma_is_solution, lemma_row_is_listed, storage_is_marked,
    Elimination,
};
use crate::scalar::Scalar;
use crate::symbolic;
use crate::symbolic::{
    beside, columns_from, exchanged, lemma_exchanged, pivot_row, SymbolicStateSpace,
};
use crate::system::{grid, MnaSystem};
use crate::text;
use vstd::prelude::*;

verus! {

// Evaluated matrices

/// Every entry of a matrix has a value.
pub open spec fn rows_valued<S: Scalar>(
    m: Seq<Seq<Expr<S>>>,
    values: Map<Seq<char>, S>,
) -> bool {
    forall|i: int, j: int|
        0 <= i < m.len() && 0 <= j < m[i].len() ==> value(#[trigger] m[i][j], values) is Ok
}

/// The values of a row's entries.
pub open spec fn row_values<S: Scalar>(row: Seq<Expr<S>>, values: Map<Seq<char>, S>) -> Seq<S> {
    Seq::new(row.len(), |j: int| value(row[j], values)->Ok_0)
}

/// The values of a matrix's entries.
pub open spec fn rows_value<S: Scalar>(
    m: Seq<Seq<Expr<S>>>,
    values: Map<Seq<char>, S>,
) -> Seq<Seq<S>> {
    Seq::new(m.len(), |i: int| row_values(m[i], values))
}

proof fn lemma_zero_entry<S: Scalar>(e: Expr<S>, values: Map<Seq<char>, S>)
    requires
        exact::<S>(),
        is_zero(e),
    ensures
        value(e, values) == Ok::<S, Failure<S>>(S::nought()),
{
    lemma_equal(e->Constant_0, S::nought());
}

// Elimination

/// One symbolic step is a step on the values.
proof fn lemma_symbolic_step<S: Scalar>(
    m: Seq<Seq<Expr<S>>>,
    col: int,
    at: int,
    width: nat,
    values: Map<Seq<char>, S>,
)
    requires
        exact::<S>(),
        0 <= col <= at < m.len(),
        col < width,
        of_width(m, width),
        rows_valued(m, values),
        value(m[at][col], values)->Ok_0 != S::nought(),
    ensures
        ({
            let out = symbolic::elimination_step(m, col, at);
            &&& out.len() == m.len()
            &&& of_width(out, width)
            &&& rows_valued(out, values)
            &&& rows_value(out, values) == numeric::elimination_step(
                rows_value(m, values),
                col,
                at,
            )
        }),
{
    let s = exchanged(m, col, at);
    let n = rows_value(m, values);
    let t = exchanged(n, col, at);
    lemma_exchanged(m, col, at);
    lemma_exchanged(n, col, at);
    let head = s[col];
    assert(head == m[at]);
    assert(head.len() == width);
    let p = value(head[col], values)->Ok_0;
    let inverse = reciprocal(head[col]);
    assert(value(m[at][col], values) is Ok);
    law_reciprocal_keeps_value(head[col], values);
    let pivot = symbolic::normalized(head, col);
    let numeric_pivot = numeric::normalized(t[col], col);
    assert(t[col] == row_values(head, values));
    assert forall|j: int| 0 <= j < width implies value(#[trigger] pivot[j], values) == Ok::<
        S,
        Failure<S>,
    >(numeric_pivot[j]) by {
        assert(value(m[at][j], values) is Ok);
        if j >= col {
            law_product_keeps_value(head[j], inverse, values);
            lemma_inverse(value(head[j], values)->Ok_0, p);
        }
    }
    let out = symbolic::elimination_step(m, col, at);
    let numeric_out = numeric::elimination_step(n, col, at);
    assert forall|i: int, j: int| 0 <= i < m.len() && 0 <= j < width implies value(
        #[trigger] out[i][j],
        values,
    ) == Ok::<S, Failure<S>>(numeric_out[i][j]) && out[i].len() == width by {
        let source = if i == col {
            at
        } else if i == at {
            col
        } else {
            i
        };
        let row = s[i];
        assert(row == m[source]);
        assert(row.len() == width);
        assert(t[i] == row_values(row, values));
        assert(value(m[source][j], values) is Ok);
        assert(value(m[source][col], values) is Ok);
        if i == col {
            assert(value(pivot[j], values) is Ok);
        } else {
            let f = value(row[col], values)->Ok_0;
            let x = value(row[j], values)->Ok_0;
            assert(value(pivot[j], values) is Ok);
            if is_zero(row[col]) {
                lemma_zero_entry(row[col], values);
                lemma_product_zero(numeric_pivot[j]);
                lemma_difference(x, S::nought());
                lemma_negation_twice(S::nought());
                lemma_sum_zero(x);
            } else if j >= col {
                law_product_keeps_value(row[col], pivot[j], values);
                law_difference_keeps_value(row[j], product(row[col], pivot[j]), values);
            }
        }
    }
    assert forall|i: int| 0 <= i < m.len() implies (#[trigger] out[i]).len() == width by {
        if width > 0 {
            assert(value(out[i][0], values) is Ok);
        }
    }
    assert forall|i: int| 0 <= i < m.len() implies #[trigger] rows_value(out, values)[i]
        == numeric_out[i] by {
        assert(out[i].len() == width);
        assert(m[at].len() == width);
        assert(m[i].len() == width);
        assert(m[col].len() == width);
        assert forall|j: int| 0 <= j < width implies row_values(out[i], values)[j]
            == numeric_out[i][j] by {
            assert(value(out[i][j], values) is Ok);
        }
        assert(row_values(out[i], values) =~= numeric_out[i]);
    }
    assert(rows_value(out, values) =~= numeric_out);
}

/// No pivot of the elimination has the value zero.
pub open spec fn pivots_hold<S: Scalar>(
    m: Seq<Seq<Expr<S>>>,
    col: int,
    values: Map<Seq<char>, S>,
) -> bool
    decreases m.len() - col,
{
    if col < 0 || col >= m.len() {
        true
    } else {
        let at = pivot_row(m, col, col);
        at < m.len() ==> {
            &&& value(m[at][col], values)->Ok_0 != S::nought()
            &&& pivots_hold(symbolic::elimination_step(m, col, at), col + 1, values)
        }
    }
}

proof fn lemma_pivot_row<S: Scalar>(m: Seq<Seq<Expr<S>>>, col: int, from: int)
    requires
        0 <= from <= m.len(),
    ensures
        from <= pivot_row(m, col, from) <= m.len(),
    decreases m.len() - from,
{
    if from < m.len() {
        lemma_pivot_row(m, col, from + 1);
    }
}

proof fn lemma_symbolic_reduced<S: Scalar>(
    m: Seq<Seq<Expr<S>>>,
    col: int,
    width: nat,
    values: Map<Seq<char>, S>,
)
    requires
        exact::<S>(),
        0 <= col <= m.len() <= width,
        of_width(m, width),
        rows_valued(m, values),
        cleared(rows_value(m, values), col),
        pivots_hold(m, col, values),
    ensures
        symbolic::reduced_from(m, col) matches Ok(r) ==> {
            &&& r.len() == m.len()
            &&& of_width(r, width)
            &&& rows_valued(r, values)
            &&& cleared(rows_value(r, values), m.len() as int)
            &&& forall|v: Seq<S>, rhs: int|
                m.len() <= rhs < width ==> (satisfies_all(
                    rows_value(m, values),
                    v,
                    m.len(),
                    rhs,
                ) <==> #[trigger] satisfies_all(rows_value(r, values), v, m.len(), rhs))
        },
    decreases m.len() - col,
{
    if col < m.len() {
        lemma_pivot_row(m, col, col);
        let at = pivot_row(m, col, col);
        if at < m.len() {
            let out = symbolic::elimination_step(m, col, at);
            let n = rows_value(m, values);
            lemma_symbolic_step(m, col, at, width, values);
            assert forall|i: int| 0 <= i < n.len() implies (#[trigger] n[i]).len() == width by {
                assert(m[i].len() == width);
            }
            assert(m[at].len() == width);
            assert(n[at][col] == value(m[at][col], values)->Ok_0);
            lemma_step_clears(n, col, at, width);
            assert forall|v: Seq<S>, rhs: int| m.len() <= rhs < width implies (satisfies_all(
                n,
                v,
                m.len(),
                rhs,
            ) <==> #[trigger] satisfies_all(rows_value(out, values), v, m.len(), rhs)) by {
                lemma_step(n, col, at, width, v, rhs);
            }
            lemma_symbolic_reduced(out, col + 1, width, values);
            if let Ok(r) = symbolic::reduced_from(m, col) {
                assert forall|v: Seq<S>, rhs: int| m.len() <= rhs < width implies (
                satisfies_all(n, v, m.len(), rhs) <==> #[trigger] satisfies_all(
                    rows_value(r, values),
                    v,
                    m.len(),
                    rhs,
                )) by {
                    assert(satisfies_all(rows_value(out, values), v, m.len(), rhs)
                        <==> satisfies_all(rows_value(r, values), v, m.len(), rhs));
                }
            }
        }
    }
}

/// A symbolic solution of a linear system, evaluated where no pivot vanishes, is the solution
/// of the evaluated system: each column solves it, and nothing else does.
pub proof fn law_symbolic_solution_solves<S: Scalar>(
    coefficients: Seq<Seq<Expr<S>>>,
    rhs: Seq<Seq<Expr<S>>>,
    cols: nat,
    values: Map<Seq<char>, S>,
)
    requires
        exact::<S>(),
        rhs.len() == coefficients.len(),
        of_width(coefficients, coefficients.len()),
        of_width(rhs, cols),
        rows_valued(coefficients, values),
        rows_valued(rhs, values),
        pivots_hold(beside(coefficients, rhs), 0, values),
    ensures
        symbolic::solution(coefficients, rhs) matches Ok(x) ==> {
            &&& x.len() == coefficients.len()
            &&& of_width(x, cols)
            &&& rows_valued(x, values)
            &&& is_solution(
                rows_value(coefficients, values),
                rows_value(rhs, values),
                cols,
                rows_value(x, values),
            )
        },
{
    let n = coefficients.len();
    let m = beside(coefficients, rhs);
    let width = n + cols;
    assert forall|i: int| 0 <= i < n implies (#[trigger] m[i]).len() == width by {
        assert(coefficients[i].len() == n);
        assert(rhs[i].len() == cols);
    }
    assert forall|i: int, j: int| 0 <= i < m.len() && 0 <= j < m[i].len() implies value(
        #[trigger] m[i][j],
        values,
    ) is Ok by {
        assert(coefficients[i].len() == n);
        assert(rhs[i].len() == cols);
        if j < n {
            assert(value(coefficients[i][j], values) is Ok);
        } else {
            assert(value(rhs[i][j - n], values) is Ok);
        }
    }
    lemma_symbolic_reduced(m, 0, width, values);
    if let Ok(r) = symbolic::reduced_from(m, 0) {
        let x = columns_from(r, n as int);
        let left = rows_value(coefficients, values);
        let right = rows_value(rhs, values);
        let whole = rows_value(m, values);
        let done = rows_value(r, values);
        let solved = rows_value(x, values);
        assert forall|i: int| 0 <= i < n implies (#[trigger] x[i]).len() == cols by {
            assert(r[i].len() == width);
        }
        assert forall|i: int, j: int| 0 <= i < x.len() && 0 <= j < x[i].len() implies value(
            #[trigger] x[i][j],
            values,
        ) is Ok by {
            assert(r[i].len() == width);
            assert(value(r[i][n + j], values) is Ok);
        }
        assert forall|i: int| 0 <= i < n implies (#[trigger] done[i]).len() == width by {
            assert(r[i].len() == width);
        }
        assert forall|i: int| 0 <= i < n implies (#[trigger] solved[i]).len() == cols by {
            assert(x[i].len() == cols);
        }
        assert forall|c: int, v: Seq<S>| 0 <= c < cols && v.len() == n implies (
        #[trigger] solves(left, v, column_of(right, c)) <==> v == column_of(solved, c)) by {
            let at = n + c;
            lemma_unit_satisfied(done, v, at, width);
            assert(satisfies_all(whole, v, n, at) <==> satisfies_all(done, v, n, at));
            assert forall|i: int| 0 <= i < n implies #[trigger] solved[i][c] == done[i][at] by {
                assert(r[i].len() == width);
                assert(x[i].len() == cols);
                assert(x[i][c] == r[i][at]);
            }
            assert forall|i: int| 0 <= i < n implies combination(#[trigger] whole[i], v, n)
                == combination(left[i], v, n) && whole[i][at] == column_of(right, c)[i] by {
                assert(coefficients[i].len() == n);
                assert(rhs[i].len() == cols);
                assert(m[i].len() == width);
                assert(m[i][at] == rhs[i][c]);
                assert forall|j: int| 0 <= j < n implies #[trigger] whole[i][j]
                    == left[i][j] by {
                    assert(m[i][j] == coefficients[i][j]);
                }
                lemma_combination_congruent(whole[i], v, left[i], v, n);
            }
            if solves(left, v, column_of(right, c)) {
                assert forall|i: int| 0 <= i < n implies satisfies(
                    #[trigger] whole[i],
                    v,
                    n,
                    at,
                ) by {
                    assert(combination(left[i], v, n) == column_of(right, c)[i]);
                }
                assert forall|i: int| 0 <= i < n implies #[trigger] v[i] == column_of(
                    solved,
                    c,
                )[i] by {
                    assert(solved[i][c] == done[i][at]);
                }
                assert(v =~= column_of(solved, c));
            }
            if v == column_of(solved, c) {
                assert forall|i: int| 0 <= i < n implies #[trigger] v[i] == done[i][at] by {
                    assert(solved[i][c] == done[i][at]);
                }
                assert forall|i: int| 0 <= i < n implies combination(
                    #[trigger] left[i],
                    v,
                    n,
                ) == column_of(right, c)[i] by {
                    assert(satisfies(whole[i], v, n, at));
                }
            }
        }
    }
}

// Matrix operations

pub proof fn lemma_dot_value<S: Scalar>(
    row: Seq<Expr<S>>,
    m: Seq<Seq<Expr<S>>>,
    col: int,
    n: nat,
    values: Map<Seq<char>, S>,
)
    requires
        exact::<S>(),
        n <= row.len(),
        n <= m.len(),
        forall|j: int| 0 <= j < n ==> value(#[trigger] row[j], values) is Ok,
        forall|i: int|
            0 <= i < n ==> 0 <= col < (#[trigger] m[i]).len() && value(m[i][col], values) is Ok,
    ensures
        value(symbolic::dot(row, m, col, n), values) == Ok::<S, Failure<S>>(
            numeric::dot(row_values(row, values), rows_value(m, values), col, n),
        ),
    decreases n,
{
    if n > 0 {
        let less = (n - 1) as nat;
        lemma_dot_value(row, m, col, less, values);
        let term = product(row[n - 1], m[n - 1][col]);
        assert(value(row[n - 1], values) is Ok);
        assert(value(m[n - 1][col], values) is Ok);
        law_product_keeps_value(row[n - 1], m[n - 1][col], values);
        let before = symbolic::dot(row, m, col, less);
        if is_zero(term) {
            lemma_zero_entry(term, values);
            lemma_sum_zero(value(before, values)->Ok_0);
        } else {
            law_sum_keeps_value(before, term, values);
        }
    }
}

proof fn lemma_product_value<S: Scalar>(
    lhs: Seq<Seq<Expr<S>>>,
    rhs: Seq<Seq<Expr<S>>>,
    cols: nat,
    values: Map<Seq<char>, S>,
)
    requires
        exact::<S>(),
        of_width(lhs, rhs.len()),
        of_width(rhs, cols),
        rows_valued(lhs, values),
        rows_valued(rhs, values),
    ensures
        rows_valued(symbolic::matrix_product(lhs, rhs, cols), values),
        rows_value(symbolic::matrix_product(lhs, rhs, cols), values) == numeric::matrix_product(
            rows_value(lhs, values),
            rows_value(rhs, values),
            cols,
        ),
{
    let out = symbolic::matrix_product(lhs, rhs, cols);
    let right = numeric::matrix_product(
        rows_value(lhs, values),
        rows_value(rhs, values),
        cols,
    );
    assert forall|i: int, j: int| 0 <= i < lhs.len() && 0 <= j < cols implies value(
        #[trigger] out[i][j],
        values,
    ) == Ok::<S, Failure<S>>(right[i][j]) by {
        assert(lhs[i].len() == rhs.len());
        assert forall|k: int| 0 <= k < rhs.len() implies value(
            #[trigger] lhs[i][k],
            values,
        ) is Ok by {}
        assert forall|k: int| 0 <= k < rhs.len() implies 0 <= j < (#[trigger] rhs[k]).len()
            && value(rhs[k][j], values) is Ok by {
            assert(rhs[k].len() == cols);
            assert(value(rhs[k][j], values) is Ok);
        }
        lemma_dot_value(lhs[i], rhs, j, rhs.len(), values);
    }
    assert forall|i: int| 0 <= i < lhs.len() implies #[trigger] rows_value(out, values)[i]
        == right[i] by {
        assert forall|j: int| 0 <= j < cols implies row_values(out[i], values)[j]
            == right[i][j] by {
            assert(value(out[i][j], values) is Ok);
        }
        assert(row_values(out[i], values) =~= right[i]);
    }
    assert(rows_value(out, values) =~= right);
}

proof fn lemma_difference_value<S: Scalar>(
    lhs: Seq<Seq<Expr<S>>>,
    rhs: Seq<Seq<Expr<S>>>,
    cols: nat,
    values: Map<Seq<char>, S>,
)
    requires
        exact::<S>(),
        lhs.len() == rhs.len(),
        of_width(lhs, cols),
        of_width(rhs, cols),
        rows_valued(lhs, values),
        rows_valued(rhs, values),
    ensures
        rows_valued(symbolic::matrix_difference(lhs, rhs), values),
        rows_value(symbolic::matrix_difference(lhs, rhs), values) == numeric::matrix_difference(
            rows_value(lhs, values),
            rows_value(rhs, values),
        ),
{
    let out = symbolic::matrix_difference(lhs, rhs);
    let right = numeric::matrix_difference(rows_value(lhs, values), rows_value(rhs, values));
    assert forall|i: int, j: int| 0 <= i < lhs.len() && 0 <= j < cols implies value(
        #[trigger] out[i][j],
        values,
    ) == Ok::<S, Failure<S>>(right[i][j]) by {
        assert(lhs[i].len() == cols);
        assert(rhs[i].len() == cols);
        assert(value(lhs[i][j], values) is Ok);
        assert(value(rhs[i][j], values) is Ok);
        law_difference_keeps_value(lhs[i][j], rhs[i][j], values);
    }
    assert forall|i: int, j: int| 0 <= i < out.len() && 0 <= j < out[i].len() implies value(
        #[trigger] out[i][j],
        values,
    ) is Ok by {
        assert(lhs[i].len() == cols);
    }
    assert forall|i: int| 0 <= i < lhs.len() implies #[trigger] rows_value(out, values)[i]
        == right[i] by {
        assert(lhs[i].len() == cols);
        assert forall|j: int| 0 <= j < cols implies row_values(out[i], values)[j]
            == right[i][j] by {
            assert(value(out[i][j], values) is Ok);
        }
        assert(row_values(out[i], values) =~= right[i]);
    }
    assert(rows_value(out, values) =~= right);
}

proof fn lemma_negation_value<S: Scalar>(m: Seq<Seq<Expr<S>>>, values: Map<Seq<char>, S>)
    requires
        exact::<S>(),
        rows_valued(m, values),
    ensures
        rows_valued(symbolic::matrix_negation(m), values),
        rows_value(symbolic::matrix_negation(m), values) == numeric::matrix_negation(
            rows_value(m, values),
        ),
{
    let out = symbolic::matrix_negation(m);
    let right = numeric::matrix_negation(rows_value(m, values));
    assert forall|i: int, j: int| 0 <= i < m.len() && 0 <= j < m[i].len() implies value(
        #[trigger] out[i][j],
        values,
    ) == Ok::<S, Failure<S>>(right[i][j]) by {
        assert(value(m[i][j], values) is Ok);
        law_negation_keeps_value(m[i][j], values);
    }
    assert forall|i: int| 0 <= i < m.len() implies #[trigger] rows_value(out, values)[i]
        == right[i] by {
        assert forall|j: int| 0 <= j < m[i].len() implies row_values(out[i], values)[j]
            == right[i][j] by {
            assert(value(out[i][j], values) is Ok);
        }
        assert(row_values(out[i], values) =~= right[i]);
    }
    assert(rows_value(out, values) =~= right);
}

proof fn lemma_picked_value<S: Scalar>(
    m: Seq<Seq<Expr<S>>>,
    rows: Seq<usize>,
    cols: Seq<usize>,
    width: nat,
    values: Map<Seq<char>, S>,
)
    requires
        of_width(m, width),
        rows_valued(m, values),
        forall|i: int| 0 <= i < rows.len() ==> (#[trigger] rows[i]) < m.len(),
        forall|j: int| 0 <= j < cols.len() ==> (#[trigger] cols[j]) < width,
    ensures
        of_width(symbolic::picked(m, rows, cols), cols.len()),
        rows_valued(symbolic::picked(m, rows, cols), values),
        rows_value(symbolic::picked(m, rows, cols), values) == numeric::picked(
            rows_value(m, values),
            rows,
            cols,
        ),
{
    let out = symbolic::picked(m, rows, cols);
    let right = numeric::picked(rows_value(m, values), rows, cols);
    assert forall|i: int, j: int| 0 <= i < rows.len() && 0 <= j < cols.len() implies value(
        #[trigger] out[i][j],
        values,
    ) == Ok::<S, Failure<S>>(right[i][j]) by {
        let (r, c) = (rows[i] as int, cols[j] as int);
        assert(m[r].len() == width);
        assert(value(m[r][c], values) is Ok);
    }
    assert forall|i: int| 0 <= i < rows.len() implies #[trigger] rows_value(out, values)[i]
        == right[i] by {
        assert forall|j: int| 0 <= j < cols.len() implies row_values(out[i], values)[j]
            == right[i][j] by {
            assert(value(out[i][j], values) is Ok);
        }
        assert(row_values(out[i], values) =~= right[i]);
    }
    assert(rows_value(out, values) =~= right);
}

proof fn lemma_picked_rows_value<S: Scalar>(
    m: Seq<Seq<Expr<S>>>,
    rows: Seq<usize>,
    width: nat,
    values: Map<Seq<char>, S>,
)
    requires
        of_width(m, width),
        rows_valued(m, values),
        forall|i: int| 0 <= i < rows.len() ==> (#[trigger] rows[i]) < m.len(),
    ensures
        of_width(symbolic::picked_rows(m, rows), width),
        rows_valued(symbolic::picked_rows(m, rows), values),
        rows_value(symbolic::picked_rows(m, rows), values) == numeric::picked_rows(
            rows_value(m, values),
            rows,
        ),
{
    let out = symbolic::picked_rows(m, rows);
    assert forall|i: int| 0 <= i < rows.len() implies (#[trigger] out[i]).len() == width by {
        let r = rows[i] as int;
        assert(m[r].len() == width);
    }
    assert forall|i: int, j: int| 0 <= i < out.len() && 0 <= j < out[i].len() implies value(
        #[trigger] out[i][j],
        values,
    ) is Ok by {
        let r = rows[i] as int;
        assert(value(m[r][j], values) is Ok);
    }
    assert(rows_value(out, values) =~= numeric::picked_rows(rows_value(m, values), rows));
}

// Reduction

/// Which rows of a storage matrix hold an entry that is not the literal zero.
pub open spec fn dynamic_rows<S: Scalar>(k: Seq<Seq<Expr<S>>>) -> Seq<bool> {
    Seq::new(k.len(), |i: int| symbolic::is_dynamic(k[i]))
}

proof fn lemma_rows_that_are<S: Scalar>(dynamic: bool, k: Seq<Seq<Expr<S>>>, n: nat)
    requires
        n <= k.len(),
    ensures
        symbolic::rows_that_are(dynamic, k, n) == indices(dynamic_rows(k), dynamic, n),
    decreases n,
{
    if n > 0 {
        lemma_rows_that_are(dynamic, k, (n - 1) as nat);
    }
}

/// No pivot that the reduction of a descriptor system divides by has the value zero.
pub open spec fn reduction_holds<S: Scalar>(
    a: Seq<Seq<Expr<S>>>,
    k: Seq<Seq<Expr<S>>>,
    b: Seq<Seq<Expr<S>>>,
    cols: nat,
    values: Map<Seq<char>, S>,
) -> bool {
    let d = symbolic::rows_that_are(true, k, a.len());
    let l = symbolic::rows_that_are(false, k, a.len());
    let a_aa = symbolic::picked(a, l, l);
    let k_ss = symbolic::picked(k, d, d);
    &&& l.len() > 0 ==> {
        &&& pivots_hold(beside(a_aa, symbolic::picked(a, l, d)), 0, values)
        &&& pivots_hold(beside(a_aa, symbolic::picked_rows(b, l)), 0, values)
    }
    &&& symbolic::schur_complement(a, b, cols, d, l) matches Ok((a_reduced, b_reduced)) ==> {
        &&& pivots_hold(beside(k_ss, symbolic::matrix_negation(a_reduced)), 0, values)
        &&& pivots_hold(beside(k_ss, b_reduced), 0, values)
    }
}

/// The symbolic explicit form of a descriptor system `A*x + K*dx = B*u`, evaluated where no
/// pivot vanishes, has the solutions of the evaluated system: values that satisfy its rows
/// without storage satisfy the whole system exactly when the dynamic unknowns evolve as the
/// explicit form says.
pub proof fn law_symbolic_reduction_keeps_solutions<S: Scalar>(
    a: Seq<Seq<Expr<S>>>,
    k: Seq<Seq<Expr<S>>>,
    b: Seq<Seq<Expr<S>>>,
    unknowns: Seq<Seq<char>>,
    values: Map<Seq<char>, S>,
    x: Seq<S>,
    dx: Seq<S>,
    u: Seq<S>,
)
    requires
        exact::<S>(),
        rows_valued(a, values),
        rows_valued(k, values),
        rows_valued(b, values),
        unknowns.len() == a.len(),
        fits_together(
            rows_value(a, values),
            rows_value(k, values),
            rows_value(b, values),
            x,
            dx,
            u,
        ),
        reduction_holds(a, k, b, u.len(), values),
        storage_is_marked(rows_value(k, values), dynamic_rows(k)),
        constraints_hold(
            rows_value(a, values),
            rows_value(k, values),
            rows_value(b, values),
            x,
            dx,
            u,
            dynamic_rows(k),
        ),
    ensures
        symbolic::reduction(a, k, b, u.len(), unknowns) matches Ok((state_a, state_b, dynamic))
            ==> {
            &&& rows_valued(state_a, values)
            &&& rows_valued(state_b, values)
            &&& describes(
                rows_value(a, values),
                rows_value(k, values),
                rows_value(b, values),
                x,
                dx,
                u,
            ) <==> evolves(
                rows_value(state_a, values),
                rows_value(state_b, values),
                x,
                dx,
                u,
                dynamic,
            )
        },
{
    let order = a.len();
    let cols = u.len();
    let mask = dynamic_rows(k);
    let d = indices(mask, true, order);
    let l = indices(mask, false, order);
    lemma_rows_that_are(true, k, order);
    lemma_rows_that_are(false, k, order);
    lemma_indices(mask, true, order);
    lemma_indices(mask, false, order);
    let (na, nk, nb) = (rows_value(a, values), rows_value(k, values), rows_value(b, values));
    assert forall|i: int| 0 <= i < order implies (#[trigger] a[i]).len() == order && k[i].len()
        == order && b[i].len() == cols by {
        assert(na[i].len() == order);
        assert(nk[i].len() == order);
        assert(nb[i].len() == cols);
    }
    assert(of_width(a, order) && of_width(k, order) && of_width(b, cols)) by {
        assert forall|i: int| 0 <= i < order implies (#[trigger] k[i]).len() == order by {
            assert(a[i].len() == order);
        }
        assert forall|i: int| 0 <= i < order implies (#[trigger] b[i]).len() == cols by {
            assert(a[i].len() == order);
        }
    }
    lemma_picked_value(a, d, d, order, values);
    lemma_picked_value(a, d, l, order, values);
    lemma_picked_value(a, l, d, order, values);
    lemma_picked_value(a, l, l, order, values);
    lemma_picked_value(k, d, d, order, values);
    lemma_picked_rows_value(b, d, cols, values);
    lemma_picked_rows_value(b, l, cols, values);
    if let Ok((state_a, state_b, dynamic)) = symbolic::reduction(a, k, b, cols, unknowns) {
        let a_ss = symbolic::picked(a, d, d);
        let a_sa = symbolic::picked(a, d, l);
        let a_as = symbolic::picked(a, l, d);
        let a_aa = symbolic::picked(a, l, l);
        let b_s = symbolic::picked_rows(b, d);
        let b_a = symbolic::picked_rows(b, l);
        let k_ss = symbolic::picked(k, d, d);
        let (a_reduced, b_reduced) = symbolic::schur_complement(a, b, cols, d, l)->Ok_0;
        let solved_as = symbolic::solution(a_aa, a_as)->Ok_0;
        let solved_b = symbolic::solution(a_aa, b_a)->Ok_0;
        let e = Elimination {
            solved_a: rows_value(solved_as, values),
            solved_b: rows_value(solved_b, values),
            a: rows_value(a_reduced, values),
            b: rows_value(b_reduced, values),
        };
        if l.len() > 0 {
            law_symbolic_solution_solves(a_aa, a_as, d.len(), values);
            law_symbolic_solution_solves(a_aa, b_a, cols, values);
            let a_product = symbolic::matrix_product(a_sa, solved_as, d.len());
            let b_product = symbolic::matrix_product(a_sa, solved_b, cols);
            lemma_product_value(a_sa, solved_as, d.len(), values);
            lemma_product_value(a_sa, solved_b, cols, values);
            lemma_difference_value(a_ss, a_product, d.len(), values);
            lemma_difference_value(b_s, b_product, cols, values);
            assert forall|i: int| 0 <= i < d.len() implies (#[trigger] a_reduced[i]).len()
                == d.len() by {
                assert(a_ss[i].len() == d.len());
            }
            assert forall|i: int| 0 <= i < d.len() implies (#[trigger] b_reduced[i]).len()
                == cols by {
                assert(b_s[i].len() == cols);
            }
        }
        assert(eliminates(e, na, nb, cols, mask));
        let minus_a = symbolic::matrix_negation(a_reduced);
        lemma_negation_value(a_reduced, values);
        assert forall|i: int| 0 <= i < d.len() implies (#[trigger] minus_a[i]).len()
            == d.len() by {
            assert(a_reduced[i].len() == d.len());
        }
        law_symbolic_solution_solves(k_ss, minus_a, d.len(), values);
        law_symbolic_solution_solves(k_ss, b_reduced, cols, values);
        lemma_explicit_form(
            na,
            nk,
            nb,
            x,
            dx,
            u,
            mask,
            e,
            rows_value(state_a, values),
            rows_value(state_b, values),
        );
    }
}

/// A linear system has one solution.
proof fn lemma_one_solution<S: Scalar>(
    m: Seq<Seq<S>>,
    rhs: Seq<Seq<S>>,
    cols: nat,
    x: Seq<Seq<S>>,
    y: Seq<Seq<S>>,
)
    requires
        is_solution(m, rhs, cols, x),
        is_solution(m, rhs, cols, y),
    ensures
        x == y,
{
    assert forall|i: int| 0 <= i < m.len() implies #[trigger] x[i] == y[i] by {
        assert(x[i].len() == cols && y[i].len() == cols);
        assert forall|c: int| 0 <= c < cols implies x[i][c] == y[i][c] by {
            let v = column_of(x, c);
            let w = column_of(y, c);
            assert(v.len() == m.len() && w.len() == m.len());
            assert(solves(m, v, column_of(rhs, c)));
            assert(v == w);
            assert(v[i] == x[i][c] && w[i] == y[i][c]);
        }
        assert(x[i] =~= y[i]);
    }
    assert(x =~= y);
}

/// A symbolic solution, evaluated where no pivot vanishes, is the numeric one.
proof fn lemma_same_solution<S: Scalar>(
    coefficients: Seq<Seq<Expr<S>>>,
    rhs: Seq<Seq<Expr<S>>>,
    cols: nat,
    values: Map<Seq<char>, S>,
    tolerance: S,
)
    requires
        exact::<S>(),
        tolerates_zero(tolerance),
        rhs.len() == coefficients.len(),
        of_width(coefficients, coefficients.len()),
        of_width(rhs, cols),
        rows_valued(coefficients, values),
        rows_valued(rhs, values),
        pivots_hold(beside(coefficients, rhs), 0, values),
        symbolic::solution(coefficients, rhs) is Ok,
        numeric::solution(
            rows_value(coefficients, values),
            rows_value(rhs, values),
            tolerance,
        ) is Ok,
    ensures
        symbolic::solution(coefficients, rhs)->Ok_0.len() == coefficients.len(),
        of_width(symbolic::solution(coefficients, rhs)->Ok_0, cols),
        rows_valued(symbolic::solution(coefficients, rhs)->Ok_0, values),
        rows_value(symbolic::solution(coefficients, rhs)->Ok_0, values) == numeric::solution(
            rows_value(coefficients, values),
            rows_value(rhs, values),
            tolerance,
        )->Ok_0,
{
    let (m, r) = (rows_value(coefficients, values), rows_value(rhs, values));
    assert forall|i: int| 0 <= i < m.len() implies (#[trigger] m[i]).len() == m.len() by {
        assert(coefficients[i].len() == coefficients.len());
    }
    assert forall|i: int| 0 <= i < r.len() implies (#[trigger] r[i]).len() == cols by {
        assert(rhs[i].len() == cols);
    }
    law_symbolic_solution_solves(coefficients, rhs, cols, values);
    lemma_is_solution(m, r, cols, tolerance);
    lemma_one_solution(
        m,
        r,
        cols,
        rows_value(symbolic::solution(coefficients, rhs)->Ok_0, values),
        numeric::solution(m, r, tolerance)->Ok_0,
    );
}

/// An entry of the storage matrix is the literal zero exactly where its value lies within the
/// tolerance.
pub open spec fn storage_is_literal<S: Scalar>(
    k: Seq<Seq<Expr<S>>>,
    values: Map<Seq<char>, S>,
    tolerance: S,
) -> bool {
    forall|i: int, j: int|
        0 <= i < k.len() && 0 <= j < k[i].len() ==> (is_zero(#[trigger] k[i][j])
            <==> !tolerance.below(value(k[i][j], values)->Ok_0.magnitude()))
}

proof fn lemma_same_dynamic_rows<S: Scalar>(
    k: Seq<Seq<Expr<S>>>,
    values: Map<Seq<char>, S>,
    tolerance: S,
)
    requires
        storage_is_literal(k, values, tolerance),
    ensures
        dynamic_rows(k) == reduction_laws::dynamic_rows(rows_value(k, values), tolerance),
{
    let n = rows_value(k, values);
    assert forall|i: int| 0 <= i < k.len() implies symbolic::is_dynamic(k[i])
        == numeric::is_dynamic(n[i], tolerance) by {
        if symbolic::is_dynamic(k[i]) {
            let j = choose|j: int| 0 <= j < k[i].len() && !is_zero(#[trigger] k[i][j]);
            assert(tolerance.below(n[i][j].magnitude()));
        }
        if numeric::is_dynamic(n[i], tolerance) {
            let j = choose|j: int|
                0 <= j < n[i].len() && tolerance.below((#[trigger] n[i][j]).magnitude());
            assert(!is_zero(k[i][j]));
        }
    }
    assert(dynamic_rows(k) =~= reduction_laws::dynamic_rows(n, tolerance));
}

/// The symbolic explicit form, evaluated where no pivot vanishes, is the explicit form of the
/// evaluated system: it has the same states and the same matrices.
pub proof fn law_symbolic_reduction_is_the_numeric_one<S: Scalar>(
    a: Seq<Seq<Expr<S>>>,
    k: Seq<Seq<Expr<S>>>,
    b: Seq<Seq<Expr<S>>>,
    cols: nat,
    unknowns: Seq<Seq<char>>,
    values: Map<Seq<char>, S>,
    tolerance: S,
)
    requires
        exact::<S>(),
        tolerates_zero(tolerance),
        unknowns.len() == a.len(),
        unknowns.len() <= usize::MAX,
        k.len() == a.len(),
        b.len() == a.len(),
        of_width(a, a.len()),
        of_width(k, a.len()),
        of_width(b, cols),
        rows_valued(a, values),
        rows_valued(k, values),
        rows_valued(b, values),
        reduction_holds(a, k, b, cols, values),
        storage_is_literal(k, values, tolerance),
    ensures
        symbolic::reduction(a, k, b, cols, unknowns) matches Ok((sym_a, sym_b, sym_states)) ==> (
        numeric::reduction(
            rows_value(a, values),
            rows_value(k, values),
            rows_value(b, values),
            cols,
            unknowns,
            tolerance,
        ) matches Ok((num_a, num_b, num_states)) ==> {
            &&& sym_states == num_states
            &&& rows_valued(sym_a, values)
            &&& rows_valued(sym_b, values)
            &&& rows_value(sym_a, values) == num_a
            &&& rows_value(sym_b, values) == num_b
        }),
{
    let order = a.len();
    let (na, nk, nb) = (rows_value(a, values), rows_value(k, values), rows_value(b, values));
    lemma_same_dynamic_rows(k, values, tolerance);
    let mask = dynamic_rows(k);
    lemma_rows_that_are(true, k, order);
    lemma_rows_that_are(false, k, order);
    reduction_laws::lemma_rows_that_are(true, nk, tolerance, order);
    reduction_laws::lemma_rows_that_are(false, nk, tolerance, order);
    lemma_indices(mask, true, order);
    lemma_indices(mask, false, order);
    let d = indices(mask, true, order);
    let l = indices(mask, false, order);
    lemma_picked_value(a, d, d, order, values);
    lemma_picked_value(a, d, l, order, values);
    lemma_picked_value(a, l, d, order, values);
    lemma_picked_value(a, l, l, order, values);
    lemma_picked_value(k, d, d, order, values);
    lemma_picked_rows_value(b, d, cols, values);
    lemma_picked_rows_value(b, l, cols, values);
    if symbolic::reduction(a, k, b, cols, unknowns) is Ok && numeric::reduction(
        na,
        nk,
        nb,
        cols,
        unknowns,
        tolerance,
    ) is Ok {
        let a_ss = symbolic::picked(a, d, d);
        let a_sa = symbolic::picked(a, d, l);
        let a_as = symbolic::picked(a, l, d);
        let a_aa = symbolic::picked(a, l, l);
        let b_s = symbolic::picked_rows(b, d);
        let b_a = symbolic::picked_rows(b, l);
        let k_ss = symbolic::picked(k, d, d);
        let (a_reduced, b_reduced) = symbolic::schur_complement(a, b, cols, d, l)->Ok_0;
        if l.len() > 0 {
            let solved_as = symbolic::solution(a_aa, a_as)->Ok_0;
            let solved_b = symbolic::solution(a_aa, b_a)->Ok_0;
            lemma_same_solution(a_aa, a_as, d.len(), values, tolerance);
            lemma_same_solution(a_aa, b_a, cols, values, tolerance);
            let a_product = symbolic::matrix_product(a_sa, solved_as, d.len());
            let b_product = symbolic::matrix_product(a_sa, solved_b, cols);
            lemma_product_value(a_sa, solved_as, d.len(), values);
            lemma_product_value(a_sa, solved_b, cols, values);
            lemma_difference_value(a_ss, a_product, d.len(), values);
            lemma_difference_value(b_s, b_product, cols, values);
        }
        assert forall|i: int| 0 <= i < d.len() implies (#[trigger] a_reduced[i]).len()
            == d.len() by {
            assert(a_ss[i].len() == d.len());
        }
        assert forall|i: int| 0 <= i < d.len() implies (#[trigger] b_reduced[i]).len()
            == cols by {
            assert(b_s[i].len() == cols);
        }
        assert(numeric::schur_complement(na, nb, cols, d, l, tolerance) == Ok::<
            (Seq<Seq<S>>, Seq<Seq<S>>),
            int,
        >((rows_value(a_reduced, values), rows_value(b_reduced, values))));
        let minus_a = symbolic::matrix_negation(a_reduced);
        lemma_negation_value(a_reduced, values);
        assert forall|i: int| 0 <= i < d.len() implies (#[trigger] minus_a[i]).len()
            == d.len() by {
            assert(a_reduced[i].len() == d.len());
        }
        lemma_same_solution(k_ss, minus_a, d.len(), values, tolerance);
        lemma_same_solution(k_ss, b_reduced, cols, values, tolerance);
    }
}

/// The rows of an evaluated matrix are the values of the symbolic one's.
proof fn lemma_matrix_value<S: Scalar>(
    m: Matrix<Expression<S>>,
    values: Map<Seq<char>, S>,
    numbers: Matrix<S>,
)
    requires
        m.filled_exactly(),
        evaluates_to(m, values, numbers),
    ensures
        rows_valued(grid(m), values),
        rows_value(grid(m), values) == numbers@,
{
    let list = exprs(m.values());
    let rows = grid(m);
    assert forall|i: int, j: int|
        0 <= i < m.row_count() && 0 <= j < m.col_count() implies value(
        #[trigger] rows[i][j],
        values,
    ) == Ok::<S, Failure<S>>(numbers@[i][j]) by {
        m.lemma_filled(i, j);
        let at = i * m.col_count() + j;
        assert(list[at] == m.values()[at]@);
        lemma_evaluated(list, list.len(), values, at);
    }
    assert forall|i: int| 0 <= i < m.row_count() implies #[trigger] row_values(rows[i], values)
        == numbers@[i] by {
        assert forall|j: int| 0 <= j < m.col_count() implies row_values(rows[i], values)[j]
            == numbers@[i][j] by {
            assert(value(rows[i][j], values) == Ok::<S, Failure<S>>(numbers@[i][j]));
        }
        assert(row_values(rows[i], values) =~= numbers@[i]);
    }
    assert(rows_value(rows, values) =~= numbers@);
}

/// Where no pivot vanishes, the symbolic state space of a system, evaluated, is the state space
/// of the evaluated system: the same states, inputs and matrices.
pub proof fn law_symbolic_state_space_is_the_numeric_one<S: Scalar>(
    system: MnaSystem<S>,
    values: Map<Seq<char>, S>,
    evaluated: NumericMnaSystem<S>,
    tolerance: S,
    symbolic_space: SymbolicStateSpace<S>,
    numeric_space: NumericStateSpace<S>,
)
    requires
        exact::<S>(),
        tolerates_zero(tolerance),
        system.well_formed(),
        system.a.filled_exactly(),
        system.k.filled_exactly(),
        system.b.filled_exactly(),
        is_evaluation(system, values, evaluated),
        symbolic::is_explicit_form(system, symbolic_space),
        numeric::is_explicit_form(evaluated, tolerance, numeric_space),
        reduction_holds(system@.a, system@.k, system@.b, system.b.col_count(), values),
        storage_is_literal(system@.k, values, tolerance),
    ensures
        symbolic_space.mna_state_indices@ == numeric_space.mna_state_indices@,
        text::texts(symbolic_space.states@) == text::texts(numeric_space.states@),
        text::texts(symbolic_space.inputs@) == text::texts(numeric_space.inputs@),
        rows_valued(grid(symbolic_space.a), values),
        rows_valued(grid(symbolic_space.b), values),
        rows_value(grid(symbolic_space.a), values) == numeric_space.a@,
        rows_value(grid(symbolic_space.b), values) == numeric_space.b@,
{
    lemma_matrix_value(system.a, values, evaluated.a);
    lemma_matrix_value(system.k, values, evaluated.k);
    lemma_matrix_value(system.b, values, evaluated.b);
    assert(system.unknowns.len() == system.unknowns@.len());
    law_symbolic_reduction_is_the_numeric_one(
        system@.a,
        system@.k,
        system@.b,
        system.b.col_count(),
        system@.unknowns,
        values,
        tolerance,
    );
}

/// The numeric right-hand side is the value of the symbolic one, where every entry of the input
/// matrix and every source has a value that is a number.
pub proof fn law_numeric_sources_are_the_symbolic_ones<S: Scalar>(
    b_row: Seq<Expr<S>>,
    sources: Seq<Expr<S>>,
    n: nat,
    values: Map<Seq<char>, S>,
)
    requires
        exact::<S>(),
        n <= b_row.len(),
        n <= sources.len(),
        forall|i: int| 0 <= i < n ==> value(#[trigger] b_row[i], values) is Ok,
        forall|i: int|
            0 <= i < n ==> (value(#[trigger] sources[i], values) matches Ok(v)
                && !v.is_undefined()),
    ensures
        value(expanded(b_row, sources, n), values) == Ok::<S, Failure<S>>(
            driven(
                row_values(b_row, values),
                Seq::new(sources.len(), |i: int| source_number(sources[i], values)),
                n,
            ),
        ),
    decreases n,
{
    if n > 0 {
        let less = (n - 1) as nat;
        law_numeric_sources_are_the_symbolic_ones(b_row, sources, less, values);
        assert(value(b_row[n - 1], values) is Ok);
        assert(value(sources[n - 1], values) is Ok);
        law_product_keeps_value(b_row[n - 1], sources[n - 1], values);
        law_sum_keeps_value(
            expanded(b_row, sources, less),
            product(b_row[n - 1], sources[n - 1]),
            values,
        );
    }
}

// Rows without a stamp

/// A row whose first `n` entries are all the literal zero.
pub open spec fn unstamped<S: Scalar>(row: Seq<Expr<S>>, n: nat) -> bool {
    forall|j: int| 0 <= j < n ==> is_zero(#[trigger] row[j])
}

proof fn lemma_pivot_is_not_zero<S: Scalar>(m: Seq<Seq<Expr<S>>>, col: int, from: int)
    requires
        0 <= from <= m.len(),
    ensures
        pivot_row(m, col, from) < m.len() ==> !is_zero(m[pivot_row(m, col, from)][col]),
    decreases m.len() - from,
{
    if from < m.len() {
        lemma_pivot_is_not_zero(m, col, from + 1);
    }
}

proof fn lemma_unstamped_row_stays<S: Scalar>(m: Seq<Seq<Expr<S>>>, col: int, row: int)
    requires
        0 <= col <= row < m.len(),
        unstamped(m[row], m.len()),
    ensures
        symbolic::reduced_from(m, col) is Err,
    decreases m.len() - col,
{
    lemma_pivot_row(m, col, col);
    lemma_pivot_is_not_zero(m, col, col);
    let at = pivot_row(m, col, col);
    if at < m.len() {
        assert(is_zero(m[row][col]));
        assert(at != row);
        lemma_exchanged(m, col, at);
        let s = exchanged(m, col, at);
        let moved = if row == col {
            at
        } else {
            row
        };
        assert(s[moved] == m[row]);
        let next = symbolic::elimination_step(m, col, at);
        assert(next[moved] == m[row]);
        lemma_unstamped_row_stays(next, col + 1, moved);
    }
}

/// A linear system with a row that was never stamped has no solution, whatever the right-hand
/// side is.
pub proof fn law_unstamped_row_is_singular<S: Scalar>(
    coefficients: Seq<Seq<Expr<S>>>,
    rhs: Seq<Seq<Expr<S>>>,
    row: int,
)
    requires
        of_width(coefficients, coefficients.len()),
        0 <= row < coefficients.len(),
        unstamped(coefficients[row], coefficients.len()),
    ensures
        symbolic::solution(coefficients, rhs) is Err,
{
    let m = beside(coefficients, rhs);
    assert(coefficients[row].len() == coefficients.len());
    assert forall|j: int| 0 <= j < m.len() implies is_zero(#[trigger] m[row][j]) by {
        assert(m[row][j] == coefficients[row][j]);
    }
    lemma_unstamped_row_stays(m, 0, row);
}

/// An unknown whose equation was never stamped, such as the voltage of a node that nothing is
/// connected to, is reported: there is no explicit form.
pub proof fn law_unstamped_equation_is_reported<S: Scalar>(
    a: Seq<Seq<Expr<S>>>,
    k: Seq<Seq<Expr<S>>>,
    b: Seq<Seq<Expr<S>>>,
    cols: nat,
    unknowns: Seq<Seq<char>>,
    row: int,
)
    requires
        a.len() == unknowns.len(),
        k.len() == unknowns.len(),
        of_width(a, unknowns.len()),
        of_width(k, unknowns.len()),
        unknowns.len() <= usize::MAX,
        0 <= row < unknowns.len(),
        unstamped(a[row], unknowns.len()),
        unstamped(k[row], unknowns.len()),
    ensures
        symbolic::reduction(a, k, b, cols, unknowns) is Err,
{
    let n = unknowns.len();
    assert(k[row].len() == n);
    assert(!symbolic::is_dynamic(k[row]));
    lemma_rows_that_are(false, k, n);
    lemma_indices(dynamic_rows(k), false, n);
    let algebraic = symbolic::rows_that_are(false, k, n);
    let at = lemma_row_is_listed(dynamic_rows(k), false, n, row);
    let a_aa = symbolic::picked(a, algebraic, algebraic);
    assert forall|j: int| 0 <= j < a_aa.len() implies is_zero(#[trigger] a_aa[at][j]) by {
        let other = algebraic[j];
        assert(other < n);
        assert(a_aa[at][j] == a[row][other as int]);
    }
    let dynamic = symbolic::rows_that_are(true, k, n);
    law_unstamped_row_is_singular(a_aa, symbolic::picked(a, algebraic, dynamic), at);
}

} // verus!
