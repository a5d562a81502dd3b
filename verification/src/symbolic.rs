//! Symbolic state-space reduction and transfer functions.

use crate::expr;
use crate::expr::Expr;
use crate::expression::{exprs, lemma_exprs_push, Expression};
use crate::matrix::{of_width, row_seqs, Matrix};
use crate::scalar::Scalar;
use crate::state_space::{
    algebraic_breakdown, all_below, pick_names, picked_names, singular_algebraic, singular_storage,
    storage_breakdown, Breakdown, StateSpaceError,
};
use crate::system::{grid, MnaSystem};
use crate::text;
use crate::text::copy_texts;
use vstd::prelude::*;

verus! {

// Linear algebra over expressions

/// The entry of a matrix product: the terms that are not zero, added from the left.
pub open spec fn dot<S: Scalar>(row: Seq<Expr<S>>, m: Seq<Seq<Expr<S>>>, col: int, n: nat) -> Expr<S>
    decreases n,
{
    if n == 0 {
        expr::zero()
    } else {
        let before = dot(row, m, col, (n - 1) as nat);
        let term = expr::product(row[n - 1], m[n - 1][col]);
        if expr::is_zero(term) {
            before
        } else {
            expr::sum(before, term)
        }
    }
}

/// The product of two matrices.
pub open spec fn matrix_product<S: Scalar>(
    lhs: Seq<Seq<Expr<S>>>,
    rhs: Seq<Seq<Expr<S>>>,
    cols: nat,
) -> Seq<Seq<Expr<S>>> {
    Seq::new(
        lhs.len(),
        |i: int| Seq::new(cols, |j: int| dot(lhs[i], rhs, j, rhs.len())),
    )
}

/// The sum of two matrices.
pub open spec fn matrix_sum<S: Scalar>(
    lhs: Seq<Seq<Expr<S>>>,
    rhs: Seq<Seq<Expr<S>>>,
) -> Seq<Seq<Expr<S>>> {
    Seq::new(
        lhs.len(),
        |i: int| Seq::new(lhs[i].len(), |j: int| expr::sum(lhs[i][j], rhs[i][j])),
    )
}

/// The difference of two matrices.
pub open spec fn matrix_difference<S: Scalar>(
    lhs: Seq<Seq<Expr<S>>>,
    rhs: Seq<Seq<Expr<S>>>,
) -> Seq<Seq<Expr<S>>> {
    Seq::new(
        lhs.len(),
        |i: int| Seq::new(lhs[i].len(), |j: int| expr::difference(lhs[i][j], rhs[i][j])),
    )
}

/// A matrix with every entry negated.
pub open spec fn matrix_negation<S: Scalar>(m: Seq<Seq<Expr<S>>>) -> Seq<Seq<Expr<S>>> {
    Seq::new(m.len(), |i: int| Seq::new(m[i].len(), |j: int| expr::negation(m[i][j])))
}

/// The chosen rows and columns of a matrix.
pub open spec fn picked<S>(m: Seq<Seq<Expr<S>>>, rows: Seq<usize>, cols: Seq<usize>) -> Seq<
    Seq<Expr<S>>,
> {
    Seq::new(
        rows.len(),
        |i: int| Seq::new(cols.len(), |j: int| m[rows[i] as int][cols[j] as int]),
    )
}

/// The chosen rows of a matrix.
pub open spec fn picked_rows<S>(m: Seq<Seq<Expr<S>>>, rows: Seq<usize>) -> Seq<Seq<Expr<S>>> {
    Seq::new(rows.len(), |i: int| m[rows[i] as int])
}

/// The first row at or after `from` whose entry in a column is not the literal zero, or the
/// number of rows.
pub open spec fn pivot_row<S: Scalar>(m: Seq<Seq<Expr<S>>>, col: int, from: int) -> int
    decreases m.len() - from,
{
    if from < 0 || from >= m.len() {
        m.len() as int
    } else if !expr::is_zero(m[from][col]) {
        from
    } else {
        pivot_row(m, col, from + 1)
    }
}

/// A matrix with two rows exchanged.
pub open spec fn exchanged<T>(m: Seq<Seq<T>>, i: int, j: int) -> Seq<Seq<T>> {
    m.update(i, m[j]).update(j, m[i])
}

/// Which row stands where after an exchange.
pub proof fn lemma_exchanged<T>(m: Seq<Seq<T>>, i: int, j: int)
    requires
        0 <= i < m.len(),
        0 <= j < m.len(),
    ensures
        exchanged(m, i, j).len() == m.len(),
        forall|k: int|
            0 <= k < m.len() ==> #[trigger] exchanged(m, i, j)[k] == m[if k == i {
                j
            } else if k == j {
                i
            } else {
                k
            }],
{
    let first = m.update(i, m[j]);
    assert forall|k: int| 0 <= k < m.len() implies #[trigger] exchanged(m, i, j)[k] == m[if k
        == i {
        j
    } else if k == j {
        i
    } else {
        k
    }] by {
        if k == j {
            assert(first.update(j, m[i])[k] == m[i]);
        } else {
            assert(first.update(j, m[i])[k] == first[k]);
        }
    }
}

/// A pivot row divided by its pivot, from the pivot's column on.
pub open spec fn normalized<S: Scalar>(row: Seq<Expr<S>>, col: int) -> Seq<Expr<S>> {
    let inverse = expr::reciprocal(row[col]);
    Seq::new(
        row.len(),
        |j: int|
            if j >= col {
                expr::product(row[j], inverse)
            } else {
                row[j]
            },
    )
}

/// A row with a multiple of the pivot row subtracted, so that its entry in the pivot's column
/// goes away.
pub open spec fn eliminated<S: Scalar>(
    row: Seq<Expr<S>>,
    pivot: Seq<Expr<S>>,
    col: int,
) -> Seq<Expr<S>> {
    if expr::is_zero(row[col]) {
        row
    } else {
        Seq::new(
            row.len(),
            |j: int|
                if j >= col {
                    expr::difference(row[j], expr::product(row[col], pivot[j]))
                } else {
                    row[j]
                },
        )
    }
}

/// One step of Gauss-Jordan elimination with the pivot in row `at`.
pub open spec fn elimination_step<S: Scalar>(
    m: Seq<Seq<Expr<S>>>,
    col: int,
    at: int,
) -> Seq<Seq<Expr<S>>> {
    let s = exchanged(m, col, at);
    let pivot = normalized(s[col], col);
    Seq::new(
        m.len(),
        |i: int|
            if i == col {
                pivot
            } else {
                eliminated(s[i], pivot, col)
            },
    )
}

/// Gauss-Jordan elimination from a column on; the column where no row has a pivot.
pub open spec fn reduced_from<S: Scalar>(m: Seq<Seq<Expr<S>>>, col: int) -> Result<
    Seq<Seq<Expr<S>>>,
    int,
>
    decreases m.len() - col,
{
    if col < 0 || col >= m.len() {
        Ok(m)
    } else {
        let at = pivot_row(m, col, col);
        if at >= m.len() {
            Err(col)
        } else {
            reduced_from(elimination_step(m, col, at), col + 1)
        }
    }
}

/// Two matrices side by side.
pub open spec fn beside<T>(left: Seq<Seq<T>>, right: Seq<Seq<T>>) -> Seq<Seq<T>> {
    Seq::new(left.len(), |i: int| left[i] + right[i])
}

/// The columns of a matrix from `n` on.
pub open spec fn columns_from<T>(m: Seq<Seq<T>>, n: int) -> Seq<Seq<T>> {
    Seq::new(m.len(), |i: int| m[i].skip(n))
}

/// The solution of `coefficients * x = rhs` for a square matrix of coefficients.
pub open spec fn solution<S: Scalar>(
    coefficients: Seq<Seq<Expr<S>>>,
    rhs: Seq<Seq<Expr<S>>>,
) -> Result<Seq<Seq<Expr<S>>>, int> {
    match reduced_from(beside(coefficients, rhs), 0) {
        Ok(m) => Ok(columns_from(m, coefficients.len() as int)),
        Err(col) => Err(col),
    }
}

/// What a list of rows of expressions is seen as.
spec fn sheet<S: Scalar>(rows: Seq<Vec<Expression<S>>>) -> Seq<Seq<Expr<S>>> {
    Seq::new(rows.len(), |i: int| exprs(rows[i]@))
}

proof fn lemma_sheet_push<S: Scalar>(rows: Seq<Vec<Expression<S>>>, row: Vec<Expression<S>>)
    ensures
        sheet(rows.push(row)) == sheet(rows).push(exprs(row@)),
{
    assert(sheet(rows.push(row)) =~= sheet(rows).push(exprs(row@)));
}

fn rows_of<S: Scalar>(m: &Matrix<Expression<S>>) -> (r: Vec<Vec<Expression<S>>>)
    ensures
        sheet(r@) == grid(*m),
        r@.len() == m.row_count(),
        of_width(sheet(r@), m.col_count()),
{
    let mut rows: Vec<Vec<Expression<S>>> = Vec::new();
    let mut i: usize = 0;
    assert(sheet(rows@) =~= grid(*m).take(0));
    while i < m.rows()
        invariant
            i <= m.row_count(),
            sheet(rows@) == grid(*m).take(i as int),
            rows@.len() == i,
        decreases m.row_count() - i,
    {
        let ghost target = grid(*m)[i as int];
        let mut row: Vec<Expression<S>> = Vec::new();
        let mut j: usize = 0;
        assert(exprs(row@) =~= target.take(0));
        while j < m.cols()
            invariant
                i < m.row_count(),
                j <= m.col_count(),
                target == grid(*m)[i as int],
                exprs(row@) == target.take(j as int),
            decreases m.col_count() - j,
        {
            let ghost before = row@;
            let e = m.at(i, j).copy();
            row.push(e);
            proof {
                lemma_exprs_push(before, e);
                assert(target[j as int] == m@[i as int][j as int]@);
                assert(target.take(j + 1) =~= target.take(j as int).push(target[j as int]));
            }
            j = j + 1;
        }
        assert(target.take(j as int) =~= target);
        let ghost before = rows@;
        rows.push(row);
        proof {
            lemma_sheet_push(before, row);
            assert(grid(*m).take(i + 1) =~= grid(*m).take(i as int).push(grid(*m)[i as int]));
        }
        i = i + 1;
    }
    assert(grid(*m).take(i as int) =~= grid(*m));
    rows
}

fn to_matrix<S: Scalar>(rows: Vec<Vec<Expression<S>>>, cols: usize) -> (r: Matrix<Expression<S>>)
    requires
        of_width(sheet(rows@), cols as nat),
    ensures
        grid(r) == sheet(rows@),
        r.row_count() == rows@.len(),
        r.col_count() == cols,
{
    proof {
        assert forall|i: int| 0 <= i < rows@.len() implies (
        #[trigger] row_seqs(rows@)[i]).len() == cols by {
            assert(sheet(rows@)[i].len() == cols);
        }
    }
    let r = Matrix::from_rows(rows, cols);
    proof {
        assert forall|i: int| 0 <= i < rows@.len() implies (#[trigger] grid(r)[i])
            == sheet(rows@)[i] by {
            assert(sheet(rows@)[i].len() == cols);
            assert(r@[i] == rows@[i]@);
            assert(grid(r)[i] =~= sheet(rows@)[i]);
        }
        assert(grid(r) =~= sheet(rows@));
    }
    r
}

/// A copy of a matrix of expressions.
pub fn copy_matrix<S: Scalar>(m: &Matrix<Expression<S>>) -> (r: Matrix<Expression<S>>)
    ensures
        grid(r) == grid(*m),
        r.row_count() == m.row_count(),
        r.col_count() == m.col_count(),
{
    to_matrix(rows_of(m), m.cols())
}

fn multiply<S: Scalar>(
    lhs: &Vec<Vec<Expression<S>>>,
    rhs: &Vec<Vec<Expression<S>>>,
    cols: usize,
) -> (r: Vec<Vec<Expression<S>>>)
    requires
        of_width(sheet(lhs@), rhs@.len()),
        of_width(sheet(rhs@), cols as nat),
    ensures
        sheet(r@) == matrix_product(sheet(lhs@), sheet(rhs@), cols as nat),
        r@.len() == lhs@.len(),
        of_width(sheet(r@), cols as nat),
{
    let ghost left = sheet(lhs@);
    let ghost right = sheet(rhs@);
    let ghost all = matrix_product(left, right, cols as nat);
    let mut out: Vec<Vec<Expression<S>>> = Vec::new();
    let mut i: usize = 0;
    assert(sheet(out@) =~= all.take(0));
    while i < lhs.len()
        invariant
            i <= lhs@.len(),
            left == sheet(lhs@),
            right == sheet(rhs@),
            of_width(left, rhs@.len()),
            of_width(right, cols as nat),
            all == matrix_product(left, right, cols as nat),
            sheet(out@) == all.take(i as int),
            out@.len() == i,
        decreases lhs@.len() - i,
    {
        let ghost target = all[i as int];
        let mut row: Vec<Expression<S>> = Vec::new();
        let mut j: usize = 0;
        assert(exprs(row@) =~= target.take(0));
        while j < cols
            invariant
                i < lhs@.len(),
                j <= cols,
                left == sheet(lhs@),
                right == sheet(rhs@),
                of_width(left, rhs@.len()),
                of_width(right, cols as nat),
                all == matrix_product(left, right, cols as nat),
                target == all[i as int],
                exprs(row@) == target.take(j as int),
            decreases cols - j,
        {
            let mut total: Expression<S> = Expression::zero();
            let mut k: usize = 0;
            assert(left[i as int].len() == rhs@.len());
            while k < rhs.len()
                invariant
                    i < lhs@.len(),
                    j < cols,
                    k <= rhs@.len(),
                    lhs@[i as int]@.len() == rhs@.len(),
                    left == sheet(lhs@),
                    right == sheet(rhs@),
                    of_width(right, cols as nat),
                    total@ == dot(left[i as int], right, j as int, k as nat),
                decreases rhs@.len() - k,
            {
                assert(right[k as int].len() == cols);
                assert(left[i as int][k as int] == lhs@[i as int]@[k as int]@);
                assert(right[k as int][j as int] == rhs@[k as int]@[j as int]@);
                let term = lhs[i][k].copy().times(rhs[k][j].copy());
                if !term.is_zero() {
                    total = total.plus(term);
                }
                k = k + 1;
            }
            let ghost before = row@;
            row.push(total);
            proof {
                lemma_exprs_push(before, total);
                assert(target.take(j + 1) =~= target.take(j as int).push(target[j as int]));
            }
            j = j + 1;
        }
        assert(target.take(j as int) =~= target);
        let ghost before = out@;
        out.push(row);
        proof {
            lemma_sheet_push(before, row);
            assert(all.take(i + 1) =~= all.take(i as int).push(all[i as int]));
        }
        i = i + 1;
    }
    assert(all.take(i as int) =~= all);
    out
}

/// The three ways in which two matrices of one shape are combined entry by entry.
#[derive(Clone, Copy)]
enum Combine {
    Sum,
    Difference,
    NegationOfFirst,
}

spec fn combined<S: Scalar>(how: Combine, x: Expr<S>, y: Expr<S>) -> Expr<S> {
    match how {
        Combine::Sum => expr::sum(x, y),
        Combine::Difference => expr::difference(x, y),
        Combine::NegationOfFirst => expr::negation(x),
    }
}

spec fn combined_rows<S: Scalar>(how: Combine, x: Seq<Seq<Expr<S>>>, y: Seq<Seq<Expr<S>>>) -> Seq<
    Seq<Expr<S>>,
> {
    Seq::new(
        x.len(),
        |i: int| Seq::new(x[i].len(), |j: int| combined(how, x[i][j], y[i][j])),
    )
}

fn combine<S: Scalar>(
    how: Combine,
    lhs: &Vec<Vec<Expression<S>>>,
    rhs: &Vec<Vec<Expression<S>>>,
    cols: usize,
) -> (r: Vec<Vec<Expression<S>>>)
    requires
        lhs@.len() == rhs@.len(),
        of_width(sheet(lhs@), cols as nat),
        of_width(sheet(rhs@), cols as nat),
    ensures
        sheet(r@) == combined_rows(how, sheet(lhs@), sheet(rhs@)),
        r@.len() == lhs@.len(),
        of_width(sheet(r@), cols as nat),
{
    let ghost left = sheet(lhs@);
    let ghost right = sheet(rhs@);
    let ghost all = combined_rows(how, left, right);
    let mut out: Vec<Vec<Expression<S>>> = Vec::new();
    let mut i: usize = 0;
    assert(sheet(out@) =~= all.take(0));
    while i < lhs.len()
        invariant
            i <= lhs@.len() == rhs@.len(),
            left == sheet(lhs@),
            right == sheet(rhs@),
            of_width(left, cols as nat),
            of_width(right, cols as nat),
            all == combined_rows(how, left, right),
            sheet(out@) == all.take(i as int),
            out@.len() == i,
        decreases lhs@.len() - i,
    {
        let ghost target = all[i as int];
        assert(left[i as int].len() == cols);
        assert(right[i as int].len() == cols);
        let mut row: Vec<Expression<S>> = Vec::new();
        let mut j: usize = 0;
        assert(exprs(row@) =~= target.take(0));
        while j < cols
            invariant
                i < lhs@.len() == rhs@.len(),
                j <= cols,
                lhs@[i as int]@.len() == cols,
                rhs@[i as int]@.len() == cols,
                left == sheet(lhs@),
                right == sheet(rhs@),
                all == combined_rows(how, left, right),
                target == all[i as int],
                target.len() == cols,
                exprs(row@) == target.take(j as int),
            decreases cols - j,
        {
            assert(left[i as int][j as int] == lhs@[i as int]@[j as int]@);
            assert(right[i as int][j as int] == rhs@[i as int]@[j as int]@);
            let e = match how {
                Combine::Sum => lhs[i][j].copy().plus(rhs[i][j].copy()),
                Combine::Difference => lhs[i][j].copy().plus(rhs[i][j].copy().negated()),
                Combine::NegationOfFirst => lhs[i][j].copy().negated(),
            };
            let ghost before = row@;
            row.push(e);
            proof {
                lemma_exprs_push(before, e);
                assert(target.take(j + 1) =~= target.take(j as int).push(target[j as int]));
            }
            j = j + 1;
        }
        assert(target.take(j as int) =~= target);
        let ghost before = out@;
        out.push(row);
        proof {
            lemma_sheet_push(before, row);
            assert(all.take(i + 1) =~= all.take(i as int).push(all[i as int]));
        }
        i = i + 1;
    }
    assert(all.take(i as int) =~= all);
    out
}

fn extract<S: Scalar>(
    m: &Matrix<Expression<S>>,
    rows: &Vec<usize>,
    cols: &Vec<usize>,
) -> (r: Vec<Vec<Expression<S>>>)
    requires
        forall|i: int| 0 <= i < rows@.len() ==> (#[trigger] rows@[i]) < m.row_count(),
        forall|i: int| 0 <= i < cols@.len() ==> (#[trigger] cols@[i]) < m.col_count(),
    ensures
        sheet(r@) == picked(grid(*m), rows@, cols@),
        r@.len() == rows@.len(),
        of_width(sheet(r@), cols@.len()),
{
    let ghost all = picked(grid(*m), rows@, cols@);
    let mut out: Vec<Vec<Expression<S>>> = Vec::new();
    let mut i: usize = 0;
    assert(sheet(out@) =~= all.take(0));
    while i < rows.len()
        invariant
            i <= rows@.len(),
            forall|i: int| 0 <= i < rows@.len() ==> (#[trigger] rows@[i]) < m.row_count(),
            forall|i: int| 0 <= i < cols@.len() ==> (#[trigger] cols@[i]) < m.col_count(),
            all == picked(grid(*m), rows@, cols@),
            sheet(out@) == all.take(i as int),
            out@.len() == i,
        decreases rows@.len() - i,
    {
        let ghost target = all[i as int];
        let mut row: Vec<Expression<S>> = Vec::new();
        let mut j: usize = 0;
        assert(exprs(row@) =~= target.take(0));
        while j < cols.len()
            invariant
                i < rows@.len(),
                j <= cols@.len(),
                forall|i: int| 0 <= i < rows@.len() ==> (#[trigger] rows@[i]) < m.row_count(),
                forall|i: int| 0 <= i < cols@.len() ==> (#[trigger] cols@[i]) < m.col_count(),
                all == picked(grid(*m), rows@, cols@),
                target == all[i as int],
                exprs(row@) == target.take(j as int),
            decreases cols@.len() - j,
        {
            let e = m.at(rows[i], cols[j]).copy();
            let ghost before = row@;
            row.push(e);
            proof {
                lemma_exprs_push(before, e);
                assert(target[j as int] == grid(*m)[rows@[i as int] as int][cols@[j as int] as int]);
                assert(target.take(j + 1) =~= target.take(j as int).push(target[j as int]));
            }
            j = j + 1;
        }
        assert(target.take(j as int) =~= target);
        let ghost before = out@;
        out.push(row);
        proof {
            lemma_sheet_push(before, row);
            assert(all.take(i + 1) =~= all.take(i as int).push(all[i as int]));
        }
        i = i + 1;
    }
    assert(all.take(i as int) =~= all);
    out
}

fn extract_rows<S: Scalar>(m: &Matrix<Expression<S>>, rows: &Vec<usize>) -> (r: Vec<
    Vec<Expression<S>>,
>)
    requires
        forall|i: int| 0 <= i < rows@.len() ==> (#[trigger] rows@[i]) < m.row_count(),
    ensures
        sheet(r@) == picked_rows(grid(*m), rows@),
        r@.len() == rows@.len(),
        of_width(sheet(r@), m.col_count()),
{
    let mut cols: Vec<usize> = Vec::new();
    let mut j: usize = 0;
    while j < m.cols()
        invariant
            j <= m.col_count(),
            cols@.len() == j,
            forall|k: int| 0 <= k < j ==> (#[trigger] cols@[k]) == k,
        decreases m.col_count() - j,
    {
        cols.push(j);
        j = j + 1;
    }
    let r = extract(m, rows, &cols);
    proof {
        assert forall|i: int| 0 <= i < rows@.len() implies picked(grid(*m), rows@, cols@)[i]
            == #[trigger] picked_rows(grid(*m), rows@)[i] by {
            assert(picked(grid(*m), rows@, cols@)[i] =~= picked_rows(grid(*m), rows@)[i]);
        }
        assert(sheet(r@) =~= picked_rows(grid(*m), rows@));
    }
    r
}

fn normalized_row<S: Scalar>(row: &Vec<Expression<S>>, col: usize) -> (r: Vec<Expression<S>>)
    requires
        col < row@.len(),
    ensures
        exprs(r@) == normalized(exprs(row@), col as int),
{
    let ghost source = exprs(row@);
    let ghost target = normalized(source, col as int);
    assert(source[col as int] == row@[col as int]@);
    let inverse = row[col].copy().reciprocal();
    let mut out: Vec<Expression<S>> = Vec::new();
    let mut j: usize = 0;
    assert(exprs(out@) =~= target.take(0));
    while j < row.len()
        invariant
            col < row@.len(),
            j <= row@.len(),
            source == exprs(row@),
            target == normalized(source, col as int),
            inverse@ == expr::reciprocal(source[col as int]),
            exprs(out@) == target.take(j as int),
        decreases row@.len() - j,
    {
        assert(source[j as int] == row@[j as int]@);
        let e = if j >= col {
            row[j].copy().times(inverse.copy())
        } else {
            row[j].copy()
        };
        let ghost before = out@;
        out.push(e);
        proof {
            lemma_exprs_push(before, e);
            assert(target.take(j + 1) =~= target.take(j as int).push(target[j as int]));
        }
        j = j + 1;
    }
    assert(target.take(j as int) =~= target);
    out
}

fn eliminated_row<S: Scalar>(
    row: &Vec<Expression<S>>,
    pivot: &Vec<Expression<S>>,
    col: usize,
) -> (r: Vec<Expression<S>>)
    requires
        col < row@.len() == pivot@.len(),
    ensures
        exprs(r@) == eliminated(exprs(row@), exprs(pivot@), col as int),
{
    let ghost source = exprs(row@);
    let ghost top = exprs(pivot@);
    let ghost target = eliminated(source, top, col as int);
    assert(source[col as int] == row@[col as int]@);
    if row[col].is_zero() {
        return Expression::copy_list(row);
    }
    let mut out: Vec<Expression<S>> = Vec::new();
    let mut j: usize = 0;
    assert(exprs(out@) =~= target.take(0));
    while j < row.len()
        invariant
            col < row@.len() == pivot@.len(),
            j <= row@.len(),
            source == exprs(row@),
            top == exprs(pivot@),
            target == eliminated(source, top, col as int),
            !expr::is_zero(source[col as int]),
            exprs(out@) == target.take(j as int),
        decreases row@.len() - j,
    {
        assert(source[j as int] == row@[j as int]@);
        assert(source[col as int] == row@[col as int]@);
        assert(top[j as int] == pivot@[j as int]@);
        let e = if j >= col {
            row[j].copy().plus(row[col].copy().times(pivot[j].copy()).negated())
        } else {
            row[j].copy()
        };
        let ghost before = out@;
        out.push(e);
        proof {
            lemma_exprs_push(before, e);
            assert(target.take(j + 1) =~= target.take(j as int).push(target[j as int]));
        }
        j = j + 1;
    }
    assert(target.take(j as int) =~= target);
    out
}

fn step<S: Scalar>(m: &Vec<Vec<Expression<S>>>, col: usize, at: usize, width: usize) -> (r: Vec<
    Vec<Expression<S>>,
>)
    requires
        col < m@.len(),
        at < m@.len(),
        col < width,
        of_width(sheet(m@), width as nat),
    ensures
        sheet(r@) == elimination_step(sheet(m@), col as int, at as int),
        r@.len() == m@.len(),
        of_width(sheet(r@), width as nat),
{
    let ghost source = sheet(m@);
    let ghost swapped = exchanged(source, col as int, at as int);
    let ghost all = elimination_step(source, col as int, at as int);
    assert(source[at as int].len() == width);
    let pivot = normalized_row(&m[at], col);
    assert(exprs(pivot@).len() == pivot@.len());
    proof {
        lemma_exchanged(source, col as int, at as int);
    }
    let mut out: Vec<Vec<Expression<S>>> = Vec::new();
    let mut i: usize = 0;
    assert(sheet(out@) =~= all.take(0));
    while i < m.len()
        invariant
            i <= m@.len(),
            col < m@.len(),
            at < m@.len(),
            col < width,
            source == sheet(m@),
            of_width(source, width as nat),
            swapped == exchanged(source, col as int, at as int),
            all == elimination_step(source, col as int, at as int),
            exprs(pivot@) == normalized(swapped[col as int], col as int),
            pivot@.len() == width,
            sheet(out@) == all.take(i as int),
            out@.len() == i,
            of_width(sheet(out@), width as nat),
        decreases m@.len() - i,
    {
        let row = if i == col {
            Expression::copy_list(&pivot)
        } else {
            let from: usize = if i == at {
                col
            } else {
                i
            };
            proof {
                lemma_exchanged(source, col as int, at as int);
            }
            assert(source[from as int].len() == width);
            eliminated_row(&m[from], &pivot, col)
        };
        let ghost before = out@;
        out.push(row);
        proof {
            lemma_sheet_push(before, row);
            assert(exprs(row@) == all[i as int]);
            assert(all.take(i + 1) =~= all.take(i as int).push(all[i as int]));
            assert forall|k: int| 0 <= k < out@.len() implies (
            #[trigger] sheet(out@)[k]).len() == width by {
                if k < i {
                    assert(sheet(out@)[k] == sheet(before)[k]);
                }
            }
        }
        i = i + 1;
    }
    assert(all.take(i as int) =~= all);
    out
}

fn solve_rows<S: Scalar>(
    coefficients: &Vec<Vec<Expression<S>>>,
    rhs: &Vec<Vec<Expression<S>>>,
    cols: usize,
) -> (r: Result<Vec<Vec<Expression<S>>>, usize>)
    requires
        coefficients@.len() == rhs@.len(),
        of_width(sheet(coefficients@), coefficients@.len()),
        of_width(sheet(rhs@), cols as nat),
    ensures
        match r {
            Ok(rows) => {
                &&& solution(sheet(coefficients@), sheet(rhs@)) == Ok::<Seq<Seq<Expr<S>>>, int>(
                    sheet(rows@),
                )
                &&& rows@.len() == coefficients@.len()
                &&& of_width(sheet(rows@), cols as nat)
            },
            Err(col) => solution(sheet(coefficients@), sheet(rhs@)) == Err::<
                Seq<Seq<Expr<S>>>,
                int,
            >(col as int) && col < coefficients@.len(),
        },
{
    let n: usize = coefficients.len();
    let ghost left = sheet(coefficients@);
    let ghost right = sheet(rhs@);
    let ghost start = beside(left, right);
    let mut m: Vec<Vec<Expression<S>>> = Vec::new();
    let mut i: usize = 0;
    assert(sheet(m@) =~= start.take(0));
    let ghost width: nat = (n + cols) as nat;
    while i < n
        invariant
            i <= n == coefficients@.len() == rhs@.len(),
            left == sheet(coefficients@),
            right == sheet(rhs@),
            start == beside(left, right),
            of_width(left, n as nat),
            of_width(right, cols as nat),
            width == n + cols,
            sheet(m@) == start.take(i as int),
            m@.len() == i,
            of_width(sheet(m@), width),
            i > 0 ==> width <= usize::MAX,
        decreases n - i,
    {
        let mut row = Expression::copy_list(&coefficients[i]);
        let mut more = Expression::copy_list(&rhs[i]);
        let ghost first = row@;
        let ghost second = more@;
        row.append(&mut more);
        let ghost before = m@;
        proof {
            assert(exprs(row@) =~= exprs(first) + exprs(second));
            assert(exprs(row@) == start[i as int]);
            assert(left[i as int].len() == n);
            assert(right[i as int].len() == cols);
            assert(exprs(row@).len() == row@.len());
            assert(row.len() == row@.len());
        }
        m.push(row);
        proof {
            lemma_sheet_push(before, row);
            assert(start.take(i + 1) =~= start.take(i as int).push(start[i as int]));
            assert forall|k: int| 0 <= k < m@.len() implies (#[trigger] sheet(m@)[k]).len()
                == width by {
                if k < i {
                    assert(sheet(m@)[k] == sheet(before)[k]);
                }
            }
        }
        i = i + 1;
    }
    assert(start.take(i as int) =~= start);
    let mut col: usize = 0;
    while col < n
        invariant
            col <= n == m@.len() == coefficients@.len(),
            n > 0 ==> width <= usize::MAX,
            width == n + cols,
            of_width(sheet(m@), width),
            left == sheet(coefficients@),
            right == sheet(rhs@),
            start == beside(left, right),
            reduced_from(sheet(m@), col as int) == reduced_from(start, 0),
        decreases n - col,
    {
        let ghost current = sheet(m@);
        proof {
            assert forall|k: int| 0 <= k < n implies (#[trigger] m@[k])@.len() == width by {
                assert(current[k].len() == width);
            }
        }
        let mut at: usize = col;
        while at < n && m[at][col].is_zero()
            invariant
                col <= at <= n == m@.len(),
                col < n,
                width == n + cols,
                current == sheet(m@),
                of_width(current, width),
                forall|k: int| 0 <= k < n ==> (#[trigger] m@[k])@.len() == width,
                pivot_row(current, col as int, at as int) == pivot_row(
                    current,
                    col as int,
                    col as int,
                ),
            decreases n - at,
        {
            assert(current[at as int][col as int] == m@[at as int]@[col as int]@);
            at = at + 1;
        }
        if at >= n {
            return Err(col);
        }
        assert(current[at as int][col as int] == m@[at as int]@[col as int]@);
        m = step(&m, col, at, n + cols);
        col = col + 1;
    }
    let ghost done = sheet(m@);
    let ghost target = columns_from(done, n as int);
    let mut out: Vec<Vec<Expression<S>>> = Vec::new();
    let mut i: usize = 0;
    assert(sheet(out@) =~= target.take(0));
    while i < n
        invariant
            i <= n == m@.len(),
            done == sheet(m@),
            width == n + cols,
            of_width(done, width),
            target == columns_from(done, n as int),
            sheet(out@) == target.take(i as int),
            out@.len() == i,
            of_width(sheet(out@), cols as nat),
        decreases n - i,
    {
        let ghost tail = target[i as int];
        assert(done[i as int].len() == width);
        let mut row: Vec<Expression<S>> = Vec::new();
        let mut j: usize = n;
        assert(exprs(row@) =~= tail.take(0));
        while j < m[i].len()
            invariant
                i < n == m@.len(),
                n <= j <= m@[i as int]@.len() == width,
                done == sheet(m@),
                target == columns_from(done, n as int),
                tail == target[i as int],
                exprs(row@) == tail.take(j - n),
            decreases m@[i as int]@.len() - j,
        {
            let e = m[i][j].copy();
            let ghost before = row@;
            row.push(e);
            proof {
                lemma_exprs_push(before, e);
                assert(tail[j - n] == done[i as int][j as int]);
                assert(done[i as int][j as int] == m@[i as int]@[j as int]@);
                assert(tail.take(j - n + 1) =~= tail.take(j - n).push(tail[j - n]));
            }
            j = j + 1;
        }
        assert(tail.take(j - n) =~= tail);
        let ghost before = out@;
        out.push(row);
        proof {
            lemma_sheet_push(before, row);
            assert(target.take(i + 1) =~= target.take(i as int).push(target[i as int]));
            assert forall|k: int| 0 <= k < out@.len() implies (
            #[trigger] sheet(out@)[k]).len() == cols by {
                if k < i {
                    assert(sheet(out@)[k] == sheet(before)[k]);
                }
            }
        }
        i = i + 1;
    }
    assert(target.take(i as int) =~= target);
    Ok(out)
}

/// Solves `coefficients * x = rhs` by Gauss-Jordan elimination, symbolically.
///
/// Pivoting is structural: the first row (from the current column downward) whose entry is
/// not the literal expression `0`. On failure, returns the column that had no such candidate.
pub fn solve<S: Scalar>(
    coefficients: &Matrix<Expression<S>>,
    rhs: &Matrix<Expression<S>>,
) -> (r: Result<Matrix<Expression<S>>, usize>)
    ensures
        coefficients.col_count() != coefficients.row_count() || rhs.row_count()
            != coefficients.row_count() ==> r == Err::<Matrix<Expression<S>>, usize>(0),
        coefficients.col_count() == coefficients.row_count() && rhs.row_count()
            == coefficients.row_count() ==> match r {
            Ok(m) => {
                &&& solution(grid(*coefficients), grid(*rhs)) == Ok::<Seq<Seq<Expr<S>>>, int>(
                    grid(m),
                )
                &&& m.row_count() == rhs.row_count()
                &&& m.col_count() == rhs.col_count()
            },
            Err(col) => solution(grid(*coefficients), grid(*rhs)) == Err::<
                Seq<Seq<Expr<S>>>,
                int,
            >(col as int),
        },
{
    if coefficients.cols() != coefficients.rows() || rhs.rows() != coefficients.rows() {
        return Err(0);
    }
    let left = rows_of(coefficients);
    let right = rows_of(rhs);
    match solve_rows(&left, &right, rhs.cols()) {
        Ok(rows) => Ok(to_matrix(rows, rhs.cols())),
        Err(col) => Err(col),
    }
}

// State-space reduction

/// A row of the storage matrix with an entry that is not the literal zero.
pub open spec fn is_dynamic<S: Scalar>(row: Seq<Expr<S>>) -> bool {
    exists|j: int| 0 <= j < row.len() && !expr::is_zero(#[trigger] row[j])
}

/// The rows among the first `n` that are dynamic, or that are not.
pub open spec fn rows_that_are<S: Scalar>(dynamic: bool, k: Seq<Seq<Expr<S>>>, n: nat) -> Seq<
    usize,
>
    decreases n,
{
    if n == 0 {
        Seq::empty()
    } else {
        let before = rows_that_are(dynamic, k, (n - 1) as nat);
        if is_dynamic(k[n - 1]) == dynamic {
            before.push((n - 1) as usize)
        } else {
            before
        }
    }
}

/// The reduced dynamics and input matrices after the algebraic rows have been eliminated, or
/// the algebraic row without a pivot.
pub open spec fn schur_complement<S: Scalar>(
    a: Seq<Seq<Expr<S>>>,
    b: Seq<Seq<Expr<S>>>,
    cols: nat,
    dynamic: Seq<usize>,
    algebraic: Seq<usize>,
) -> Result<(Seq<Seq<Expr<S>>>, Seq<Seq<Expr<S>>>), int> {
    let a_ss = picked(a, dynamic, dynamic);
    let b_s = picked_rows(b, dynamic);
    if algebraic.len() == 0 {
        Ok((a_ss, b_s))
    } else {
        let a_sa = picked(a, dynamic, algebraic);
        let a_as = picked(a, algebraic, dynamic);
        let a_aa = picked(a, algebraic, algebraic);
        let b_a = picked_rows(b, algebraic);
        match solution(a_aa, a_as) {
            Err(pivot) => Err(pivot),
            Ok(solved_as) => match solution(a_aa, b_a) {
                Err(pivot) => Err(pivot),
                Ok(solved_b) => Ok(
                    (
                        matrix_difference(a_ss, matrix_product(a_sa, solved_as, dynamic.len())),
                        matrix_difference(b_s, matrix_product(a_sa, solved_b, cols)),
                    ),
                ),
            },
        }
    }
}

/// The matrices of the explicit form `dot(x) = A*x + B*u`, with the indices of the dynamic
/// variables, or why there is none.
pub open spec fn reduction<S: Scalar>(
    a: Seq<Seq<Expr<S>>>,
    k: Seq<Seq<Expr<S>>>,
    b: Seq<Seq<Expr<S>>>,
    cols: nat,
    unknowns: Seq<Seq<char>>,
) -> Result<(Seq<Seq<Expr<S>>>, Seq<Seq<Expr<S>>>, Seq<usize>), Breakdown> {
    let dynamic = rows_that_are(true, k, unknowns.len());
    let algebraic = rows_that_are(false, k, unknowns.len());
    let k_ss = picked(k, dynamic, dynamic);
    if dynamic.len() == 0 {
        Err(Breakdown::NoDynamicVariables)
    } else {
        match schur_complement(a, b, cols, dynamic, algebraic) {
            Err(pivot) => Err(algebraic_breakdown(unknowns, algebraic, pivot)),
            Ok((a_reduced, b_reduced)) => match solution(k_ss, matrix_negation(a_reduced)) {
                Err(pivot) => Err(storage_breakdown(unknowns, dynamic, pivot)),
                Ok(state_a) => match solution(k_ss, b_reduced) {
                    Err(pivot) => Err(storage_breakdown(unknowns, dynamic, pivot)),
                    Ok(state_b) => Ok((state_a, state_b, dynamic)),
                },
            },
        }
    }
}

/// Explicit symbolic state-space system `dot(x) = A*x + B*u`.
///
/// Entries are kept as expressions in terms of component and parameter symbols only; they
/// never contain the Laplace variable `s`.
#[derive(Debug, PartialEq)]
pub struct SymbolicStateSpace<S> {
    /// Dynamics matrix, in terms of component symbols only.
    pub a: Matrix<Expression<S>>,
    /// Input matrix, in terms of component symbols only.
    pub b: Matrix<Expression<S>>,
    /// Dynamic variable names (capacitor voltages / inductor currents).
    pub states: Vec<String>,
    /// Independent input names.
    pub inputs: Vec<String>,
    /// Indices of the dynamic variables in the original MNA vector.
    pub mna_state_indices: Vec<usize>,
}

impl<S: Scalar> SymbolicStateSpace<S> {
    /// The matrices have the sizes that the states and inputs ask for.
    pub open spec fn well_formed(&self) -> bool {
        &&& self.a.row_count() == self.states@.len()
        &&& self.a.col_count() == self.states@.len()
        &&& self.b.row_count() == self.states@.len()
        &&& self.b.col_count() == self.inputs@.len()
    }
}

fn select_rows<S: Scalar>(dynamic: bool, k: &Matrix<Expression<S>>) -> (r: Vec<usize>)
    ensures
        r@ == rows_that_are(dynamic, grid(*k), k.row_count()),
        all_below(r@, k.row_count()),
{
    let ghost rows = grid(*k);
    let mut out: Vec<usize> = Vec::new();
    let mut i: usize = 0;
    while i < k.rows()
        invariant
            i <= k.row_count(),
            rows == grid(*k),
            out@ == rows_that_are(dynamic, rows, i as nat),
            all_below(out@, i as nat),
        decreases k.row_count() - i,
    {
        let mut found = false;
        let mut j: usize = 0;
        while j < k.cols()
            invariant
                i < k.row_count(),
                j <= k.col_count(),
                rows == grid(*k),
                found == (exists|c: int| 0 <= c < j && !expr::is_zero(#[trigger] rows[i as int][c])),
            decreases k.col_count() - j,
        {
            assert(rows[i as int][j as int] == k@[i as int][j as int]@);
            if !k.at(i, j).is_zero() {
                assert(!expr::is_zero(rows[i as int][j as int]));
                found = true;
            }
            j = j + 1;
        }
        assert(found == is_dynamic(rows[i as int]));
        if found == dynamic {
            out.push(i);
        }
        i = i + 1;
    }
    out
}

fn reduce_algebraic<S: Scalar>(
    a: &Matrix<Expression<S>>,
    b: &Matrix<Expression<S>>,
    dynamic: &Vec<usize>,
    algebraic: &Vec<usize>,
) -> (r: Result<(Vec<Vec<Expression<S>>>, Vec<Vec<Expression<S>>>), usize>)
    requires
        a.col_count() == a.row_count(),
        b.row_count() == a.row_count(),
        all_below(dynamic@, a.row_count()),
        all_below(algebraic@, a.row_count()),
    ensures
        match r {
            Ok((a_reduced, b_reduced)) => {
                &&& schur_complement(
                    grid(*a),
                    grid(*b),
                    b.col_count(),
                    dynamic@,
                    algebraic@,
                ) == Ok::<(Seq<Seq<Expr<S>>>, Seq<Seq<Expr<S>>>), int>(
                    (sheet(a_reduced@), sheet(b_reduced@)),
                )
                &&& a_reduced@.len() == dynamic@.len()
                &&& b_reduced@.len() == dynamic@.len()
                &&& of_width(sheet(a_reduced@), dynamic@.len())
                &&& of_width(sheet(b_reduced@), b.col_count())
            },
            Err(pivot) => schur_complement(
                grid(*a),
                grid(*b),
                b.col_count(),
                dynamic@,
                algebraic@,
            ) == Err::<(Seq<Seq<Expr<S>>>, Seq<Seq<Expr<S>>>), int>(pivot as int) && pivot
                < algebraic@.len(),
        },
{
    let a_ss = extract(a, dynamic, dynamic);
    let b_s = extract_rows(b, dynamic);
    if algebraic.len() == 0 {
        return Ok((a_ss, b_s));
    }
    let a_sa = extract(a, dynamic, algebraic);
    let a_as = extract(a, algebraic, dynamic);
    let a_aa = extract(a, algebraic, algebraic);
    let b_a = extract_rows(b, algebraic);
    let solved_as = match solve_rows(&a_aa, &a_as, dynamic.len()) {
        Ok(rows) => rows,
        Err(pivot) => {
            return Err(pivot);
        },
    };
    let solved_b = match solve_rows(&a_aa, &b_a, b.cols()) {
        Ok(rows) => rows,
        Err(pivot) => {
            return Err(pivot);
        },
    };
    let a_product = multiply(&a_sa, &solved_as, dynamic.len());
    let b_product = multiply(&a_sa, &solved_b, b.cols());
    let a_reduced = combine(Combine::Difference, &a_ss, &a_product, dynamic.len());
    let b_reduced = combine(Combine::Difference, &b_s, &b_product, b.cols());
    proof {
        assert(sheet(a_reduced@) =~~= matrix_difference(sheet(a_ss@), sheet(a_product@)));
        assert(sheet(b_reduced@) =~~= matrix_difference(sheet(b_s@), sheet(b_product@)));
    }
    Ok((a_reduced, b_reduced))
}

/// The dimensions of a system's matrices agree with its unknowns.
pub open spec fn dimensions_agree<S: Scalar>(system: MnaSystem<S>) -> bool {
    let order = system.unknowns@.len();
    &&& system.a.row_count() == order
    &&& system.a.col_count() == order
    &&& system.k.row_count() == order
    &&& system.k.col_count() == order
    &&& system.b.row_count() == order
}

/// `space` is the explicit form of a descriptor system: its matrices are those of the reduction,
/// and its states are named after the unknowns that are left.
pub open spec fn is_explicit_form<S: Scalar>(
    system: MnaSystem<S>,
    space: SymbolicStateSpace<S>,
) -> bool {
    &&& reduction(
        system@.a,
        system@.k,
        system@.b,
        system.b.col_count(),
        system@.unknowns,
    ) == Ok::<(Seq<Seq<Expr<S>>>, Seq<Seq<Expr<S>>>, Seq<usize>), Breakdown>(
        (grid(space.a), grid(space.b), space.mna_state_indices@),
    )
    &&& text::texts(space.states@) == picked_names(system@.unknowns, space.mna_state_indices@)
    &&& text::texts(space.inputs@) == system@.inputs
    &&& space.a.row_count() == space.states@.len()
    &&& space.a.col_count() == space.states@.len()
    &&& space.b.row_count() == space.states@.len()
    &&& space.b.col_count() == system.b.col_count()
}

impl<S: Scalar> MnaSystem<S> {
    /// Eliminates algebraic variables with a Schur complement, entirely symbolically:
    /// component values are never evaluated to numbers.
    ///
    /// Dynamic variables are the indices whose row in `K` is nonzero. Pivoting is
    /// *structural*: at each elimination step the first candidate row whose entry is not the
    /// literal expression `0` is taken.
    pub fn to_symbolic_state_space(&self) -> (r: Result<SymbolicStateSpace<S>, StateSpaceError>)
        ensures
            !dimensions_agree(*self) ==> (r matches Err(error) && error@
                == Breakdown::InconsistentDimensions),
            r matches Ok(space) ==> {
                &&& space.states@.len() == space.mna_state_indices@.len()
                &&& forall|i: int|
                    0 <= i < space.states@.len() ==> space.mna_state_indices@[i]
                        < self.unknowns@.len() && (#[trigger] space.states@[i])@
                        == self.unknowns@[space.mna_state_indices@[i] as int]@
            },
            dimensions_agree(*self) ==> match r {
                Ok(space) => {
                    &&& is_explicit_form(*self, space)
                    &&& self.well_formed() ==> space.well_formed()
                },
                Err(error) => reduction(
                    self@.a,
                    self@.k,
                    self@.b,
                    self.b.col_count(),
                    self@.unknowns,
                ) == Err::<(Seq<Seq<Expr<S>>>, Seq<Seq<Expr<S>>>, Seq<usize>), Breakdown>(error@),
            },
    {
        let order: usize = self.unknowns.len();
        if self.a.rows() != order || self.a.cols() != order || self.k.rows() != order
            || self.k.cols() != order || self.b.rows() != order {
            return Err(StateSpaceError::InconsistentDimensions);
        }
        let dynamic = select_rows(true, &self.k);
        if dynamic.len() == 0 {
            return Err(StateSpaceError::NoDynamicVariables);
        }
        let algebraic = select_rows(false, &self.k);
        let k_ss = extract(&self.k, &dynamic, &dynamic);
        let (a_reduced, b_reduced) = match reduce_algebraic(
            &self.a,
            &self.b,
            &dynamic,
            &algebraic,
        ) {
            Ok(pair) => pair,
            Err(pivot) => {
                return Err(singular_algebraic(&self.unknowns, &algebraic, pivot));
            },
        };
        let negative_a = combine(Combine::NegationOfFirst, &a_reduced, &a_reduced, dynamic.len());
        proof {
            assert(sheet(negative_a@) =~~= matrix_negation(sheet(a_reduced@)));
        }
        let state_a = match solve_rows(&k_ss, &negative_a, dynamic.len()) {
            Ok(rows) => rows,
            Err(pivot) => {
                return Err(singular_storage(&self.unknowns, &dynamic, pivot));
            },
        };
        let state_b = match solve_rows(&k_ss, &b_reduced, self.b.cols()) {
            Ok(rows) => rows,
            Err(pivot) => {
                return Err(singular_storage(&self.unknowns, &dynamic, pivot));
            },
        };
        let states = pick_names(&self.unknowns, &dynamic);
        let inputs = copy_texts(&self.inputs);
        proof {
            assert(text::texts(states@).len() == states@.len());
            assert(text::texts(inputs@).len() == inputs@.len());
            assert(text::texts(self.inputs@).len() == self.inputs@.len());
        }
        Ok(
            SymbolicStateSpace {
                a: to_matrix(state_a, dynamic.len()),
                b: to_matrix(state_b, self.b.cols()),
                states,
                inputs,
                mna_state_indices: dynamic,
            },
        )
    }
}

// Transfer functions

/// A rational transfer function `G(s) = numerator(s) / denominator(s)` between one reduced
/// state variable and one independent source.
///
/// Coefficients are expressions in terms of component symbols only; `s` is the polynomial
/// variable the coefficient lists are indexed against.
#[derive(Debug, PartialEq)]
pub struct SymbolicTransferFunction<S> {
    /// Numerator coefficients, descending powers of `s`; as many as there are states.
    pub numerator: Vec<Expression<S>>,
    /// Denominator (characteristic polynomial `det(sI - A)`) coefficients, descending powers
    /// of `s`, leading coefficient `1`; one more than there are states.
    pub denominator: Vec<Expression<S>>,
    /// The chosen output state name.
    pub output: String,
    /// The chosen independent source name.
    pub input: String,
}

/// Error returned when deriving a transfer function from a [`SymbolicStateSpace`].
#[derive(Debug, Clone, Copy, PartialEq, Eq)]
pub enum TransferFunctionError {
    /// The requested output state index is out of range.
    InvalidOutputIndex(usize),
    /// The requested input index is out of range.
    InvalidInputIndex(usize),
}

impl TransferFunctionError {
    /// The message for a reader.
    pub fn to_text(&self) -> (r: String)
        ensures
            r@ == match *self {
                TransferFunctionError::InvalidOutputIndex(index) => "state index "@
                    + text::decimal(index as nat) + " is out of range"@,
                TransferFunctionError::InvalidInputIndex(index) => "input index "@
                    + text::decimal(index as nat) + " is out of range"@,
            },
    {
        match self {
            TransferFunctionError::InvalidOutputIndex(index) => text::concat3(
                "state index ",
                text::number_text(*index).as_str(),
                " is out of range",
            ),
            TransferFunctionError::InvalidInputIndex(index) => text::concat3(
                "input index ",
                text::number_text(*index).as_str(),
                " is out of range",
            ),
        }
    }
}

/// A scalar multiple of the identity matrix, entry by entry.
pub open spec fn scaled_identity<S: Scalar>(n: nat, scale: Expr<S>) -> Seq<Seq<Expr<S>>> {
    Seq::new(
        n,
        |i: int|
            Seq::new(
                n,
                |j: int|
                    expr::product(
                        if i == j {
                            expr::one()
                        } else {
                            expr::zero()
                        },
                        scale,
                    ),
            ),
    )
}

/// The sum of the diagonal entries of the first `n` rows, zeros left out.
pub open spec fn trace<S: Scalar>(m: Seq<Seq<Expr<S>>>, n: nat) -> Expr<S>
    decreases n,
{
    if n == 0 {
        expr::zero()
    } else {
        let before = trace(m, (n - 1) as nat);
        if expr::is_zero(m[n - 1][n - 1]) {
            before
        } else {
            expr::sum(before, m[n - 1][n - 1])
        }
    }
}

/// A square matrix of zeros.
pub open spec fn square_zeros<S: Scalar>(n: nat) -> Seq<Seq<Expr<S>>> {
    Seq::new(n, |i: int| Seq::new(n, |j: int| expr::zero()))
}

/// The matrix coefficient `M_k` of the Faddeev-LeVerrier recursion:
/// `M_0 = 0` and `M_k = A*M_(k-1) + c_(k-1)*I`.
pub open spec fn adjugate_term<S: Scalar>(a: Seq<Seq<Expr<S>>>, k: nat) -> Seq<Seq<Expr<S>>>
    decreases k, 0nat,
{
    if k == 0 {
        square_zeros(a.len())
    } else {
        matrix_sum(
            matrix_product(a, adjugate_term(a, (k - 1) as nat), a.len()),
            scaled_identity(a.len(), characteristic(a, (k - 1) as nat)),
        )
    }
}

/// The coefficient `c_k` of the characteristic polynomial: `c_0 = 1` and
/// `c_k = -trace(A*M_k) / k`.
pub open spec fn characteristic<S: Scalar>(a: Seq<Seq<Expr<S>>>, k: nat) -> Expr<S>
    decreases k, 1nat,
{
    if k == 0 {
        expr::one()
    } else {
        expr::product(
            trace(matrix_product(a, adjugate_term(a, k), a.len()), a.len()),
            Expr::Constant(S::unit().negation().quotient(S::of_count(k))),
        )
    }
}

fn trace_of<S: Scalar>(rows: &Vec<Vec<Expression<S>>>) -> (r: Expression<S>)
    requires
        of_width(sheet(rows@), rows@.len()),
    ensures
        r@ == trace(sheet(rows@), rows@.len()),
{
    let ghost m = sheet(rows@);
    let mut total: Expression<S> = Expression::zero();
    let mut i: usize = 0;
    while i < rows.len()
        invariant
            i <= rows@.len(),
            m == sheet(rows@),
            of_width(m, rows@.len()),
            total@ == trace(m, i as nat),
        decreases rows@.len() - i,
    {
        assert(m[i as int].len() == rows@.len());
        assert(m[i as int][i as int] == rows@[i as int]@[i as int]@);
        if !rows[i][i].is_zero() {
            total = total.plus(rows[i][i].copy());
        }
        i = i + 1;
    }
    total
}

fn scaled_identity_rows<S: Scalar>(n: usize, scale: &Expression<S>) -> (r: Vec<Vec<Expression<S>>>)
    ensures
        sheet(r@) == scaled_identity(n as nat, scale@),
        r@.len() == n,
        of_width(sheet(r@), n as nat),
{
    let ghost all = scaled_identity(n as nat, scale@);
    let mut out: Vec<Vec<Expression<S>>> = Vec::new();
    let mut i: usize = 0;
    assert(sheet(out@) =~= all.take(0));
    while i < n
        invariant
            i <= n,
            all == scaled_identity(n as nat, scale@),
            sheet(out@) == all.take(i as int),
            out@.len() == i,
        decreases n - i,
    {
        let ghost target = all[i as int];
        let mut row: Vec<Expression<S>> = Vec::new();
        let mut j: usize = 0;
        assert(exprs(row@) =~= target.take(0));
        while j < n
            invariant
                i < n,
                j <= n,
                all == scaled_identity(n as nat, scale@),
                target == all[i as int],
                exprs(row@) == target.take(j as int),
            decreases n - j,
        {
            let e = if i == j {
                Expression::one().times(scale.copy())
            } else {
                Expression::zero().times(scale.copy())
            };
            let ghost before = row@;
            row.push(e);
            proof {
                lemma_exprs_push(before, e);
                assert(target.take(j + 1) =~= target.take(j as int).push(target[j as int]));
            }
            j = j + 1;
        }
        assert(target.take(j as int) =~= target);
        let ghost before = out@;
        out.push(row);
        proof {
            lemma_sheet_push(before, row);
            assert(all.take(i + 1) =~= all.take(i as int).push(all[i as int]));
        }
        i = i + 1;
    }
    assert(all.take(i as int) =~= all);
    out
}

fn copy_rows<S: Scalar>(rows: &Vec<Vec<Expression<S>>>) -> (r: Vec<Vec<Expression<S>>>)
    ensures
        sheet(r@) == sheet(rows@),
        r@.len() == rows@.len(),
{
    let ghost all = sheet(rows@);
    let mut out: Vec<Vec<Expression<S>>> = Vec::new();
    let mut i: usize = 0;
    assert(sheet(out@) =~= all.take(0));
    while i < rows.len()
        invariant
            i <= rows@.len(),
            all == sheet(rows@),
            sheet(out@) == all.take(i as int),
            out@.len() == i,
        decreases rows@.len() - i,
    {
        let row = Expression::copy_list(&rows[i]);
        let ghost before = out@;
        out.push(row);
        proof {
            lemma_sheet_push(before, row);
            assert(all.take(i + 1) =~= all.take(i as int).push(all[i as int]));
        }
        i = i + 1;
    }
    assert(all.take(i as int) =~= all);
    out
}

fn zero_rows<S: Scalar>(n: usize) -> (r: Vec<Vec<Expression<S>>>)
    ensures
        sheet(r@) == square_zeros::<S>(n as nat),
        r@.len() == n,
        of_width(sheet(r@), n as nat),
{
    let m: Matrix<Expression<S>> = Matrix::filled(n, n, Expression::zero());
    assert(grid(m) =~~= square_zeros::<S>(n as nat));
    rows_of(&m)
}

/// What a list of matrices is seen as.
pub open spec fn grids<S: Scalar>(list: Seq<Matrix<Expression<S>>>) -> Seq<Seq<Seq<Expr<S>>>> {
    Seq::new(list.len(), |i: int| grid(list[i]))
}

/// Computes the characteristic polynomial and adjugate of `sI - a` for an arbitrary `n x n`
/// symbolic matrix, via the Faddeev-LeVerrier recursion.
///
/// This needs only matrix multiplication, addition, and division by the small integers
/// `1..=n`, never elimination or pivoting.
///
/// Returns `(coefficients, adjugate_terms)`:
/// - `coefficients[0..=n]`: `det(sI - a) = s^n + coefficients[1] s^(n-1) + ... +
///   coefficients[n]`, descending powers of `s`, `coefficients[0] == 1`.
/// - `adjugate_terms[0..n]`: `adj(sI - a) = adjugate_terms[0] s^(n-1) + ... +
///   adjugate_terms[n-1]`, descending powers of `s`.
pub fn faddeev_leverrier<S: Scalar>(a: &Matrix<Expression<S>>) -> (r: (
    Vec<Expression<S>>,
    Vec<Matrix<Expression<S>>>,
))
    requires
        a.row_count() == a.col_count(),
    ensures
        exprs(r.0@) == Seq::new(a.row_count() + 1, |k: int| characteristic(grid(*a), k as nat)),
        grids(r.1@) == Seq::new(
            a.row_count(),
            |k: int| adjugate_term(grid(*a), (k + 1) as nat),
        ),
        forall|i: int|
            0 <= i < r.1@.len() ==> (#[trigger] r.1@[i]).row_count() == a.row_count()
                && r.1@[i].col_count() == a.row_count(),
{
    let n: usize = a.rows();
    let ghost g = grid(*a);
    let rows = rows_of(a);
    let mut m: Vec<Vec<Expression<S>>> = zero_rows(n);
    let mut c: Expression<S> = Expression::one();
    let mut coefficients: Vec<Expression<S>> = Vec::new();
    let mut terms: Vec<Matrix<Expression<S>>> = Vec::new();
    let ghost all_c = Seq::new((n + 1) as nat, |k: int| characteristic(g, k as nat));
    let ghost all_m = Seq::new(n as nat, |k: int| adjugate_term(g, (k + 1) as nat));
    coefficients.push(c.copy());
    proof {
        assert(exprs(coefficients@) =~= all_c.take(1));
        assert(grids(terms@) =~= all_m.take(0));
    }
    let mut k: usize = 0;
    while k < n
        invariant
            k <= n == a.row_count(),
            rows@.len() == n,
            g == grid(*a),
            sheet(rows@) == g,
            g.len() == n,
            of_width(g, n as nat),
            m@.len() == n,
            of_width(sheet(m@), n as nat),
            sheet(m@) == adjugate_term(g, k as nat),
            c@ == characteristic(g, k as nat),
            all_c == Seq::new((n + 1) as nat, |k: int| characteristic(g, k as nat)),
            all_m == Seq::new(n as nat, |k: int| adjugate_term(g, (k + 1) as nat)),
            exprs(coefficients@) == all_c.take(k + 1),
            grids(terms@) == all_m.take(k as int),
            forall|i: int|
                0 <= i < terms@.len() ==> (#[trigger] terms@[i]).row_count() == n
                    && terms@[i].col_count() == n,
        decreases n - k,
    {
        let product = multiply(&rows, &m, n);
        let shift = scaled_identity_rows(n, &c);
        m = combine(Combine::Sum, &product, &shift, n);
        proof {
            assert(sheet(m@) =~~= matrix_sum(sheet(product@), sheet(shift@)));
        }
        let next = multiply(&rows, &m, n);
        let scale = Expression::Constant(S::one().negated().over(S::from_count(k + 1)));
        c = trace_of(&next).times(scale);
        let ghost before_c = coefficients@;
        let ghost before_m = terms@;
        let copied = c.copy();
        coefficients.push(copied);
        let term = to_matrix(copy_rows(&m), n);
        terms.push(term);
        k = k + 1;
        proof {
            lemma_exprs_push(before_c, copied);
            assert(all_c.take(k + 1) =~= all_c.take(k as int).push(all_c[k as int]));
            assert(grids(terms@) =~= grids(before_m).push(grid(term)));
            assert(all_m.take(k as int) =~= all_m.take(k - 1).push(all_m[k - 1]));
        }
    }
    proof {
        assert(all_c.take(k + 1) =~= all_c);
        assert(all_m.take(k as int) =~= all_m);
    }
    (coefficients, terms)
}

/// One numerator coefficient: a row of an adjugate term times a column of the input matrix.
pub open spec fn numerator_entry<S: Scalar>(
    row: Seq<Expr<S>>,
    b: Seq<Seq<Expr<S>>>,
    input: int,
    n: nat,
) -> Expr<S> {
    dot(row, b, input, n)
}

impl<S: Scalar> SymbolicStateSpace<S> {
    /// Derives `G(s) = C (sI - A)^-1 B` between `states[output_index]` and
    /// `inputs[input_index]` with the Faddeev-LeVerrier recursion.
    pub fn transfer_function(&self, output_index: usize, input_index: usize) -> (r: Result<
        SymbolicTransferFunction<S>,
        TransferFunctionError,
    >)
        requires
            self.well_formed(),
        ensures
            output_index >= self.states@.len() ==> r == Err::<
                SymbolicTransferFunction<S>,
                TransferFunctionError,
            >(TransferFunctionError::InvalidOutputIndex(output_index)),
            output_index < self.states@.len() && input_index >= self.inputs@.len() ==> r == Err::<
                SymbolicTransferFunction<S>,
                TransferFunctionError,
            >(TransferFunctionError::InvalidInputIndex(input_index)),
            output_index < self.states@.len() && input_index < self.inputs@.len() ==> {
                &&& r is Ok
                &&& exprs(r->Ok_0.denominator@) == Seq::new(
                    self.states@.len() + 1,
                    |k: int| characteristic(grid(self.a), k as nat),
                )
                &&& exprs(r->Ok_0.numerator@) == Seq::new(
                    self.states@.len(),
                    |k: int|
                        numerator_entry(
                            adjugate_term(grid(self.a), (k + 1) as nat)[output_index as int],
                            grid(self.b),
                            input_index as int,
                            self.states@.len(),
                        ),
                )
                &&& r->Ok_0.output@ == self.states@[output_index as int]@
                &&& r->Ok_0.input@ == self.inputs@[input_index as int]@
            },
    {
        let n: usize = self.states.len();
        if output_index >= n {
            return Err(TransferFunctionError::InvalidOutputIndex(output_index));
        }
        if input_index >= self.inputs.len() {
            return Err(TransferFunctionError::InvalidInputIndex(input_index));
        }
        let (denominator, terms) = faddeev_leverrier(&self.a);
        let ghost g = grid(self.a);
        let ghost b = grid(self.b);
        let ghost all = Seq::new(
            n as nat,
            |k: int|
                numerator_entry(
                    adjugate_term(g, (k + 1) as nat)[output_index as int],
                    b,
                    input_index as int,
                    n as nat,
                ),
        );
        assert(grids(terms@).len() == terms@.len());
        let mut numerator: Vec<Expression<S>> = Vec::new();
        let mut k: usize = 0;
        assert(exprs(numerator@) =~= all.take(0));
        while k < terms.len()
            invariant
                k <= terms@.len() == n == self.states@.len(),
                self.well_formed(),
                output_index < n,
                input_index < self.inputs@.len(),
                g == grid(self.a),
                b == grid(self.b),
                grids(terms@) == Seq::new(n as nat, |k: int| adjugate_term(g, (k + 1) as nat)),
                forall|i: int|
                    0 <= i < terms@.len() ==> (#[trigger] terms@[i]).row_count() == n
                        && terms@[i].col_count() == n,
                all == Seq::new(
                    n as nat,
                    |k: int|
                        numerator_entry(
                            adjugate_term(g, (k + 1) as nat)[output_index as int],
                            b,
                            input_index as int,
                            n as nat,
                        ),
                ),
                exprs(numerator@) == all.take(k as int),
            decreases terms@.len() - k,
        {
            let term = &terms[k];
            assert(grids(terms@)[k as int] == grid(*term));
            let ghost row = grid(*term)[output_index as int];
            let mut total: Expression<S> = Expression::zero();
            let mut col: usize = 0;
            while col < n
                invariant
                    col <= n == self.states@.len(),
                    self.well_formed(),
                    output_index < n,
                    input_index < self.inputs@.len(),
                    term.row_count() == n,
                    term.col_count() == n,
                    row == grid(*term)[output_index as int],
                    b == grid(self.b),
                    total@ == dot(row, b, input_index as int, col as nat),
                decreases n - col,
            {
                assert(row[col as int] == term@[output_index as int][col as int]@);
                assert(b[col as int][input_index as int]
                    == self.b@[col as int][input_index as int]@);
                let value = term.at(output_index, col).copy().times(
                    self.b.at(col, input_index).copy(),
                );
                if !value.is_zero() {
                    total = total.plus(value);
                }
                col = col + 1;
            }
            let ghost before = numerator@;
            numerator.push(total);
            proof {
                lemma_exprs_push(before, total);
                assert(all.take(k + 1) =~= all.take(k as int).push(all[k as int]));
            }
            k = k + 1;
        }
        assert(all.take(k as int) =~= all);
        Ok(
            SymbolicTransferFunction {
                numerator,
                denominator,
                output: self.states[output_index].clone(),
                input: self.inputs[input_index].clone(),
            },
        )
    }
}

impl<S: Scalar> Clone for SymbolicStateSpace<S> {
    fn clone(&self) -> (r: Self)
        ensures
            grid(r.a) == grid(self.a),
            grid(r.b) == grid(self.b),
            text::texts(r.states@) == text::texts(self.states@),
            text::texts(r.inputs@) == text::texts(self.inputs@),
            r.mna_state_indices@ == self.mna_state_indices@,
            self.well_formed() ==> r.well_formed(),
    {
        let states = copy_texts(&self.states);
        let inputs = copy_texts(&self.inputs);
        proof {
            assert(text::texts(states@).len() == states@.len());
            assert(text::texts(inputs@).len() == inputs@.len());
            assert(text::texts(self.states@).len() == self.states@.len());
            assert(text::texts(self.inputs@).len() == self.inputs@.len());
        }
        SymbolicStateSpace {
            a: copy_matrix(&self.a),
            b: copy_matrix(&self.b),
            states,
            inputs,
            mna_state_indices: self.mna_state_indices.clone(),
        }
    }
}

impl<S: Scalar> Clone for SymbolicTransferFunction<S> {
    fn clone(&self) -> (r: Self)
        ensures
            exprs(r.numerator@) == exprs(self.numerator@),
            exprs(r.denominator@) == exprs(self.denominator@),
            r.output@ == self.output@,
            r.input@ == self.input@,
    {
        SymbolicTransferFunction {
            numerator: Expression::copy_list(&self.numerator),
            denominator: Expression::copy_list(&self.denominator),
            output: self.output.clone(),
            input: self.input.clone(),
        }
    }
}

} // verus!
