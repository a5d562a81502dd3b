//! Dense matrices.

use crate::text;
use vstd::prelude::*;

verus! {

/// A compact row-major dense matrix.
#[derive(Debug, PartialEq)]
pub struct Matrix<T> {
    rows: usize,
    cols: usize,
    data: Vec<T>,
}

/// A position inside a matrix is a position inside its row-major data.
proof fn lemma_position(row: int, col: int, rows: int, cols: int)
    requires
        0 <= row < rows,
        0 <= col < cols,
    ensures
        0 <= row * cols,
        row * cols + col < rows * cols,
        (row + 1) * cols == row * cols + cols,
        (row + 1) * cols <= rows * cols,
{
    assert(0 <= row * cols) by (nonlinear_arith)
        requires
            0 <= row,
            0 <= cols,
    ;
    assert((row + 1) * cols == row * cols + cols) by (nonlinear_arith);
    assert((row + 1) * cols <= rows * cols) by (nonlinear_arith)
        requires
            row + 1 <= rows,
            0 <= cols,
    ;
}

/// Different positions inside a matrix are different positions inside its data.
proof fn lemma_positions_differ(row: int, col: int, other_row: int, other_col: int, cols: int)
    requires
        0 <= col < cols,
        0 <= other_col < cols,
        row * cols + col == other_row * cols + other_col,
    ensures
        row == other_row,
        col == other_col,
{
    assert(row == other_row) by (nonlinear_arith)
        requires
            0 <= col < cols,
            0 <= other_col < cols,
            row * cols + col == other_row * cols + other_col,
    ;
}

impl<T> View for Matrix<T> {
    type V = Seq<Seq<T>>;

    open spec fn view(&self) -> Seq<Seq<T>> {
        Seq::new(
            self.row_count(),
            |row: int| Seq::new(self.col_count(), |col: int| self.value(row, col)),
        )
    }
}

impl<T> Matrix<T> {
    /// The number of rows.
    pub closed spec fn row_count(&self) -> nat {
        self.rows as nat
    }

    /// The number of columns.
    pub closed spec fn col_count(&self) -> nat {
        self.cols as nat
    }

    /// The row-major values.
    pub closed spec fn values(&self) -> Seq<T> {
        self.data@
    }

    /// The value in a position.
    pub open spec fn value(&self, row: int, col: int) -> T {
        self.values()[row * self.col_count() + col]
    }

    /// The number of values is the number of positions.
    #[verifier::type_invariant]
    pub closed spec fn filled_exactly(&self) -> bool {
        self.data@.len() == self.rows * self.cols
    }

    /// Every position has a value.
    pub proof fn lemma_filled(&self, row: int, col: int)
        requires
            self.filled_exactly(),
            0 <= row < self.row_count(),
            0 <= col < self.col_count(),
        ensures
            0 <= row * self.col_count() + col < self.values().len(),
    {
        lemma_position(row, col, self.rows as int, self.cols as int);
    }

    /// Creates a matrix from row-major data.
    pub fn from_vec(rows: usize, cols: usize, data: Vec<T>) -> (r: Result<
        Self,
        MatrixShapeError,
    >)
        ensures
            match r {
                Ok(matrix) => {
                    &&& data@.len() == rows * cols
                    &&& matrix.row_count() == rows
                    &&& matrix.col_count() == cols
                    &&& matrix.values() == data@
                },
                Err(error) => {
                    &&& data@.len() != rows * cols
                    &&& error.shape() == (rows, cols, data@.len() as usize)
                },
            },
    {
        let needed: u128 = cells(rows, cols);
        if data.len() as u128 != needed {
            return Err(MatrixShapeError { rows, cols, actual: data.len() });
        }
        Ok(Matrix { rows, cols, data })
    }

    /// Returns the number of rows.
    pub fn rows(&self) -> (r: usize)
        ensures
            r == self.row_count(),
    {
        self.rows
    }

    /// Returns the number of columns.
    pub fn cols(&self) -> (r: usize)
        ensures
            r == self.col_count(),
    {
        self.cols
    }

    /// Returns the row-major values.
    pub fn as_slice(&self) -> (r: &[T])
        ensures
            r@ == self.values(),
            r@.len() == self.row_count() * self.col_count(),
    {
        proof {
            use_type_invariant(self);
        }
        self.data.as_slice()
    }

    /// Returns references to the row-major values.
    pub fn iter(&self) -> (r: Vec<&T>)
        ensures
            r@.len() == self.values().len(),
            forall|i: int| 0 <= i < r@.len() ==> *(#[trigger] r@[i]) == self.values()[i],
    {
        let mut out: Vec<&T> = Vec::new();
        let mut i: usize = 0;
        while i < self.data.len()
            invariant
                i <= self.data@.len(),
                out@.len() == i,
                forall|j: int| 0 <= j < i ==> *(#[trigger] out@[j]) == self.data@[j],
            decreases self.data@.len() - i,
        {
            out.push(&self.data[i]);
            i = i + 1;
        }
        out
    }

    /// Maps every value while preserving the shape.
    pub fn map<U, F: Fn(&T) -> U>(&self, f: F) -> (r: Matrix<U>)
        requires
            forall|i: int|
                0 <= i < self.values().len() ==> call_requires(f, (&#[trigger] self.values()[i],)),
        ensures
            r.row_count() == self.row_count(),
            r.col_count() == self.col_count(),
            r.values().len() == self.values().len(),
            forall|i: int|
                0 <= i < self.values().len() ==> call_ensures(
                    f,
                    (&self.values()[i],),
                    #[trigger] r.values()[i],
                ),
    {
        proof {
            use_type_invariant(self);
        }
        let mut data: Vec<U> = Vec::new();
        let mut i: usize = 0;
        while i < self.data.len()
            invariant
                i <= self.data@.len(),
                data@.len() == i,
                forall|j: int|
                    0 <= j < self.values().len() ==> call_requires(
                        f,
                        (&#[trigger] self.values()[j],),
                    ),
                forall|j: int|
                    0 <= j < i ==> call_ensures(f, (&self.data@[j],), #[trigger] data@[j]),
            decreases self.data@.len() - i,
        {
            assert(call_requires(f, (&self.values()[i as int],)));
            data.push(f(&self.data[i]));
            i = i + 1;
        }
        Matrix { rows: self.rows, cols: self.cols, data }
    }

    /// The value in a position.
    pub fn at(&self, row: usize, col: usize) -> (r: &T)
        requires
            row < self.row_count(),
            col < self.col_count(),
        ensures
            *r == self.value(row as int, col as int),
            *r == self@[row as int][col as int],
    {
        proof {
            use_type_invariant(self);
            lemma_position(row as int, col as int, self.rows as int, self.cols as int);
            assert(self.data@.len() == self.data.len());
        }
        &self.data[row * self.cols + col]
    }

    /// Replaces the value in a position.
    pub fn set(&mut self, row: usize, col: usize, value: T)
        requires
            row < old(self).row_count(),
            col < old(self).col_count(),
        ensures
            final(self).row_count() == old(self).row_count(),
            final(self).col_count() == old(self).col_count(),
            final(self)@ == old(self)@.update(
                row as int,
                old(self)@[row as int].update(col as int, value),
            ),
    {
        proof {
            use_type_invariant(&*self);
            lemma_position(row as int, col as int, self.rows as int, self.cols as int);
            assert(self.data@.len() == self.data.len());
        }
        let at: usize = row * self.cols + col;
        self.data[at] = value;
        proof {
            let cols = self.cols as int;
            assert forall|i: int, j: int|
                0 <= i < self.rows && 0 <= j < cols implies self.data@[i * cols + j] == (if i == row
                && j == col {
                value
            } else {
                #[trigger] old(self).data@[i * cols + j]
            }) by {
                lemma_position(i, j, self.rows as int, cols);
                if i * cols + j == at {
                    lemma_positions_differ(i, j, row as int, col as int, cols);
                }
            }
            assert(self@ =~~= old(self)@.update(
                row as int,
                old(self)@[row as int].update(col as int, value),
            ));
        }
    }
}

impl<T> vstd::std_specs::core::IndexSpecImpl<(usize, usize)> for Matrix<T> {
    open spec fn index_req(&self, index: &(usize, usize)) -> bool {
        index.0 < self.row_count() && index.1 < self.col_count()
    }
}

impl<T> core::ops::Index<(usize, usize)> for Matrix<T> {
    type Output = T;

    fn index(&self, index: (usize, usize)) -> (r: &T)
        ensures
            *r == self.value(index.0 as int, index.1 as int),
            *r == self@[index.0 as int][index.1 as int],
    {
        self.at(index.0, index.1)
    }
}

impl<T: Clone> Matrix<T> {
    /// Creates a matrix filled with `value`.
    pub fn filled(rows: usize, cols: usize, value: T) -> (r: Self)
        ensures
            r.row_count() == rows,
            r.col_count() == cols,
            r@.len() == rows,
            forall|row: int, col: int|
                0 <= row < rows && 0 <= col < cols ==> cloned(value, #[trigger] r@[row][col]),
    {
        let mut data: Vec<T> = Vec::new();
        let mut row: usize = 0;
        while row < rows
            invariant
                row <= rows,
                data@.len() == row * cols,
                forall|i: int| 0 <= i < data@.len() ==> cloned(value, #[trigger] data@[i]),
            decreases rows - row,
        {
            let mut col: usize = 0;
            while col < cols
                invariant
                    col <= cols,
                    data@.len() == row * cols + col,
                    forall|i: int| 0 <= i < data@.len() ==> cloned(value, #[trigger] data@[i]),
                decreases cols - col,
            {
                data.push(value.clone());
                col = col + 1;
            }
            assert((row + 1) * cols == row * cols + cols) by (nonlinear_arith);
            row = row + 1;
        }
        let r = Matrix { rows, cols, data };
        proof {
            assert forall|i: int, j: int| 0 <= i < rows && 0 <= j < cols implies cloned(
                value,
                #[trigger] r@[i][j],
            ) by {
                lemma_position(i, j, rows as int, cols as int);
            }
        }
        r
    }
}

/// What a list of rows is seen as.
pub open spec fn row_seqs<T>(rows: Seq<Vec<T>>) -> Seq<Seq<T>> {
    Seq::new(rows.len(), |i: int| rows[i]@)
}

/// Every row has the given length.
pub open spec fn of_width<T>(rows: Seq<Seq<T>>, cols: nat) -> bool {
    forall|i: int| 0 <= i < rows.len() ==> (#[trigger] rows[i]).len() == cols
}

impl<T> Matrix<T> {
    /// Creates a matrix from its rows.
    pub fn from_rows(rows: Vec<Vec<T>>, cols: usize) -> (r: Self)
        requires
            of_width(row_seqs(rows@), cols as nat),
        ensures
            r.row_count() == rows@.len(),
            r.col_count() == cols,
            r@ == row_seqs(rows@),
    {
        let ghost all = row_seqs(rows@);
        let count: usize = rows.len();
        let mut rest = rows;
        let mut data: Vec<T> = Vec::new();
        let ghost mut done: int = 0;
        assert(rest@ =~= rows@.skip(0));
        while rest.len() > 0
            invariant
                0 <= done <= count == rows@.len(),
                all == row_seqs(rows@),
                of_width(all, cols as nat),
                rest@ == rows@.skip(done),
                data@.len() == done * cols,
                forall|i: int, j: int|
                    0 <= i < done && 0 <= j < cols ==> data@[i * cols + j] == #[trigger] all[i][j],
            decreases rest@.len(),
        {
            let mut row = rest.remove(0);
            assert(row@ == all[done]);
            let ghost before = data@;
            let ghost cells = row@;
            data.append(&mut row);
            proof {
                assert((done + 1) * cols == done * cols + cols) by (nonlinear_arith);
                assert(rest@ =~= rows@.skip(done + 1));
                assert forall|i: int, j: int| 0 <= i < done + 1 && 0 <= j < cols implies data@[i
                    * cols + j] == #[trigger] all[i][j] by {
                    if i < done {
                        lemma_position(i, j, done, cols as int);
                    } else {
                        assert(data@[i * cols + j] == cells[j]);
                    }
                }
                done = done + 1;
            }
        }
        let r = Matrix { rows: count, cols, data };
        assert(r@ =~~= all);
        r
    }
}

/// The number of positions of a matrix.
fn cells(rows: usize, cols: usize) -> (r: u128)
    ensures
        r == rows * cols,
{
    proof {
        assert(rows * cols <= 0xffff_ffff_ffff_ffff * 0xffff_ffff_ffff_ffff) by (nonlinear_arith)
            requires
                0 <= rows <= 0xffff_ffff_ffff_ffff,
                0 <= cols <= 0xffff_ffff_ffff_ffff,
        ;
    }
    (rows as u128) * (cols as u128)
}

/// Error returned when row-major data has the wrong length.
#[derive(Debug, Clone, Copy, PartialEq, Eq)]
pub struct MatrixShapeError {
    rows: usize,
    cols: usize,
    actual: usize,
}

impl MatrixShapeError {
    /// The wanted rows and columns, and the number of values received.
    pub closed spec fn shape(&self) -> (usize, usize, usize) {
        (self.rows, self.cols, self.actual)
    }

    /// The message for a reader.
    pub fn to_text(&self) -> (r: String)
        ensures
            r@ == "a "@ + text::decimal(self.shape().0 as nat) + "x"@ + text::decimal(
                self.shape().1 as nat,
            ) + " matrix needs "@ + text::decimal((self.shape().0 * self.shape().1) as nat)
                + " values, received "@ + text::decimal(self.shape().2 as nat),
    {
        let mut s = text::concat5(
            "a ",
            text::number_text(self.rows).as_str(),
            "x",
            text::number_text(self.cols).as_str(),
            " matrix needs ",
        );
        s.append(text::large_number_text(cells(self.rows, self.cols)).as_str());
        s.append(" values, received ");
        s.append(text::number_text(self.actual).as_str());
        s
    }
}

impl<T: Clone> Clone for Matrix<T> {
    fn clone(&self) -> (r: Self)
        ensures
            r.row_count() == self.row_count(),
            r.col_count() == self.col_count(),
            r.values().len() == self.values().len(),
            forall|i: int|
                0 <= i < self.values().len() ==> cloned(
                    #[trigger] self.values()[i],
                    r.values()[i],
                ),
    {
        proof {
            use_type_invariant(self);
        }
        Matrix { rows: self.rows, cols: self.cols, data: self.data.clone() }
    }
}

} // verus!
