use crate::error::MatrixError;
use crate::grid::{lemma_transpose_entry, Grid};
use crate::layout::{lemma_offset_in_bounds, lemma_offset_split, offset};
use crate::scalar::{is_zero, Scalar};
use vstd::prelude::*;

verus! {

/// A dense matrix that owns a flat, row-major buffer of `rows * cols`
/// entries.
#[derive(Debug, PartialEq)]
pub struct Matrix<T> {
    rows: usize,
    cols: usize,
    data: Vec<T>,
}

/// An empty buffer with room for `rows * cols` entries, where that many can
/// be counted at all.
pub(crate) fn buffer<T>(rows: usize, cols: usize) -> (data: Vec<T>)
    ensures
        data@.len() == 0,
{
    match rows.checked_mul(cols) {
        Some(n) => Vec::with_capacity(n),
        None => Vec::new(),
    }
}

/// All rows have the length of the first one.
pub open spec fn uniform_rows<T>(rows: Seq<Vec<T>>) -> bool {
    forall|i: int| 0 <= i < rows.len() ==> (#[trigger] rows[i])@.len() == rows[0]@.len()
}

impl<T> View for Matrix<T> {
    type V = Grid<T>;

    closed spec fn view(&self) -> Grid<T> {
        Grid { rows: self.rows as nat, cols: self.cols as nat, cells: self.data@ }
    }
}

impl<T: Copy> Clone for Matrix<T> {
    /// A fresh matrix with the same shape and the same entries.
    fn clone(&self) -> (res: Self)
        ensures
            res@ == self@,
    {
        proof {
            use_type_invariant(self);
        }
        let n = self.data.len();
        let mut data: Vec<T> = Vec::with_capacity(n);
        let mut k: usize = 0;
        while k < n
            invariant
                n == self.data@.len(),
                k <= n,
                data@.len() == k,
                forall|l: int| 0 <= l < k ==> data@[l] == self.data@[l],
            decreases n - k,
        {
            data.push(self.data[k]);
            k += 1;
        }
        proof {
            assert(data@ =~= self.data@);
        }
        Matrix { rows: self.rows, cols: self.cols, data }
    }
}

impl<T> Matrix<T> {
    /// Every matrix holds exactly `rows * cols` entries.
    #[verifier::type_invariant]
    pub open spec fn well_formed(self) -> bool {
        self@.wf()
    }

    /// The number of rows.
    pub fn rows(&self) -> (n: usize)
        ensures
            n == self@.rows,
            self@.wf(),
    {
        proof {
            use_type_invariant(self);
        }
        self.rows
    }

    /// The number of columns.
    pub fn cols(&self) -> (n: usize)
        ensures
            n == self@.cols,
            self@.wf(),
    {
        proof {
            use_type_invariant(self);
        }
        self.cols
    }

    /// The entries in row-major order.
    pub fn data(&self) -> (entries: &Vec<T>)
        ensures
            entries@ == self@.cells,
            self@.wf(),
    {
        proof {
            use_type_invariant(self);
        }
        &self.data
    }

    /// Wraps a row-major buffer of exactly `rows * cols` entries.
    pub(crate) fn from_parts(rows: usize, cols: usize, data: Vec<T>) -> (res: Matrix<T>)
        requires
            data@.len() == rows * cols,
        ensures
            res@ == (Grid { rows: rows as nat, cols: cols as nat, cells: data@ }),
            res@.wf(),
    {
        Matrix { rows, cols, data }
    }

    /// The linear offset `row * cols + col` of a position in the buffer.
    pub fn index(&self, row: usize, col: usize) -> (at: usize)
        requires
            offset(self@.cols as int, row as int, col as int) <= usize::MAX,
        ensures
            at == offset(self@.cols as int, row as int, col as int),
            self@.in_bounds(row as int, col as int) ==> at < self@.cells.len(),
    {
        proof {
            use_type_invariant(self);
            if self@.in_bounds(row as int, col as int) {
                lemma_offset_in_bounds(
                    self.rows as int,
                    self.cols as int,
                    row as int,
                    col as int,
                );
            }
            assert(0 <= row * self.cols) by (nonlinear_arith);
        }
        row * self.cols + col
    }
}

impl<T: Copy> Matrix<T> {
    /// Builds a matrix from its rows. The matrix has one row for each row
    /// handed in and as many columns as the first of them has entries, none
    /// when there is no row. Rows of differing lengths are refused with
    /// `DimensionMismatch`.
    pub fn from(rows: Vec<Vec<T>>) -> (res: Result<Matrix<T>, MatrixError>)
        ensures
            res is Ok <==> uniform_rows(rows@),
            res is Err ==> res == Err::<Matrix<T>, MatrixError>(MatrixError::DimensionMismatch),
            res is Ok ==> {
                let m = res->Ok_0@;
                &&& m.wf()
                &&& m.rows == rows@.len()
                &&& m.cols == (if rows@.len() > 0 {
                    rows@[0]@.len()
                } else {
                    0
                })
                &&& forall|i: int, j: int| m.in_bounds(i, j) ==> m.at(i, j) == rows@[i]@[j]
            },
    {
        let n = rows.len();
        let cols = if n > 0 {
            rows[0].len()
        } else {
            0
        };
        let mut i: usize = 0;
        while i < n
            invariant
                n == rows@.len(),
                i <= n,
                n > 0 ==> cols == rows@[0]@.len(),
                forall|k: int| 0 <= k < i ==> rows@[k]@.len() == cols,
            decreases n - i,
        {
            if rows[i].len() != cols {
                return Err(MatrixError::DimensionMismatch);
            }
            i += 1;
        }
        let mut data: Vec<T> = buffer(n, cols);
        let mut i: usize = 0;
        while i < n
            invariant
                n == rows@.len(),
                i <= n,
                forall|k: int| 0 <= k < n ==> rows@[k]@.len() == cols,
                data@.len() == i * cols,
                forall|r: int, c: int|
                    0 <= r < i && 0 <= c < cols ==> data@[offset(cols as int, r, c)] == rows@[r]@[c],
            decreases n - i,
        {
            let mut j: usize = 0;
            while j < cols
                invariant
                    n == rows@.len(),
                    i < n,
                    j <= cols,
                    rows@[i as int]@.len() == cols,
                    data@.len() == i * cols + j,
                    forall|r: int, c: int|
                        0 <= r < i && 0 <= c < cols ==> data@[offset(cols as int, r, c)]
                            == rows@[r]@[c],
                    forall|c: int|
                        0 <= c < j ==> data@[offset(cols as int, i as int, c)] == rows@[i as int]@[c],
                decreases cols - j,
            {
                proof {
                    assert forall|r: int, c: int| 0 <= r < i && 0 <= c < cols implies #[trigger] offset(
                        cols as int,
                        r,
                        c,
                    ) < i * cols by {
                        lemma_offset_in_bounds(i as int, cols as int, r, c);
                    }
                }
                data.push(rows[i][j]);
                j += 1;
            }
            proof {
                assert((i + 1) * cols == i * cols + cols) by (nonlinear_arith);
            }
            i += 1;
        }
        proof {
            assert forall|r: int, c: int| 0 <= r < n && 0 <= c < cols implies 0 <= #[trigger] offset(
                cols as int,
                r,
                c,
            ) < n * cols by {
                lemma_offset_in_bounds(n as int, cols as int, r, c);
            }
        }
        Ok(Matrix { rows: n, cols, data })
    }

    /// The matrix with rows and columns exchanged: a fresh copy whose entry
    /// at `(col, row)` is this matrix's entry at `(row, col)`.
    pub fn transpose(&self) -> (res: Matrix<T>)
        ensures
            res@ == self@.transpose(),
            res@.wf(),
            res@.rows == self@.cols,
            res@.cols == self@.rows,
            forall|i: int, j: int|
                self@.in_bounds(i, j) ==> #[trigger] res@.at(j, i) == self@.at(i, j),
    {
        proof {
            use_type_invariant(self);
            assert(self.data@.len() == self.data.len());
            assert(self.rows * self.cols == self.cols * self.rows) by (nonlinear_arith);
        }
        let mut data: Vec<T> = Vec::with_capacity(self.data.len());
        let mut j: usize = 0;
        while j < self.cols
            invariant
                self@.wf(),
                j <= self.cols,
                data@.len() == j * self.rows,
                forall|k: int|
                    0 <= k < data@.len() ==> data@[k] == self@.at(
                        k % (self.rows as int),
                        k / (self.rows as int),
                    ),
            decreases self.cols - j,
        {
            let mut i: usize = 0;
            while i < self.rows
                invariant
                    self@.wf(),
                    j < self.cols,
                    i <= self.rows,
                    data@.len() == j * self.rows + i,
                    forall|k: int|
                        0 <= k < data@.len() ==> data@[k] == self@.at(
                            k % (self.rows as int),
                            k / (self.rows as int),
                        ),
                decreases self.rows - i,
            {
                proof {
                    lemma_offset_in_bounds(self.rows as int, self.cols as int, i as int, j as int);
                    lemma_offset_split(self.rows as int, j as int, i as int);
                    assert(self.data@.len() == self.data.len());
                }
                let at = self.index(i, j);
                data.push(self.data[at]);
                i += 1;
            }
            proof {
                assert((j + 1) * self.rows == j * self.rows + self.rows) by (nonlinear_arith);
            }
            j += 1;
        }
        proof {
            assert(data@ =~= self@.transpose().cells);
            assert forall|i: int, j: int| self@.in_bounds(i, j) implies #[trigger] self@.transpose().at(
                j,
                i,
            ) == self@.at(i, j) by {
                lemma_transpose_entry(self@, i, j);
            }
        }
        Matrix { rows: self.cols, cols: self.rows, data }
    }

    /// Applies `function` to every entry, each exactly once, and returns the
    /// results as a fresh matrix of the same shape.
    pub fn map<F: Fn(T) -> T>(&self, function: &F) -> (res: Matrix<T>)
        requires
            forall|k: int| 0 <= k < self@.cells.len() ==> call_requires(function, (self@.cells[k],)),
        ensures
            res@.wf(),
            res@.same_shape(self@),
            forall|k: int|
                0 <= k < self@.cells.len() ==> call_ensures(
                    function,
                    (self@.cells[k],),
                    #[trigger] res@.cells[k],
                ),
            forall|i: int, j: int|
                self@.in_bounds(i, j) ==> call_ensures(
                    function,
                    (self@.at(i, j),),
                    #[trigger] res@.at(i, j),
                ),
    {
        proof {
            use_type_invariant(self);
        }
        let n = self.data.len();
        let mut data: Vec<T> = Vec::with_capacity(n);
        let mut k: usize = 0;
        while k < n
            invariant
                n == self.data@.len(),
                k <= n,
                data@.len() == k,
                forall|l: int| 0 <= l < n ==> call_requires(function, (self.data@[l],)),
                forall|l: int|
                    0 <= l < k ==> call_ensures(function, (self.data@[l],), #[trigger] data@[l]),
            decreases n - k,
        {
            data.push(function(self.data[k]));
            k += 1;
        }
        let res = Matrix { rows: self.rows, cols: self.cols, data };
        proof {
            assert forall|i: int, j: int| self@.in_bounds(i, j) implies call_ensures(
                function,
                (self@.at(i, j),),
                #[trigger] res@.at(i, j),
            ) by {
                lemma_offset_in_bounds(self.rows as int, self.cols as int, i, j);
            }
        }
        res
    }

    /// Builds a `rows` by `cols` matrix whose entries are drawn one by one,
    /// in row-major order, from `draw`. With a source of independent uniform
    /// samples this is the randomly initialised matrix.
    pub fn random<F: Fn() -> T>(rows: usize, cols: usize, draw: &F) -> (res: Matrix<T>)
        requires
            call_requires(draw, ()),
        ensures
            res@.wf(),
            res@.rows == rows,
            res@.cols == cols,
            forall|k: int| 0 <= k < res@.cells.len() ==> call_ensures(draw, (), #[trigger] res@.cells[k]),
    {
        let mut data: Vec<T> = buffer(rows, cols);
        let mut i: usize = 0;
        while i < rows
            invariant
                i <= rows,
                data@.len() == i * cols,
                call_requires(draw, ()),
                forall|l: int| 0 <= l < data@.len() ==> call_ensures(draw, (), #[trigger] data@[l]),
            decreases rows - i,
        {
            let mut j: usize = 0;
            while j < cols
                invariant
                    j <= cols,
                    data@.len() == i * cols + j,
                    call_requires(draw, ()),
                    forall|l: int|
                        0 <= l < data@.len() ==> call_ensures(draw, (), #[trigger] data@[l]),
                decreases cols - j,
            {
                data.push(draw());
                j += 1;
            }
            proof {
                assert((i + 1) * cols == i * cols + cols) by (nonlinear_arith);
            }
            i += 1;
        }
        Matrix { rows, cols, data }
    }

    /// The entry at `(row, col)`, or `IndexOutOfBounds` when the position
    /// lies outside the matrix.
    pub fn get(&self, row: usize, col: usize) -> (res: Result<T, MatrixError>)
        ensures
            res == (if self@.in_bounds(row as int, col as int) {
                Ok(self@.at(row as int, col as int))
            } else {
                Err(MatrixError::IndexOutOfBounds)
            }),
    {
        proof {
            use_type_invariant(self);
        }
        if row >= self.rows || col >= self.cols {
            return Err(MatrixError::IndexOutOfBounds);
        }
        proof {
            lemma_offset_in_bounds(self.rows as int, self.cols as int, row as int, col as int);
            assert(self.data@.len() == self.data.len());
        }
        let at = self.index(row, col);
        Ok(self.data[at])
    }

    /// Overwrites the entry at `(row, col)` in place. A position outside the
    /// matrix is refused with `IndexOutOfBounds` and leaves the matrix as it
    /// was.
    pub fn set(&mut self, row: usize, col: usize, value: T) -> (res: Result<(), MatrixError>)
        ensures
            old(self)@.in_bounds(row as int, col as int) ==> res == Ok::<(), MatrixError>(())
                && final(self)@ == old(self)@.with(row as int, col as int, value),
            !old(self)@.in_bounds(row as int, col as int) ==> res == Err::<(), MatrixError>(
                MatrixError::IndexOutOfBounds,
            ) && final(self)@ == old(self)@,
            final(self)@.wf(),
    {
        proof {
            use_type_invariant(&*self);
        }
        if row >= self.rows || col >= self.cols {
            return Err(MatrixError::IndexOutOfBounds);
        }
        proof {
            lemma_offset_in_bounds(self.rows as int, self.cols as int, row as int, col as int);
            assert(self.data@.len() == self.data.len());
        }
        let at = self.index(row, col);
        self.data[at] = value;
        Ok(())
    }
}

impl<T: Scalar> Matrix<T> {
    /// The `rows` by `cols` matrix whose entries are all zero. Either count
    /// may be zero, which gives an empty buffer.
    pub fn zeros(rows: usize, cols: usize) -> (res: Matrix<T>)
        ensures
            res@.wf(),
            res@.rows == rows,
            res@.cols == cols,
            forall|k: int| 0 <= k < res@.cells.len() ==> is_zero(#[trigger] res@.cells[k]),
            forall|k: int, l: int|
                0 <= k < res@.cells.len() && 0 <= l < res@.cells.len() ==> res@.cells[k]
                    == res@.cells[l],
    {
        let zero = T::default();
        let mut data: Vec<T> = buffer(rows, cols);
        let mut i: usize = 0;
        while i < rows
            invariant
                i <= rows,
                data@.len() == i * cols,
                is_zero(zero),
                forall|l: int| 0 <= l < data@.len() ==> data@[l] == zero,
            decreases rows - i,
        {
            let mut j: usize = 0;
            while j < cols
                invariant
                    j <= cols,
                    data@.len() == i * cols + j,
                    forall|l: int| 0 <= l < data@.len() ==> data@[l] == zero,
                decreases cols - j,
            {
                data.push(zero);
                j += 1;
            }
            proof {
                assert((i + 1) * cols == i * cols + cols) by (nonlinear_arith);
            }
            i += 1;
        }
        Matrix { rows, cols, data }
    }
}

} // verus!
