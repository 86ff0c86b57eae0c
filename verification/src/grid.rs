use crate::layout::{lemma_offset_in_bounds, lemma_offset_split, offset};
use crate::scalar::Scalar;
use crate::sums::{batched_dot, dot};
use vstd::prelude::*;
use vstd::std_specs::ops::{AddSpec, MulSpec, SubSpec};

verus! {

/// The mathematical model of a matrix: its shape and its entries in
/// row-major order.
pub struct Grid<T> {
    pub rows: nat,
    pub cols: nat,
    pub cells: Seq<T>,
}

impl<T> Grid<T> {
    /// The buffer holds exactly one entry for each position.
    pub open spec fn wf(self) -> bool {
        self.cells.len() == self.rows * self.cols
    }

    /// `(row, col)` names a position of the grid.
    pub open spec fn in_bounds(self, row: int, col: int) -> bool {
        0 <= row < self.rows && 0 <= col < self.cols
    }

    /// The entry at `(row, col)`, stored at offset `row * cols + col`.
    pub open spec fn at(self, row: int, col: int) -> T {
        self.cells[offset(self.cols as int, row, col)]
    }

    /// Both grids have the same number of rows and of columns.
    pub open spec fn same_shape(self, other: Grid<T>) -> bool {
        self.rows == other.rows && self.cols == other.cols
    }

    /// The grid with the entry at `(row, col)` replaced by `value`.
    pub open spec fn with(self, row: int, col: int, value: T) -> Grid<T> {
        Grid {
            rows: self.rows,
            cols: self.cols,
            cells: self.cells.update(offset(self.cols as int, row, col), value),
        }
    }

    /// Row `row` as a sequence of `cols` entries.
    pub open spec fn row(self, row: int) -> Seq<T> {
        Seq::new(self.cols, |col: int| self.at(row, col))
    }

    /// Column `col` as a sequence of `rows` entries.
    pub open spec fn column(self, col: int) -> Seq<T> {
        Seq::new(self.rows, |row: int| self.at(row, col))
    }

    /// The grid with rows and columns exchanged: its entry at `(col, row)` is
    /// this grid's entry at `(row, col)`.
    pub open spec fn transpose(self) -> Grid<T> {
        Grid {
            rows: self.cols,
            cols: self.rows,
            cells: Seq::new(
                self.cols * self.rows,
                |k: int| self.at(k % (self.rows as int), k / (self.rows as int)),
            ),
        }
    }
}

impl<T: Scalar> Grid<T> {
    /// The matrix product: the entry at `(i, j)` is the sum, over `k`, of
    /// the products of this grid's entry at `(i, k)` with the other grid's
    /// entry at `(k, j)`, added up from the first to the last.
    pub open spec fn product(self, other: Grid<T>) -> Grid<T> {
        Grid {
            rows: self.rows,
            cols: other.cols,
            cells: Seq::new(
                self.rows * other.cols,
                |k: int|
                    dot(self.row(k / (other.cols as int)), other.column(k % (other.cols as int))),
            ),
        }
    }

    /// The matrix product with every entry summed in the order of the
    /// batched kernel.
    pub open spec fn batched_product(self, other: Grid<T>) -> Grid<T> {
        Grid {
            rows: self.rows,
            cols: other.cols,
            cells: Seq::new(
                self.rows * other.cols,
                |k: int|
                    batched_dot(
                        self.row(k / (other.cols as int)),
                        other.column(k % (other.cols as int)),
                    ),
            ),
        }
    }

    /// The entrywise sum, for scalars whose addition is a function of its
    /// operands.
    pub open spec fn sum(self, other: Grid<T>) -> Grid<T> {
        Grid {
            rows: self.rows,
            cols: self.cols,
            cells: Seq::new(self.cells.len(), |k: int| self.cells[k].add_spec(other.cells[k])),
        }
    }

    /// The entrywise difference, for scalars whose subtraction is a function
    /// of its operands.
    pub open spec fn difference(self, other: Grid<T>) -> Grid<T> {
        Grid {
            rows: self.rows,
            cols: self.cols,
            cells: Seq::new(self.cells.len(), |k: int| self.cells[k].sub_spec(other.cells[k])),
        }
    }

    /// The entrywise (Hadamard) product, for scalars whose multiplication is
    /// a function of its operands.
    pub open spec fn hadamard(self, other: Grid<T>) -> Grid<T> {
        Grid {
            rows: self.rows,
            cols: self.cols,
            cells: Seq::new(self.cells.len(), |k: int| self.cells[k].mul_spec(other.cells[k])),
        }
    }
}

/// A row of a well-formed grid is a contiguous window of its buffer.
pub proof fn lemma_row_is_window<T>(g: Grid<T>, row: int)
    requires
        g.wf(),
        0 <= row < g.rows,
    ensures
        0 <= row * g.cols,
        row * g.cols + g.cols <= g.cells.len(),
        g.row(row) == g.cells.subrange(row * g.cols, row * g.cols + g.cols),
{
    if g.cols > 0 {
        lemma_offset_in_bounds(g.rows as int, g.cols as int, row, 0);
    } else {
        assert(row * g.cols == 0) by (nonlinear_arith)
            requires
                g.cols == 0,
        ;
    }
    assert((row + 1) * g.cols == row * g.cols + g.cols) by (nonlinear_arith);
    assert(g.row(row) =~= g.cells.subrange(row * g.cols, row * g.cols + g.cols));
}

/// The entry of the transposed matrix at `(col, row)` is the matrix's entry
/// at `(row, col)`.
pub proof fn lemma_transpose_entry<T>(g: Grid<T>, row: int, col: int)
    requires
        g.wf(),
        g.in_bounds(row, col),
    ensures
        g.transpose().in_bounds(col, row),
        g.transpose().at(col, row) == g.at(row, col),
{
    lemma_offset_in_bounds(g.cols as int, g.rows as int, col, row);
    lemma_offset_split(g.rows as int, col, row);
}

/// The rows of the transposed grid are the columns of the grid.
pub proof fn lemma_transpose_row_is_column<T>(g: Grid<T>, col: int)
    requires
        g.wf(),
        0 <= col < g.cols,
    ensures
        g.transpose().wf(),
        g.transpose().row(col) == g.column(col),
{
    assert(g.rows * g.cols == g.cols * g.rows) by (nonlinear_arith);
    let t = g.transpose();
    assert forall|row: int| 0 <= row < g.rows implies t.row(col)[row] == g.column(col)[row] by {
        lemma_offset_in_bounds(g.cols as int, g.rows as int, col, row);
        lemma_offset_split(g.rows as int, col, row);
    }
    assert(t.row(col) =~= g.column(col));
}

} // verus!
