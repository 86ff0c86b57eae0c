use crate::error::MatrixError;
use crate::grid::Grid;
use crate::layout::{lemma_offset_in_bounds, lemma_offset_join};
use crate::matrix::Matrix;
use crate::scalar::{
    can_add, can_multiply, can_subtract, difference_of, product_of, sum_of, Operation, Scalar,
};
use vstd::prelude::*;
use vstd::std_specs::ops::{AddSpec, MulSpec, SubSpec};

verus! {

/// The number of contiguous entries that the kernels handle as one batch.
pub const LANES: usize = 4;

/// Batched apply over a window: applies `op` to the `LANES` contiguous pairs
/// that start at offset `at` and appends the results to `out`.
pub fn apply_window<T: Scalar>(
    op: Operation,
    left: &Vec<T>,
    right: &Vec<T>,
    at: usize,
    out: &mut Vec<T>,
)
    requires
        left@.len() == right@.len(),
        at + LANES <= left@.len(),
        old(out)@.len() == at,
        forall|k: int| at <= k < at + LANES ==> op.admits(left@[k], right@[k]),
    ensures
        final(out)@.len() == at + LANES,
        forall|k: int| 0 <= k < at ==> final(out)@[k] == old(out)@[k],
        forall|k: int| at <= k < at + LANES ==> op.yields(left@[k], right@[k], final(out)@[k]),
{
    assert(left@.len() == left.len());
    let mut lane: usize = 0;
    while lane < LANES
        invariant
            lane <= LANES,
            left@.len() <= usize::MAX,
            old(out)@.len() == at,
            left@.len() == right@.len(),
            at + LANES <= left@.len(),
            out@.len() == at + lane,
            forall|k: int| at <= k < at + LANES ==> op.admits(left@[k], right@[k]),
            forall|k: int| 0 <= k < at ==> out@[k] == old(out)@[k],
            forall|k: int| at <= k < at + lane ==> op.yields(left@[k], right@[k], out@[k]),
        decreases LANES - lane,
    {
        out.push(op.apply(left[at + lane], right[at + lane]));
        lane += 1;
    }
}

/// Scalar apply over the remainder: applies `op` to the one pair at offset
/// `at` and appends the result to `out`.
pub fn apply_scalar<T: Scalar>(
    op: Operation,
    left: &Vec<T>,
    right: &Vec<T>,
    at: usize,
    out: &mut Vec<T>,
)
    requires
        left@.len() == right@.len(),
        at < left@.len(),
        old(out)@.len() == at,
        op.admits(left@[at as int], right@[at as int]),
    ensures
        final(out)@.len() == at + 1,
        forall|k: int| 0 <= k < at ==> final(out)@[k] == old(out)@[k],
        op.yields(left@[at as int], right@[at as int], final(out)@[at as int]),
{
    out.push(op.apply(left[at], right[at]));
}

/// Pairs that `op` admits at every position are admitted at every offset.
pub proof fn lemma_admits_at_offsets<T: Scalar>(op: Operation, a: Grid<T>, b: Grid<T>)
    requires
        a.wf(),
        b.wf(),
        a.same_shape(b),
        forall|i: int, j: int|
            #![trigger a.at(i, j)]
            a.in_bounds(i, j) ==> op.admits(a.at(i, j), b.at(i, j)),
    ensures
        forall|k: int| 0 <= k < a.cells.len() ==> op.admits(#[trigger] a.cells[k], b.cells[k]),
{
    assert forall|k: int| 0 <= k < a.cells.len() implies op.admits(
        #[trigger] a.cells[k],
        b.cells[k],
    ) by {
        if a.cols == 0 {
            assert(a.rows * a.cols == 0) by (nonlinear_arith)
                requires
                    a.cols == 0,
            ;
        }
        lemma_offset_join(a.rows as int, a.cols as int, k);
        assert(a.in_bounds(k / (a.cols as int), k % (a.cols as int)));
        assert(a.at(k / (a.cols as int), k % (a.cols as int)) == a.cells[k]);
    }
}

/// Results that `op` yields at every offset are yielded at every position.
pub proof fn lemma_yields_at_positions<T: Scalar>(
    op: Operation,
    a: Grid<T>,
    b: Grid<T>,
    m: Grid<T>,
)
    requires
        a.wf(),
        a.same_shape(b),
        a.same_shape(m),
        forall|k: int|
            0 <= k < a.cells.len() ==> op.yields(a.cells[k], b.cells[k], #[trigger] m.cells[k]),
    ensures
        forall|i: int, j: int|
            a.in_bounds(i, j) ==> op.yields(a.at(i, j), b.at(i, j), #[trigger] m.at(i, j)),
{
    assert forall|i: int, j: int| a.in_bounds(i, j) implies op.yields(
        a.at(i, j),
        b.at(i, j),
        #[trigger] m.at(i, j),
    ) by {
        lemma_offset_in_bounds(a.rows as int, a.cols as int, i, j);
    }
}

impl<T: Scalar> Matrix<T> {
    /// The kernel shared by the elementwise operations. It walks the rows in
    /// order; inside a row it works through whole windows of `LANES` entries
    /// and then, one by one, through the fewer than `LANES` entries that
    /// remain.
    pub fn elementwise(&self, other: &Matrix<T>, op: Operation) -> (res: Result<
        Matrix<T>,
        MatrixError,
    >)
        requires
            self@.same_shape(other@) ==> forall|k: int|
                0 <= k < self@.cells.len() ==> op.admits(self@.cells[k], other@.cells[k]),
        ensures
            res is Ok <==> self@.same_shape(other@),
            res is Err ==> res == Err::<Matrix<T>, MatrixError>(MatrixError::DimensionMismatch),
            res is Ok ==> {
                let m = res->Ok_0@;
                &&& m.wf()
                &&& m.same_shape(self@)
                &&& forall|k: int|
                    0 <= k < m.cells.len() ==> op.yields(
                        self@.cells[k],
                        other@.cells[k],
                        #[trigger] m.cells[k],
                    )
            },
    {
        if self.rows() != other.rows() || self.cols() != other.cols() {
            return Err(MatrixError::DimensionMismatch);
        }
        let rows = self.rows();
        let cols = self.cols();
        let left = self.data();
        let right = other.data();
        let mut out: Vec<T> = Vec::with_capacity(left.len());
        let mut i: usize = 0;
        while i < rows
            invariant
                i <= rows,
                left@.len() == rows * cols,
                right@.len() == rows * cols,
                rows == self@.rows,
                cols == self@.cols,
                left@ == self@.cells,
                out@.len() == i * cols,
                forall|k: int| 0 <= k < left@.len() ==> op.admits(left@[k], right@[k]),
                forall|k: int| 0 <= k < out@.len() ==> op.yields(left@[k], right@[k], out@[k]),
            decreases rows - i,
        {
            proof {
                if cols > 0 {
                    lemma_offset_in_bounds(rows as int, cols as int, i as int, 0);
                }
                assert((i + 1) * cols == i * cols + cols) by (nonlinear_arith);
                assert((i + 1) * cols <= rows * cols) by (nonlinear_arith)
                    requires
                        i + 1 <= rows,
                ;
                assert(left@.len() == left.len());
            }
            let mut j: usize = 0;
            while cols - j >= LANES
                invariant
                    j <= cols,
                    i < rows,
                    cols == self@.cols,
                    left@.len() == right@.len(),
                    left@.len() == left.len(),
                    i * cols + cols <= left@.len(),
                    out@.len() == i * cols + j,
                    forall|k: int| 0 <= k < left@.len() ==> op.admits(left@[k], right@[k]),
                    forall|k: int| 0 <= k < out@.len() ==> op.yields(left@[k], right@[k], out@[k]),
                decreases cols - j,
            {
                let at = self.index(i, j);
                apply_window(op, left, right, at, &mut out);
                j += LANES;
            }
            while j < cols
                invariant
                    j <= cols,
                    i < rows,
                    cols == self@.cols,
                    left@.len() == right@.len(),
                    left@.len() == left.len(),
                    i * cols + cols <= left@.len(),
                    out@.len() == i * cols + j,
                    forall|k: int| 0 <= k < left@.len() ==> op.admits(left@[k], right@[k]),
                    forall|k: int| 0 <= k < out@.len() ==> op.yields(left@[k], right@[k], out@[k]),
                decreases cols - j,
            {
                let at = self.index(i, j);
                apply_scalar(op, left, right, at, &mut out);
                j += 1;
            }
            i += 1;
        }
        Ok(Matrix::from_parts(rows, cols, out))
    }

    /// The entrywise sum of two matrices of the same shape, as a fresh
    /// matrix. Operands of different shapes are refused with
    /// `DimensionMismatch`.
    pub fn add(&self, other: &Matrix<T>) -> (res: Result<Matrix<T>, MatrixError>)
        requires
            self@.same_shape(other@) ==> forall|i: int, j: int|
                #![trigger self@.at(i, j)]
                self@.in_bounds(i, j) ==> can_add(self@.at(i, j), other@.at(i, j)),
        ensures
            res is Ok <==> self@.same_shape(other@),
            res is Err ==> res == Err::<Matrix<T>, MatrixError>(MatrixError::DimensionMismatch),
            res is Ok ==> {
                let m = res->Ok_0@;
                &&& m.wf()
                &&& m.same_shape(self@)
                &&& forall|i: int, j: int|
                    self@.in_bounds(i, j) ==> sum_of(
                        self@.at(i, j),
                        other@.at(i, j),
                        #[trigger] m.at(i, j),
                    )
                &&& T::obeys_add_spec() ==> m == self@.sum(other@)
            },
    {
        proof {
            use_type_invariant(self);
            use_type_invariant(other);
            if self@.same_shape(other@) {
                lemma_admits_at_offsets(Operation::Add, self@, other@);
            }
        }
        let res = self.elementwise(other, Operation::Add);
        proof {
            if res is Ok {
                let m = res->Ok_0@;
                lemma_yields_at_positions(Operation::Add, self@, other@, m);
                if T::obeys_add_spec() {
                    assert forall|k: int| 0 <= k < m.cells.len() implies m.cells[k]
                        == self@.cells[k].add_spec(other@.cells[k]) by {
                        assert(Operation::Add.yields(self@.cells[k], other@.cells[k], m.cells[k]));
                    }
                    assert(m.cells =~= self@.sum(other@).cells);
                }
            }
        }
        res
    }

    /// The entrywise difference of two matrices of the same shape, as a
    /// fresh matrix. Operands of different shapes are refused with
    /// `DimensionMismatch`.
    pub fn subtract(&self, other: &Matrix<T>) -> (res: Result<Matrix<T>, MatrixError>)
        requires
            self@.same_shape(other@) ==> forall|i: int, j: int|
                #![trigger self@.at(i, j)]
                self@.in_bounds(i, j) ==> can_subtract(self@.at(i, j), other@.at(i, j)),
        ensures
            res is Ok <==> self@.same_shape(other@),
            res is Err ==> res == Err::<Matrix<T>, MatrixError>(MatrixError::DimensionMismatch),
            res is Ok ==> {
                let m = res->Ok_0@;
                &&& m.wf()
                &&& m.same_shape(self@)
                &&& forall|i: int, j: int|
                    self@.in_bounds(i, j) ==> difference_of(
                        self@.at(i, j),
                        other@.at(i, j),
                        #[trigger] m.at(i, j),
                    )
                &&& T::obeys_sub_spec() ==> m == self@.difference(other@)
            },
    {
        proof {
            use_type_invariant(self);
            use_type_invariant(other);
            if self@.same_shape(other@) {
                lemma_admits_at_offsets(Operation::Subtract, self@, other@);
            }
        }
        let res = self.elementwise(other, Operation::Subtract);
        proof {
            if res is Ok {
                let m = res->Ok_0@;
                lemma_yields_at_positions(Operation::Subtract, self@, other@, m);
                if T::obeys_sub_spec() {
                    assert forall|k: int| 0 <= k < m.cells.len() implies m.cells[k]
                        == self@.cells[k].sub_spec(other@.cells[k]) by {
                        assert(Operation::Subtract.yields(
                            self@.cells[k],
                            other@.cells[k],
                            m.cells[k],
                        ));
                    }
                    assert(m.cells =~= self@.difference(other@).cells);
                }
            }
        }
        res
    }

    /// The entrywise (Hadamard) product of two matrices of the same shape,
    /// as a fresh matrix. Operands of different shapes are refused with
    /// `DimensionMismatch`.
    pub fn dot_multiply(&self, other: &Matrix<T>) -> (res: Result<Matrix<T>, MatrixError>)
        requires
            self@.same_shape(other@) ==> forall|i: int, j: int|
                #![trigger self@.at(i, j)]
                self@.in_bounds(i, j) ==> can_multiply(self@.at(i, j), other@.at(i, j)),
        ensures
            res is Ok <==> self@.same_shape(other@),
            res is Err ==> res == Err::<Matrix<T>, MatrixError>(MatrixError::DimensionMismatch),
            res is Ok ==> {
                let m = res->Ok_0@;
                &&& m.wf()
                &&& m.same_shape(self@)
                &&& forall|i: int, j: int|
                    self@.in_bounds(i, j) ==> product_of(
                        self@.at(i, j),
                        other@.at(i, j),
                        #[trigger] m.at(i, j),
                    )
                &&& T::obeys_mul_spec() ==> m == self@.hadamard(other@)
            },
    {
        proof {
            use_type_invariant(self);
            use_type_invariant(other);
            if self@.same_shape(other@) {
                lemma_admits_at_offsets(Operation::Multiply, self@, other@);
            }
        }
        let res = self.elementwise(other, Operation::Multiply);
        proof {
            if res is Ok {
                let m = res->Ok_0@;
                lemma_yields_at_positions(Operation::Multiply, self@, other@, m);
                if T::obeys_mul_spec() {
                    assert forall|k: int| 0 <= k < m.cells.len() implies m.cells[k]
                        == self@.cells[k].mul_spec(other@.cells[k]) by {
                        assert(Operation::Multiply.yields(
                            self@.cells[k],
                            other@.cells[k],
                            m.cells[k],
                        ));
                    }
                    assert(m.cells =~= self@.hadamard(other@).cells);
                }
            }
        }
        res
    }
}

} // verus!
