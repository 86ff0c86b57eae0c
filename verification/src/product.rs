use crate::elementwise::LANES;
use crate::error::MatrixError;
use crate::grid::{lemma_row_is_window, lemma_transpose_row_is_column};
use crate::layout::{lemma_offset_in_bounds, lemma_offset_join, offset};
use crate::matrix::{buffer, Matrix};
use crate::scalar::{
    can_add, can_multiply, exact, is_zero, product_of, sum_of, sums_reorder, total, Scalar,
};
use crate::sums::{lemma_batched_dot_is_dot, lemma_dot_of_exact};
use vstd::prelude::*;

verus! {

/// `r` is a value that the multiply-accumulate step `acc + a * b` may give.
pub open spec fn fused<T: Scalar>(acc: T, a: T, b: T, r: T) -> bool {
    exists|p: T| #[trigger] product_of(a, b, p) && sum_of(acc, p, r)
}

/// The scalar type accepts the multiply-accumulate step `acc + a * b`.
pub open spec fn can_fuse<T: Scalar>(acc: T, a: T, b: T) -> bool {
    &&& can_multiply(a, b)
    &&& forall|p: T| #[trigger] product_of(a, b, p) ==> can_add(acc, p)
}

/// `r` is a value that may result from `init` after `count`
/// multiply-accumulate steps, in order, over the pairs of `x` and `y` at
/// offsets `start`, `start + stride`, `start + 2 * stride` and so on.
pub open spec fn accumulates<T: Scalar>(
    x: Seq<T>,
    y: Seq<T>,
    start: int,
    stride: int,
    count: nat,
    init: T,
    r: T,
) -> bool
    decreases count,
{
    if count == 0 {
        r == init
    } else {
        let at = start + (count - 1) * stride;
        exists|prev: T|
            accumulates(x, y, start, stride, (count - 1) as nat, init, prev) && #[trigger] fused(
                prev,
                x[at],
                y[at],
                r,
            )
    }
}

/// The scalar type accepts every step of the accumulation that
/// [`accumulates`] describes, whatever the steps before it gave.
pub open spec fn can_accumulate<T: Scalar>(
    x: Seq<T>,
    y: Seq<T>,
    start: int,
    stride: int,
    count: nat,
    init: T,
) -> bool
    decreases count,
{
    count == 0 || {
        let at = start + (count - 1) * stride;
        &&& can_accumulate(x, y, start, stride, (count - 1) as nat, init)
        &&& forall|prev: T| #[trigger]
            accumulates(x, y, start, stride, (count - 1) as nat, init, prev) ==> can_fuse(
                prev,
                x[at],
                y[at],
            )
    }
}

/// The partial sums of one batch: lane `l` accumulates the pairs at the
/// offsets that leave remainder `l` on division by `LANES`.
pub struct Lanes<T> {
    pub first: T,
    pub second: T,
    pub third: T,
    pub fourth: T,
}

/// `v` may hold the partial sums after `chunks` whole batches of `x` and
/// `y`, every lane having started from `zero`.
pub open spec fn lanes_after<T: Scalar>(
    x: Seq<T>,
    y: Seq<T>,
    chunks: nat,
    zero: T,
    v: Lanes<T>,
) -> bool {
    &&& accumulates(x, y, 0, LANES as int, chunks, zero, v.first)
    &&& accumulates(x, y, 1, LANES as int, chunks, zero, v.second)
    &&& accumulates(x, y, 2, LANES as int, chunks, zero, v.third)
    &&& accumulates(x, y, 3, LANES as int, chunks, zero, v.fourth)
}

/// The scalar type accepts every step of `chunks` whole batches.
pub open spec fn can_batch<T: Scalar>(x: Seq<T>, y: Seq<T>, chunks: nat, zero: T) -> bool {
    &&& can_accumulate(x, y, 0, LANES as int, chunks, zero)
    &&& can_accumulate(x, y, 1, LANES as int, chunks, zero)
    &&& can_accumulate(x, y, 2, LANES as int, chunks, zero)
    &&& can_accumulate(x, y, 3, LANES as int, chunks, zero)
}

/// `h` is a value that the horizontal reduction of `v` may give: its lanes
/// added up from the first to the last, each lane exactly once.
pub open spec fn reduced<T: Scalar>(v: Lanes<T>, h: T) -> bool {
    exists|s: T, t: T| #[trigger]
        sum_of(v.first, v.second, s) && #[trigger] sum_of(s, v.third, t) && sum_of(
            t,
            v.fourth,
            h,
        )
}

/// The scalar type accepts every addition of the horizontal reduction.
pub open spec fn can_reduce<T: Scalar>(v: Lanes<T>) -> bool {
    &&& can_add(v.first, v.second)
    &&& forall|s: T| #[trigger] sum_of(v.first, v.second, s) ==> can_add(s, v.third)
    &&& forall|s: T, t: T| #[trigger]
        sum_of(v.first, v.second, s) && #[trigger] sum_of(s, v.third, t) ==> can_add(t, v.fourth)
}

/// The number of whole batches in a row of `len` entries.
pub open spec fn whole_batches(len: nat) -> nat {
    len / (LANES as nat)
}

/// `r` is a value that the batched dot product of `x` and `y` may give:
/// whole batches accumulate into lanes that start from zero, the lanes are
/// reduced to one scalar, and the entries that remain after the last whole
/// batch are accumulated onto it one by one.
pub open spec fn dot_of<T: Scalar>(x: Seq<T>, y: Seq<T>, r: T) -> bool {
    let chunks = whole_batches(x.len());
    exists|zero: T, v: Lanes<T>, h: T|
        is_zero(zero) && #[trigger] lanes_after(x, y, chunks, zero, v) && #[trigger] reduced(v, h)
            && accumulates(x, y, chunks * LANES, 1, (x.len() - chunks * LANES) as nat, h, r)
}

/// The scalar type accepts every step of the batched dot product of `x` and
/// `y`.
pub open spec fn can_dot<T: Scalar>(x: Seq<T>, y: Seq<T>) -> bool {
    let chunks = whole_batches(x.len());
    let rest = (x.len() - chunks * LANES) as nat;
    &&& forall|zero: T| #[trigger] is_zero(zero) ==> can_batch(x, y, chunks, zero)
    &&& forall|zero: T, v: Lanes<T>|
        is_zero(zero) && #[trigger] lanes_after(x, y, chunks, zero, v) ==> can_reduce(v)
    &&& forall|zero: T, v: Lanes<T>, h: T|
        is_zero(zero) && #[trigger] lanes_after(x, y, chunks, zero, v) && #[trigger] reduced(v, h)
            ==> can_accumulate(x, y, chunks * LANES, 1, rest, h)
}

/// One multiply-accumulate step on scalars.
pub fn fuse<T: Scalar>(acc: T, a: T, b: T) -> (r: T)
    requires
        can_fuse(acc, a, b),
    ensures
        fused(acc, a, b, r),
{
    let p = a * b;
    assert(product_of(a, b, p));
    acc + p
}

/// An accumulation that the scalar type accepts is accepted up to every
/// earlier step as well.
pub proof fn lemma_can_accumulate_prefix<T: Scalar>(
    x: Seq<T>,
    y: Seq<T>,
    start: int,
    stride: int,
    count: nat,
    init: T,
    shorter: nat,
)
    requires
        can_accumulate(x, y, start, stride, count, init),
        shorter <= count,
    ensures
        can_accumulate(x, y, start, stride, shorter, init),
    decreases count,
{
    if shorter < count {
        lemma_can_accumulate_prefix(x, y, start, stride, (count - 1) as nat, init, shorter);
    }
}

/// A scalar type that accepts every operation accepts every accumulation.
pub proof fn lemma_total_can_accumulate<T: Scalar>(
    x: Seq<T>,
    y: Seq<T>,
    start: int,
    stride: int,
    count: nat,
    init: T,
)
    requires
        total::<T>(),
    ensures
        can_accumulate(x, y, start, stride, count, init),
    decreases count,
{
    if count > 0 {
        lemma_total_can_accumulate(x, y, start, stride, (count - 1) as nat, init);
    }
}

/// A scalar type that accepts every operation accepts every dot product.
pub proof fn lemma_total_can_dot<T: Scalar>(x: Seq<T>, y: Seq<T>)
    requires
        total::<T>(),
    ensures
        can_dot(x, y),
{
    let chunks = whole_batches(x.len());
    let rest = (x.len() - chunks * LANES) as nat;
    assert forall|zero: T| #[trigger] is_zero(zero) implies can_batch(x, y, chunks, zero) by {
        lemma_total_can_accumulate(x, y, 0, LANES as int, chunks, zero);
        lemma_total_can_accumulate(x, y, 1, LANES as int, chunks, zero);
        lemma_total_can_accumulate(x, y, 2, LANES as int, chunks, zero);
        lemma_total_can_accumulate(x, y, 3, LANES as int, chunks, zero);
    }
    assert forall|zero: T, v: Lanes<T>, h: T|
        is_zero(zero) && #[trigger] lanes_after(x, y, chunks, zero, v) && #[trigger] reduced(
            v,
            h,
        ) implies can_accumulate(x, y, chunks * LANES, 1, rest, h) by {
        lemma_total_can_accumulate(x, y, chunks * LANES, 1, rest, h);
    }
}

/// One batch of the product kernel: every lane takes one multiply-accumulate
/// step, on the `LANES` contiguous pairs that start at `a` in `left` and at
/// `b` in `right`.
pub fn accumulate_window<T: Scalar>(
    v: Lanes<T>,
    left: &Vec<T>,
    a: usize,
    right: &Vec<T>,
    b: usize,
) -> (r: Lanes<T>)
    requires
        a + LANES <= left@.len(),
        b + LANES <= right@.len(),
        can_fuse(v.first, left@[a as int], right@[b as int]),
        can_fuse(v.second, left@[a + 1], right@[b + 1]),
        can_fuse(v.third, left@[a + 2], right@[b + 2]),
        can_fuse(v.fourth, left@[a + 3], right@[b + 3]),
    ensures
        fused(v.first, left@[a as int], right@[b as int], r.first),
        fused(v.second, left@[a + 1], right@[b + 1], r.second),
        fused(v.third, left@[a + 2], right@[b + 2], r.third),
        fused(v.fourth, left@[a + 3], right@[b + 3], r.fourth),
{
    assert(left@.len() == left.len());
    assert(right@.len() == right.len());
    Lanes {
        first: fuse(v.first, left[a], right[b]),
        second: fuse(v.second, left[a + 1], right[b + 1]),
        third: fuse(v.third, left[a + 2], right[b + 2]),
        fourth: fuse(v.fourth, left[a + 3], right[b + 3]),
    }
}

/// The horizontal reduction of the lanes to one scalar.
pub fn reduce<T: Scalar>(v: Lanes<T>) -> (h: T)
    requires
        can_reduce(v),
    ensures
        reduced(v, h),
{
    let s = v.first + v.second;
    assert(sum_of(v.first, v.second, s));
    let t = s + v.third;
    assert(sum_of(s, v.third, t));
    t + v.fourth
}

/// The batched dot product of the `len` contiguous entries of `left` that
/// start at `a` with the `len` contiguous entries of `right` that start at
/// `b`.
pub fn dot<T: Scalar>(left: &Vec<T>, a: usize, right: &Vec<T>, b: usize, len: usize) -> (r: T)
    requires
        a + len <= left@.len(),
        b + len <= right@.len(),
        can_dot(left@.subrange(a as int, a + len), right@.subrange(b as int, b + len)),
    ensures
        dot_of(left@.subrange(a as int, a + len), right@.subrange(b as int, b + len), r),
{
    let ghost x = left@.subrange(a as int, a + len);
    let ghost y = right@.subrange(b as int, b + len);
    let ghost chunks = whole_batches(len as nat);
    assert(left@.len() == left.len());
    assert(right@.len() == right.len());
    let zero = T::default();
    assert(x.len() == len && is_zero(zero));
    let mut v = Lanes { first: zero, second: zero, third: zero, fourth: zero };
    let mut k: usize = 0;
    let ghost mut done: nat = 0;
    while len - k >= LANES
        invariant
            k <= len,
            k == done * LANES,
            done <= chunks,
            chunks == whole_batches(len as nat),
            a + len <= left@.len() <= usize::MAX,
            b + len <= right@.len() <= usize::MAX,
            x == left@.subrange(a as int, a + len),
            y == right@.subrange(b as int, b + len),
            is_zero(zero),
            can_batch(x, y, chunks, zero),
            lanes_after(x, y, done, zero, v),
        decreases len - k,
    {
        proof {
            assert(done + 1 <= chunks) by {
                assert(done * 4 + 4 <= len);
                assert((done + 1) * 4 <= len);
                assert(done + 1 <= len as int / 4) by (nonlinear_arith)
                    requires
                        (done + 1) * 4 <= len as int,
                ;
            }
            lemma_can_accumulate_prefix(x, y, 0, LANES as int, chunks, zero, done + 1);
            lemma_can_accumulate_prefix(x, y, 1, LANES as int, chunks, zero, done + 1);
            lemma_can_accumulate_prefix(x, y, 2, LANES as int, chunks, zero, done + 1);
            lemma_can_accumulate_prefix(x, y, 3, LANES as int, chunks, zero, done + 1);
            assert(x[k as int] == left@[a + k]);
            assert(x[k + 1] == left@[a + k + 1]);
            assert(x[k + 2] == left@[a + k + 2]);
            assert(x[k + 3] == left@[a + k + 3]);
            assert(y[k as int] == right@[b + k]);
            assert(y[k + 1] == right@[b + k + 1]);
            assert(y[k + 2] == right@[b + k + 2]);
            assert(y[k + 3] == right@[b + k + 3]);
        }
        let ghost before = v;
        v = accumulate_window(v, left, a + k, right, b + k);
        proof {
            assert(accumulates(x, y, 0, LANES as int, done + 1, zero, v.first)) by {
                assert(accumulates(x, y, 0, LANES as int, done, zero, before.first));
            }
            assert(accumulates(x, y, 1, LANES as int, done + 1, zero, v.second)) by {
                assert(accumulates(x, y, 1, LANES as int, done, zero, before.second));
            }
            assert(accumulates(x, y, 2, LANES as int, done + 1, zero, v.third)) by {
                assert(accumulates(x, y, 2, LANES as int, done, zero, before.third));
            }
            assert(accumulates(x, y, 3, LANES as int, done + 1, zero, v.fourth)) by {
                assert(accumulates(x, y, 3, LANES as int, done, zero, before.fourth));
            }
            done = done + 1;
        }
        k += LANES;
    }
    proof {
        assert(done == chunks) by {
            assert(len as int / 4 < done + 1) by (nonlinear_arith)
                requires
                    len as int - done * 4 < 4,
                    done >= 0,
            ;
        }
    }
    let ghost rest = (len - chunks * LANES) as nat;
    let mut total = reduce(v);
    let ghost h = total;
    let ghost mut taken: nat = 0;
    while k < len
        invariant
            k <= len,
            k == chunks * LANES + taken,
            rest == len - chunks * LANES,
            a + len <= left@.len() <= usize::MAX,
            b + len <= right@.len() <= usize::MAX,
            x == left@.subrange(a as int, a + len),
            y == right@.subrange(b as int, b + len),
            can_accumulate(x, y, chunks * LANES, 1, rest, h),
            accumulates(x, y, chunks * LANES, 1, taken, h, total),
        decreases len - k,
    {
        proof {
            lemma_can_accumulate_prefix(x, y, chunks * LANES, 1, rest, h, taken + 1);
            assert(x[k as int] == left@[a + k]);
            assert(y[k as int] == right@[b + k]);
        }
        let ghost before = total;
        total = fuse(total, left[a + k], right[b + k]);
        proof {
            assert(accumulates(x, y, chunks * LANES, 1, taken + 1, h, total)) by {
                assert(accumulates(x, y, chunks * LANES, 1, taken, h, before));
            }
            taken = taken + 1;
        }
        k += 1;
    }
    proof {
        assert(taken == rest);
        assert(lanes_after(x, y, chunks, zero, v) && reduced(v, h));
    }
    total
}

impl<T: Scalar> Matrix<T> {
    /// The matrix product. The right operand is transposed once, so that
    /// every entry of the result is the batched dot product of two
    /// contiguous rows: row `i` of this matrix and row `j` of the transposed
    /// operand, which is column `j` of `other`. Operands whose inner
    /// dimensions differ are refused with `DimensionMismatch`.
    pub fn multiply(&self, other: &Matrix<T>) -> (res: Result<Matrix<T>, MatrixError>)
        requires
            self@.cols == other@.rows ==> forall|i: int, j: int|
                #![trigger self@.row(i), other@.column(j)]
                0 <= i < self@.rows && 0 <= j < other@.cols ==> can_dot(
                    self@.row(i),
                    other@.column(j),
                ),
        ensures
            res is Ok <==> self@.cols == other@.rows,
            res is Err ==> res == Err::<Matrix<T>, MatrixError>(MatrixError::DimensionMismatch),
            res is Ok ==> {
                let m = res->Ok_0@;
                &&& m.wf()
                &&& m.rows == self@.rows
                &&& m.cols == other@.cols
                &&& forall|i: int, j: int|
                    m.in_bounds(i, j) ==> dot_of(
                        self@.row(i),
                        other@.column(j),
                        #[trigger] m.at(i, j),
                    )
                &&& exact::<T>() ==> m == self@.batched_product(other@)
                &&& exact::<T>() && sums_reorder::<T>() ==> m == self@.product(other@)
            },
    {
        if self.cols() != other.rows() {
            return Err(MatrixError::DimensionMismatch);
        }
        let turned = other.transpose();
        let rows = self.rows();
        let inner = self.cols();
        let cols = other.cols();
        let left = self.data();
        let right = turned.data();
        let mut out: Vec<T> = buffer(rows, cols);
        let mut i: usize = 0;
        while i < rows
            invariant
                i <= rows,
                rows == self@.rows,
                inner == self@.cols,
                inner == other@.rows,
                cols == other@.cols,
                self@.wf(),
                other@.wf(),
                turned@ == other@.transpose(),
                left@ == self@.cells,
                right@ == turned@.cells,
                forall|r: int, c: int|
                    #![trigger self@.row(r), other@.column(c)]
                    0 <= r < rows && 0 <= c < cols ==> can_dot(self@.row(r), other@.column(c)),
                out@.len() == i * cols,
                forall|r: int, c: int|
                    0 <= r < i && 0 <= c < cols ==> dot_of(
                        self@.row(r),
                        other@.column(c),
                        #[trigger] out@[offset(cols as int, r, c)],
                    ),
            decreases rows - i,
        {
            let mut j: usize = 0;
            while j < cols
                invariant
                    i < rows,
                    j <= cols,
                    rows == self@.rows,
                    inner == self@.cols,
                    inner == other@.rows,
                    cols == other@.cols,
                        self@.wf(),
                    other@.wf(),
                    turned@ == other@.transpose(),
                    left@ == self@.cells,
                    right@ == turned@.cells,
                    forall|r: int, c: int|
                        #![trigger self@.row(r), other@.column(c)]
                        0 <= r < rows && 0 <= c < cols ==> can_dot(self@.row(r), other@.column(c)),
                    out@.len() == i * cols + j,
                    forall|r: int, c: int|
                        0 <= r < i && 0 <= c < cols ==> dot_of(
                            self@.row(r),
                            other@.column(c),
                            #[trigger] out@[offset(cols as int, r, c)],
                        ),
                    forall|c: int|
                        0 <= c < j ==> dot_of(
                            self@.row(i as int),
                            other@.column(c),
                            #[trigger] out@[offset(cols as int, i as int, c)],
                        ),
                decreases cols - j,
            {
                proof {
                    lemma_row_is_window(self@, i as int);
                    lemma_transpose_row_is_column(other@, j as int);
                    lemma_row_is_window(turned@, j as int);
                    assert(left@.len() == left.len());
                    assert(right@.len() == right.len());
                    assert(can_dot(self@.row(i as int), other@.column(j as int)));
                    assert forall|r: int, c: int| 0 <= r < i && 0 <= c < cols implies #[trigger] offset(
                        cols as int,
                        r,
                        c,
                    ) < i * cols by {
                        lemma_offset_in_bounds(i as int, cols as int, r, c);
                    }
                }
                let a = self.index(i, 0);
                let b = turned.index(j, 0);
                let entry = dot(left, a, right, b, inner);
                out.push(entry);
                j += 1;
            }
            proof {
                assert((i + 1) * cols == i * cols + cols) by (nonlinear_arith);
            }
            i += 1;
        }
        let res = Matrix::from_parts(rows, cols, out);
        proof {
            assert forall|r: int, c: int| res@.in_bounds(r, c) implies dot_of(
                self@.row(r),
                other@.column(c),
                #[trigger] res@.at(r, c),
            ) by {
                assert(res@.at(r, c) == out@[offset(cols as int, r, c)]);
            }
            if exact::<T>() {
                let batched = self@.batched_product(other@);
                assert forall|k: int| 0 <= k < res@.cells.len() implies res@.cells[k]
                    == batched.cells[k] by {
                    if cols == 0 {
                        assert(rows * cols == 0) by (nonlinear_arith)
                            requires
                                cols == 0,
                        ;
                    }
                    lemma_offset_join(rows as int, cols as int, k);
                    let r = k / (cols as int);
                    let c = k % (cols as int);
                    assert(res@.in_bounds(r, c));
                    assert(res@.at(r, c) == res@.cells[k]);
                    lemma_dot_of_exact(self@.row(r), other@.column(c), res@.cells[k]);
                }
                assert(res@.cells =~= batched.cells);
                if sums_reorder::<T>() {
                    let plain = self@.product(other@);
                    assert forall|k: int| 0 <= k < batched.cells.len() implies batched.cells[k]
                        == plain.cells[k] by {
                        lemma_batched_dot_is_dot(
                            self@.row(k / (cols as int)),
                            other@.column(k % (cols as int)),
                        );
                    }
                    assert(batched.cells =~= plain.cells);
                }
            }
        }
        Ok(res)
    }
}

} // verus!
