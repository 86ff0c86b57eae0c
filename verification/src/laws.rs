use crate::grid::Grid;
use crate::layout::{lemma_offset_in_bounds, lemma_offset_join, lemma_offset_split};
use crate::scalar::{semiring, sums_reorder, Scalar};
use crate::series::{
    double_series, flip, lemma_accumulate_is_series, lemma_double_series_exchange,
    lemma_series_congruence, lemma_series_scale_left, lemma_series_scale_right, row_sums, slice,
};
use crate::sums::{dot, lemma_batched_dot_is_dot};
use vstd::prelude::*;
use vstd::std_specs::ops::{AddSpec, MulSpec, SubSpec};

verus! {

/// The sum of two matrices of the same shape does not depend on the order of
/// the operands, wherever the scalar addition of their entries does not.
pub proof fn lemma_sum_commutes<T: Scalar>(a: Grid<T>, b: Grid<T>)
    requires
        a.wf(),
        b.wf(),
        a.same_shape(b),
        forall|k: int|
            0 <= k < a.cells.len() ==> #[trigger] a.cells[k].add_spec(b.cells[k])
                == b.cells[k].add_spec(a.cells[k]),
    ensures
        a.sum(b) == b.sum(a),
{
    assert(a.sum(b).cells =~= b.sum(a).cells);
}

/// The Hadamard product of two matrices of the same shape does not depend
/// on the order of the operands, wherever the scalar multiplication of
/// their entries does not.
pub proof fn lemma_hadamard_commutes<T: Scalar>(a: Grid<T>, b: Grid<T>)
    requires
        a.wf(),
        b.wf(),
        a.same_shape(b),
        forall|k: int|
            0 <= k < a.cells.len() ==> #[trigger] a.cells[k].mul_spec(b.cells[k])
                == b.cells[k].mul_spec(a.cells[k]),
    ensures
        a.hadamard(b) == b.hadamard(a),
{
    assert(a.hadamard(b).cells =~= b.hadamard(a).cells);
}

/// Subtracting a matrix from the sum it was added into gives back the other
/// term, entry for entry, wherever the scalar subtraction undoes the scalar
/// addition of the entries.
pub proof fn lemma_difference_undoes_sum<T: Scalar>(a: Grid<T>, b: Grid<T>)
    requires
        a.wf(),
        b.wf(),
        a.same_shape(b),
        forall|k: int|
            0 <= k < a.cells.len() ==> #[trigger] a.cells[k].add_spec(b.cells[k]).sub_spec(
                b.cells[k],
            ) == a.cells[k],
    ensures
        a.sum(b).difference(b) == a,
{
    assert(a.sum(b).difference(b).cells =~= a.cells);
}

/// Transposing twice gives back the matrix.
pub proof fn lemma_transpose_involution<T>(g: Grid<T>)
    requires
        g.wf(),
    ensures
        g.transpose().wf(),
        g.transpose().transpose() == g,
{
    let t = g.transpose();
    let tt = t.transpose();
    assert(g.rows * g.cols == g.cols * g.rows) by (nonlinear_arith);
    assert forall|k: int| 0 <= k < g.cells.len() implies tt.cells[k] == g.cells[k] by {
        if g.cols == 0 {
            assert(g.rows * g.cols == 0) by (nonlinear_arith)
                requires
                    g.cols == 0,
            ;
        }
        lemma_offset_join(g.rows as int, g.cols as int, k);
        let row = k / (g.cols as int);
        let col = k % (g.cols as int);
        lemma_offset_in_bounds(g.cols as int, g.rows as int, col, row);
        lemma_offset_split(g.rows as int, col, row);
    }
    assert(tt.cells =~= g.cells);
}

/// Where sums reorder, batching changes no entry of a product: whatever the
/// inner dimension, and so whether or not it is a multiple of the batch
/// width, the batched product is the product of plain sums.
pub proof fn lemma_batched_product_is_product<T: Scalar>(a: Grid<T>, b: Grid<T>)
    requires
        sums_reorder::<T>(),
    ensures
        a.batched_product(b) == a.product(b),
{
    let batched = a.batched_product(b);
    let plain = a.product(b);
    assert forall|k: int| 0 <= k < batched.cells.len() implies batched.cells[k]
        == plain.cells[k] by {
        lemma_batched_dot_is_dot(a.row(k / (b.cols as int)), b.column(k % (b.cols as int)));
    }
    assert(batched.cells =~= plain.cells);
}

/// Every entry of a product is the plain dot product of a row of the left
/// factor with a column of the right factor.
pub proof fn lemma_product_entry<T: Scalar>(a: Grid<T>, b: Grid<T>, i: int, j: int)
    requires
        0 <= i < a.rows,
        0 <= j < b.cols,
    ensures
        a.product(b).wf(),
        a.product(b).in_bounds(i, j),
        a.product(b).at(i, j) == dot(a.row(i), b.column(j)),
{
    lemma_offset_in_bounds(a.rows as int, b.cols as int, i, j);
    lemma_offset_split(b.cols as int, i, j);
}

/// Over a semiring, the entry at `(i, j)` is the same whichever of the two
/// products of three matrices is formed first.
pub proof fn lemma_product_entry_associates<T: Scalar>(
    a: Grid<T>,
    b: Grid<T>,
    c: Grid<T>,
    i: int,
    j: int,
)
    requires
        a.cols == b.rows,
        b.cols == c.rows,
        semiring::<T>(),
        0 <= i < a.rows,
        0 <= j < c.cols,
    ensures
        dot(a.product(b).row(i), c.column(j)) == dot(a.row(i), b.product(c).column(j)),
{
    let ab = a.product(b);
    let bc = b.product(c);
    let m = a.cols;
    let p = b.cols;
    let terms = |k: int, l: int| a.at(i, l).mul_spec(b.at(l, k)).mul_spec(c.at(k, j));
    let turned = flip(terms);

    let x = ab.row(i);
    let y = c.column(j);
    let u = |k: int| x[k].mul_spec(y[k]);
    lemma_accumulate_is_series(x, y, u, p);
    assert forall|k: int| 0 <= k < p implies #[trigger] u(k) == row_sums(terms, m)(k) by {
        lemma_product_entry(a, b, i, k);
        let w = |l: int| a.at(i, l).mul_spec(b.at(l, k));
        lemma_accumulate_is_series(a.row(i), b.column(k), w, m);
        assert forall|l: int| 0 <= l < m implies #[trigger] slice(terms, k)(l) == w(l).mul_spec(
            c.at(k, j),
        ) by {
        }
        lemma_series_scale_right(w, slice(terms, k), c.at(k, j), m);
    }
    lemma_series_congruence(u, row_sums(terms, m), p);
    assert(dot(x, y) == double_series(terms, p, m));

    lemma_double_series_exchange(terms, p, m);

    let x2 = a.row(i);
    let y2 = bc.column(j);
    let u2 = |l: int| x2[l].mul_spec(y2[l]);
    lemma_accumulate_is_series(x2, y2, u2, m);
    assert forall|l: int| 0 <= l < m implies #[trigger] u2(l) == row_sums(turned, p)(l) by {
        lemma_product_entry(b, c, l, j);
        let w2 = |k: int| b.at(l, k).mul_spec(c.at(k, j));
        lemma_accumulate_is_series(b.row(l), c.column(j), w2, p);
        assert forall|k: int| 0 <= k < p implies #[trigger] slice(turned, l)(k) == a.at(
            i,
            l,
        ).mul_spec(w2(k)) by {
            assert(slice(turned, l)(k) == terms(k, l));
            assert(a.at(i, l).mul_spec(b.at(l, k)).mul_spec(c.at(k, j)) == a.at(i, l).mul_spec(
                b.at(l, k).mul_spec(c.at(k, j)),
            ));
        }
        lemma_series_scale_left(w2, slice(turned, l), a.at(i, l), p);
    }
    lemma_series_congruence(u2, row_sums(turned, p), m);
    assert(dot(x2, y2) == double_series(turned, m, p));
}

/// Over a semiring, the matrix product is associative: for matrices of
/// compatible shapes, `(a * b) * c` and `a * (b * c)` are the same matrix.
pub proof fn lemma_product_associates<T: Scalar>(a: Grid<T>, b: Grid<T>, c: Grid<T>)
    requires
        a.wf(),
        b.wf(),
        c.wf(),
        a.cols == b.rows,
        b.cols == c.rows,
        semiring::<T>(),
    ensures
        a.product(b).product(c) == a.product(b.product(c)),
{
    let left = a.product(b).product(c);
    let right = a.product(b.product(c));
    assert forall|k: int| 0 <= k < left.cells.len() implies left.cells[k] == right.cells[k] by {
        if c.cols == 0 {
            assert(a.rows * c.cols == 0) by (nonlinear_arith)
                requires
                    c.cols == 0,
            ;
        }
        lemma_offset_join(a.rows as int, c.cols as int, k);
        lemma_product_entry_associates(a, b, c, k / (c.cols as int), k % (c.cols as int));
    }
    assert(left.cells =~= right.cells);
}

} // verus!
