use vstd::prelude::*;

verus! {

/// The linear offset of position `(row, col)` in a row-major buffer whose
/// rows hold `cols` entries each.
pub open spec fn offset(cols: int, row: int, col: int) -> int {
    row * cols + col
}

/// Every position inside a `rows` by `cols` matrix has an offset inside the
/// buffer of `rows * cols` entries.
pub proof fn lemma_offset_in_bounds(rows: int, cols: int, row: int, col: int)
    requires
        0 <= row < rows,
        0 <= col < cols,
    ensures
        0 <= offset(cols, row, col) < rows * cols,
        row * cols <= offset(cols, row, col) < (row + 1) * cols,
        (row + 1) * cols <= rows * cols,
{
    assert(0 <= row * cols) by (nonlinear_arith)
        requires
            0 <= row,
            0 <= cols,
    ;
    assert((row + 1) * cols == row * cols + cols) by (nonlinear_arith);
    assert((row + 1) * cols <= rows * cols) by (nonlinear_arith)
        requires
            row + 1 <= rows,
            0 <= cols,
    ;
}

/// The offset determines the position: row and column are its quotient and
/// remainder by the row length.
pub proof fn lemma_offset_split(cols: int, row: int, col: int)
    requires
        0 <= row,
        0 <= col < cols,
    ensures
        offset(cols, row, col) / cols == row,
        offset(cols, row, col) % cols == col,
{
    vstd::arithmetic::div_mod::lemma_fundamental_div_mod_converse(
        offset(cols, row, col),
        cols,
        row,
        col,
    );
}

/// Every offset below `rows * cols` is the offset of exactly the position
/// given by its quotient and remainder by `cols`.
pub proof fn lemma_offset_join(rows: int, cols: int, k: int)
    requires
        0 <= k < rows * cols,
        0 < cols,
    ensures
        0 <= k / cols < rows,
        0 <= k % cols < cols,
        offset(cols, k / cols, k % cols) == k,
{
    vstd::arithmetic::div_mod::lemma_fundamental_div_mod(k, cols);
    vstd::arithmetic::div_mod::lemma_mod_bound(k, cols);
    vstd::arithmetic::div_mod::lemma_div_pos_is_pos(k, cols);
    assert(cols * (k / cols) == (k / cols) * cols) by (nonlinear_arith);
    if k / cols >= rows {
        assert((k / cols) * cols >= rows * cols) by (nonlinear_arith)
            requires
                k / cols >= rows,
                cols > 0,
        ;
    }
}

} // verus!
