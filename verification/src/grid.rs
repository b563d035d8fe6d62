//! Index arithmetic for row-major grids: decomposing a linear cell index
//! into a row and a column, and the diagonal-neighbor relation.

use vstd::arithmetic::div_mod::{lemma_fundamental_div_mod, lemma_fundamental_div_mod_converse};
use vstd::prelude::*;

verus! {

/// Row of the cell with linear index `idx` on a grid with `cols` columns.
pub open spec fn row_of(cols: nat, idx: int) -> int {
    idx / (cols as int)
}

/// Column of the cell with linear index `idx` on a grid with `cols` columns.
pub open spec fn col_of(cols: nat, idx: int) -> int {
    idx % (cols as int)
}

/// The cell with linear index `idx` sits one diagonal step away from
/// (`row`, `col`): its row differs by exactly one and so does its column.
pub open spec fn is_diag_neighbor(cols: nat, row: int, col: int, idx: int) -> bool {
    &&& (row_of(cols, idx) == row - 1 || row_of(cols, idx) == row + 1)
    &&& (col_of(cols, idx) == col - 1 || col_of(cols, idx) == col + 1)
}

/// Composing a row and a column into a linear index lands inside the grid
/// and decomposes back into the same coordinates.
pub proof fn lemma_row_major_bounds(row: int, col: int, rows: int, cols: int)
    requires
        0 <= row < rows,
        0 <= col < cols,
    ensures
        0 <= row * cols + col < rows * cols,
        row_of(cols as nat, row * cols + col) == row,
        col_of(cols as nat, row * cols + col) == col,
{
    assert(0 <= row * cols + col < rows * cols) by (nonlinear_arith)
        requires
            0 <= row < rows,
            0 <= col < cols,
    ;
    lemma_fundamental_div_mod_converse(row * cols + col, cols, row, col);
}

/// A linear index inside the grid decomposes into in-range coordinates
/// that compose back into the same index.
pub proof fn lemma_index_decompose(rows: nat, cols: nat, idx: int)
    requires
        0 <= idx < rows * cols,
    ensures
        0 <= row_of(cols, idx) < rows,
        0 <= col_of(cols, idx) < cols,
        row_of(cols, idx) * cols + col_of(cols, idx) == idx,
{
    assert(cols > 0) by (nonlinear_arith)
        requires
            0 <= idx < rows * cols,
    ;
    lemma_fundamental_div_mod(idx, cols as int);
    assert(0 <= idx % (cols as int) < cols as int) by (nonlinear_arith)
        requires
            cols > 0,
    ;
    assert(0 <= idx / (cols as int) < rows) by (nonlinear_arith)
        requires
            cols > 0,
            0 <= idx < rows * cols,
            idx == (cols as int) * (idx / (cols as int)) + idx % (cols as int),
            0 <= idx % (cols as int) < cols as int,
    ;
    assert((idx / (cols as int)) * (cols as int) == (cols as int) * (idx / (cols as int)))
        by (nonlinear_arith);
}

/// The cells of row `row` are exactly the linear indices in the interval
/// from `row * cols` (inclusive) to `row * cols + cols` (exclusive).
pub proof fn lemma_row_interval(cols: nat, row: int, idx: int)
    requires
        cols > 0,
        0 <= idx,
        0 <= row,
    ensures
        row_of(cols, idx) == row <==> row * cols <= idx < row * cols + cols,
{
    lemma_fundamental_div_mod(idx, cols as int);
    if row_of(cols, idx) == row {
        assert(0 <= idx % (cols as int) < cols as int) by (nonlinear_arith)
            requires
                cols > 0,
        ;
        assert(row * cols <= idx < row * cols + cols) by (nonlinear_arith)
            requires
                idx == (cols as int) * (idx / (cols as int)) + idx % (cols as int),
                idx / (cols as int) == row,
                0 <= idx % (cols as int) < cols as int,
        ;
    }
    if row * cols <= idx < row * cols + cols {
        lemma_fundamental_div_mod_converse(idx, cols as int, row, idx - row * cols);
    }
}

} // verus!
