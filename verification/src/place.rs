//! The placement engine: validate one marker placement and compute every
//! cell it blocks.

use crate::board::{BoardModel, QueenBoard};
use crate::grid::{col_of, is_diag_neighbor, lemma_index_decompose, row_of};
use vstd::prelude::*;

verus! {

/// The outcome of attempting to place a queen on a board.
#[derive(Debug, PartialEq)]
pub enum BoardPlacementResult {
    /// The queen was successfully placed; the payload is the new board.
    Success(QueenBoard),
    /// The queen was not placed because the spot was already claimed.
    SpotOccupied,
    /// The queen was not placed because the spot is not in the color region.
    NotInColorRegion,
    /// The queen was not placed because the index at which it was attempted
    /// to be placed is out of bounds.
    IndexOutOfBounds,
    /// The region mask's shape differs from the board's.
    DimensionMismatch,
}

/// Some cell of the mask is set.
pub open spec fn mask_nonempty(m: BoardModel) -> bool {
    exists|i: int| 0 <= i < m.cells.len() && m.cells[i]
}

/// The mask's cell at linear index `idx` is set.
pub open spec fn mask_contains(m: BoardModel, idx: int) -> bool {
    0 <= idx < m.cells.len() && m.cells[idx]
}

/// All of `place`'s checks pass: the index is on the board, a non-empty
/// mask contains it, the spot is free, and the mask's shape matches.
pub open spec fn place_ok(board: BoardModel, mask: BoardModel, idx: int) -> bool {
    &&& 0 <= idx < board.rows * board.cols
    &&& !(mask_nonempty(mask) && !mask_contains(mask, idx))
    &&& !board.cells[idx]
    &&& mask.rows == board.rows
    &&& mask.cols == board.cols
}

/// Whether cell `i` is set after a successful placement at `idx`: it was
/// already set, it is the placed cell, it shares the placed cell's row or
/// column, it is one diagonal step from the placed cell, or the mask holds it.
pub open spec fn placement_cell(board: BoardModel, mask: BoardModel, idx: int, i: int) -> bool {
    ||| board.cells[i]
    ||| i == idx
    ||| row_of(board.cols, i) == row_of(board.cols, idx)
    ||| col_of(board.cols, i) == col_of(board.cols, idx)
    ||| is_diag_neighbor(board.cols, row_of(board.cols, idx), col_of(board.cols, idx), i)
    ||| mask.cells[i]
}

/// The board a successful placement at `idx` returns.
pub open spec fn place_result(board: BoardModel, mask: BoardModel, idx: int) -> BoardModel {
    BoardModel {
        rows: board.rows,
        cols: board.cols,
        cells: Seq::new(board.rows * board.cols, |i: int| placement_cell(board, mask, idx, i)),
    }
}

/// True when `x` occurs in `v`.
fn vec_contains(v: &Vec<usize>, x: usize) -> (r: bool)
    ensures
        r == v@.contains(x),
{
    for k in 0..v.len()
        invariant
            forall|j: int| 0 <= j < k ==> v@[j] != x,
    {
        if v[k] == x {
            return true;
        }
    }
    assert(!v@.contains(x));
    false
}

/// Attempt to place a queen at linear index `index` of `board`, inside the
/// color region `region_mask`.
///
/// The checks run in this order: an index at or past the end of the grid is
/// `IndexOutOfBounds`; an index outside a non-empty region mask is
/// `NotInColorRegion` (even when the spot is free); an already-set spot is
/// `SpotOccupied`; a mask whose shape differs from the board's is
/// `DimensionMismatch`.  Otherwise the call succeeds and returns a new board
/// equal to the old one with the placed cell, its full row, its full column,
/// its diagonal neighbors and the whole region mask set; the input board is
/// never changed.
pub fn place(board: &QueenBoard, index: usize, region_mask: &QueenBoard) -> (r:
    BoardPlacementResult)
    requires
        board.wf(),
        region_mask.wf(),
    ensures
        (r == BoardPlacementResult::IndexOutOfBounds <==> (index as int) >= board@.rows
            * board@.cols),
        (r == BoardPlacementResult::NotInColorRegion <==> ((index as int) < board@.rows
            * board@.cols && mask_nonempty(region_mask@) && !mask_contains(
            region_mask@,
            index as int,
        ))),
        (r == BoardPlacementResult::SpotOccupied <==> ((index as int) < board@.rows * board@.cols
            && !(mask_nonempty(region_mask@) && !mask_contains(region_mask@, index as int))
            && board@.cells[index as int])),
        (r == BoardPlacementResult::DimensionMismatch <==> ((index as int) < board@.rows
            * board@.cols && !(mask_nonempty(region_mask@) && !mask_contains(
            region_mask@,
            index as int,
        )) && !board@.cells[index as int] && !(region_mask@.rows == board@.rows
            && region_mask@.cols == board@.cols))),
        (r is Success <==> place_ok(board@, region_mask@, index as int)),
        (r matches BoardPlacementResult::Success(nb) ==> nb.wf() && nb@ == place_result(
            board@,
            region_mask@,
            index as int,
        )),
{
    let n_rows = board.n_rows();
    let n_cols = board.n_cols();
    proof {
        board.lemma_wf_dims();
        region_mask.lemma_wf_dims();
    }
    if index >= n_rows * n_cols {
        return BoardPlacementResult::IndexOutOfBounds;
    }
    let mask_inds = region_mask.get_linear_indices();
    if mask_inds.len() > 0 && !vec_contains(&mask_inds, index) {
        proof {
            assert(region_mask@.cells[mask_inds@[0] as int]);
            assert(mask_nonempty(region_mask@));
            assert(!mask_contains(region_mask@, index as int));
        }
        return BoardPlacementResult::NotInColorRegion;
    }
    proof {
        // A non-empty mask was found to contain the index; an empty mask
        // cannot contain anything.
        if mask_nonempty(region_mask@) {
            let witness = choose|i: int|
                0 <= i < region_mask@.cells.len() && region_mask@.cells[i];
            assert(mask_inds@.contains(witness as usize));
            assert(mask_inds@.len() > 0);
        }
        if mask_contains(region_mask@, index as int) {
            assert(mask_inds@.contains(index));
        }
    }
    proof {
        assert((board@.cols as int) > 0) by (nonlinear_arith)
            requires
                (index as int) < board@.rows * board@.cols,
                index >= 0,
        ;
        lemma_index_decompose(board@.rows, board@.cols, index as int);
    }
    let (row, col) = board.row_col_of(index);
    if board.get(row, col) {
        return BoardPlacementResult::SpotOccupied;
    }
    let mut nb = *board;
    nb.set_linear_index(index, true);
    nb.set_row(row, true);
    nb.set_col(col, true);
    nb.set_diagonals(row, col, true);
    match nb.or(region_mask) {
        Ok(b2) => {
            proof {
                assert(b2@.cells =~= place_result(board@, region_mask@, index as int).cells);
            }
            BoardPlacementResult::Success(b2)
        },
        Err(_) => BoardPlacementResult::DimensionMismatch,
    }
}

/// Placing a queen twice in succession at the same index with the same
/// region mask: the first success leaves the placed cell set and the mask
/// check still passing, so the second attempt finds the spot occupied.
pub proof fn lemma_place_twice_spot_occupied(board: BoardModel, mask: BoardModel, idx: int)
    requires
        board.cells.len() == board.rows * board.cols,
        place_ok(board, mask, idx),
    ensures
        ({
            let b2 = place_result(board, mask, idx);
            &&& idx < b2.rows * b2.cols
            &&& !(mask_nonempty(mask) && !mask_contains(mask, idx))
            &&& b2.cells[idx]
            &&& !place_ok(b2, mask, idx)
        }),
{
}

} // verus!

