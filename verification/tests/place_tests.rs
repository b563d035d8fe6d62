use queens::{build_queen_board_from_inds, place, BoardPlacementResult, QueenBoard};

#[test]
fn test_place_twice_is_spot_occupied() {
    // Placing at the same index with the same mask a second time is
    // rejected as occupied.
    let board = QueenBoard::new(5, 5);
    let mask = build_queen_board_from_inds(&[11, 12, 13], 5, 5);
    let first = place(&board, 12, &mask);
    let placed = match first {
        BoardPlacementResult::Success(b) => b,
        other => panic!("first placement failed: {:?}", other),
    };
    let second = place(&placed, 12, &mask);
    assert_eq!(second, BoardPlacementResult::SpotOccupied);
}

#[test]
fn test_place_out_of_bounds() {
    // Any index at or past the grid end is out of bounds, whatever the
    // board holds.
    let empty = QueenBoard::new(5, 5);
    let mask = build_queen_board_from_inds(&[0], 5, 5);
    assert_eq!(place(&empty, 25, &mask), BoardPlacementResult::IndexOutOfBounds);
    assert_eq!(place(&empty, 100, &mask), BoardPlacementResult::IndexOutOfBounds);
    let crowded = build_queen_board_from_inds(&[0, 1, 2, 3, 4], 5, 5);
    assert_eq!(place(&crowded, 25, &mask), BoardPlacementResult::IndexOutOfBounds);
}

#[test]
fn test_place_not_in_color_region() {
    // A non-empty mask that does not contain the index rejects the
    // placement even though the spot is free.
    let board = QueenBoard::new(5, 5);
    let mask = build_queen_board_from_inds(&[3, 4], 5, 5);
    assert_eq!(place(&board, 7, &mask), BoardPlacementResult::NotInColorRegion);
}

#[test]
fn test_region_check_precedes_occupancy() {
    // The spot is occupied and outside the mask: the region rejection wins.
    let board = build_queen_board_from_inds(&[7], 5, 5);
    let mask = build_queen_board_from_inds(&[3, 4], 5, 5);
    assert_eq!(place(&board, 7, &mask), BoardPlacementResult::NotInColorRegion);
}

#[test]
fn test_empty_mask_skips_region_check() {
    // An empty mask places anywhere that is free.
    let board = QueenBoard::new(3, 3);
    let mask = QueenBoard::new(3, 3);
    let r = place(&board, 4, &mask);
    assert!(matches!(r, BoardPlacementResult::Success(_)));
}

#[test]
fn test_place_dimension_mismatch() {
    // A mask of another shape that passes the region check surfaces the
    // combine failure.
    let board = QueenBoard::new(3, 2);
    let mask = build_queen_board_from_inds(&[0], 2, 3);
    assert_eq!(place(&board, 0, &mask), BoardPlacementResult::DimensionMismatch);
}

#[test]
fn test_successful_placement_blocks_exact_union() {
    // Placing at (2, 1) of a 4x4 board: the new board holds the old cells,
    // the placed cell, its row, its column, its diagonal neighbors and the
    // mask, and nothing else.
    let board = build_queen_board_from_inds(&[15], 4, 4);
    let mask = build_queen_board_from_inds(&[9, 13], 4, 4);
    let r = place(&board, 9, &mask);
    let placed = match r {
        BoardPlacementResult::Success(b) => b,
        other => panic!("placement failed: {:?}", other),
    };
    // index 9 is (row 2, col 1) on a 4x4 grid
    let mut expected: Vec<usize> = Vec::new();
    for i in 0..16usize {
        let (row, col) = (i / 4, i % 4);
        let old = i == 15;
        let placed_cell = i == 9;
        let same_row = row == 2;
        let same_col = col == 1;
        let diag = row.abs_diff(2) == 1 && col.abs_diff(1) == 1;
        let in_mask = i == 9 || i == 13;
        if old || placed_cell || same_row || same_col || diag || in_mask {
            expected.push(i);
        }
    }
    assert_eq!(placed.get_linear_indices(), expected);
}

#[test]
fn test_place_does_not_change_input_board() {
    let board = build_queen_board_from_inds(&[5], 4, 4);
    let mask = build_queen_board_from_inds(&[10], 4, 4);
    let r = place(&board, 10, &mask);
    assert!(matches!(r, BoardPlacementResult::Success(_)));
    assert_eq!(board.get_linear_indices(), vec![5]);
}

#[test]
fn test_or_and_combine() {
    let a = build_queen_board_from_inds(&[0, 2], 2, 2);
    let b = build_queen_board_from_inds(&[1, 2], 2, 2);
    let union = a.or(&b).expect("same shape");
    assert_eq!(union.get_linear_indices(), vec![0, 1, 2]);
    let both = a.and(&b).expect("same shape");
    assert_eq!(both.get_linear_indices(), vec![2]);
    let other = QueenBoard::new(2, 3);
    assert!(a.or(&other).is_err());
    assert!(a.and(&other).is_err());
}
