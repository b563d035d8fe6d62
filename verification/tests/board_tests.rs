use queens::{build_queen_board_from_inds, QueenBoard};

#[test]
fn test_new_board_is_empty() {
    let board = QueenBoard::new(4, 6);
    assert_eq!(board.n_rows(), 4);
    assert_eq!(board.n_cols(), 6);
    assert!(board.get_linear_indices().is_empty());
}

#[test]
fn test_set_and_get() {
    let mut board = QueenBoard::new(3, 3);
    board.set_linear_index(4, true);
    assert!(board.get(1, 1));
    assert!(!board.get(0, 0));
    // out-of-range coordinates read as false
    assert!(!board.get(3, 0));
    assert!(!board.get(0, 3));
    board.set_linear_index(4, false);
    assert!(!board.get(1, 1));
}

#[test]
fn test_clear() {
    let mut board = build_queen_board_from_inds(&[0, 5, 8], 3, 3);
    board.clear();
    assert!(board.get_linear_indices().is_empty());
}

#[test]
fn test_get_linear_indices_sorted() {
    let board = build_queen_board_from_inds(&[8, 0, 5], 3, 3);
    assert_eq!(board.get_linear_indices(), vec![0, 5, 8]);
}

#[test]
fn test_row_col_of() {
    let board = QueenBoard::new(2, 10);
    for index in 0..20usize {
        let (row, col) = board.row_col_of(index);
        assert_eq!(row, index / 10);
        assert_eq!(col, index % 10);
    }
}

#[test]
fn test_set_row_and_col() {
    let mut board = QueenBoard::new(3, 3);
    board.set_row(1, true);
    assert_eq!(board.get_linear_indices(), vec![3, 4, 5]);
    board.set_col(0, true);
    assert_eq!(board.get_linear_indices(), vec![0, 3, 4, 5, 6]);
    board.set_row(1, false);
    assert_eq!(board.get_linear_indices(), vec![0, 6]);
}

#[test]
fn test_set_row_idempotent_and_content_independent() {
    // Filling a row twice is the same as filling it once, and the filled
    // row never depends on what the board held before.
    let mut once = build_queen_board_from_inds(&[0, 4, 8], 3, 3);
    once.set_row(1, true);
    let mut twice = build_queen_board_from_inds(&[0, 4, 8], 3, 3);
    twice.set_row(1, true);
    twice.set_row(1, true);
    assert_eq!(once.get_linear_indices(), twice.get_linear_indices());

    let mut from_empty = QueenBoard::new(3, 3);
    from_empty.set_row(1, true);
    for col in 0..3usize {
        assert_eq!(once.get(1, col), from_empty.get(1, col));
    }
}

#[test]
fn test_set_diagonals() {
    let mut board = QueenBoard::new(3, 3);
    board.set_diagonals(1, 1, true);
    assert_eq!(board.get_linear_indices(), vec![0, 2, 6, 8]);
    let mut corner = QueenBoard::new(3, 3);
    corner.set_diagonals(0, 0, true);
    assert_eq!(corner.get_linear_indices(), vec![4]);
}

#[test]
fn test_one_off_diagonals_are_empty() {
    let cases: Vec<(usize, Vec<usize>, bool, &str)> = vec![
        (0, vec![], true, "empty board"),
        (4, vec![0], false, "above left occupied"),
        (4, vec![2], false, "above right occupied"),
        (4, vec![6], false, "below left occupied"),
        (4, vec![8], false, "below right occupied"),
        (4, vec![1, 3, 5, 7], true, "no diagonals"),
        (9, vec![0, 1], true, "place to check is off the board"),
    ];
    for (idx, initial_placements, expected, description) in cases {
        let board = build_queen_board_from_inds(&initial_placements, 3, 3);
        assert_eq!(board.one_off_diagonals_are_empty(idx), expected, "{}", description);
    }
}

#[test]
fn test_row_is_empty() {
    let cases: Vec<(usize, Vec<usize>, bool, &str)> = vec![
        (0, vec![], true, "empty board"),
        (1, vec![], true, "empty board"),
        (0, vec![2, 3], true, "empty row"),
        (1, vec![0, 1], true, "empty row"),
        (0, vec![0], false, "row is not empty"),
        (0, vec![0, 1], false, "row is not empty"),
        (0, vec![1], false, "row is not empty"),
        (1, vec![2], false, "row is not empty"),
        (1, vec![2, 3], false, "row is not empty"),
        (1, vec![3], false, "row is not empty"),
    ];
    for (row, initial_placements, expected, description) in cases {
        let board = build_queen_board_from_inds(&initial_placements, 2, 2);
        assert_eq!(expected, board.row_is_empty(row), "{}", description);
    }
}

#[test]
fn test_col_is_empty() {
    let cases: Vec<(usize, Vec<usize>, bool, &str)> = vec![
        (0, vec![], true, "empty board"),
        (1, vec![], true, "empty board"),
        (0, vec![1, 3], true, "empty col"),
        (1, vec![0, 2], true, "empty col"),
        (0, vec![0], false, "col is not empty"),
        (0, vec![0, 2], false, "col is not empty"),
        (0, vec![2], false, "col is not empty"),
        (1, vec![1], false, "col is not empty"),
        (1, vec![1, 3], false, "col is not empty"),
        (1, vec![3], false, "col is not empty"),
    ];
    for (col, initial_placements, expected, description) in cases {
        let board = build_queen_board_from_inds(&initial_placements, 2, 2);
        assert_eq!(expected, board.col_is_empty(col), "{}", description);
    }
}

#[test]
fn test_to_display_string() {
    let board = build_queen_board_from_inds(&[0, 3], 2, 2);
    assert_eq!(board.to_display_string(), "X.\n.X\n");
    let empty = QueenBoard::new(1, 3);
    assert_eq!(empty.to_display_string(), "...\n");
}

#[test]
fn test_fill() {
    let mut board = QueenBoard::new(2, 3);
    board.fill(true);
    assert_eq!(board.get_linear_indices(), vec![0, 1, 2, 3, 4, 5]);
    board.fill(false);
    assert!(board.get_linear_indices().is_empty());
}

#[test]
fn test_get_row_and_get_col() {
    let board = build_queen_board_from_inds(&[0, 2, 4], 3, 3);
    assert_eq!(board.get_row(0), vec![true, false, true]);
    assert_eq!(board.get_row(1), vec![false, true, false]);
    assert_eq!(board.get_row(2), vec![false, false, false]);
    // rows outside the grid read as all false
    assert_eq!(board.get_row(3), vec![false, false, false]);
    assert_eq!(board.get_col(0), vec![true, false, false]);
    assert_eq!(board.get_col(1), vec![false, true, false]);
    assert_eq!(board.get_col(2), vec![true, false, false]);
    assert_eq!(board.get_col(5), vec![false, false, false]);
}

#[test]
fn test_display_round_trip() {
    // Rendering and re-extracting the set indices reproduces the set.
    let board = build_queen_board_from_inds(&[1, 5, 6], 3, 3);
    let text = board.to_display_string();
    let mut extracted: Vec<usize> = Vec::new();
    for (r, line) in text.lines().enumerate() {
        for (c, ch) in line.chars().enumerate() {
            if ch == 'X' {
                extracted.push(r * 3 + c);
            }
        }
    }
    assert_eq!(extracted, board.get_linear_indices());
}
