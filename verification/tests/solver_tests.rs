use queens::{solve, solve_regions, solve_regions_bounded, SolveOutcome};

fn rows_cols_of(indices: &[usize], n_cols: usize) -> Vec<(usize, usize)> {
    indices.iter().map(|&i| (i / n_cols, i % n_cols)).collect()
}

fn assert_valid_solution(indices: &[usize], n_rows: usize, n_cols: usize) {
    assert_eq!(indices.len(), n_rows);
    let coords = rows_cols_of(indices, n_cols);
    for (a, &(ra, ca)) in coords.iter().enumerate() {
        for (b, &(rb, cb)) in coords.iter().enumerate() {
            if a != b {
                assert_ne!(ra, rb, "two markers share row {}", ra);
                assert_ne!(ca, cb, "two markers share column {}", ca);
                let dr = ra.abs_diff(rb);
                let dc = ca.abs_diff(cb);
                assert!(
                    !(dr == 1 && dc == 1),
                    "markers at {:?} and {:?} touch diagonally",
                    (ra, ca),
                    (rb, cb)
                );
            }
        }
    }
}

#[test]
fn test_regions_are_columns() {
    // In this test, the color regions are the columns, and we test that it
    // can successfully return any solution
    let raw_color_regions = "12345 12345 12345 12345 12345 ";
    let res = solve(raw_color_regions);
    assert!(res.0.is_some());
}

#[test]
fn test_regions_are_rows() {
    // In this test, the color regions are the rows, and we test that it can
    // successfully return any solution
    let raw_color_regions = "11111 22222 33333 44444 55555";
    let res = solve(raw_color_regions);
    assert!(res.0.is_some());
}

#[test]
fn test_actual_board() {
    // In this test, we use an actual board
    let raw_color_regions =
        "11112333 11222344 11255346 77253344 73355334 77335344 87355333 77333333";
    let res = solve(raw_color_regions);
    assert!(res.0.is_some());
}

#[test]
fn test_rows_solution_is_valid() {
    // Regions are the rows: the solution must place one marker per row and
    // per column with no diagonal contact.
    let res = solve("11111 22222 33333 44444 55555");
    let board = res.0.expect("a 5x5 board with row regions is solvable");
    assert!(res.1 >= 1);
    let indices = board.get_linear_indices();
    assert_valid_solution(&indices, 5, 5);
}

#[test]
fn test_columns_solution_is_valid() {
    // Regions are the columns: same validity requirements.
    let res = solve("12345 12345 12345 12345 12345");
    let board = res.0.expect("a 5x5 board with column regions is solvable");
    let indices = board.get_linear_indices();
    assert_valid_solution(&indices, 5, 5);
}

#[test]
fn test_actual_board_solution_is_valid() {
    let res = solve("11112333 11222344 11255346 77253344 73355334 77335344 87355333 77333333");
    let board = res.0.expect("the example board is solvable");
    let indices = board.get_linear_indices();
    assert_valid_solution(&indices, 8, 8);
}

#[test]
fn test_empty_region_gives_zero_attempts() {
    // A region with no candidate cells empties the product: no solution,
    // zero combinations examined.
    let regions: Vec<Vec<usize>> = vec![vec![0, 1], vec![]];
    let (res, attempts) = solve_regions(&regions, 2, 2);
    assert!(res.is_none());
    assert_eq!(attempts, 0);
}

#[test]
fn test_exhaustion_counts_all_combinations() {
    // On a 2x2 grid with regions the two rows, every one of the 2 * 2
    // combinations fails, so the counter equals the full product.
    let (res, attempts) = solve("12 12");
    assert!(res.is_none());
    assert_eq!(attempts, 4);
}

#[test]
fn test_exhaustion_counter_is_product_of_region_sizes() {
    // Two regions inside the single row of a 1x6 grid: any two distinct
    // markers share the row, so the search is exhaustive.
    let regions: Vec<Vec<usize>> = vec![vec![0, 1, 2], vec![3, 4, 5]];
    let (res, attempts) = solve_regions(&regions, 1, 6);
    assert!(res.is_none());
    assert_eq!(attempts, 9);
}

#[test]
fn test_solution_board_holds_exactly_the_markers() {
    // One column per region on a 1x1 grid: the solution is the single cell.
    let (res, attempts) = solve("1");
    let board = res.expect("a 1x1 grid is solvable");
    assert_eq!(attempts, 1);
    assert_eq!(board.get_linear_indices(), vec![0]);
}

#[test]
fn test_bounded_search_tri_state() {
    // Unsolvable: two regions inside the single row of a 1x6 grid, with a
    // product of nine combinations.
    let regions: Vec<Vec<usize>> = vec![vec![0, 1, 2], vec![3, 4, 5]];
    match solve_regions_bounded(&regions, 1, 6, 4) {
        SolveOutcome::BudgetExceeded(g) => assert_eq!(g, 4),
        other => panic!("expected a spent budget, got {:?}", other),
    }
    match solve_regions_bounded(&regions, 1, 6, 9) {
        SolveOutcome::Exhausted(g) => assert_eq!(g, 9),
        other => panic!("expected exhaustion, got {:?}", other),
    }
    match solve_regions_bounded(&regions, 1, 6, 100) {
        SolveOutcome::Exhausted(g) => assert_eq!(g, 9),
        other => panic!("expected exhaustion, got {:?}", other),
    }
    // Solvable within the budget: one region per row of a 1x1 grid.
    let solvable: Vec<Vec<usize>> = vec![vec![0]];
    match solve_regions_bounded(&solvable, 1, 1, 5) {
        SolveOutcome::SolutionFound(board, g) => {
            assert_eq!(g, 1);
            assert_eq!(board.get_linear_indices(), vec![0]);
        },
        other => panic!("expected a solution, got {:?}", other),
    }
}
