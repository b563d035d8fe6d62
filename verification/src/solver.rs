//! The brute-force solver: enumerate every combination of one candidate
//! cell per region and return the first one that passes the row, column
//! and diagonal checks.

use crate::board::{
    cells_from_indices, col_empty, diagonals_empty, lemma_cells_from_indices_push, row_empty,
    QueenBoard,
};
use crate::grid::{col_of, is_diag_neighbor, lemma_index_decompose, row_of};
use crate::parse::{ascii_bytes, lemma_parse_cells_in_range, parse_color_region_inds, spec_parse};
use crate::product::{
    combo_stream_new, combo_stream_next, combos_of, lemma_product_of_elem, lemma_product_of_len,
    prod_lens, product_of,
};
use vstd::prelude::*;

verus! {

/// The candidate lists as sequences.
pub open spec fn lists_view(regions: Seq<Vec<usize>>) -> Seq<Seq<usize>> {
    regions.map_values(|v: Vec<usize>| v@)
}

/// Two distinct chosen cells do not attack each other: different row,
/// different column, not one diagonal step apart.
pub open spec fn cells_separated(cols: nat, a: usize, b: usize) -> bool {
    &&& row_of(cols, a as int) != row_of(cols, b as int)
    &&& col_of(cols, a as int) != col_of(cols, b as int)
    &&& !is_diag_neighbor(cols, row_of(cols, a as int), col_of(cols, a as int), b as int)
}

/// A combination is valid: any two choices of distinct cells are separated.
/// Choices that name the same cell twice collapse to one marker on the
/// board, so only distinct cells are compared.
pub open spec fn combo_ok(cols: nat, combo: Seq<usize>) -> bool {
    forall|j: int, k: int|
        #![trigger combo[j], combo[k]]
        0 <= j < combo.len() && 0 <= k < combo.len() && combo[k] != combo[j] ==> cells_separated(
            cols,
            combo[j],
            combo[k],
        )
}

/// Check one combination on the scratch board: set every chosen cell, then
/// for each chosen cell in turn clear it, demand its diagonals, row and
/// column hold no other marker, and restore it.  On success the board is
/// left holding exactly the chosen cells.
fn validate_combo(b: &mut QueenBoard, combo: &Vec<usize>) -> (r: bool)
    requires
        old(b).wf(),
        forall|k: int| 0 <= k < combo@.len() ==> (combo@[k] as nat) < old(b)@.rows * old(b)@.cols,
    ensures
        final(b).wf(),
        final(b)@.rows == old(b)@.rows,
        final(b)@.cols == old(b)@.cols,
        r == combo_ok(old(b)@.cols, combo@),
        r ==> final(b)@.cells == cells_from_indices(old(b)@.rows * old(b)@.cols, combo@),
{
    let ghost rows = old(b)@.rows;
    let ghost cols = old(b)@.cols;
    let ghost n = rows * cols;
    proof {
        old(b).lemma_wf_dims();
    }
    b.clear();
    let len = combo.len();
    proof {
        assert(b@.cells =~= cells_from_indices(n, combo@.take(0)));
    }
    for k in 0..len
        invariant
            b.wf(),
            b@.rows == rows,
            b@.cols == cols,
            n == rows * cols,
            n <= crate::bitboard::BOARD_CAPACITY,
            len == combo@.len(),
            forall|k2: int| 0 <= k2 < combo@.len() ==> (combo@[k2] as nat) < n,
            b@.cells == cells_from_indices(n, combo@.take(k as int)),
    {
        b.set_linear_index(combo[k], true);
        proof {
            assert(combo@.take(k + 1) =~= combo@.take(k as int).push(combo@[k as int]));
            lemma_cells_from_indices_push(n, combo@.take(k as int), combo@[k as int]);
        }
    }
    proof {
        assert(combo@.take(len as int) =~= combo@);
    }
    for j in 0..len
        invariant
            b.wf(),
            b@.rows == rows,
            b@.cols == cols,
            rows == old(b)@.rows,
            cols == old(b)@.cols,
            n == rows * cols,
            n <= crate::bitboard::BOARD_CAPACITY,
            len == combo@.len(),
            forall|k2: int| 0 <= k2 < combo@.len() ==> (combo@[k2] as nat) < n,
            b@.cells == cells_from_indices(n, combo@),
            forall|j2: int, k2: int|
                #![trigger combo@[j2], combo@[k2]]
                0 <= j2 < j && 0 <= k2 < combo@.len() && combo@[k2] != combo@[j2]
                    ==> cells_separated(cols, combo@[j2], combo@[k2]),
    {
        let cj = combo[j];
        proof {
            assert(rows > 0 && cols > 0) by (nonlinear_arith)
                requires
                    (cj as nat) < rows * cols,
            ;
            lemma_index_decompose(rows, cols, cj as int);
        }
        b.set_linear_index(cj, false);
        let ghost hole = b@;
        proof {
            // Cells of the board with the hole: any other chosen cell stays.
            assert forall|k2: int|
                0 <= k2 < combo@.len() && combo@[k2] != cj implies hole.cells[combo@[k2] as int] by {
                assert(combo@.contains(combo@[k2]));
            }
        }
        let diag_clear = b.one_off_diagonals_are_empty(cj);
        if !diag_clear {
            proof {
                let i = choose|i: int|
                    0 <= i < hole.rows * hole.cols && is_diag_neighbor(
                        hole.cols,
                        row_of(hole.cols, cj as int),
                        col_of(hole.cols, cj as int),
                        i,
                    ) && hole.cells[i];
                assert(combo@.contains(i as usize));
                let k2 = choose|k2: int| 0 <= k2 < combo@.len() && combo@[k2] == (i as usize);
                assert(!cells_separated(cols, combo@[j as int], combo@[k2]));
            }
            return false;
        }
        let (rowj, colj) = b.row_col_of(cj);
        let row_clear = b.row_is_empty(rowj);
        if !row_clear {
            proof {
                let i = choose|i: int|
                    0 <= i < hole.rows * hole.cols && row_of(hole.cols, i) == rowj as int
                        && hole.cells[i];
                assert(combo@.contains(i as usize));
                let k2 = choose|k2: int| 0 <= k2 < combo@.len() && combo@[k2] == (i as usize);
                assert(!cells_separated(cols, combo@[j as int], combo@[k2]));
            }
            return false;
        }
        let col_clear = b.col_is_empty(colj);
        if !col_clear {
            proof {
                let i = choose|i: int|
                    0 <= i < hole.rows * hole.cols && col_of(hole.cols, i) == colj as int
                        && hole.cells[i];
                assert(combo@.contains(i as usize));
                let k2 = choose|k2: int| 0 <= k2 < combo@.len() && combo@[k2] == (i as usize);
                assert(!cells_separated(cols, combo@[j as int], combo@[k2]));
            }
            return false;
        }
        b.set_linear_index(cj, true);
        proof {
            assert(combo@.contains(combo@[j as int]));
            assert(b@.cells =~= cells_from_indices(n, combo@));
            // The three checks passed: cell j is separated from every other
            // distinct chosen cell.
            assert forall|k2: int|
                0 <= k2 < combo@.len() && combo@[k2] != combo@[j as int] implies cells_separated(
                cols,
                combo@[j as int],
                combo@[k2],
            ) by {
                let i = combo@[k2] as int;
                lemma_index_decompose(rows, cols, i);
                assert(hole.cells[i]);
                assert(row_of(cols, i) != rowj as int);
                assert(col_of(cols, i) != colj as int);
            }
        }
    }
    proof {
        // Separation is symmetric in the pair, so checking each j against
        // every k covers all pairs.
        assert(combo_ok(cols, combo@));
    }
    true
}

/// Brute-force search over the regions' candidate lists: enumerate every
/// combination of one candidate cell per region, in product order, and
/// return the first valid one.
///
/// The result pairs an optional solution board with the attempt counter,
/// which increments by exactly one per combination examined.  On success the
/// counter is the 1-based position of the winning combination, every earlier
/// combination being invalid, and the board holds exactly the chosen cells.
/// On exhaustion the counter is the total number of combinations — the
/// product of the candidate list lengths — every one of them invalid.
pub fn solve_regions(regions: &Vec<Vec<usize>>, n_rows: usize, n_cols: usize) -> (r: (
    Option<QueenBoard>,
    usize,
))
    requires
        n_rows * n_cols <= crate::bitboard::BOARD_CAPACITY,
        forall|k: int, i: int|
            0 <= k < regions@.len() && 0 <= i < regions@[k]@.len() ==> (#[trigger] regions@[k]@[i]
                as nat) < n_rows * n_cols,
        prod_lens(lists_view(regions@)) <= usize::MAX,
    ensures
        ({
            let prod = product_of(lists_view(regions@));
            match r.0 {
                Some(board) => {
                    &&& 1 <= r.1 <= prod.len()
                    &&& combo_ok(n_cols as nat, prod[r.1 - 1])
                    &&& (forall|g: int| 0 <= g < r.1 - 1 ==> !combo_ok(n_cols as nat, prod[g]))
                    &&& board.wf()
                    &&& board@.rows == n_rows as nat
                    &&& board@.cols == n_cols as nat
                    &&& board@.cells == cells_from_indices((n_rows * n_cols) as nat, prod[r.1 - 1])
                },
                None => {
                    &&& r.1 == prod.len()
                    &&& (forall|g: int| 0 <= g < prod.len() ==> !combo_ok(n_cols as nat, prod[g]))
                },
            }
        }),
{
    let ghost lists = lists_view(regions@);
    let ghost prod = product_of(lists);
    proof {
        lemma_product_of_len(lists);
        assert(prod.skip(0) =~= prod);
    }
    let mut stream = combo_stream_new(regions);
    let mut board = QueenBoard::new(n_rows, n_cols);
    let mut gidx: usize = 0;
    loop
        invariant
            board.wf(),
            board@.rows == n_rows as nat,
            board@.cols == n_cols as nat,
            n_rows * n_cols <= crate::bitboard::BOARD_CAPACITY,
            forall|k: int, i: int|
                0 <= k < regions@.len() && 0 <= i < regions@[k]@.len() ==> (
                #[trigger] regions@[k]@[i] as nat) < n_rows * n_cols,
            lists == lists_view(regions@),
            prod == product_of(lists),
            prod.len() <= usize::MAX,
            0 <= gidx <= prod.len(),
            combos_of(stream) == prod.skip(gidx as int),
            forall|g: int| 0 <= g < gidx ==> !combo_ok(n_cols as nat, prod[g]),
        decreases prod.len() - gidx,
    {
        match combo_stream_next(&mut stream) {
            None => {
                proof {
                    assert(prod.skip(gidx as int).len() == 0);
                }
                return (None, gidx);
            },
            Some(combo) => {
                proof {
                    assert(combo@ == prod[gidx as int]);
                    lemma_product_of_elem(lists, gidx as int);
                    assert forall|i: int| 0 <= i < combo@.len() implies (combo@[i] as nat) < n_rows
                        * n_cols by {
                        assert(lists[i].contains(combo@[i]));
                        let w = choose|w: int|
                            0 <= w < lists[i].len() && #[trigger] lists[i][w] == combo@[i];
                        assert(regions@[i]@[w] == combo@[i]);
                    }
                    assert(prod.skip(gidx as int).drop_first() =~= prod.skip(gidx as int + 1));
                }
                gidx = gidx + 1;
                let ok = validate_combo(&mut board, &combo);
                if ok {
                    return (Some(board), gidx);
                }
            },
        }
    }
}

/// The outcome of a bounded brute-force search: the three ways it can end
/// are kept apart, so a caller never mistakes a spent budget for a proof
/// that no solution exists.
#[derive(Debug)]
pub enum SolveOutcome {
    /// A valid combination was found; the board holds exactly its cells and
    /// the counter is its 1-based position.
    SolutionFound(QueenBoard, usize),
    /// Every combination was examined and none was valid; the counter is
    /// the total number of combinations.
    Exhausted(usize),
    /// The attempt budget ran out with combinations still unexamined; the
    /// counter equals the budget.
    BudgetExceeded(usize),
}

/// Brute-force search with a caller-imposed attempt budget.  The search
/// stops at the first valid combination, at exhaustion of the product, or
/// after `max_attempts` combinations, whichever comes first, and the
/// outcome says which of the three happened.
pub fn solve_regions_bounded(
    regions: &Vec<Vec<usize>>,
    n_rows: usize,
    n_cols: usize,
    max_attempts: usize,
) -> (r: SolveOutcome)
    requires
        n_rows * n_cols <= crate::bitboard::BOARD_CAPACITY,
        forall|k: int, i: int|
            0 <= k < regions@.len() && 0 <= i < regions@[k]@.len() ==> (#[trigger] regions@[k]@[i]
                as nat) < n_rows * n_cols,
    ensures
        ({
            let prod = product_of(lists_view(regions@));
            match r {
                SolveOutcome::SolutionFound(board, g) => {
                    &&& 1 <= g <= prod.len()
                    &&& g <= max_attempts
                    &&& combo_ok(n_cols as nat, prod[g - 1])
                    &&& (forall|g2: int| 0 <= g2 < g - 1 ==> !combo_ok(n_cols as nat, prod[g2]))
                    &&& board.wf()
                    &&& board@.rows == n_rows as nat
                    &&& board@.cols == n_cols as nat
                    &&& board@.cells == cells_from_indices((n_rows * n_cols) as nat, prod[g - 1])
                },
                SolveOutcome::Exhausted(g) => {
                    &&& g == prod.len()
                    &&& g <= max_attempts
                    &&& (forall|g2: int| 0 <= g2 < prod.len() ==> !combo_ok(n_cols as nat, prod[g2]))
                },
                SolveOutcome::BudgetExceeded(g) => {
                    &&& g == max_attempts
                    &&& prod.len() > max_attempts
                    &&& (forall|g2: int| 0 <= g2 < g ==> !combo_ok(n_cols as nat, prod[g2]))
                },
            }
        }),
{
    let ghost lists = lists_view(regions@);
    let ghost prod = product_of(lists);
    proof {
        assert(prod.skip(0) =~= prod);
    }
    let mut stream = combo_stream_new(regions);
    let mut board = QueenBoard::new(n_rows, n_cols);
    let mut gidx: usize = 0;
    loop
        invariant
            board.wf(),
            board@.rows == n_rows as nat,
            board@.cols == n_cols as nat,
            n_rows * n_cols <= crate::bitboard::BOARD_CAPACITY,
            forall|k: int, i: int|
                0 <= k < regions@.len() && 0 <= i < regions@[k]@.len() ==> (
                #[trigger] regions@[k]@[i] as nat) < n_rows * n_cols,
            lists == lists_view(regions@),
            prod == product_of(lists),
            0 <= gidx <= max_attempts,
            gidx <= prod.len(),
            combos_of(stream) == prod.skip(gidx as int),
            forall|g: int| 0 <= g < gidx ==> !combo_ok(n_cols as nat, prod[g]),
        decreases prod.len() - gidx,
    {
        match combo_stream_next(&mut stream) {
            None => {
                proof {
                    assert(prod.skip(gidx as int).len() == 0);
                }
                return SolveOutcome::Exhausted(gidx);
            },
            Some(combo) => {
                if gidx == max_attempts {
                    return SolveOutcome::BudgetExceeded(gidx);
                }
                proof {
                    assert(combo@ == prod[gidx as int]);
                    lemma_product_of_elem(lists, gidx as int);
                    assert forall|i: int| 0 <= i < combo@.len() implies (combo@[i] as nat) < n_rows
                        * n_cols by {
                        assert(lists[i].contains(combo@[i]));
                        let w = choose|w: int|
                            0 <= w < lists[i].len() && #[trigger] lists[i][w] == combo@[i];
                        assert(regions@[i]@[w] == combo@[i]);
                    }
                    assert(prod.skip(gidx as int).drop_first() =~= prod.skip(gidx as int + 1));
                }
                gidx = gidx + 1;
                let ok = validate_combo(&mut board, &combo);
                if ok {
                    return SolveOutcome::SolutionFound(board, gidx);
                }
            },
        }
    }
}

/// The candidate lists of a parsed puzzle: the regions' cell lists, in
/// region order.
pub open spec fn parsed_lists(regions: Seq<(u8, Seq<usize>)>) -> Seq<Seq<usize>> {
    regions.map_values(|e: (u8, Seq<usize>)| e.1)
}

/// Solve the puzzle by brute force, attempting all possible combinations
/// until one works.  The input text is parsed into color regions first; the
/// result pairs the solution board (or `None` after exhausting every
/// combination) with the number of combinations examined.
pub fn solve(raw_color_regions: &str) -> (r: (Option<QueenBoard>, usize))
    requires
        raw_color_regions.is_ascii(),
        match spec_parse(ascii_bytes(raw_color_regions@)) {
            Some(parsed) => prod_lens(parsed_lists(parsed.0)) <= usize::MAX,
            None => false,
        },
    ensures
        ({
            match spec_parse(ascii_bytes(raw_color_regions@)) {
                Some(parsed) => {
                    let prod = product_of(parsed_lists(parsed.0));
                    let cols = parsed.2;
                    match r.0 {
                        Some(board) => {
                            &&& 1 <= r.1 <= prod.len()
                            &&& combo_ok(cols, prod[r.1 - 1])
                            &&& (forall|g: int| 0 <= g < r.1 - 1 ==> !combo_ok(cols, prod[g]))
                            &&& board.wf()
                            &&& board@.rows == parsed.1
                            &&& board@.cols == parsed.2
                            &&& board@.cells == cells_from_indices(parsed.1 * parsed.2, prod[r.1 - 1])
                        },
                        None => {
                            &&& r.1 == prod.len()
                            &&& (forall|g: int| 0 <= g < prod.len() ==> !combo_ok(cols, prod[g]))
                        },
                    }
                },
                None => false,
            }
        }),
{
    let parsed = parse_color_region_inds(raw_color_regions);
    match parsed {
        Some((regs, n_rows, n_cols)) => {
            let ghost spec_regs = spec_parse(ascii_bytes(raw_color_regions@))->Some_0.0;
            proof {
                lemma_parse_cells_in_range(ascii_bytes(raw_color_regions@));
            }
            // Extract just the candidate lists, in region order.
            let mut lists: Vec<Vec<usize>> = Vec::new();
            let n_regs = regs.len();
            for k in 0..n_regs
                invariant
                    n_regs == regs@.len(),
                    lists@.len() == k,
                    forall|k2: int|
                        0 <= k2 < k ==> (#[trigger] lists@[k2])@ == regs@[k2].1@,
            {
                let row_len = regs[k].1.len();
                let mut l: Vec<usize> = Vec::new();
                for c in 0..row_len
                    invariant
                        n_regs == regs@.len(),
                        k < n_regs,
                        row_len == regs@[k as int].1@.len(),
                        l@ == regs@[k as int].1@.take(c as int),
                {
                    l.push(regs[k].1[c]);
                    proof {
                        assert(l@ =~= regs@[k as int].1@.take(c + 1));
                    }
                }
                proof {
                    assert(l@ =~= regs@[k as int].1@);
                }
                lists.push(l);
            }
            proof {
                assert(lists_view(lists@) =~~= parsed_lists(spec_regs));
                assert forall|k: int, i: int|
                    0 <= k < lists@.len() && 0 <= i < lists@[k]@.len() implies (
                #[trigger] lists@[k]@[i] as nat) < n_rows * n_cols by {
                    assert(lists_view(lists@)[k] == lists@[k]@);
                    assert(parsed_lists(spec_regs)[k] == spec_regs[k].1);
                }
            }
            let (res, count) = solve_regions(&lists, n_rows, n_cols);
            (res, count)
        },
        None => {
            proof {
                assert(false);
            }
            (None, 0)
        },
    }
}

} // verus!
