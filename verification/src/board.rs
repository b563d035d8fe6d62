//! The `QueenBoard` type: a bit-packed boolean grid with a runtime shape,
//! verified against the ghost model `BoardModel`.

use crate::bitboard::{
    bb_and, bb_cols, bb_fill, bb_get, bb_new, bb_ones, bb_or, bb_rows, bb_set, bb_set_col,
    bb_set_diagonals, bb_set_row, board_bits, board_cols, board_rows, BOARD_CAPACITY,
};
use crate::grid::{col_of, is_diag_neighbor, lemma_index_decompose, lemma_row_major_bounds, row_of};
use bit_board::bitboardstatic::BitBoardStatic;
use vstd::prelude::*;

verus! {

/// Ghost model of a board: its shape and one boolean per cell, row-major.
/// Cell (r, c) is `cells[r * cols + c]`.
pub struct BoardModel {
    pub rows: nat,
    pub cols: nat,
    pub cells: Seq<bool>,
}

/// No cell of row `row` is set.  Rows outside the grid are empty.
pub open spec fn row_empty(m: BoardModel, row: int) -> bool {
    forall|i: int| 0 <= i < m.rows * m.cols && row_of(m.cols, i) == row ==> !m.cells[i]
}

/// No cell of column `col` is set.  Columns outside the grid are empty.
pub open spec fn col_empty(m: BoardModel, col: int) -> bool {
    forall|i: int| 0 <= i < m.rows * m.cols && col_of(m.cols, i) == col ==> !m.cells[i]
}

/// No set cell lies one diagonal step away from the cell with linear
/// index `idx`.
pub open spec fn diagonals_empty(m: BoardModel, idx: int) -> bool {
    forall|i: int|
        0 <= i < m.rows * m.cols && is_diag_neighbor(
            m.cols,
            row_of(m.cols, idx),
            col_of(m.cols, idx),
            i,
        ) ==> !m.cells[i]
}

/// Error of the elementwise combine operations: the two boards' shapes
/// differ.
#[derive(Debug, PartialEq, Eq, Structural, Clone, Copy)]
pub struct DimensionMismatchError;

/// The model after setting every cell of row `row` to `v`: the target row
/// reads `v` and every other cell keeps its value.
pub open spec fn spec_set_row(m: BoardModel, row: int, v: bool) -> BoardModel {
    BoardModel {
        rows: m.rows,
        cols: m.cols,
        cells: Seq::new(
            m.rows * m.cols,
            |i: int| if row_of(m.cols, i) == row {
                v
            } else {
                m.cells[i]
            },
        ),
    }
}

/// The cells a list of linear indices occupies on a grid of `n` cells:
/// cell `i` is set exactly when some listed index equals `i`.
pub open spec fn cells_from_indices(n: nat, inds: Seq<usize>) -> Seq<bool> {
    Seq::new(n, |i: int| inds.contains(i as usize))
}

/// Appending one index to the list sets exactly that one more cell.
pub proof fn lemma_cells_from_indices_push(n: nat, inds: Seq<usize>, x: usize)
    requires
        (x as nat) < n,
        n <= usize::MAX,
    ensures
        cells_from_indices(n, inds.push(x)) == cells_from_indices(n, inds).update(x as int, true),
{
    assert forall|i: int| 0 <= i < n implies cells_from_indices(n, inds.push(x))[i]
        == cells_from_indices(n, inds).update(x as int, true)[i] by {
        if i != x as int {
            if inds.push(x).contains(i as usize) {
                let w = choose|w: int|
                    0 <= w < inds.push(x).len() && #[trigger] inds.push(x)[w] == (i as usize);
                assert(w != inds.len());
                assert(inds[w] == (i as usize));
            }
            if inds.contains(i as usize) {
                let w = choose|w: int| 0 <= w < inds.len() && #[trigger] inds[w] == (i as usize);
                assert(inds.push(x)[w] == (i as usize));
            }
        } else {
            assert(inds.push(x)[inds.len() as int] == x);
        }
    }
    assert(cells_from_indices(n, inds.push(x)) =~= cells_from_indices(n, inds).update(
        x as int,
        true,
    ));
}

/// The model after setting every cell of column `col` to `v`: the target
/// column reads `v` and every other cell keeps its value.
pub open spec fn spec_set_col(m: BoardModel, col: int, v: bool) -> BoardModel {
    BoardModel {
        rows: m.rows,
        cols: m.cols,
        cells: Seq::new(
            m.rows * m.cols,
            |i: int| if col_of(m.cols, i) == col {
                v
            } else {
                m.cells[i]
            },
        ),
    }
}

/// A bit-packed board for playing Queens.  Boards hold at most
/// `BOARD_CAPACITY` cells.
#[derive(Debug, Clone, Copy, PartialEq)]
pub struct QueenBoard(BitBoardStatic<3>);

impl View for QueenBoard {
    type V = BoardModel;

    closed spec fn view(&self) -> BoardModel {
        BoardModel {
            rows: board_rows(self.0),
            cols: board_cols(self.0),
            cells: board_bits(self.0).take((board_rows(self.0) * board_cols(self.0)) as int),
        }
    }
}

impl QueenBoard {
    /// The board is well formed: its grid fits the backing storage and no
    /// bit past the grid is set.
    pub closed spec fn wf(&self) -> bool {
        &&& board_bits(self.0).len() == BOARD_CAPACITY
        &&& board_rows(self.0) * board_cols(self.0) <= BOARD_CAPACITY as nat
        &&& forall|i: int|
            board_rows(self.0) * board_cols(self.0) <= i < BOARD_CAPACITY ==> !board_bits(self.0)[i]
    }

    /// A well-formed board has one model cell per grid cell, and the grid
    /// fits the capacity.
    pub proof fn lemma_wf_dims(&self)
        requires
            self.wf(),
        ensures
            self@.cells.len() == self@.rows * self@.cols,
            self@.rows * self@.cols <= BOARD_CAPACITY as nat,
    {
    }

    /// Create a new, empty board.
    #[must_use]
    pub fn new(n_rows: usize, n_cols: usize) -> (r: QueenBoard)
        requires
            n_rows * n_cols <= BOARD_CAPACITY,
        ensures
            r.wf(),
            r@.rows == n_rows as nat,
            r@.cols == n_cols as nat,
            r@.cells == Seq::new((n_rows * n_cols) as nat, |i: int| false),
    {
        let inner = bb_new(n_rows, n_cols);
        let r = QueenBoard(inner);
        proof {
            assert(r@.cells =~= Seq::new((n_rows * n_cols) as nat, |i: int| false));
        }
        r
    }

    /// The number of rows of the grid.
    pub fn n_rows(&self) -> (r: usize)
        ensures
            r as nat == self@.rows,
    {
        bb_rows(&self.0)
    }

    /// The number of columns of the grid.
    pub fn n_cols(&self) -> (r: usize)
        ensures
            r as nat == self@.cols,
    {
        bb_cols(&self.0)
    }

    /// Set every cell of the board to `value`.
    pub fn fill(&mut self, value: bool)
        requires
            old(self).wf(),
        ensures
            final(self).wf(),
            final(self)@.rows == old(self)@.rows,
            final(self)@.cols == old(self)@.cols,
            final(self)@.cells == Seq::new(old(self)@.rows * old(self)@.cols, |i: int| value),
    {
        let ghost rows = old(self)@.rows;
        let ghost cols = old(self)@.cols;
        bb_fill(&mut self.0, value);
        if value {
            // The backing storage was filled whole; zero the bits past the
            // grid again so the board stays well formed.
            let n = self.n_rows() * self.n_cols();
            let mut i = n;
            while i < BOARD_CAPACITY
                invariant
                    n == rows * cols,
                    n <= BOARD_CAPACITY,
                    i >= n,
                    i <= BOARD_CAPACITY,
                    board_rows(self.0) == rows,
                    board_cols(self.0) == cols,
                    board_bits(self.0).len() == BOARD_CAPACITY,
                    forall|b: int| 0 <= b < n ==> board_bits(self.0)[b] == value,
                    forall|b: int| n <= b < i ==> !board_bits(self.0)[b],
                decreases BOARD_CAPACITY - i,
            {
                bb_set(&mut self.0, i, false);
                i = i + 1;
            }
        }
        proof {
            assert(final(self)@.cells =~= Seq::new(rows * cols, |i: int| value));
        }
    }

    /// Clears the board by setting all cells to 0.
    pub fn clear(&mut self)
        requires
            old(self).wf(),
        ensures
            final(self).wf(),
            final(self)@.rows == old(self)@.rows,
            final(self)@.cols == old(self)@.cols,
            final(self)@.cells == Seq::new(old(self)@.rows * old(self)@.cols, |i: int| false),
    {
        bb_fill(&mut self.0, false);
        proof {
            assert(final(self)@.cells =~= Seq::new(
                old(self)@.rows * old(self)@.cols,
                |i: int| false,
            ));
        }
    }

    /// Place the `value` at the linear index `index`.
    pub fn set_linear_index(&mut self, index: usize, value: bool)
        requires
            old(self).wf(),
            (index as nat) < old(self)@.rows * old(self)@.cols,
        ensures
            final(self).wf(),
            final(self)@.rows == old(self)@.rows,
            final(self)@.cols == old(self)@.cols,
            final(self)@.cells == old(self)@.cells.update(index as int, value),
    {
        bb_set(&mut self.0, index, value);
        proof {
            assert(final(self)@.cells =~= old(self)@.cells.update(index as int, value));
        }
    }

    /// The value of cell (`row`, `col`); coordinates outside the grid read
    /// as false.
    pub fn get(&self, row: usize, col: usize) -> (r: bool)
        requires
            self.wf(),
        ensures
            r == ((row as nat) < self@.rows && (col as nat) < self@.cols && self@.cells[(row as int)
                * (self@.cols as int) + (col as int)]),
    {
        let r = bb_get(&self.0, row, col);
        proof {
            if (row as nat) < self@.rows && (col as nat) < self@.cols {
                lemma_row_major_bounds(
                    row as int,
                    col as int,
                    self@.rows as int,
                    self@.cols as int,
                );
            }
        }
        r
    }

    /// The row and column of the cell with linear index `index`.
    pub fn row_col_of(&self, index: usize) -> (r: (usize, usize))
        requires
            self@.cols > 0,
        ensures
            r.0 as int == row_of(self@.cols, index as int),
            r.1 as int == col_of(self@.cols, index as int),
    {
        let c = self.n_cols();
        (index / c, index % c)
    }

    /// Set every cell of row `row` to `value`.
    pub fn set_row(&mut self, row: usize, value: bool)
        requires
            old(self).wf(),
            (row as nat) < old(self)@.rows,
        ensures
            final(self).wf(),
            final(self)@.rows == old(self)@.rows,
            final(self)@.cols == old(self)@.cols,
            final(self)@ == spec_set_row(old(self)@, row as int, value),
    {
        let ghost rows = old(self)@.rows;
        let ghost cols = old(self)@.cols;
        bb_set_row(&mut self.0, row, value);
        proof {
            if cols > 0 {
                assert(0 <= (row as int) * cols && (row as int) * cols + cols <= rows * cols)
                    by (nonlinear_arith)
                    requires
                        (row as nat) < rows,
                        cols > 0,
                ;
                assert forall|i: int| 0 <= i < BOARD_CAPACITY as int implies (((row as int) * cols
                    <= i < (row as int) * cols + cols) <==> (0 <= i < rows * cols && row_of(
                    cols,
                    i,
                ) == row as int)) by {
                    crate::grid::lemma_row_interval(cols, row as int, i);
                }
            } else {
                assert(rows * cols == 0) by (nonlinear_arith)
                    requires
                        cols == 0,
                ;
            }
            assert(final(self)@.cells =~= spec_set_row(old(self)@, row as int, value).cells);
        }
    }

    /// Set every cell of column `col` to `value`.
    pub fn set_col(&mut self, col: usize, value: bool)
        requires
            old(self).wf(),
            (col as nat) < old(self)@.cols,
        ensures
            final(self).wf(),
            final(self)@.rows == old(self)@.rows,
            final(self)@.cols == old(self)@.cols,
            final(self)@ == spec_set_col(old(self)@, col as int, value),
    {
        let ghost rows = old(self)@.rows;
        let ghost cols = old(self)@.cols;
        bb_set_col(&mut self.0, col, value);
        proof {
            assert(final(self)@.cells =~= spec_set_col(old(self)@, col as int, value).cells);
        }
    }

    /// Set the up-to-four cells one diagonal step away from (`row`, `col`)
    /// to `value`, skipping the ones that fall outside the grid.
    pub fn set_diagonals(&mut self, row: usize, col: usize, value: bool)
        requires
            old(self).wf(),
            (row as nat) < old(self)@.rows,
            (col as nat) < old(self)@.cols,
        ensures
            final(self).wf(),
            final(self)@.rows == old(self)@.rows,
            final(self)@.cols == old(self)@.cols,
            final(self)@.cells == Seq::new(
                old(self)@.rows * old(self)@.cols,
                |i: int|
                    if is_diag_neighbor(old(self)@.cols, row as int, col as int, i) {
                        value
                    } else {
                        old(self)@.cells[i]
                    },
            ),
    {
        let ghost rows = old(self)@.rows;
        let ghost cols = old(self)@.cols;
        bb_set_diagonals(&mut self.0, row, col, value);
        proof {
            assert(final(self)@.cells =~= Seq::new(
                rows * cols,
                |i: int| if is_diag_neighbor(cols, row as int, col as int, i) {
                    value
                } else {
                    old(self)@.cells[i]
                },
            ));
        }
    }

    /// Elementwise boolean or of two boards of the same shape.
    pub fn or(&self, other: &QueenBoard) -> (r: Result<QueenBoard, DimensionMismatchError>)
        requires
            self.wf(),
            other.wf(),
        ensures
            match r {
                Ok(c) => self@.rows == other@.rows && self@.cols == other@.cols && c.wf()
                    && c@.rows == self@.rows && c@.cols == self@.cols && c@.cells == Seq::new(
                    self@.rows * self@.cols,
                    |i: int| self@.cells[i] || other@.cells[i],
                ),
                Err(e) => !(self@.rows == other@.rows && self@.cols == other@.cols),
            },
    {
        match bb_or(&self.0, &other.0) {
            Ok(inner) => {
                let c = QueenBoard(inner);
                proof {
                    assert(c@.cells =~= Seq::new(
                        self@.rows * self@.cols,
                        |i: int| self@.cells[i] || other@.cells[i],
                    ));
                }
                Ok(c)
            },
            Err(_) => Err(DimensionMismatchError),
        }
    }

    /// Elementwise boolean and of two boards of the same shape.
    pub fn and(&self, other: &QueenBoard) -> (r: Result<QueenBoard, DimensionMismatchError>)
        requires
            self.wf(),
            other.wf(),
        ensures
            match r {
                Ok(c) => self@.rows == other@.rows && self@.cols == other@.cols && c.wf()
                    && c@.rows == self@.rows && c@.cols == self@.cols && c@.cells == Seq::new(
                    self@.rows * self@.cols,
                    |i: int| self@.cells[i] && other@.cells[i],
                ),
                Err(e) => !(self@.rows == other@.rows && self@.cols == other@.cols),
            },
    {
        match bb_and(&self.0, &other.0) {
            Ok(inner) => {
                let c = QueenBoard(inner);
                proof {
                    assert(c@.cells =~= Seq::new(
                        self@.rows * self@.cols,
                        |i: int| self@.cells[i] && other@.cells[i],
                    ));
                }
                Ok(c)
            },
            Err(_) => Err(DimensionMismatchError),
        }
    }

    /// The linear indices of the set cells, in increasing order.
    pub fn get_linear_indices(&self) -> (r: Vec<usize>)
        requires
            self.wf(),
        ensures
            forall|k: int|
                0 <= k < r@.len() ==> (r@[k] as nat) < self@.rows * self@.cols
                    && self@.cells[r@[k] as int],
            forall|k1: int, k2: int| 0 <= k1 < k2 < r@.len() ==> r@[k1] < r@[k2],
            forall|i: int| 0 <= i < self@.cells.len() && self@.cells[i] ==> r@.contains(i as usize),
    {
        let r = bb_ones(&self.0);
        proof {
            assert forall|k: int| 0 <= k < r@.len() implies (r@[k] as nat) < self@.rows * self@.cols
                && self@.cells[r@[k] as int] by {
                assert(board_bits(self.0)[r@[k] as int]);
            }
        }
        r
    }

    /// The cell values along row `row`, in ascending column order.  Rows
    /// outside the grid read as all false.
    pub fn get_row(&self, row: usize) -> (r: Vec<bool>)
        requires
            self.wf(),
        ensures
            r@.len() == self@.cols,
            forall|c: int|
                0 <= c < self@.cols ==> r@[c] == ((row as nat) < self@.rows
                    && self@.cells[(row as int) * (self@.cols as int) + c]),
    {
        let n_cols = self.n_cols();
        let mut r: Vec<bool> = Vec::new();
        for c in 0..n_cols
            invariant
                self.wf(),
                n_cols as nat == self@.cols,
                r@.len() == c,
                forall|c2: int|
                    0 <= c2 < c ==> r@[c2] == ((row as nat) < self@.rows && self@.cells[(row as int)
                        * (self@.cols as int) + c2]),
        {
            r.push(self.get(row, c));
        }
        r
    }

    /// The cell values along column `col`, in ascending row order.  Columns
    /// outside the grid read as all false.
    pub fn get_col(&self, col: usize) -> (r: Vec<bool>)
        requires
            self.wf(),
        ensures
            r@.len() == self@.rows,
            forall|rr: int|
                0 <= rr < self@.rows ==> r@[rr] == ((col as nat) < self@.cols && self@.cells[rr * (
                self@.cols as int) + (col as int)]),
    {
        let n_rows = self.n_rows();
        let mut r: Vec<bool> = Vec::new();
        for rr in 0..n_rows
            invariant
                self.wf(),
                n_rows as nat == self@.rows,
                r@.len() == rr,
                forall|r2: int|
                    0 <= r2 < rr ==> r@[r2] == ((col as nat) < self@.cols && self@.cells[r2 * (
                    self@.cols as int) + (col as int)]),
        {
            r.push(self.get(rr, col));
        }
        r
    }

    /// True when no cell of row `row` is set; rows outside the grid are empty.
    #[must_use]
    pub fn row_is_empty(&self, row: usize) -> (r: bool)
        requires
            self.wf(),
        ensures
            r == row_empty(self@, row as int),
    {
        let n_rows = self.n_rows();
        let n_cols = self.n_cols();
        if row >= n_rows {
            proof {
                assert forall|i: int|
                    0 <= i < self@.rows * self@.cols && row_of(self@.cols, i)
                        == row as int implies !self@.cells[i] by {
                    lemma_index_decompose(self@.rows, self@.cols, i);
                }
            }
            return true;
        }
        for c in 0..n_cols
            invariant
                self.wf(),
                n_cols as nat == self@.cols,
                n_rows as nat == self@.rows,
                row < n_rows,
                forall|i: int|
                    #![trigger self@.cells[i]]
                    0 <= i < self@.rows * self@.cols && row_of(self@.cols, i) == row as int
                        && col_of(self@.cols, i) < c ==> !self@.cells[i],
        {
            proof {
                lemma_row_major_bounds(row as int, c as int, self@.rows as int, self@.cols as int);
            }
            if self.get(row, c) {
                return false;
            }
            proof {
                assert forall|i: int|
                    0 <= i < self@.rows * self@.cols && row_of(self@.cols, i) == row as int
                        && col_of(self@.cols, i) < c + 1 implies !self@.cells[i] by {
                    lemma_index_decompose(self@.rows, self@.cols, i);
                }
            }
        }
        proof {
            assert forall|i: int|
                0 <= i < self@.rows * self@.cols && row_of(self@.cols, i)
                    == row as int implies !self@.cells[i] by {
                lemma_index_decompose(self@.rows, self@.cols, i);
            }
        }
        true
    }

    /// True when no cell of column `col` is set; columns outside the grid
    /// are empty.
    #[must_use]
    pub fn col_is_empty(&self, col: usize) -> (r: bool)
        requires
            self.wf(),
        ensures
            r == col_empty(self@, col as int),
    {
        let n_rows = self.n_rows();
        let n_cols = self.n_cols();
        if col >= n_cols {
            proof {
                assert forall|i: int|
                    0 <= i < self@.rows * self@.cols && col_of(self@.cols, i)
                        == col as int implies !self@.cells[i] by {
                    lemma_index_decompose(self@.rows, self@.cols, i);
                }
            }
            return true;
        }
        for rr in 0..n_rows
            invariant
                self.wf(),
                n_rows as nat == self@.rows,
                n_cols as nat == self@.cols,
                col < n_cols,
                forall|i: int|
                    #![trigger self@.cells[i]]
                    0 <= i < self@.rows * self@.cols && col_of(self@.cols, i) == col as int
                        && row_of(self@.cols, i) < rr ==> !self@.cells[i],
        {
            proof {
                lemma_row_major_bounds(rr as int, col as int, self@.rows as int, self@.cols as int);
            }
            if self.get(rr, col) {
                return false;
            }
            proof {
                assert forall|i: int|
                    0 <= i < self@.rows * self@.cols && col_of(self@.cols, i) == col as int
                        && row_of(self@.cols, i) < rr + 1 implies !self@.cells[i] by {
                    lemma_index_decompose(self@.rows, self@.cols, i);
                }
            }
        }
        proof {
            assert forall|i: int|
                0 <= i < self@.rows * self@.cols && col_of(self@.cols, i)
                    == col as int implies !self@.cells[i] by {
                lemma_index_decompose(self@.rows, self@.cols, i);
            }
        }
        true
    }

    /// True when none of the up-to-four cells one diagonal step away from
    /// the cell with linear index `linear_idx` is set.
    #[must_use]
    pub fn one_off_diagonals_are_empty(&self, linear_idx: usize) -> (r: bool)
        requires
            self.wf(),
            self@.rows > 0,
            self@.cols > 0,
        ensures
            r == diagonals_empty(self@, linear_idx as int),
    {
        let n_rows = self.n_rows();
        let n_cols = self.n_cols();
        let (row, col) = self.row_col_of(linear_idx);

        let ghost rows = self@.rows;
        let ghost cols = self@.cols;

        // Above left
        if row > 0 && col > 0 && self.get(row - 1, col - 1) {
            proof {
                lemma_row_major_bounds(row as int - 1, col as int - 1, rows as int, cols as int);
            }
            return false;
        }
        // Above right
        if row > 0 && col < n_cols - 1 && self.get(row - 1, col + 1) {
            proof {
                lemma_row_major_bounds(row as int - 1, col as int + 1, rows as int, cols as int);
            }
            return false;
        }
        // Below left
        if row < n_rows - 1 && col > 0 && self.get(row + 1, col - 1) {
            proof {
                lemma_row_major_bounds(row as int + 1, col as int - 1, rows as int, cols as int);
            }
            return false;
        }
        // Below right
        if row < n_rows - 1 && col < n_cols - 1 && self.get(row + 1, col + 1) {
            proof {
                lemma_row_major_bounds(row as int + 1, col as int + 1, rows as int, cols as int);
            }
            return false;
        }
        proof {
            assert forall|i: int|
                0 <= i < rows * cols && is_diag_neighbor(
                    cols,
                    row as int,
                    col as int,
                    i,
                ) implies !self@.cells[i] by {
                lemma_index_decompose(rows, cols, i);
            }
        }
        true
    }
}

/// Filling a row is idempotent: setting the same row to the same value a
/// second time changes nothing.
pub proof fn lemma_set_row_idempotent(m: BoardModel, row: int, v: bool)
    ensures
        spec_set_row(spec_set_row(m, row, v), row, v) == spec_set_row(m, row, v),
{
    assert(spec_set_row(spec_set_row(m, row, v), row, v).cells =~= spec_set_row(m, row, v).cells);
}

/// Filling a column is idempotent: setting the same column to the same
/// value a second time changes nothing.
pub proof fn lemma_set_col_idempotent(m: BoardModel, col: int, v: bool)
    ensures
        spec_set_col(spec_set_col(m, col, v), col, v) == spec_set_col(m, col, v),
{
    assert(spec_set_col(spec_set_col(m, col, v), col, v).cells =~= spec_set_col(m, col, v).cells);
}

/// Filling a row depends only on the target row and the shape, never on the
/// board's prior contents: two boards of the same shape agree on the target
/// row afterwards, and every other cell keeps its own prior value.
pub proof fn lemma_set_row_independent(m1: BoardModel, m2: BoardModel, row: int, v: bool)
    requires
        m1.rows == m2.rows,
        m1.cols == m2.cols,
    ensures
        forall|i: int|
            0 <= i < m1.rows * m1.cols && row_of(m1.cols, i) == row ==> #[trigger] spec_set_row(
                m1,
                row,
                v,
            ).cells[i] == spec_set_row(m2, row, v).cells[i],
        forall|i: int|
            0 <= i < m1.rows * m1.cols && row_of(m1.cols, i) != row ==> #[trigger] spec_set_row(
                m1,
                row,
                v,
            ).cells[i] == m1.cells[i],
{
}

/// Filling a column depends only on the target column and the shape, never
/// on the board's prior contents.
pub proof fn lemma_set_col_independent(m1: BoardModel, m2: BoardModel, col: int, v: bool)
    requires
        m1.rows == m2.rows,
        m1.cols == m2.cols,
    ensures
        forall|i: int|
            0 <= i < m1.rows * m1.cols && col_of(m1.cols, i) == col ==> #[trigger] spec_set_col(
                m1,
                col,
                v,
            ).cells[i] == spec_set_col(m2, col, v).cells[i],
        forall|i: int|
            0 <= i < m1.rows * m1.cols && col_of(m1.cols, i) != col ==> #[trigger] spec_set_col(
                m1,
                col,
                v,
            ).cells[i] == m1.cells[i],
{
}

/// The rendering of the first `c` cells of row `row`: 'X' for a set cell,
/// '.' for an empty one.
pub open spec fn render_row_chars(m: BoardModel, row: int, c: int) -> Seq<char>
    decreases c,
{
    if c <= 0 {
        Seq::empty()
    } else {
        render_row_chars(m, row, c - 1).push(
            if m.cells[row * (m.cols as int) + (c - 1)] {
                'X'
            } else {
                '.'
            },
        )
    }
}

/// The rendering of the board's first `r` rows, one line per row.
pub open spec fn render_board_rows(m: BoardModel, r: int) -> Seq<char>
    decreases r,
{
    if r <= 0 {
        Seq::empty()
    } else {
        render_board_rows(m, r - 1) + render_row_chars(m, r - 1, m.cols as int).push('\n')
    }
}

/// The text rendering of a board: one line per row, 'X' for a set cell and
/// '.' for an empty one.
pub open spec fn spec_display(m: BoardModel) -> Seq<char> {
    render_board_rows(m, m.rows as int)
}

impl QueenBoard {
    /// The board as text, one line per row: 'X' for a set cell, '.' for an
    /// empty one.
    pub fn to_display_string(&self) -> (r: String)
        requires
            self.wf(),
        ensures
            r@ == spec_display(self@),
    {
        let n_rows = self.n_rows();
        let n_cols = self.n_cols();
        let mut s = String::new();
        proof {
            assert(s@ =~= render_board_rows(self@, 0));
        }
        for row in 0..n_rows
            invariant
                self.wf(),
                n_rows as nat == self@.rows,
                n_cols as nat == self@.cols,
                s@ == render_board_rows(self@, row as int),
        {
            proof {
                assert(s@ =~= render_board_rows(self@, row as int) + render_row_chars(
                    self@,
                    row as int,
                    0,
                ));
            }
            for col in 0..n_cols
                invariant
                    self.wf(),
                    n_rows as nat == self@.rows,
                    n_cols as nat == self@.cols,
                    row < n_rows,
                    s@ == render_board_rows(self@, row as int) + render_row_chars(
                        self@,
                        row as int,
                        col as int,
                    ),
            {
                if self.get(row, col) {
                    crate::text::string_push(&mut s, 'X');
                } else {
                    crate::text::string_push(&mut s, '.');
                }
                proof {
                    assert(s@ =~= render_board_rows(self@, row as int) + render_row_chars(
                        self@,
                        row as int,
                        col + 1,
                    ));
                }
            }
            crate::text::string_push(&mut s, '\n');
            proof {
                assert(s@ =~= render_board_rows(self@, row as int + 1));
            }
        }
        s
    }
}

/// Take a set of linear indices and build a board with exactly those cells
/// set.
#[must_use]
pub fn build_queen_board_from_inds(inds: &[usize], n_rows: usize, n_cols: usize) -> (r: QueenBoard)
    requires
        n_rows * n_cols <= BOARD_CAPACITY,
        forall|k: int| 0 <= k < inds@.len() ==> (#[trigger] inds@[k] as nat) < n_rows * n_cols,
    ensures
        r.wf(),
        r@.rows == n_rows as nat,
        r@.cols == n_cols as nat,
        r@.cells == cells_from_indices((n_rows * n_cols) as nat, inds@),
{
    let mut board = QueenBoard::new(n_rows, n_cols);
    let ghost n = (n_rows * n_cols) as nat;
    let len = inds.len();
    proof {
        assert(board@.cells =~= cells_from_indices(n, inds@.take(0)));
    }
    for k in 0..len
        invariant
            board.wf(),
            board@.rows == n_rows as nat,
            board@.cols == n_cols as nat,
            n == n_rows * n_cols,
            n <= BOARD_CAPACITY,
            len == inds@.len(),
            forall|k2: int| 0 <= k2 < inds@.len() ==> (#[trigger] inds@[k2] as nat) < n,
            board@.cells == cells_from_indices(n, inds@.take(k as int)),
    {
        let idx = *vstd::slice::slice_index_get(inds, k);
        board.set_linear_index(idx, true);
        proof {
            assert(inds@.take(k + 1) =~= inds@.take(k as int).push(inds@[k as int]));
            lemma_cells_from_indices_push(n, inds@.take(k as int), inds@[k as int]);
        }
    }
    proof {
        assert(inds@.take(len as int) =~= inds@);
    }
    board
}

} // verus!
