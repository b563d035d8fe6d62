//! Trusted bindings to the bit-board crate.
//!
//! The solver stores its grids in `bit_board::bitboardstatic::BitBoardStatic<3>`,
//! a bit-packed board backed by three machine words.  Verus sees that type as
//! opaque, so this module gives names to what a board holds — its bits and its
//! shape — and wraps each method the library calls in a function whose contract
//! states, over those names, what the crate's code does.  Everything above this
//! module is verified against these contracts.

use crate::grid::is_diag_neighbor;
use bit_board::bitboard::BitBoard;
use bit_board::bitboardstatic::BitBoardStatic;
use bit_board::DimensionMismatch;
use vstd::prelude::*;

verus! {

/// Number of cells a board can hold: the 192 bits of three 64-bit words.
/// The backing storage is three words of `usize`, so this capacity, and the
/// contracts that lean on it, count on a 64-bit target.
pub const BOARD_CAPACITY: usize = 192;

#[verifier::external_type_specification]
#[verifier::external_body]
pub struct ExBitBoardStatic<const W: usize>(BitBoardStatic<W>);

#[verifier::external_type_specification]
#[verifier::external_body]
pub struct ExDimensionMismatch(DimensionMismatch);

/// The bits of the board's backing storage, in linear order.
pub uninterp spec fn board_bits(b: BitBoardStatic<3>) -> Seq<bool>;

/// The number of rows the board was built with.
pub uninterp spec fn board_rows(b: BitBoardStatic<3>) -> nat;

/// The number of columns the board was built with.
pub uninterp spec fn board_cols(b: BitBoardStatic<3>) -> nat;

/// Relies on `BitBoardStatic::<3>::new`: it builds an all-zero board of the
/// given shape over three 64-bit words, and panics when `n_rows * n_cols`
/// exceeds that storage.
#[verifier::external_body]
pub(crate) fn bb_new(n_rows: usize, n_cols: usize) -> (r: BitBoardStatic<3>)
    requires
        n_rows * n_cols <= BOARD_CAPACITY,
    ensures
        board_rows(r) == n_rows as nat,
        board_cols(r) == n_cols as nat,
        board_bits(r) == Seq::new(BOARD_CAPACITY as nat, |i: int| false),
{
    BitBoardStatic::new(n_rows, n_cols)
}

/// Relies on `BitBoard::n_rows`: it reads the board's row count.
#[verifier::external_body]
pub(crate) fn bb_rows(b: &BitBoardStatic<3>) -> (r: usize)
    ensures
        r as nat == board_rows(*b),
{
    b.n_rows()
}

/// Relies on `BitBoard::n_cols`: it reads the board's column count.
#[verifier::external_body]
pub(crate) fn bb_cols(b: &BitBoardStatic<3>) -> (r: usize)
    ensures
        r as nat == board_cols(*b),
{
    b.n_cols()
}

/// Relies on `BitBoard::board_mut` and bitvec's `BitSlice::set`: they write one
/// bit at the given linear index; `set` panics at or past the end of storage.
#[verifier::external_body]
pub(crate) fn bb_set(b: &mut BitBoardStatic<3>, index: usize, value: bool)
    requires
        (index as int) < board_bits(*old(b)).len(),
    ensures
        board_bits(*final(b)) == board_bits(*old(b)).update(index as int, value),
        board_rows(*final(b)) == board_rows(*old(b)),
        board_cols(*final(b)) == board_cols(*old(b)),
{
    b.board_mut().set(index, value);
}

/// Relies on `BitBoard::fill` (bitvec's `BitSlice::fill`): it sets every bit of
/// the backing storage to the given value.
#[verifier::external_body]
pub(crate) fn bb_fill(b: &mut BitBoardStatic<3>, value: bool)
    ensures
        board_bits(*final(b)) == Seq::new(board_bits(*old(b)).len(), |i: int| value),
        board_rows(*final(b)) == board_rows(*old(b)),
        board_cols(*final(b)) == board_cols(*old(b)),
{
    b.fill(value);
}

/// Relies on `BitBoard::get`: it reads the bit at (`row`, `col`), and reads
/// out-of-range coordinates as false; it never panics.
#[verifier::external_body]
pub(crate) fn bb_get(b: &BitBoardStatic<3>, row: usize, col: usize) -> (r: bool)
    ensures
        r == ({
            let idx = (row as int) * (board_cols(*b) as int) + (col as int);
            (row as nat) < board_rows(*b) && (col as nat) < board_cols(*b)
                && idx < board_bits(*b).len() && board_bits(*b)[idx]
        }),
{
    b.get(row, col)
}

/// Relies on `BitBoard::or`: boards of equal shape are combined bit by bit;
/// unequal shapes give `DimensionMismatch`.
#[verifier::external_body]
pub(crate) fn bb_or(a: &BitBoardStatic<3>, b: &BitBoardStatic<3>) -> (r: Result<
    BitBoardStatic<3>,
    DimensionMismatch,
>)
    requires
        board_bits(*a).len() == board_bits(*b).len(),
    ensures
        match r {
            Ok(c) => board_rows(*a) == board_rows(*b) && board_cols(*a) == board_cols(*b)
                && board_rows(c) == board_rows(*a) && board_cols(c) == board_cols(*a)
                && board_bits(c) == Seq::new(
                board_bits(*a).len(),
                |i: int| board_bits(*a)[i] || board_bits(*b)[i],
            ),
            Err(_) => !(board_rows(*a) == board_rows(*b) && board_cols(*a) == board_cols(*b)),
        },
{
    a.or(b)
}

/// Relies on `BitBoard::and`: boards of equal shape are combined bit by bit;
/// unequal shapes give `DimensionMismatch`.
#[verifier::external_body]
pub(crate) fn bb_and(a: &BitBoardStatic<3>, b: &BitBoardStatic<3>) -> (r: Result<
    BitBoardStatic<3>,
    DimensionMismatch,
>)
    requires
        board_bits(*a).len() == board_bits(*b).len(),
    ensures
        match r {
            Ok(c) => board_rows(*a) == board_rows(*b) && board_cols(*a) == board_cols(*b)
                && board_rows(c) == board_rows(*a) && board_cols(c) == board_cols(*a)
                && board_bits(c) == Seq::new(
                board_bits(*a).len(),
                |i: int| board_bits(*a)[i] && board_bits(*b)[i],
            ),
            Err(_) => !(board_rows(*a) == board_rows(*b) && board_cols(*a) == board_cols(*b)),
        },
{
    a.and(b)
}

/// Relies on `BitBoard::set_row`: it writes `value` to every cell of row `row`,
/// the consecutive indices from `row * cols` up to but excluding
/// `row * cols + cols`.  The requirement keeps every touched index inside the
/// backing storage, where the underlying bit write would otherwise panic.
#[verifier::external_body]
pub(crate) fn bb_set_row(b: &mut BitBoardStatic<3>, row: usize, value: bool)
    requires
        (row as nat) < board_rows(*old(b)),
        board_rows(*old(b)) * board_cols(*old(b)) <= board_bits(*old(b)).len(),
    ensures
        board_rows(*final(b)) == board_rows(*old(b)),
        board_cols(*final(b)) == board_cols(*old(b)),
        board_bits(*final(b)) == Seq::new(
            board_bits(*old(b)).len(),
            |i: int|
                {
                    let cols = board_cols(*old(b)) as int;
                    if (row as int) * cols <= i < (row as int) * cols + cols {
                        value
                    } else {
                        board_bits(*old(b))[i]
                    }
                },
        ),
{
    b.set_row(row, value);
}

/// Relies on `BitBoard::set_col`: it writes `value` to every cell of column
/// `col`, the indices inside the grid whose remainder modulo `cols` is `col`.
/// The requirement keeps every touched index inside the backing storage.
#[verifier::external_body]
pub(crate) fn bb_set_col(b: &mut BitBoardStatic<3>, col: usize, value: bool)
    requires
        (col as nat) < board_cols(*old(b)),
        board_rows(*old(b)) * board_cols(*old(b)) <= board_bits(*old(b)).len(),
    ensures
        board_rows(*final(b)) == board_rows(*old(b)),
        board_cols(*final(b)) == board_cols(*old(b)),
        board_bits(*final(b)) == Seq::new(
            board_bits(*old(b)).len(),
            |i: int|
                {
                    let rows = board_rows(*old(b)) as int;
                    let cols = board_cols(*old(b)) as int;
                    if 0 <= i < rows * cols && i % cols == col as int {
                        value
                    } else {
                        board_bits(*old(b))[i]
                    }
                },
        ),
{
    b.set_col(col, value);
}

/// Relies on `BitBoard::set_diagonals`: it writes `value` to the up-to-four
/// cells one diagonal step away from (`row`, `col`), skipping the ones that
/// fall outside the grid.  The requirement keeps the touched indices inside
/// the backing storage and the coordinates inside the grid, where the
/// underlying writes would otherwise panic.
#[verifier::external_body]
pub(crate) fn bb_set_diagonals(b: &mut BitBoardStatic<3>, row: usize, col: usize, value: bool)
    requires
        (row as nat) < board_rows(*old(b)),
        (col as nat) < board_cols(*old(b)),
        board_rows(*old(b)) * board_cols(*old(b)) <= board_bits(*old(b)).len(),
    ensures
        board_rows(*final(b)) == board_rows(*old(b)),
        board_cols(*final(b)) == board_cols(*old(b)),
        board_bits(*final(b)) == Seq::new(
            board_bits(*old(b)).len(),
            |i: int|
                {
                    let rows = board_rows(*old(b)) as int;
                    let cols = board_cols(*old(b));
                    if 0 <= i < rows * (cols as int) && is_diag_neighbor(
                        cols,
                        row as int,
                        col as int,
                        i,
                    ) {
                        value
                    } else {
                        board_bits(*old(b))[i]
                    }
                },
        ),
{
    b.set_diagonals(row, col, value);
}

/// Relies on `BitBoard::board` and bitvec's `BitSlice::iter_ones`: it yields
/// the indices of the set bits in strictly increasing order, each exactly once.
#[verifier::external_body]
pub(crate) fn bb_ones(b: &BitBoardStatic<3>) -> (r: Vec<usize>)
    ensures
        forall|k: int|
            0 <= k < r@.len() ==> (r@[k] as int) < board_bits(*b).len() && board_bits(
                *b,
            )[r@[k] as int],
        forall|k1: int, k2: int| 0 <= k1 < k2 < r@.len() ==> r@[k1] < r@[k2],
        forall|i: int| 0 <= i < board_bits(*b).len() && board_bits(*b)[i] ==> r@.contains(i as usize),
{
    b.board().iter_ones().collect()
}

} // verus!
