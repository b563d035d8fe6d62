//! Small boards packed into one `u64`: a bitset built from cell indices,
//! and a rendering of such a word as an 8 x 8 grid.

use crate::text::string_push;
use vstd::prelude::*;

verus! {

/// Bit `j` of `x` is set.
pub open spec fn has_bit(x: u64, j: u64) -> bool {
    j < 64 && (x >> j) & 1 == 1
}

/// An or with a one-bit mask changes exactly that bit.
proof fn lemma_or_bit(x: u64, idx: u64, j: u64)
    requires
        idx < 64,
        j < 64,
    ensures
        ((x | (1u64 << idx)) >> j) & 1 == 1 <==> ((x >> j) & 1 == 1 || j == idx),
{
    assert(((x | (1u64 << idx)) >> j) & 1 == 1 <==> ((x >> j) & 1 == 1 || j == idx))
        by (bit_vector)
        requires
            idx < 64,
            j < 64,
    ;
}

/// Take a set of indices, and insert each into a bitset: bit `j` of the
/// result is set exactly when `j` occurs among the indices.
#[must_use]
pub fn build_bit_set_from_inds(inds: &[usize]) -> (r: u64)
    requires
        forall|k: int| 0 <= k < inds@.len() ==> (#[trigger] inds@[k]) < 64,
    ensures
        forall|j: u64| #[trigger] has_bit(r, j) <==> (j < 64 && inds@.contains(j as usize)),
{
    let mut bitset: u64 = 0;
    let len = inds.len();
    proof {
        assert(forall|j: u64| j < 64 ==> #[trigger] ((0u64 >> j) & 1) == 0) by (bit_vector);
    }
    for k in 0..len
        invariant
            len == inds@.len(),
            forall|k2: int| 0 <= k2 < inds@.len() ==> (#[trigger] inds@[k2]) < 64,
            forall|j: u64|
                #[trigger] has_bit(bitset, j) <==> (j < 64 && inds@.take(k as int).contains(
                    j as usize,
                )),
    {
        let idx = *vstd::slice::slice_index_get(inds, k);
        let ghost prev = bitset;
        bitset = bitset | (1u64 << (idx as u64));
        proof {
            assert(inds@.take(k + 1) =~= inds@.take(k as int).push(inds@[k as int]));
            assert forall|j: u64| #[trigger] has_bit(bitset, j) <==> (j < 64 && inds@.take(
                k + 1,
            ).contains(j as usize)) by {
                if j < 64 {
                    lemma_or_bit(prev, idx as u64, j);
                    assert(has_bit(prev, j) <==> (j < 64 && inds@.take(k as int).contains(
                        j as usize,
                    )));
                    if inds@.take(k + 1).contains(j as usize) {
                        let w = choose|w: int|
                            0 <= w < k + 1 && #[trigger] inds@.take(k + 1)[w] == (j as usize);
                        if w < k {
                            assert(inds@.take(k as int)[w] == (j as usize));
                        }
                    }
                    if inds@.take(k as int).contains(j as usize) {
                        let w = choose|w: int|
                            0 <= w < k && #[trigger] inds@.take(k as int)[w] == (j as usize);
                        assert(inds@.take(k + 1)[w] == (j as usize));
                    }
                    if j == idx {
                        assert(inds@.take(k + 1)[k as int] == (j as usize));
                    }
                }
            }
        }
    }
    proof {
        assert(inds@.take(len as int) =~= inds@);
    }
    bitset
}

/// One rendered cell: its glyph and a space.
pub open spec fn cell_glyph(b: bool) -> Seq<char> {
    if b {
        seq!['X', ' ']
    } else {
        seq!['.', ' ']
    }
}

/// The first `c` cells of row `row` of an 8 x 8 word board, rendered.
pub open spec fn render_row_prefix(board: u64, row: int, c: int) -> Seq<char>
    decreases c,
{
    if c <= 0 {
        Seq::empty()
    } else {
        render_row_prefix(board, row, c - 1) + cell_glyph(has_bit(board, (row * 8 + (c - 1)) as u64))
    }
}

/// The first `r` rows of an 8 x 8 word board, each ending in a newline.
pub open spec fn render_rows_prefix(board: u64, r: int) -> Seq<char>
    decreases r,
{
    if r <= 0 {
        Seq::empty()
    } else {
        render_rows_prefix(board, r - 1) + render_row_prefix(board, r - 1, 8) + seq!['\n']
    }
}

/// The rendering of an 8 x 8 word board: an 'X' wherever a bit is set to 1
/// and a '.' wherever it is set to 0, cells separated by spaces, one row
/// per line, row-major from bit 0.
pub open spec fn spec_render_u64(board: u64) -> Seq<char> {
    render_rows_prefix(board, 8)
}

/// Render an 8 x 8 word board as text, as `spec_render_u64` describes.
pub fn render_u64(board: u64) -> (r: String)
    ensures
        r@ == spec_render_u64(board),
{
    let mut s = String::new();
    proof {
        assert(s@ =~= render_rows_prefix(board, 0));
    }
    for row in 0..8usize
        invariant
            s@ == render_rows_prefix(board, row as int),
    {
        proof {
            assert(s@ =~= render_rows_prefix(board, row as int) + render_row_prefix(
                board,
                row as int,
                0,
            ));
        }
        for col in 0..8usize
            invariant
                row < 8,
                s@ == render_rows_prefix(board, row as int) + render_row_prefix(
                    board,
                    row as int,
                    col as int,
                ),
        {
            let idx = row * 8 + col;
            let mask = 1u64 << (idx as u64);
            let ghost j = (row * 8 + col) as u64;
            proof {
                assert(((board & (1u64 << j) == 0) <==> ((board >> j) & 1 == 0)) && (((board >> j)
                    & 1) == 0 || ((board >> j) & 1) == 1)) by (bit_vector)
                    requires
                        j < 64,
                ;
            }
            if board & mask == 0 {
                string_push(&mut s, '.');
            } else {
                string_push(&mut s, 'X');
            }
            string_push(&mut s, ' ');
            proof {
                assert(j < 64);
                assert(idx as u64 == j);
                assert(mask == 1u64 << j);
                if board & mask == 0 {
                    assert(!has_bit(board, j));
                    assert(cell_glyph(has_bit(board, j)) == seq!['.', ' ']);
                } else {
                    assert(has_bit(board, j));
                    assert(cell_glyph(has_bit(board, j)) == seq!['X', ' ']);
                }
                assert(render_row_prefix(board, row as int, col + 1) == render_row_prefix(
                    board,
                    row as int,
                    col as int,
                ) + cell_glyph(has_bit(board, j)));
                assert(s@ =~= render_rows_prefix(board, row as int) + render_row_prefix(
                    board,
                    row as int,
                    col + 1,
                ));
            }
        }
        string_push(&mut s, '\n');
        proof {
            assert(s@ =~= render_rows_prefix(board, row as int + 1));
        }
    }
    s
}

} // verus!
