//! Parsing the puzzle text: a whitespace-separated grid of one symbol per
//! cell, identical symbols forming a color region.  The parser rejects
//! non-ASCII input, mismatched row lengths, and grids past the board
//! capacity.

use crate::bitboard::BOARD_CAPACITY;
use vstd::prelude::*;

verus! {

/// ASCII whitespace: space, tab, line feed, vertical tab, form feed,
/// carriage return — the ASCII bytes `char::is_whitespace` accepts.
pub open spec fn is_ws(b: u8) -> bool {
    b == 32 || b == 9 || b == 10 || b == 11 || b == 12 || b == 13
}

/// One tokenizer step on the pair of finished tokens and pending token:
/// whitespace closes the pending token, any other byte extends it.
pub open spec fn tok_step(acc: (Seq<Seq<u8>>, Seq<u8>), b: u8) -> (Seq<Seq<u8>>, Seq<u8>) {
    if is_ws(b) {
        if acc.1.len() == 0 {
            acc
        } else {
            (acc.0.push(acc.1), Seq::empty())
        }
    } else {
        (acc.0, acc.1.push(b))
    }
}

/// The tokenizer state after reading all of `bytes`.
pub open spec fn tok_state(bytes: Seq<u8>) -> (Seq<Seq<u8>>, Seq<u8>)
    decreases bytes.len(),
{
    if bytes.len() == 0 {
        (Seq::empty(), Seq::empty())
    } else {
        tok_step(tok_state(bytes.drop_last()), bytes.last())
    }
}

/// The whitespace-separated tokens of `bytes`, in order.
pub open spec fn tokens_of(bytes: Seq<u8>) -> Seq<Seq<u8>> {
    let st = tok_state(bytes);
    if st.1.len() == 0 {
        st.0
    } else {
        st.0.push(st.1)
    }
}

/// Every finished token of the tokenizer state is non-empty.
pub proof fn lemma_tok_state_nonempty(bytes: Seq<u8>)
    ensures
        forall|t: int| 0 <= t < tok_state(bytes).0.len() ==> tok_state(bytes).0[t].len() > 0,
    decreases bytes.len(),
{
    if bytes.len() > 0 {
        lemma_tok_state_nonempty(bytes.drop_last());
        let st = tok_state(bytes.drop_last());
        assert forall|t: int| 0 <= t < tok_state(bytes).0.len() implies tok_state(
            bytes,
        ).0[t].len() > 0 by {
            if is_ws(bytes.last()) && st.1.len() != 0 {
                assert(tok_state(bytes).0 == st.0.push(st.1));
                if t < st.0.len() {
                    assert(tok_state(bytes).0[t] == st.0[t]);
                } else {
                    assert(tok_state(bytes).0[t] == st.1);
                }
            } else {
                assert(tok_state(bytes).0 == st.0);
            }
        }
    }
}

/// Tokens are maximal non-whitespace runs, so none is empty.
pub proof fn lemma_tokens_nonempty(bytes: Seq<u8>)
    ensures
        forall|t: int| 0 <= t < tokens_of(bytes).len() ==> tokens_of(bytes)[t].len() > 0,
{
    lemma_tok_state_nonempty(bytes);
    let st = tok_state(bytes);
    assert forall|t: int| 0 <= t < tokens_of(bytes).len() implies tokens_of(bytes)[t].len() > 0 by {
        if st.1.len() != 0 {
            if t < st.0.len() {
                assert(tokens_of(bytes)[t] == st.0[t]);
            } else {
                assert(tokens_of(bytes)[t] == st.1);
            }
        }
    }
}

/// The distinct region symbols of the grid, in order of first appearance.
pub open spec fn region_ids(grid: Seq<u8>) -> Seq<u8>
    decreases grid.len(),
{
    if grid.len() == 0 {
        Seq::empty()
    } else {
        let rest = region_ids(grid.drop_last());
        if rest.contains(grid.last()) {
            rest
        } else {
            rest.push(grid.last())
        }
    }
}

/// The linear cell indices holding symbol `id`, in increasing order.
pub open spec fn cells_with(grid: Seq<u8>, id: u8) -> Seq<usize>
    decreases grid.len(),
{
    if grid.len() == 0 {
        Seq::empty()
    } else {
        let rest = cells_with(grid.drop_last(), id);
        if grid.last() == id {
            rest.push((grid.len() - 1) as usize)
        } else {
            rest
        }
    }
}

/// The parsed regions: one pair of a symbol and its cells per distinct
/// symbol, in order of first appearance.
pub open spec fn regions_of(grid: Seq<u8>) -> Seq<(u8, Seq<usize>)> {
    region_ids(grid).map_values(|id: u8| (id, cells_with(grid, id)))
}

/// No symbol appears twice among the region ids.
pub proof fn lemma_region_ids_distinct(grid: Seq<u8>)
    ensures
        forall|j: int, k: int|
            0 <= j < k < region_ids(grid).len() ==> region_ids(grid)[j] != region_ids(grid)[k],
    decreases grid.len(),
{
    if grid.len() > 0 {
        lemma_region_ids_distinct(grid.drop_last());
        let rest = region_ids(grid.drop_last());
        if !rest.contains(grid.last()) {
            assert forall|j: int, k: int|
                0 <= j < k < region_ids(grid).len() implies region_ids(grid)[j] != region_ids(
                grid,
            )[k] by {
                assert(region_ids(grid) == rest.push(grid.last()));
                if k < rest.len() {
                    assert(region_ids(grid)[j] == rest[j] && region_ids(grid)[k] == rest[k]);
                } else {
                    assert(region_ids(grid)[j] == rest[j]);
                    assert(region_ids(grid)[k] == grid.last());
                    assert(rest[j] != grid.last());
                }
            }
        }
    }
}

/// A symbol has a region id exactly when it appears in the grid.
pub proof fn lemma_region_ids_contains(grid: Seq<u8>, x: u8)
    ensures
        region_ids(grid).contains(x) <==> grid.contains(x),
    decreases grid.len(),
{
    if grid.len() > 0 {
        lemma_region_ids_contains(grid.drop_last(), x);
        let rest = region_ids(grid.drop_last());
        if grid.drop_last().contains(x) {
            let w = choose|w: int|
                0 <= w < grid.drop_last().len() && #[trigger] grid.drop_last()[w] == x;
            assert(grid[w] == x);
            assert(grid.contains(x));
        }
        if grid.contains(x) && grid.last() != x {
            let w = choose|w: int| 0 <= w < grid.len() && #[trigger] grid[w] == x;
            assert(grid.drop_last()[w] == x);
            assert(grid.drop_last().contains(x));
        }
        if !rest.contains(grid.last()) {
            assert(region_ids(grid) == rest.push(grid.last()));
            assert(region_ids(grid).last() == grid.last());
            if region_ids(grid).contains(x) && x != grid.last() {
                let w = choose|w: int|
                    0 <= w < region_ids(grid).len() && #[trigger] region_ids(grid)[w] == x;
                assert(rest[w] == x);
                assert(rest.contains(x));
            }
            if rest.contains(x) {
                let w = choose|w: int| 0 <= w < rest.len() && #[trigger] rest[w] == x;
                assert(region_ids(grid)[w] == x);
                assert(region_ids(grid).contains(x));
            }
            if x == grid.last() {
                assert(region_ids(grid).contains(x));
                assert(grid[grid.len() - 1] == x);
                assert(grid.contains(x));
            }
        }
    }
}

/// A symbol without a region id marks no cells.
pub proof fn lemma_cells_with_empty(grid: Seq<u8>, x: u8)
    requires
        !region_ids(grid).contains(x),
    ensures
        cells_with(grid, x) == Seq::<usize>::empty(),
    decreases grid.len(),
{
    if grid.len() > 0 {
        let rest = region_ids(grid.drop_last());
        assert forall|y: u8| rest.contains(y) implies region_ids(grid).contains(y) by {
            let w = choose|w: int| 0 <= w < rest.len() && #[trigger] rest[w] == y;
            if !rest.contains(grid.last()) {
                assert(region_ids(grid) == rest.push(grid.last()));
                assert(region_ids(grid)[w] == y);
            }
            assert(region_ids(grid).contains(y));
        }
        lemma_cells_with_empty(grid.drop_last(), x);
        if grid.last() == x {
            if rest.contains(grid.last()) {
                assert(region_ids(grid).contains(x));
            } else {
                assert(region_ids(grid) == rest.push(grid.last()));
                assert(region_ids(grid).last() == x);
                assert(region_ids(grid).contains(x));
            }
        }
        assert(grid.last() != x);
    }
}

/// A cell index is in a symbol's cell list exactly when the grid holds
/// that symbol there.
pub proof fn lemma_cells_with_membership(grid: Seq<u8>, id: u8)
    requires
        grid.len() <= usize::MAX,
    ensures
        forall|x: usize|
            #[trigger] cells_with(grid, id).contains(x) <==> ((x as int) < grid.len() && grid[x as int]
                == id),
    decreases grid.len(),
{
    if grid.len() > 0 {
        lemma_cells_with_membership(grid.drop_last(), id);
        let rest = cells_with(grid.drop_last(), id);
        assert forall|x: usize| #[trigger] cells_with(grid, id).contains(x) implies ((x as int)
            < grid.len() && grid[x as int] == id) by {
            let w = choose|w: int|
                0 <= w < cells_with(grid, id).len() && #[trigger] cells_with(grid, id)[w] == x;
            if grid.last() == id && w == cells_with(grid, id).len() - 1 {
                assert(cells_with(grid, id) == rest.push((grid.len() - 1) as usize));
                assert(x == (grid.len() - 1) as usize);
                assert(grid[x as int] == grid.last());
            } else {
                assert(rest[w] == x);
                assert(rest.contains(x));
                assert(grid.drop_last()[x as int] == grid[x as int]);
            }
        }
        assert forall|x: usize| ((x as int) < grid.len() && grid[x as int] == id) implies #[trigger]
            cells_with(grid, id).contains(x) by {
            if (x as int) < grid.len() - 1 {
                assert(grid.drop_last()[x as int] == id);
                assert(rest.contains(x));
                let w = choose|w: int| 0 <= w < rest.len() && #[trigger] rest[w] == x;
                if grid.last() == id {
                    assert(cells_with(grid, id)[w] == x);
                } else {
                    assert(cells_with(grid, id)[w] == x);
                }
                assert(cells_with(grid, id).contains(x));
            } else {
                if grid.last() == id {
                    assert(cells_with(grid, id).last() == (grid.len() - 1) as usize);
                    assert((grid.len() - 1) as usize == x);
                    assert(cells_with(grid, id).contains(x));
                }
            }
        }
    }
}

/// Extending the grid by one symbol updates the regions in place: a known
/// symbol's region gains the new index, an unseen symbol opens a new region
/// holding just the new index.
pub proof fn lemma_regions_of_push(grid: Seq<u8>, b: u8)
    ensures
        regions_of(grid.push(b)).len() == if region_ids(grid).contains(b) {
            regions_of(grid).len()
        } else {
            regions_of(grid).len() + 1
        },
        forall|k: int|
            0 <= k < regions_of(grid).len() ==> #[trigger] regions_of(grid.push(b))[k] == ({
                let e = regions_of(grid)[k];
                if e.0 == b {
                    (e.0, e.1.push(grid.len() as usize))
                } else {
                    e
                }
            }),
        !region_ids(grid).contains(b) ==> regions_of(grid.push(b)).last() == (
            b,
            seq![grid.len() as usize],
        ),
{
    assert(grid.push(b).drop_last() =~= grid);
    assert(grid.push(b).last() == b);
    assert forall|id: u8| true implies #[trigger] cells_with(grid.push(b), id) == (if id == b {
        cells_with(grid, id).push(grid.len() as usize)
    } else {
        cells_with(grid, id)
    }) by {
        assert(grid.push(b).drop_last() =~= grid);
    }
    if !region_ids(grid).contains(b) {
        lemma_cells_with_empty(grid, b);
        assert(cells_with(grid.push(b), b) =~= seq![grid.len() as usize]);
    }
}

/// The view of the parsed regions: each cell vector as its sequence.
pub open spec fn regions_view(regs: Seq<(u8, Vec<usize>)>) -> Seq<(u8, Seq<usize>)> {
    regs.map_values(|p: (u8, Vec<usize>)| (p.0, p.1@))
}

/// The view of a vector of tokens.
pub open spec fn toks_view(toks: Seq<Vec<u8>>) -> Seq<Seq<u8>> {
    toks.map_values(|v: Vec<u8>| v@)
}

/// What parsing a byte string means.  The whitespace-separated tokens are
/// the grid's rows; parsing fails when there is no row, when some row's
/// length differs from the first row's, or when the grid does not fit the
/// board capacity.  Otherwise the result is the regions of the row-major
/// grid together with the row and column counts.
pub open spec fn spec_parse(bytes: Seq<u8>) -> Option<(Seq<(u8, Seq<usize>)>, nat, nat)> {
    let toks = tokens_of(bytes);
    if toks.len() == 0 {
        None
    } else if exists|t: int| 0 <= t < toks.len() && #[trigger] toks[t].len() != toks[0].len() {
        None
    } else if toks.len() * toks[0].len() > BOARD_CAPACITY {
        None
    } else {
        Some((regions_of(toks.flatten()), toks.len(), toks[0].len()))
    }
}

/// True when the byte is ASCII whitespace.
fn is_ws_byte(b: u8) -> (r: bool)
    ensures
        r == is_ws(b),
{
    b == 32 || b == 9 || b == 10 || b == 11 || b == 12 || b == 13
}

/// Split the bytes into whitespace-separated tokens.
fn tokenize(bytes: &[u8]) -> (toks: Vec<Vec<u8>>)
    ensures
        toks_view(toks@) == tokens_of(bytes@),
{
    let mut toks: Vec<Vec<u8>> = Vec::new();
    let mut cur: Vec<u8> = Vec::new();
    let n = bytes.len();
    for i in 0..n
        invariant
            n == bytes@.len(),
            toks_view(toks@) == tok_state(bytes@.take(i as int)).0,
            cur@ == tok_state(bytes@.take(i as int)).1,
    {
        let b = *vstd::slice::slice_index_get(bytes, i);
        proof {
            assert(bytes@.take(i + 1).drop_last() =~= bytes@.take(i as int));
            assert(bytes@.take(i + 1).last() == bytes@[i as int]);
        }
        let ghost old_toks = toks@;
        if is_ws_byte(b) {
            if cur.len() > 0 {
                toks.push(cur);
                cur = Vec::new();
                proof {
                    assert(toks_view(toks@) =~= toks_view(old_toks).push(
                        tok_state(bytes@.take(i as int)).1,
                    ));
                }
            }
        } else {
            cur.push(b);
        }
        proof {
            assert(toks_view(toks@) =~= tok_state(bytes@.take(i + 1)).0);
        }
    }
    proof {
        assert(bytes@.take(n as int) =~= bytes@);
    }
    let ghost old_toks = toks@;
    if cur.len() > 0 {
        toks.push(cur);
        proof {
            assert(toks_view(toks@) =~= toks_view(old_toks).push(tok_state(bytes@).1));
        }
    }
    proof {
        assert(toks_view(toks@) =~= tokens_of(bytes@));
    }
    toks
}

/// The index of the region with symbol `id`, if one exists.
fn find_region(regs: &Vec<(u8, Vec<usize>)>, id: u8) -> (r: Option<usize>)
    ensures
        match r {
            Some(k) => (k as int) < regs@.len() && regs@[k as int].0 == id,
            None => forall|k: int| 0 <= k < regs@.len() ==> (#[trigger] regs@[k]).0 != id,
        },
{
    let n = regs.len();
    for k in 0..n
        invariant
            n == regs@.len(),
            forall|kk: int| 0 <= kk < k ==> (#[trigger] regs@[kk]).0 != id,
    {
        if regs[k].0 == id {
            return Some(k);
        }
    }
    None
}

/// Parse a byte string into the regions and the grid shape, exactly as
/// `spec_parse` describes.
fn parse_bytes(bytes: &[u8]) -> (r: Option<(Vec<(u8, Vec<usize>)>, usize, usize)>)
    ensures
        match r {
            Some(parsed) => spec_parse(bytes@) == Some(
                (regions_view(parsed.0@), parsed.1 as nat, parsed.2 as nat),
            ),
            None => spec_parse(bytes@) is None,
        },
{
    let toks = tokenize(bytes);
    let ghost tv = tokens_of(bytes@);
    let n_rows = toks.len();
    if n_rows == 0 {
        return None;
    }
    let n_cols = toks[0].len();
    for t in 0..n_rows
        invariant
            tv == tokens_of(bytes@),
            toks_view(toks@) == tv,
            n_rows == tv.len(),
            n_rows >= 1,
            n_cols as nat == tv[0].len(),
            forall|tt: int| 0 <= tt < t ==> #[trigger] tv[tt].len() == n_cols as nat,
    {
        if toks[t].len() != n_cols {
            proof {
                assert(tv[t as int] == toks@[t as int]@);
                assert(tv[t as int].len() != tv[0].len());
            }
            return None;
        }
    }
    proof {
        lemma_tokens_nonempty(bytes@);
        assert(n_cols > 0);
    }
    if n_rows > BOARD_CAPACITY / n_cols {
        proof {
            vstd::arithmetic::div_mod::lemma_fundamental_div_mod(
                BOARD_CAPACITY as int,
                n_cols as int,
            );
            assert((n_rows as int) * (n_cols as int) > BOARD_CAPACITY) by (nonlinear_arith)
                requires
                    (n_rows as int) > (BOARD_CAPACITY as int) / (n_cols as int),
                    n_cols > 0,
                    BOARD_CAPACITY as int == (n_cols as int) * ((BOARD_CAPACITY as int) / (
                    n_cols as int)) + (BOARD_CAPACITY as int) % (n_cols as int),
                    0 <= (BOARD_CAPACITY as int) % (n_cols as int) < (n_cols as int),
            ;
        }
        return None;
    }
    proof {
        vstd::arithmetic::div_mod::lemma_fundamental_div_mod(BOARD_CAPACITY as int, n_cols as int);
        assert((n_rows as int) * (n_cols as int) <= BOARD_CAPACITY) by (nonlinear_arith)
            requires
                (n_rows as int) <= (BOARD_CAPACITY as int) / (n_cols as int),
                n_cols > 0,
                BOARD_CAPACITY as int == (n_cols as int) * ((BOARD_CAPACITY as int) / (
                n_cols as int)) + (BOARD_CAPACITY as int) % (n_cols as int),
                0 <= (BOARD_CAPACITY as int) % (n_cols as int) < (n_cols as int),
        ;
    }
    let n = n_rows * n_cols;
    // Materialize the row-major grid.
    let mut grid: Vec<u8> = Vec::new();
    for t in 0..n_rows
        invariant
            toks_view(toks@) == tv,
            n_rows == tv.len(),
            n_cols as nat == tv[0].len(),
            forall|tt: int| 0 <= tt < tv.len() ==> #[trigger] tv[tt].len() == n_cols as nat,
            n == n_rows * n_cols,
            grid@ == tv.take(t as int).flatten(),
            grid@.len() == t * n_cols,
    {
        let row_len = toks[t].len();
        for c in 0..row_len
            invariant
                toks_view(toks@) == tv,
                n_rows == tv.len(),
                t < n_rows,
                n_cols as nat == tv[0].len(),
                forall|tt: int| 0 <= tt < tv.len() ==> #[trigger] tv[tt].len() == n_cols as nat,
                row_len as nat == tv[t as int].len(),
                grid@ == tv.take(t as int).flatten() + tv[t as int].take(c as int),
                grid@.len() == t * n_cols + c,
        {
            grid.push(toks[t][c]);
            proof {
                assert(grid@ =~= tv.take(t as int).flatten() + tv[t as int].take(c + 1));
            }
        }
        proof {
            broadcast use vstd::prelude::Seq::lemma_flatten_push;

            assert(tv.take(t + 1) =~= tv.take(t as int).push(tv[t as int]));
            assert(tv[t as int].take(row_len as int) =~= tv[t as int]);
            assert(grid@ =~= tv.take(t + 1).flatten());
            assert((t + 1) * n_cols == t * n_cols + n_cols) by (nonlinear_arith);
        }
    }
    proof {
        assert(tv.take(n_rows as int) =~= tv);
    }
    let ghost gseq = tv.flatten();
    // Collect the regions: one entry per distinct symbol, in order of first
    // appearance, each holding its cells' linear indices in increasing order.
    let mut regs: Vec<(u8, Vec<usize>)> = Vec::new();
    proof {
        assert(gseq.take(0) =~= Seq::<u8>::empty());
    }
    for i in 0..n
        invariant
            grid@ == gseq,
            n == gseq.len(),
            n <= BOARD_CAPACITY,
            regions_view(regs@) == regions_of(gseq.take(i as int)),
    {
        let b = grid[i];
        let ghost pre = gseq.take(i as int);
        proof {
            assert(gseq.take(i + 1) =~= pre.push(gseq[i as int]));
            lemma_regions_of_push(pre, gseq[i as int]);
            lemma_region_ids_distinct(pre);
            // The symbols of the collected regions are the region ids.
            assert forall|k: int| 0 <= k < regs@.len() implies (#[trigger] regs@[k]).0
                == region_ids(pre)[k] && regs@[k].1@ == cells_with(pre, region_ids(pre)[k]) by {
                assert(regions_view(regs@)[k] == regions_of(pre)[k]);
            }
        }
        match find_region(&regs, b) {
            Some(k) => {
                proof {
                    assert(region_ids(pre)[k as int] == b);
                    assert(region_ids(pre).contains(b));
                }
                let e = vstd::std_specs::vec::vec_index_mut(&mut regs, k);
                e.1.push(i);
                proof {
                    assert(regions_view(regs@) =~~= regions_of(gseq.take(i + 1)));
                }
            },
            None => {
                proof {
                    if region_ids(pre).contains(b) {
                        let w = choose|w: int|
                            0 <= w < region_ids(pre).len() && #[trigger] region_ids(pre)[w] == b;
                        assert(regs@[w].0 == b);
                    }
                    assert(!region_ids(pre).contains(b));
                }
                let mut cells: Vec<usize> = Vec::new();
                cells.push(i);
                regs.push((b, cells));
                proof {
                    assert(regions_view(regs@) =~~= regions_of(gseq.take(i + 1)));
                }
            },
        }
    }
    proof {
        assert(gseq.take(n as int) =~= gseq);
    }
    Some((regs, n_rows, n_cols))
}

/// The bytes of an ASCII string: each character as its code.
pub open spec fn ascii_bytes(s: Seq<char>) -> Seq<u8> {
    Seq::new(s.len(), |i: int| s[i] as u8)
}

/// Parse the puzzle text into its color regions and grid shape.  The user
/// assigns a symbol to each region and enters the rows left to right, top
/// to bottom, with whitespace between the rows.  Each region is returned as
/// its symbol byte with its cells' linear indices in increasing row-major
/// order, regions in order of first appearance.  `None` when the input is
/// not ASCII, has no rows, has rows of unequal length, or does not fit the
/// board capacity.
pub fn parse_color_region_inds(input: &str) -> (r: Option<(Vec<(u8, Vec<usize>)>, usize, usize)>)
    ensures
        match r {
            Some(parsed) => input.is_ascii() && spec_parse(ascii_bytes(input@)) == Some(
                (regions_view(parsed.0@), parsed.1 as nat, parsed.2 as nat),
            ),
            None => !input.is_ascii() || spec_parse(ascii_bytes(input@)) is None,
        },
{
    if !input.is_ascii() {
        return None;
    }
    let bytes = input.as_bytes();
    proof {
        vstd::string::is_ascii_spec_bytes(input);
        assert(bytes@ =~= ascii_bytes(input@));
    }
    parse_bytes(bytes)
}

/// Flattening rows of one common length multiplies the counts.
pub proof fn lemma_flatten_len_uniform(toks: Seq<Seq<u8>>, cols: nat)
    requires
        forall|t: int| 0 <= t < toks.len() ==> #[trigger] toks[t].len() == cols,
    ensures
        toks.flatten().len() == toks.len() * cols,
    decreases toks.len(),
{
    if toks.len() == 0 {
        assert(toks.len() * cols == 0) by (nonlinear_arith)
            requires
                toks.len() == 0,
        ;
    } else {
        assert forall|t: int| 0 <= t < toks.drop_first().len() implies #[trigger] toks.drop_first(
        )[t].len() == cols by {
            assert(toks.drop_first()[t] == toks[t + 1]);
        }
        lemma_flatten_len_uniform(toks.drop_first(), cols);
        assert(toks.flatten() == toks.first() + toks.drop_first().flatten());
        assert(toks.len() * cols == cols + (toks.len() - 1) * cols) by (nonlinear_arith);
    }
}

/// Every parsed cell index lies inside the grid: it is below the number of
/// rows times the number of columns.
pub proof fn lemma_parse_cells_in_range(bytes: Seq<u8>)
    requires
        spec_parse(bytes) is Some,
    ensures
        ({
            let parsed = spec_parse(bytes)->Some_0;
            forall|k: int, i: int|
                0 <= k < parsed.0.len() && 0 <= i < parsed.0[k].1.len() ==> (
                #[trigger] parsed.0[k].1[i] as nat) < parsed.1 * parsed.2
        }),
{
    let toks = tokens_of(bytes);
    let grid = toks.flatten();
    let parsed = spec_parse(bytes)->Some_0;
    lemma_flatten_len_uniform(toks, toks[0].len());
    assert forall|k: int, i: int|
        0 <= k < parsed.0.len() && 0 <= i < parsed.0[k].1.len() implies (
    #[trigger] parsed.0[k].1[i] as nat) < parsed.1 * parsed.2 by {
        let id = region_ids(grid)[k];
        assert(parsed.0[k] == (id, cells_with(grid, id)));
        lemma_cells_with_membership(grid, id);
        assert(cells_with(grid, id).contains(cells_with(grid, id)[i]));
    }
}

/// Parsing partitions the grid: every cell index lies in exactly one
/// region, the one keyed by the cell's own symbol.
pub proof fn lemma_parse_partition(grid: Seq<u8>, i: int)
    requires
        0 <= i < grid.len(),
        grid.len() <= usize::MAX,
    ensures
        exists|k: int|
            0 <= k < regions_of(grid).len() && (#[trigger] regions_of(grid)[k]).0 == grid[i],
        forall|k: int|
            0 <= k < regions_of(grid).len() ==> ((#[trigger] regions_of(grid)[k]).1.contains(
                i as usize,
            ) <==> regions_of(grid)[k].0 == grid[i]),
        forall|k1: int, k2: int|
            0 <= k1 < k2 < regions_of(grid).len() ==> (#[trigger] regions_of(grid)[k1]).0 != (
            #[trigger] regions_of(grid)[k2]).0,
{
    lemma_region_ids_distinct(grid);
    lemma_region_ids_contains(grid, grid[i]);
    assert(grid.contains(grid[i]));
    let w = choose|w: int|
        0 <= w < region_ids(grid).len() && #[trigger] region_ids(grid)[w] == grid[i];
    assert(regions_of(grid)[w].0 == grid[i]);
    assert forall|k: int| 0 <= k < regions_of(grid).len() implies ((
    #[trigger] regions_of(grid)[k]).1.contains(i as usize) <==> regions_of(grid)[k].0
        == grid[i]) by {
        let id = region_ids(grid)[k];
        assert(regions_of(grid)[k] == (id, cells_with(grid, id)));
        lemma_cells_with_membership(grid, id);
    }
}

/// For each color region, build a board with exactly that region's cells
/// set, in region order.
pub fn parse_color_region_boards(
    input: &Vec<(u8, Vec<usize>)>,
    n_rows: usize,
    n_cols: usize,
) -> (r: Vec<crate::board::QueenBoard>)
    requires
        n_rows * n_cols <= BOARD_CAPACITY,
        forall|k: int, i: int|
            0 <= k < input@.len() && 0 <= i < input@[k].1@.len() ==> ((#[trigger] input@[k].1@[i])
                as nat) < n_rows * n_cols,
    ensures
        r@.len() == input@.len(),
        forall|k: int|
            0 <= k < input@.len() ==> {
                let b = #[trigger] r@[k];
                &&& b.wf()
                &&& b@.rows == n_rows as nat
                &&& b@.cols == n_cols as nat
                &&& b@.cells == crate::board::cells_from_indices(
                    (n_rows * n_cols) as nat,
                    input@[k].1@,
                )
            },
{
    let mut boards: Vec<crate::board::QueenBoard> = Vec::new();
    let len = input.len();
    for k in 0..len
        invariant
            len == input@.len(),
            n_rows * n_cols <= BOARD_CAPACITY,
            forall|k2: int, i: int|
                0 <= k2 < input@.len() && 0 <= i < input@[k2].1@.len() ==> ((
                #[trigger] input@[k2].1@[i]) as nat) < n_rows * n_cols,
            boards@.len() == k,
            forall|k2: int|
                0 <= k2 < k ==> {
                    let b = #[trigger] boards@[k2];
                    &&& b.wf()
                    &&& b@.rows == n_rows as nat
                    &&& b@.cols == n_cols as nat
                    &&& b@.cells == crate::board::cells_from_indices(
                        (n_rows * n_cols) as nat,
                        input@[k2].1@,
                    )
                },
    {
        let b = crate::board::build_queen_board_from_inds(input[k].1.as_slice(), n_rows, n_cols);
        boards.push(b);
    }
    boards
}

} // verus!
