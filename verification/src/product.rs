//! The Cartesian product of the regions' candidate lists: one chosen cell
//! per region, enumerated lazily with the last region varying fastest.

use itertools::Itertools;
use vstd::prelude::*;

verus! {

/// All combinations of one entry per list, in order: combination `k` takes
/// entry `k % lists.last().len()` of the last list and otherwise follows
/// combination `k / lists.last().len()` of the remaining lists, so the last
/// list varies fastest.  With no lists there is exactly one, empty,
/// combination; with an empty list there are none.
pub open spec fn product_of(lists: Seq<Seq<usize>>) -> Seq<Seq<usize>>
    decreases lists.len(),
{
    if lists.len() == 0 {
        seq![Seq::<usize>::empty()]
    } else {
        let rest = product_of(lists.drop_last());
        let last = lists.last();
        Seq::new(
            rest.len() * last.len(),
            |k: int| rest[k / (last.len() as int)].push(last[k % (last.len() as int)]),
        )
    }
}

/// The product of the lists' lengths.
pub open spec fn prod_lens(lists: Seq<Seq<usize>>) -> nat
    decreases lists.len(),
{
    if lists.len() == 0 {
        1
    } else {
        prod_lens(lists.drop_last()) * lists.last().len()
    }
}

/// The product sequence holds exactly one combination per choice: its
/// length is the product of the lists' lengths.  In particular, a solver
/// that examines every combination makes exactly `prod_lens` attempts.
pub proof fn lemma_product_of_len(lists: Seq<Seq<usize>>)
    ensures
        product_of(lists).len() == prod_lens(lists),
    decreases lists.len(),
{
    if lists.len() > 0 {
        lemma_product_of_len(lists.drop_last());
    }
}

/// A list with no entries empties the whole product: no combination can
/// choose from it.
pub proof fn lemma_empty_list_empty_product(lists: Seq<Seq<usize>>, k: int)
    requires
        0 <= k < lists.len(),
        lists[k].len() == 0,
    ensures
        product_of(lists).len() == 0,
    decreases lists.len(),
{
    let rest = product_of(lists.drop_last());
    let last = lists.last();
    if k == lists.len() - 1 {
        assert(rest.len() * last.len() == 0) by (nonlinear_arith)
            requires
                last.len() == 0,
        ;
    } else {
        lemma_empty_list_empty_product(lists.drop_last(), k);
        assert(rest.len() * last.len() == 0) by (nonlinear_arith)
            requires
                rest.len() == 0,
        ;
    }
}

/// Each combination chooses one entry per list, drawn from that list.
pub proof fn lemma_product_of_elem(lists: Seq<Seq<usize>>, k: int)
    requires
        0 <= k < product_of(lists).len(),
    ensures
        product_of(lists)[k].len() == lists.len(),
        forall|i: int|
            0 <= i < lists.len() ==> lists[i].contains(#[trigger] product_of(lists)[k][i]),
    decreases lists.len(),
{
    if lists.len() > 0 {
        let rest = product_of(lists.drop_last());
        let last = lists.last();
        let l = last.len() as int;
        assert(l > 0 && 0 <= k / l < rest.len() && 0 <= k % l < l) by (nonlinear_arith)
            requires
                0 <= k < rest.len() * l,
                l >= 0,
        ;
        lemma_product_of_elem(lists.drop_last(), k / l);
        let combo = product_of(lists)[k];
        assert(combo == rest[k / l].push(last[k % l]));
        assert forall|i: int| 0 <= i < lists.len() implies lists[i].contains(
            #[trigger] combo[i],
        ) by {
            if i < lists.len() - 1 {
                assert(combo[i] == rest[k / l][i]);
                assert(lists.drop_last()[i] == lists[i]);
            } else {
                assert(combo[i] == last[k % l]);
            }
        }
    }
}

/// A lazy, restartable stream of the combinations of one entry per candidate
/// list.  It wraps itertools' `MultiProduct`, which Verus cannot look into,
/// so the stream is opaque and `combos_of` names what it still has to yield.
#[verifier::external_body]
pub struct ComboStream {
    inner: itertools::structs::MultiProduct<std::vec::IntoIter<usize>>,
}

/// The combinations the stream has not yielded yet, in order.
pub uninterp spec fn combos_of(s: ComboStream) -> Seq<Seq<usize>>;

/// Relies on itertools' `Itertools::multi_cartesian_product`: it yields the
/// combinations of one item per sub-iterator with the last varying fastest —
/// the order `product_of` writes down; with no lists it yields one empty
/// combination, and with any empty list it yields nothing.
#[verifier::external_body]
pub(crate) fn combo_stream_new(lists: &Vec<Vec<usize>>) -> (s: ComboStream)
    ensures
        combos_of(s) == product_of(lists@.map_values(|v: Vec<usize>| v@)),
{
    ComboStream { inner: lists.clone().into_iter().multi_cartesian_product() }
}

/// Relies on `Iterator::next` of itertools' `MultiProduct`: it yields the
/// next combination, or `None` once the product is exhausted.
#[verifier::external_body]
pub(crate) fn combo_stream_next(s: &mut ComboStream) -> (r: Option<Vec<usize>>)
    ensures
        match r {
            Some(c) => combos_of(*old(s)).len() > 0 && c@ == combos_of(*old(s))[0] && combos_of(
                *final(s),
            ) == combos_of(*old(s)).drop_first(),
            None => combos_of(*old(s)).len() == 0 && combos_of(*final(s)) == combos_of(*old(s)),
        },
{
    s.inner.next()
}

} // verus!
