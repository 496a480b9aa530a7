//! Putting the entries of a list in the order of their places.
use vstd::prelude::*;

verus! {

/// `p` is where an entry for `place` goes in `sorted`: behind the entries of
/// lesser places and in front of all others.
pub open spec fn slot_at<T>(sorted: Seq<(usize, T)>, place: usize, p: int) -> bool {
    &&& 0 <= p <= sorted.len()
    &&& forall|i: int| 0 <= i < p ==> (#[trigger] sorted[i]).0 < place
    &&& p < sorted.len() ==> sorted[p].0 >= place
}

/// Where an entry for `place` goes in `sorted`.
pub open spec fn slot<T>(sorted: Seq<(usize, T)>, place: usize) -> int {
    choose|p: int| slot_at(sorted, place, p)
}

/// The entries of `items` in the order of their places; entries of one place
/// keep the order that they have in `items`.
pub open spec fn ordered<T>(items: Seq<(usize, T)>) -> Seq<(usize, T)>
    decreases items.len(),
{
    if items.len() == 0 {
        Seq::empty()
    } else {
        let rest = ordered(items.drop_first());
        rest.insert(slot(rest, items[0].0), items[0])
    }
}

/// The places of `items` never descend.
pub open spec fn in_order<T>(items: Seq<(usize, T)>) -> bool {
    forall|i: int, j: int|
        0 <= i < j < items.len() ==> (#[trigger] items[i]).0 <= (#[trigger] items[j]).0
}

/// Every list has a slot for every place, and only one.
pub proof fn lemma_slot<T>(sorted: Seq<(usize, T)>, place: usize)
    ensures
        slot_at(sorted, place, slot(sorted, place)),
        forall|p: int| slot_at(sorted, place, p) ==> p == slot(sorted, place),
{
    lemma_slot_exists(sorted, place, 0);
}

/// A slot at or behind `from`, where every entry in front of `from` has a
/// lesser place.
proof fn lemma_slot_exists<T>(sorted: Seq<(usize, T)>, place: usize, from: int) -> (p: int)
    requires
        0 <= from <= sorted.len(),
        forall|i: int| 0 <= i < from ==> (#[trigger] sorted[i]).0 < place,
    ensures
        slot_at(sorted, place, p),
    decreases sorted.len() - from,
{
    if from < sorted.len() && sorted[from].0 < place {
        lemma_slot_exists(sorted, place, from + 1)
    } else {
        from
    }
}

/// Ordering keeps every entry, as often as it occurs, and adds none; the
/// places of the outcome never descend.
pub proof fn lemma_ordered<T>(items: Seq<(usize, T)>)
    ensures
        ordered(items).len() == items.len(),
        ordered(items).to_multiset() == items.to_multiset(),
        in_order(ordered(items)),
        forall|i: int| 0 <= i < items.len() ==> items.contains(#[trigger] ordered(items)[i]),
    decreases items.len(),
{
    broadcast use vstd::seq_lib::group_to_multiset_ensures;

    if items.len() > 0 {
        let rest = ordered(items.drop_first());
        let first = items[0];
        lemma_ordered(items.drop_first());
        lemma_slot(rest, first.0);
        assert(items.drop_first().insert(0, first) =~= items);
    }
}

/// Puts the entries of `items` in the order of their places; entries of one
/// place keep the order that they have in `items`.
pub fn sort_by_place<T>(items: Vec<(usize, T)>) -> (sorted: Vec<(usize, T)>)
    ensures
        sorted@ == ordered(items@),
{
    let mut items = items;
    let ghost all = items@;
    let mut sorted: Vec<(usize, T)> = Vec::new();
    while items.len() > 0
        invariant
            items@.len() <= all.len(),
            items@ == all.take(items@.len() as int),
            sorted@ == ordered(all.skip(items@.len() as int)),
        decreases items.len(),
    {
        let ghost k = items@.len() as int;
        match items.pop() {
            Some(entry) => {
                let mut p: usize = 0;
                while p < sorted.len() && sorted[p].0 < entry.0
                    invariant
                        p <= sorted.len(),
                        forall|i: int| 0 <= i < p ==> (#[trigger] sorted@[i]).0 < entry.0,
                    decreases sorted.len() - p,
                {
                    p += 1;
                }
                proof {
                    lemma_slot(sorted@, entry.0);
                    assert(all.skip(k - 1).drop_first() =~= all.skip(k));
                }
                sorted.insert(p, entry);
            },
            None => {},
        }
    }
    sorted
}

/// The elements of `v` in the opposite order.
pub fn reversed<T>(v: Vec<T>) -> (r: Vec<T>)
    ensures
        r@ == v@.reverse(),
{
    let mut v = v;
    let ghost whole = v@;
    let mut r: Vec<T> = Vec::new();
    while v.len() > 0
        invariant
            v@.len() + r@.len() == whole.len(),
            v@ == whole.subrange(0, v@.len() as int),
            forall|k: int| 0 <= k < r@.len() ==> r@[k] == whole[whole.len() - 1 - k],
        decreases v.len(),
    {
        match v.pop() {
            Some(last) => {
                r.push(last);
            },
            None => {},
        }
    }
    r
}

} // verus!
