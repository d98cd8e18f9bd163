//! The hash collections of `rustc_hash` that the tries are built from, and
//! set operations on sets of record ids.
//!
//! `FxHashSet` and `FxHashMap` are std's `HashSet` and `HashMap` with the
//! `FxBuildHasher` of `rustc_hash` as their hasher. What their methods do is
//! stated here over the views that vstd gives the two std collections; these
//! statements are taken from the std documentation and are not proved.

use vstd::prelude::*;
use rustc_hash::{FxBuildHasher, FxHashMap, FxHashSet};

verus! {

/// `rustc_hash::FxBuildHasher`, the hasher of every `FxHashSet` and
/// `FxHashMap`. Nothing is said of what is inside a value of it.
#[verifier::external_type_specification]
#[verifier::external_body]
pub struct ExFxBuildHasher(FxBuildHasher);

/// `HashSet::insert` on a set of ids: afterwards the set holds `id` beside
/// what it held, and the result tells whether `id` was new to it.
#[verifier::external_body]
pub(crate) fn id_set_insert(s: &mut FxHashSet<u64>, id: u64) -> (fresh: bool)
    ensures
        final(s)@ == old(s)@.insert(id),
        fresh == !old(s)@.contains(id),
{
    s.insert(id)
}

/// `HashSet::contains` on a set of ids: whether the set holds `id`.
#[verifier::external_body]
pub(crate) fn id_set_contains(s: &FxHashSet<u64>, id: u64) -> (held: bool)
    ensures
        held == s@.contains(id),
{
    s.contains(&id)
}

/// `HashSet::remove` on a set of ids: afterwards the set holds what it held
/// but for `id`, and the result tells whether it held `id`.
#[verifier::external_body]
pub(crate) fn id_set_remove(s: &mut FxHashSet<u64>, id: u64) -> (held: bool)
    ensures
        final(s)@ == old(s)@.remove(id),
        held == old(s)@.contains(id),
{
    s.remove(&id)
}

/// `HashSet::iter` on a set of ids, copied out: each id of the set once, in
/// an order of which nothing is said.
#[verifier::external_body]
pub(crate) fn id_set_items(s: &FxHashSet<u64>) -> (v: Vec<u64>)
    ensures
        forall|k: int| 0 <= k < v@.len() ==> s@.contains(#[trigger] v@[k]),
        forall|id: u64| s@.contains(id) ==> #[trigger] v@.contains(id),
        forall|a: int, b: int| 0 <= a < b < v@.len() ==> v@[a] != v@[b],
{
    s.iter().copied().collect()
}

/// `HashMap::get` on the edges of a node, copied out: the child that the
/// edge labelled `c` leads to, if the node has such an edge.
#[verifier::external_body]
pub(crate) fn child_get(m: &FxHashMap<char, usize>, c: char) -> (child: Option<usize>)
    ensures
        child == (if m@.contains_key(c) {
            Some(m@[c])
        } else {
            None
        }),
{
    m.get(&c).copied()
}

/// `HashMap::insert` on the edges of a node: afterwards the edge labelled `c`
/// leads to `child`, and the other edges are as they were.
#[verifier::external_body]
pub(crate) fn child_insert(m: &mut FxHashMap<char, usize>, c: char, child: usize)
    ensures
        final(m)@ == old(m)@.insert(c, child),
{
    m.insert(c, child);
}

/// `HashMap::iter` on the edges of a node, copied out: each edge once, as
/// its label and its child, in an order of which nothing is said.
#[verifier::external_body]
pub(crate) fn child_entries(m: &FxHashMap<char, usize>) -> (v: Vec<(char, usize)>)
    ensures
        forall|k: int| 0 <= k < v@.len() ==> #[trigger] m@.contains_key(v@[k].0) && m@[v@[k].0] == v@[k].1,
        forall|c: char| m@.contains_key(c) ==> exists|k: int| 0 <= k < v@.len() && #[trigger] v@[k].0 == c,
        forall|a: int, b: int| 0 <= a < b < v@.len() ==> v@[a].0 != v@[b].0,
{
    m.iter().map(|(c, child)| (*c, *child)).collect()
}

/// `HashMap::get` on the depths of a node, copied out: the depth recorded
/// for `id`, if one is.
#[verifier::external_body]
pub(crate) fn depth_get(m: &FxHashMap<u64, usize>, id: u64) -> (depth: Option<usize>)
    ensures
        depth == (if m@.contains_key(id) {
            Some(m@[id])
        } else {
            None
        }),
{
    m.get(&id).copied()
}

/// `HashMap::insert` on the depths of a node: afterwards `depth` is recorded
/// for `id`, and the other ids are as they were.
#[verifier::external_body]
pub(crate) fn depth_insert(m: &mut FxHashMap<u64, usize>, id: u64, depth: usize)
    ensures
        final(m)@ == old(m)@.insert(id, depth),
{
    m.insert(id, depth);
}

/// `HashMap::remove` on the depths of a node: afterwards nothing is recorded
/// for `id`, and the result is the depth that was recorded for it, if one
/// was.
#[verifier::external_body]
pub(crate) fn depth_remove(m: &mut FxHashMap<u64, usize>, id: u64) -> (depth: Option<usize>)
    ensures
        final(m)@ == old(m)@.remove(id),
        depth == (if old(m)@.contains_key(id) {
            Some(old(m)@[id])
        } else {
            None
        }),
{
    m.remove(&id)
}

/// `HashMap::iter` on the depths of a node, copied out: each id once, with
/// the depth recorded for it, in an order of which nothing is said.
#[verifier::external_body]
pub(crate) fn depth_entries(m: &FxHashMap<u64, usize>) -> (v: Vec<(u64, usize)>)
    ensures
        forall|k: int| 0 <= k < v@.len() ==> #[trigger] m@.contains_key(v@[k].0) && m@[v@[k].0] == v@[k].1,
        forall|id: u64| m@.contains_key(id) ==> exists|k: int| 0 <= k < v@.len() && #[trigger] v@[k].0 == id,
        forall|a: int, b: int| 0 <= a < b < v@.len() ==> v@[a].0 != v@[b].0,
{
    m.iter().map(|(id, depth)| (*id, *depth)).collect()
}

/// The ids of a filter, where there is one.
pub open spec fn filter_ids(filter: Option<&FxHashSet<u64>>) -> Option<Set<u64>> {
    match filter {
        Some(f) => Some(f@),
        None => None,
    }
}

/// Adds every id of `src` to `dst`.
pub fn union_into(dst: &mut FxHashSet<u64>, src: &FxHashSet<u64>)
    ensures
        final(dst)@ == old(dst)@.union(src@),
{
    let items = id_set_items(src);
    let mut k: usize = 0;
    while k < items.len()
        invariant
            0 <= k <= items.len(),
            forall|j: int| 0 <= j < items@.len() ==> src@.contains(#[trigger] items@[j]),
            forall|id: u64| src@.contains(id) ==> #[trigger] items@.contains(id),
            forall|id: u64|
                dst@.contains(id) <==> old(dst)@.contains(id) || exists|j: int|
                    0 <= j < k && items@[j] == id,
        decreases items.len() - k,
    {
        id_set_insert(dst, items[k]);
        k += 1;
    }
    assert forall|id: u64| src@.contains(id) implies dst@.contains(id) by {
        assert(items@.contains(id));
        let j = choose|j: int| 0 <= j < items@.len() && items@[j] == id;
        assert(0 <= j < k && items@[j] == id);
    }
    assert(dst@ =~= old(dst)@.union(src@));
}

/// The ids that both `a` and `b` hold.
pub fn intersection(a: &FxHashSet<u64>, b: &FxHashSet<u64>) -> (both: FxHashSet<u64>)
    ensures
        both@ == a@.intersect(b@),
{
    let mut both: FxHashSet<u64> = FxHashSet::default();
    let items = id_set_items(a);
    let mut k: usize = 0;
    while k < items.len()
        invariant
            0 <= k <= items.len(),
            forall|j: int| 0 <= j < items@.len() ==> a@.contains(#[trigger] items@[j]),
            forall|id: u64| a@.contains(id) ==> #[trigger] items@.contains(id),
            forall|id: u64|
                both@.contains(id) <==> b@.contains(id) && exists|j: int|
                    0 <= j < k && items@[j] == id,
        decreases items.len() - k,
    {
        if id_set_contains(b, items[k]) {
            id_set_insert(&mut both, items[k]);
        }
        k += 1;
    }
    assert forall|id: u64| a@.contains(id) && b@.contains(id) implies both@.contains(id) by {
        assert(items@.contains(id));
        let j = choose|j: int| 0 <= j < items@.len() && items@[j] == id;
        assert(0 <= j < k && items@[j] == id);
    }
    assert(both@ =~= a@.intersect(b@));
    both
}

/// Whether some id is held by both `a` and `b`.
pub fn intersects(a: &FxHashSet<u64>, b: &FxHashSet<u64>) -> (found: bool)
    ensures
        found == exists|id: u64| a@.contains(id) && b@.contains(id),
{
    let items = id_set_items(a);
    let mut k: usize = 0;
    while k < items.len()
        invariant
            0 <= k <= items.len(),
            forall|j: int| 0 <= j < items@.len() ==> a@.contains(#[trigger] items@[j]),
            forall|id: u64| a@.contains(id) ==> #[trigger] items@.contains(id),
            forall|j: int| 0 <= j < k ==> !b@.contains(#[trigger] items@[j]),
        decreases items.len() - k,
    {
        if id_set_contains(b, items[k]) {
            return true;
        }
        k += 1;
    }
    assert forall|id: u64| a@.contains(id) implies !b@.contains(id) by {
        assert(items@.contains(id));
    }
    false
}

/// A set that holds the ids of `src`.
pub fn copy_of(src: &FxHashSet<u64>) -> (copy: FxHashSet<u64>)
    ensures
        copy@ == src@,
{
    let mut copy: FxHashSet<u64> = FxHashSet::default();
    union_into(&mut copy, src);
    assert(copy@ =~= src@);
    copy
}

} // verus!
