//! Depths: for each id at a node, how far the longest string of the id that
//! passes through the node goes on below it.

use vstd::prelude::*;
use crate::shape::{
    found_below, found_by, lemma_prefix_of_take, lemma_prefix_trans, on_walk, reaches, shape_wf,
    marks_wf, through, without,
};
use crate::subsequence::{is_prefix, lemma_subsequence_len};

verus! {

/// Some string of `id` among `entries` starts with `p` and goes on for `d`
/// characters after it.
pub open spec fn recorded(entries: Set<(u64, Seq<char>)>, id: u64, p: Seq<char>, d: int) -> bool {
    exists|t: Seq<char>| #[trigger] entries.contains((id, t)) && is_prefix(p, t) && d == t.len() - p.len()
}

/// The ids that each node has a depth for.
pub open spec fn doms(depths: Seq<Map<u64, usize>>) -> Seq<Set<u64>> {
    Seq::new(depths.len(), |x: int| depths[x].dom())
}

/// The depths of a node with the depth of `id` raised to `d` where it was
/// less, or where the node had none for `id`.
pub open spec fn raised(m: Map<u64, usize>, id: u64, d: usize) -> Map<u64, usize> {
    if m.contains_key(id) && m[id] >= d {
        m
    } else {
        m.insert(id, d)
    }
}

/// Raising the depth of `id` adds `id` to the ids that have a depth, and
/// nothing else.
pub proof fn lemma_raised_dom(m: Map<u64, usize>, id: u64, d: usize)
    ensures
        raised(m, id, d).dom() =~= m.dom().insert(id),
{
}

/// Each node has a depth for the ids with a string through it, and that
/// depth is how far the longest of those strings goes on below the node.
pub open spec fn depth_wf(
    entries: Set<(u64, Seq<char>)>,
    paths: Seq<Seq<char>>,
    depths: Seq<Map<u64, usize>>,
) -> bool {
    &&& depths.len() == paths.len()
    &&& forall|x: int, id: u64, t: Seq<char>|
        0 <= x < paths.len() && #[trigger] entries.contains((id, t)) && is_prefix(#[trigger] paths[x], t)
            ==> depths[x].contains_key(id) && depths[x][id] >= t.len() - paths[x].len()
    &&& forall|x: int, id: u64|
        0 <= x < paths.len() && #[trigger] depths[x].contains_key(id) ==> recorded(
            entries,
            id,
            paths[x],
            depths[x][id] as int,
        )
}

/// The depths while `(id, s)` is being added to the entries `before` and the
/// first `k` characters of `s` have been followed: the nodes of the first
/// `k + 1` prefixes of `s` take `s` into account already.
pub open spec fn deep_walk_inv(
    before: Set<(u64, Seq<char>)>,
    id: u64,
    s: Seq<char>,
    k: int,
    paths: Seq<Seq<char>>,
    depths: Seq<Map<u64, usize>>,
) -> bool {
    &&& depths.len() == paths.len()
    &&& forall|x: int, other: u64, t: Seq<char>|
        0 <= x < paths.len() && #[trigger] before.contains((other, t)) && is_prefix(#[trigger] paths[x], t)
            ==> depths[x].contains_key(other) && depths[x][other] >= t.len() - paths[x].len()
    &&& forall|x: int|
        0 <= x < paths.len() && on_walk(#[trigger] paths[x], s, k) ==> depths[x].contains_key(id)
            && depths[x][id] >= s.len() - paths[x].len()
    &&& forall|x: int, other: u64|
        0 <= x < paths.len() && #[trigger] depths[x].contains_key(other) ==> recorded(
            before,
            other,
            paths[x],
            depths[x][other] as int,
        ) || (other == id && on_walk(paths[x], s, k) && depths[x][id] == s.len() - paths[x].len())
}

/// The ids with a depth at a node are the ids with a string through it.
pub proof fn lemma_depth_marks(
    entries: Set<(u64, Seq<char>)>,
    paths: Seq<Seq<char>>,
    depths: Seq<Map<u64, usize>>,
)
    requires
        depth_wf(entries, paths, depths),
    ensures
        marks_wf(entries, paths, doms(depths)),
{
    assert forall|i: int, id: u64| 0 <= i < paths.len() implies (#[trigger] doms(depths)[i].contains(id)
        <==> through(entries, id, paths[i])) by {
        if depths[i].contains_key(id) {
            assert(recorded(entries, id, paths[i], depths[i][id] as int));
        }
        if through(entries, id, paths[i]) {
            let t = choose|t: Seq<char>| #[trigger] entries.contains((id, t)) && is_prefix(paths[i], t);
            assert(depths[i].contains_key(id));
        }
    }
}

/// Raising the depth of `id` at the root to the length of `s` begins the walk.
pub proof fn lemma_deep_start(
    before: Set<(u64, Seq<char>)>,
    id: u64,
    s: Seq<char>,
    kids: Seq<Map<char, usize>>,
    paths: Seq<Seq<char>>,
    parents: Seq<int>,
    depths: Seq<Map<u64, usize>>,
)
    requires
        shape_wf(kids, paths, parents),
        depth_wf(before, paths, depths),
        s.len() <= usize::MAX,
    ensures
        deep_walk_inv(before, id, s, 0, paths, depths.update(0, raised(depths[0], id, s.len() as usize))),
{
    let after = depths.update(0, raised(depths[0], id, s.len() as usize));
    assert forall|x: int| 0 <= x < paths.len() && on_walk(#[trigger] paths[x], s, 0) implies after[x].contains_key(
        id,
    ) && after[x][id] >= s.len() - paths[x].len() by {
        assert(paths[x] =~= paths[0]);
    }
    assert forall|x: int, other: u64| 0 <= x < paths.len() && #[trigger] after[x].contains_key(other) implies recorded(
        before,
        other,
        paths[x],
        after[x][other] as int,
    ) || (other == id && on_walk(paths[x], s, 0) && after[x][id] == s.len() - paths[x].len()) by {
        if x == 0 && other == id {
            if depths[0].contains_key(id) && depths[0][id] >= s.len() {
                assert(recorded(before, id, paths[0], depths[0][id] as int));
            } else {
                assert(s.take(0) =~= paths[0]);
            }
        } else {
            assert(depths[x].contains_key(other));
            assert(recorded(before, other, paths[x], depths[x][other] as int));
        }
    }
    assert forall|x: int, other: u64, t: Seq<char>|
        0 <= x < paths.len() && #[trigger] before.contains((other, t)) && is_prefix(
            #[trigger] paths[x],
            t,
        ) implies after[x].contains_key(other) && after[x][other] >= t.len() - paths[x].len() by {
        assert(depths[x].contains_key(other) && depths[x][other] >= t.len() - paths[x].len());
    }
}

/// Raising the depth of `id` at the next node of the walk goes one step on.
pub proof fn lemma_deep_descend(
    before: Set<(u64, Seq<char>)>,
    id: u64,
    s: Seq<char>,
    k: int,
    kids: Seq<Map<char, usize>>,
    paths: Seq<Seq<char>>,
    parents: Seq<int>,
    depths: Seq<Map<u64, usize>>,
    next: int,
)
    requires
        shape_wf(kids, paths, parents),
        deep_walk_inv(before, id, s, k, paths, depths),
        0 <= k < s.len() <= usize::MAX,
        0 <= next < paths.len(),
        paths[next] == s.take(k + 1),
    ensures
        deep_walk_inv(
            before,
            id,
            s,
            k + 1,
            paths,
            depths.update(next, raised(depths[next], id, (s.len() - (k + 1)) as usize)),
        ),
{
    let d = (s.len() - (k + 1)) as usize;
    let after = depths.update(next, raised(depths[next], id, d));
    assert(s.take(paths[next].len() as int) =~= paths[next]);
    assert(on_walk(paths[next], s, k + 1));
    assert forall|x: int| 0 <= x < paths.len() && on_walk(#[trigger] paths[x], s, k + 1) implies after[x].contains_key(
        id,
    ) && after[x][id] >= s.len() - paths[x].len() by {
        if x != next {
            if !on_walk(paths[x], s, k) {
                assert(paths[x].len() == k + 1);
                assert(paths[x] == paths[next]);
            }
        }
    }
    assert forall|x: int, other: u64| 0 <= x < paths.len() && #[trigger] after[x].contains_key(other) implies recorded(
        before,
        other,
        paths[x],
        after[x][other] as int,
    ) || (other == id && on_walk(paths[x], s, k + 1) && after[x][id] == s.len() - paths[x].len()) by {
        if x == next && other == id {
            if depths[next].contains_key(id) && depths[next][id] >= d {
                assert(!on_walk(paths[next], s, k));
                assert(recorded(before, id, paths[next], depths[next][id] as int));
            }
        } else {
            assert(depths[x].contains_key(other));
        }
    }
    assert forall|x: int, other: u64, t: Seq<char>|
        0 <= x < paths.len() && #[trigger] before.contains((other, t)) && is_prefix(
            #[trigger] paths[x],
            t,
        ) implies after[x].contains_key(other) && after[x][other] >= t.len() - paths[x].len() by {
        assert(depths[x].contains_key(other) && depths[x][other] >= t.len() - paths[x].len());
    }
}

/// A new node, with no depths yet, keeps the state of the walk.
pub proof fn lemma_deep_grow(
    before: Set<(u64, Seq<char>)>,
    id: u64,
    s: Seq<char>,
    k: int,
    paths: Seq<Seq<char>>,
    depths: Seq<Map<u64, usize>>,
    fresh: Seq<char>,
)
    requires
        deep_walk_inv(before, id, s, k, paths, depths),
        fresh.len() > k,
        forall|other: u64| !through(before, other, fresh),
    ensures
        deep_walk_inv(before, id, s, k, paths.push(fresh), depths.push(Map::empty())),
{
    let paths2 = paths.push(fresh);
    let depths2 = depths.push(Map::<u64, usize>::empty());
    let n = paths.len() as int;
    assert forall|x: int, other: u64, t: Seq<char>|
        0 <= x < paths2.len() && #[trigger] before.contains((other, t)) && is_prefix(
            #[trigger] paths2[x],
            t,
        ) implies depths2[x].contains_key(other) && depths2[x][other] >= t.len() - paths2[x].len() by {
        if x < n {
            assert(is_prefix(paths[x], t));
            assert(depths[x].contains_key(other) && depths[x][other] >= t.len() - paths[x].len());
        } else {
            assert(through(before, other, fresh));
        }
    }
    assert forall|x: int| 0 <= x < paths2.len() && on_walk(#[trigger] paths2[x], s, k) implies depths2[x].contains_key(
        id,
    ) && depths2[x][id] >= s.len() - paths2[x].len() by {
        if x < n {
            assert(on_walk(paths[x], s, k));
        }
    }
    assert forall|x: int, other: u64| 0 <= x < paths2.len() && #[trigger] depths2[x].contains_key(other) implies recorded(
        before,
        other,
        paths2[x],
        depths2[x][other] as int,
    ) || (other == id && on_walk(paths2[x], s, k) && depths2[x][id] == s.len() - paths2[x].len()) by {
        assert(x < n);
        assert(depths[x].contains_key(other));
    }
}

/// When all of `s` has been followed, the depths take `(id, s)` into account
/// beside what they did.
pub proof fn lemma_deep_finish(
    before: Set<(u64, Seq<char>)>,
    id: u64,
    s: Seq<char>,
    paths: Seq<Seq<char>>,
    depths: Seq<Map<u64, usize>>,
)
    requires
        deep_walk_inv(before, id, s, s.len() as int, paths, depths),
    ensures
        depth_wf(before.insert((id, s)), paths, depths),
{
    let after = before.insert((id, s));
    assert forall|x: int, other: u64, t: Seq<char>|
        0 <= x < paths.len() && #[trigger] after.contains((other, t)) && is_prefix(
            #[trigger] paths[x],
            t,
        ) implies depths[x].contains_key(other) && depths[x][other] >= t.len() - paths[x].len() by {
        if before.contains((other, t)) {
        } else {
            assert(other == id && t == s);
            assert(on_walk(paths[x], s, s.len() as int));
        }
    }
    assert forall|x: int, other: u64| 0 <= x < paths.len() && #[trigger] depths[x].contains_key(other) implies recorded(
        after,
        other,
        paths[x],
        depths[x][other] as int,
    ) by {
        if recorded(before, other, paths[x], depths[x][other] as int) {
            let t = choose|t: Seq<char>| #[trigger]
                before.contains((other, t)) && is_prefix(paths[x], t) && depths[x][other] as int == t.len()
                    - paths[x].len();
            assert(after.contains((other, t)));
        } else {
            assert(after.contains((id, s)));
        }
    }
}

/// After `id` has been taken out of the depths of every node, and nothing
/// else was changed, the depths are those of the entries of the other ids.
pub proof fn lemma_deep_sweep_finish(
    id: u64,
    entries: Set<(u64, Seq<char>)>,
    paths: Seq<Seq<char>>,
    before: Seq<Map<u64, usize>>,
    depths: Seq<Map<u64, usize>>,
)
    requires
        depth_wf(entries, paths, before),
        depths.len() == before.len(),
        forall|x: int, other: u64|
            0 <= x < paths.len() && other != id ==> (#[trigger] depths[x].contains_key(other)
                <==> before[x].contains_key(other)),
        forall|x: int, other: u64|
            0 <= x < paths.len() && other != id && #[trigger] before[x].contains_key(other)
                ==> depths[x][other] == before[x][other],
        forall|x: int| 0 <= x < paths.len() ==> !(#[trigger] depths[x]).contains_key(id),
    ensures
        depth_wf(without(entries, id), paths, depths),
{
    let after = without(entries, id);
    assert forall|x: int, other: u64, t: Seq<char>|
        0 <= x < paths.len() && #[trigger] after.contains((other, t)) && is_prefix(
            #[trigger] paths[x],
            t,
        ) implies depths[x].contains_key(other) && depths[x][other] >= t.len() - paths[x].len() by {
        assert(entries.contains((other, t)));
        assert(before[x].contains_key(other) && before[x][other] >= t.len() - paths[x].len());
    }
    assert forall|x: int, other: u64| 0 <= x < paths.len() && #[trigger] depths[x].contains_key(other) implies recorded(
        after,
        other,
        paths[x],
        depths[x][other] as int,
    ) by {
        assert(other != id);
        assert(before[x].contains_key(other));
        assert(recorded(entries, other, paths[x], before[x][other] as int));
        let t = choose|t: Seq<char>| #[trigger]
            entries.contains((other, t)) && is_prefix(paths[x], t) && before[x][other] as int == t.len()
                - paths[x].len();
        assert(after.contains((other, t)));
    }
}

/// Whether a search with `filter` and `need` characters of the query still
/// to match goes on at the node of path `p`: when some id, of the filter
/// where there is one, has a string that starts with `p` and goes on for at
/// least `need` characters after it.
pub open spec fn deep_enough(
    entries: Set<(u64, Seq<char>)>,
    filter: Option<Set<u64>>,
    p: Seq<char>,
    need: int,
) -> bool {
    exists|id: u64, t: Seq<char>|
        (match filter {
            None => true,
            Some(f) => f.contains(id),
        }) && #[trigger] entries.contains((id, t)) && is_prefix(p, t) && t.len() - p.len() >= need
}

/// Where no string goes on far enough, nothing is found.
pub proof fn lemma_found_shallow(
    entries: Set<(u64, Seq<char>)>,
    filter: Option<Set<u64>>,
    p: Seq<char>,
    rest: Seq<char>,
)
    requires
        !deep_enough(entries, filter, p, rest.len() as int),
    ensures
        found_below(entries, filter, p, rest) =~= Set::<u64>::empty(),
{
    assert forall|id: u64| !found_below(entries, filter, p, rest).contains(id) by {
        if found_below(entries, filter, p, rest).contains(id) {
            let (s, m) = choose|s: Seq<char>, m: int| #[trigger]
                found_by(entries, filter, p, rest, id, s, m);
            lemma_subsequence_len(s.subrange(p.len() as int, m), rest);
            match filter {
                None => {
                    assert(entries.contains((id, s)) && is_prefix(p, s) && s.len() - p.len()
                        >= rest.len());
                },
                Some(f) => {
                    let id2 = choose|id2: u64| f.contains(id2) && #[trigger] through(entries, id2, s.take(m));
                    let t = choose|t: Seq<char>| #[trigger]
                        entries.contains((id2, t)) && is_prefix(s.take(m), t);
                    lemma_prefix_of_take(p, s, m);
                    lemma_prefix_trans(p, s.take(m), t);
                    assert(entries.contains((id2, t)) && is_prefix(p, t) && t.len() - p.len()
                        >= rest.len());
                },
            }
        }
    }
}

/// Where a string goes on far enough, the search reaches the node.
pub proof fn lemma_deep_reaches(
    entries: Set<(u64, Seq<char>)>,
    filter: Option<Set<u64>>,
    p: Seq<char>,
    need: int,
)
    requires
        deep_enough(entries, filter, p, need),
    ensures
        reaches(entries, filter, p),
{
    if let Some(f) = filter {
        let (id, t) = choose|id: u64, t: Seq<char>|
            f.contains(id) && #[trigger] entries.contains((id, t)) && is_prefix(p, t) && t.len() - p.len()
                >= need;
        assert(through(entries, id, p));
    }
}

} // verus!
