//! The mathematical side of the tries: what a trie holds, what a search is
//! to find, and how the nodes of a trie are laid out.
//!
//! A trie holds a set of entries, each an id with one string that was added
//! for it. Its nodes are kept in one vector, the root first. Each node stands
//! for a path, the string of edge labels that lead to it from the root, and a
//! child always comes later in the vector than its parent.

use vstd::prelude::*;
use crate::subsequence::{
    advance, is_prefix, is_subsequence, lemma_subsequence_empty, lemma_subsequence_len,
    lemma_subsequence_of_prefix, lemma_subsequence_step,
};

verus! {

/// Some string of `id` among `entries` starts with `p`.
pub open spec fn through(entries: Set<(u64, Seq<char>)>, id: u64, p: Seq<char>) -> bool {
    exists|s: Seq<char>| #[trigger] entries.contains((id, s)) && is_prefix(p, s)
}

/// The ids with a string among `entries` that holds `query` as a subsequence.
pub open spec fn matching(entries: Set<(u64, Seq<char>)>, query: Seq<char>) -> Set<u64> {
    Set::new(
        |id: u64|
            exists|s: Seq<char>| #[trigger] entries.contains((id, s)) && is_subsequence(s, query),
    )
}

/// The ids that match every one of `queries`.
pub open spec fn matching_all(entries: Set<(u64, Seq<char>)>, queries: Seq<Seq<char>>) -> Set<u64> {
    Set::new(
        |id: u64|
            forall|k: int| 0 <= k < queries.len() ==> #[trigger] matching(entries, queries[k]).contains(id),
    )
}

/// Whether a search with `filter` goes on at the node of path `p`: without a
/// filter always, with one when an id of the filter has a string that starts
/// with `p`.
pub open spec fn reaches(
    entries: Set<(u64, Seq<char>)>,
    filter: Option<Set<u64>>,
    p: Seq<char>,
) -> bool {
    match filter {
        None => true,
        Some(f) => exists|id: u64| f.contains(id) && #[trigger] through(entries, id, p),
    }
}

/// `id` is found below the node of path `p` with `rest` of the query still to
/// match, through its string `s` and the prefix of `s` of length `m`: between
/// `p` and that prefix lies `rest` as a subsequence, and the search reaches
/// the node of that prefix.
pub open spec fn found_by(
    entries: Set<(u64, Seq<char>)>,
    filter: Option<Set<u64>>,
    p: Seq<char>,
    rest: Seq<char>,
    id: u64,
    s: Seq<char>,
    m: int,
) -> bool {
    &&& entries.contains((id, s))
    &&& is_prefix(p, s)
    &&& p.len() <= m <= s.len()
    &&& is_subsequence(s.subrange(p.len() as int, m), rest)
    &&& reaches(entries, filter, s.take(m))
}

/// The ids that a search finds at or below the node of path `p` with `rest`
/// of the query still to match.
pub open spec fn found_below(
    entries: Set<(u64, Seq<char>)>,
    filter: Option<Set<u64>>,
    p: Seq<char>,
    rest: Seq<char>,
) -> Set<u64> {
    Set::new(
        |id: u64|
            exists|s: Seq<char>, m: int| #[trigger] found_by(entries, filter, p, rest, id, s, m),
    )
}

/// The ids that a search for `query` finds when it is pruned by `filter`:
/// those with a string of which some prefix holds `query` as a subsequence
/// and is also the start of a string of an id in `filter`.
pub open spec fn matching_near(
    entries: Set<(u64, Seq<char>)>,
    query: Seq<char>,
    filter: Set<u64>,
) -> Set<u64> {
    found_below(entries, Some(filter), Seq::<char>::empty(), query)
}

/// The ids that a search for `query` finds, with a filter or without one.
pub open spec fn first_matching(
    entries: Set<(u64, Seq<char>)>,
    query: Seq<char>,
    filter: Option<Set<u64>>,
) -> Set<u64> {
    match filter {
        None => matching(entries, query),
        Some(f) => matching_near(entries, query, f),
    }
}

/// The layout of the nodes: a child comes after its parent and stands for its
/// parent's path with the edge's label added, every node but the root is the
/// child of its parent, and no two nodes stand for the same path.
pub open spec fn shape_wf(
    kids: Seq<Map<char, usize>>,
    paths: Seq<Seq<char>>,
    parents: Seq<int>,
) -> bool {
    &&& kids.len() >= 1
    &&& paths.len() == kids.len()
    &&& parents.len() == kids.len()
    &&& paths[0].len() == 0
    &&& forall|i: int, c: char|
        0 <= i < kids.len() && #[trigger] kids[i].contains_key(c) ==> {
            &&& i < kids[i][c] < kids.len()
            &&& parents[kids[i][c] as int] == i
            &&& paths[kids[i][c] as int] == paths[i].push(c)
        }
    &&& forall|j: int|
        0 < j < kids.len() ==> {
            &&& 0 <= #[trigger] parents[j] < j
            &&& paths[j].len() > 0
            &&& kids[parents[j]].contains_key(paths[j].last())
            &&& kids[parents[j]][paths[j].last()] == j
        }
    &&& forall|i: int, j: int|
        0 <= i < kids.len() && 0 <= j < kids.len() && #[trigger] paths[i] == #[trigger] paths[j] ==> i
            == j
}

/// Wherever a string among `entries` goes on beyond the path of a node, the
/// node has the edge for its next character.
pub open spec fn edges_complete(
    entries: Set<(u64, Seq<char>)>,
    kids: Seq<Map<char, usize>>,
    paths: Seq<Seq<char>>,
) -> bool {
    forall|i: int, id: u64, s: Seq<char>|
        0 <= i < kids.len() && #[trigger] entries.contains((id, s)) && is_prefix(#[trigger] paths[i], s)
            && paths[i].len() < s.len() ==> kids[i].contains_key(s[paths[i].len() as int])
}

/// Each node is marked with the ids that have a string starting with its path.
pub open spec fn marks_wf(
    entries: Set<(u64, Seq<char>)>,
    paths: Seq<Seq<char>>,
    marks: Seq<Set<u64>>,
) -> bool {
    &&& marks.len() == paths.len()
    &&& forall|i: int, id: u64|
        0 <= i < paths.len() ==> (#[trigger] marks[i].contains(id) <==> through(entries, id, paths[i]))
}

pub proof fn lemma_prefix_trans(a: Seq<char>, b: Seq<char>, c: Seq<char>)
    requires
        is_prefix(a, b),
        is_prefix(b, c),
    ensures
        is_prefix(a, c),
{
    assert(c.take(a.len() as int) =~= c.take(b.len() as int).take(a.len() as int));
}

pub proof fn lemma_prefix_of_take(p: Seq<char>, s: Seq<char>, m: int)
    requires
        is_prefix(p, s),
        p.len() <= m <= s.len(),
    ensures
        is_prefix(p, s.take(m)),
        is_prefix(s.take(m), s),
{
    assert(s.take(m).take(p.len() as int) =~= s.take(p.len() as int));
    assert(s.take(s.take(m).len() as int) =~= s.take(m));
}

/// A filter only narrows where a search goes: where it reaches a path, it
/// reaches every prefix of it.
pub proof fn lemma_reaches_prefix(
    entries: Set<(u64, Seq<char>)>,
    filter: Option<Set<u64>>,
    p: Seq<char>,
    q: Seq<char>,
)
    requires
        is_prefix(p, q),
        reaches(entries, filter, q),
    ensures
        reaches(entries, filter, p),
{
    if let Some(f) = filter {
        let id = choose|id: u64| f.contains(id) && #[trigger] through(entries, id, q);
        let s = choose|s: Seq<char>| #[trigger] entries.contains((id, s)) && is_prefix(q, s);
        lemma_prefix_trans(p, q, s);
        assert(through(entries, id, p));
    }
}

/// Nothing is found below a node that the search does not reach.
pub proof fn lemma_found_unreached(
    entries: Set<(u64, Seq<char>)>,
    filter: Option<Set<u64>>,
    p: Seq<char>,
    rest: Seq<char>,
)
    requires
        !reaches(entries, filter, p),
    ensures
        found_below(entries, filter, p, rest) =~= Set::<u64>::empty(),
{
    assert forall|id: u64| !found_below(entries, filter, p, rest).contains(id) by {
        if found_below(entries, filter, p, rest).contains(id) {
            let (s, m) = choose|s: Seq<char>, m: int| #[trigger]
                found_by(entries, filter, p, rest, id, s, m);
            lemma_prefix_of_take(p, s, m);
            lemma_reaches_prefix(entries, filter, p, s.take(m));
        }
    }
}

/// Where the query is used up at a node that the search reaches, exactly the
/// ids with a string through that node are found.
pub proof fn lemma_found_at_end(
    entries: Set<(u64, Seq<char>)>,
    filter: Option<Set<u64>>,
    p: Seq<char>,
    rest: Seq<char>,
    id: u64,
)
    requires
        rest.len() == 0,
        reaches(entries, filter, p),
    ensures
        found_below(entries, filter, p, rest).contains(id) <==> through(entries, id, p),
{
    if through(entries, id, p) {
        let s = choose|s: Seq<char>| #[trigger] entries.contains((id, s)) && is_prefix(p, s);
        lemma_subsequence_empty(s.subrange(p.len() as int, p.len() as int));
        assert(rest =~= Seq::<char>::empty());
        assert(found_by(entries, filter, p, rest, id, s, p.len() as int));
    }
    if found_below(entries, filter, p, rest).contains(id) {
        let (s, m) = choose|s: Seq<char>, m: int| #[trigger]
            found_by(entries, filter, p, rest, id, s, m);
        assert(entries.contains((id, s)) && is_prefix(p, s));
    }
}

/// With some of the query left, what is found below a node is found below
/// one of its edges, with what `advance` leaves of the query: downwards.
pub proof fn lemma_found_down(
    entries: Set<(u64, Seq<char>)>,
    filter: Option<Set<u64>>,
    p: Seq<char>,
    rest: Seq<char>,
    id: u64,
) -> (step: (Seq<char>, char))
    requires
        rest.len() > 0,
        found_below(entries, filter, p, rest).contains(id),
    ensures
        entries.contains((id, step.0)),
        is_prefix(p, step.0),
        p.len() < step.0.len(),
        step.1 == step.0[p.len() as int],
        found_below(entries, filter, p.push(step.1), advance(rest, step.1)).contains(id),
{
    let (s, m) = choose|s: Seq<char>, m: int| #[trigger] found_by(entries, filter, p, rest, id, s, m);
    let t = s.subrange(p.len() as int, m);
    lemma_subsequence_len(t, rest);
    let c = s[p.len() as int];
    assert(t[0] == c);
    lemma_subsequence_step(t, rest);
    assert(t.drop_first() =~= s.subrange(p.len() as int + 1, m));
    assert(s.take(p.len() as int + 1) =~= s.take(p.len() as int).push(c));
    assert(found_by(entries, filter, p.push(c), advance(rest, c), id, s, m));
    (s, c)
}

/// With some of the query left, what is found below an edge of a node is
/// found below the node: upwards.
pub proof fn lemma_found_up(
    entries: Set<(u64, Seq<char>)>,
    filter: Option<Set<u64>>,
    p: Seq<char>,
    rest: Seq<char>,
    c: char,
    id: u64,
)
    requires
        rest.len() > 0,
        found_below(entries, filter, p.push(c), advance(rest, c)).contains(id),
    ensures
        found_below(entries, filter, p, rest).contains(id),
{
    let pc = p.push(c);
    let (s, m) = choose|s: Seq<char>, m: int| #[trigger]
        found_by(entries, filter, pc, advance(rest, c), id, s, m);
    let t = s.subrange(p.len() as int, m);
    assert(s.take(pc.len() as int)[p.len() as int] == c);
    assert(t[0] == c);
    assert(t.drop_first() =~= s.subrange(pc.len() as int, m));
    lemma_subsequence_step(t, rest);
    assert(s.take(p.len() as int) =~= s.take(pc.len() as int).take(p.len() as int));
    assert(pc.take(p.len() as int) =~= p);
    assert(found_by(entries, filter, p, rest, id, s, m));
}

/// Without a filter a search finds the ids that match the query.
pub proof fn lemma_found_is_matching(entries: Set<(u64, Seq<char>)>, query: Seq<char>)
    ensures
        found_below(entries, None, Seq::<char>::empty(), query) =~= matching(entries, query),
{
    let e = Seq::<char>::empty();
    assert forall|id: u64| found_below(entries, None, e, query).contains(id) implies matching(
        entries,
        query,
    ).contains(id) by {
        let (s, m) = choose|s: Seq<char>, m: int| #[trigger]
            found_by(entries, None, e, query, id, s, m);
        assert(s.subrange(0, m) =~= s.take(m));
        lemma_subsequence_of_prefix(s, m, query);
    }
    assert forall|id: u64| matching(entries, query).contains(id) implies found_below(
        entries,
        None,
        e,
        query,
    ).contains(id) by {
        let s = choose|s: Seq<char>| #[trigger] entries.contains((id, s)) && is_subsequence(s, query);
        assert(s.subrange(0, s.len() as int) =~= s);
        assert(s.take(0) =~= e);
        assert(found_by(entries, None, e, query, id, s, s.len() as int));
    }
}

/// A filter takes away no id of its own and adds none that does not match:
/// what a filtered search finds lies between the matching ids of the filter
/// and the matching ids.
pub proof fn lemma_matching_near_bounds(
    entries: Set<(u64, Seq<char>)>,
    query: Seq<char>,
    filter: Set<u64>,
)
    ensures
        matching(entries, query).intersect(filter).subset_of(matching_near(entries, query, filter)),
        matching_near(entries, query, filter).subset_of(matching(entries, query)),
{
    let e = Seq::<char>::empty();
    assert forall|id: u64| matching_near(entries, query, filter).contains(id) implies matching(
        entries,
        query,
    ).contains(id) by {
        let (s, m) = choose|s: Seq<char>, m: int| #[trigger]
            found_by(entries, Some(filter), e, query, id, s, m);
        assert(s.subrange(0, m) =~= s.take(m));
        lemma_subsequence_of_prefix(s, m, query);
    }
    assert forall|id: u64|
        matching(entries, query).contains(id) && filter.contains(id) implies matching_near(
        entries,
        query,
        filter,
    ).contains(id) by {
        let s = choose|s: Seq<char>| #[trigger] entries.contains((id, s)) && is_subsequence(s, query);
        assert(s.subrange(0, s.len() as int) =~= s);
        assert(s.take(0) =~= e);
        assert(s.take(s.len() as int) =~= s);
        assert(through(entries, id, s));
        assert(found_by(entries, Some(filter), e, query, id, s, s.len() as int));
    }
}

/// `p` is one of the first `k + 1` prefixes of `s`.
pub open spec fn on_walk(p: Seq<char>, s: Seq<char>, k: int) -> bool {
    is_prefix(p, s) && p.len() <= k
}

/// The state of a trie while `(id, s)` is being added to the entries
/// `before` and the first `k` characters of `s` have been followed: the nodes
/// of the first `k + 1` prefixes of `s` are marked with `id` already, and
/// the edges for the first `k` characters of `s` are there.
pub open spec fn walk_inv(
    before: Set<(u64, Seq<char>)>,
    id: u64,
    s: Seq<char>,
    k: int,
    kids: Seq<Map<char, usize>>,
    paths: Seq<Seq<char>>,
    parents: Seq<int>,
    marks: Seq<Set<u64>>,
) -> bool {
    &&& shape_wf(kids, paths, parents)
    &&& edges_complete(before, kids, paths)
    &&& marks.len() == paths.len()
    &&& 0 <= k <= s.len()
    &&& forall|x: int, other: u64|
        0 <= x < paths.len() ==> (#[trigger] marks[x].contains(other) <==> through(
            before,
            other,
            paths[x],
        ) || (other == id && on_walk(paths[x], s, k)))
    &&& forall|x: int|
        0 <= x < paths.len() && is_prefix(#[trigger] paths[x], s) && paths[x].len() < k
            ==> kids[x].contains_key(s[paths[x].len() as int])
}

/// Marking the root begins the walk.
pub proof fn lemma_walk_start(
    before: Set<(u64, Seq<char>)>,
    id: u64,
    s: Seq<char>,
    kids: Seq<Map<char, usize>>,
    paths: Seq<Seq<char>>,
    parents: Seq<int>,
    marks: Seq<Set<u64>>,
)
    requires
        shape_wf(kids, paths, parents),
        edges_complete(before, kids, paths),
        marks_wf(before, paths, marks),
    ensures
        walk_inv(before, id, s, 0, kids, paths, parents, marks.update(0, marks[0].insert(id))),
        paths[0] == s.take(0),
{
    let after = marks.update(0, marks[0].insert(id));
    assert(paths[0] =~= s.take(0));
    assert forall|x: int, other: u64| 0 <= x < paths.len() implies (#[trigger] after[x].contains(
        other,
    ) <==> through(before, other, paths[x]) || (other == id && on_walk(paths[x], s, 0))) by {
        assert(marks[x].contains(other) <==> through(before, other, paths[x]));
        if on_walk(paths[x], s, 0) {
            assert(paths[x] =~= paths[0]);
        }
    }
}

/// Following an edge that is there, and marking the child, goes one step on.
pub proof fn lemma_walk_descend(
    before: Set<(u64, Seq<char>)>,
    id: u64,
    s: Seq<char>,
    k: int,
    kids: Seq<Map<char, usize>>,
    paths: Seq<Seq<char>>,
    parents: Seq<int>,
    marks: Seq<Set<u64>>,
    cur: int,
)
    requires
        walk_inv(before, id, s, k, kids, paths, parents, marks),
        0 <= cur < paths.len(),
        paths[cur] == s.take(k),
        k < s.len(),
        kids[cur].contains_key(s[k]),
    ensures
        ({
            let next = kids[cur][s[k]] as int;
            &&& cur < next < paths.len()
            &&& paths[next] == s.take(k + 1)
            &&& walk_inv(
                before,
                id,
                s,
                k + 1,
                kids,
                paths,
                parents,
                marks.update(next, marks[next].insert(id)),
            )
        }),
{
    let next = kids[cur][s[k]] as int;
    let after = marks.update(next, marks[next].insert(id));
    assert(paths[next] == paths[cur].push(s[k]));
    assert(s.take(k).push(s[k]) =~= s.take(k + 1));
    assert(s.take(paths[next].len() as int) =~= paths[next]);
    assert forall|x: int, other: u64| 0 <= x < paths.len() implies (#[trigger] after[x].contains(
        other,
    ) <==> through(before, other, paths[x]) || (other == id && on_walk(paths[x], s, k + 1))) by {
        assert(marks[x].contains(other) <==> through(before, other, paths[x]) || (other == id
            && on_walk(paths[x], s, k)));
        if x == next {
            assert(on_walk(paths[x], s, k + 1));
        } else {
            if on_walk(paths[x], s, k + 1) && !on_walk(paths[x], s, k) {
                assert(paths[x].len() == k + 1);
                assert(paths[x] == paths[next]);
            }
        }
    }
    assert forall|x: int|
        0 <= x < paths.len() && is_prefix(#[trigger] paths[x], s) && paths[x].len() < k
            + 1 implies kids[x].contains_key(s[paths[x].len() as int]) by {
        if paths[x].len() == k {
            assert(paths[x] == paths[cur]);
        }
    }
}

/// Adding a node for an edge that is missing keeps the state of the walk.
pub proof fn lemma_walk_grow(
    before: Set<(u64, Seq<char>)>,
    id: u64,
    s: Seq<char>,
    k: int,
    kids: Seq<Map<char, usize>>,
    paths: Seq<Seq<char>>,
    parents: Seq<int>,
    marks: Seq<Set<u64>>,
    cur: int,
)
    requires
        walk_inv(before, id, s, k, kids, paths, parents, marks),
        0 <= cur < paths.len(),
        paths[cur] == s.take(k),
        k < s.len(),
        !kids[cur].contains_key(s[k]),
        paths.len() <= usize::MAX,
    ensures
        walk_inv(
            before,
            id,
            s,
            k,
            kids.update(cur, kids[cur].insert(s[k], paths.len() as usize)).push(Map::empty()),
            paths.push(paths[cur].push(s[k])),
            parents.push(cur),
            marks.push(Set::empty()),
        ),
        forall|other: u64| !through(before, other, paths[cur].push(s[k])),
{
    let n = paths.len() as int;
    let c = s[k];
    let fresh = paths[cur].push(c);
    let kids2 = kids.update(cur, kids[cur].insert(c, n as usize)).push(Map::empty());
    let paths2 = paths.push(fresh);
    let parents2 = parents.push(cur);
    let marks2 = marks.push(Set::empty());
    // no node stands for the new path yet
    assert forall|x: int| 0 <= x < n implies paths[x] != fresh by {
        if paths[x] == fresh {
            assert(x != 0);
            let p = parents[x];
            assert(0 <= p < x);
            assert(kids[p].contains_key(paths[x].last()));
            assert(paths[x] == paths[p].push(c));
            assert(paths[p] =~= paths[x].drop_last());
            assert(paths[cur] =~= fresh.drop_last());
            assert(paths[p] == paths[cur]);
        }
    }
    // no entry goes through the new path
    assert forall|other: u64| !through(before, other, fresh) by {
        if through(before, other, fresh) {
            let t = choose|t: Seq<char>| #[trigger] before.contains((other, t)) && is_prefix(fresh, t);
            assert(t.take(fresh.len() as int)[k] == c);
            assert(t.take(paths[cur].len() as int) =~= t.take(fresh.len() as int).take(k));
            assert(fresh.take(k) =~= paths[cur]);
            assert(is_prefix(paths[cur], t));
        }
    }
    assert forall|i: int, d: char| 0 <= i < kids2.len() && #[trigger] kids2[i].contains_key(d) implies ({
        &&& i < kids2[i][d] < kids2.len()
        &&& parents2[kids2[i][d] as int] == i
        &&& paths2[kids2[i][d] as int] == paths2[i].push(d)
    }) by {
        if i == cur && d == c {
        } else {
            assert(i < n);
            assert(kids[i].contains_key(d));
        }
    }
    assert forall|j: int| 0 < j < kids2.len() implies ({
        &&& 0 <= #[trigger] parents2[j] < j
        &&& paths2[j].len() > 0
        &&& kids2[parents2[j]].contains_key(paths2[j].last())
        &&& kids2[parents2[j]][paths2[j].last()] == j
    }) by {
        if j < n {
            assert(0 <= parents[j] < j);
            if parents[j] == cur && paths[j].last() == c {
                assert(false);
            }
        }
    }
    assert forall|i: int, j: int|
        0 <= i < kids2.len() && 0 <= j < kids2.len() && #[trigger] paths2[i] == #[trigger] paths2[j] implies i
        == j by {
        if i < n && j < n {
            assert(paths[i] == paths[j]);
        }
    }
    assert(shape_wf(kids2, paths2, parents2));
    assert forall|i: int, other: u64, t: Seq<char>|
        0 <= i < kids2.len() && #[trigger] before.contains((other, t)) && is_prefix(
            #[trigger] paths2[i],
            t,
        ) && paths2[i].len() < t.len() implies kids2[i].contains_key(t[paths2[i].len() as int]) by {
        if i < n {
            assert(is_prefix(paths[i], t));
            assert(kids[i].contains_key(t[paths[i].len() as int]));
        } else {
            assert(through(before, other, fresh));
        }
    }
    assert forall|x: int, other: u64| 0 <= x < paths2.len() implies (#[trigger] marks2[x].contains(
        other,
    ) <==> through(before, other, paths2[x]) || (other == id && on_walk(paths2[x], s, k))) by {
        if x < n {
            assert(marks[x].contains(other) <==> through(before, other, paths[x]) || (other == id
                && on_walk(paths[x], s, k)));
        }
    }
    assert forall|x: int|
        0 <= x < paths2.len() && is_prefix(#[trigger] paths2[x], s) && paths2[x].len()
            < k implies kids2[x].contains_key(s[paths2[x].len() as int]) by {
        if x < n {
            assert(is_prefix(paths[x], s));
            assert(kids[x].contains_key(s[paths[x].len() as int]));
        }
    }
}

/// When all of `s` has been followed, the trie holds `(id, s)` beside what
/// it held.
pub proof fn lemma_walk_finish(
    before: Set<(u64, Seq<char>)>,
    id: u64,
    s: Seq<char>,
    kids: Seq<Map<char, usize>>,
    paths: Seq<Seq<char>>,
    parents: Seq<int>,
    marks: Seq<Set<u64>>,
)
    requires
        walk_inv(before, id, s, s.len() as int, kids, paths, parents, marks),
    ensures
        edges_complete(before.insert((id, s)), kids, paths),
        marks_wf(before.insert((id, s)), paths, marks),
{
    let after = before.insert((id, s));
    assert forall|i: int, other: u64, t: Seq<char>|
        0 <= i < kids.len() && #[trigger] after.contains((other, t)) && is_prefix(
            #[trigger] paths[i],
            t,
        ) && paths[i].len() < t.len() implies kids[i].contains_key(t[paths[i].len() as int]) by {
        if before.contains((other, t)) {
        } else {
            assert(t == s);
        }
    }
    assert forall|i: int, other: u64| 0 <= i < paths.len() implies (#[trigger] marks[i].contains(
        other,
    ) <==> through(after, other, paths[i])) by {
        assert(marks[i].contains(other) <==> through(before, other, paths[i]) || (other == id
            && on_walk(paths[i], s, s.len() as int)));
        if through(before, other, paths[i]) {
            let t = choose|t: Seq<char>| #[trigger] before.contains((other, t)) && is_prefix(paths[i], t);
            assert(after.contains((other, t)));
        }
        if other == id && on_walk(paths[i], s, s.len() as int) {
            assert(after.contains((id, s)));
        }
        if through(after, other, paths[i]) {
            let t = choose|t: Seq<char>| #[trigger] after.contains((other, t)) && is_prefix(paths[i], t);
            if before.contains((other, t)) {
            } else {
                assert(other == id && t == s);
            }
        }
    }
}

/// The entries of every id but `id`.
pub open spec fn without(entries: Set<(u64, Seq<char>)>, id: u64) -> Set<(u64, Seq<char>)> {
    Set::new(|e: (u64, Seq<char>)| entries.contains(e) && e.0 != id)
}

/// The places of the nodes that are marked with `id`.
pub open spec fn holders(marks: Seq<Set<u64>>, id: u64) -> Set<int> {
    Set::new(|x: int| 0 <= x < marks.len() && marks[x].contains(id))
}

/// The node at place `x` is on the stack.
pub open spec fn on_stack(stack: Seq<usize>, x: int) -> bool {
    exists|k: int| 0 <= k < stack.len() && #[trigger] stack[k] == x
}

/// The state of a trie while `id` is being taken out of its marks, with the
/// nodes on `stack` still to visit: the marks of the other ids are as they
/// were, and a node that is still marked with `id` is on the stack or has a
/// parent that is still marked.
pub open spec fn sweep_inv(
    id: u64,
    parents: Seq<int>,
    before: Seq<Set<u64>>,
    marks: Seq<Set<u64>>,
    stack: Seq<usize>,
) -> bool {
    &&& marks.len() == before.len()
    &&& marks.len() == parents.len()
    &&& forall|x: int, other: u64|
        0 <= x < marks.len() && other != id ==> (#[trigger] marks[x].contains(other)
            <==> before[x].contains(other))
    &&& forall|k: int| 0 <= k < stack.len() ==> #[trigger] stack[k] < marks.len()
    &&& forall|x: int|
        0 <= x < marks.len() && #[trigger] marks[x].contains(id) ==> on_stack(stack, x) || (x > 0
            && marks[parents[x]].contains(id))
}

/// The nodes marked with `id` are finitely many, and one fewer once the mark
/// is taken off one of them.
pub proof fn lemma_holders_shrink(marks: Seq<Set<u64>>, id: u64, i: int)
    requires
        0 <= i < marks.len(),
        marks[i].contains(id),
    ensures
        holders(marks, id).finite(),
        holders(marks.update(i, marks[i].remove(id)), id).len() < holders(marks, id).len(),
{
    let all = vstd::set_lib::set_int_range(0, marks.len() as int);
    vstd::set_lib::lemma_int_range(0, marks.len() as int);
    let h = holders(marks, id);
    let h2 = holders(marks.update(i, marks[i].remove(id)), id);
    assert(h.subset_of(all));
    vstd::set_lib::lemma_len_subset(h, all);
    assert(h2 =~= h.remove(i));
    assert(h2.insert(i) =~= h);
    assert(h2.subset_of(all));
    vstd::set_lib::lemma_len_subset(h2, all);
    assert(!h2.contains(i));
    assert(h2.insert(i).len() == h2.len() + 1);
}

/// One step of the sweep: the node `i` has been taken off the stack; where it
/// was marked with `id` the mark is off and its children are on the stack.
pub proof fn lemma_sweep_step(
    id: u64,
    kids: Seq<Map<char, usize>>,
    paths: Seq<Seq<char>>,
    parents: Seq<int>,
    before: Seq<Set<u64>>,
    marks: Seq<Set<u64>>,
    stack: Seq<usize>,
    marks2: Seq<Set<u64>>,
    stack2: Seq<usize>,
)
    requires
        shape_wf(kids, paths, parents),
        sweep_inv(id, parents, before, marks, stack),
        stack.len() > 0,
        marks2 == (if marks[stack.last() as int].contains(id) {
            marks.update(stack.last() as int, marks[stack.last() as int].remove(id))
        } else {
            marks
        }),
        forall|k: int| 0 <= k < stack2.len() ==> #[trigger] stack2[k] < marks.len(),
        forall|k: int| 0 <= k < stack.len() - 1 ==> on_stack(stack2, #[trigger] stack[k] as int),
        marks[stack.last() as int].contains(id) ==> forall|c: char| #[trigger]
            kids[stack.last() as int].contains_key(c) ==> on_stack(
                stack2,
                kids[stack.last() as int][c] as int,
            ),
    ensures
        sweep_inv(id, parents, before, marks2, stack2),
{
    let i = stack.last() as int;
    assert(stack[stack.len() - 1] < marks.len());
    assert forall|x: int| 0 <= x < marks2.len() && #[trigger] marks2[x].contains(id) implies on_stack(
        stack2,
        x,
    ) || (x > 0 && marks2[parents[x]].contains(id)) by {
        assert(marks[x].contains(id));
        assert(x != i);
        if on_stack(stack, x) {
            let k = choose|k: int| 0 <= k < stack.len() && #[trigger] stack[k] == x;
            assert(k < stack.len() - 1);
            assert(on_stack(stack2, stack[k] as int));
        } else {
            assert(x > 0 && marks[parents[x]].contains(id));
            if parents[x] == i {
                assert(kids[parents[x]].contains_key(paths[x].last()));
                assert(kids[i][paths[x].last()] == x);
                assert(on_stack(stack2, kids[i][paths[x].last()] as int));
            }
        }
    }
}

/// When the stack is empty no node is marked with `id`.
pub proof fn lemma_sweep_done(
    id: u64,
    parents: Seq<int>,
    before: Seq<Set<u64>>,
    marks: Seq<Set<u64>>,
    kids: Seq<Map<char, usize>>,
    paths: Seq<Seq<char>>,
    x: int,
)
    requires
        shape_wf(kids, paths, parents),
        sweep_inv(id, parents, before, marks, Seq::<usize>::empty()),
        0 <= x < marks.len(),
    ensures
        !marks[x].contains(id),
    decreases x,
{
    if marks[x].contains(id) {
        assert(!on_stack(Seq::<usize>::empty(), x));
        assert(x > 0 && marks[parents[x]].contains(id));
        assert(0 <= parents[x] < x);
        lemma_sweep_done(id, parents, before, marks, kids, paths, parents[x]);
    }
}

/// After the sweep the trie holds the entries of the other ids.
pub proof fn lemma_sweep_finish(
    id: u64,
    entries: Set<(u64, Seq<char>)>,
    kids: Seq<Map<char, usize>>,
    paths: Seq<Seq<char>>,
    parents: Seq<int>,
    before: Seq<Set<u64>>,
    marks: Seq<Set<u64>>,
)
    requires
        shape_wf(kids, paths, parents),
        edges_complete(entries, kids, paths),
        marks_wf(entries, paths, before),
        sweep_inv(id, parents, before, marks, Seq::<usize>::empty()),
    ensures
        edges_complete(without(entries, id), kids, paths),
        marks_wf(without(entries, id), paths, marks),
{
    let after = without(entries, id);
    assert forall|i: int, other: u64, t: Seq<char>|
        0 <= i < kids.len() && #[trigger] after.contains((other, t)) && is_prefix(
            #[trigger] paths[i],
            t,
        ) && paths[i].len() < t.len() implies kids[i].contains_key(t[paths[i].len() as int]) by {
        assert(entries.contains((other, t)));
    }
    assert forall|i: int, other: u64| 0 <= i < paths.len() implies (#[trigger] marks[i].contains(
        other,
    ) <==> through(after, other, paths[i])) by {
        if other == id {
            lemma_sweep_done(id, parents, before, marks, kids, paths, i);
            if through(after, other, paths[i]) {
                let t = choose|t: Seq<char>| #[trigger] after.contains((other, t)) && is_prefix(paths[i], t);
                assert(false);
            }
        } else {
            assert(marks[i].contains(other) <==> before[i].contains(other));
            assert(before[i].contains(other) <==> through(entries, other, paths[i]));
            if through(entries, other, paths[i]) {
                let t = choose|t: Seq<char>| #[trigger] entries.contains((other, t)) && is_prefix(paths[i], t);
                assert(after.contains((other, t)));
            }
            if through(after, other, paths[i]) {
                let t = choose|t: Seq<char>| #[trigger] after.contains((other, t)) && is_prefix(paths[i], t);
                assert(entries.contains((other, t)));
            }
        }
    }
}

/// A node's ids are among its parent's.
pub proof fn lemma_mark_of_parent(
    entries: Set<(u64, Seq<char>)>,
    kids: Seq<Map<char, usize>>,
    paths: Seq<Seq<char>>,
    parents: Seq<int>,
    marks: Seq<Set<u64>>,
    x: int,
    id: u64,
)
    requires
        shape_wf(kids, paths, parents),
        marks_wf(entries, paths, marks),
        0 < x < paths.len(),
        marks[x].contains(id),
    ensures
        marks[parents[x]].contains(id),
{
    let p = parents[x];
    assert(0 <= p < x);
    assert(kids[p].contains_key(paths[x].last()));
    assert(paths[x] == paths[p].push(paths[x].last()));
    assert(through(entries, id, paths[x]));
    let t = choose|t: Seq<char>| #[trigger] entries.contains((id, t)) && is_prefix(paths[x], t);
    assert(paths[x].take(paths[p].len() as int) =~= paths[p]);
    assert(is_prefix(paths[p], paths[x]));
    lemma_prefix_trans(paths[p], paths[x], t);
    assert(through(entries, id, paths[p]));
}

/// The ids found below the nodes on `stack`, each with the part of `query`
/// that is still to match from the position kept with it.
pub open spec fn pending(
    entries: Set<(u64, Seq<char>)>,
    filter: Option<Set<u64>>,
    paths: Seq<Seq<char>>,
    query: Seq<char>,
    stack: Seq<(usize, usize)>,
) -> Set<u64> {
    Set::new(
        |id: u64|
            exists|k: int|
                0 <= k < stack.len() && #[trigger] found_below(
                    entries,
                    filter,
                    paths[stack[k].0 as int],
                    query.skip(stack[k].1 as int),
                ).contains(id),
    )
}

/// The position in the query after the edge labelled `c` has been followed
/// from position `pos`.
pub open spec fn next_pos(query: Seq<char>, pos: usize, c: char) -> usize {
    if pos < query.len() && query[pos as int] == c {
        (pos + 1) as usize
    } else {
        pos
    }
}

/// `stack` is `base` with one item added for each of `edges`: the child, and
/// the position in the query after the edge.
pub open spec fn pushed_children(
    query: Seq<char>,
    pos: usize,
    base: Seq<(usize, usize)>,
    edges: Seq<(char, usize)>,
    stack: Seq<(usize, usize)>,
) -> bool {
    &&& stack.len() == base.len() + edges.len()
    &&& forall|k: int| 0 <= k < base.len() ==> stack[k] == base[k]
    &&& forall|k: int|
        0 <= k < edges.len() ==> #[trigger] stack[base.len() + k] == (
            edges[k].1,
            next_pos(query, pos, edges[k].0),
        )
}

/// `edges` lists each edge of a node once.
pub open spec fn lists_edges(edges: Seq<(char, usize)>, of: Map<char, usize>) -> bool {
    &&& forall|k: int| 0 <= k < edges.len() ==> #[trigger] of.contains_key(edges[k].0) && of[edges[k].0] == edges[k].1
    &&& forall|c: char| of.contains_key(c) ==> exists|k: int| 0 <= k < edges.len() && #[trigger] edges[k].0 == c
    &&& forall|a: int, b: int| 0 <= a < b < edges.len() ==> edges[a].0 != edges[b].0
}

pub proof fn lemma_skip_advance(query: Seq<char>, pos: usize, c: char)
    requires
        pos < query.len() <= usize::MAX,
    ensures
        query.skip(next_pos(query, pos, c) as int) == advance(query.skip(pos as int), c),
        next_pos(query, pos, c) <= query.len(),
{
    assert(query.skip(pos as int)[0] == query[pos as int]);
    assert(query.skip(pos as int).drop_first() =~= query.skip(pos + 1));
}

/// With some of the query left, what is found below a node is what is found
/// below its children, each with what `advance` leaves of the query.
pub proof fn lemma_found_children(
    entries: Set<(u64, Seq<char>)>,
    filter: Option<Set<u64>>,
    kids: Seq<Map<char, usize>>,
    paths: Seq<Seq<char>>,
    parents: Seq<int>,
    i: int,
    rest: Seq<char>,
    id: u64,
)
    requires
        shape_wf(kids, paths, parents),
        edges_complete(entries, kids, paths),
        0 <= i < paths.len(),
        rest.len() > 0,
    ensures
        found_below(entries, filter, paths[i], rest).contains(id) <==> exists|c: char|
            kids[i].contains_key(c) && #[trigger] found_below(
                entries,
                filter,
                paths[kids[i][c] as int],
                advance(rest, c),
            ).contains(id),
{
    if found_below(entries, filter, paths[i], rest).contains(id) {
        let (s, c) = lemma_found_down(entries, filter, paths[i], rest, id);
        assert(kids[i].contains_key(c));
        assert(found_below(entries, filter, paths[kids[i][c] as int], advance(rest, c)).contains(id));
    }
    if exists|c: char|
        kids[i].contains_key(c) && #[trigger] found_below(
            entries,
            filter,
            paths[kids[i][c] as int],
            advance(rest, c),
        ).contains(id) {
        let c = choose|c: char|
            kids[i].contains_key(c) && #[trigger] found_below(
                entries,
                filter,
                paths[kids[i][c] as int],
                advance(rest, c),
            ).contains(id);
        lemma_found_up(entries, filter, paths[i], rest, c, id);
    }
}

/// Taking the last node off the stack takes what is found below it out of
/// what is pending.
pub proof fn lemma_pending_pop(
    entries: Set<(u64, Seq<char>)>,
    filter: Option<Set<u64>>,
    paths: Seq<Seq<char>>,
    query: Seq<char>,
    stack: Seq<(usize, usize)>,
    id: u64,
)
    requires
        stack.len() > 0,
    ensures
        pending(entries, filter, paths, query, stack).contains(id) <==> pending(
            entries,
            filter,
            paths,
            query,
            stack.drop_last(),
        ).contains(id) || found_below(
            entries,
            filter,
            paths[stack.last().0 as int],
            query.skip(stack.last().1 as int),
        ).contains(id),
{
    let base = stack.drop_last();
    if pending(entries, filter, paths, query, stack).contains(id) {
        let k = choose|k: int|
            0 <= k < stack.len() && #[trigger] found_below(
                entries,
                filter,
                paths[stack[k].0 as int],
                query.skip(stack[k].1 as int),
            ).contains(id);
        if k < stack.len() - 1 {
            assert(base[k] == stack[k]);
        }
    }
    if pending(entries, filter, paths, query, base).contains(id) {
        let k = choose|k: int|
            0 <= k < base.len() && #[trigger] found_below(
                entries,
                filter,
                paths[base[k].0 as int],
                query.skip(base[k].1 as int),
            ).contains(id);
        assert(base[k] == stack[k]);
    }
    if found_below(
        entries,
        filter,
        paths[stack.last().0 as int],
        query.skip(stack.last().1 as int),
    ).contains(id) {
        assert(stack[stack.len() - 1] == stack.last());
    }
}

/// Putting the children of a node on the stack puts what is found below the
/// node among what is pending.
pub proof fn lemma_pending_push(
    entries: Set<(u64, Seq<char>)>,
    filter: Option<Set<u64>>,
    kids: Seq<Map<char, usize>>,
    paths: Seq<Seq<char>>,
    parents: Seq<int>,
    query: Seq<char>,
    i: int,
    pos: usize,
    base: Seq<(usize, usize)>,
    edges: Seq<(char, usize)>,
    stack: Seq<(usize, usize)>,
    id: u64,
)
    requires
        shape_wf(kids, paths, parents),
        edges_complete(entries, kids, paths),
        0 <= i < paths.len(),
        pos < query.len() <= usize::MAX,
        lists_edges(edges, kids[i]),
        pushed_children(query, pos, base, edges, stack),
    ensures
        pending(entries, filter, paths, query, stack).contains(id) <==> pending(
            entries,
            filter,
            paths,
            query,
            base,
        ).contains(id) || found_below(entries, filter, paths[i], query.skip(pos as int)).contains(id),
{
    let rest = query.skip(pos as int);
    lemma_found_children(entries, filter, kids, paths, parents, i, rest, id);
    if pending(entries, filter, paths, query, stack).contains(id) {
        let k = choose|k: int|
            0 <= k < stack.len() && #[trigger] found_below(
                entries,
                filter,
                paths[stack[k].0 as int],
                query.skip(stack[k].1 as int),
            ).contains(id);
        if k < base.len() {
            assert(stack[k] == base[k]);
        } else {
            let j = k - base.len();
            assert(stack[base.len() + j] == (edges[j].1, next_pos(query, pos, edges[j].0)));
            lemma_skip_advance(query, pos, edges[j].0);
            assert(kids[i].contains_key(edges[j].0));
        }
    }
    if pending(entries, filter, paths, query, base).contains(id) {
        let k = choose|k: int|
            0 <= k < base.len() && #[trigger] found_below(
                entries,
                filter,
                paths[base[k].0 as int],
                query.skip(base[k].1 as int),
            ).contains(id);
        assert(stack[k] == base[k]);
    }
    if found_below(entries, filter, paths[i], rest).contains(id) {
        let c = choose|c: char|
            kids[i].contains_key(c) && #[trigger] found_below(
                entries,
                filter,
                paths[kids[i][c] as int],
                advance(rest, c),
            ).contains(id);
        let j = choose|j: int| 0 <= j < edges.len() && #[trigger] edges[j].0 == c;
        assert(kids[i].contains_key(edges[j].0));
        lemma_skip_advance(query, pos, c);
        let k = base.len() + j;
        assert(stack[k] == (edges[j].1, next_pos(query, pos, edges[j].0)));
        assert(found_below(
            entries,
            filter,
            paths[stack[k].0 as int],
            query.skip(stack[k].1 as int),
        ).contains(id));
    }
}

/// What keeps a search from visiting a node twice: the nodes in `seen` have
/// been taken off the stack, none of them is on it, no node is on it twice,
/// and a node gets onto it only after its parent has been taken off.
pub open spec fn hunt_inv(
    paths: Seq<Seq<char>>,
    parents: Seq<int>,
    seen: Set<int>,
    stack: Seq<(usize, usize)>,
) -> bool {
    &&& forall|x: int| seen.contains(x) ==> 0 <= x < paths.len()
    &&& forall|x: int| seen.contains(x) && x != 0 ==> seen.contains(#[trigger] parents[x])
    &&& forall|k: int|
        0 <= k < stack.len() ==> {
            &&& (#[trigger] stack[k]).0 < paths.len()
            &&& !seen.contains(stack[k].0 as int)
            &&& (stack[k].0 != 0 ==> seen.contains(parents[stack[k].0 as int]))
        }
    &&& forall|a: int, b: int| 0 <= a < b < stack.len() ==> (#[trigger] stack[a]).0 != (#[trigger] stack[b]).0
}

/// Taking a node off the stack adds one node to those that were seen, and
/// there are never more of them than nodes.
pub proof fn lemma_hunt_pop(
    paths: Seq<Seq<char>>,
    parents: Seq<int>,
    seen: Set<int>,
    stack: Seq<(usize, usize)>,
)
    requires
        hunt_inv(paths, parents, seen, stack),
        stack.len() > 0,
    ensures
        hunt_inv(paths, parents, seen.insert(stack.last().0 as int), stack.drop_last()),
        seen.finite(),
        seen.insert(stack.last().0 as int).len() == seen.len() + 1,
        seen.len() < paths.len(),
{
    let i = stack.last().0 as int;
    let base = stack.drop_last();
    let seen2 = seen.insert(i);
    let all = vstd::set_lib::set_int_range(0, paths.len() as int);
    vstd::set_lib::lemma_int_range(0, paths.len() as int);
    assert(stack[stack.len() - 1] == stack.last());
    assert(seen2.subset_of(all));
    assert(seen.subset_of(all));
    vstd::set_lib::lemma_len_subset(seen, all);
    vstd::set_lib::lemma_len_subset(seen2, all);
    assert forall|k: int| 0 <= k < base.len() implies {
        &&& (#[trigger] base[k]).0 < paths.len()
        &&& !seen2.contains(base[k].0 as int)
        &&& (base[k].0 != 0 ==> seen2.contains(parents[base[k].0 as int]))
    } by {
        assert(base[k] == stack[k]);
        assert(stack[k].0 != stack[stack.len() - 1].0);
    }
    assert forall|a: int, b: int| 0 <= a < b < base.len() implies (#[trigger] base[a]).0 != (#[trigger] base[b]).0 by {
        assert(base[a] == stack[a]);
        assert(base[b] == stack[b]);
    }
}

/// Putting the children of the node that was just taken off onto the stack
/// keeps the stack free of nodes that were seen and of repetitions.
pub proof fn lemma_hunt_push(
    kids: Seq<Map<char, usize>>,
    paths: Seq<Seq<char>>,
    parents: Seq<int>,
    seen: Set<int>,
    query: Seq<char>,
    i: int,
    pos: usize,
    base: Seq<(usize, usize)>,
    edges: Seq<(char, usize)>,
    stack: Seq<(usize, usize)>,
)
    requires
        shape_wf(kids, paths, parents),
        hunt_inv(paths, parents, seen.insert(i), base),
        !seen.contains(i),
        hunt_inv(paths, parents, seen, base),
        0 <= i < paths.len(),
        lists_edges(edges, kids[i]),
        pushed_children(query, pos, base, edges, stack),
    ensures
        hunt_inv(paths, parents, seen.insert(i), stack),
{
    let seen2 = seen.insert(i);
    assert forall|k: int| 0 <= k < stack.len() implies {
        &&& (#[trigger] stack[k]).0 < paths.len()
        &&& !seen2.contains(stack[k].0 as int)
        &&& (stack[k].0 != 0 ==> seen2.contains(parents[stack[k].0 as int]))
    } by {
        if k < base.len() {
            assert(stack[k] == base[k]);
        } else {
            let j = k - base.len();
            assert(stack[base.len() + j] == (edges[j].1, next_pos(query, pos, edges[j].0)));
            assert(kids[i].contains_key(edges[j].0));
            let x = edges[j].1 as int;
            assert(parents[x] == i);
            assert(x > i);
            if seen.contains(x) {
                assert(seen.contains(parents[x]));
            }
        }
    }
    assert forall|a: int, b: int| 0 <= a < b < stack.len() implies (#[trigger] stack[a]).0 != (#[trigger] stack[b]).0 by {
        if b < base.len() {
            assert(stack[a] == base[a]);
            assert(stack[b] == base[b]);
        } else {
            let jb = b - base.len();
            assert(stack[base.len() + jb] == (edges[jb].1, next_pos(query, pos, edges[jb].0)));
            assert(kids[i].contains_key(edges[jb].0));
            let xb = edges[jb].1 as int;
            assert(parents[xb] == i);
            if a < base.len() {
                assert(stack[a] == base[a]);
                assert(base[a].0 != 0 ==> seen.contains(parents[base[a].0 as int]));
                assert(xb > i);
            } else {
                let ja = a - base.len();
                assert(stack[base.len() + ja] == (edges[ja].1, next_pos(query, pos, edges[ja].0)));
                assert(kids[i].contains_key(edges[ja].0));
                let xa = edges[ja].1 as int;
                assert(paths[xa] == paths[i].push(edges[ja].0));
                assert(paths[xb] == paths[i].push(edges[jb].0));
                assert(paths[xa].last() == edges[ja].0);
                assert(paths[xb].last() == edges[jb].0);
                assert(edges[ja].0 != edges[jb].0);
            }
        }
    }
}

} // verus!
