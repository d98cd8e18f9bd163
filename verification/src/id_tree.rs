//! A trie whose nodes are marked with sets of ids.

use vstd::prelude::*;
use rustc_hash::{FxHashMap, FxHashSet};
use crate::fx::{
    child_entries, child_get, child_insert, copy_of, filter_ids, id_set_insert, id_set_remove,
    intersects, union_into,
};
use crate::shape::{
    edges_complete, first_matching, found_below, holders, hunt_inv, lemma_found_at_end,
    lemma_found_children, lemma_found_is_matching, lemma_found_unreached, lemma_holders_shrink,
    lemma_hunt_pop, lemma_hunt_push, lemma_mark_of_parent, lemma_pending_pop, lemma_pending_push,
    lemma_skip_advance, lemma_sweep_finish, lemma_sweep_step, lemma_walk_descend,
    lemma_walk_finish, lemma_walk_grow, lemma_walk_start, lists_edges, marks_wf, matching,
    next_pos, on_stack, pending, pushed_children, reaches, shape_wf, sweep_inv, through,
    walk_inv, without,
};
use crate::subsequence::advance;

verus! {

/// One node: its edges, each to the place of a child among the nodes, and
/// the ids that have a string through this node.
pub struct IdNode {
    children: FxHashMap<char, usize>,
    ids: FxHashSet<u64>,
}

/// The nodes of a trie, the root first, with the entries that the trie holds.
pub struct IdTree {
    nodes: Vec<IdNode>,
    paths: Ghost<Seq<Seq<char>>>,
    parents: Ghost<Seq<int>>,
    entries: Ghost<Set<(u64, Seq<char>)>>,
}

impl IdTree {
    /// The edges of each node.
    pub closed spec fn kids(&self) -> Seq<Map<char, usize>> {
        Seq::new(self.nodes@.len(), |i: int| self.nodes@[i].children@)
    }

    /// The ids that each node is marked with.
    pub closed spec fn marks(&self) -> Seq<Set<u64>> {
        Seq::new(self.nodes@.len(), |i: int| self.nodes@[i].ids@)
    }

    /// The entries that the trie holds: each id with each string that was
    /// added for it since the id was last deleted.
    pub closed spec fn entries(&self) -> Set<(u64, Seq<char>)> {
        self.entries@
    }

    /// The number of nodes.
    pub closed spec fn size(&self) -> nat {
        self.nodes@.len()
    }

    /// The nodes are laid out as a tree, have an edge wherever an entry goes
    /// on, and are marked with the ids that pass through them.
    pub closed spec fn wf(&self) -> bool {
        &&& shape_wf(self.kids(), self.paths@, self.parents@)
        &&& edges_complete(self.entries@, self.kids(), self.paths@)
        &&& marks_wf(self.entries@, self.paths@, self.marks())
    }

    /// A trie that holds nothing: a root without edges or ids.
    pub fn new() -> (tree: Self)
        ensures
            tree.wf(),
            tree.entries() == Set::<(u64, Seq<char>)>::empty(),
            tree.size() == 1,
    {
        let root = IdNode { children: FxHashMap::default(), ids: FxHashSet::default() };
        let mut nodes: Vec<IdNode> = Vec::new();
        nodes.push(root);
        let ghost paths = Seq::<Seq<char>>::empty().push(Seq::<char>::empty());
        let ghost parents = Seq::<int>::empty().push(0int);
        let tree = IdTree {
            nodes,
            paths: Ghost(paths),
            parents: Ghost(parents),
            entries: Ghost(Set::empty()),
        };
        assert(tree.kids()[0] == Map::<char, usize>::empty());
        assert(tree.marks()[0] == Set::<u64>::empty());
        tree
    }

    /// Adds the entry `(id, s)`: follows `s` from the root, adds the nodes
    /// that are missing, and marks every node on the way with `id`.
    pub fn insert(&mut self, id: u64, s: &Vec<char>)
        requires
            old(self).wf(),
        ensures
            final(self).wf(),
            final(self).entries() == old(self).entries().insert((id, s@)),
            old(self).size() <= final(self).size() <= old(self).size() + s@.len(),
    {
        let ghost before = self.entries@;
        proof {
            lemma_walk_start(before, id, s@, self.kids(), self.paths@, self.parents@, self.marks());
        }
        let ghost marks0 = self.marks();
        id_set_insert(&mut self.nodes[0].ids, id);
        assert(self.marks() =~= marks0.update(0, marks0[0].insert(id)));
        assert(self.kids() =~= old(self).kids());
        let mut cur: usize = 0;
        let mut k: usize = 0;
        while k < s.len()
            invariant
                0 <= k <= s.len(),
                cur < self.nodes.len(),
                old(self).nodes@.len() <= self.nodes@.len() <= old(self).nodes@.len() + k,
                self.entries@ == before,
                self.paths@[cur as int] == s@.take(k as int),
                walk_inv(before, id, s@, k as int, self.kids(), self.paths@, self.parents@, self.marks()),
            decreases s.len() - k,
        {
            let c = s[k];
            let found = child_get(&self.nodes[cur].children, c);
            assert(self.kids()[cur as int] == self.nodes@[cur as int].children@);
            let next: usize = match found {
                Some(j) => j,
                None => {
                    let j = self.nodes.len();
                    let ghost kids1 = self.kids();
                    let ghost marks1 = self.marks();
                    proof {
                        lemma_walk_grow(
                            before,
                            id,
                            s@,
                            k as int,
                            kids1,
                            self.paths@,
                            self.parents@,
                            marks1,
                            cur as int,
                        );
                    }
                    self.nodes.push(IdNode { children: FxHashMap::default(), ids: FxHashSet::default() });
                    child_insert(&mut self.nodes[cur].children, c, j);
                    proof {
                        self.paths@ = self.paths@.push(self.paths@[cur as int].push(c));
                        self.parents@ = self.parents@.push(cur as int);
                    }
                    assert(self.kids() =~= kids1.update(
                        cur as int,
                        kids1[cur as int].insert(c, j),
                    ).push(Map::empty()));
                    assert(self.marks() =~= marks1.push(Set::empty()));
                    j
                },
            };
            proof {
                lemma_walk_descend(
                    before,
                    id,
                    s@,
                    k as int,
                    self.kids(),
                    self.paths@,
                    self.parents@,
                    self.marks(),
                    cur as int,
                );
            }
            let ghost kids2 = self.kids();
            let ghost marks2 = self.marks();
            id_set_insert(&mut self.nodes[next].ids, id);
            assert(self.marks() =~= marks2.update(next as int, marks2[next as int].insert(id)));
            assert(self.kids() =~= kids2);
            cur = next;
            k += 1;
        }
        proof {
            assert(s@.take(s@.len() as int) =~= s@);
            lemma_walk_finish(before, id, s@, self.kids(), self.paths@, self.parents@, self.marks());
            self.entries@ = before.insert((id, s@));
        }
    }

    /// Takes out every entry of `id`: visits the root and then, wherever the
    /// mark of `id` was found and taken off, the children of that node.
    pub fn erase(&mut self, id: u64)
        requires
            old(self).wf(),
        ensures
            final(self).wf(),
            final(self).entries() == without(old(self).entries(), id),
            final(self).size() == old(self).size(),
    {
        let ghost before = self.marks();
        let ghost kids = self.kids();
        let mut stack: Vec<usize> = Vec::new();
        stack.push(0);
        proof {
            assert(on_stack(stack@, 0)) by {
                assert(stack@[0] == 0);
            }
            assert forall|x: int| 0 <= x < before.len() && #[trigger] before[x].contains(id)
                implies on_stack(stack@, x) || (x > 0 && before[self.parents@[x]].contains(id)) by {
                if x > 0 {
                    lemma_mark_of_parent(self.entries@, kids, self.paths@, self.parents@, before, x, id);
                }
            }
        }
        while stack.len() > 0
            invariant
                self.kids() == kids,
                self.paths@ == old(self).paths@,
                self.parents@ == old(self).parents@,
                self.entries@ == old(self).entries@,
                shape_wf(kids, self.paths@, self.parents@),
                self.nodes@.len() == kids.len(),
                sweep_inv(id, self.parents@, before, self.marks(), stack@),
            decreases holders(self.marks(), id).len(), stack.len(),
        {
            let ghost marks1 = self.marks();
            let ghost stack1 = stack@;
            let i = stack.pop().unwrap();
            assert(stack1[stack1.len() - 1] < marks1.len());
            assert(forall|k: int| 0 <= k < stack@.len() ==> stack@[k] == stack1[k]);
            if id_set_remove(&mut self.nodes[i].ids, id) {
                assert(self.marks() =~= marks1.update(i as int, marks1[i as int].remove(id)));
                assert(self.kids() =~= kids);
                proof {
                    lemma_holders_shrink(marks1, id, i as int);
                }
                let edges = child_entries(&self.nodes[i].children);
                assert(self.nodes@[i as int].children@ == kids[i as int]);
                let ghost base = stack@;
                let mut e: usize = 0;
                while e < edges.len()
                    invariant
                        0 <= e <= edges.len(),
                        0 <= i < kids.len(),
                        shape_wf(kids, self.paths@, self.parents@),
                        forall|k: int| 0 <= k < edges@.len() ==> #[trigger] kids[i as int].contains_key(edges@[k].0)
                            && kids[i as int][edges@[k].0] == edges@[k].1,
                        stack@.len() == base.len() + e,
                        forall|k: int| 0 <= k < base.len() ==> stack@[k] == base[k],
                        forall|k: int| 0 <= k < e ==> stack@[base.len() + k] == edges@[k].1,
                    decreases edges.len() - e,
                {
                    stack.push(edges[e].1);
                    e += 1;
                }
                proof {
                    assert forall|k: int| 0 <= k < stack@.len() implies #[trigger] stack@[k] < marks1.len() by {
                        if k < base.len() {
                            assert(stack@[k] == stack1[k]);
                        } else {
                            let j = k - base.len();
                            assert(stack@[base.len() + j] == edges@[j].1);
                            assert(kids[i as int].contains_key(edges@[j].0));
                        }
                    }
                    assert forall|k: int| 0 <= k < stack1.len() - 1 implies on_stack(
                        stack@,
                        #[trigger] stack1[k] as int,
                    ) by {
                        assert(stack@[k] == stack1[k]);
                    }
                    assert forall|c: char| #[trigger] kids[i as int].contains_key(c) implies on_stack(
                        stack@,
                        kids[i as int][c] as int,
                    ) by {
                        let j = choose|j: int| 0 <= j < edges@.len() && #[trigger] edges@[j].0 == c;
                        assert(stack@[base.len() + j] == edges@[j].1);
                    }
                    lemma_sweep_step(
                        id,
                        kids,
                        self.paths@,
                        self.parents@,
                        before,
                        marks1,
                        stack1,
                        self.marks(),
                        stack@,
                    );
                }
            } else {
                assert(marks1[i as int].remove(id) =~= marks1[i as int]);
                assert(self.marks() =~= marks1);
                assert(self.kids() =~= kids);
                proof {
                    assert forall|k: int| 0 <= k < stack1.len() - 1 implies on_stack(
                        stack@,
                        #[trigger] stack1[k] as int,
                    ) by {
                        assert(stack@[k] == stack1[k]);
                    }
                    lemma_sweep_step(
                        id,
                        kids,
                        self.paths@,
                        self.parents@,
                        before,
                        marks1,
                        stack1,
                        self.marks(),
                        stack@,
                    );
                }
            }
        }
        proof {
            assert(stack@ =~= Seq::<usize>::empty());
            lemma_sweep_finish(
                id,
                self.entries@,
                kids,
                self.paths@,
                self.parents@,
                before,
                self.marks(),
            );
            self.entries@ = without(self.entries@, id);
        }
    }

    /// Whether a search with `filter` goes on at the node at place `i`:
    /// without a filter always, with one when the node is marked with an id
    /// of the filter.
    fn admits(&self, i: usize, filter: Option<&FxHashSet<u64>>) -> (go: bool)
        requires
            self.wf(),
            i < self.nodes.len(),
        ensures
            go == reaches(self.entries@, filter_ids(filter), self.paths@[i as int]),
    {
        assert(self.marks()[i as int] == self.nodes@[i as int].ids@);
        match filter {
            None => true,
            Some(f) => {
                let go = intersects(f, &self.nodes[i].ids);
                proof {
                    if go {
                        let id = choose|id: u64| f@.contains(id) && self.nodes@[i as int].ids@.contains(id);
                        assert(self.marks()[i as int].contains(id));
                        assert(through(self.entries@, id, self.paths@[i as int]));
                    }
                    if reaches(self.entries@, filter_ids(filter), self.paths@[i as int]) {
                        let id = choose|id: u64|
                            f@.contains(id) && #[trigger] through(self.entries@, id, self.paths@[i as int]);
                        assert(self.marks()[i as int].contains(id));
                    }
                }
                go
            },
        }
    }

    /// The ids found by a search for `query`, with the nodes still to visit
    /// kept on a stack. A node that is marked with no id of `filter` is left
    /// out with all that is below it.
    pub fn collect(
        &self,
        query: &Vec<char>,
        filter: Option<&FxHashSet<u64>>,
    ) -> (found: FxHashSet<u64>)
        requires
            self.wf(),
        ensures
            found@ == first_matching(self.entries(), query@, filter_ids(filter)),
    {
        let ghost target = found_below(self.entries@, filter_ids(filter), Seq::<char>::empty(), query@);
        let ghost f = filter_ids(filter);
        proof {
            lemma_found_is_matching(self.entries@, query@);
        }
        let mut results: FxHashSet<u64> = FxHashSet::default();
        let mut stack: Vec<(usize, usize)> = Vec::new();
        stack.push((0, 0));
        let ghost mut seen: Set<int> = Set::empty();
        proof {
            assert(query@.skip(0) =~= query@);
            assert(self.paths@[0] =~= Seq::<char>::empty());
            assert forall|id: u64| target.contains(id) <==> pending(
                self.entries@,
                f,
                self.paths@,
                query@,
                stack@,
            ).contains(id) by {
                lemma_pending_pop(self.entries@, f, self.paths@, query@, stack@, id);
                assert(stack@.drop_last().len() == 0);
            }
        }
        while stack.len() > 0
            invariant
                self.wf(),
                f == filter_ids(filter),
                forall|k: int| 0 <= k < stack@.len() ==> (#[trigger] stack@[k]).1 <= query@.len(),
                hunt_inv(self.paths@, self.parents@, seen, stack@),
                seen.finite(),
                seen.len() <= self.paths@.len(),
                forall|id: u64|
                    target.contains(id) <==> results@.contains(id) || pending(
                        self.entries@,
                        f,
                        self.paths@,
                        query@,
                        stack@,
                    ).contains(id),
            decreases self.paths@.len() - seen.len(),
        {
            let ghost stack1 = stack@;
            let (i, pos) = stack.pop().unwrap();
            assert(stack1[stack1.len() - 1] == (i, pos));
            assert(stack@ =~= stack1.drop_last());
            proof {
                lemma_hunt_pop(self.paths@, self.parents@, seen, stack1);
                assert forall|id: u64|
                    target.contains(id) <==> results@.contains(id) || pending(
                        self.entries@,
                        f,
                        self.paths@,
                        query@,
                        stack@,
                    ).contains(id) || found_below(
                        self.entries@,
                        f,
                        self.paths@[i as int],
                        query@.skip(pos as int),
                    ).contains(id) by {
                    lemma_pending_pop(self.entries@, f, self.paths@, query@, stack1, id);
                }
            }
            let ghost rest = query@.skip(pos as int);
            if !self.admits(i, filter) {
                proof {
                    lemma_found_unreached(self.entries@, f, self.paths@[i as int], rest);
                }
            } else if pos == query.len() {
                assert(self.marks()[i as int] == self.nodes@[i as int].ids@);
                union_into(&mut results, &self.nodes[i].ids);
                proof {
                    assert forall|id: u64|
                        self.nodes@[i as int].ids@.contains(id) <==> found_below(
                            self.entries@,
                            f,
                            self.paths@[i as int],
                            rest,
                        ).contains(id) by {
                        lemma_found_at_end(self.entries@, f, self.paths@[i as int], rest, id);
                        assert(self.marks()[i as int].contains(id) <==> through(
                            self.entries@,
                            id,
                            self.paths@[i as int],
                        ));
                    }
                }
            } else {
                let edges = child_entries(&self.nodes[i].children);
                assert(self.kids()[i as int] == self.nodes@[i as int].children@);
                assert(lists_edges(edges@, self.kids()[i as int]));
                let ghost base = stack@;
                let mut e: usize = 0;
                while e < edges.len()
                    invariant
                        0 <= e <= edges.len(),
                        pos < query.len(),
                        stack@.len() == base.len() + e,
                        forall|k: int| 0 <= k < base.len() ==> stack@[k] == base[k],
                        forall|k: int|
                            0 <= k < e ==> #[trigger] stack@[base.len() + k] == (
                                edges@[k].1,
                                next_pos(query@, pos, edges@[k].0),
                            ),
                    decreases edges.len() - e,
                {
                    let (c, child) = edges[e];
                    let next = if c == query[pos] {
                        pos + 1
                    } else {
                        pos
                    };
                    stack.push((child, next));
                    e += 1;
                }
                proof {
                    assert(pushed_children(query@, pos, base, edges@, stack@));
                    lemma_hunt_push(
                        self.kids(),
                        self.paths@,
                        self.parents@,
                        seen,
                        query@,
                        i as int,
                        pos,
                        base,
                        edges@,
                        stack@,
                    );
                    assert forall|id: u64|
                        pending(self.entries@, f, self.paths@, query@, stack@).contains(id) <==> pending(
                            self.entries@,
                            f,
                            self.paths@,
                            query@,
                            base,
                        ).contains(id) || found_below(self.entries@, f, self.paths@[i as int], rest).contains(
                            id,
                        ) by {
                        lemma_pending_push(
                            self.entries@,
                            f,
                            self.kids(),
                            self.paths@,
                            self.parents@,
                            query@,
                            i as int,
                            pos,
                            base,
                            edges@,
                            stack@,
                            id,
                        );
                    }
                    assert forall|k: int| 0 <= k < stack@.len() implies (#[trigger] stack@[k]).1
                        <= query@.len() by {
                        if k < base.len() {
                            assert(stack@[k] == base[k]);
                            assert(base[k] == stack1[k]);
                        } else {
                            let j = k - base.len();
                            assert(stack@[base.len() + j] == (edges@[j].1, next_pos(query@, pos, edges@[j].0)));
                        }
                    }
                }
            }
            proof {
                seen = seen.insert(i as int);
            }
        }
        proof {
            assert forall|id: u64| !pending(self.entries@, f, self.paths@, query@, stack@).contains(id) by {}
            assert(results@ =~= target);
        }
        results
    }

    /// The ids found at or below the node at place `i` with the query from
    /// position `pos` on still to match: the ids of the node where nothing is
    /// left of the query, else what is found below each child.
    fn collect_from(&self, i: usize, query: &Vec<char>, pos: usize) -> (found: FxHashSet<u64>)
        requires
            self.wf(),
            i < self.nodes.len(),
            pos <= query.len(),
        ensures
            found@ == found_below(self.entries@, None, self.paths@[i as int], query@.skip(pos as int)),
        decreases self.nodes.len() - i,
    {
        let ghost rest = query@.skip(pos as int);
        let ghost here = found_below(self.entries@, None, self.paths@[i as int], rest);
        if pos == query.len() {
            let found = copy_of(&self.nodes[i].ids);
            proof {
                assert forall|id: u64| found@.contains(id) <==> here.contains(id) by {
                    lemma_found_at_end(self.entries@, None, self.paths@[i as int], rest, id);
                    assert(self.marks()[i as int].contains(id) <==> through(
                        self.entries@,
                        id,
                        self.paths@[i as int],
                    ));
                }
                assert(found@ =~= here);
            }
            found
        } else {
            let edges = child_entries(&self.nodes[i].children);
            assert(self.kids()[i as int] == self.nodes@[i as int].children@);
            let mut results: FxHashSet<u64> = FxHashSet::default();
            let mut e: usize = 0;
            while e < edges.len()
                invariant
                    0 <= e <= edges.len(),
                    self.wf(),
                    i < self.nodes.len(),
                    pos < query.len(),
                    rest == query@.skip(pos as int),
                    lists_edges(edges@, self.kids()[i as int]),
                    forall|id: u64|
                        results@.contains(id) <==> exists|k: int|
                            0 <= k < e && #[trigger] found_below(
                                self.entries@,
                                None,
                                self.paths@[edges@[k].1 as int],
                                advance(rest, edges@[k].0),
                            ).contains(id),
                decreases edges.len() - e,
            {
                let (c, child) = edges[e];
                assert(self.kids()[i as int].contains_key(edges@[e as int].0));
                let next = if c == query[pos] {
                    pos + 1
                } else {
                    pos
                };
                proof {
                    lemma_skip_advance(query@, pos, c);
                }
                let below = self.collect_from(child, query, next);
                let ghost results1 = results@;
                union_into(&mut results, &below);
                proof {
                    assert forall|id: u64|
                        results@.contains(id) <==> exists|k: int|
                            0 <= k < e + 1 && #[trigger] found_below(
                                self.entries@,
                                None,
                                self.paths@[edges@[k].1 as int],
                                advance(rest, edges@[k].0),
                            ).contains(id) by {
                        if results1.contains(id) {
                            let k = choose|k: int|
                                0 <= k < e && #[trigger] found_below(
                                    self.entries@,
                                    None,
                                    self.paths@[edges@[k].1 as int],
                                    advance(rest, edges@[k].0),
                                ).contains(id);
                            assert(0 <= k < e + 1);
                        }
                        if below@.contains(id) {
                            assert(found_below(
                                self.entries@,
                                None,
                                self.paths@[edges@[e as int].1 as int],
                                advance(rest, edges@[e as int].0),
                            ).contains(id));
                        }
                    }
                }
                e += 1;
            }
            proof {
                assert forall|id: u64| results@.contains(id) <==> here.contains(id) by {
                    lemma_found_children(
                        self.entries@,
                        None,
                        self.kids(),
                        self.paths@,
                        self.parents@,
                        i as int,
                        rest,
                        id,
                    );
                    if results@.contains(id) {
                        let k = choose|k: int|
                            0 <= k < e && #[trigger] found_below(
                                self.entries@,
                                None,
                                self.paths@[edges@[k].1 as int],
                                advance(rest, edges@[k].0),
                            ).contains(id);
                        assert(self.kids()[i as int].contains_key(edges@[k].0));
                    }
                    if here.contains(id) {
                        let c = choose|c: char|
                            self.kids()[i as int].contains_key(c) && #[trigger] found_below(
                                self.entries@,
                                None,
                                self.paths@[self.kids()[i as int][c] as int],
                                advance(rest, c),
                            ).contains(id);
                        let k = choose|k: int| 0 <= k < edges@.len() && #[trigger] edges@[k].0 == c;
                        assert(self.kids()[i as int].contains_key(edges@[k].0));
                        assert(found_below(
                            self.entries@,
                            None,
                            self.paths@[edges@[k].1 as int],
                            advance(rest, edges@[k].0),
                        ).contains(id));
                    }
                }
                assert(results@ =~= here);
            }
            results
        }
    }

    /// The ids found by a search for `query` that goes down the trie from
    /// the root, each node asking its children in turn.
    pub fn collect_rec(&self, query: &Vec<char>) -> (found: FxHashSet<u64>)
        requires
            self.wf(),
        ensures
            found@ == matching(self.entries(), query@),
    {
        proof {
            lemma_found_is_matching(self.entries@, query@);
            assert(query@.skip(0) =~= query@);
            assert(self.paths@[0] =~= Seq::<char>::empty());
        }
        self.collect_from(0, query, 0)
    }

    /// Follows `s` from its place `k` on below the node at place `cur`, which
    /// is marked already: marks the child for the next character, adding it
    /// where it is missing, and goes on below that child.
    fn insert_below(
        &mut self,
        cur: usize,
        id: u64,
        s: &Vec<char>,
        k: usize,
        Ghost(before): Ghost<Set<(u64, Seq<char>)>>,
    )
        requires
            0 <= k <= s.len(),
            cur < old(self).nodes.len(),
            old(self).entries@ == before,
            old(self).paths@[cur as int] == s@.take(k as int),
            walk_inv(
                before,
                id,
                s@,
                k as int,
                old(self).kids(),
                old(self).paths@,
                old(self).parents@,
                old(self).marks(),
            ),
        ensures
            final(self).entries@ == before,
            old(self).nodes@.len() <= final(self).nodes@.len() <= old(self).nodes@.len() + s@.len() - k,
            walk_inv(
                before,
                id,
                s@,
                s@.len() as int,
                final(self).kids(),
                final(self).paths@,
                final(self).parents@,
                final(self).marks(),
            ),
        decreases s.len() - k,
    {
        if k == s.len() {
            return;
        }
        let c = s[k];
        let found = child_get(&self.nodes[cur].children, c);
        assert(self.kids()[cur as int] == self.nodes@[cur as int].children@);
        let next: usize = match found {
            Some(j) => j,
            None => {
                let j = self.nodes.len();
                let ghost kids1 = self.kids();
                let ghost marks1 = self.marks();
                proof {
                    lemma_walk_grow(
                        before,
                        id,
                        s@,
                        k as int,
                        kids1,
                        self.paths@,
                        self.parents@,
                        marks1,
                        cur as int,
                    );
                }
                self.nodes.push(IdNode { children: FxHashMap::default(), ids: FxHashSet::default() });
                child_insert(&mut self.nodes[cur].children, c, j);
                proof {
                    self.paths@ = self.paths@.push(self.paths@[cur as int].push(c));
                    self.parents@ = self.parents@.push(cur as int);
                }
                assert(self.kids() =~= kids1.update(cur as int, kids1[cur as int].insert(c, j)).push(
                    Map::empty(),
                ));
                assert(self.marks() =~= marks1.push(Set::empty()));
                j
            },
        };
        proof {
            lemma_walk_descend(
                before,
                id,
                s@,
                k as int,
                self.kids(),
                self.paths@,
                self.parents@,
                self.marks(),
                cur as int,
            );
        }
        let ghost kids2 = self.kids();
        let ghost marks2 = self.marks();
        id_set_insert(&mut self.nodes[next].ids, id);
        assert(self.marks() =~= marks2.update(next as int, marks2[next as int].insert(id)));
        assert(self.kids() =~= kids2);
        self.insert_below(next, id, s, k + 1, Ghost(before));
    }

    /// Adds the entry `(id, s)` as `insert` does, each node handing the rest
    /// of `s` on to its child.
    pub fn insert_rec(&mut self, id: u64, s: &Vec<char>)
        requires
            old(self).wf(),
        ensures
            final(self).wf(),
            final(self).entries() == old(self).entries().insert((id, s@)),
            old(self).size() <= final(self).size() <= old(self).size() + s@.len(),
    {
        let ghost before = self.entries@;
        proof {
            lemma_walk_start(before, id, s@, self.kids(), self.paths@, self.parents@, self.marks());
        }
        let ghost marks0 = self.marks();
        id_set_insert(&mut self.nodes[0].ids, id);
        assert(self.marks() =~= marks0.update(0, marks0[0].insert(id)));
        assert(self.kids() =~= old(self).kids());
        self.insert_below(0, id, s, 0, Ghost(before));
        proof {
            lemma_walk_finish(before, id, s@, self.kids(), self.paths@, self.parents@, self.marks());
            self.entries@ = before.insert((id, s@));
        }
    }

    /// Takes the mark of `id` off the node at place `i` and, where it was
    /// there, off every node below it that has it. `waiting` are the nodes
    /// that the callers have still to visit.
    fn erase_from(
        &mut self,
        i: usize,
        id: u64,
        Ghost(before): Ghost<Seq<Set<u64>>>,
        Ghost(waiting): Ghost<Seq<usize>>,
    )
        requires
            shape_wf(old(self).kids(), old(self).paths@, old(self).parents@),
            sweep_inv(id, old(self).parents@, before, old(self).marks(), waiting.push(i)),
        ensures
            final(self).kids() == old(self).kids(),
            final(self).paths@ == old(self).paths@,
            final(self).parents@ == old(self).parents@,
            final(self).entries@ == old(self).entries@,
            sweep_inv(id, final(self).parents@, before, final(self).marks(), waiting),
        decreases old(self).nodes.len() - i,
    {
        let ghost kids = self.kids();
        let ghost marks1 = self.marks();
        let ghost stack1 = waiting.push(i);
        assert(stack1[stack1.len() - 1] == i);
        assert(stack1.last() == i);
        assert(i < marks1.len());
        assert(forall|k: int| 0 <= k < waiting.len() ==> waiting[k] == stack1[k]);
        if id_set_remove(&mut self.nodes[i].ids, id) {
            assert(self.marks() =~= marks1.update(i as int, marks1[i as int].remove(id)));
            assert(self.kids() =~= kids);
            let edges = child_entries(&self.nodes[i].children);
            assert(self.nodes@[i as int].children@ == kids[i as int]);
            let ghost children = Seq::new(edges@.len(), |k: int| edges@[k].1);
            proof {
                let stack2 = waiting + children;
                assert forall|k: int| 0 <= k < stack2.len() implies #[trigger] stack2[k] < marks1.len() by {
                    if k < waiting.len() {
                        assert(stack2[k] == stack1[k]);
                    } else {
                        let j = k - waiting.len();
                        assert(stack2[k] == edges@[j].1);
                        assert(kids[i as int].contains_key(edges@[j].0));
                    }
                }
                assert forall|k: int| 0 <= k < stack1.len() - 1 implies on_stack(
                    stack2,
                    #[trigger] stack1[k] as int,
                ) by {
                    assert(stack2[k] == stack1[k]);
                }
                assert forall|c: char| #[trigger] kids[i as int].contains_key(c) implies on_stack(
                    stack2,
                    kids[i as int][c] as int,
                ) by {
                    let j = choose|j: int| 0 <= j < edges@.len() && #[trigger] edges@[j].0 == c;
                    assert(stack2[waiting.len() + j] == edges@[j].1);
                }
                lemma_sweep_step(
                    id,
                    kids,
                    self.paths@,
                    self.parents@,
                    before,
                    marks1,
                    stack1,
                    self.marks(),
                    stack2,
                );
                assert(children.take(edges@.len() as int) =~= children);
            }
            let mut e: usize = edges.len();
            while e > 0
                invariant
                    0 <= e <= edges.len(),
                    i < kids.len(),
                    self.kids() == kids,
                    self.nodes@.len() == kids.len(),
                    kids.len() == old(self).nodes@.len(),
                    self.paths@ == old(self).paths@,
                    self.parents@ == old(self).parents@,
                    self.entries@ == old(self).entries@,
                    shape_wf(kids, self.paths@, self.parents@),
                    children == Seq::new(edges@.len(), |k: int| edges@[k].1),
                    forall|k: int| 0 <= k < edges@.len() ==> #[trigger] kids[i as int].contains_key(edges@[k].0)
                        && kids[i as int][edges@[k].0] == edges@[k].1,
                    sweep_inv(id, self.parents@, before, self.marks(), waiting + children.take(e as int)),
                decreases e,
            {
                e -= 1;
                let child = edges[e].1;
                assert(kids[i as int].contains_key(edges@[e as int].0));
                assert(i < child < kids.len());
                assert(waiting + children.take(e + 1) =~= (waiting + children.take(e as int)).push(child));
                self.erase_from(child, id, Ghost(before), Ghost(waiting + children.take(e as int)));
            }
            assert(waiting + children.take(0) =~= waiting);
        } else {
            assert(marks1[i as int].remove(id) =~= marks1[i as int]);
            assert(self.marks() =~= marks1);
            assert(self.kids() =~= kids);
            proof {
                assert forall|k: int| 0 <= k < stack1.len() - 1 implies on_stack(
                    waiting,
                    #[trigger] stack1[k] as int,
                ) by {
                    assert(waiting[k] == stack1[k]);
                }
                lemma_sweep_step(
                    id,
                    kids,
                    self.paths@,
                    self.parents@,
                    before,
                    marks1,
                    stack1,
                    self.marks(),
                    waiting,
                );
            }
        }
    }

    /// Takes out every entry of `id` as `erase` does, each node that held
    /// the mark handing the task on to its children.
    pub fn erase_rec(&mut self, id: u64)
        requires
            old(self).wf(),
        ensures
            final(self).wf(),
            final(self).entries() == without(old(self).entries(), id),
            final(self).size() == old(self).size(),
    {
        let ghost before = self.marks();
        let ghost kids = self.kids();
        let ghost start = Seq::<usize>::empty().push(0usize);
        proof {
            assert(on_stack(start, 0)) by {
                assert(start[0] == 0);
            }
            assert forall|x: int| 0 <= x < before.len() && #[trigger] before[x].contains(id)
                implies on_stack(start, x) || (x > 0 && before[self.parents@[x]].contains(id)) by {
                if x > 0 {
                    lemma_mark_of_parent(self.entries@, kids, self.paths@, self.parents@, before, x, id);
                }
            }
        }
        self.erase_from(0, id, Ghost(before), Ghost(Seq::empty()));
        proof {
            lemma_sweep_finish(
                id,
                self.entries@,
                kids,
                self.paths@,
                self.parents@,
                before,
                self.marks(),
            );
            self.entries@ = without(self.entries@, id);
        }
    }
}

} // verus!
