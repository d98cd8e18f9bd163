//! A trie whose nodes keep, for each id, the depth still below them.

use vstd::prelude::*;
use rustc_hash::{FxHashMap, FxHashSet};
use crate::depth::{
    deep_enough, deep_walk_inv, depth_wf, doms, lemma_deep_descend, lemma_deep_finish,
    lemma_deep_grow, lemma_deep_reaches, lemma_deep_start, lemma_deep_sweep_finish,
    lemma_depth_marks, lemma_found_shallow, lemma_raised_dom, raised, recorded,
};
use crate::fx::{
    child_entries, child_get, child_insert, depth_entries, depth_get, depth_insert, depth_remove,
    filter_ids, id_set_contains, id_set_insert,
};
use crate::shape::{
    edges_complete, first_matching, found_below, holders, hunt_inv, lemma_found_at_end,
    lemma_found_is_matching, lemma_holders_shrink, lemma_hunt_pop, lemma_hunt_push,
    lemma_mark_of_parent, lemma_pending_pop, lemma_pending_push, lemma_sweep_done,
    lemma_sweep_finish, lemma_sweep_step, lemma_walk_descend, lemma_walk_finish, lemma_walk_grow,
    lemma_walk_start, lists_edges, next_pos, on_stack, pending, pushed_children, shape_wf,
    sweep_inv, through, walk_inv, without,
};
use crate::subsequence::is_prefix;

verus! {

/// One node: its edges, each to the place of a child among the nodes, and
/// for each id with a string through this node the depth still below it.
pub struct DepthNode {
    children: FxHashMap<char, usize>,
    id_to_depth: FxHashMap<u64, usize>,
}

/// The nodes of a trie, the root first, with the entries that the trie holds.
pub struct DepthTree {
    nodes: Vec<DepthNode>,
    paths: Ghost<Seq<Seq<char>>>,
    parents: Ghost<Seq<int>>,
    entries: Ghost<Set<(u64, Seq<char>)>>,
}

/// Raises the depth recorded for `id` to `depth` where it is less, or where
/// none is recorded.
fn raise(m: &mut FxHashMap<u64, usize>, id: u64, depth: usize)
    ensures
        final(m)@ == raised(old(m)@, id, depth),
{
    let keep = match depth_get(m, id) {
        Some(current) => current >= depth,
        None => false,
    };
    if !keep {
        depth_insert(m, id, depth);
    }
}

/// Adds every id that `m` has a depth for to `dst`.
fn union_keys_into(dst: &mut FxHashSet<u64>, m: &FxHashMap<u64, usize>)
    ensures
        final(dst)@ == old(dst)@.union(m@.dom()),
{
    let items = depth_entries(m);
    let mut k: usize = 0;
    while k < items.len()
        invariant
            0 <= k <= items.len(),
            forall|j: int| 0 <= j < items@.len() ==> #[trigger] m@.contains_key(items@[j].0),
            forall|id: u64| m@.contains_key(id) ==> exists|j: int| 0 <= j < items@.len() && #[trigger] items@[j].0 == id,
            forall|id: u64|
                dst@.contains(id) <==> old(dst)@.contains(id) || exists|j: int|
                    0 <= j < k && #[trigger] items@[j].0 == id,
        decreases items.len() - k,
    {
        id_set_insert(dst, items[k].0);
        k += 1;
    }
    assert forall|id: u64| m@.contains_key(id) implies dst@.contains(id) by {
        let j = choose|j: int| 0 <= j < items@.len() && #[trigger] items@[j].0 == id;
        assert(0 <= j < k && items@[j].0 == id);
    }
    assert forall|id: u64| dst@.contains(id) && !old(dst)@.contains(id) implies m@.contains_key(id) by {
        let j = choose|j: int| 0 <= j < k && #[trigger] items@[j].0 == id;
        assert(m@.contains_key(items@[j].0));
    }
    assert(dst@ =~= old(dst)@.union(m@.dom()));
}

/// Whether `filter` lets `id` through: without a filter always.
pub open spec fn passes(filter: Option<Set<u64>>, id: u64) -> bool {
    match filter {
        None => true,
        Some(f) => f.contains(id),
    }
}

impl DepthTree {
    /// The edges of each node.
    pub closed spec fn kids(&self) -> Seq<Map<char, usize>> {
        Seq::new(self.nodes@.len(), |i: int| self.nodes@[i].children@)
    }

    /// The depths that each node keeps.
    pub closed spec fn depths(&self) -> Seq<Map<u64, usize>> {
        Seq::new(self.nodes@.len(), |i: int| self.nodes@[i].id_to_depth@)
    }

    /// The entries that the trie holds: each id with each string that was
    /// added for it since the id was last deleted.
    pub closed spec fn entries(&self) -> Set<(u64, Seq<char>)> {
        self.entries@
    }

    /// The number of nodes.
    pub closed spec fn size(&self) -> nat {
        self.nodes@.len()
    }

    /// The nodes are laid out as a tree, have an edge wherever an entry goes
    /// on, and keep for each id that passes through them how far its longest
    /// string goes on.
    pub closed spec fn wf(&self) -> bool {
        &&& shape_wf(self.kids(), self.paths@, self.parents@)
        &&& edges_complete(self.entries@, self.kids(), self.paths@)
        &&& depth_wf(self.entries@, self.paths@, self.depths())
    }

    /// A trie that holds nothing: a root without edges or depths.
    pub fn new() -> (tree: Self)
        ensures
            tree.wf(),
            tree.entries() == Set::<(u64, Seq<char>)>::empty(),
            tree.size() == 1,
    {
        let root = DepthNode { children: FxHashMap::default(), id_to_depth: FxHashMap::default() };
        let mut nodes: Vec<DepthNode> = Vec::new();
        nodes.push(root);
        let ghost paths = Seq::<Seq<char>>::empty().push(Seq::<char>::empty());
        let ghost parents = Seq::<int>::empty().push(0int);
        let tree = DepthTree {
            nodes,
            paths: Ghost(paths),
            parents: Ghost(parents),
            entries: Ghost(Set::empty()),
        };
        assert(tree.kids()[0] == Map::<char, usize>::empty());
        assert(tree.depths()[0] == Map::<u64, usize>::empty());
        tree
    }

    /// Adds the entry `(id, s)`: follows `s` from the root, adds the nodes
    /// that are missing, and raises the depth of `id` at every node on the
    /// way to what is left of `s` there.
    pub fn insert(&mut self, id: u64, s: &Vec<char>)
        requires
            old(self).wf(),
        ensures
            final(self).wf(),
            final(self).entries() == old(self).entries().insert((id, s@)),
            old(self).size() <= final(self).size() <= old(self).size() + s@.len(),
    {
        let ghost before = self.entries@;
        let ghost depths0 = self.depths();
        let mut new_depth: usize = s.len();
        proof {
            lemma_depth_marks(before, self.paths@, depths0);
            lemma_walk_start(before, id, s@, self.kids(), self.paths@, self.parents@, doms(depths0));
            lemma_deep_start(before, id, s@, self.kids(), self.paths@, self.parents@, depths0);
        }
        raise(&mut self.nodes[0].id_to_depth, id, new_depth);
        proof {
            lemma_raised_dom(depths0[0], id, new_depth);
        }
        assert(self.depths() =~= depths0.update(0, raised(depths0[0], id, s@.len() as usize)));
        assert(doms(self.depths()) =~= doms(depths0).update(0, doms(depths0)[0].insert(id)));
        assert(self.kids() =~= old(self).kids());
        let mut cur: usize = 0;
        let mut k: usize = 0;
        while k < s.len()
            invariant
                0 <= k <= s.len(),
                new_depth == s.len() - k,
                cur < self.nodes.len(),
                old(self).nodes@.len() <= self.nodes@.len() <= old(self).nodes@.len() + k,
                self.entries@ == before,
                self.paths@[cur as int] == s@.take(k as int),
                walk_inv(
                    before,
                    id,
                    s@,
                    k as int,
                    self.kids(),
                    self.paths@,
                    self.parents@,
                    doms(self.depths()),
                ),
                deep_walk_inv(before, id, s@, k as int, self.paths@, self.depths()),
            decreases s.len() - k,
        {
            let c = s[k];
            let found = child_get(&self.nodes[cur].children, c);
            assert(self.kids()[cur as int] == self.nodes@[cur as int].children@);
            let next: usize = match found {
                Some(j) => j,
                None => {
                    let j = self.nodes.len();
                    let ghost kids1 = self.kids();
                    let ghost depths1 = self.depths();
                    proof {
                        lemma_walk_grow(
                            before,
                            id,
                            s@,
                            k as int,
                            kids1,
                            self.paths@,
                            self.parents@,
                            doms(depths1),
                            cur as int,
                        );
                        lemma_deep_grow(
                            before,
                            id,
                            s@,
                            k as int,
                            self.paths@,
                            depths1,
                            self.paths@[cur as int].push(c),
                        );
                    }
                    self.nodes.push(
                        DepthNode { children: FxHashMap::default(), id_to_depth: FxHashMap::default() },
                    );
                    child_insert(&mut self.nodes[cur].children, c, j);
                    proof {
                        self.paths@ = self.paths@.push(self.paths@[cur as int].push(c));
                        self.parents@ = self.parents@.push(cur as int);
                    }
                    assert(self.kids() =~= kids1.update(
                        cur as int,
                        kids1[cur as int].insert(c, j),
                    ).push(Map::empty()));
                    assert(self.depths() =~= depths1.push(Map::empty()));
                    assert(doms(self.depths()) =~= doms(depths1).push(Set::empty()));
                    j
                },
            };
            proof {
                lemma_walk_descend(
                    before,
                    id,
                    s@,
                    k as int,
                    self.kids(),
                    self.paths@,
                    self.parents@,
                    doms(self.depths()),
                    cur as int,
                );
                lemma_deep_descend(
                    before,
                    id,
                    s@,
                    k as int,
                    self.kids(),
                    self.paths@,
                    self.parents@,
                    self.depths(),
                    next as int,
                );
            }
            let ghost kids2 = self.kids();
            let ghost depths2 = self.depths();
            new_depth -= 1;
            raise(&mut self.nodes[next].id_to_depth, id, new_depth);
            proof {
                lemma_raised_dom(depths2[next as int], id, new_depth);
            }
            assert(self.depths() =~= depths2.update(
                next as int,
                raised(depths2[next as int], id, new_depth),
            ));
            assert(doms(self.depths()) =~= doms(depths2).update(
                next as int,
                doms(depths2)[next as int].insert(id),
            ));
            assert(self.kids() =~= kids2);
            cur = next;
            k += 1;
        }
        proof {
            assert(s@.take(s@.len() as int) =~= s@);
            lemma_walk_finish(
                before,
                id,
                s@,
                self.kids(),
                self.paths@,
                self.parents@,
                doms(self.depths()),
            );
            lemma_deep_finish(before, id, s@, self.paths@, self.depths());
            self.entries@ = before.insert((id, s@));
        }
    }

    /// Takes out every entry of `id`: visits the root and then, wherever a
    /// depth of `id` was found and taken out, the children of that node.
    pub fn erase(&mut self, id: u64)
        requires
            old(self).wf(),
        ensures
            final(self).wf(),
            final(self).entries() == without(old(self).entries(), id),
            final(self).size() == old(self).size(),
    {
        let ghost depths0 = self.depths();
        let ghost before = doms(depths0);
        let ghost kids = self.kids();
        let mut stack: Vec<usize> = Vec::new();
        stack.push(0);
        proof {
            lemma_depth_marks(self.entries@, self.paths@, depths0);
            assert(on_stack(stack@, 0)) by {
                assert(stack@[0] == 0);
            }
            assert forall|x: int| 0 <= x < before.len() && #[trigger] before[x].contains(id)
                implies on_stack(stack@, x) || (x > 0 && before[self.parents@[x]].contains(id)) by {
                if x > 0 {
                    lemma_mark_of_parent(self.entries@, kids, self.paths@, self.parents@, before, x, id);
                }
            }
        }
        while stack.len() > 0
            invariant
                self.kids() == kids,
                self.paths@ == old(self).paths@,
                self.parents@ == old(self).parents@,
                self.entries@ == old(self).entries@,
                shape_wf(kids, self.paths@, self.parents@),
                self.nodes@.len() == kids.len(),
                before == doms(depths0),
                depths0.len() == kids.len(),
                sweep_inv(id, self.parents@, before, doms(self.depths()), stack@),
                forall|x: int, other: u64|
                    0 <= x < kids.len() && other != id && #[trigger] depths0[x].contains_key(other)
                        ==> self.depths()[x][other] == depths0[x][other],
            decreases holders(doms(self.depths()), id).len(), stack.len(),
        {
            let ghost depths1 = self.depths();
            let ghost marks1 = doms(depths1);
            let ghost stack1 = stack@;
            let i = stack.pop().unwrap();
            assert(stack1[stack1.len() - 1] < marks1.len());
            assert(forall|k: int| 0 <= k < stack@.len() ==> stack@[k] == stack1[k]);
            if depth_remove(&mut self.nodes[i].id_to_depth, id).is_some() {
                assert(self.depths() =~= depths1.update(i as int, depths1[i as int].remove(id)));
                assert(doms(self.depths()) =~= marks1.update(i as int, marks1[i as int].remove(id)));
                assert(self.kids() =~= kids);
                proof {
                    lemma_holders_shrink(marks1, id, i as int);
                }
                let edges = child_entries(&self.nodes[i].children);
                assert(self.nodes@[i as int].children@ == kids[i as int]);
                let ghost base = stack@;
                let mut e: usize = 0;
                while e < edges.len()
                    invariant
                        0 <= e <= edges.len(),
                        0 <= i < kids.len(),
                        shape_wf(kids, self.paths@, self.parents@),
                        forall|k: int| 0 <= k < edges@.len() ==> #[trigger] kids[i as int].contains_key(edges@[k].0)
                            && kids[i as int][edges@[k].0] == edges@[k].1,
                        stack@.len() == base.len() + e,
                        forall|k: int| 0 <= k < base.len() ==> stack@[k] == base[k],
                        forall|k: int| 0 <= k < e ==> stack@[base.len() + k] == edges@[k].1,
                    decreases edges.len() - e,
                {
                    stack.push(edges[e].1);
                    e += 1;
                }
                proof {
                    assert forall|k: int| 0 <= k < stack@.len() implies #[trigger] stack@[k] < marks1.len() by {
                        if k < base.len() {
                            assert(stack@[k] == stack1[k]);
                        } else {
                            let j = k - base.len();
                            assert(stack@[base.len() + j] == edges@[j].1);
                            assert(kids[i as int].contains_key(edges@[j].0));
                        }
                    }
                    assert forall|k: int| 0 <= k < stack1.len() - 1 implies on_stack(
                        stack@,
                        #[trigger] stack1[k] as int,
                    ) by {
                        assert(stack@[k] == stack1[k]);
                    }
                    assert forall|c: char| #[trigger] kids[i as int].contains_key(c) implies on_stack(
                        stack@,
                        kids[i as int][c] as int,
                    ) by {
                        let j = choose|j: int| 0 <= j < edges@.len() && #[trigger] edges@[j].0 == c;
                        assert(stack@[base.len() + j] == edges@[j].1);
                    }
                    lemma_sweep_step(
                        id,
                        kids,
                        self.paths@,
                        self.parents@,
                        before,
                        marks1,
                        stack1,
                        doms(self.depths()),
                        stack@,
                    );
                }
            } else {
                assert(depths1[i as int].remove(id) =~= depths1[i as int]);
                assert(self.depths() =~= depths1);
                assert(self.kids() =~= kids);
                proof {
                    assert forall|k: int| 0 <= k < stack1.len() - 1 implies on_stack(
                        stack@,
                        #[trigger] stack1[k] as int,
                    ) by {
                        assert(stack@[k] == stack1[k]);
                    }
                    lemma_sweep_step(
                        id,
                        kids,
                        self.paths@,
                        self.parents@,
                        before,
                        marks1,
                        stack1,
                        doms(self.depths()),
                        stack@,
                    );
                }
            }
        }
        proof {
            assert(stack@ =~= Seq::<usize>::empty());
            let marks = doms(self.depths());
            lemma_sweep_finish(id, self.entries@, kids, self.paths@, self.parents@, before, marks);
            assert forall|x: int| 0 <= x < self.paths@.len() implies !(#[trigger] self.depths()[x]).contains_key(
                id,
            ) by {
                lemma_sweep_done(id, self.parents@, before, marks, kids, self.paths@, x);
                assert(marks[x] == self.depths()[x].dom());
            }
            assert forall|x: int, other: u64| 0 <= x < self.paths@.len() && other != id implies (
            #[trigger] self.depths()[x].contains_key(other) <==> depths0[x].contains_key(other)) by {
                assert(marks[x].contains(other) <==> before[x].contains(other));
            }
            lemma_deep_sweep_finish(id, self.entries@, self.paths@, depths0, self.depths());
            self.entries@ = without(self.entries@, id);
        }
    }

    /// Whether a search with `filter` and `need` characters of the query
    /// still to match goes on at the node at place `i`: when the greatest
    /// depth that the node keeps, among the ids of the filter where there is
    /// one, is at least `need`.
    fn admits(&self, i: usize, need: usize, filter: Option<&FxHashSet<u64>>) -> (go: bool)
        requires
            self.wf(),
            i < self.nodes.len(),
        ensures
            go == deep_enough(self.entries@, filter_ids(filter), self.paths@[i as int], need as int),
    {
        let ghost here = self.nodes@[i as int].id_to_depth@;
        let ghost f = filter_ids(filter);
        assert(self.depths()[i as int] == here);
        let items = depth_entries(&self.nodes[i].id_to_depth);
        let mut max_depth: Option<usize> = None;
        let mut k: usize = 0;
        while k < items.len()
            invariant
                0 <= k <= items.len(),
                f == filter_ids(filter),
                match max_depth {
                    None => forall|j: int| 0 <= j < k ==> !passes(f, (#[trigger] items@[j]).0),
                    Some(m) => {
                        &&& exists|j: int| 0 <= j < k && passes(f, (#[trigger] items@[j]).0) && items@[j].1 == m
                        &&& forall|j: int| 0 <= j < k && passes(f, (#[trigger] items@[j]).0) ==> items@[j].1 <= m
                    },
                },
            decreases items.len() - k,
        {
            let (id, depth) = items[k];
            let pass = match filter {
                Some(set) => id_set_contains(set, id),
                None => true,
            };
            if pass {
                let best = match max_depth {
                    Some(m) => if m >= depth {
                        m
                    } else {
                        depth
                    },
                    None => depth,
                };
                proof {
                    if let Some(m) = max_depth {
                        if m >= depth {
                            let j = choose|j: int| 0 <= j < k && passes(f, (#[trigger] items@[j]).0) && items@[j].1 == m;
                            assert(0 <= j < k + 1 && passes(f, items@[j].0) && items@[j].1 == best);
                        } else {
                            assert(passes(f, items@[k as int].0) && items@[k as int].1 == best);
                        }
                    } else {
                        assert(passes(f, items@[k as int].0) && items@[k as int].1 == best);
                    }
                }
                max_depth = Some(best);
            }
            k += 1;
        }
        let go = match max_depth {
            Some(m) => need <= m,
            None => false,
        };
        proof {
            let p = self.paths@[i as int];
            if go {
                let m = max_depth->0;
                let j = choose|j: int| 0 <= j < k && passes(f, (#[trigger] items@[j]).0) && items@[j].1 == m;
                let id = items@[j].0;
                assert(here.contains_key(items@[j].0));
                assert(self.depths()[i as int].contains_key(id));
                assert(recorded(self.entries@, id, p, here[id] as int));
                let t = choose|t: Seq<char>| #[trigger]
                    self.entries@.contains((id, t)) && is_prefix(p, t) && here[id] as int == t.len() - p.len();
                assert(passes(f, id) && self.entries@.contains((id, t)) && is_prefix(p, t) && t.len()
                    - p.len() >= need);
            }
            if deep_enough(self.entries@, f, p, need as int) {
                let (id, t) = choose|id: u64, t: Seq<char>|
                    passes(f, id) && #[trigger] self.entries@.contains((id, t)) && is_prefix(p, t) && t.len()
                        - p.len() >= need;
                assert(self.depths()[i as int].contains_key(id) && self.depths()[i as int][id] >= t.len()
                    - p.len());
                let j = choose|j: int| 0 <= j < items@.len() && #[trigger] items@[j].0 == id;
                assert(here.contains_key(items@[j].0) && here[items@[j].0] == items@[j].1);
                assert(passes(f, items@[j].0));
            }
        }
        go
    }

    /// The ids found by a search for `query`, with the nodes still to visit
    /// kept on a stack. A node below which no string, of an id of `filter`
    /// where there is one, goes on for as long as what is left of the query
    /// is left out with all that is below it.
    pub fn collect(
        &self,
        query: &Vec<char>,
        filter: Option<&FxHashSet<u64>>,
    ) -> (found: FxHashSet<u64>)
        requires
            self.wf(),
        ensures
            found@ == first_matching(self.entries(), query@, filter_ids(filter)),
    {
        let ghost target = found_below(self.entries@, filter_ids(filter), Seq::<char>::empty(), query@);
        let ghost f = filter_ids(filter);
        proof {
            lemma_found_is_matching(self.entries@, query@);
            lemma_depth_marks(self.entries@, self.paths@, self.depths());
        }
        let mut results: FxHashSet<u64> = FxHashSet::default();
        let mut stack: Vec<(usize, usize)> = Vec::new();
        stack.push((0, 0));
        let ghost mut seen: Set<int> = Set::empty();
        proof {
            assert(query@.skip(0) =~= query@);
            assert(self.paths@[0] =~= Seq::<char>::empty());
            assert forall|id: u64| target.contains(id) <==> pending(
                self.entries@,
                f,
                self.paths@,
                query@,
                stack@,
            ).contains(id) by {
                lemma_pending_pop(self.entries@, f, self.paths@, query@, stack@, id);
                assert(stack@.drop_last().len() == 0);
            }
        }
        while stack.len() > 0
            invariant
                self.wf(),
                f == filter_ids(filter),
                forall|k: int| 0 <= k < stack@.len() ==> (#[trigger] stack@[k]).1 <= query@.len(),
                hunt_inv(self.paths@, self.parents@, seen, stack@),
                seen.finite(),
                seen.len() <= self.paths@.len(),
                forall|id: u64|
                    target.contains(id) <==> results@.contains(id) || pending(
                        self.entries@,
                        f,
                        self.paths@,
                        query@,
                        stack@,
                    ).contains(id),
            decreases self.paths@.len() - seen.len(),
        {
            let ghost stack1 = stack@;
            let (i, pos) = stack.pop().unwrap();
            assert(stack1[stack1.len() - 1] == (i, pos));
            assert(stack@ =~= stack1.drop_last());
            proof {
                lemma_hunt_pop(self.paths@, self.parents@, seen, stack1);
                assert forall|id: u64|
                    target.contains(id) <==> results@.contains(id) || pending(
                        self.entries@,
                        f,
                        self.paths@,
                        query@,
                        stack@,
                    ).contains(id) || found_below(
                        self.entries@,
                        f,
                        self.paths@[i as int],
                        query@.skip(pos as int),
                    ).contains(id) by {
                    lemma_pending_pop(self.entries@, f, self.paths@, query@, stack1, id);
                }
            }
            let ghost rest = query@.skip(pos as int);
            if !self.admits(i, query.len() - pos, filter) {
                proof {
                    lemma_found_shallow(self.entries@, f, self.paths@[i as int], rest);
                }
            } else if pos == query.len() {
                assert(self.depths()[i as int] == self.nodes@[i as int].id_to_depth@);
                union_keys_into(&mut results, &self.nodes[i].id_to_depth);
                proof {
                    lemma_deep_reaches(self.entries@, f, self.paths@[i as int], rest.len() as int);
                    lemma_depth_marks(self.entries@, self.paths@, self.depths());
                    assert forall|id: u64|
                        self.nodes@[i as int].id_to_depth@.contains_key(id) <==> found_below(
                            self.entries@,
                            f,
                            self.paths@[i as int],
                            rest,
                        ).contains(id) by {
                        lemma_found_at_end(self.entries@, f, self.paths@[i as int], rest, id);
                        assert(doms(self.depths())[i as int].contains(id) <==> through(
                            self.entries@,
                            id,
                            self.paths@[i as int],
                        ));
                    }
                }
            } else {
                let edges = child_entries(&self.nodes[i].children);
                assert(self.kids()[i as int] == self.nodes@[i as int].children@);
                assert(lists_edges(edges@, self.kids()[i as int]));
                let ghost base = stack@;
                let mut e: usize = 0;
                while e < edges.len()
                    invariant
                        0 <= e <= edges.len(),
                        pos < query.len(),
                        stack@.len() == base.len() + e,
                        forall|k: int| 0 <= k < base.len() ==> stack@[k] == base[k],
                        forall|k: int|
                            0 <= k < e ==> #[trigger] stack@[base.len() + k] == (
                                edges@[k].1,
                                next_pos(query@, pos, edges@[k].0),
                            ),
                    decreases edges.len() - e,
                {
                    let (c, child) = edges[e];
                    let next = if c == query[pos] {
                        pos + 1
                    } else {
                        pos
                    };
                    stack.push((child, next));
                    e += 1;
                }
                proof {
                    assert(pushed_children(query@, pos, base, edges@, stack@));
                    lemma_hunt_push(
                        self.kids(),
                        self.paths@,
                        self.parents@,
                        seen,
                        query@,
                        i as int,
                        pos,
                        base,
                        edges@,
                        stack@,
                    );
                    assert forall|id: u64|
                        pending(self.entries@, f, self.paths@, query@, stack@).contains(id) <==> pending(
                            self.entries@,
                            f,
                            self.paths@,
                            query@,
                            base,
                        ).contains(id) || found_below(self.entries@, f, self.paths@[i as int], rest).contains(
                            id,
                        ) by {
                        lemma_pending_push(
                            self.entries@,
                            f,
                            self.kids(),
                            self.paths@,
                            self.parents@,
                            query@,
                            i as int,
                            pos,
                            base,
                            edges@,
                            stack@,
                            id,
                        );
                    }
                    assert forall|k: int| 0 <= k < stack@.len() implies (#[trigger] stack@[k]).1
                        <= query@.len() by {
                        if k < base.len() {
                            assert(stack@[k] == base[k]);
                            assert(base[k] == stack1[k]);
                        } else {
                            let j = k - base.len();
                            assert(stack@[base.len() + j] == (edges@[j].1, next_pos(query@, pos, edges@[j].0)));
                        }
                    }
                }
            }
            proof {
                seen = seen.insert(i as int);
            }
        }
        proof {
            assert forall|id: u64| !pending(self.entries@, f, self.paths@, query@, stack@).contains(id) by {}
            assert(results@ =~= target);
        }
        results
    }
}

} // verus!
