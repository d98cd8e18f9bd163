//! The tries that index the strings of the records: four ways to search one
//! kind of index.
//!
//! A trie holds entries, each an id with a string that was added for it. A
//! search for a query finds the ids with a string that holds the query as a
//! subsequence; a search for several queries finds the ids that every query
//! finds.

use vstd::prelude::*;
use rustc_hash::FxHashSet;
use crate::fx::{filter_ids, intersection};
use crate::depth_tree::DepthTree;
use crate::id_tree::IdTree;
use crate::shape::{first_matching, lemma_matching_near_bounds, matching, matching_all, without};
use crate::subsequence::chars_of;

verus! {

/// The strings of a list of string slices.
pub open spec fn texts(strings: Seq<&str>) -> Seq<Seq<char>> {
    Seq::new(strings.len(), |k: int| strings[k]@)
}

/// The entries that adding the strings `inserts` for `id` brings.
pub open spec fn added(id: u64, inserts: Seq<Seq<char>>) -> Set<(u64, Seq<char>)> {
    Set::new(|e: (u64, Seq<char>)| e.0 == id && inserts.contains(e.1))
}

/// What a search for `queries` finds among `entries`: nothing where there is
/// no query; else what the first query finds, with the filter where there is
/// one, less the ids that one of the other queries does not match.
pub open spec fn search_result(
    entries: Set<(u64, Seq<char>)>,
    queries: Seq<Seq<char>>,
    filter: Option<Set<u64>>,
) -> Set<u64> {
    if queries.len() == 0 {
        Set::empty()
    } else {
        first_matching(entries, queries[0], filter).intersect(matching_all(entries, queries.drop_first()))
    }
}

/// An index from strings to the ids of the records that hold them.
pub trait Trie: Sized {
    /// The index is in order.
    spec fn wf(&self) -> bool;

    /// The entries that the index holds: each id with each string that was
    /// added for it since the id was last deleted.
    spec fn entries(&self) -> Set<(u64, Seq<char>)>;

    /// Adds each of `inserts` for `id`.
    fn add(&mut self, id: u64, inserts: Vec<&str>)
        requires
            old(self).wf(),
        ensures
            final(self).wf(),
            final(self).entries() == old(self).entries().union(added(id, texts(inserts@))),
    ;

    /// The ids that match every one of `searches`. With a filter, ids outside
    /// the filter may be left out; no id of the filter that matches is.
    fn search(
        &self,
        searches: Vec<&str>,
        filter: Option<&FxHashSet<u64>>,
    ) -> (found: FxHashSet<u64>)
        requires
            self.wf(),
        ensures
            searches@.len() == 0 ==> found@ == Set::<u64>::empty(),
            searches@.len() > 0 ==> found@.subset_of(matching_all(self.entries(), texts(searches@))),
            searches@.len() > 0 ==> match filter {
                None => matching_all(self.entries(), texts(searches@)).subset_of(found@),
                Some(f) => matching_all(self.entries(), texts(searches@)).intersect(f@).subset_of(found@),
            },
    ;

    /// Takes out every entry of `id`.
    fn delete(&mut self, id: u64)
        requires
            old(self).wf(),
        ensures
            final(self).wf(),
            final(self).entries() == without(old(self).entries(), id),
    ;
}

/// One more string adds one more entry.
pub proof fn lemma_added_step(id: u64, inserts: Seq<Seq<char>>, k: int)
    requires
        0 <= k < inserts.len(),
    ensures
        added(id, inserts.take(k + 1)) =~= added(id, inserts.take(k)).insert((id, inserts[k])),
{
    let done = inserts.take(k);
    let more = inserts.take(k + 1);
    assert(more =~= done.push(inserts[k]));
    assert forall|e: (u64, Seq<char>)| added(id, more).contains(e) <==> added(id, done).contains(e) || e
        == (id, inserts[k]) by {
        if e.0 == id && more.contains(e.1) {
            let j = choose|j: int| 0 <= j < more.len() && more[j] == e.1;
            if j < k {
                assert(done[j] == e.1);
            }
        }
        if e.0 == id && done.contains(e.1) {
            let j = choose|j: int| 0 <= j < done.len() && done[j] == e.1;
            assert(more[j] == e.1);
        }
        if e == (id, inserts[k]) {
            assert(more[k] == inserts[k]);
        }
    }
}

/// Adds each of `inserts` for `id` to `tree`, with `IdTree::insert_rec` or
/// with `IdTree::insert`.
fn add_all(tree: &mut IdTree, id: u64, inserts: &Vec<&str>, down: bool)
    requires
        old(tree).wf(),
    ensures
        final(tree).wf(),
        final(tree).entries() == old(tree).entries().union(added(id, texts(inserts@))),
        old(tree).size() <= final(tree).size(),
{
    let mut k: usize = 0;
    while k < inserts.len()
        invariant
            0 <= k <= inserts.len(),
            tree.wf(),
            old(tree).size() <= tree.size(),
            tree.entries() == old(tree).entries().union(added(id, texts(inserts@).take(k as int))),
        decreases inserts.len() - k,
    {
        let s = chars_of(inserts[k]);
        if down {
            tree.insert_rec(id, &s);
        } else {
            tree.insert(id, &s);
        }
        proof {
            lemma_added_step(id, texts(inserts@), k as int);
            assert(texts(inserts@)[k as int] == s@);
            assert(tree.entries() =~= old(tree).entries().union(added(id, texts(inserts@).take(k + 1))));
        }
        k += 1;
    }
    proof {
        assert(texts(inserts@).take(inserts@.len() as int) =~= texts(inserts@));
    }
}

/// One more query narrows what all the queries before it match to what
/// it matches too.
pub proof fn lemma_matching_all_step(
    entries: Set<(u64, Seq<char>)>,
    queries: Seq<Seq<char>>,
    k: int,
)
    requires
        0 <= k < queries.len(),
    ensures
        matching_all(entries, queries.take(k + 1)) =~= matching_all(entries, queries.take(k)).intersect(
            matching(entries, queries[k]),
        ),
{
    let less = queries.take(k);
    let more = queries.take(k + 1);
    assert forall|id: u64| matching_all(entries, more).contains(id) implies matching_all(
        entries,
        less,
    ).contains(id) && matching(entries, queries[k]).contains(id) by {
        assert(more[k] == queries[k]);
        assert(matching(entries, more[k]).contains(id));
        assert forall|j: int| 0 <= j < less.len() implies #[trigger] matching(entries, less[j]).contains(
            id,
        ) by {
            assert(more[j] == less[j]);
            assert(matching(entries, more[j]).contains(id));
        }
    }
    assert forall|id: u64|
        matching_all(entries, less).contains(id) && matching(entries, queries[k]).contains(
            id,
        ) implies matching_all(entries, more).contains(id) by {
        assert forall|j: int| 0 <= j < more.len() implies #[trigger] matching(entries, more[j]).contains(
            id,
        ) by {
            if j < k {
                assert(more[j] == less[j]);
                assert(matching(entries, less[j]).contains(id));
            }
        }
    }
}

/// What a search finds lies between the ids of the filter that match every
/// query and the ids that match every query; without a filter it is the ids
/// that match every query.
pub proof fn lemma_search_result_bounds(
    entries: Set<(u64, Seq<char>)>,
    queries: Seq<Seq<char>>,
    filter: Option<Set<u64>>,
)
    requires
        queries.len() > 0,
    ensures
        search_result(entries, queries, filter).subset_of(matching_all(entries, queries)),
        match filter {
            None => search_result(entries, queries, filter) =~= matching_all(entries, queries),
            Some(f) => matching_all(entries, queries).intersect(f).subset_of(
                search_result(entries, queries, filter),
            ),
        },
{
    let rest = queries.drop_first();
    let found = search_result(entries, queries, filter);
    let all = matching_all(entries, queries);
    if let Some(f) = filter {
        lemma_matching_near_bounds(entries, queries[0], f);
    }
    assert forall|id: u64| found.contains(id) implies all.contains(id) by {
        assert(matching(entries, queries[0]).contains(id));
        assert forall|j: int| 0 <= j < queries.len() implies #[trigger] matching(entries, queries[j]).contains(
            id,
        ) by {
            if j > 0 {
                assert(rest[j - 1] == queries[j]);
                assert(matching(entries, rest[j - 1]).contains(id));
            }
        }
    }
    assert forall|id: u64| all.contains(id) implies matching_all(entries, rest).contains(id) && matching(
        entries,
        queries[0],
    ).contains(id) by {
        assert(matching(entries, queries[0]).contains(id));
        assert forall|j: int| 0 <= j < rest.len() implies #[trigger] matching(entries, rest[j]).contains(
            id,
        ) by {
            assert(rest[j] == queries[j + 1]);
            assert(matching(entries, queries[j + 1]).contains(id));
        }
    }
}

/// The ids that match every one of `searches`, each query searched from the
/// root down with `IdTree::collect_rec` or with `IdTree::collect`.
fn search_each(tree: &IdTree, searches: &Vec<&str>, down: bool) -> (found: FxHashSet<u64>)
    requires
        tree.wf(),
    ensures
        found@ == search_result(tree.entries(), texts(searches@), None),
{
    if searches.len() == 0 {
        return FxHashSet::default();
    }
    let ghost queries = texts(searches@);
    let first = chars_of(searches[0]);
    let mut found = if down {
        tree.collect_rec(&first)
    } else {
        tree.collect(&first, None)
    };
    let mut k: usize = 1;
    proof {
        assert(queries.drop_first().take(0) =~= Seq::<Seq<char>>::empty());
        assert(found@ =~= matching(tree.entries(), queries[0]).intersect(
            matching_all(tree.entries(), queries.drop_first().take(0)),
        ));
    }
    while k < searches.len()
        invariant
            1 <= k <= searches.len(),
            tree.wf(),
            queries == texts(searches@),
            found@ == matching(tree.entries(), queries[0]).intersect(
                matching_all(tree.entries(), queries.drop_first().take(k - 1)),
            ),
        decreases searches.len() - k,
    {
        let query = chars_of(searches[k]);
        let next = if down {
            tree.collect_rec(&query)
        } else {
            tree.collect(&query, None)
        };
        found = intersection(&found, &next);
        proof {
            lemma_matching_all_step(tree.entries(), queries.drop_first(), k - 1);
            assert(queries.drop_first()[k - 1] == queries[k as int]);
            assert(found@ =~= matching(tree.entries(), queries[0]).intersect(
                matching_all(tree.entries(), queries.drop_first().take(k as int)),
            ));
        }
        k += 1;
    }
    proof {
        assert(queries.drop_first().take(searches@.len() - 1) =~= queries.drop_first());
    }
    found
}

/// The ids that match every one of `searches`: the first query is searched
/// with `filter`, each later one with what is found so far as its filter.
fn search_narrowing(
    tree: &IdTree,
    searches: &Vec<&str>,
    filter: Option<&FxHashSet<u64>>,
) -> (found: FxHashSet<u64>)
    requires
        tree.wf(),
    ensures
        found@ == search_result(tree.entries(), texts(searches@), filter_ids(filter)),
{
    if searches.len() == 0 {
        return FxHashSet::default();
    }
    let ghost queries = texts(searches@);
    let ghost start = first_matching(tree.entries(), queries[0], filter_ids(filter));
    let first = chars_of(searches[0]);
    let mut found = tree.collect(&first, filter);
    let mut k: usize = 1;
    proof {
        assert(queries.drop_first().take(0) =~= Seq::<Seq<char>>::empty());
        assert(found@ =~= start.intersect(matching_all(tree.entries(), queries.drop_first().take(0))));
    }
    while k < searches.len()
        invariant
            1 <= k <= searches.len(),
            tree.wf(),
            queries == texts(searches@),
            found@ == start.intersect(matching_all(tree.entries(), queries.drop_first().take(k - 1))),
        decreases searches.len() - k,
    {
        let query = chars_of(searches[k]);
        let next = tree.collect(&query, Some(&found));
        let ghost before = found@;
        found = intersection(&found, &next);
        proof {
            lemma_matching_near_bounds(tree.entries(), query@, before);
            lemma_matching_all_step(tree.entries(), queries.drop_first(), k - 1);
            assert(queries.drop_first()[k - 1] == queries[k as int]);
            assert(found@ =~= before.intersect(matching(tree.entries(), query@)));
            assert(found@ =~= start.intersect(
                matching_all(tree.entries(), queries.drop_first().take(k as int)),
            ));
        }
        k += 1;
    }
    proof {
        assert(queries.drop_first().take(searches@.len() - 1) =~= queries.drop_first());
    }
    found
}

/// The trie in which each node hands its task on to its children: adding,
/// searching and deleting go down from the root by recursion. A filter is
/// not looked at.
pub struct Trie1 {
    tree: IdTree,
}

impl Trie1 {
    /// The number of nodes. Adding brings nodes; deleting takes none away.
    pub closed spec fn size(&self) -> nat {
        self.tree.size()
    }

    /// A trie that holds nothing.
    pub fn new() -> (trie: Self)
        ensures
            trie.wf(),
            trie.entries() == Set::<(u64, Seq<char>)>::empty(),
            trie.size() == 1,
    {
        Trie1 { tree: IdTree::new() }
    }
}

impl Trie for Trie1 {
    closed spec fn wf(&self) -> bool {
        self.tree.wf()
    }

    closed spec fn entries(&self) -> Set<(u64, Seq<char>)> {
        self.tree.entries()
    }

    fn add(&mut self, id: u64, inserts: Vec<&str>)
        ensures
            old(self).size() <= final(self).size(),
    {
        add_all(&mut self.tree, id, &inserts, true);
    }

    fn search(
        &self,
        searches: Vec<&str>,
        filter: Option<&FxHashSet<u64>>,
    ) -> (found: FxHashSet<u64>)
        ensures
            found@ == search_result(self.entries(), texts(searches@), None),
    {
        proof {
            if searches@.len() > 0 {
                lemma_search_result_bounds(self.entries(), texts(searches@), None);
            }
        }
        search_each(&self.tree, &searches, true)
    }

    fn delete(&mut self, id: u64)
        ensures
            final(self).size() == old(self).size(),
    {
        self.tree.erase_rec(id);
    }
}

impl Default for Trie1 {
    fn default() -> (trie: Self)
        ensures
            trie.wf(),
            trie.entries() == Set::<(u64, Seq<char>)>::empty(),
    {
        Self::new()
    }
}

/// The trie that keeps the nodes still to visit on a stack. A filter is not
/// looked at.
pub struct Trie2 {
    tree: IdTree,
}

impl Trie2 {
    /// The number of nodes. Adding brings nodes; deleting takes none away.
    pub closed spec fn size(&self) -> nat {
        self.tree.size()
    }

    /// A trie that holds nothing.
    pub fn new() -> (trie: Self)
        ensures
            trie.wf(),
            trie.entries() == Set::<(u64, Seq<char>)>::empty(),
            trie.size() == 1,
    {
        Trie2 { tree: IdTree::new() }
    }
}

impl Trie for Trie2 {
    closed spec fn wf(&self) -> bool {
        self.tree.wf()
    }

    closed spec fn entries(&self) -> Set<(u64, Seq<char>)> {
        self.tree.entries()
    }

    fn add(&mut self, id: u64, inserts: Vec<&str>)
        ensures
            old(self).size() <= final(self).size(),
    {
        add_all(&mut self.tree, id, &inserts, false);
    }

    fn search(
        &self,
        searches: Vec<&str>,
        filter: Option<&FxHashSet<u64>>,
    ) -> (found: FxHashSet<u64>)
        ensures
            found@ == search_result(self.entries(), texts(searches@), None),
    {
        proof {
            if searches@.len() > 0 {
                lemma_search_result_bounds(self.entries(), texts(searches@), None);
            }
        }
        search_each(&self.tree, &searches, false)
    }

    fn delete(&mut self, id: u64)
        ensures
            final(self).size() == old(self).size(),
    {
        self.tree.erase(id);
    }
}

impl Default for Trie2 {
    fn default() -> (trie: Self)
        ensures
            trie.wf(),
            trie.entries() == Set::<(u64, Seq<char>)>::empty(),
    {
        Self::new()
    }
}

/// The trie that is searched with a stack and leaves out every node that is
/// marked with no id of the filter.
pub struct Trie3 {
    tree: IdTree,
}

impl Trie3 {
    /// The number of nodes. Adding brings nodes; deleting takes none away.
    pub closed spec fn size(&self) -> nat {
        self.tree.size()
    }

    /// A trie that holds nothing.
    pub fn new() -> (trie: Self)
        ensures
            trie.wf(),
            trie.entries() == Set::<(u64, Seq<char>)>::empty(),
            trie.size() == 1,
    {
        Trie3 { tree: IdTree::new() }
    }
}

impl Trie for Trie3 {
    closed spec fn wf(&self) -> bool {
        self.tree.wf()
    }

    closed spec fn entries(&self) -> Set<(u64, Seq<char>)> {
        self.tree.entries()
    }

    fn add(&mut self, id: u64, inserts: Vec<&str>)
        ensures
            old(self).size() <= final(self).size(),
    {
        add_all(&mut self.tree, id, &inserts, false);
    }

    fn search(
        &self,
        searches: Vec<&str>,
        filter: Option<&FxHashSet<u64>>,
    ) -> (found: FxHashSet<u64>)
        ensures
            found@ == search_result(self.entries(), texts(searches@), filter_ids(filter)),
    {
        proof {
            if searches@.len() > 0 {
                lemma_search_result_bounds(self.entries(), texts(searches@), filter_ids(filter));
            }
        }
        search_narrowing(&self.tree, &searches, filter)
    }

    fn delete(&mut self, id: u64)
        ensures
            final(self).size() == old(self).size(),
    {
        self.tree.erase(id);
    }
}

impl Default for Trie3 {
    fn default() -> (trie: Self)
        ensures
            trie.wf(),
            trie.entries() == Set::<(u64, Seq<char>)>::empty(),
    {
        Self::new()
    }
}

/// The trie that is searched with a stack and leaves out every node below
/// which no string, of an id of the filter where there is one, goes on for
/// as long as what is left of the query.
pub struct Trie4 {
    tree: DepthTree,
}

impl Trie4 {
    /// The number of nodes. Adding brings nodes; deleting takes none away.
    pub closed spec fn size(&self) -> nat {
        self.tree.size()
    }

    /// A trie that holds nothing.
    pub fn new() -> (trie: Self)
        ensures
            trie.wf(),
            trie.entries() == Set::<(u64, Seq<char>)>::empty(),
            trie.size() == 1,
    {
        Trie4 { tree: DepthTree::new() }
    }
}

impl Trie for Trie4 {
    closed spec fn wf(&self) -> bool {
        self.tree.wf()
    }

    closed spec fn entries(&self) -> Set<(u64, Seq<char>)> {
        self.tree.entries()
    }

    fn add(&mut self, id: u64, inserts: Vec<&str>)
        ensures
            old(self).size() <= final(self).size(),
    {
        let mut k: usize = 0;
        while k < inserts.len()
            invariant
                0 <= k <= inserts.len(),
                self.tree.wf(),
                old(self).tree.size() <= self.tree.size(),
                self.tree.entries() == old(self).tree.entries().union(
                    added(id, texts(inserts@).take(k as int)),
                ),
            decreases inserts.len() - k,
        {
            let s = chars_of(inserts[k]);
            self.tree.insert(id, &s);
            proof {
                lemma_added_step(id, texts(inserts@), k as int);
                assert(texts(inserts@)[k as int] == s@);
                assert(self.tree.entries() =~= old(self).tree.entries().union(
                    added(id, texts(inserts@).take(k + 1)),
                ));
            }
            k += 1;
        }
        proof {
            assert(texts(inserts@).take(inserts@.len() as int) =~= texts(inserts@));
        }
    }

    fn search(
        &self,
        searches: Vec<&str>,
        filter: Option<&FxHashSet<u64>>,
    ) -> (found: FxHashSet<u64>)
        ensures
            found@ == search_result(self.entries(), texts(searches@), filter_ids(filter)),
    {
        if searches.len() == 0 {
            return FxHashSet::default();
        }
        let ghost queries = texts(searches@);
        let ghost start = first_matching(self.tree.entries(), queries[0], filter_ids(filter));
        proof {
            lemma_search_result_bounds(self.entries(), queries, filter_ids(filter));
        }
        let first = chars_of(searches[0]);
        let mut found = self.tree.collect(&first, filter);
        let mut k: usize = 1;
        proof {
            assert(queries.drop_first().take(0) =~= Seq::<Seq<char>>::empty());
            assert(found@ =~= start.intersect(
                matching_all(self.tree.entries(), queries.drop_first().take(0)),
            ));
        }
        while k < searches.len()
            invariant
                1 <= k <= searches.len(),
                self.tree.wf(),
                queries == texts(searches@),
                found@ == start.intersect(
                    matching_all(self.tree.entries(), queries.drop_first().take(k - 1)),
                ),
            decreases searches.len() - k,
        {
            let query = chars_of(searches[k]);
            let next = self.tree.collect(&query, Some(&found));
            let ghost before = found@;
            found = intersection(&found, &next);
            proof {
                lemma_matching_near_bounds(self.tree.entries(), query@, before);
                lemma_matching_all_step(self.tree.entries(), queries.drop_first(), k - 1);
                assert(queries.drop_first()[k - 1] == queries[k as int]);
                assert(found@ =~= before.intersect(matching(self.tree.entries(), query@)));
                assert(found@ =~= start.intersect(
                    matching_all(self.tree.entries(), queries.drop_first().take(k as int)),
                ));
            }
            k += 1;
        }
        proof {
            assert(queries.drop_first().take(searches@.len() - 1) =~= queries.drop_first());
        }
        found
    }

    fn delete(&mut self, id: u64)
        ensures
            final(self).size() == old(self).size(),
    {
        self.tree.erase(id);
    }
}

impl Default for Trie4 {
    fn default() -> (trie: Self)
        ensures
            trie.wf(),
            trie.entries() == Set::<(u64, Seq<char>)>::empty(),
    {
        Self::new()
    }
}

} // verus!
