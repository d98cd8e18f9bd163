//! The records and the stores that keep them.
//!
//! A store keeps its records in the order in which they were pushed; the
//! index of a record is its place in that order, counted from zero. A search
//! finds the records that are not marked as done and that match every term:
//! a word term matches a record with a word that holds the term as a
//! subsequence, a tag term one with such a tag.

use vstd::prelude::*;
use rustc_hash::FxHashSet;
use crate::fx::{id_set_items, intersection};
use crate::query::SearchParams;
use crate::shape::{matching, matching_all, without};
use crate::subsequence::{is_subsequence, match_subsequence};
use crate::trie::{added, texts, Trie};

verus! {

/// The index of a record.
#[derive(Debug, Clone, Copy, PartialEq, Eq, PartialOrd, Ord, Structural)]
pub struct Index(u64);

impl Index {
    /// The index with the number `i`.
    pub fn new(i: u64) -> (index: Self)
        ensures
            index.value() == i,
    {
        Index(i)
    }

    /// The number of the index.
    #[verifier::when_used_as_spec(spec_value)]
    pub fn value(&self) -> (i: u64)
        ensures
            i == self.value(),
    {
        self.0
    }

    /// The number of the index, in contracts.
    pub closed spec fn spec_value(&self) -> u64 {
        self.0
    }
}

/// A word of a record's description.
#[derive(Debug, PartialEq, Eq)]
pub struct Word(String);

impl View for Word {
    type V = Seq<char>;

    closed spec fn view(&self) -> Seq<char> {
        self.0@
    }
}

impl Word {
    /// The word `s`.
    pub fn new(s: &str) -> (word: Self)
        ensures
            word@ == s@,
    {
        Word(s.to_owned())
    }

    /// The string of the word.
    pub fn value(&self) -> (s: &str)
        ensures
            s@ == self@,
    {
        self.0.as_str()
    }
}

impl Clone for Word {
    fn clone(&self) -> (word: Self)
        ensures
            word == *self,
    {
        Word(self.0.clone())
    }
}

/// A tag of a record.
#[derive(Debug, PartialEq, Eq)]
pub struct Tag(String);

impl View for Tag {
    type V = Seq<char>;

    closed spec fn view(&self) -> Seq<char> {
        self.0@
    }
}

impl Tag {
    /// The tag `s`.
    pub fn new(s: &str) -> (tag: Self)
        ensures
            tag@ == s@,
    {
        Tag(s.to_owned())
    }

    /// The string of the tag, without the `#`.
    pub fn value(&self) -> (s: &str)
        ensures
            s@ == self@,
    {
        self.0.as_str()
    }

    /// A tag for each of the strings, in their order.
    pub fn from_strings(ss: Vec<&str>) -> (tags: Vec<Tag>)
        ensures
            tag_texts(tags@) == crate::trie::texts(ss@),
    {
        let mut tags: Vec<Tag> = Vec::new();
        let mut k: usize = 0;
        while k < ss.len()
            invariant
                0 <= k <= ss.len(),
                tags@.len() == k,
                forall|j: int| 0 <= j < k ==> (#[trigger] tags@[j])@ == ss@[j]@,
            decreases ss.len() - k,
        {
            tags.push(Tag::new(ss[k]));
            k += 1;
        }
        assert(tag_texts(tags@) =~= crate::trie::texts(ss@));
        tags
    }
}

impl Clone for Tag {
    fn clone(&self) -> (tag: Self)
        ensures
            tag == *self,
    {
        Tag(self.0.clone())
    }
}

/// The strings of a list of words.
pub open spec fn word_texts(words: Seq<Word>) -> Seq<Seq<char>> {
    Seq::new(words.len(), |k: int| words[k]@)
}

/// The strings of a list of tags.
pub open spec fn tag_texts(tags: Seq<Tag>) -> Seq<Seq<char>> {
    Seq::new(tags.len(), |k: int| tags[k]@)
}

/// What a record says.
pub struct Record {
    pub index: u64,
    pub words: Seq<Seq<char>>,
    pub tags: Seq<Seq<char>>,
    pub done: bool,
}

/// A record.
#[derive(Debug, PartialEq, Eq)]
pub struct TodoItem {
    pub index: Index,
    pub description: Vec<Word>,
    pub tags: Vec<Tag>,
    pub done: bool,
}

impl View for TodoItem {
    type V = Record;

    open spec fn view(&self) -> Record {
        Record {
            index: self.index.value(),
            words: word_texts(self.description@),
            tags: tag_texts(self.tags@),
            done: self.done,
        }
    }
}

impl TodoItem {
    /// The record with these fields.
    pub fn new(index: Index, description: Vec<Word>, tags: Vec<Tag>, done: bool) -> (item: Self)
        ensures
            item.index == index,
            item.description == description,
            item.tags == tags,
            item.done == done,
    {
        TodoItem { index, description, tags, done }
    }
}

impl Clone for TodoItem {
    fn clone(&self) -> (item: Self)
        ensures
            item@ == self@,
    {
        let description = self.description.clone();
        let tags = self.tags.clone();
        assert(word_texts(description@) =~= word_texts(self.description@));
        assert(tag_texts(tags@) =~= tag_texts(self.tags@));
        TodoItem { index: self.index, description, tags, done: self.done }
    }
}

/// One term of a search: a word or a tag, as it was written.
#[derive(Debug, PartialEq, Eq)]
pub enum SearchWordOrTag {
    RawWord(String),
    RawTag(String),
}

impl Clone for SearchWordOrTag {
    fn clone(&self) -> (term: Self)
        ensures
            term == *self,
    {
        match self {
            SearchWordOrTag::RawWord(w) => SearchWordOrTag::RawWord(w.clone()),
            SearchWordOrTag::RawTag(t) => SearchWordOrTag::RawTag(t.clone()),
        }
    }
}

/// One of `texts` holds `query` as a subsequence.
pub open spec fn holds(texts: Seq<Seq<char>>, query: Seq<char>) -> bool {
    exists|k: int| 0 <= k < texts.len() && is_subsequence(#[trigger] texts[k], query)
}

/// The record matches the term.
pub open spec fn term_matches(record: Record, term: SearchWordOrTag) -> bool {
    match term {
        SearchWordOrTag::RawWord(w) => holds(record.words, w@),
        SearchWordOrTag::RawTag(t) => holds(record.tags, t@),
    }
}

/// The record is not marked as done and matches every term.
pub open spec fn is_hit(record: Record, terms: Seq<SearchWordOrTag>) -> bool {
    !record.done && forall|k: int| 0 <= k < terms.len() ==> term_matches(record, #[trigger] terms[k])
}

/// What the references of a search result say.
pub open spec fn records_of(found: Seq<&TodoItem>) -> Seq<Record> {
    Seq::new(found.len(), |k: int| found[k]@)
}

/// `found` lists the hits among `items`, each once: every record in it is a
/// hit of the store, and every hit of the store is in it.
pub open spec fn lists_hits(
    items: Seq<Record>,
    terms: Seq<SearchWordOrTag>,
    found: Seq<Record>,
) -> bool {
    &&& forall|k: int|
        0 <= k < found.len() ==> {
            &&& (#[trigger] found[k]).index < items.len()
            &&& items[found[k].index as int] == found[k]
            &&& is_hit(found[k], terms)
        }
    &&& forall|i: int|
        0 <= i < items.len() && is_hit(#[trigger] items[i], terms) ==> exists|k: int|
            0 <= k < found.len() && #[trigger] found[k] == items[i]
    &&& forall|a: int, b: int| 0 <= a < b < found.len() ==> (#[trigger] found[a]).index != (#[trigger] found[b]).index
}

/// `found` is in the order of the indices.
pub open spec fn in_order(found: Seq<Record>) -> bool {
    forall|a: int, b: int| 0 <= a < b < found.len() ==> (#[trigger] found[a]).index < (#[trigger] found[b]).index
}

/// The records are numbered by their places.
pub open spec fn numbered(items: Seq<Record>) -> bool {
    forall|i: int| 0 <= i < items.len() ==> (#[trigger] items[i]).index == i
}

/// `record` with its mark set.
pub open spec fn marked(record: Record) -> Record {
    Record { done: true, ..record }
}

/// A store of records.
pub trait TodoLister: Sized {
    /// The store is in order.
    spec fn wf(&self) -> bool;

    /// What the records say, in the order in which they were pushed.
    spec fn records(&self) -> Seq<Record>;

    /// In a store that is in order each record is numbered by its place.
    proof fn lemma_numbered(&self)
        requires
            self.wf(),
        ensures
            numbered(self.records()),
    ;

    /// Adds a record with the next index, and hands back a copy of it.
    fn push(&mut self, description: Vec<Word>, tags: Vec<Tag>) -> (item: TodoItem)
        requires
            old(self).wf(),
        ensures
            final(self).wf(),
            final(self).records() == old(self).records().push(item@),
            item@ == (Record {
                index: old(self).records().len() as u64,
                words: word_texts(description@),
                tags: tag_texts(tags@),
                done: false,
            }),
    ;

    /// Marks the record with index `idx` as done, where there is one.
    fn done_with_index(&mut self, idx: Index) -> (marked_index: Option<Index>)
        requires
            old(self).wf(),
        ensures
            final(self).wf(),
            idx.value() < old(self).records().len() ==> marked_index == Some(idx)
                && final(self).records() == old(self).records().update(
                idx.value() as int,
                marked(old(self).records()[idx.value() as int]),
            ),
            idx.value() >= old(self).records().len() ==> marked_index.is_none()
                && final(self).records() == old(self).records(),
    ;

    /// The records that are not done and match every term of `sp`.
    fn search(&self, sp: SearchParams) -> (found: Vec<&TodoItem>)
        requires
            self.wf(),
        ensures
            sp.params@.len() > 0 ==> lists_hits(self.records(), sp.params@, records_of(found@)),
    ;
}

/// What a list of records says.
pub open spec fn records_in(items: Seq<TodoItem>) -> Seq<Record> {
    Seq::new(items.len(), |i: int| items[i]@)
}

/// Whether one of `words` holds `query` as a subsequence.
fn some_word_holds(words: &Vec<Word>, query: &str) -> (found: bool)
    ensures
        found == holds(word_texts(words@), query@),
{
    let mut k: usize = 0;
    while k < words.len()
        invariant
            0 <= k <= words.len(),
            forall|j: int| 0 <= j < k ==> !is_subsequence(#[trigger] word_texts(words@)[j], query@),
        decreases words.len() - k,
    {
        assert(word_texts(words@)[k as int] == words@[k as int]@);
        if match_subsequence(words[k].value(), query) {
            return true;
        }
        k += 1;
    }
    false
}

/// Whether one of `tags` holds `query` as a subsequence.
fn some_tag_holds(tags: &Vec<Tag>, query: &str) -> (found: bool)
    ensures
        found == holds(tag_texts(tags@), query@),
{
    let mut k: usize = 0;
    while k < tags.len()
        invariant
            0 <= k <= tags.len(),
            forall|j: int| 0 <= j < k ==> !is_subsequence(#[trigger] tag_texts(tags@)[j], query@),
        decreases tags.len() - k,
    {
        assert(tag_texts(tags@)[k as int] == tags@[k as int]@);
        if match_subsequence(tags[k].value(), query) {
            return true;
        }
        k += 1;
    }
    false
}

/// Whether `item` matches `term`.
fn matches_term(item: &TodoItem, term: &SearchWordOrTag) -> (found: bool)
    ensures
        found == term_matches(item@, *term),
{
    match term {
        SearchWordOrTag::RawWord(w) => some_word_holds(&item.description, w.as_str()),
        SearchWordOrTag::RawTag(t) => some_tag_holds(&item.tags, t.as_str()),
    }
}

/// Whether `item` is not done and matches every one of `terms`.
fn hits(item: &TodoItem, terms: &Vec<SearchWordOrTag>) -> (found: bool)
    ensures
        found == is_hit(item@, terms@),
{
    if item.done {
        return false;
    }
    let mut k: usize = 0;
    while k < terms.len()
        invariant
            0 <= k <= terms.len(),
            forall|j: int| 0 <= j < k ==> term_matches(item@, #[trigger] terms@[j]),
        decreases terms.len() - k,
    {
        if !matches_term(item, &terms[k]) {
            return false;
        }
        k += 1;
    }
    true
}

/// Adds a record with the next index to `items`, and hands back a copy of it.
fn push_item(items: &mut Vec<TodoItem>, description: Vec<Word>, tags: Vec<Tag>) -> (item: TodoItem)
    requires
        numbered(records_in(old(items)@)),
    ensures
        numbered(records_in(final(items)@)),
        records_in(final(items)@) == records_in(old(items)@).push(item@),
        item@ == (Record {
            index: old(items)@.len() as u64,
            words: word_texts(description@),
            tags: tag_texts(tags@),
            done: false,
        }),
{
    let item = TodoItem::new(Index::new(items.len() as u64), description, tags, false);
    let item_c = item.clone();
    items.push(item);
    assert(records_in(items@) =~= records_in(old(items)@).push(item_c@));
    item_c
}

/// The place of the record with index `idx` among `items`, found by halving
/// the range in which it can be.
fn find_index(items: &Vec<TodoItem>, idx: Index) -> (place: Option<usize>)
    requires
        numbered(records_in(items@)),
    ensures
        match place {
            Some(n) => n == idx.value() && n < items@.len(),
            None => idx.value() >= items@.len(),
        },
{
    let mut lo: usize = 0;
    let mut hi: usize = items.len();
    while lo < hi
        invariant
            0 <= lo <= hi <= items.len(),
            numbered(records_in(items@)),
            forall|j: int| 0 <= j < lo ==> (#[trigger] records_in(items@)[j]).index < idx.value(),
            forall|j: int| hi <= j < items@.len() ==> (#[trigger] records_in(items@)[j]).index > idx.value(),
        decreases hi - lo,
    {
        let mid = lo + (hi - lo) / 2;
        let key = items[mid].index.value();
        assert(records_in(items@)[mid as int].index == key);
        if key == idx.value() {
            return Some(mid);
        } else if key < idx.value() {
            assert forall|j: int| 0 <= j < mid + 1 implies (#[trigger] records_in(items@)[j]).index
                < idx.value() by {
                assert(records_in(items@)[j].index == j);
            }
            lo = mid + 1;
        } else {
            assert forall|j: int| mid <= j < items@.len() implies (#[trigger] records_in(items@)[j]).index
                > idx.value() by {
                assert(records_in(items@)[j].index == j);
            }
            hi = mid;
        }
    }
    proof {
        if idx.value() < items@.len() {
            let j = idx.value() as int;
            assert(records_in(items@)[j].index == j);
        }
    }
    None
}

/// Marks the record with index `idx` among `items` as done, where there is one.
fn mark_done(items: &mut Vec<TodoItem>, idx: Index) -> (marked_index: Option<Index>)
    requires
        numbered(records_in(old(items)@)),
    ensures
        numbered(records_in(final(items)@)),
        idx.value() < old(items)@.len() ==> marked_index == Some(idx) && records_in(final(items)@)
            == records_in(old(items)@).update(
            idx.value() as int,
            marked(records_in(old(items)@)[idx.value() as int]),
        ),
        idx.value() >= old(items)@.len() ==> marked_index.is_none() && final(items)@ == old(items)@,
{
    let place = find_index(items, idx);
    match place {
        Some(n) => {
            items[n].done = true;
            assert(records_in(items@) =~= records_in(old(items)@).update(
                idx.value() as int,
                marked(records_in(old(items)@)[idx.value() as int]),
            ));
            Some(idx)
        },
        None => None,
    }
}

/// The hits among `items`, in the order of the indices.
fn scan_hits<'a>(
    items: &'a Vec<TodoItem>,
    terms: &Vec<SearchWordOrTag>,
) -> (found: Vec<&'a TodoItem>)
    requires
        numbered(records_in(items@)),
    ensures
        lists_hits(records_in(items@), terms@, records_of(found@)),
        in_order(records_of(found@)),
{
    let ghost recs = records_in(items@);
    let mut found: Vec<&TodoItem> = Vec::new();
    let mut i: usize = 0;
    while i < items.len()
        invariant
            0 <= i <= items.len(),
            recs == records_in(items@),
            numbered(recs),
            forall|k: int|
                0 <= k < found@.len() ==> {
                    &&& (#[trigger] records_of(found@)[k]).index < i
                    &&& recs[records_of(found@)[k].index as int] == records_of(found@)[k]
                    &&& is_hit(records_of(found@)[k], terms@)
                },
            forall|j: int|
                0 <= j < i && is_hit(#[trigger] recs[j], terms@) ==> exists|k: int|
                    0 <= k < found@.len() && #[trigger] records_of(found@)[k] == recs[j],
            in_order(records_of(found@)),
        decreases items.len() - i,
    {
        let item = &items[i];
        assert(recs[i as int] == item@);
        assert(recs[i as int].index == i);
        if hits(item, terms) {
            let ghost before = records_of(found@);
            found.push(item);
            proof {
                let after = records_of(found@);
                assert(after =~= before.push(item@));
                assert forall|j: int| 0 <= j < i + 1 && is_hit(#[trigger] recs[j], terms@) implies exists|k: int|
                    0 <= k < found@.len() && #[trigger] after[k] == recs[j] by {
                    if j < i {
                        let k = choose|k: int| 0 <= k < before.len() && #[trigger] before[k] == recs[j];
                        assert(after[k] == recs[j]);
                    } else {
                        assert(after[before.len() as int] == recs[j]);
                    }
                }
            }
        }
        i += 1;
    }
    found
}

/// The store that looks at every record in turn.
#[derive(Debug, PartialEq, Eq)]
pub struct TodoList {
    items: Vec<TodoItem>,
}

impl Clone for TodoList {
    fn clone(&self) -> (list: Self)
        ensures
            list.records() == self.records(),
            list.wf() == self.wf(),
    {
        let list = TodoList { items: self.items.clone() };
        assert(records_in(list.items@) =~= records_in(self.items@));
        list
    }
}

impl TodoList {
    /// A store without records.
    pub fn new() -> (list: Self)
        ensures
            list.wf(),
            list.records() == Seq::<Record>::empty(),
    {
        let list = TodoList { items: Vec::new() };
        assert(list.records() =~= Seq::<Record>::empty());
        list
    }

    /// Whether `subsequence` is a subsequence of `sequence`.
    pub fn match_subsequence(sequence: &str, subsequence: &str) -> (found: bool)
        ensures
            found == is_subsequence(sequence@, subsequence@),
    {
        match_subsequence(sequence, subsequence)
    }
}

impl TodoLister for TodoList {
    closed spec fn wf(&self) -> bool {
        numbered(records_in(self.items@))
    }

    closed spec fn records(&self) -> Seq<Record> {
        records_in(self.items@)
    }

    proof fn lemma_numbered(&self) {
    }

    fn push(&mut self, description: Vec<Word>, tags: Vec<Tag>) -> (item: TodoItem) {
        push_item(&mut self.items, description, tags)
    }

    fn done_with_index(&mut self, idx: Index) -> (marked_index: Option<Index>) {
        mark_done(&mut self.items, idx)
    }

    fn search(&self, sp: SearchParams) -> (found: Vec<&TodoItem>)
        ensures
            lists_hits(self.records(), sp.params@, records_of(found@)),
            in_order(records_of(found@)),
    {
        scan_hits(&self.items, &sp.params)
    }
}

/// Keeping of a list in the order of the indices those records that satisfy
/// `pred` leaves a list in the order of the indices.
pub proof fn lemma_filter_in_order(found: Seq<Record>, pred: spec_fn(Record) -> bool)
    requires
        in_order(found),
    ensures
        in_order(found.filter(pred)),
        forall|k: int| 0 <= k < found.filter(pred).len() ==> found.contains(#[trigger] found.filter(pred)[k]),
    decreases found.len(),
{
    reveal(Seq::filter);
    if found.len() > 0 {
        let front = found.drop_last();
        assert forall|a: int, b: int| 0 <= a < b < front.len() implies (#[trigger] front[a]).index < (
        #[trigger] front[b]).index by {
            assert(front[a] == found[a]);
            assert(front[b] == found[b]);
        }
        lemma_filter_in_order(front, pred);
        let kept = front.filter(pred);
        assert forall|k: int| 0 <= k < kept.len() implies found.contains(#[trigger] kept[k]) && kept[k].index
            < found.last().index by {
            assert(front.contains(kept[k]));
            let j = choose|j: int| 0 <= j < front.len() && front[j] == kept[k];
            assert(found[j] == kept[k]);
            assert(found[found.len() - 1] == found.last());
        }
        if pred(found.last()) {
            let all = kept.push(found.last());
            assert(found.filter(pred) == all);
            assert forall|k: int| 0 <= k < all.len() implies found.contains(#[trigger] all[k]) by {
                if k == kept.len() {
                    assert(found[found.len() - 1] == all[k]);
                } else {
                    assert(all[k] == kept[k]);
                }
            }
            assert forall|a: int, b: int| 0 <= a < b < all.len() implies (#[trigger] all[a]).index < (
            #[trigger] all[b]).index by {
                assert(all[a] == kept[a]);
                if b < kept.len() {
                    assert(all[b] == kept[b]);
                }
            }
        }
    }
}

/// Keeping of the hits for `terms` those that match one more term leaves the
/// hits for `terms` with that term.
pub proof fn lemma_filter_hits(
    items: Seq<Record>,
    terms: Seq<SearchWordOrTag>,
    found: Seq<Record>,
    term: SearchWordOrTag,
)
    requires
        lists_hits(items, terms, found),
        in_order(found),
    ensures
        lists_hits(items, terms.push(term), found.filter(|r: Record| term_matches(r, term))),
        in_order(found.filter(|r: Record| term_matches(r, term))),
{
    let pred = |r: Record| term_matches(r, term);
    let kept = found.filter(pred);
    let more = terms.push(term);
    lemma_filter_in_order(found, pred);
    assert forall|k: int| 0 <= k < kept.len() implies {
        &&& (#[trigger] kept[k]).index < items.len()
        &&& items[kept[k].index as int] == kept[k]
        &&& is_hit(kept[k], more)
    } by {
        found.lemma_filter_pred(pred, k);
        assert(found.contains(kept[k]));
        let j = choose|j: int| 0 <= j < found.len() && found[j] == kept[k];
        assert(is_hit(found[j], terms));
        assert forall|t: int| 0 <= t < more.len() implies term_matches(kept[k], #[trigger] more[t]) by {
            if t < terms.len() {
                assert(more[t] == terms[t]);
            }
        }
    }
    assert forall|i: int| 0 <= i < items.len() && is_hit(#[trigger] items[i], more) implies exists|k: int|
        0 <= k < kept.len() && #[trigger] kept[k] == items[i] by {
        assert forall|t: int| 0 <= t < terms.len() implies term_matches(items[i], #[trigger] terms[t]) by {
            assert(more[t] == terms[t]);
        }
        assert(more[terms.len() as int] == term);
        assert(is_hit(items[i], terms));
        let j = choose|j: int| 0 <= j < found.len() && #[trigger] found[j] == items[i];
        found.lemma_filter_contains(pred, j);
        let k = choose|k: int| 0 <= k < kept.len() && kept[k] == found[j];
        assert(kept[k] == items[i]);
    }
}

/// The store that finds the hits for the first term and then keeps, term by
/// term, those that match the next.
#[derive(Debug, PartialEq, Eq)]
pub struct TodoList2 {
    items: Vec<TodoItem>,
}

impl Clone for TodoList2 {
    fn clone(&self) -> (list: Self)
        ensures
            list.records() == self.records(),
            list.wf() == self.wf(),
    {
        let list = TodoList2 { items: self.items.clone() };
        assert(records_in(list.items@) =~= records_in(self.items@));
        list
    }
}

impl TodoList2 {
    /// A store without records.
    pub fn new() -> (list: Self)
        ensures
            list.wf(),
            list.records() == Seq::<Record>::empty(),
    {
        let list = TodoList2 { items: Vec::new() };
        assert(list.records() =~= Seq::<Record>::empty());
        list
    }

    /// Adds to `item_refs` the records that are not done and match `search`,
    /// in the order of the indices.
    pub fn search_initial<'a>(&'a self, item_refs: &mut Vec<&'a TodoItem>, search: SearchWordOrTag)
        requires
            self.wf(),
        ensures
            final(item_refs)@.len() >= old(item_refs)@.len(),
            records_of(final(item_refs)@).take(old(item_refs)@.len() as int) == records_of(old(item_refs)@),
            lists_hits(
                self.records(),
                Seq::<SearchWordOrTag>::empty().push(search),
                records_of(final(item_refs)@).skip(old(item_refs)@.len() as int),
            ),
            in_order(records_of(final(item_refs)@).skip(old(item_refs)@.len() as int)),
    {
        let mut terms: Vec<SearchWordOrTag> = Vec::new();
        terms.push(search);
        assert(terms@ =~= Seq::<SearchWordOrTag>::empty().push(search));
        let found = scan_hits(&self.items, &terms);
        let ghost base = records_of(item_refs@);
        let mut k: usize = 0;
        while k < found.len()
            invariant
                0 <= k <= found.len(),
                base == records_of(old(item_refs)@),
                records_of(item_refs@) == base + records_of(found@).take(k as int),
            decreases found.len() - k,
        {
            let ghost before = records_of(item_refs@);
            item_refs.push(found[k]);
            assert(records_of(item_refs@) =~= before.push(found@[k as int]@));
            assert(records_of(found@).take(k + 1) =~= records_of(found@).take(k as int).push(
                found@[k as int]@,
            ));
            assert(records_of(item_refs@) =~= base + records_of(found@).take(k + 1));
            k += 1;
        }
        proof {
            assert(records_of(found@).take(found@.len() as int) =~= records_of(found@));
            assert(records_of(item_refs@).take(base.len() as int) =~= base);
            assert(records_of(item_refs@).skip(base.len() as int) =~= records_of(found@));
        }
    }

    /// Keeps in `refs` the records that match `search`.
    pub fn search_filter(&self, refs: &mut Vec<&TodoItem>, search: SearchWordOrTag)
        ensures
            records_of(final(refs)@) == records_of(old(refs)@).filter(|r: Record| term_matches(r, search)),
    {
        let ghost pred = |r: Record| term_matches(r, search);
        let ghost all = records_of(refs@);
        let mut kept: Vec<&TodoItem> = Vec::new();
        let mut k: usize = 0;
        proof {
            reveal(Seq::filter);
            assert(all.take(0) =~= Seq::<Record>::empty());
            assert(records_of(kept@) =~= all.take(0).filter(pred));
        }
        while k < refs.len()
            invariant
                0 <= k <= refs.len(),
                all == records_of(refs@),
                pred == (|r: Record| term_matches(r, search)),
                records_of(kept@) == all.take(k as int).filter(pred),
            decreases refs.len() - k,
        {
            let item = refs[k];
            let ghost before = records_of(kept@);
            proof {
                reveal(Seq::filter);
                assert(all.take(k + 1).drop_last() =~= all.take(k as int));
                assert(all.take(k + 1).last() == item@);
            }
            if matches_term(item, &search) {
                kept.push(item);
                assert(records_of(kept@) =~= before.push(item@));
            }
            k += 1;
        }
        proof {
            assert(all.take(refs@.len() as int) =~= all);
        }
        *refs = kept;
    }

    /// Whether `subsequence` is a subsequence of `sequence`.
    pub fn match_subsequence(sequence: &str, subsequence: &str) -> (found: bool)
        ensures
            found == is_subsequence(sequence@, subsequence@),
    {
        match_subsequence(sequence, subsequence)
    }
}

impl TodoLister for TodoList2 {
    closed spec fn wf(&self) -> bool {
        numbered(records_in(self.items@))
    }

    closed spec fn records(&self) -> Seq<Record> {
        records_in(self.items@)
    }

    proof fn lemma_numbered(&self) {
    }

    fn push(&mut self, description: Vec<Word>, tags: Vec<Tag>) -> (item: TodoItem) {
        push_item(&mut self.items, description, tags)
    }

    fn done_with_index(&mut self, idx: Index) -> (marked_index: Option<Index>) {
        mark_done(&mut self.items, idx)
    }

    fn search(&self, sp: SearchParams) -> (found: Vec<&TodoItem>)
        ensures
            sp.params@.len() == 0 ==> found@.len() == 0,
            in_order(records_of(found@)),
    {
        let mut item_refs: Vec<&TodoItem> = Vec::new();
        let mut params = sp.params;
        if params.len() == 0 {
            return item_refs;
        }
        let ghost terms = params@;
        self.search_initial(&mut item_refs, params[0].clone());
        proof {
            assert(records_of(item_refs@).skip(0) =~= records_of(item_refs@));
            assert(terms.take(1) =~= Seq::<SearchWordOrTag>::empty().push(terms[0]));
        }
        let mut k: usize = 1;
        while k < params.len()
            invariant
                1 <= k <= params.len(),
                self.wf(),
                terms == params@,
                lists_hits(self.records(), terms.take(k as int), records_of(item_refs@)),
                in_order(records_of(item_refs@)),
            decreases params.len() - k,
        {
            let ghost before = records_of(item_refs@);
            let term = params[k].clone();
            self.search_filter(&mut item_refs, term);
            proof {
                lemma_filter_hits(self.records(), terms.take(k as int), before, terms[k as int]);
                assert(terms.take(k + 1) =~= terms.take(k as int).push(terms[k as int]));
            }
            k += 1;
        }
        proof {
            assert(terms.take(params@.len() as int) =~= terms);
        }
        item_refs
    }
}

/// The words of a record, or its tags.
pub open spec fn strings_of(record: Record, tags: bool) -> Seq<Seq<char>> {
    if tags {
        record.tags
    } else {
        record.words
    }
}

/// The entries that a trie over the words, or over the tags, of `records`
/// holds: each record that is not done, under its index, with each of its
/// words or tags.
pub open spec fn entries_of(records: Seq<Record>, tags: bool) -> Set<(u64, Seq<char>)> {
    Set::new(
        |e: (u64, Seq<char>)|
            e.0 < records.len() && !records[e.0 as int].done && strings_of(records[e.0 as int], tags).contains(
                e.1,
            ),
    )
}

/// The index of a record matches every one of some queries in the trie of
/// its words, or of its tags, exactly when the record is not done and each
/// query is held by one of its words, or tags.
pub proof fn lemma_trie_matches(records: Seq<Record>, tags: bool, queries: Seq<Seq<char>>, id: u64)
    requires
        queries.len() > 0,
    ensures
        matching_all(entries_of(records, tags), queries).contains(id) <==> id < records.len()
            && !records[id as int].done && forall|a: int|
            0 <= a < queries.len() ==> holds(strings_of(records[id as int], tags), #[trigger] queries[a]),
{
    let entries = entries_of(records, tags);
    if matching_all(entries, queries).contains(id) {
        assert forall|a: int| 0 <= a < queries.len() implies id < records.len() && !records[id as int].done
            && holds(strings_of(records[id as int], tags), #[trigger] queries[a]) by {
            assert(matching(entries, queries[a]).contains(id));
            let s = choose|s: Seq<char>| #[trigger] entries.contains((id, s)) && is_subsequence(s, queries[a]);
            let texts = strings_of(records[id as int], tags);
            let k = choose|k: int| 0 <= k < texts.len() && texts[k] == s;
            assert(is_subsequence(texts[k], queries[a]));
        }
        assert(matching(entries, queries[0]).contains(id));
    }
    if id < records.len() && !records[id as int].done && forall|a: int|
        0 <= a < queries.len() ==> holds(strings_of(records[id as int], tags), #[trigger] queries[a]) {
        assert forall|a: int| 0 <= a < queries.len() implies #[trigger] matching(entries, queries[a]).contains(
            id,
        ) by {
            let texts = strings_of(records[id as int], tags);
            assert(holds(texts, queries[a]));
            let k = choose|k: int| 0 <= k < texts.len() && is_subsequence(#[trigger] texts[k], queries[a]);
            assert(texts.contains(texts[k]));
            assert(entries.contains((id, texts[k])));
        }
    }
}

/// The string slices of a list of words.
fn word_slices<'a>(words: &'a Vec<Word>) -> (slices: Vec<&'a str>)
    ensures
        texts(slices@) == word_texts(words@),
{
    let mut slices: Vec<&str> = Vec::new();
    let mut k: usize = 0;
    while k < words.len()
        invariant
            0 <= k <= words.len(),
            slices@.len() == k,
            forall|j: int| 0 <= j < k ==> (#[trigger] slices@[j])@ == words@[j]@,
        decreases words.len() - k,
    {
        slices.push(words[k].value());
        k += 1;
    }
    assert(texts(slices@) =~= word_texts(words@));
    slices
}

/// The string slices of a list of tags.
fn tag_slices<'a>(tags: &'a Vec<Tag>) -> (slices: Vec<&'a str>)
    ensures
        texts(slices@) == tag_texts(tags@),
{
    let mut slices: Vec<&str> = Vec::new();
    let mut k: usize = 0;
    while k < tags.len()
        invariant
            0 <= k <= tags.len(),
            slices@.len() == k,
            forall|j: int| 0 <= j < k ==> (#[trigger] slices@[j])@ == tags@[j]@,
        decreases tags.len() - k,
    {
        slices.push(tags[k].value());
        k += 1;
    }
    assert(texts(slices@) =~= tag_texts(tags@));
    slices
}

/// `term` is the word term `query`.
pub open spec fn is_word_term(term: SearchWordOrTag, query: Seq<char>) -> bool {
    match term {
        SearchWordOrTag::RawWord(w) => w@ == query,
        SearchWordOrTag::RawTag(_) => false,
    }
}

/// `term` is the tag term `query`.
pub open spec fn is_tag_term(term: SearchWordOrTag, query: Seq<char>) -> bool {
    match term {
        SearchWordOrTag::RawWord(_) => false,
        SearchWordOrTag::RawTag(t) => t@ == query,
    }
}

/// The word terms and the tag terms of a search, apart.
pub open spec fn parted(
    terms: Seq<SearchWordOrTag>,
    words: Seq<Seq<char>>,
    tags: Seq<Seq<char>>,
) -> bool {
    &&& forall|j: int|
        0 <= j < terms.len() ==> match #[trigger] terms[j] {
            SearchWordOrTag::RawWord(w) => words.contains(w@),
            SearchWordOrTag::RawTag(t) => tags.contains(t@),
        }
    &&& forall|a: int|
        0 <= a < words.len() ==> exists|j: int|
            0 <= j < terms.len() && is_word_term(terms[j], #[trigger] words[a])
    &&& forall|b: int|
        0 <= b < tags.len() ==> exists|j: int|
            0 <= j < terms.len() && is_tag_term(terms[j], #[trigger] tags[b])
}

/// One more term goes to the word terms or to the tag terms.
pub proof fn lemma_parted_push(
    terms: Seq<SearchWordOrTag>,
    words: Seq<Seq<char>>,
    tags: Seq<Seq<char>>,
    term: SearchWordOrTag,
)
    requires
        parted(terms, words, tags),
    ensures
        match term {
            SearchWordOrTag::RawWord(w) => parted(terms.push(term), words.push(w@), tags),
            SearchWordOrTag::RawTag(t) => parted(terms.push(term), words, tags.push(t@)),
        },
{
    let more = terms.push(term);
    let (words1, tags1) = match term {
        SearchWordOrTag::RawWord(w) => (words.push(w@), tags),
        SearchWordOrTag::RawTag(t) => (words, tags.push(t@)),
    };
    assert forall|j: int| 0 <= j < more.len() implies match #[trigger] more[j] {
        SearchWordOrTag::RawWord(w) => words1.contains(w@),
        SearchWordOrTag::RawTag(t) => tags1.contains(t@),
    } by {
        if j < terms.len() {
            assert(more[j] == terms[j]);
            match terms[j] {
                SearchWordOrTag::RawWord(w) => {
                    let a = choose|a: int| 0 <= a < words.len() && words[a] == w@;
                    assert(words1[a] == w@);
                },
                SearchWordOrTag::RawTag(t) => {
                    let b = choose|b: int| 0 <= b < tags.len() && tags[b] == t@;
                    assert(tags1[b] == t@);
                },
            }
        } else {
            match term {
                SearchWordOrTag::RawWord(w) => {
                    assert(words1[words.len() as int] == w@);
                },
                SearchWordOrTag::RawTag(t) => {
                    assert(tags1[tags.len() as int] == t@);
                },
            }
        }
    }
    assert forall|a: int| 0 <= a < words1.len() implies exists|j: int|
        0 <= j < more.len() && is_word_term(more[j], #[trigger] words1[a]) by {
        if a < words.len() {
            assert(words1[a] == words[a]);
            let j = choose|j: int| 0 <= j < terms.len() && is_word_term(terms[j], words[a]);
            assert(more[j] == terms[j]);
        } else {
            assert(is_word_term(more[terms.len() as int], words1[a]));
        }
    }
    assert forall|b: int| 0 <= b < tags1.len() implies exists|j: int|
        0 <= j < more.len() && is_tag_term(more[j], #[trigger] tags1[b]) by {
        if b < tags.len() {
            assert(tags1[b] == tags[b]);
            let j = choose|j: int| 0 <= j < terms.len() && is_tag_term(terms[j], tags[b]);
            assert(more[j] == terms[j]);
        } else {
            assert(is_tag_term(more[terms.len() as int], tags1[b]));
        }
    }
}

/// A record matches every term of a search exactly when its words hold every
/// word term and its tags hold every tag term.
pub proof fn lemma_parted_hit(
    record: Record,
    terms: Seq<SearchWordOrTag>,
    words: Seq<Seq<char>>,
    tags: Seq<Seq<char>>,
)
    requires
        parted(terms, words, tags),
    ensures
        is_hit(record, terms) <==> !record.done && (forall|a: int|
            0 <= a < words.len() ==> holds(record.words, #[trigger] words[a])) && (forall|b: int|
            0 <= b < tags.len() ==> holds(record.tags, #[trigger] tags[b])),
{
    if is_hit(record, terms) {
        assert forall|a: int| 0 <= a < words.len() implies holds(record.words, #[trigger] words[a]) by {
            let j = choose|j: int|
                0 <= j < terms.len() && is_word_term(terms[j], words[a]);
            assert(term_matches(record, terms[j]));
        }
        assert forall|b: int| 0 <= b < tags.len() implies holds(record.tags, #[trigger] tags[b]) by {
            let j = choose|j: int|
                0 <= j < terms.len() && is_tag_term(terms[j], tags[b]);
            assert(term_matches(record, terms[j]));
        }
    }
    if !record.done && (forall|a: int| 0 <= a < words.len() ==> holds(record.words, #[trigger] words[a]))
        && (forall|b: int| 0 <= b < tags.len() ==> holds(record.tags, #[trigger] tags[b])) {
        assert forall|j: int| 0 <= j < terms.len() implies term_matches(record, #[trigger] terms[j]) by {
            match terms[j] {
                SearchWordOrTag::RawWord(w) => {
                    let a = choose|a: int| 0 <= a < words.len() && words[a] == w@;
                    assert(holds(record.words, words[a]));
                },
                SearchWordOrTag::RawTag(t) => {
                    let b = choose|b: int| 0 <= b < tags.len() && tags[b] == t@;
                    assert(holds(record.tags, tags[b]));
                },
            }
        }
    }
}

/// The store that keeps a trie over the words of its records and one over
/// their tags, and asks them.
pub struct TriedoList<T: Trie + Default> {
    items: Vec<TodoItem>,
    words: T,
    tags: T,
}

impl<T: Trie + Default> TriedoList<T> {
    /// A store without records. The tries are `T::default()`, which is to
    /// be a trie in order that holds nothing.
    pub fn new() -> (list: Self)
        requires
            forall|t: T| call_ensures(T::default, (), t) ==> t.wf() && t.entries() == Set::<(u64, Seq<char>)>::empty(),
        ensures
            list.wf(),
            list.records() == Seq::<Record>::empty(),
    {
        let list = TriedoList { items: Vec::new(), words: T::default(), tags: T::default() };
        assert(list.records() =~= Seq::<Record>::empty());
        assert(entries_of(list.records(), false) =~= Set::<(u64, Seq<char>)>::empty());
        assert(entries_of(list.records(), true) =~= Set::<(u64, Seq<char>)>::empty());
        list
    }
}

impl<T: Trie + Default> TodoLister for TriedoList<T> {
    closed spec fn wf(&self) -> bool {
        &&& numbered(records_in(self.items@))
        &&& self.words.wf()
        &&& self.tags.wf()
        &&& self.words.entries() == entries_of(records_in(self.items@), false)
        &&& self.tags.entries() == entries_of(records_in(self.items@), true)
    }

    closed spec fn records(&self) -> Seq<Record> {
        records_in(self.items@)
    }

    proof fn lemma_numbered(&self) {
    }

    fn push(&mut self, description: Vec<Word>, tags: Vec<Tag>) -> (item: TodoItem) {
        let ghost before = records_in(self.items@);
        let id = self.items.len() as u64;
        self.words.add(id, word_slices(&description));
        self.tags.add(id, tag_slices(&tags));
        let item = push_item(&mut self.items, description, tags);
        proof {
            let after = records_in(self.items@);
            assert(after[id as int] == item@);
            assert forall|e: (u64, Seq<char>)| entries_of(after, false).contains(e) <==> entries_of(
                before,
                false,
            ).contains(e) || added(id, item@.words).contains(e) by {
                if e.0 < before.len() {
                    assert(after[e.0 as int] == before[e.0 as int]);
                }
            }
            assert forall|e: (u64, Seq<char>)| entries_of(after, true).contains(e) <==> entries_of(
                before,
                true,
            ).contains(e) || added(id, item@.tags).contains(e) by {
                if e.0 < before.len() {
                    assert(after[e.0 as int] == before[e.0 as int]);
                }
            }
            assert(self.words.entries() =~= entries_of(after, false));
            assert(self.tags.entries() =~= entries_of(after, true));
        }
        item
    }

    fn done_with_index(&mut self, idx: Index) -> (marked_index: Option<Index>) {
        let ghost before = records_in(self.items@);
        self.words.delete(idx.value());
        self.tags.delete(idx.value());
        let marked_index = mark_done(&mut self.items, idx);
        proof {
            let after = records_in(self.items@);
            assert forall|e: (u64, Seq<char>)| entries_of(after, false).contains(e) <==> without(
                entries_of(before, false),
                idx.value(),
            ).contains(e) by {
                if e.0 < before.len() && e.0 != idx.value() {
                    assert(after[e.0 as int] == before[e.0 as int]);
                }
            }
            assert forall|e: (u64, Seq<char>)| entries_of(after, true).contains(e) <==> without(
                entries_of(before, true),
                idx.value(),
            ).contains(e) by {
                if e.0 < before.len() && e.0 != idx.value() {
                    assert(after[e.0 as int] == before[e.0 as int]);
                }
            }
            assert(self.words.entries() =~= entries_of(after, false));
            assert(self.tags.entries() =~= entries_of(after, true));
        }
        marked_index
    }

    fn search(&self, sp: SearchParams) -> (found: Vec<&TodoItem>)
        ensures
            sp.params@.len() == 0 ==> found@.len() == 0,
    {
        let ghost recs = records_in(self.items@);
        let mut word_searches: Vec<&str> = Vec::new();
        let mut tag_searches: Vec<&str> = Vec::new();
        let mut k: usize = 0;
        while k < sp.params.len()
            invariant
                0 <= k <= sp.params.len(),
                parted(sp.params@.take(k as int), texts(word_searches@), texts(tag_searches@)),
                word_searches@.len() + tag_searches@.len() == k,
            decreases sp.params.len() - k,
        {
            let ghost terms = sp.params@.take(k as int);
            let ghost words0 = texts(word_searches@);
            let ghost tags0 = texts(tag_searches@);
            assert(sp.params@.take(k + 1) =~= terms.push(sp.params@[k as int]));
            match &sp.params[k] {
                SearchWordOrTag::RawWord(w) => {
                    word_searches.push(w.as_str());
                    assert(texts(word_searches@) =~= words0.push(w@));
                    proof {
                        lemma_parted_push(terms, words0, tags0, sp.params@[k as int]);
                    }
                },
                SearchWordOrTag::RawTag(t) => {
                    tag_searches.push(t.as_str());
                    assert(texts(tag_searches@) =~= tags0.push(t@));
                    proof {
                        lemma_parted_push(terms, words0, tags0, sp.params@[k as int]);
                    }
                },
            }
            k += 1;
        }
        proof {
            assert(sp.params@.take(sp.params@.len() as int) =~= sp.params@);
        }
        let ghost word_queries = texts(word_searches@);
        let ghost tag_queries = texts(tag_searches@);
        let n_words = word_searches.len();
        let n_tags = tag_searches.len();
        let indices: FxHashSet<u64>;
        if n_words > 0 && n_tags > 0 {
            let word_indices = self.words.search(word_searches, None);
            let tag_indices = self.tags.search(tag_searches, Some(&word_indices));
            indices = intersection(&word_indices, &tag_indices);
            assert(indices@ =~= matching_all(self.words.entries(), word_queries).intersect(
                matching_all(self.tags.entries(), tag_queries),
            ));
        } else if n_words > 0 {
            indices = self.words.search(word_searches, None);
            assert(indices@ =~= matching_all(self.words.entries(), word_queries));
        } else if n_tags > 0 {
            indices = self.tags.search(tag_searches, None);
            assert(indices@ =~= matching_all(self.tags.entries(), tag_queries));
        } else {
            return Vec::new();
        }
        proof {
            assert forall|id: u64| indices@.contains(id) <==> id < recs.len() && is_hit(
                recs[id as int],
                sp.params@,
            ) by {
                if word_queries.len() > 0 {
                    lemma_trie_matches(recs, false, word_queries, id);
                }
                if tag_queries.len() > 0 {
                    lemma_trie_matches(recs, true, tag_queries, id);
                }
                if id < recs.len() {
                    lemma_parted_hit(recs[id as int], sp.params@, word_queries, tag_queries);
                }
            }
        }
        let ids = id_set_items(&indices);
        let n_items = self.items.len();
        let mut found: Vec<&TodoItem> = Vec::new();
        let mut j: usize = 0;
        while j < ids.len()
            invariant
                0 <= j <= ids.len(),
                recs == records_in(self.items@),
                recs.len() == n_items,
                numbered(recs),
                forall|i: int| 0 <= i < ids@.len() ==> (#[trigger] ids@[i]) < recs.len(),
                found@.len() == j,
                forall|i: int| 0 <= i < j ==> #[trigger] records_of(found@)[i] == recs[ids@[i] as int],
            decreases ids.len() - j,
        {
            let id = ids[j];
            let ghost before = records_of(found@);
            assert(ids@[j as int] < recs.len());
            found.push(&self.items[id as usize]);
            assert(records_of(found@) =~= before.push(recs[id as int]));
            j += 1;
        }
        proof {
            let out = records_of(found@);
            assert forall|i: int| 0 <= i < out.len() implies {
                &&& (#[trigger] out[i]).index < recs.len()
                &&& recs[out[i].index as int] == out[i]
                &&& is_hit(out[i], sp.params@)
            } by {
                assert(out[i] == recs[ids@[i] as int]);
                assert(indices@.contains(ids@[i]));
            }
            assert forall|i: int| 0 <= i < recs.len() && is_hit(#[trigger] recs[i], sp.params@) implies exists|
                m: int,
            | 0 <= m < out.len() && #[trigger] out[m] == recs[i] by {
                assert(indices@.contains(i as u64));
                assert(ids@.contains(i as u64));
                let m = choose|m: int| 0 <= m < ids@.len() && ids@[m] == i as u64;
                assert(out[m] == recs[ids@[m] as int]);
            }
            assert forall|a: int, b: int| 0 <= a < b < out.len() implies (#[trigger] out[a]).index != (
            #[trigger] out[b]).index by {
                assert(out[a] == recs[ids@[a] as int]);
                assert(out[b] == recs[ids@[b] as int]);
            }
        }
        found
    }
}

} // verus!
