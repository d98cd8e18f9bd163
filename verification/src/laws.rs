//! What holds of every search, stated over the entries of a trie and the
//! records of a store.

use vstd::prelude::*;
use crate::parser::{is_digit, lemma_digit_run, read, read_add, read_done, stands_at, Command};
use crate::render::{digits_of, lemma_digits_decimal};
use crate::shape::{matching, matching_all, without};
use crate::subsequence::{is_subsequence, lemma_subsequence_empty};
use crate::todo_list::{
    entries_of, holds, is_hit, lemma_trie_matches, lists_hits, numbered, strings_of, Record,
    SearchWordOrTag,
};
use crate::trie::{added, lemma_search_result_bounds, search_result};

verus! {

/// The ids that have an entry.
pub open spec fn ids_of(entries: Set<(u64, Seq<char>)>) -> Set<u64> {
    Set::new(|id: u64| exists|s: Seq<char>| #[trigger] entries.contains((id, s)))
}

/// A search for one query finds what looking at every entry in turn finds:
/// the ids with a string that holds the query as a subsequence.
pub proof fn lemma_search_is_scan(entries: Set<(u64, Seq<char>)>, query: Seq<char>, id: u64)
    ensures
        search_result(entries, seq![query], None).contains(id) <==> exists|s: Seq<char>|
            #[trigger] entries.contains((id, s)) && is_subsequence(s, query),
{
    let queries = seq![query];
    lemma_search_result_bounds(entries, queries, None);
    assert(queries[0] == query);
    if search_result(entries, queries, None).contains(id) {
        assert(matching(entries, queries[0]).contains(id));
    }
    if exists|s: Seq<char>| #[trigger] entries.contains((id, s)) && is_subsequence(s, query) {
        assert(matching(entries, query).contains(id));
        assert forall|k: int| 0 <= k < queries.len() implies #[trigger] matching(entries, queries[k]).contains(
            id,
        ) by {
            assert(queries[k] == query);
        }
        assert(matching_all(entries, queries).contains(id));
    }
}

/// In the trie over the words, or the tags, of a store a search for one
/// query finds the indices of the records that are not done and have a word,
/// or a tag, that holds the query as a subsequence.
pub proof fn lemma_trie_search_is_record_scan(
    records: Seq<Record>,
    tags: bool,
    query: Seq<char>,
    id: u64,
)
    ensures
        search_result(entries_of(records, tags), seq![query], None).contains(id) <==> id < records.len()
            && !records[id as int].done && holds(strings_of(records[id as int], tags), query),
{
    let queries = seq![query];
    lemma_search_result_bounds(entries_of(records, tags), queries, None);
    lemma_trie_matches(records, tags, queries, id);
    assert(queries[0] == query);
}

/// Two lists of the hits of one search hold the same records, whatever
/// their order.
pub proof fn lemma_hits_agree(
    items: Seq<Record>,
    terms: Seq<SearchWordOrTag>,
    one: Seq<Record>,
    other: Seq<Record>,
    record: Record,
)
    requires
        lists_hits(items, terms, one),
        lists_hits(items, terms, other),
    ensures
        one.contains(record) <==> other.contains(record),
{
    if one.contains(record) {
        let k = choose|k: int| 0 <= k < one.len() && one[k] == record;
        let i = one[k].index as int;
        assert(items[i] == record && is_hit(items[i], terms));
        let m = choose|m: int| 0 <= m < other.len() && #[trigger] other[m] == items[i];
        assert(other[m] == record);
    }
    if other.contains(record) {
        let k = choose|k: int| 0 <= k < other.len() && other[k] == record;
        let i = other[k].index as int;
        assert(items[i] == record && is_hit(items[i], terms));
        let m = choose|m: int| 0 <= m < one.len() && #[trigger] one[m] == items[i];
        assert(one[m] == record);
    }
}

/// A search for several queries finds the ids that a search for some of
/// them and a search for the others both find.
pub proof fn lemma_search_all_is_intersection(
    entries: Set<(u64, Seq<char>)>,
    some: Seq<Seq<char>>,
    others: Seq<Seq<char>>,
)
    requires
        some.len() > 0,
        others.len() > 0,
    ensures
        search_result(entries, some + others, None) =~= search_result(entries, some, None).intersect(
            search_result(entries, others, None),
        ),
{
    let all = some + others;
    lemma_search_result_bounds(entries, all, None);
    lemma_search_result_bounds(entries, some, None);
    lemma_search_result_bounds(entries, others, None);
    assert forall|id: u64| matching_all(entries, all).contains(id) <==> matching_all(entries, some).contains(
        id,
    ) && matching_all(entries, others).contains(id) by {
        if matching_all(entries, all).contains(id) {
            assert forall|k: int| 0 <= k < some.len() implies #[trigger] matching(entries, some[k]).contains(
                id,
            ) by {
                assert(all[k] == some[k]);
                assert(matching(entries, all[k]).contains(id));
            }
            assert forall|k: int| 0 <= k < others.len() implies #[trigger] matching(
                entries,
                others[k],
            ).contains(id) by {
                assert(all[some.len() + k] == others[k]);
                assert(matching(entries, all[some.len() + k]).contains(id));
            }
        }
        if matching_all(entries, some).contains(id) && matching_all(entries, others).contains(id) {
            assert forall|k: int| 0 <= k < all.len() implies #[trigger] matching(entries, all[k]).contains(
                id,
            ) by {
                if k < some.len() {
                    assert(all[k] == some[k]);
                    assert(matching(entries, some[k]).contains(id));
                } else {
                    assert(all[k] == others[k - some.len()]);
                    assert(matching(entries, others[k - some.len()]).contains(id));
                }
            }
        }
    }
}

/// A search for two queries finds the ids that the search for the one and
/// the search for the other both find, in whichever order the two are given.
pub proof fn lemma_search_two(entries: Set<(u64, Seq<char>)>, q1: Seq<char>, q2: Seq<char>)
    ensures
        search_result(entries, seq![q1, q2], None) =~= search_result(entries, seq![q1], None).intersect(
            search_result(entries, seq![q2], None),
        ),
        search_result(entries, seq![q1, q2], None) =~= search_result(entries, seq![q2, q1], None),
{
    assert(seq![q1, q2] =~= seq![q1] + seq![q2]);
    assert(seq![q2, q1] =~= seq![q2] + seq![q1]);
    lemma_search_all_is_intersection(entries, seq![q1], seq![q2]);
    lemma_search_all_is_intersection(entries, seq![q2], seq![q1]);
}

/// A search for the empty query finds every id that has an entry.
pub proof fn lemma_empty_query_finds_all(entries: Set<(u64, Seq<char>)>)
    ensures
        search_result(entries, seq![Seq::<char>::empty()], None) =~= ids_of(entries),
{
    let e = Seq::<char>::empty();
    let queries = seq![e];
    lemma_search_result_bounds(entries, queries, None);
    assert forall|id: u64| matching_all(entries, queries).contains(id) <==> ids_of(entries).contains(id) by {
        if matching_all(entries, queries).contains(id) {
            assert(matching(entries, queries[0]).contains(id));
        }
        if ids_of(entries).contains(id) {
            let s = choose|s: Seq<char>| #[trigger] entries.contains((id, s));
            lemma_subsequence_empty(s);
            assert forall|k: int| 0 <= k < queries.len() implies #[trigger] matching(
                entries,
                queries[k],
            ).contains(id) by {
                assert(queries[k] == e);
                assert(entries.contains((id, s)) && is_subsequence(s, queries[k]));
            }
        }
    }
}

/// After an id has been deleted no search finds it, and every search finds
/// of the other ids what it found before.
pub proof fn lemma_delete_hides(
    entries: Set<(u64, Seq<char>)>,
    id: u64,
    queries: Seq<Seq<char>>,
    other: u64,
)
    requires
        queries.len() > 0,
    ensures
        !search_result(without(entries, id), queries, None).contains(id),
        other != id ==> (search_result(without(entries, id), queries, None).contains(other)
            <==> search_result(entries, queries, None).contains(other)),
{
    let after = without(entries, id);
    lemma_search_result_bounds(after, queries, None);
    lemma_search_result_bounds(entries, queries, None);
    if matching_all(after, queries).contains(id) {
        assert(matching(after, queries[0]).contains(id));
        let s = choose|s: Seq<char>| #[trigger] after.contains((id, s)) && is_subsequence(s, queries[0]);
        assert(false);
    }
    if other != id {
        if matching_all(after, queries).contains(other) {
            assert forall|k: int| 0 <= k < queries.len() implies #[trigger] matching(
                entries,
                queries[k],
            ).contains(other) by {
                assert(matching(after, queries[k]).contains(other));
                let s = choose|s: Seq<char>| #[trigger]
                    after.contains((other, s)) && is_subsequence(s, queries[k]);
                assert(entries.contains((other, s)));
            }
        }
        if matching_all(entries, queries).contains(other) {
            assert forall|k: int| 0 <= k < queries.len() implies #[trigger] matching(after, queries[k]).contains(
                other,
            ) by {
                assert(matching(entries, queries[k]).contains(other));
                let s = choose|s: Seq<char>| #[trigger]
                    entries.contains((other, s)) && is_subsequence(s, queries[k]);
                assert(after.contains((other, s)));
            }
        }
    }
}

/// Adding for an id strings that were added for it already changes nothing:
/// the trie holds the same entries, and every search finds the same ids.
pub proof fn lemma_add_again(
    entries: Set<(u64, Seq<char>)>,
    id: u64,
    inserts: Seq<Seq<char>>,
    queries: Seq<Seq<char>>,
    filter: Option<Set<u64>>,
)
    ensures
        entries.union(added(id, inserts)).union(added(id, inserts)) =~= entries.union(added(id, inserts)),
        search_result(entries.union(added(id, inserts)).union(added(id, inserts)), queries, filter)
            == search_result(entries.union(added(id, inserts)), queries, filter),
{
    assert(entries.union(added(id, inserts)).union(added(id, inserts)) =~= entries.union(
        added(id, inserts),
    ));
}

/// The indices of the records of a store count up from zero: each record
/// has a greater index than the records before it.
pub proof fn lemma_indices_increase(records: Seq<Record>, a: int, b: int)
    requires
        numbered(records),
        0 <= a < b < records.len(),
    ensures
        records[0].index == 0,
        records[a].index < records[b].index,
{
}

/// The digits of a number are digits.
pub proof fn lemma_digits_are_digits(n: nat, k: int)
    requires
        0 <= k < digits_of(n).len(),
    ensures
        is_digit(digits_of(n)[k]),
    decreases n,
{
    if n >= 10 {
        if k < digits_of(n / 10).len() {
            lemma_digits_are_digits(n / 10, k);
        }
    }
}

/// A `done` command that is written with the digits of an index is read as
/// the `done` command for that index, to the end of the line.
pub proof fn lemma_done_is_read_back(n: u64)
    ensures
        read(seq!['d', 'o', 'n', 'e', ' '] + digits_of(n as nat)) == Some(
            (Command::Done(n as nat), 5 + digits_of(n as nat).len() as int),
        ),
{
    let digits = digits_of(n as nat);
    let line = seq!['d', 'o', 'n', 'e', ' '] + digits;
    assert(line.subrange(0, 4) =~= seq!['d', 'o', 'n', 'e']);
    assert(line[4] == ' ');
    assert forall|k: int| 5 <= k < line.len() implies is_digit(#[trigger] line[k]) by {
        lemma_digits_are_digits(n as nat, k - 5);
        assert(line[k] == digits[k - 5]);
    }
    lemma_digit_run(line, 5, line.len() as int);
    assert(line.subrange(5, line.len() as int) =~= digits);
    lemma_digits_decimal(n as nat);
    assert(read_add(line).is_none()) by {
        if stands_at(line, 0, seq!['a', 'd', 'd']) {
            assert(line.subrange(0, 3)[0] == 'a');
        }
    }
    assert(digits.len() > 0);
    assert(read_done(line) == Some((Command::Done(n as nat), 5 + digits.len() as int)));
}

} // verus!
