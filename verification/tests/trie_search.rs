use rustc_hash::FxHashSet;
use todo_swamp::subsequence::match_subsequence;
use todo_swamp::{Trie, Trie1, Trie2, Trie3, Trie4};

fn ids(values: &[u64]) -> FxHashSet<u64> {
    values.iter().copied().collect()
}

const FRUIT: [(u64, &str); 7] = [
    (0, "banana"),
    (1, "bandana"),
    (2, "apple"),
    (3, "pineapple"),
    (4, "grape"),
    (5, "a"),
    (6, ""),
];

const QUERIES: [&str; 12] = ["", "a", "an", "bn", "bnn", "bdn", "pple", "pnp", "ae", "gp", "z", "ppp"];

fn fruit<T: Trie>(mut trie: T) -> T {
    for (id, s) in FRUIT {
        trie.add(id, vec![s]);
    }
    trie
}

fn scan(query: &str) -> FxHashSet<u64> {
    FRUIT.iter().filter(|(_, s)| match_subsequence(s, query)).map(|(id, _)| *id).collect()
}

fn banana_bandana<T: Trie>(mut trie: T) {
    trie.add(0, vec!["banana"]);
    trie.add(1, vec!["bandana"]);
    assert_eq!(trie.search(vec!["bn"], None), ids(&[0, 1]));
    assert_eq!(trie.search(vec!["bnn"], None), ids(&[0, 1]));
    assert_eq!(trie.search(vec!["bdn"], None), ids(&[1]));
    trie.delete(0);
    assert_eq!(trie.search(vec!["bn"], None), ids(&[1]));
}

#[test]
fn banana_bandana_trie1() {
    banana_bandana(Trie1::default());
}

#[test]
fn banana_bandana_trie2() {
    banana_bandana(Trie2::default());
}

#[test]
fn banana_bandana_trie3() {
    banana_bandana(Trie3::default());
}

#[test]
fn banana_bandana_trie4() {
    banana_bandana(Trie4::default());
}

fn urgent<T: Trie>(mut trie: T) {
    trie.add(5, vec!["urgent"]);
    assert_eq!(trie.search(vec!["urg"], None), ids(&[5]));
    assert_eq!(trie.search(vec!["xyz"], None), ids(&[]));
}

#[test]
fn urgent_tag_trie1() {
    urgent(Trie1::default());
}

#[test]
fn urgent_tag_trie2() {
    urgent(Trie2::default());
}

#[test]
fn urgent_tag_trie3() {
    urgent(Trie3::default());
}

#[test]
fn urgent_tag_trie4() {
    urgent(Trie4::default());
}

fn agrees_with_scan<T: Trie>(trie: T) {
    let trie = fruit(trie);
    for q in QUERIES {
        assert_eq!(trie.search(vec![q], None), scan(q), "query {:?}", q);
    }
}

#[test]
fn search_agrees_with_scan_trie1() {
    agrees_with_scan(Trie1::default());
}

#[test]
fn search_agrees_with_scan_trie2() {
    agrees_with_scan(Trie2::default());
}

#[test]
fn search_agrees_with_scan_trie3() {
    agrees_with_scan(Trie3::default());
}

#[test]
fn search_agrees_with_scan_trie4() {
    agrees_with_scan(Trie4::default());
}

#[test]
fn scan_gives_the_expected_ids() {
    assert_eq!(scan(""), ids(&[0, 1, 2, 3, 4, 5, 6]));
    assert_eq!(scan("a"), ids(&[0, 1, 2, 3, 4, 5]));
    assert_eq!(scan("pple"), ids(&[2, 3]));
    assert_eq!(scan("pnp"), ids(&[3]));
    assert_eq!(scan("ppp"), ids(&[3]));
    assert_eq!(scan("z"), ids(&[]));
}

fn two_terms<T: Trie>(trie: T) {
    let trie = fruit(trie);
    for q1 in QUERIES {
        for q2 in QUERIES {
            let both = trie.search(vec![q1, q2], None);
            let one = trie.search(vec![q1], None);
            let other = trie.search(vec![q2], None);
            let expected: FxHashSet<u64> = one.intersection(&other).copied().collect();
            assert_eq!(both, expected, "queries {:?} {:?}", q1, q2);
            assert_eq!(trie.search(vec![q2, q1], None), both);
        }
    }
    assert_eq!(trie.search(vec!["a", "p", "n"], None), ids(&[3]));
}

#[test]
fn two_terms_intersect_trie1() {
    two_terms(Trie1::default());
}

#[test]
fn two_terms_intersect_trie2() {
    two_terms(Trie2::default());
}

#[test]
fn two_terms_intersect_trie3() {
    two_terms(Trie3::default());
}

#[test]
fn two_terms_intersect_trie4() {
    two_terms(Trie4::default());
}

fn empty_query<T: Trie>(trie: T) {
    let mut trie = fruit(trie);
    assert_eq!(trie.search(vec![""], None), ids(&[0, 1, 2, 3, 4, 5, 6]));
    trie.add(40, vec![]);
    assert_eq!(trie.search(vec![""], None), ids(&[0, 1, 2, 3, 4, 5, 6]));
    trie.add(41, vec!["", "x"]);
    assert_eq!(trie.search(vec![""], None), ids(&[0, 1, 2, 3, 4, 5, 6, 41]));
}

#[test]
fn empty_query_finds_all_trie1() {
    empty_query(Trie1::default());
}

#[test]
fn empty_query_finds_all_trie2() {
    empty_query(Trie2::default());
}

#[test]
fn empty_query_finds_all_trie3() {
    empty_query(Trie3::default());
}

#[test]
fn empty_query_finds_all_trie4() {
    empty_query(Trie4::default());
}

fn no_query_and_no_entry<T: Trie>(mut trie: T) {
    assert_eq!(trie.search(vec![], None), ids(&[]));
    assert_eq!(trie.search(vec![""], None), ids(&[]));
    assert_eq!(trie.search(vec!["a"], None), ids(&[]));
    trie.add(1, vec!["a"]);
    assert_eq!(trie.search(vec![], None), ids(&[]));
    let filter = ids(&[1]);
    assert_eq!(trie.search(vec![], Some(&filter)), ids(&[]));
}

#[test]
fn no_query_and_no_entry_trie1() {
    no_query_and_no_entry(Trie1::default());
}

#[test]
fn no_query_and_no_entry_trie2() {
    no_query_and_no_entry(Trie2::default());
}

#[test]
fn no_query_and_no_entry_trie3() {
    no_query_and_no_entry(Trie3::default());
}

#[test]
fn no_query_and_no_entry_trie4() {
    no_query_and_no_entry(Trie4::default());
}

fn delete_hides<T: Trie>(trie: T) {
    let mut trie = fruit(trie);
    let before: Vec<FxHashSet<u64>> = QUERIES.iter().map(|q| trie.search(vec![q], None)).collect();
    trie.delete(3);
    for (q, old) in QUERIES.iter().zip(before.iter()) {
        let mut expected = old.clone();
        expected.remove(&3);
        assert_eq!(trie.search(vec![q], None), expected, "query {:?}", q);
    }
    trie.delete(3);
    trie.delete(77);
    assert_eq!(trie.search(vec![""], None), ids(&[0, 1, 2, 4, 5, 6]));
    trie.add(3, vec!["plum"]);
    assert_eq!(trie.search(vec!["pl"], None), ids(&[2, 3]));
    assert_eq!(trie.search(vec!["pine"], None), ids(&[]));
}

#[test]
fn delete_hides_trie1() {
    delete_hides(Trie1::default());
}

#[test]
fn delete_hides_trie2() {
    delete_hides(Trie2::default());
}

#[test]
fn delete_hides_trie3() {
    delete_hides(Trie3::default());
}

#[test]
fn delete_hides_trie4() {
    delete_hides(Trie4::default());
}

fn add_again<T: Trie>(once: T, twice: T) {
    let once = fruit(once);
    let twice = fruit(fruit(twice));
    for q in QUERIES {
        assert_eq!(once.search(vec![q], None), twice.search(vec![q], None));
    }
}

#[test]
fn add_again_changes_nothing_trie1() {
    add_again(Trie1::default(), Trie1::default());
}

#[test]
fn add_again_changes_nothing_trie2() {
    add_again(Trie2::default(), Trie2::default());
}

#[test]
fn add_again_changes_nothing_trie3() {
    add_again(Trie3::default(), Trie3::default());
}

#[test]
fn add_again_changes_nothing_trie4() {
    add_again(Trie4::default(), Trie4::default());
}

fn several_strings<T: Trie>(mut trie: T) {
    trie.add(1, vec!["a"]);
    trie.add(1, vec!["abc", "xyz"]);
    trie.add(2, vec!["abcd"]);
    trie.add(2, vec!["ab"]);
    assert_eq!(trie.search(vec!["abc"], None), ids(&[1, 2]));
    assert_eq!(trie.search(vec!["abcd"], None), ids(&[2]));
    assert_eq!(trie.search(vec!["xz"], None), ids(&[1]));
    assert_eq!(trie.search(vec!["ax"], None), ids(&[]));
    assert_eq!(trie.search(vec!["a", "x"], None), ids(&[1]));
    trie.delete(1);
    assert_eq!(trie.search(vec!["a"], None), ids(&[2]));
    assert_eq!(trie.search(vec!["x"], None), ids(&[]));
}

#[test]
fn several_strings_for_one_id_trie1() {
    several_strings(Trie1::default());
}

#[test]
fn several_strings_for_one_id_trie2() {
    several_strings(Trie2::default());
}

#[test]
fn several_strings_for_one_id_trie3() {
    several_strings(Trie3::default());
}

#[test]
fn several_strings_for_one_id_trie4() {
    several_strings(Trie4::default());
}

fn any_characters<T: Trie>(mut trie: T) {
    trie.add(1, vec!["Héllo Wörld"]);
    trie.add(2, vec!["hello"]);
    assert_eq!(trie.search(vec!["Hlo"], None), ids(&[1]));
    assert_eq!(trie.search(vec!["éö"], None), ids(&[1]));
    assert_eq!(trie.search(vec!["llo"], None), ids(&[1, 2]));
    assert_eq!(trie.search(vec![" W"], None), ids(&[1]));
    assert_eq!(trie.search(vec!["e"], None), ids(&[2]));
}

#[test]
fn any_characters_trie1() {
    any_characters(Trie1::default());
}

#[test]
fn any_characters_trie2() {
    any_characters(Trie2::default());
}

#[test]
fn any_characters_trie3() {
    any_characters(Trie3::default());
}

#[test]
fn any_characters_trie4() {
    any_characters(Trie4::default());
}

fn filter_pairs<T: Trie>(mut trie: T) -> T {
    trie.add(1, vec!["ab"]);
    trie.add(2, vec!["ab"]);
    trie.add(3, vec!["cd"]);
    trie.add(4, vec!["abx"]);
    trie.add(5, vec!["xab"]);
    trie
}

fn filter_is_ignored<T: Trie>(trie: T) {
    let trie = filter_pairs(trie);
    let filter = ids(&[1]);
    assert_eq!(trie.search(vec!["a"], Some(&filter)), ids(&[1, 2, 4, 5]));
    assert_eq!(trie.search(vec!["c"], Some(&filter)), ids(&[3]));
    assert_eq!(trie.search(vec!["a", "b"], Some(&filter)), ids(&[1, 2, 4, 5]));
}

#[test]
fn filter_is_ignored_trie1() {
    filter_is_ignored(Trie1::default());
}

#[test]
fn filter_is_ignored_trie2() {
    filter_is_ignored(Trie2::default());
}

fn filter_prunes<T: Trie>(trie: T) {
    let trie = filter_pairs(trie);
    let filter = ids(&[1]);
    // ids 2 and 4 share with id 1 the prefix "a", on which the query is matched
    assert_eq!(trie.search(vec!["a"], Some(&filter)), ids(&[1, 2, 4]));
    assert_eq!(trie.search(vec!["ab"], Some(&filter)), ids(&[1, 2, 4]));
    assert_eq!(trie.search(vec!["c"], Some(&filter)), ids(&[]));
    assert_eq!(trie.search(vec!["x"], Some(&filter)), ids(&[]));
    assert_eq!(trie.search(vec!["a", "x"], Some(&filter)), ids(&[4]));
    let none = ids(&[]);
    assert_eq!(trie.search(vec!["a"], Some(&none)), ids(&[]));
    assert_eq!(trie.search(vec![""], Some(&none)), ids(&[]));
    let stranger = ids(&[99]);
    assert_eq!(trie.search(vec![""], Some(&stranger)), ids(&[]));
    let four = ids(&[4]);
    assert_eq!(trie.search(vec![""], Some(&four)), ids(&[1, 2, 3, 4, 5]));
    assert_eq!(trie.search(vec!["abx"], Some(&four)), ids(&[4]));
    assert_eq!(trie.search(vec!["x"], Some(&four)), ids(&[4]));
}

#[test]
fn filter_prunes_trie3() {
    filter_prunes(Trie3::default());
}

#[test]
fn filter_prunes_trie4() {
    filter_prunes(Trie4::default());
}

fn filter_keeps_its_matches<T: Trie>(trie: T) {
    let trie = fruit(trie);
    let filter = ids(&[0, 3, 6, 50]);
    for q in QUERIES {
        let all = trie.search(vec![q], None);
        let found = trie.search(vec![q], Some(&filter));
        assert!(found.is_subset(&all));
        for id in all.intersection(&filter) {
            assert!(found.contains(id));
        }
    }
}

#[test]
fn filter_keeps_its_matches_trie1() {
    filter_keeps_its_matches(Trie1::default());
}

#[test]
fn filter_keeps_its_matches_trie2() {
    filter_keeps_its_matches(Trie2::default());
}

#[test]
fn filter_keeps_its_matches_trie3() {
    filter_keeps_its_matches(Trie3::default());
}

#[test]
fn filter_keeps_its_matches_trie4() {
    filter_keeps_its_matches(Trie4::default());
}

#[test]
fn depth_follows_the_longest_string() {
    let mut trie = Trie4::default();
    trie.add(1, vec!["abcdef"]);
    trie.add(1, vec!["ab"]);
    assert_eq!(trie.search(vec!["abcdef"], None), ids(&[1]));
    assert_eq!(trie.search(vec!["abcdefg"], None), ids(&[]));
    let mut trie = Trie4::default();
    trie.add(1, vec!["ab"]);
    trie.add(1, vec!["abcdef"]);
    assert_eq!(trie.search(vec!["abcdef"], None), ids(&[1]));
    assert_eq!(trie.search(vec!["bf"], None), ids(&[1]));
    trie.add(2, vec!["abc"]);
    let filter = ids(&[2]);
    assert_eq!(trie.search(vec!["abc"], Some(&filter)), ids(&[1, 2]));
    assert_eq!(trie.search(vec!["abcd"], Some(&filter)), ids(&[]));
}

#[test]
fn new_tries_hold_nothing() {
    assert_eq!(Trie1::new().search(vec![""], None), ids(&[]));
    assert_eq!(Trie2::new().search(vec![""], None), ids(&[]));
    assert_eq!(Trie3::new().search(vec![""], None), ids(&[]));
    assert_eq!(Trie4::new().search(vec![""], None), ids(&[]));
}
