use rustc_hash::FxHashSet;
use todo_swamp::fx::{copy_of, intersection, intersects, union_into};
use todo_swamp::subsequence::{chars_of, match_subsequence, scan_subsequence};
use todo_swamp::{TodoList, TodoList2};

fn ids(values: &[u64]) -> FxHashSet<u64> {
    values.iter().copied().collect()
}

#[test]
fn empty_is_a_subsequence_of_everything() {
    assert!(match_subsequence("", ""));
    assert!(match_subsequence("a", ""));
    assert!(match_subsequence("banana", ""));
}

#[test]
fn nothing_but_empty_is_a_subsequence_of_empty() {
    assert!(!match_subsequence("", "a"));
    assert!(!match_subsequence("", "ab"));
}

#[test]
fn subsequences_of_banana() {
    assert!(match_subsequence("banana", "banana"));
    assert!(match_subsequence("banana", "bn"));
    assert!(match_subsequence("banana", "bnn"));
    assert!(match_subsequence("banana", "aaa"));
    assert!(match_subsequence("banana", "nn"));
    assert!(!match_subsequence("banana", "nnn"));
    assert!(!match_subsequence("banana", "ab"));
    assert!(!match_subsequence("banana", "bananas"));
    assert!(!match_subsequence("banana", "bd"));
}

#[test]
fn subsequences_of_bandana() {
    assert!(match_subsequence("bandana", "bnn"));
    assert!(match_subsequence("bandana", "bdn"));
    assert!(match_subsequence("bandana", "bnd"));
    assert!(!match_subsequence("bandana", "bdd"));
    assert!(!match_subsequence("bandana", "dnb"));
}

#[test]
fn order_matters() {
    assert!(match_subsequence("abc", "ac"));
    assert!(!match_subsequence("abc", "ca"));
    assert!(!match_subsequence("abc", "abcd"));
}

#[test]
fn characters_not_bytes() {
    assert!(match_subsequence("héllo", "hé"));
    assert!(match_subsequence("héllo", "éo"));
    assert!(!match_subsequence("hello", "é"));
}

#[test]
fn the_stores_match_alike() {
    for (seq, sub) in [("banana", "bnn"), ("banana", "nnn"), ("", ""), ("a", "aa")] {
        assert_eq!(TodoList::match_subsequence(seq, sub), match_subsequence(seq, sub));
        assert_eq!(TodoList2::match_subsequence(seq, sub), match_subsequence(seq, sub));
    }
}

#[test]
fn chars_of_gives_the_characters() {
    assert_eq!(chars_of("a-b"), vec!['a', '-', 'b']);
    assert_eq!(chars_of(""), Vec::<char>::new());
    assert_eq!(chars_of("né"), vec!['n', 'é']);
}

#[test]
fn scan_on_characters() {
    assert!(scan_subsequence(&vec!['a', 'b', 'c'], &vec!['a', 'c']));
    assert!(!scan_subsequence(&vec!['a', 'b', 'c'], &vec!['c', 'a']));
    assert!(scan_subsequence(&vec![], &vec![]));
}

#[test]
fn union_adds_the_ids() {
    let mut a = ids(&[1, 2]);
    union_into(&mut a, &ids(&[2, 3]));
    assert_eq!(a, ids(&[1, 2, 3]));
    union_into(&mut a, &ids(&[]));
    assert_eq!(a, ids(&[1, 2, 3]));
}

#[test]
fn intersection_keeps_the_common_ids() {
    assert_eq!(intersection(&ids(&[1, 2, 3]), &ids(&[2, 3, 4])), ids(&[2, 3]));
    assert_eq!(intersection(&ids(&[1]), &ids(&[2])), ids(&[]));
    assert_eq!(intersection(&ids(&[]), &ids(&[2])), ids(&[]));
}

#[test]
fn intersects_tells_of_a_common_id() {
    assert!(intersects(&ids(&[1, 2, 3]), &ids(&[3, 4])));
    assert!(!intersects(&ids(&[1, 2]), &ids(&[3, 4])));
    assert!(!intersects(&ids(&[]), &ids(&[3, 4])));
    assert!(!intersects(&ids(&[1]), &ids(&[])));
}

#[test]
fn copy_holds_the_same_ids() {
    assert_eq!(copy_of(&ids(&[7, 8])), ids(&[7, 8]));
    assert_eq!(copy_of(&ids(&[])), ids(&[]));
}
