use rustc_hash::FxHashSet;
use todo_swamp::depth_tree::DepthTree;
use todo_swamp::id_tree::IdTree;
use todo_swamp::todo_list::{TodoList, TodoList2};
use todo_swamp::{Index, SearchParams, SearchWordOrTag, Tag, TodoLister, Word};

fn ids(values: &[u64]) -> FxHashSet<u64> {
    values.iter().copied().collect()
}

fn chars(s: &str) -> Vec<char> {
    s.chars().collect()
}

#[test]
fn id_tree_inserts_and_collects() {
    let mut tree = IdTree::new();
    assert_eq!(tree.collect(&chars(""), None), ids(&[]));
    tree.insert(1, &chars("abc"));
    tree.insert(2, &chars("abd"));
    tree.insert(3, &chars("xbc"));
    tree.insert(1, &chars("q"));
    assert_eq!(tree.collect(&chars("ab"), None), ids(&[1, 2]));
    assert_eq!(tree.collect(&chars("bc"), None), ids(&[1, 3]));
    assert_eq!(tree.collect(&chars("q"), None), ids(&[1]));
    assert_eq!(tree.collect(&chars(""), None), ids(&[1, 2, 3]));
    assert_eq!(tree.collect(&chars("abcd"), None), ids(&[]));
    assert_eq!(tree.collect_rec(&chars("ab")), ids(&[1, 2]));
    assert_eq!(tree.collect_rec(&chars("c")), ids(&[1, 3]));
    assert_eq!(tree.collect_rec(&chars("")), ids(&[1, 2, 3]));
    let filter = ids(&[2]);
    assert_eq!(tree.collect(&chars("ab"), Some(&filter)), ids(&[1, 2]));
    assert_eq!(tree.collect(&chars("abc"), Some(&filter)), ids(&[]));
    assert_eq!(tree.collect(&chars("b"), Some(&filter)), ids(&[1, 2]));
}

#[test]
fn id_tree_erases() {
    let mut tree = IdTree::new();
    tree.insert(1, &chars("abc"));
    tree.insert(2, &chars("abd"));
    tree.erase(1);
    assert_eq!(tree.collect(&chars("a"), None), ids(&[2]));
    assert_eq!(tree.collect(&chars("c"), None), ids(&[]));
    tree.erase(1);
    tree.erase(9);
    assert_eq!(tree.collect(&chars(""), None), ids(&[2]));
    tree.erase(2);
    assert_eq!(tree.collect(&chars(""), None), ids(&[]));
    tree.insert(1, &chars("abc"));
    assert_eq!(tree.collect(&chars("ac"), None), ids(&[1]));
}

#[test]
fn id_tree_goes_down_as_it_walks() {
    let mut walked = IdTree::new();
    let mut handed = IdTree::new();
    for (id, s) in [(1, "abc"), (2, "abd"), (3, ""), (1, "zz"), (4, "abc")] {
        walked.insert(id, &chars(s));
        handed.insert_rec(id, &chars(s));
    }
    for q in ["", "a", "ab", "abc", "d", "z", "zz", "zzz", "ca"] {
        assert_eq!(walked.collect(&chars(q), None), handed.collect(&chars(q), None), "query {:?}", q);
        assert_eq!(handed.collect_rec(&chars(q)), walked.collect_rec(&chars(q)), "query {:?}", q);
    }
    assert_eq!(handed.collect(&chars("abc"), None), ids(&[1, 4]));
    walked.erase(1);
    handed.erase_rec(1);
    for q in ["", "a", "abc", "z"] {
        assert_eq!(walked.collect(&chars(q), None), handed.collect(&chars(q), None), "query {:?}", q);
    }
    assert_eq!(handed.collect(&chars(""), None), ids(&[2, 3, 4]));
    assert_eq!(handed.collect(&chars("z"), None), ids(&[]));
    handed.erase_rec(7);
    assert_eq!(handed.collect(&chars(""), None), ids(&[2, 3, 4]));
}

#[test]
fn depth_tree_inserts_collects_and_erases() {
    let mut tree = DepthTree::new();
    assert_eq!(tree.collect(&chars(""), None), ids(&[]));
    tree.insert(1, &chars("abc"));
    tree.insert(2, &chars("abd"));
    tree.insert(3, &chars("xbc"));
    tree.insert(1, &chars("q"));
    assert_eq!(tree.collect(&chars("ab"), None), ids(&[1, 2]));
    assert_eq!(tree.collect(&chars("bc"), None), ids(&[1, 3]));
    assert_eq!(tree.collect(&chars("q"), None), ids(&[1]));
    assert_eq!(tree.collect(&chars(""), None), ids(&[1, 2, 3]));
    assert_eq!(tree.collect(&chars("abcd"), None), ids(&[]));
    let filter = ids(&[2]);
    assert_eq!(tree.collect(&chars("ab"), Some(&filter)), ids(&[1, 2]));
    assert_eq!(tree.collect(&chars("abc"), Some(&filter)), ids(&[]));
    tree.erase(1);
    assert_eq!(tree.collect(&chars("b"), None), ids(&[2, 3]));
    assert_eq!(tree.collect(&chars("q"), None), ids(&[]));
    tree.erase(1);
    tree.erase(2);
    tree.erase(3);
    assert_eq!(tree.collect(&chars(""), None), ids(&[]));
    tree.insert(2, &chars("q"));
    assert_eq!(tree.collect(&chars("q"), None), ids(&[2]));
}

#[test]
fn a_copy_of_a_store_holds_the_same_records() {
    let mut list = TodoList::new();
    list.push(vec![Word::new("a")], vec![Tag::new("t")]);
    list.push(vec![Word::new("b")], vec![]);
    list.done_with_index(Index::new(0));
    let copy = list.clone();
    assert_eq!(copy, list);
    let terms = SearchParams { params: vec![SearchWordOrTag::RawWord(String::new())] };
    assert_eq!(copy.search(terms.clone()), list.search(terms));
    let mut list = TodoList2::new();
    list.push(vec![Word::new("a")], vec![Tag::new("t")]);
    let mut copy = list.clone();
    assert_eq!(copy, list);
    copy.push(vec![Word::new("b")], vec![]);
    assert_ne!(copy, list);
}
