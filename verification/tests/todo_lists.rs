use todo_swamp::todo_list::{TodoList, TodoList2, TriedoList};
use todo_swamp::{
    Index, SearchParams, SearchWordOrTag, Tag, TodoItem, TodoLister, Trie1, Trie2, Trie3, Trie4, Word,
};

fn words(ss: &[&str]) -> Vec<Word> {
    ss.iter().map(|s| Word::new(s)).collect()
}

fn word(s: &str) -> SearchWordOrTag {
    SearchWordOrTag::RawWord(s.to_string())
}

fn tag(s: &str) -> SearchWordOrTag {
    SearchWordOrTag::RawTag(s.to_string())
}

fn found<T: TodoLister>(list: &T, terms: Vec<SearchWordOrTag>) -> Vec<u64> {
    let mut found: Vec<u64> = list.search(SearchParams { params: terms }).iter().map(|i| i.index.value()).collect();
    found.sort();
    found
}

fn in_given_order<T: TodoLister>(list: &T, terms: Vec<SearchWordOrTag>) -> Vec<u64> {
    list.search(SearchParams { params: terms }).iter().map(|i| i.index.value()).collect()
}

fn filled<T: TodoLister>(mut list: T) -> T {
    list.push(words(&["buy", "milk"]), Tag::from_strings(vec!["shop", "food"]));
    list.push(words(&["buy", "bread"]), Tag::from_strings(vec!["shop"]));
    list.push(words(&["call", "mum"]), Tag::from_strings(vec![]));
    list.push(words(&["banana"]), Tag::from_strings(vec!["urgent", "food"]));
    list.push(words(&["bandana"]), Tag::from_strings(vec!["urgent"]));
    list
}

fn indices_count_up<T: TodoLister>(mut list: T) {
    for expected in 0..5u64 {
        let item = list.push(words(&["w"]), Tag::from_strings(vec!["t"]));
        assert_eq!(item.index, Index::new(expected));
        assert_eq!(item.index.value(), expected);
    }
    list.done_with_index(Index::new(2));
    let item = list.push(words(&["w"]), vec![]);
    assert_eq!(item.index.value(), 5);
}

#[test]
fn indices_count_up_naive() {
    indices_count_up(TodoList::new());
}

#[test]
fn indices_count_up_naive2() {
    indices_count_up(TodoList2::new());
}

#[test]
fn indices_count_up_trie1() {
    indices_count_up(TriedoList::<Trie1>::new());
}

#[test]
fn indices_count_up_trie4() {
    indices_count_up(TriedoList::<Trie4>::new());
}

fn push_hands_back_the_record<T: TodoLister>(mut list: T) {
    let item = list.push(words(&["buy", "milk"]), Tag::from_strings(vec!["shop"]));
    assert_eq!(
        item,
        TodoItem::new(Index::new(0), words(&["buy", "milk"]), vec![Tag::new("shop")], false)
    );
    assert_eq!(item.description[1].value(), "milk");
    assert_eq!(item.tags[0].value(), "shop");
    assert!(!item.done);
}

#[test]
fn push_hands_back_the_record_naive() {
    push_hands_back_the_record(TodoList::new());
}

#[test]
fn push_hands_back_the_record_naive2() {
    push_hands_back_the_record(TodoList2::new());
}

#[test]
fn push_hands_back_the_record_trie3() {
    push_hands_back_the_record(TriedoList::<Trie3>::new());
}

fn search_words_and_tags<T: TodoLister>(list: T) {
    let list = filled(list);
    assert_eq!(found(&list, vec![word("buy")]), vec![0, 1]);
    assert_eq!(found(&list, vec![word("b")]), vec![0, 1, 3, 4]);
    assert_eq!(found(&list, vec![word("bn")]), vec![3, 4]);
    assert_eq!(found(&list, vec![word("bdn")]), vec![4]);
    assert_eq!(found(&list, vec![tag("shp")]), vec![0, 1]);
    assert_eq!(found(&list, vec![tag("urg")]), vec![3, 4]);
    assert_eq!(found(&list, vec![tag("xyz")]), Vec::<u64>::new());
    assert_eq!(found(&list, vec![word("buy"), tag("fd")]), vec![0]);
    assert_eq!(found(&list, vec![tag("fd"), word("b")]), vec![0, 3]);
    assert_eq!(found(&list, vec![word("b"), word("mk")]), vec![0]);
    assert_eq!(found(&list, vec![tag("food"), tag("urgent")]), vec![3]);
    assert_eq!(found(&list, vec![word("shop")]), Vec::<u64>::new());
    assert_eq!(found(&list, vec![tag("buy")]), Vec::<u64>::new());
    assert_eq!(found(&list, vec![word("")]), vec![0, 1, 2, 3, 4]);
    assert_eq!(found(&list, vec![tag("")]), vec![0, 1, 3, 4]);
    assert_eq!(found(&list, vec![word("mum"), tag("")]), Vec::<u64>::new());
}

#[test]
fn search_words_and_tags_naive() {
    search_words_and_tags(TodoList::new());
}

#[test]
fn search_words_and_tags_naive2() {
    search_words_and_tags(TodoList2::new());
}

#[test]
fn search_words_and_tags_trie1() {
    search_words_and_tags(TriedoList::<Trie1>::new());
}

#[test]
fn search_words_and_tags_trie2() {
    search_words_and_tags(TriedoList::<Trie2>::new());
}

#[test]
fn search_words_and_tags_trie3() {
    search_words_and_tags(TriedoList::<Trie3>::new());
}

#[test]
fn search_words_and_tags_trie4() {
    search_words_and_tags(TriedoList::<Trie4>::new());
}

fn done_hides<T: TodoLister>(list: T) {
    let mut list = filled(list);
    assert_eq!(list.done_with_index(Index::new(3)), Some(Index::new(3)));
    assert_eq!(found(&list, vec![word("bn")]), vec![4]);
    assert_eq!(found(&list, vec![tag("urg")]), vec![4]);
    assert_eq!(found(&list, vec![tag("food")]), vec![0]);
    assert_eq!(found(&list, vec![word("")]), vec![0, 1, 2, 4]);
    assert_eq!(list.done_with_index(Index::new(3)), Some(Index::new(3)));
    assert_eq!(found(&list, vec![word("")]), vec![0, 1, 2, 4]);
    assert_eq!(list.done_with_index(Index::new(0)), Some(Index::new(0)));
    assert_eq!(found(&list, vec![word("buy")]), vec![1]);
}

#[test]
fn done_hides_naive() {
    done_hides(TodoList::new());
}

#[test]
fn done_hides_naive2() {
    done_hides(TodoList2::new());
}

#[test]
fn done_hides_trie1() {
    done_hides(TriedoList::<Trie1>::new());
}

#[test]
fn done_hides_trie2() {
    done_hides(TriedoList::<Trie2>::new());
}

#[test]
fn done_hides_trie3() {
    done_hides(TriedoList::<Trie3>::new());
}

#[test]
fn done_hides_trie4() {
    done_hides(TriedoList::<Trie4>::new());
}

fn done_without_record<T: TodoLister>(list: T) {
    let mut list = filled(list);
    assert_eq!(list.done_with_index(Index::new(5)), None);
    assert_eq!(list.done_with_index(Index::new(u64::MAX)), None);
    assert_eq!(found(&list, vec![word("")]), vec![0, 1, 2, 3, 4]);
    assert_eq!(list.done_with_index(Index::new(4)), Some(Index::new(4)));
}

#[test]
fn done_without_record_naive() {
    done_without_record(TodoList::new());
}

#[test]
fn done_without_record_naive2() {
    done_without_record(TodoList2::new());
}

#[test]
fn done_without_record_trie2() {
    done_without_record(TriedoList::<Trie2>::new());
}

#[test]
fn done_without_record_trie4() {
    done_without_record(TriedoList::<Trie4>::new());
}

#[test]
fn done_on_an_empty_store() {
    assert_eq!(TodoList::new().done_with_index(Index::new(0)), None);
    assert_eq!(TodoList2::new().done_with_index(Index::new(0)), None);
    assert_eq!(TriedoList::<Trie4>::new().done_with_index(Index::new(0)), None);
}

#[test]
fn the_scans_answer_in_the_order_of_the_indices() {
    let list = filled(TodoList::new());
    assert_eq!(in_given_order(&list, vec![word("b")]), vec![0, 1, 3, 4]);
    assert_eq!(in_given_order(&list, vec![word("")]), vec![0, 1, 2, 3, 4]);
    let list = filled(TodoList2::new());
    assert_eq!(in_given_order(&list, vec![word("b")]), vec![0, 1, 3, 4]);
    assert_eq!(in_given_order(&list, vec![word("b"), tag("")]), vec![0, 1, 3, 4]);
}

#[test]
fn a_search_without_terms() {
    let list = filled(TodoList::new());
    assert_eq!(found(&list, vec![]), vec![0, 1, 2, 3, 4]);
    let list = filled(TodoList2::new());
    assert_eq!(found(&list, vec![]), Vec::<u64>::new());
    let list = filled(TriedoList::<Trie4>::new());
    assert_eq!(found(&list, vec![]), Vec::<u64>::new());
}

#[test]
fn search_hands_back_the_records() {
    let list = filled(TriedoList::<Trie4>::new());
    let hits = list.search(SearchParams { params: vec![word("mum")] });
    assert_eq!(hits.len(), 1);
    assert_eq!(*hits[0], TodoItem::new(Index::new(2), words(&["call", "mum"]), vec![], false));
}

#[test]
fn search_initial_adds_and_search_filter_keeps() {
    let list = filled(TodoList2::new());
    let mut refs: Vec<&TodoItem> = Vec::new();
    list.search_initial(&mut refs, tag("food"));
    assert_eq!(refs.iter().map(|i| i.index.value()).collect::<Vec<u64>>(), vec![0, 3]);
    list.search_initial(&mut refs, word("buy"));
    assert_eq!(refs.iter().map(|i| i.index.value()).collect::<Vec<u64>>(), vec![0, 3, 0, 1]);
    list.search_filter(&mut refs, word("b"));
    assert_eq!(refs.iter().map(|i| i.index.value()).collect::<Vec<u64>>(), vec![0, 3, 0, 1]);
    list.search_filter(&mut refs, tag("shop"));
    assert_eq!(refs.iter().map(|i| i.index.value()).collect::<Vec<u64>>(), vec![0, 0, 1]);
    list.search_filter(&mut refs, word("zzz"));
    assert!(refs.is_empty());
}

#[test]
fn the_urgent_tag() {
    let mut list = TriedoList::<Trie4>::new();
    for _ in 0..5 {
        list.push(words(&["filler"]), vec![]);
    }
    let item = list.push(words(&["task"]), Tag::from_strings(vec!["urgent"]));
    assert_eq!(item.index.value(), 5);
    assert_eq!(found(&list, vec![tag("urg")]), vec![5]);
    assert_eq!(found(&list, vec![tag("xyz")]), Vec::<u64>::new());
}

#[test]
fn banana_and_bandana_in_a_store() {
    let mut list = TriedoList::<Trie4>::new();
    list.push(words(&["banana"]), vec![]);
    list.push(words(&["bandana"]), vec![]);
    assert_eq!(found(&list, vec![word("bn")]), vec![0, 1]);
    assert_eq!(found(&list, vec![word("bnn")]), vec![0, 1]);
    assert_eq!(found(&list, vec![word("bdn")]), vec![1]);
    list.done_with_index(Index::new(0));
    assert_eq!(found(&list, vec![word("bn")]), vec![1]);
}

#[test]
fn words_and_tags_give_their_strings() {
    assert_eq!(Word::new("milk").value(), "milk");
    assert_eq!(Tag::new("shop").value(), "shop");
    assert_eq!(Index::new(7).value(), 7);
    let tags = Tag::from_strings(vec!["a", "b"]);
    assert_eq!(tags, vec![Tag::new("a"), Tag::new("b")]);
    assert_eq!(Tag::from_strings(vec![]), Vec::<Tag>::new());
    assert_eq!(Word::new("x").clone(), Word::new("x"));
    assert!(Index::new(1) < Index::new(2));
}
