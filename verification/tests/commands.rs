use todo_swamp::parser::{query, ParseError};
use todo_swamp::runner::{run_line, run_query, LineError};
use todo_swamp::{
    Index, Query, QueryError, QueryResult, SearchParams, SearchWordOrTag, Tag, TodoItem, TodoList, TodoList2,
    TodoLister, TriedoList, Trie4, Word,
};

fn words(ss: &[&str]) -> Vec<Word> {
    ss.iter().map(|s| Word::new(s)).collect()
}

fn tags(ss: &[&str]) -> Vec<Tag> {
    ss.iter().map(|s| Tag::new(s)).collect()
}

fn word(s: &str) -> SearchWordOrTag {
    SearchWordOrTag::RawWord(s.to_string())
}

fn tag(s: &str) -> SearchWordOrTag {
    SearchWordOrTag::RawTag(s.to_string())
}

fn search(terms: Vec<SearchWordOrTag>) -> Query {
    Query::Search(SearchParams { params: terms })
}

#[test]
fn reads_add_with_tags() {
    assert_eq!(
        query("add \"buy milk\" #shop #food"),
        Ok(("", Query::Add(words(&["buy", "milk"]), tags(&["shop", "food"]))))
    );
}

#[test]
fn reads_add_without_tags() {
    assert_eq!(query("add \"call-mum\""), Ok(("", Query::Add(words(&["call-mum"]), vec![]))));
    assert_eq!(query("add \"a b c\" "), Ok((" ", Query::Add(words(&["a", "b", "c"]), vec![]))));
    assert_eq!(query("add \"a\" x"), Ok((" x", Query::Add(words(&["a"]), vec![]))));
    assert_eq!(query("add \"a\" #"), Ok((" #", Query::Add(words(&["a"]), vec![]))));
}

#[test]
fn reads_add_after_a_tab() {
    assert_eq!(query("add\t\"a\"\t#t"), Ok(("", Query::Add(words(&["a"]), tags(&["t"])))));
    assert_eq!(query("add \"a\" #t\t#u"), Ok(("\t#u", Query::Add(words(&["a"]), tags(&["t"])))));
    assert_eq!(query("add \"a\" #t  #u"), Ok(("  #u", Query::Add(words(&["a"]), tags(&["t"])))));
    assert_eq!(query("add \"a\" #t #u rest"), Ok((" rest", Query::Add(words(&["a"]), tags(&["t", "u"])))));
}

#[test]
fn refuses_a_malformed_add() {
    for line in [
        "add",
        "add ",
        "add \"\"",
        "add \"a",
        "add \"a \"",
        "add \" a\"",
        "add \"a  b\"",
        "add \"A\"",
        "add \"a#b\"",
        "add  \"a\"",
        "add\"a\"",
        "Add \"a\"",
        " add \"a\"",
        "add \"a1\"",
    ] {
        assert_eq!(query(line), Err(ParseError::Malformed), "line {:?}", line);
    }
}

#[test]
fn reads_done() {
    assert_eq!(query("done 0"), Ok(("", Query::Done(Index::new(0)))));
    assert_eq!(query("done 42"), Ok(("", Query::Done(Index::new(42)))));
    assert_eq!(query("done\t007"), Ok(("", Query::Done(Index::new(7)))));
    assert_eq!(query("done 12ab"), Ok(("ab", Query::Done(Index::new(12)))));
    assert_eq!(query("done 1 2"), Ok((" 2", Query::Done(Index::new(1)))));
    assert_eq!(
        query("done 18446744073709551615"),
        Ok(("", Query::Done(Index::new(u64::MAX))))
    );
}

#[test]
fn refuses_an_index_that_is_too_large() {
    assert_eq!(query("done 18446744073709551616"), Err(ParseError::IndexTooLarge));
    assert_eq!(query("done 99999999999999999999999"), Err(ParseError::IndexTooLarge));
    assert_eq!(query("done 184467440737095516150"), Err(ParseError::IndexTooLarge));
}

#[test]
fn refuses_a_malformed_done() {
    for line in ["done", "done ", "done x", "done -1", "done  1", "done1", "don 1", "done +1"] {
        assert_eq!(query(line), Err(ParseError::Malformed), "line {:?}", line);
    }
}

#[test]
fn reads_search() {
    assert_eq!(query("search milk"), Ok(("", search(vec![word("milk")]))));
    assert_eq!(query("search #shop"), Ok(("", search(vec![tag("shop")]))));
    assert_eq!(
        query("search bu #sh -x #a-b"),
        Ok(("", search(vec![word("bu"), tag("sh"), word("-x"), tag("a-b")])))
    );
    assert_eq!(query("search a  b"), Ok(("  b", search(vec![word("a")]))));
    assert_eq!(query("search a #"), Ok((" #", search(vec![word("a")]))));
    assert_eq!(query("search a B"), Ok((" B", search(vec![word("a")]))));
    assert_eq!(query("search\ta\tb"), Ok(("\tb", search(vec![word("a")]))));
}

#[test]
fn refuses_a_malformed_search() {
    for line in ["search", "search ", "search #", "search  a", "search A", "searcha", "search ##a", ""] {
        assert_eq!(query(line), Err(ParseError::Malformed), "line {:?}", line);
    }
}

#[test]
fn run_query_adds() {
    let mut list = TodoList::new();
    let result = run_query(Query::Add(words(&["buy", "milk"]), tags(&["shop"])), &mut list);
    assert_eq!(
        result,
        Ok(QueryResult::Added(TodoItem::new(Index::new(0), words(&["buy", "milk"]), tags(&["shop"]), false)))
    );
    let result = run_query(Query::Add(words(&["x"]), vec![]), &mut list);
    assert_eq!(result, Ok(QueryResult::Added(TodoItem::new(Index::new(1), words(&["x"]), vec![], false))));
}

fn run_query_marks<T: TodoLister>(mut list: T) {
    run_query(Query::Add(words(&["buy", "milk"]), tags(&["shop"])), &mut list).unwrap();
    assert_eq!(run_query(Query::Done(Index::new(0)), &mut list), Ok(QueryResult::Done));
    assert_eq!(run_query(search(vec![word("buy")]), &mut list), Ok(QueryResult::Found(vec![])));
    assert_eq!(
        run_query(Query::Done(Index::new(1)), &mut list),
        Err(QueryError("Attempted to mark non-existent item as Done".to_string()))
    );
}

#[test]
fn run_query_marks_naive() {
    run_query_marks(TodoList::new());
}

#[test]
fn run_query_marks_naive2() {
    run_query_marks(TodoList2::new());
}

#[test]
fn run_query_marks_trie4() {
    run_query_marks(TriedoList::<Trie4>::new());
}

#[test]
fn run_query_finds() {
    let mut list = TriedoList::<Trie4>::new();
    run_query(Query::Add(words(&["buy", "milk"]), tags(&["shop"])), &mut list).unwrap();
    run_query(Query::Add(words(&["call", "mum"]), vec![]), &mut list).unwrap();
    assert_eq!(
        run_query(search(vec![word("mm")]), &mut list),
        Ok(QueryResult::Found(vec![TodoItem::new(Index::new(1), words(&["call", "mum"]), vec![], false)]))
    );
    assert_eq!(run_query(search(vec![tag("mm")]), &mut list), Ok(QueryResult::Found(vec![])));
}

#[test]
fn run_line_reads_and_runs() {
    let mut list = TodoList2::new();
    assert_eq!(
        run_line("add \"banana\" #fruit", &mut list),
        Ok(QueryResult::Added(TodoItem::new(Index::new(0), words(&["banana"]), tags(&["fruit"]), false)))
    );
    assert_eq!(
        run_line("add \"bandana\"", &mut list),
        Ok(QueryResult::Added(TodoItem::new(Index::new(1), words(&["bandana"]), vec![], false)))
    );
    match run_line("search bn", &mut list) {
        Ok(QueryResult::Found(found)) => {
            assert_eq!(found.iter().map(|i| i.index.value()).collect::<Vec<u64>>(), vec![0, 1])
        }
        other => panic!("{:?}", other),
    }
    assert_eq!(run_line("done 0", &mut list), Ok(QueryResult::Done));
    assert_eq!(
        run_line("search bn", &mut list),
        Ok(QueryResult::Found(vec![TodoItem::new(Index::new(1), words(&["bandana"]), vec![], false)]))
    );
}

#[test]
fn run_line_tells_why_not() {
    let mut list = TodoList::new();
    assert_eq!(run_line("remove 1", &mut list), Err(LineError::Unreadable(ParseError::Malformed)));
    assert_eq!(
        run_line("done 99999999999999999999", &mut list),
        Err(LineError::Unreadable(ParseError::IndexTooLarge))
    );
    assert_eq!(
        run_line("done 0", &mut list),
        Err(LineError::Refused(QueryError("Attempted to mark non-existent item as Done".to_string())))
    );
    assert_eq!(
        run_line("add \"a\"", &mut list),
        Ok(QueryResult::Added(TodoItem::new(Index::new(0), words(&["a"]), vec![], false)))
    );
}

#[test]
fn texts_of_records() {
    let item = TodoItem::new(Index::new(0), words(&["buy", "milk"]), tags(&["shop", "food"]), false);
    assert_eq!(item.to_text(), "0 \"buy milk\" #shop #food");
    let item = TodoItem::new(Index::new(12), words(&["call"]), vec![], true);
    assert_eq!(item.to_text(), "12 \"call\" ");
    let item = TodoItem::new(Index::new(3), vec![], tags(&["t"]), false);
    assert_eq!(item.to_text(), "3 \"\" #t");
}

#[test]
fn texts_of_indices_words_and_tags() {
    assert_eq!(Index::new(0).to_text(), "0");
    assert_eq!(Index::new(9).to_text(), "9");
    assert_eq!(Index::new(10).to_text(), "10");
    assert_eq!(Index::new(1234567890).to_text(), "1234567890");
    assert_eq!(Index::new(u64::MAX).to_text(), "18446744073709551615");
    assert_eq!(Word::new("milk").to_text(), "milk");
    assert_eq!(Tag::new("shop").to_text(), "#shop");
}

#[test]
fn texts_of_answers() {
    let one = TodoItem::new(Index::new(1), words(&["buy", "bread"]), tags(&["shop"]), false);
    let two = TodoItem::new(Index::new(10), words(&["b"]), vec![], false);
    assert_eq!(QueryResult::Added(one.clone()).to_text(), "1");
    assert_eq!(QueryResult::Done.to_text(), "done");
    assert_eq!(QueryResult::Found(vec![]).to_text(), "0 item(s) found");
    assert_eq!(
        QueryResult::Found(vec![one, two]).to_text(),
        "2 item(s) found\n1 \"buy bread\" #shop\n10 \"b\" "
    );
}

#[test]
fn text_of_an_error() {
    assert_eq!(
        QueryError("Attempted to mark non-existent item as Done".to_string()).to_text(),
        "An error occurred while processing the query: Attempted to mark non-existent item as Done."
    );
}

#[test]
fn what_is_written_is_read_back() {
    assert_eq!(query(&format!("done {}", Index::new(4711).to_text())), Ok(("", Query::Done(Index::new(4711)))));
}
