//! Carrying out one command on a store.

use vstd::prelude::*;
use crate::parser::{command_of, query, read, Command, ParseError};
use crate::query::{Query, QueryError, QueryResult};
use crate::todo_list::{
    lists_hits, marked, records_in, records_of, tag_texts, word_texts, Record, TodoItem,
    TodoLister,
};

verus! {

/// The message of the error for a `done` command that names no record.
pub open spec fn no_such_item() -> Seq<char> {
    "Attempted to mark non-existent item as Done"@
}

/// What carrying out `q` on a store with the records `before` comes to: the
/// records `after` and the answer `result`.
///
/// An `add` command adds a record with the next index and answers with it. A
/// `done` command marks the record that it names and answers `Done`; where
/// it names none, the store stays as it was and the answer is the error. A
/// `search` command leaves the store as it was and answers with the records
/// that are not done and match every term, each once.
pub open spec fn ran(
    q: Query,
    before: Seq<Record>,
    after: Seq<Record>,
    result: Result<QueryResult, QueryError>,
) -> bool {
    match q {
        Query::Add(description, tags) => {
            &&& result matches Ok(QueryResult::Added(item))
            &&& item@ == (Record {
                index: before.len() as u64,
                words: word_texts(description@),
                tags: tag_texts(tags@),
                done: false,
            })
            &&& after == before.push(item@)
        },
        Query::Done(idx) => if idx.value() < before.len() {
            &&& result == Ok::<QueryResult, QueryError>(QueryResult::Done)
            &&& after == before.update(idx.value() as int, marked(before[idx.value() as int]))
        } else {
            &&& result matches Err(e)
            &&& e.0@ == no_such_item()
            &&& after == before
        },
        Query::Search(sp) => {
            &&& result matches Ok(QueryResult::Found(found))
            &&& after == before
            &&& sp.params@.len() > 0 ==> lists_hits(before, sp.params@, records_in(found@))
        },
    }
}

/// Copies of the records that the references lead to.
fn copy_found(found: &Vec<&TodoItem>) -> (copies: Vec<TodoItem>)
    ensures
        records_in(copies@) == records_of(found@),
{
    let mut copies: Vec<TodoItem> = Vec::new();
    let mut k: usize = 0;
    while k < found.len()
        invariant
            0 <= k <= found.len(),
            copies@.len() == k,
            forall|j: int| 0 <= j < k ==> (#[trigger] copies@[j])@ == found@[j]@,
        decreases found.len() - k,
    {
        copies.push(found[k].clone());
        k += 1;
    }
    assert(records_in(copies@) =~= records_of(found@));
    copies
}

/// Carries out `q` on the store `tl`: adds a record, marks one as done, or
/// searches. The one command that can fail is `done` with an index that no
/// record has; it leaves the store as it was.
pub fn run_query<T: TodoLister>(q: Query, tl: &mut T) -> (result: Result<QueryResult, QueryError>)
    requires
        old(tl).wf(),
    ensures
        final(tl).wf(),
        ran(q, old(tl).records(), final(tl).records(), result),
{
    match q {
        Query::Add(desc, tags) => {
            let item = tl.push(desc, tags);
            Ok(QueryResult::Added(item))
        },
        Query::Done(idx) => {
            match tl.done_with_index(idx) {
                Some(_) => Ok(QueryResult::Done),
                None => Err(QueryError("Attempted to mark non-existent item as Done".to_owned())),
            }
        },
        Query::Search(params) => {
            let results = tl.search(params);
            let results = copy_found(&results);
            Ok(QueryResult::Found(results))
        },
    }
}

/// Why a line brought no answer.
#[derive(Debug, PartialEq, Eq)]
pub enum LineError {
    /// The line was not read as a command.
    Unreadable(ParseError),
    /// The command was read and not carried out.
    Refused(QueryError),
}

/// What a line comes to on a store with the records `before`: where the
/// line is not read as a command, the error of the reading and the store as
/// it was; else what carrying out the command comes to.
pub open spec fn line_ran(
    line: Seq<char>,
    before: Seq<Record>,
    after: Seq<Record>,
    result: Result<QueryResult, LineError>,
) -> bool {
    match read(line) {
        None => result == Err::<QueryResult, LineError>(LineError::Unreadable(ParseError::Malformed))
            && after == before,
        Some((command, end)) => match command {
            Command::Done(v) if v > u64::MAX => result == Err::<QueryResult, LineError>(
                LineError::Unreadable(ParseError::IndexTooLarge),
            ) && after == before,
            _ => exists|q: Query, answer: Result<QueryResult, QueryError>|
                command_of(q) == command && #[trigger] ran(q, before, after, answer) && (match answer {
                    Ok(r) => result == Ok::<QueryResult, LineError>(r),
                    Err(e) => result == Err::<QueryResult, LineError>(LineError::Refused(e)),
                }),
        },
    }
}

/// Reads one command from `line` and carries it out on the store `tl`.
pub fn run_line<T: TodoLister>(line: &str, tl: &mut T) -> (result: Result<QueryResult, LineError>)
    requires
        old(tl).wf(),
    ensures
        final(tl).wf(),
        line_ran(line@, old(tl).records(), final(tl).records(), result),
{
    match query(line) {
        Ok((_, q)) => {
            let answer = run_query(q, tl);
            proof {
                assert(ran(q, old(tl).records(), tl.records(), answer));
            }
            match answer {
                Ok(r) => Ok(r),
                Err(e) => Err(LineError::Refused(e)),
            }
        },
        Err(e) => Err(LineError::Unreadable(e)),
    }
}

} // verus!
