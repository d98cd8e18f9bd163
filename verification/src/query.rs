//! The commands that the store takes, and what it answers.

use vstd::prelude::*;
use crate::todo_list::{Index, SearchWordOrTag, Tag, TodoItem, Word};

verus! {

/// One command.
#[derive(Debug, Clone, PartialEq, Eq)]
pub enum Query {
    /// Add a record with these words and tags.
    Add(Vec<Word>, Vec<Tag>),
    /// Mark the record with this index as done.
    Done(Index),
    /// Search for the records that match every one of these terms.
    Search(SearchParams),
}

/// The terms of a search.
#[derive(Debug, Clone, PartialEq, Eq)]
pub struct SearchParams {
    pub params: Vec<SearchWordOrTag>,
}

/// The answer to a command that was carried out.
#[derive(Debug, Clone, PartialEq, Eq)]
pub enum QueryResult {
    /// The record that was added.
    Added(TodoItem),
    /// The record was marked.
    Done,
    /// The records that were found.
    Found(Vec<TodoItem>),
}

/// Why a command was not carried out.
#[derive(Debug, Clone, PartialEq, Eq)]
pub struct QueryError(pub String);

} // verus!
