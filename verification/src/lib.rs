//! A small store of to-do records with subsequence search, and the tries
//! that index its words and tags.

pub mod depth;
pub mod depth_tree;
pub mod fx;
pub mod id_tree;
pub mod laws;
pub mod parser;
pub mod query;
pub mod render;
pub mod runner;
pub mod shape;
pub mod subsequence;
pub mod todo_list;
pub mod trie;

pub use crate::query::{Query, QueryError, QueryResult, SearchParams};
pub use crate::runner::{run_line, run_query, LineError};
pub use crate::todo_list::{
    Index, SearchWordOrTag, Tag, TodoItem, TodoList, TodoList2, TodoLister, TriedoList, Word,
};
pub use crate::trie::{Trie, Trie1, Trie2, Trie3, Trie4};
