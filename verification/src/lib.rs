//! Multi-pattern substring search: a trie over a fixed alphabet, failure links
//! computed breadth-first, and a single left-to-right scan of the text.

pub mod alphabet;
pub mod insert;
pub mod laws;
pub mod links;
pub mod matching;
pub mod node;
pub mod query;
pub mod scan;
pub mod str_match;
pub mod trie;
