//! An in-memory dictionary engine for CJK lexical data.
//!
//! The engine parses a bulk lexicon (a line-oriented text grammar or plain
//! tabular rows), groups the entries into an index keyed by the leading
//! character of the simplified head form, and answers exact and substring
//! lookups as well as character-level traditional-to-simplified script
//! conversion. The whole structure is built once and then only read.

pub mod chat;
pub mod config;
pub mod convert;
pub mod dict;
pub mod entry;
pub mod load;
pub mod text;
