//! Full-text search: a tokenizer, a parser for structured values, a prefix
//! tree over indexed words, term-frequency indexing and the integer side of
//! ranking.

pub mod chars;
pub mod document;
pub mod indexer;
pub mod lexer;
pub mod parse;
pub mod ranking;
pub mod serialize;
pub mod trie;
