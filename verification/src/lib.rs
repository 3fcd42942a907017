//! Verified core of a BM25 command-line search tool: text chunking, filter and
//! language selection, date and duration parsing, path bookkeeping for the
//! persistent index, and the result-selection rules around the search engine.

pub mod tokenizer;
pub mod words;
pub mod text;
pub mod chunks;
pub mod since;
pub mod select;
pub mod age;
pub mod glob;
pub mod mtimes;
pub mod sources;
pub mod content;
pub mod html;
pub mod snippet;
pub mod filters;
pub mod cli;
pub mod ledger;
