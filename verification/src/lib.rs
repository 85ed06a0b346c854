//! Code intelligence core: symbols, relations, chunking, incremental
//! indexing decisions and storage encodings, with verified contracts.

pub mod chunk;
pub mod chunker;
pub mod comments;
pub mod core_error;
pub mod errors;
pub mod extract;
pub mod fulltext;
pub mod fusion;
pub mod go_lang;
pub mod graph;
pub mod hashing;
pub mod ids;
pub mod incremental;
pub mod java;
pub mod labels;
pub mod language;
pub mod manager;
pub mod naming;
pub mod parser;
pub mod paths;
pub mod pipeline;
pub mod python;
pub mod qualified_name;
pub mod relation;
pub mod report;
pub mod resolver;
pub mod retrieval;
pub mod rust_lang;
pub mod scanner;
pub mod symbol;
pub mod text;
pub mod timestamp;
pub mod tokenizer;
pub mod typescript;
pub mod vector;
pub mod visitor;
pub mod watcher;

pub use language::Language;
