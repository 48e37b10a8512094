//! A local document indexer: a tokenizer, a per-document term-frequency
//! index built by a concurrent pipeline, and a TF-IDF query engine.

pub mod lexer;
pub mod table;
pub mod index;
pub mod worker;
pub mod query;
pub mod rank;
pub mod extract;
