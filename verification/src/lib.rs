//! A term-frequency index over text and markup documents: the tokenizer, the
//! term-count table of a document, the index of a set of files, the counts
//! from which a document's relevance to a query phrase is computed, and the
//! ranking of scored documents.

pub mod counts;
pub mod index;
pub mod order;
pub mod persist;
pub mod rank;
pub mod service;
pub mod table;
pub mod tokenizer;
