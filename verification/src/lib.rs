//! An in-memory full-text indexing and relevance-ranking engine.
//!
//! Documents are tokenized into normalized terms; an inverted index maps
//! each term to the documents containing it and their occurrence counts;
//! single-term queries are answered with documents ranked by a
//! length-normalized TF-IDF score.

pub mod document;
pub mod oxidex;
pub mod ranking;
pub mod tokenizer;

pub use crate::document::DocMetaData;
pub use crate::document::DocumentEntry;
pub use crate::oxidex::Oxidex;
pub use crate::oxidex::OxidexError;
pub use crate::ranking::SearchResult;
