//! An in-memory relevance-search engine: documents are flattened and
//! tokenized into per-document term-frequency tables, and free-text queries
//! are answered by ranking documents with a TF-IDF score.
//!
//! All numbers are integers. A weight is a fixed-point number with 32
//! fractional bits, a score one with 58; dividing a score by 2^58 gives the
//! relevance as a real number.

pub mod cache;
pub mod clock;
pub mod document;
pub mod engine;
pub mod frequency;
pub mod ranking;
pub mod scoring;
pub mod tokenizer;
pub mod weight;

pub use crate::document::{Number, Value};
pub use crate::engine::{Database, SearchError};
pub use crate::frequency::TermFrequency;
pub use crate::ranking::Hit;
