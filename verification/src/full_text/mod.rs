//! BM25 full-text datastore with an inverted index and a word catalog.
pub mod postings;
pub mod store;
pub mod query;
pub mod ranking;
pub mod replay;
