//! Search core: fuzzy datastores over record texts, full-text datastores
//! over an inverted index with a word catalog, per-client search sessions,
//! and the engine that owns them by string identifiers.
use vstd::prelude::*;

pub mod text;
pub mod record_table;
pub mod tokenizer;
pub mod search_result;
pub mod store_health;
pub mod top_scores;
pub mod full_text;
pub mod matcher;
pub mod fuzzy;
pub mod datastore;
pub mod keyed;
pub mod engine;

pub use engine::SearchEngine;

verus! {

} // verus!
