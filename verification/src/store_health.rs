//! Diagnostic snapshot of a datastore.
use crate::text::{sort_strings, sorted_seqs};
use vstd::prelude::*;

verus! {

/// Diagnostic snapshot for a datastore.
#[derive(Debug, Clone)]
pub struct StoreHealth {
    pub exists: bool,
    pub kind: String,
    pub live_records: usize,
    pub tombstones: usize,
    pub record_ids: Vec<String>,
    pub posting_terms: usize,
    pub posting_occurrences: usize,
}

impl StoreHealth {
    /// Builds a health snapshot for an existing datastore; the record ids are
    /// reported in sorted order.
    pub fn new(
        kind: &str,
        live_records: usize,
        tombstones: usize,
        record_ids: Vec<String>,
        posting_terms: usize,
        posting_occurrences: usize,
    ) -> (r: Self)
        ensures
            r.exists,
            r.kind@ == kind@,
            r.live_records == live_records,
            r.tombstones == tombstones,
            sorted_seqs(r.record_ids.deep_view()),
            r.record_ids.deep_view().to_multiset() == record_ids.deep_view().to_multiset(),
            r.posting_terms == posting_terms,
            r.posting_occurrences == posting_occurrences,
    {
        StoreHealth {
            exists: true,
            kind: kind.to_owned(),
            live_records,
            tombstones,
            record_ids: sort_strings(record_ids),
            posting_terms,
            posting_occurrences,
        }
    }

    /// Builds the health response for a missing datastore id.
    pub fn missing() -> (r: Self)
        ensures
            !r.exists,
            r.kind@.len() == 0,
            r.live_records == 0,
            r.tombstones == 0,
            r.record_ids@.len() == 0,
            r.posting_terms == 0,
            r.posting_occurrences == 0,
    {
        StoreHealth {
            exists: false,
            kind: String::new(),
            live_records: 0,
            tombstones: 0,
            record_ids: Vec::new(),
            posting_terms: 0,
            posting_occurrences: 0,
        }
    }
}

} // verus!
