use std::collections::HashMap;

use lemons_search::full_text::query::{filter_fuzzy_expanded_terms, ExpandedTerm};
use lemons_search::full_text::store::FullTextDatastore;
use lemons_search::search_result::StoreSearchResult;

const BM25_K1: f64 = 1.2;
const BM25_B: f64 = 0.75;
const FULL_TEXT_FUZZY_SCORE_WEIGHT: f64 = 0.7;
const SCORE_SCALE: f64 = 100.0;

fn bm25_score(tf: usize, df: usize, len: usize, live_docs: usize, avg_len: f64) -> f64 {
    let tf = tf as f64;
    let df = df as f64;
    let idf = ((live_docs as f64 - df + 0.5) / (df + 0.5) + 1.0).ln();
    let length = len.max(1) as f64;
    let denom = tf + BM25_K1 * (1.0 - BM25_B + BM25_B * (length / avg_len.max(1.0)));
    idf * ((tf * (BM25_K1 + 1.0)) / denom)
}

fn normalize_score(score: f64, max_score: f64) -> f64 {
    if max_score <= 0.0 {
        return 0.0;
    }
    (score / max_score).clamp(0.0, 1.0)
}

fn mixed_score(bm25: f64, fuzzy: f64) -> u32 {
    let fuzzy_weight = FULL_TEXT_FUZZY_SCORE_WEIGHT.clamp(0.0, 1.0);
    ((bm25 * (1.0 - fuzzy_weight) + fuzzy * fuzzy_weight) * SCORE_SCALE).round() as u32
}

fn score_group(store: &FullTextDatastore, group: &[ExpandedTerm], live_docs: usize, avg_len: f64) -> HashMap<u32, u32> {
    let mut candidates = Vec::new();
    let mut max_bm25 = 0.0_f64;
    let mut max_fuzzy = 0.0_f64;
    for term in group {
        if term.term_id as usize >= store.term_count() {
            continue;
        }
        let postings = store.postings_of(term.term_id as usize);
        for posting in postings {
            let Some(record) = store.record_at(posting.record_idx as usize) else {
                continue;
            };
            let bm25 = bm25_score(
                posting.term_frequency as usize,
                postings.len(),
                record.value.token_count as usize,
                live_docs,
                avg_len,
            );
            let fuzzy = term.fuzzy_score as f64;
            max_bm25 = max_bm25.max(bm25);
            max_fuzzy = max_fuzzy.max(fuzzy);
            candidates.push((posting.record_idx, bm25, fuzzy));
        }
    }
    let mut scores = HashMap::new();
    for (idx, bm25, fuzzy) in candidates {
        let score = mixed_score(normalize_score(bm25, max_bm25), normalize_score(fuzzy, max_fuzzy));
        let entry = scores.entry(idx).or_insert(0);
        *entry = (*entry).max(score);
    }
    scores
}

fn search(store: &FullTextDatastore, query: &str, max_results: usize) -> Vec<StoreSearchResult> {
    let Some(resolved) = store.prepare_search(query) else {
        return Vec::new();
    };
    let live_docs = store.live_record_count().max(1);
    let avg_len = store.total_token_count() as f64 / live_docs as f64;
    let groups: Vec<Vec<(u32, u32)>> = resolved
        .positive_groups
        .iter()
        .map(|group| {
            let scores = score_group(store, group, live_docs, avg_len);
            store
                .group_records(group)
                .into_iter()
                .map(|idx| (idx, scores.get(&idx).copied().unwrap_or(0)))
                .collect()
        })
        .collect();
    store.rank(&resolved, &groups, max_results)
}

fn upsert(store: &mut FullTextDatastore, id: &str, text: &str) {
    assert!(store.can_upsert(text));
    store.upsert(id.to_string(), text.to_string());
}

#[test]
fn full_text_updates_existing_record_and_removes_stale_postings() {
    let mut store = FullTextDatastore::new();
    upsert(&mut store, "a", "apple pie");
    upsert(&mut store, "a", "banana tart");

    assert!(search(&store, "apple", 10).is_empty());
    assert_eq!(search(&store, "banana", 10)[0].id, "a");
}

#[test]
fn full_text_deletes_record_from_posting_vectors() {
    let mut store = FullTextDatastore::new();
    upsert(&mut store, "a", "apple pie");
    upsert(&mut store, "b", "apple tart");
    store.delete("a");

    let results = search(&store, "apple", 10);

    assert_eq!(results.len(), 1);
    assert_eq!(results[0].id, "b");
}

#[test]
fn full_text_multi_term_search_preserves_highlights() {
    let mut store = FullTextDatastore::new();
    upsert(&mut store, "a", "Apple pie with apple slices");
    upsert(&mut store, "b", "Apple tart");

    let results = search(&store, "apple pie", 10);

    assert_eq!(results.len(), 1);
    assert_eq!(results[0].id, "a");
    assert!(results[0].highlight_ranges.is_empty());
}

#[test]
fn mod_updates_existing_record_and_removes_stale_postings() {
    let mut store = FullTextDatastore::new();
    upsert(&mut store, "a", "apple pie");
    upsert(&mut store, "a", "banana tart");

    assert!(search(&store, "apple", 10).is_empty());
    assert_eq!(search(&store, "banana", 10)[0].id, "a");
}

#[test]
fn mod_deletes_record_from_posting_vectors() {
    let mut store = FullTextDatastore::new();
    upsert(&mut store, "a", "apple pie");
    upsert(&mut store, "b", "apple tart");
    store.delete("a");

    let results = search(&store, "apple", 10);

    assert_eq!(results.len(), 1);
    assert_eq!(results[0].id, "b");
}

#[test]
fn mod_multi_term_search_preserves_highlights() {
    let mut store = FullTextDatastore::new();
    upsert(&mut store, "a", "Apple pie with apple slices");
    upsert(&mut store, "b", "Apple tart");

    let results = search(&store, "apple pie", 10);

    assert_eq!(results.len(), 1);
    assert_eq!(results[0].id, "a");
    assert!(results[0].highlight_ranges.is_empty());
    assert_eq!(results[0].matched_terms, vec!["apple", "pie"]);
}

#[test]
fn fuzzy_query_terms_expand_against_word_catalog() {
    let mut store = FullTextDatastore::new();
    upsert(&mut store, "a", "Apple pie with apple slices");
    upsert(&mut store, "b", "Banana tart");

    let results = search(&store, "apl sli", 10);

    assert_eq!(results.len(), 1);
    assert_eq!(results[0].id, "a");
    assert!(results[0].highlight_ranges.is_empty());
    assert_eq!(results[0].matched_terms, vec!["apple", "slices"]);
}

#[test]
fn fuzzy_query_expansion_caps_positive_terms() {
    let mut store = FullTextDatastore::new();
    for idx in 0..60 {
        upsert(&mut store, &format!("id-{idx}"), &format!("a{idx:02}"));
    }

    let resolved = store.resolve_query("a").expect("query should resolve");

    assert_eq!(resolved.positive_groups.len(), 1);
    assert_eq!(resolved.positive_groups[0].len(), 50);
}

#[test]
fn fuzzy_query_expansion_applies_relative_score_floor() {
    let terms = filter_fuzzy_expanded_terms(
        vec![
            ExpandedTerm {
                term_id: 1,
                fuzzy_score: 100,
            },
            ExpandedTerm {
                term_id: 2,
                fuzzy_score: 70,
            },
            ExpandedTerm {
                term_id: 3,
                fuzzy_score: 69,
            },
        ],
        false,
    );

    assert_eq!(
        terms.iter().map(|term| term.term_id).collect::<Vec<_>>(),
        vec![1, 2]
    );
}

#[test]
fn parsed_atom_syntax_applies_to_full_text_term_expansion() {
    let mut store = FullTextDatastore::new();
    upsert(&mut store, "a", "Apple pie");
    upsert(&mut store, "b", "Pineapple tart");
    upsert(&mut store, "c", "Crabapple crumble");

    let prefix_results = search(&store, "^app", 10);
    let substring_results = search(&store, "'apple", 10);

    assert_eq!(
        prefix_results
            .iter()
            .map(|result| result.id.as_str())
            .collect::<Vec<_>>(),
        vec!["a"]
    );
    assert_eq!(prefix_results[0].matched_terms, vec!["apple"]);
    assert_eq!(substring_results.len(), 3);
}

#[test]
fn negated_atoms_exclude_records_with_matching_catalog_terms() {
    let mut store = FullTextDatastore::new();
    upsert(&mut store, "a", "Apple pie");
    upsert(&mut store, "b", "Apple tart");
    upsert(&mut store, "c", "Banana pie");

    let results = search(&store, "apple !tart", 10);

    assert_eq!(results.len(), 1);
    assert_eq!(results[0].id, "a");
}

#[test]
fn bulk_load_finalizes_queryable_postings() {
    let mut store = FullTextDatastore::new();
    store.begin_bulk_load();
    upsert(&mut store, "a", "apple pie");
    upsert(&mut store, "b", "banana pie");
    store.finish_bulk_load();

    let results = search(&store, "apple pie", 10);

    assert_eq!(results.len(), 1);
    assert_eq!(results[0].id, "a");
}

#[test]
fn bulk_load_rejects_searches_before_finalization() {
    let mut store = FullTextDatastore::new();
    store.begin_bulk_load();
    upsert(&mut store, "a", "apple pie");
    upsert(&mut store, "b", "banana pie");

    let results = search(&store, "banana pie", 10);

    assert!(results.is_empty());
}

fn health_fields(store: &FullTextDatastore) -> (bool, String, usize, usize, Vec<String>, usize, usize) {
    let h = store.health();
    (h.exists, h.kind, h.live_records, h.tombstones, h.record_ids, h.posting_terms, h.posting_occurrences)
}

fn ranked_pairs(store: &FullTextDatastore, query: &str) -> Vec<(String, u32)> {
    search(store, query, 10).into_iter().map(|r| (r.id, r.score)).collect()
}

#[test]
fn bulk_load_ends_like_direct_upserts() {
    let mut loaded = FullTextDatastore::new();
    loaded.begin_bulk_load();
    let mut direct = FullTextDatastore::new();
    for store in [&mut loaded, &mut direct] {
        upsert(store, "a", "apple pie");
        upsert(store, "b", "banana pie");
        upsert(store, "c", "cherry apple");
        store.delete("b");
        upsert(store, "d", "banana split");
    }
    loaded.finish_bulk_load();
    assert_eq!(health_fields(&loaded), health_fields(&direct));
    assert_eq!(direct.health().posting_terms, 5);
    for query in ["apple", "banana", "pie", "cherry !pie", "apple pie"] {
        assert_eq!(ranked_pairs(&loaded, query), ranked_pairs(&direct, query));
    }
    let before = health_fields(&loaded);
    loaded.finish_bulk_load();
    assert_eq!(health_fields(&loaded), before);
    assert_eq!(ranked_pairs(&loaded, "apple"), ranked_pairs(&direct, "apple"));
}

#[test]
fn reupsert_ends_like_single_upsert() {
    let mut twice = FullTextDatastore::new();
    let mut once = FullTextDatastore::new();
    upsert(&mut twice, "x", "apple crumble");
    upsert(&mut once, "x", "apple crumble");
    upsert(&mut twice, "a", "apple pie");
    upsert(&mut twice, "a", "banana tart");
    upsert(&mut once, "a", "banana tart");
    assert_eq!(ranked_pairs(&twice, "apple"), ranked_pairs(&once, "apple"));
    assert_eq!(ranked_pairs(&twice, "apple").len(), 1);
    assert_eq!(ranked_pairs(&twice, "banana"), ranked_pairs(&once, "banana"));
    let (t, o) = (health_fields(&twice), health_fields(&once));
    assert_eq!((t.0, t.1, t.2, t.3, t.4, t.6), (o.0, o.1, o.2, o.3, o.4, o.6));
    assert!(t.5 > o.5);
}
