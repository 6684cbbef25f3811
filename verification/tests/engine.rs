use std::collections::{HashMap, HashSet};

use lemons_search::datastore::SearchStep;
use lemons_search::full_text::query::{ExpandedTerm, ResolvedQuery};
use lemons_search::full_text::store::FullTextDatastore;
use lemons_search::search_result::StoreSearchResult;
use lemons_search::SearchEngine;

fn bm25_score(tf: usize, df: usize, len: usize, live_docs: usize, avg_len: f64) -> f64 {
    let tf = tf as f64;
    let df = df as f64;
    let idf = ((live_docs as f64 - df + 0.5) / (df + 0.5) + 1.0).ln();
    let length = len.max(1) as f64;
    let denom = tf + 1.2 * (1.0 - 0.75 + 0.75 * (length / avg_len.max(1.0)));
    idf * ((tf * 2.2) / denom)
}

fn normalize(score: f64, max: f64) -> f64 {
    if max <= 0.0 {
        0.0
    } else {
        (score / max).clamp(0.0, 1.0)
    }
}

fn group_scores(store: &FullTextDatastore, query: &ResolvedQuery) -> Vec<Vec<(u32, u32)>> {
    let live_docs = store.live_record_count().max(1);
    let avg_len = store.total_token_count() as f64 / live_docs as f64;
    query
        .positive_groups
        .iter()
        .map(|group: &Vec<ExpandedTerm>| {
            let mut candidates = Vec::new();
            let (mut max_bm25, mut max_fuzzy) = (0.0_f64, 0.0_f64);
            for term in group {
                if term.term_id as usize >= store.term_count() {
                    continue;
                }
                let postings = store.postings_of(term.term_id as usize);
                for posting in postings {
                    let Some(record) = store.record_at(posting.record_idx as usize) else {
                        continue;
                    };
                    let bm25 = bm25_score(
                        posting.term_frequency as usize,
                        postings.len(),
                        record.value.token_count as usize,
                        live_docs,
                        avg_len,
                    );
                    max_bm25 = max_bm25.max(bm25);
                    max_fuzzy = max_fuzzy.max(term.fuzzy_score as f64);
                    candidates.push((posting.record_idx, bm25, term.fuzzy_score as f64));
                }
            }
            let mut scores: HashMap<u32, u32> = HashMap::new();
            for (idx, bm25, fuzzy) in candidates {
                let score = ((normalize(bm25, max_bm25) * 0.3 + normalize(fuzzy, max_fuzzy) * 0.7) * 100.0).round() as u32;
                let entry = scores.entry(idx).or_insert(0);
                *entry = (*entry).max(score);
            }
            store
                .group_records(group)
                .into_iter()
                .map(|idx| (idx, scores.get(&idx).copied().unwrap_or(0)))
                .collect()
        })
        .collect()
}

fn search(engine: &mut SearchEngine, session_id: &str, query: &str) -> Vec<StoreSearchResult> {
    match engine.search_session(session_id, query) {
        SearchStep::Done(results) => results,
        SearchStep::Rank(resolved) => {
            let store = engine.session_full_text_store(session_id).expect("full-text session");
            let scores = group_scores(store, &resolved);
            engine.rank_session(session_id, &resolved, &scores)
        }
        SearchStep::ScoreOverflow => panic!("attempt to add with overflow"),
    }
}

fn upsert(engine: &mut SearchEngine, store_id: &str, id: &str, text: &str) {
    assert!(engine.upsert_record(store_id, id, text));
}

#[test]
fn search_respects_max_results_and_returns_expected_match_set() {
    let mut engine = SearchEngine::new();
    engine.set_max_results(2);
    let store_id = engine.create_datastore("fuzzy");
    let session_id = engine.create_session(&store_id);
    upsert(&mut engine, &store_id, "0", "src/search/preview/index.md");
    upsert(&mut engine, &store_id, "1", "src/search/preview/adapter.ts");
    upsert(&mut engine, &store_id, "2", "src/search/basic/index.md");
    upsert(&mut engine, &store_id, "3", "docs/other-topic.md");

    let results = search(&mut engine, &session_id, "preview");
    assert_eq!(results.len(), 2, "must cap result count to max_results");

    let mut ids: Vec<String> = results.iter().map(|r| r.id.clone()).collect();
    ids.sort_unstable();
    assert_eq!(ids, vec!["0", "1"]);
}

#[test]
fn narrowing_query_keeps_semantically_consistent_match_set() {
    let mut engine = SearchEngine::new();
    engine.set_max_results(10);
    let store_id = engine.create_datastore("fuzzy");
    let session_id = engine.create_session(&store_id);
    upsert(&mut engine, &store_id, "0", "folder/foo bar.md");
    upsert(&mut engine, &store_id, "1", "folder/foo baz.md");
    upsert(&mut engine, &store_id, "2", "folder/far boo.md");
    upsert(&mut engine, &store_id, "3", "folder/qux.md");

    let broad = search(&mut engine, &session_id, "fo");
    let narrow = search(&mut engine, &session_id, "foo");

    let broad_ids: HashSet<String> = broad.iter().map(|r| r.id.clone()).collect();
    let narrow_ids: HashSet<String> = narrow.iter().map(|r| r.id.clone()).collect();

    assert!(narrow_ids.iter().all(|id| broad_ids.contains(id)));
    assert!(narrow_ids.contains("0"));
    assert!(narrow_ids.contains("1"));
}

#[test]
fn search_returns_compact_highlight_ranges() {
    let mut engine = SearchEngine::new();
    engine.set_max_results(10);
    let store_id = engine.create_datastore("fuzzy");
    let session_id = engine.create_session(&store_id);
    upsert(&mut engine, &store_id, "0", "folder/foo bar.md");

    let results = search(&mut engine, &session_id, "foo");
    assert_eq!(results.len(), 1);
    assert_eq!(results[0].highlight_ranges, vec![7, 10]);
}

#[test]
fn fuzzy_datastore_crud_updates_results() {
    let mut engine = SearchEngine::new();
    let store_id = engine.create_datastore("fuzzy");
    let session_id = engine.create_session(&store_id);

    upsert(&mut engine, &store_id, "a", "folder/apple.md");
    upsert(&mut engine, &store_id, "b", "folder/banana.md");

    let results = search(&mut engine, &session_id, "apple");
    assert_eq!(results.len(), 1);
    assert_eq!(results[0].id, "a");

    upsert(&mut engine, &store_id, "a", "folder/apricot.md");
    let results = search(&mut engine, &session_id, "apple");
    assert_eq!(results.len(), 0);

    engine.delete_records(&store_id, vec!["b".to_string()]);
    let results = search(&mut engine, &session_id, "banana");
    assert_eq!(results.len(), 0);
}

#[test]
fn fuzzy_sessions_keep_incremental_state_isolated() {
    let mut engine = SearchEngine::new();
    engine.set_max_results(10);
    let store_id = engine.create_datastore("fuzzy");
    upsert(&mut engine, &store_id, "a", "folder/foo bar.md");
    upsert(&mut engine, &store_id, "b", "folder/foo baz.md");
    upsert(&mut engine, &store_id, "c", "folder/far boo.md");

    let session_a = engine.create_session(&store_id);
    let session_b = engine.create_session(&store_id);

    let broad = search(&mut engine, &session_a, "fo");
    let narrow = search(&mut engine, &session_a, "foo");
    let independent = search(&mut engine, &session_b, "boo");

    assert!(broad.len() >= narrow.len());
    assert!(!independent.is_empty());
}

#[test]
fn full_text_datastore_matches_and_tokens_and_highlights_all_occurrences() {
    let mut engine = SearchEngine::new();
    engine.set_max_results(10);
    let store_id = engine.create_datastore("fullText");
    let session_id = engine.create_session(&store_id);

    upsert(&mut engine, &store_id, "a", "Apple pie with apple slices");
    upsert(&mut engine, &store_id, "b", "Apple tart");
    upsert(&mut engine, &store_id, "c", "Banana pie");

    let results = search(&mut engine, &session_id, "apple pie");
    assert_eq!(results.len(), 1);
    assert_eq!(results[0].id, "a");
    assert!(results[0].score > 0);
    assert!(results[0].highlight_ranges.is_empty());
    assert_eq!(results[0].matched_terms, vec!["apple", "pie"]);
}

#[test]
fn full_text_datastore_expands_fuzzy_query_terms_through_word_catalog() {
    let mut engine = SearchEngine::new();
    engine.set_max_results(10);
    let store_id = engine.create_datastore("fullText");
    let session_id = engine.create_session(&store_id);

    upsert(&mut engine, &store_id, "a", "Apple pie with apple slices");
    upsert(&mut engine, &store_id, "b", "Banana tart");

    let results = search(&mut engine, &session_id, "apl sli");
    assert_eq!(results.len(), 1);
    assert_eq!(results[0].id, "a");
    assert!(results[0].score > 0);
    assert!(results[0].highlight_ranges.is_empty());
    assert_eq!(results[0].matched_terms, vec!["apple", "slices"]);
}

#[test]
fn engine_identifiers_are_numbered_and_fresh() {
    let mut engine = SearchEngine::new();
    let first = engine.create_datastore("fuzzy");
    let second = engine.create_datastore("fullText");
    assert_eq!(first, "store:1");
    assert_eq!(second, "store:2");
    assert_eq!(engine.create_session(&second), "session:1");
    assert_eq!(engine.create_session("store:99"), "");
    assert_eq!(engine.create_session(&first), "session:2");
}

#[test]
fn engine_health_reports_kind_counts_and_missing_stores() {
    let mut engine = SearchEngine::new();
    let store_id = engine.create_datastore("fullText");
    upsert(&mut engine, &store_id, "b", "banana pie");
    upsert(&mut engine, &store_id, "a", "apple pie");

    let health = engine.datastore_health(&store_id);
    assert!(health.exists);
    assert_eq!(health.kind, "fullText");
    assert_eq!(health.live_records, 2);
    assert_eq!(health.tombstones, 0);
    assert_eq!(health.record_ids, vec!["a", "b"]);
    assert_eq!(health.posting_terms, 3);
    assert_eq!(health.posting_occurrences, 4);

    let missing = engine.datastore_health("store:404");
    assert!(!missing.exists);
    assert_eq!(missing.kind, "");
    assert!(missing.record_ids.is_empty());
}

#[test]
fn destroying_a_datastore_closes_its_sessions() {
    let mut engine = SearchEngine::new();
    let store_id = engine.create_datastore("fuzzy");
    let session_id = engine.create_session(&store_id);
    upsert(&mut engine, &store_id, "a", "apple");

    engine.destroy_datastore(&store_id);

    assert!(!engine.datastore_health(&store_id).exists);
    assert!(search(&mut engine, &session_id, "apple").is_empty());
}

#[test]
fn clearing_and_prefix_deletes_update_searches() {
    let mut engine = SearchEngine::new();
    engine.set_max_results(10);
    let store_id = engine.create_datastore("fuzzy");
    let session_id = engine.create_session(&store_id);
    upsert(&mut engine, &store_id, "docs/a", "alpha notes");
    upsert(&mut engine, &store_id, "docs/b", "alpha guide");
    upsert(&mut engine, &store_id, "src/c", "alpha code");

    engine.delete_records_by_prefix(&store_id, "docs/");
    let results = search(&mut engine, &session_id, "alpha");
    assert_eq!(results.iter().map(|r| r.id.as_str()).collect::<Vec<_>>(), vec!["src/c"]);

    engine.clear_datastore(&store_id);
    assert!(search(&mut engine, &session_id, "alpha").is_empty());
    assert_eq!(engine.datastore_health(&store_id).live_records, 0);
}

#[test]
fn upsert_records_inserts_a_batch() {
    let mut engine = SearchEngine::new();
    let store_id = engine.create_datastore("fullText");
    let session_id = engine.create_session(&store_id);
    assert!(engine.upsert_records(
        &store_id,
        vec![
            ("a".to_string(), "apple pie".to_string()),
            ("b".to_string(), "banana pie".to_string()),
        ],
    ));
    assert!(engine.upsert_records("store:404", vec![("x".to_string(), "y".to_string())]));

    let results = search(&mut engine, &session_id, "pie");
    let mut ids: Vec<String> = results.iter().map(|r| r.id.clone()).collect();
    ids.sort_unstable();
    assert_eq!(ids, vec!["a", "b"]);
}

#[test]
fn bulk_load_through_the_engine() {
    let mut engine = SearchEngine::new();
    let store_id = engine.create_datastore("fullText");
    let session_id = engine.create_session(&store_id);
    engine.begin_bulk_load(&store_id);
    upsert(&mut engine, &store_id, "a", "apple pie");
    upsert(&mut engine, &store_id, "b", "banana pie");
    assert!(search(&mut engine, &session_id, "apple").is_empty());

    engine.finish_bulk_load(&store_id);
    let results = search(&mut engine, &session_id, "apple pie");
    assert_eq!(results.len(), 1);
    assert_eq!(results[0].id, "a");
}

#[test]
fn max_results_is_at_least_one() {
    let mut engine = SearchEngine::new();
    assert_eq!(engine.max_results(), 200);
    engine.set_max_results(0);
    assert_eq!(engine.max_results(), 1);
    engine.set_max_results(7);
    assert_eq!(engine.max_results(), 7);
}

#[test]
fn closed_sessions_give_no_results() {
    let mut engine = SearchEngine::new();
    let store_id = engine.create_datastore("fuzzy");
    let session_id = engine.create_session(&store_id);
    upsert(&mut engine, &store_id, "a", "apple");
    engine.close_session(&session_id);
    assert!(search(&mut engine, &session_id, "apple").is_empty());
}
