use lemons_search::fuzzy::{FuzzyDatastore, FuzzySessionState};

#[test]
fn reuses_deleted_slots_and_tracks_health_without_scanning() {
    let mut store = FuzzyDatastore::new();
    store.upsert("a".to_string(), "apple".to_string());
    store.upsert("b".to_string(), "banana".to_string());
    store.delete("a");

    let health = store.health();
    assert_eq!(health.live_records, 1);
    assert_eq!(health.tombstones, 1);

    store.upsert("c".to_string(), "citrus".to_string());

    let health = store.health();
    assert_eq!(health.live_records, 2);
    assert_eq!(health.tombstones, 0);
    assert_eq!(health.record_ids, vec!["b", "c"]);
}

#[test]
fn fuzzy_search_scores_and_highlights_matches() {
    let mut store = FuzzyDatastore::new();
    store.upsert("0".to_string(), "folder/foo bar.md".to_string());
    store.upsert("1".to_string(), "folder/qux.md".to_string());
    let mut session = FuzzySessionState::new();

    let results = store.search(&mut session, "foo", 10);

    assert_eq!(results.len(), 1);
    assert_eq!(results[0].id, "0");
    assert!(results[0].score > 0);
    assert_eq!(results[0].highlight_ranges, vec![7, 10]);
    assert!(results[0].matched_terms.is_empty());
}

#[test]
fn fuzzy_empty_query_lists_first_records_unscored() {
    let mut store = FuzzyDatastore::new();
    store.upsert("a".to_string(), "apple".to_string());
    store.upsert("b".to_string(), "banana".to_string());
    store.upsert("c".to_string(), "citrus".to_string());
    let mut session = FuzzySessionState::new();

    let results = store.search(&mut session, "", 2);

    assert_eq!(
        results.iter().map(|r| r.id.as_str()).collect::<Vec<_>>(),
        vec!["a", "b"]
    );
    assert!(results.iter().all(|r| r.score == 0 && r.highlight_ranges.is_empty()));
}

#[test]
fn fuzzy_narrowed_search_keeps_only_previous_matches() {
    let mut store = FuzzyDatastore::new();
    store.upsert("0".to_string(), "folder/foo bar.md".to_string());
    store.upsert("1".to_string(), "folder/foo baz.md".to_string());
    store.upsert("2".to_string(), "folder/far boo.md".to_string());
    store.upsert("3".to_string(), "folder/qux.md".to_string());
    let mut session = FuzzySessionState::new();

    let broad = store.search(&mut session, "fo", 10);
    let narrow = store.search(&mut session, "foo", 10);

    let broad_ids: Vec<&str> = broad.iter().map(|r| r.id.as_str()).collect();
    assert!(!narrow.is_empty());
    for result in &narrow {
        assert!(broad_ids.contains(&result.id.as_str()));
    }
}

#[test]
fn fuzzy_search_results_are_capped_and_ordered_by_score() {
    let mut store = FuzzyDatastore::new();
    store.upsert("0".to_string(), "src/search/preview/index.md".to_string());
    store.upsert("1".to_string(), "src/search/preview/adapter.ts".to_string());
    store.upsert("2".to_string(), "src/search/basic/index.md".to_string());
    store.upsert("3".to_string(), "docs/other-topic.md".to_string());
    let mut session = FuzzySessionState::new();

    let results = store.search(&mut session, "preview", 2);

    assert_eq!(results.len(), 2);
    assert!(results[0].score >= results[1].score);
    let mut ids: Vec<&str> = results.iter().map(|r| r.id.as_str()).collect();
    ids.sort_unstable();
    assert_eq!(ids, vec!["0", "1"]);
}

#[test]
fn fuzzy_delete_by_prefix_keeps_other_records() {
    let mut store = FuzzyDatastore::new();
    store.upsert("docs/a".to_string(), "alpha".to_string());
    store.upsert("docs/b".to_string(), "beta".to_string());
    store.upsert("src/c".to_string(), "gamma".to_string());

    store.delete_by_prefix("docs/");

    let health = store.health();
    assert_eq!(health.record_ids, vec!["src/c"]);
    assert_eq!(health.tombstones, 2);
}

#[test]
fn negated_queries_are_not_narrowed() {
    let mut store = FuzzyDatastore::new();
    store.upsert("0".to_string(), "fa".to_string());
    store.upsert("1".to_string(), "xyz".to_string());
    let mut session = FuzzySessionState::new();

    let first = store.search(&mut session, "!f", 10);
    assert_eq!(first.iter().map(|r| r.id.as_str()).collect::<Vec<_>>(), vec!["1"]);

    let extended = store.search(&mut session, "!fo", 10);
    let fresh = store.search(&mut FuzzySessionState::new(), "!fo", 10);
    let mut extended_ids: Vec<&str> = extended.iter().map(|r| r.id.as_str()).collect();
    let mut fresh_ids: Vec<&str> = fresh.iter().map(|r| r.id.as_str()).collect();
    extended_ids.sort_unstable();
    fresh_ids.sort_unstable();
    assert_eq!(extended_ids, vec!["0", "1"]);
    assert_eq!(extended_ids, fresh_ids);
}
