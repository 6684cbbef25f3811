use lemons_search::datastore::{Datastore, DatastoreKind, SearchSession, SearchStep};
use lemons_search::engine::numbered_id;
use lemons_search::full_text::postings::{find_posting, insert_posting, remove_posting, Posting};
use lemons_search::full_text::query::{
    filter_fuzzy_expanded_terms, parse_query_atoms, AtomMode, ExpandedTerm, ResolvedQuery,
};
use lemons_search::full_text::ranking::{contains_sorted, find_pair};
use lemons_search::full_text::store::FullTextDatastore;
use lemons_search::fuzzy::{sort_by_score_desc, sort_dedup_u32};
use lemons_search::fuzzy::{FuzzyDatastore, FuzzySessionState};
use lemons_search::matcher::NumberedString;
use lemons_search::record_table::RecordTable;
use lemons_search::search_result::{compact_highlight_ranges, StoreSearchResult};
use lemons_search::store_health::StoreHealth;
use lemons_search::text::{insert_sorted_unique, sort_strings, str_lt};
use lemons_search::tokenizer::{tokenize_each, tokenize_terms};
use lemons_search::top_scores::ScoredIndex;

#[test]
fn compacts_empty_indices() {
    assert_eq!(compact_highlight_ranges(&[]), Vec::<u32>::new());
}

#[test]
fn compacts_single_contiguous_run() {
    assert_eq!(compact_highlight_ranges(&[3, 4, 5, 6]), vec![3, 7]);
}

#[test]
fn compacts_multiple_runs() {
    assert_eq!(
        compact_highlight_ranges(&[1, 2, 5, 6, 7, 11]),
        vec![1, 3, 5, 8, 11, 12]
    );
}

#[test]
fn preserves_isolated_indices_as_single_length_ranges() {
    assert_eq!(
        compact_highlight_ranges(&[2, 5, 9]),
        vec![2, 3, 5, 6, 9, 10]
    );
}

#[test]
fn search_result_builders_fill_their_fields() {
    let plain = StoreSearchResult::new("a".to_string(), 7);
    assert_eq!(plain.id, "a");
    assert_eq!(plain.score, 7);
    assert!(plain.highlight_ranges.is_empty() && plain.matched_terms.is_empty());

    let ranged = StoreSearchResult::new_from_ranges("b".to_string(), 3, &[0, 1, 4]);
    assert_eq!(ranged.highlight_ranges, vec![0, 2, 4, 5]);

    let matched = StoreSearchResult::with_matched_terms("c".to_string(), 9, vec!["pie".to_string()]);
    assert_eq!(matched.matched_terms, vec!["pie"]);
    assert!(matched.highlight_ranges.is_empty());
}

#[test]
fn store_health_sorts_ids_and_marks_missing() {
    let health = StoreHealth::new(
        "fuzzy",
        2,
        1,
        vec!["b".to_string(), "a".to_string(), "c".to_string()],
        0,
        0,
    );
    assert!(health.exists);
    assert_eq!(health.kind, "fuzzy");
    assert_eq!(health.record_ids, vec!["a", "b", "c"]);

    let missing = StoreHealth::missing();
    assert!(!missing.exists);
    assert_eq!(missing.kind, "");
    assert_eq!(missing.live_records, 0);
}

#[test]
fn push_top_score_keeps_the_best_entries() {
    let mut kept: Vec<ScoredIndex> = Vec::new();
    for (score, idx) in [(5, 0), (9, 1), (1, 2), (7, 3), (9, 4)] {
        ScoredIndex::push_top_score(&mut kept, ScoredIndex::new(score, idx), 3);
    }
    let mut scores: Vec<u32> = kept.iter().map(|e| e.score()).collect();
    scores.sort_unstable();
    assert_eq!(scores, vec![7, 9, 9]);

    let mut none: Vec<ScoredIndex> = Vec::new();
    ScoredIndex::push_top_score(&mut none, ScoredIndex::new(3, 0), 0);
    assert!(none.is_empty());

    let entry = ScoredIndex::new(4, 11);
    assert_eq!(entry.score(), 4);
    assert_eq!(entry.idx(), 11);
}

#[test]
fn sorting_by_score_is_descending() {
    let sorted = sort_by_score_desc(&vec![
        ScoredIndex::new(2, 0),
        ScoredIndex::new(8, 1),
        ScoredIndex::new(5, 2),
    ]);
    assert_eq!(sorted.iter().map(|e| e.score()).collect::<Vec<_>>(), vec![8, 5, 2]);
}

#[test]
fn tokenizer_lowercases_maximal_alphanumeric_runs() {
    let tokens = tokenize_each("Hello, World-42!");
    assert_eq!(
        tokens,
        vec![
            ("hello".to_string(), 0, 5),
            ("world".to_string(), 7, 12),
            ("42".to_string(), 13, 15),
        ]
    );
    let terms = tokenize_terms("Hello, World-42!");
    let firsts: Vec<String> = tokens.iter().map(|t| t.0.clone()).collect();
    assert_eq!(terms, firsts);
    assert_eq!(tokenize_terms("  Ünïcode  "), vec!["ünïcode"]);
    assert!(tokenize_terms(" -- ").is_empty());
}

#[test]
fn char_classes_and_lowercasing_shape_tokens_and_atoms() {
    assert_eq!(tokenize_terms("Straße-İx\tÉté"), vec!["straße", "i\u{307}x", "été"]);
    let atoms = parse_query_atoms("ÀB\t\u{a0}cd");
    let texts: Vec<String> = atoms.iter().map(|a| a.text.iter().collect()).collect();
    assert_eq!(texts, vec!["àb", "cd"]);
}

#[test]
fn string_order_and_sorting() {
    assert!(str_lt("apple", "banana"));
    assert!(str_lt("app", "apple"));
    assert!(!str_lt("pear", "pear"));
    let sorted = sort_strings(vec!["pie".to_string(), "apple".to_string(), "pie".to_string()]);
    assert_eq!(sorted, vec!["apple", "pie", "pie"]);
    let mut unique = vec!["apple".to_string(), "pie".to_string()];
    insert_sorted_unique(&mut unique, "banana".to_string());
    insert_sorted_unique(&mut unique, "pie".to_string());
    assert_eq!(unique, vec!["apple", "banana", "pie"]);
}

#[test]
fn record_table_reuses_vacant_slots() {
    let mut table: RecordTable<u32> = RecordTable::new();
    assert_eq!(table.upsert("a".to_string(), 1).0, 0);
    assert_eq!(table.upsert("b".to_string(), 2).0, 1);
    let (slot, replaced) = table.upsert("a".to_string(), 3);
    assert_eq!(slot, 0);
    assert_eq!(replaced.map(|r| r.value), Some(1));
    assert_eq!(table.delete("a").map(|(i, r)| (i, r.value)), Some((0, 3)));
    assert!(table.delete("a").is_none());
    assert_eq!(table.tombstone_count(), 1);
    assert_eq!(table.upsert("c".to_string(), 4).0, 0);
    assert_eq!(table.slot_count(), 2);
    assert_eq!(table.live_record_count(), 2);
    assert_eq!(table.record_ids(), vec!["c", "b"]);
    assert_eq!(table.ids_with_prefix("b"), vec!["b"]);
    assert_eq!(table.get(0).map(|r| r.value), Some(4));
    table.clear();
    assert_eq!(table.slot_count(), 0);
}

#[test]
fn record_table_slot_count_is_peak_live_count() {
    let mut table: RecordTable<u32> = RecordTable::new();
    for (i, id) in ["a", "b", "c"].iter().enumerate() {
        table.upsert(id.to_string(), i as u32);
    }
    table.delete("a");
    table.delete("b");
    table.upsert("d".to_string(), 4);
    assert_eq!(table.live_record_count(), 2);
    assert_eq!(table.slot_count(), 3);
    table.upsert("e".to_string(), 5);
    table.upsert("f".to_string(), 6);
    assert_eq!(table.live_record_count(), 4);
    assert_eq!(table.slot_count(), 4);
    table.clear();
    table.upsert("g".to_string(), 7);
    assert_eq!(table.slot_count(), 1);
}

#[test]
fn full_text_delete_by_prefix_counts() {
    let mut store = FullTextDatastore::new();
    store.upsert("docs/a".to_string(), "apple".to_string());
    store.upsert("notes/b".to_string(), "banana".to_string());
    store.upsert("docs/c".to_string(), "cherry".to_string());
    store.delete_by_prefix("docs/");
    let health = store.health();
    assert_eq!(health.record_ids, vec!["notes/b"]);
    assert_eq!(health.live_records, 1);
    assert_eq!(health.tombstones, 2);
    store.delete_by_prefix("");
    let health = store.health();
    assert_eq!(health.live_records, 0);
    assert_eq!(health.tombstones, 3);
}

#[test]
fn posting_lists_stay_sorted_by_record() {
    let mut postings: Vec<Posting> = Vec::new();
    insert_posting(&mut postings, 5, 1);
    insert_posting(&mut postings, 2, 3);
    insert_posting(&mut postings, 9, 1);
    insert_posting(&mut postings, 5, 4);
    assert_eq!(
        postings.iter().map(|p| (p.record_idx, p.term_frequency)).collect::<Vec<_>>(),
        vec![(2, 3), (5, 4), (9, 1)]
    );
    assert_eq!(find_posting(&postings, 9), Some(2));
    assert_eq!(find_posting(&postings, 4), None);
    remove_posting(&mut postings, 5, true);
    assert_eq!(postings.iter().map(|p| p.record_idx).collect::<Vec<_>>(), vec![2, 9]);
}

#[test]
fn query_atoms_parse_negation_and_modes() {
    let atoms = parse_query_atoms("  Apple !^Pie 'tArt ! ^ ");
    let summary: Vec<(bool, AtomMode, String)> = atoms
        .iter()
        .map(|a| (a.negative, a.mode, a.text.iter().collect()))
        .collect();
    assert_eq!(
        summary,
        vec![
            (false, AtomMode::Exact, "apple".to_string()),
            (true, AtomMode::Prefix, "pie".to_string()),
            (false, AtomMode::Substring, "tart".to_string()),
        ]
    );
}

#[test]
fn fuzzy_filter_keeps_negative_terms_uncapped() {
    let terms: Vec<ExpandedTerm> = (0..60)
        .map(|i| ExpandedTerm {
            term_id: i,
            fuzzy_score: 100,
        })
        .collect();
    assert_eq!(filter_fuzzy_expanded_terms(terms.clone(), true).len(), 60);
    let capped = filter_fuzzy_expanded_terms(terms, false);
    assert_eq!(capped.len(), 50);
    assert_eq!(capped[0].term_id, 0);
    assert!(filter_fuzzy_expanded_terms(Vec::new(), false).is_empty());
}

#[test]
fn exact_query_resolution_matches_catalog_terms() {
    let mut store = FullTextDatastore::new();
    store.set_fuzzy_search(false);
    store.upsert("a".to_string(), "Apple pie".to_string());
    store.upsert("b".to_string(), "Pineapple tart".to_string());

    let resolved = store.resolve_query("'apple !tart").expect("resolves");
    assert_eq!(resolved.positive_groups.len(), 1);
    assert_eq!(resolved.positive_groups[0].len(), 2);
    assert_eq!(resolved.negative_groups.len(), 1);
    assert!(store.resolve_query("kiwi").is_none());
    assert!(store.resolve_query("   ").is_none());
}

#[test]
fn ranking_breaks_score_ties_by_record_id() {
    let mut store = FullTextDatastore::new();
    store.upsert("b".to_string(), "apple".to_string());
    store.upsert("a".to_string(), "apple".to_string());
    store.upsert("c".to_string(), "apple tart".to_string());

    let resolved = store.prepare_search("apple !tart").expect("resolves");
    let candidates = store.group_records(&resolved.positive_groups[0]);
    assert_eq!(candidates, vec![0, 1, 2]);
    let excluded = store.excluded_records(&resolved.negative_groups);
    assert_eq!(excluded, vec![false, false, true]);

    let scores = vec![candidates.iter().map(|&i| (i, 10)).collect::<Vec<_>>()];
    let results = store.rank(&resolved, &scores, 10);
    assert_eq!(results.iter().map(|r| r.id.as_str()).collect::<Vec<_>>(), vec!["a", "b"]);
    assert_eq!(results[0].matched_terms, vec!["apple"]);

    let capped = store.rank(&resolved, &scores, 1);
    assert_eq!(capped.len(), 1);
}

#[test]
fn ranking_sums_scores_across_atoms() {
    let mut store = FullTextDatastore::new();
    store.upsert("a".to_string(), "apple pie".to_string());
    store.upsert("b".to_string(), "apple pie".to_string());
    let resolved = store.prepare_search("apple pie").expect("resolves");
    assert_eq!(resolved.positive_groups.len(), 2);
    let scores = vec![vec![(0, 10), (1, 30)], vec![(0, 50), (1, 5)]];
    let results = store.rank(&resolved, &scores, 10);
    assert_eq!(
        results.iter().map(|r| (r.id.as_str(), r.score)).collect::<Vec<_>>(),
        vec![("a", 60), ("b", 35)]
    );
    assert_eq!(results[0].matched_terms, vec!["apple", "pie"]);
}

#[test]
fn pair_lookup_and_sorted_membership() {
    let pairs = vec![(1, 10), (4, 40), (7, 70)];
    assert_eq!(find_pair(&pairs, 4), Some(40));
    assert_eq!(find_pair(&pairs, 5), None);
    assert!(contains_sorted(&vec![1, 3, 8], 8));
    assert!(!contains_sorted(&vec![1, 3, 8], 2));
    assert_eq!(sort_dedup_u32(&vec![5, 1, 5, 3, 1]), vec![1, 3, 5]);
}

#[test]
fn full_text_health_counts_terms_and_tokens() {
    let mut store = FullTextDatastore::new();
    store.upsert("a".to_string(), "apple pie apple".to_string());
    store.upsert("b".to_string(), "tart".to_string());
    store.delete("b");
    let health = store.health();
    assert_eq!(health.kind, "fullText");
    assert_eq!(health.live_records, 1);
    assert_eq!(health.tombstones, 1);
    assert_eq!(health.posting_terms, 3);
    assert_eq!(health.posting_occurrences, 3);
    assert_eq!(store.lookup_term("pie"), Some(1));
    assert_eq!(store.lookup_term("kiwi"), None);
    assert_eq!(store.posting_count(2), 0);
    assert!(store.can_upsert("more text"));
}

#[test]
fn matcher_scores_highlights_and_negations_reach_searches() {
    let text = NumberedString::new("folder/foo bar.md".to_string());
    assert_eq!(text.as_str(), "folder/foo bar.md");

    let mut store = FuzzyDatastore::new();
    store.upsert("0".to_string(), "folder/foo bar.md".to_string());
    store.upsert("1".to_string(), "folder/foo baz.md".to_string());
    let mut session = FuzzySessionState::new();
    let results = store.search(&mut session, "foo !baz", 10);
    assert_eq!(results.iter().map(|r| r.id.as_str()).collect::<Vec<_>>(), vec!["0"]);
    assert!(results[0].score > 0);
    assert_eq!(results[0].highlight_ranges, vec![7, 10]);
    assert!(store.search(&mut FuzzySessionState::new(), "xyz", 10).is_empty());

    let mut full = FullTextDatastore::new();
    full.upsert("a".to_string(), "apple pie".to_string());
    full.upsert("b".to_string(), "apple tart".to_string());
    let resolved = full.resolve_query("apl !tar").expect("resolves");
    assert_eq!(resolved.positive_groups.len(), 1);
    assert_eq!(resolved.negative_groups.len(), 1);
    assert_eq!(resolved.positive_groups[0][0].term_id, 0);
    assert!(resolved.positive_groups[0][0].fuzzy_score > 0);
    assert_eq!(resolved.negative_groups[0][0].term_id, 2);
}

#[test]
fn datastore_kinds_parse_and_name() {
    assert_eq!(DatastoreKind::parse("fullText"), DatastoreKind::FullText);
    assert_eq!(DatastoreKind::parse("fuzzy"), DatastoreKind::Fuzzy);
    assert_eq!(DatastoreKind::parse("anything"), DatastoreKind::Fuzzy);
    assert_eq!(DatastoreKind::FullText.as_str(), "fullText");
    assert_eq!(DatastoreKind::Fuzzy.as_str(), "fuzzy");
    assert_eq!(DatastoreKind::parse(DatastoreKind::FullText.as_str()), DatastoreKind::FullText);
}

#[test]
fn datastore_dispatch_and_session_kinds() {
    let mut store = Datastore::new(DatastoreKind::Fuzzy);
    assert_eq!(store.kind(), DatastoreKind::Fuzzy);
    assert!(store.can_upsert("apple"));
    store.upsert("a".to_string(), "apple".to_string());
    let mut session = SearchSession::new("store:1".to_string(), DatastoreKind::Fuzzy);
    match store.search(&mut session, "apple", 10) {
        SearchStep::Done(results) => assert_eq!(results.len(), 1),
        _ => panic!("fuzzy stores rank in one step"),
    }
    let mut other = SearchSession::new("store:1".to_string(), DatastoreKind::FullText);
    assert!(other.fuzzy.is_none());
    match store.search(&mut other, "apple", 10) {
        SearchStep::Done(results) => assert!(results.is_empty()),
        _ => panic!("mismatched session"),
    }
    session.reset();
    assert!(session.fuzzy.is_some());

    let mut full = Datastore::new(DatastoreKind::FullText);
    full.upsert("a".to_string(), "apple".to_string());
    let mut full_session = SearchSession::new("store:2".to_string(), DatastoreKind::FullText);
    match full.search(&mut full_session, "apple", 10) {
        SearchStep::Rank(ResolvedQuery { positive_groups, .. }) => assert_eq!(positive_groups.len(), 1),
        _ => panic!("full-text stores need scores"),
    }
    full.set_full_text_fuzzy_search(false);
    full.begin_bulk_load();
    match full.search(&mut full_session, "apple", 10) {
        SearchStep::Done(results) => assert!(results.is_empty()),
        _ => panic!("bulk loads reject searches"),
    }
    full.finish_bulk_load();
    full.delete_by_prefix("a");
    full.clear();
    assert_eq!(full.health().live_records, 0);
}

#[test]
fn numbered_ids_append_decimal_digits() {
    assert_eq!(numbered_id("store:", 0), "store:0");
    assert_eq!(numbered_id("session:", 1234567890), "session:1234567890");
}

#[test]
fn upsert_and_delete_keep_postings_in_step_with_records() {
    let mut store = FullTextDatastore::new();
    store.upsert("a".to_string(), "apple pie".to_string());
    store.upsert("b".to_string(), "apple tart".to_string());
    store.upsert("a".to_string(), "banana tart".to_string());

    let apple = store.lookup_term("apple").expect("apple is in the catalog") as usize;
    let banana = store.lookup_term("banana").expect("banana is in the catalog") as usize;
    let tart = store.lookup_term("tart").expect("tart is in the catalog") as usize;
    let slots = |t: usize| store.postings_of(t).iter().map(|p| p.record_idx).collect::<Vec<_>>();
    assert_eq!(slots(apple), vec![1]);
    assert_eq!(slots(banana), vec![0]);
    assert_eq!(slots(tart), vec![0, 1]);

    store.delete("b");
    let slots = |t: usize| store.postings_of(t).iter().map(|p| p.record_idx).collect::<Vec<_>>();
    assert!(slots(apple).is_empty());
    assert_eq!(slots(tart), vec![0]);
    assert!(store.record_at(1).is_none());
    assert_eq!(store.record_at(0).map(|r| r.id.as_str()), Some("a"));
    assert_eq!(store.record_id(1), "");
}

#[test]
fn new_catalog_terms_take_ids_in_order_of_first_occurrence() {
    let mut store = FullTextDatastore::new();
    store.upsert("a".to_string(), "apple pie apple".to_string());
    store.upsert("b".to_string(), "tart pie kiwi tart".to_string());
    assert_eq!(store.term_count(), 4);
    assert_eq!(store.lookup_term("apple"), Some(0));
    assert_eq!(store.lookup_term("pie"), Some(1));
    assert_eq!(store.lookup_term("tart"), Some(2));
    assert_eq!(store.lookup_term("kiwi"), Some(3));
    assert_eq!(store.term_text(3), "kiwi");
    assert_eq!(store.postings_of(2)[0].term_frequency, 2);
}

#[test]
fn fuzzy_queries_beyond_the_fast_atom_bound_still_search_when_totals_fit() {
    let mut store = Datastore::new(DatastoreKind::Fuzzy);
    store.upsert("a".to_string(), "apple".to_string());
    store.upsert("b".to_string(), "berry".to_string());
    let query = "a ".repeat(70_000);
    let mut session = SearchSession::new("store:1".to_string(), DatastoreKind::Fuzzy);
    match store.search(&mut session, &query, 10) {
        SearchStep::Done(results) => {
            assert_eq!(results.len(), 1);
            assert_eq!(results[0].id, "a");
            assert!(results[0].score > 0);
        },
        _ => panic!("the score totals fit"),
    }
}

#[test]
fn atoms_split_on_exactly_the_unicode_white_space_chars() {
    for code in 0u32..=0x3100 {
        let Some(c) = char::from_u32(code) else { continue };
        let query = format!("a{}b", c);
        let atoms = parse_query_atoms(&query);
        let splits = atoms.len() == 2;
        assert_eq!(splits, c.is_whitespace(), "U+{:04X}", code);
    }
}

#[test]
fn postings_carry_term_frequencies_through_updates() {
    let mut store = FullTextDatastore::new();
    store.upsert("a".to_string(), "apple pie apple".to_string());
    store.upsert("b".to_string(), "apple".to_string());
    let apple = store.lookup_term("apple").expect("interned") as usize;
    let pairs = |s: &FullTextDatastore| -> Vec<(u32, u32)> {
        s.postings_of(apple).iter().map(|p| (p.record_idx, p.term_frequency)).collect()
    };
    assert_eq!(pairs(&store), vec![(0, 2), (1, 1)]);
    store.upsert("a".to_string(), "apple apple apple".to_string());
    assert_eq!(pairs(&store), vec![(0, 3), (1, 1)]);

    let mut loaded = FullTextDatastore::new();
    loaded.begin_bulk_load();
    loaded.upsert("b".to_string(), "apple".to_string());
    loaded.upsert("a".to_string(), "apple apple".to_string());
    loaded.finish_bulk_load();
    let apple = loaded.lookup_term("apple").expect("interned") as usize;
    let loaded_pairs: Vec<(u32, u32)> = loaded.postings_of(apple).iter().map(|p| (p.record_idx, p.term_frequency)).collect();
    assert_eq!(loaded_pairs, vec![(0, 1), (1, 2)]);
}
