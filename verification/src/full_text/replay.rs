//! The same updates applied to two full-text datastores that index the same
//! content leave them indexing the same content; in particular a finished
//! bulk load ends where direct updates end.
use crate::full_text::postings::{has_record, sorted_postings, Posting};
use crate::full_text::store::{
    count_of, full_text_bulk_finished, full_text_deleted, full_text_health, full_text_upserted, increasing_terms, new_terms,
    record_has_term, record_indexes_text, token_sum, upsert_fits, FullTextDatastore, FullTextRecord,
    FullTextSlots,
};
use crate::full_text::query::{ExpandedTerm, ResolvedQuery};
use crate::full_text::ranking::{
    excluded, group_hits, rank_candidates, ranked, ranked_order, ranked_results, result_for, results_of, search_prepared,
    slot_id,
};
use crate::top_scores::ScoredIndex;
use crate::tokenizer::term_texts;
use crate::record_table::{has_id, id_at, lemma_live_ids_contains, lemma_live_ids_unique, live_count, live_ids, StoredRecord};
use crate::store_health::StoreHealth;
use crate::text::sorted_seqs;
use vstd::prelude::*;

verus! {

/// An update of a full-text datastore: an upsert of an id with a text, or a
/// delete of an id.
pub enum IndexUpdate {
    Upsert(Seq<char>, Seq<char>),
    Delete(Seq<char>),
}

/// `b` is `a` after the update `u`.
pub open spec fn update_applied(a: FullTextDatastore, b: FullTextDatastore, u: IndexUpdate) -> bool {
    match u {
        IndexUpdate::Upsert(id, text) => upsert_fits(a, text) && full_text_upserted(a, b, id, text),
        IndexUpdate::Delete(id) => full_text_deleted(a, b, id),
    }
}

/// `runs[k + 1]` is `runs[k]` after `updates[k]`, every store consistent.
pub open spec fn updates_run(runs: Seq<FullTextDatastore>, updates: Seq<IndexUpdate>) -> bool {
    &&& runs.len() == updates.len() + 1
    &&& forall|k: int| 0 <= k < runs.len() ==> (#[trigger] runs[k]).wf()
    &&& forall|k: int| 0 <= k < updates.len() ==> update_applied(#[trigger] runs[k], runs[k + 1], updates[k])
}

/// The store holds no record, no vacant slot and no term, and expands
/// queries by fuzzy matching, as `new` and `begin_bulk_load` leave it.
pub open spec fn starts_empty(s: FullTextDatastore) -> bool {
    &&& s.slots().len() == 0
    &&& s.vacated().len() == 0
    &&& s.catalog().len() == 0
    &&& s.posting_lists().len() == 0
    &&& s.uses_fuzzy_search()
}

/// Two slots hold the same record: both vacant, or both live with the same
/// id, token count and term ids.
pub open spec fn same_record(x: Option<StoredRecord<FullTextRecord>>, y: Option<StoredRecord<FullTextRecord>>) -> bool {
    match (x, y) {
        (None, None) => true,
        (Some(a), Some(b)) => {
            &&& a.id@ == b.id@
            &&& a.value.token_count == b.value.token_count
            &&& a.value.terms@ == b.value.terms@
            &&& a.value.token_ids@ == b.value.token_ids@
        },
        _ => false,
    }
}

/// Slot by slot the same records.
pub open spec fn same_slots(a: FullTextSlots, b: FullTextSlots) -> bool {
    &&& a.len() == b.len()
    &&& forall|i: int| 0 <= i < a.len() ==> same_record(#[trigger] a[i], b[i])
}

/// Two full-text stores index the same content: the same records in the
/// same slots, the same vacant slots in the same order, the same catalog,
/// posting lists with the same postings (record and term frequency) under
/// each term, and the same query-expansion setting.
pub open spec fn same_index(a: FullTextDatastore, b: FullTextDatastore) -> bool {
    &&& same_slots(a.slots(), b.slots())
    &&& a.vacated() == b.vacated()
    &&& a.catalog() == b.catalog()
    &&& a.posting_lists().len() == b.posting_lists().len()
    &&& forall|t: int, p: Posting|
        0 <= t < a.posting_lists().len() ==> (#[trigger] a.posting_lists()[t].contains(p) <==> b.posting_lists()[
            t].contains(p))
    &&& a.uses_fuzzy_search() == b.uses_fuzzy_search()
}

/// A finished bulk load ends where direct updates end: starting one store
/// with `begin_bulk_load` and another with `new`, applying the same upserts
/// and deletes to both, and then finishing the bulk load, the two index the
/// same content, have equal posting lists (term frequencies included) and
/// neither is bulk loading; so their live records, live ids and token
/// totals agree, and every query gets the same first search step and the
/// same ranking.
pub proof fn lemma_bulk_load_matches_direct_updates(
    loaded: Seq<FullTextDatastore>,
    direct: Seq<FullTextDatastore>,
    updates: Seq<IndexUpdate>,
    finished: FullTextDatastore,
)
    requires
        updates_run(loaded, updates),
        updates_run(direct, updates),
        starts_empty(loaded[0]),
        loaded[0].is_bulk_loading(),
        starts_empty(direct[0]),
        !direct[0].is_bulk_loading(),
        finished.wf(),
        full_text_bulk_finished(loaded.last(), finished),
    ensures
        same_index(finished, direct.last()),
        finished.posting_lists() == direct.last().posting_lists(),
        !finished.is_bulk_loading(),
        !direct.last().is_bulk_loading(),
        live_count(finished.slots()) == live_count(direct.last().slots()),
        live_ids(finished.slots()) == live_ids(direct.last().slots()),
        token_sum(finished.slots()) == token_sum(direct.last().slots()),
        forall|q: Seq<char>, prepared: Option<ResolvedQuery>|
            #[trigger] search_prepared(finished, q, prepared) <==> search_prepared(direct.last(), q, prepared),
        forall|query: ResolvedQuery, groups: Seq<Vec<(u32, u32)>>, max: usize, r: Seq<crate::search_result::StoreSearchResult>|
            #[trigger] ranked(finished, query, groups, max, r) <==> ranked(direct.last(), query, groups, max, r),
{
    let n = updates.len() as int;
    assert(same_index(loaded[0], direct[0])) by {
        assert(loaded[0].vacated() =~= direct[0].vacated());
        assert(loaded[0].catalog() =~= direct[0].catalog());
    }
    lemma_replay_upto(loaded, direct, updates, n);
    lemma_bulk_flag_kept(loaded, updates, n);
    lemma_bulk_flag_kept(direct, updates, n);
    let l = loaded[n];
    let d = direct[n];
    assert(same_index(finished, l));
    lemma_same_index_transitive(finished, l, d);
    lemma_same_slots_counts(finished.slots(), d.slots());
    finished.lemma_store_facts();
    d.lemma_store_facts();
    let (fp, dp) = (finished.posting_lists(), d.posting_lists());
    assert forall|t: int| 0 <= t < fp.len() implies #[trigger] fp[t] == dp[t] by {
        assert(sorted_postings(fp[t]) && sorted_postings(dp[t]));
        lemma_sorted_same_postings(fp[t], dp[t]);
    }
    assert(fp =~= dp);
    assert forall|q: Seq<char>, prepared: Option<ResolvedQuery>|
        #[trigger] search_prepared(finished, q, prepared) <==> search_prepared(d, q, prepared) by {
        lemma_same_index_searches_alike(finished, d, q, prepared, arbitrary(), Seq::empty(), 0, Seq::empty());
    }
    assert forall|query: ResolvedQuery, groups: Seq<Vec<(u32, u32)>>, max: usize, r: Seq<crate::search_result::StoreSearchResult>|
        #[trigger] ranked(finished, query, groups, max, r) <==> ranked(d, query, groups, max, r) by {
        lemma_same_index_searches_alike(finished, d, Seq::empty(), None, query, groups, max, r);
    }
}

/// Searching reads of a store only what `same_index` fixes: two
/// consistent stores that index the same content, neither or both bulk
/// loading, give every query the same first search step, and rank every
/// resolved query and set of scores alike.
pub proof fn lemma_same_index_searches_alike(
    a: FullTextDatastore,
    b: FullTextDatastore,
    q: Seq<char>,
    prepared: Option<ResolvedQuery>,
    query: ResolvedQuery,
    groups: Seq<Vec<(u32, u32)>>,
    max: usize,
    r: Seq<crate::search_result::StoreSearchResult>,
)
    requires
        a.wf(),
        b.wf(),
        same_index(a, b),
        a.is_bulk_loading() == b.is_bulk_loading(),
    ensures
        search_prepared(a, q, prepared) <==> search_prepared(b, q, prepared),
        ranked(a, query, groups, max, r) <==> ranked(b, query, groups, max, r),
{
    if !a.is_bulk_loading() {
        a.lemma_store_facts();
        b.lemma_store_facts();
        let (ap, bp) = (a.posting_lists(), b.posting_lists());
        assert forall|t: int| 0 <= t < ap.len() implies #[trigger] ap[t] == bp[t] by {
            assert(sorted_postings(ap[t]) && sorted_postings(bp[t]));
            lemma_sorted_same_postings(ap[t], bp[t]);
        }
        assert(ap =~= bp);
    }
    lemma_same_slots_rank_alike(a.slots(), b.slots(), a.catalog(), query, groups, max, r);
    if groups.len() > 0 {
        let base = groups[crate::full_text::ranking::smallest_group(groups, groups.len() as int)]@;
        lemma_rank_candidates_alike(a.slots(), b.slots(), query.negative_groups@, groups, base);
        let cands = rank_candidates(a.slots(), query.negative_groups@, groups, base);
        let pos = query.positive_groups@;
        if ranked(a, query, groups, max, r) {
            let kept = choose|kept: Seq<ScoredIndex>|
                {
                    &&& crate::top_scores::is_top_k(kept, cands, max)
                    &&& ranked_results(r, kept, a.slots(), a.catalog(), pos)
                };
            assert(ranked_results(r, kept, b.slots(), b.catalog(), pos));
        }
        if ranked(b, query, groups, max, r) {
            let kept = choose|kept: Seq<ScoredIndex>|
                {
                    &&& crate::top_scores::is_top_k(kept, cands, max)
                    &&& ranked_results(r, kept, b.slots(), b.catalog(), pos)
                };
            assert(ranked_results(r, kept, a.slots(), a.catalog(), pos));
        }
    }
}

/// Ranking against slots holding the same records gives the same results.
proof fn lemma_same_slots_rank_alike(
    sa: FullTextSlots,
    sb: FullTextSlots,
    catalog: Seq<Seq<char>>,
    query: ResolvedQuery,
    groups: Seq<Vec<(u32, u32)>>,
    max: usize,
    r: Seq<crate::search_result::StoreSearchResult>,
)
    requires
        same_slots(sa, sb),
    ensures
        forall|kept: Seq<ScoredIndex>|
            #[trigger] ranked_results(r, kept, sa, catalog, query.positive_groups@) <==> ranked_results(
                r,
                kept,
                sb,
                catalog,
                query.positive_groups@,
            ),
{
    let pos = query.positive_groups@;
    assert forall|i: usize| #[trigger] slot_id(sa, i) == slot_id(sb, i) by {
        if i < sa.len() {
            assert(same_record(sa[i as int], sb[i as int]));
        }
    }
    assert forall|sorted: Seq<ScoredIndex>| #[trigger] ranked_order(sa, sorted) <==> ranked_order(sb, sorted) by {}
    assert forall|sorted: Seq<ScoredIndex>| #[trigger] results_of(r, sorted, sa, catalog, pos) <==> results_of(
        r,
        sorted,
        sb,
        catalog,
        pos,
    ) by {
        lemma_results_of_alike(r, sorted, sa, sb, catalog, pos);
    }
    assert forall|kept: Seq<ScoredIndex>|
        #[trigger] ranked_results(r, kept, sa, catalog, pos) <==> ranked_results(r, kept, sb, catalog, pos) by {
        if ranked_results(r, kept, sa, catalog, pos) {
            let sorted = choose|sorted: Seq<ScoredIndex>|
                {
                    &&& sorted.to_multiset() == kept.to_multiset()
                    &&& ranked_order(sa, sorted)
                    &&& results_of(r, sorted, sa, catalog, pos)
                };
            assert(ranked_order(sb, sorted) && results_of(r, sorted, sb, catalog, pos));
        }
        if ranked_results(r, kept, sb, catalog, pos) {
            let sorted = choose|sorted: Seq<ScoredIndex>|
                {
                    &&& sorted.to_multiset() == kept.to_multiset()
                    &&& ranked_order(sb, sorted)
                    &&& results_of(r, sorted, sb, catalog, pos)
                };
            assert(ranked_order(sa, sorted) && results_of(r, sorted, sa, catalog, pos));
        }
    }
}

/// Results for the same entries against slots holding the same records.
proof fn lemma_results_of_alike(
    r: Seq<crate::search_result::StoreSearchResult>,
    sorted: Seq<ScoredIndex>,
    sa: FullTextSlots,
    sb: FullTextSlots,
    catalog: Seq<Seq<char>>,
    pos: Seq<Vec<ExpandedTerm>>,
)
    requires
        same_slots(sa, sb),
    ensures
        results_of(r, sorted, sa, catalog, pos) <==> results_of(r, sorted, sb, catalog, pos),
    decreases sorted.len(),
{
    if sorted.len() > 0 {
        let e = sorted.last();
        lemma_results_of_alike(r, sorted.drop_last(), sa, sb, catalog, pos);
        if r.len() > 0 {
            lemma_results_of_alike(r.drop_last(), sorted.drop_last(), sa, sb, catalog, pos);
        }
        if e.1 < sa.len() {
            assert(same_record(sa[e.1 as int], sb[e.1 as int]));
        }
    }
}

/// The rank candidates against slots holding the same records.
proof fn lemma_rank_candidates_alike(
    sa: FullTextSlots,
    sb: FullTextSlots,
    neg: Seq<Vec<ExpandedTerm>>,
    groups: Seq<Vec<(u32, u32)>>,
    base: Seq<(u32, u32)>,
)
    requires
        same_slots(sa, sb),
    ensures
        rank_candidates(sa, neg, groups, base) == rank_candidates(sb, neg, groups, base),
    decreases base.len(),
{
    lemma_same_slots_ids(sa, sb);
    if base.len() > 0 {
        lemma_rank_candidates_alike(sa, sb, neg, groups, base.drop_last());
        let i = base.last().0 as int;
        assert forall|g: int| 0 <= g < neg.len() implies #[trigger] group_hits(sa, neg[g]@, i) == group_hits(
            sb,
            neg[g]@,
            i,
        ) by {
            if group_hits(sa, neg[g]@, i) {
                let k = choose|k: int| 0 <= k < neg[g]@.len() && #[trigger] record_has_term(sa, i, neg[g]@[k].term_id);
                assert(record_has_term(sb, i, neg[g]@[k].term_id));
            }
            if group_hits(sb, neg[g]@, i) {
                let k = choose|k: int| 0 <= k < neg[g]@.len() && #[trigger] record_has_term(sb, i, neg[g]@[k].term_id);
                assert(record_has_term(sa, i, neg[g]@[k].term_id));
            }
        }
        assert(excluded(sa, neg, i) == excluded(sb, neg, i)) by {
            if excluded(sa, neg, i) {
                let g = choose|g: int| 0 <= g < neg.len() && #[trigger] group_hits(sa, neg[g]@, i);
            }
            if excluded(sb, neg, i) {
                let g = choose|g: int| 0 <= g < neg.len() && #[trigger] group_hits(sb, neg[g]@, i);
                assert(group_hits(sa, neg[g]@, i));
            }
        }
    }
}

/// Two posting lists sorted by record with the same postings are equal.
proof fn lemma_sorted_same_postings(a: Seq<Posting>, b: Seq<Posting>)
    requires
        sorted_postings(a),
        sorted_postings(b),
        forall|p: Posting| #![trigger a.contains(p)] #![trigger b.contains(p)] a.contains(p) <==> b.contains(p),
    ensures
        a == b,
    decreases a.len() + b.len(),
{
    if a.len() == 0 || b.len() == 0 {
        if a.len() > 0 {
            assert(a.contains(a[0]));
        }
        if b.len() > 0 {
            assert(b.contains(b[0]));
        }
        assert(a =~= b);
    } else {
        let (la, lb) = (a.last(), b.last());
        assert(a.contains(la));
        assert(b.contains(lb));
        let ja = choose|j: int| 0 <= j < a.len() && a[j] == lb;
        let jb = choose|j: int| 0 <= j < b.len() && b[j] == la;
        assert(lb.record_idx <= la.record_idx);
        assert(la.record_idx <= lb.record_idx);
        assert(jb == b.len() - 1);
        assert(la == lb);
        let (ad, bd) = (a.drop_last(), b.drop_last());
        assert forall|p: Posting| #![trigger ad.contains(p)] #![trigger bd.contains(p)] ad.contains(p) <==> bd.contains(p) by {
            if ad.contains(p) {
                let j = choose|j: int| 0 <= j < ad.len() && ad[j] == p;
                assert(a[j] == p && p.record_idx < la.record_idx);
                assert(b.contains(p));
                let k = choose|k: int| 0 <= k < b.len() && b[k] == p;
                assert(k != b.len() - 1);
                assert(bd[k] == p);
            }
            if bd.contains(p) {
                let j = choose|j: int| 0 <= j < bd.len() && bd[j] == p;
                assert(b[j] == p && p.record_idx < lb.record_idx);
                assert(a.contains(p));
                let k = choose|k: int| 0 <= k < a.len() && a[k] == p;
                assert(k != a.len() - 1);
                assert(ad[k] == p);
            }
        }
        lemma_sorted_same_postings(ad, bd);
        assert(a =~= ad.push(la));
        assert(b =~= bd.push(lb));
    }
}

/// The update is an upsert of a text that has the term `w`.
pub open spec fn upserts_term(u: IndexUpdate, w: Seq<char>) -> bool {
    match u {
        IndexUpdate::Upsert(_, text) => term_texts(text).contains(w),
        IndexUpdate::Delete(_) => false,
    }
}

/// One of the first `n` updates upserts a text that has the term `w`.
pub open spec fn term_seen(updates: Seq<IndexUpdate>, n: int, w: Seq<char>) -> bool {
    exists|k: int| 0 <= k < n && upserts_term(#[trigger] updates[k], w)
}

/// The health of a store after any run of upserts and deletes from an
/// empty catalog (as `new` and `clear` leave it; a prefix delete is a run
/// of deletes): the live ids sorted and once each, as many as the live
/// records; as many tombstones as vacant slots not yet reused; the tokens
/// of the live records; and the number of distinct terms the run indexed.
pub proof fn lemma_health_of_run(runs: Seq<FullTextDatastore>, updates: Seq<IndexUpdate>, h: StoreHealth)
    requires
        updates_run(runs, updates),
        runs[0].catalog().len() == 0,
        full_text_health(runs.last(), h),
    ensures
        h.exists,
        h.kind@ == "fullText"@,
        sorted_seqs(h.record_ids.deep_view()),
        h.record_ids.deep_view().no_duplicates(),
        forall|id: Seq<char>| #[trigger] h.record_ids.deep_view().contains(id) <==> has_id(runs.last().slots(), id),
        h.live_records == h.record_ids.len(),
        h.tombstones == runs.last().vacated().len(),
        h.posting_occurrences == token_sum(runs.last().slots()),
        h.posting_terms == Set::new(|w: Seq<char>| term_seen(updates, updates.len() as int, w)).len(),
{
    let s = runs.last();
    let n = updates.len() as int;
    assert(runs[n].wf());
    s.lemma_ids_unique();
    lemma_live_ids_unique(s.slots());
    let (rd, li) = (h.record_ids.deep_view(), live_ids(s.slots()));
    li.lemma_multiset_has_no_duplicates();
    rd.to_multiset_ensures();
    li.to_multiset_ensures();
    rd.lemma_multiset_has_no_duplicates_conv();
    assert forall|id: Seq<char>| #[trigger] rd.contains(id) <==> has_id(s.slots(), id) by {
        lemma_live_ids_contains(s.slots(), id);
        assert(rd.to_multiset().count(id) == li.to_multiset().count(id));
    }
    lemma_catalog_holds_upserted_terms(runs, updates);
    let seen = Set::new(|w: Seq<char>| term_seen(updates, n, w));
    assert(seen =~= s.catalog().to_set());
    s.catalog().unique_seq_to_set();
}

/// The catalog of a store that started without terms holds, once each,
/// exactly the terms of the texts upserted since: deletes do not shrink
/// it, so the health's term count is the number of distinct terms indexed
/// since the store was new or last cleared.
pub proof fn lemma_catalog_holds_upserted_terms(runs: Seq<FullTextDatastore>, updates: Seq<IndexUpdate>)
    requires
        updates_run(runs, updates),
        runs[0].catalog().len() == 0,
    ensures
        runs.last().catalog().no_duplicates(),
        forall|w: Seq<char>| #[trigger] runs.last().catalog().contains(w) <==> term_seen(updates, updates.len() as int, w),
{
    let n = updates.len() as int;
    lemma_catalog_upto(runs, updates, n);
    assert(runs[n].wf());
    runs[n].lemma_store_facts();
}

/// The first `n` updates leave in the catalog exactly the terms they
/// upserted.
proof fn lemma_catalog_upto(runs: Seq<FullTextDatastore>, updates: Seq<IndexUpdate>, n: int)
    requires
        updates_run(runs, updates),
        runs[0].catalog().len() == 0,
        0 <= n <= updates.len(),
    ensures
        forall|w: Seq<char>| #[trigger] runs[n].catalog().contains(w) <==> term_seen(updates, n, w),
    decreases n,
{
    if n == 0 {
        assert forall|w: Seq<char>| #[trigger] runs[0].catalog().contains(w) <==> term_seen(updates, 0, w) by {
            if runs[0].catalog().contains(w) {
                let j = choose|j: int| 0 <= j < runs[0].catalog().len() && runs[0].catalog()[j] == w;
            }
        }
    } else {
        lemma_catalog_upto(runs, updates, n - 1);
        let (a, b, u) = (runs[n - 1], runs[n], updates[n - 1]);
        assert(update_applied(a, b, u));
        assert forall|w: Seq<char>| #[trigger] b.catalog().contains(w) <==> term_seen(updates, n, w) by {
            assert(term_seen(updates, n, w) <==> (term_seen(updates, n - 1, w) || upserts_term(u, w))) by {
                if term_seen(updates, n, w) {
                    let k = choose|k: int| 0 <= k < n && upserts_term(#[trigger] updates[k], w);
                    if k < n - 1 {
                        assert(term_seen(updates, n - 1, w));
                    }
                }
                if term_seen(updates, n - 1, w) {
                    let k = choose|k: int| 0 <= k < n - 1 && upserts_term(#[trigger] updates[k], w);
                    assert(0 <= k < n && upserts_term(updates[k], w));
                }
                if upserts_term(u, w) {
                    assert(0 <= n - 1 < n && upserts_term(updates[n - 1], w));
                }
            }
            match u {
                IndexUpdate::Upsert(id, text) => {
                    let nt = new_terms(term_texts(text), a.catalog());
                    assert(b.catalog() == a.catalog() + nt);
                    if b.catalog().contains(w) {
                        let j = choose|j: int| 0 <= j < b.catalog().len() && b.catalog()[j] == w;
                        if j < a.catalog().len() {
                            assert(a.catalog()[j] == w);
                            assert(a.catalog().contains(w));
                        } else {
                            assert(nt[j - a.catalog().len()] == w);
                            assert(nt.contains(w));
                            lemma_new_terms_from_words(term_texts(text), a.catalog(), w);
                        }
                    }
                    if a.catalog().contains(w) {
                        let j = choose|j: int| 0 <= j < a.catalog().len() && a.catalog()[j] == w;
                        assert(b.catalog()[j] == w);
                    }
                },
                IndexUpdate::Delete(_) => {},
            }
        }
    }
}

/// The new terms of some words are among those words.
proof fn lemma_new_terms_from_words(words: Seq<Seq<char>>, known: Seq<Seq<char>>, w: Seq<char>)
    requires
        new_terms(words, known).contains(w),
    ensures
        words.contains(w),
    decreases words.len(),
{
    if words.len() > 0 {
        let prev = new_terms(words.drop_last(), known);
        if prev.contains(w) {
            lemma_new_terms_from_words(words.drop_last(), known, w);
            let j = choose|j: int| 0 <= j < words.drop_last().len() && words.drop_last()[j] == w;
            assert(words[j] == w);
        } else {
            assert(words.last() == w);
            assert(words[words.len() - 1] == w);
        }
    }
}

/// The record's term ids include one whose catalog text is `w`.
pub open spec fn holds_term_text(rec: FullTextRecord, catalog: Seq<Seq<char>>, w: Seq<char>) -> bool {
    exists|t: u32| rec.terms@.contains(t) && t < catalog.len() && #[trigger] catalog[t as int] == w
}

/// Two slots, read against their stores' catalogs, hold records that are
/// alike: both vacant, or both live with the same id and token count and
/// the same term texts.
pub open spec fn same_record_text(
    x: Option<StoredRecord<FullTextRecord>>,
    cx: Seq<Seq<char>>,
    y: Option<StoredRecord<FullTextRecord>>,
    cy: Seq<Seq<char>>,
) -> bool {
    match (x, y) {
        (None, None) => true,
        (Some(a), Some(b)) => {
            &&& a.id@ == b.id@
            &&& a.value.token_count == b.value.token_count
            &&& forall|w: Seq<char>| #[trigger] holds_term_text(a.value, cx, w) <==> holds_term_text(b.value, cy, w)
        },
        _ => false,
    }
}

/// The slot an upsert of `id` fills: the slot of `id` when present, else
/// the most recently vacated slot, else a new last slot.
pub open spec fn upsert_target(slots: FullTextSlots, vacant: Seq<usize>, id: Seq<char>) -> int {
    if has_id(slots, id) {
        choose|i: int| id_at(slots, id, i)
    } else if vacant.len() > 0 {
        vacant.last() as int
    } else {
        slots.len() as int
    }
}

/// Where an upsert puts its record, and what it leaves of the other slots.
proof fn lemma_upsert_target(a: FullTextDatastore, b: FullTextDatastore, id: Seq<char>, text: Seq<char>)
    requires
        a.wf(),
        b.wf(),
        full_text_upserted(a, b, id, text),
    ensures
        ({
            let idx = upsert_target(a.slots(), a.vacated(), id);
            &&& 0 <= idx <= a.slots().len()
            &&& b.slots().len() == if idx == a.slots().len() { a.slots().len() + 1 } else { a.slots().len() + 0 }
            &&& id_at(b.slots(), id, idx)
            &&& b.slots()[idx] matches Some(r) && record_indexes_text(r.value, b.catalog(), text)
            &&& forall|i: int| 0 <= i < b.slots().len() && i != idx ==> #[trigger] b.slots()[i] == a.slots()[i]
            &&& b.vacated() == if has_id(a.slots(), id) || a.vacated().len() == 0 {
                a.vacated()
            } else {
                a.vacated().drop_last()
            }
        }),
{
    let (sa, sb) = (a.slots(), b.slots());
    a.lemma_ids_unique();
    b.lemma_ids_unique();
    a.lemma_vacated();
    let target = upsert_target(sa, a.vacated(), id);
    let ia = choose|idx: int|
        {
            &&& id_at(sb, id, idx)
            &&& (#[trigger] sb[idx]) matches Some(r) && crate::full_text::store::indexes_text(b.catalog(), text)(
                r.value,
            )
            &&& {
                ||| idx < sa.len() && sb == sa.update(idx, sb[idx])
                ||| idx == sa.len() && sb == sa.push(sb[idx])
            }
            &&& has_id(sa, id) ==> id_at(sa, id, idx)
            &&& !has_id(sa, id) && idx < sa.len() ==> sa[idx] is None
        };
    if has_id(sa, id) {
        let i = choose|i: int| id_at(sa, id, i);
        assert(i == target);
    } else if a.vacated().len() > 0 {
        assert(a.vacated()[a.vacated().len() - 1] < sa.len());
        assert(id_at(sb, id, a.vacated().last() as int));
    } else {
        assert(id_at(sb, id, sa.len() as int));
    }
    assert(ia == target);
    assert forall|i: int| 0 <= i < sb.len() && i != target implies #[trigger] sb[i] == sa[i] by {}
}

/// Upserting `id` twice ends as upserting it once with the second text:
/// the same slots hold records with the same ids, token counts and term
/// texts, the same slots are vacant in the same order, every term of the
/// single upsert's catalog is in the other's (which also keeps the terms
/// of the first text), and under the same word both stores' posting lists
/// hold the same postings, term frequencies included.
pub proof fn lemma_reupsert_same_as_single(
    s0: FullTextDatastore,
    s1: FullTextDatastore,
    s2: FullTextDatastore,
    single: FullTextDatastore,
    id: Seq<char>,
    first: Seq<char>,
    second: Seq<char>,
)
    requires
        s0.wf(),
        s1.wf(),
        s2.wf(),
        single.wf(),
        full_text_upserted(s0, s1, id, first),
        full_text_upserted(s1, s2, id, second),
        full_text_upserted(s0, single, id, second),
    ensures
        s2.slots().len() == single.slots().len(),
        s2.vacated() == single.vacated(),
        forall|i: int|
            0 <= i < s2.slots().len() ==> same_record_text(
                #[trigger] s2.slots()[i],
                s2.catalog(),
                single.slots()[i],
                single.catalog(),
            ),
        forall|w: Seq<char>| #[trigger] single.catalog().contains(w) ==> s2.catalog().contains(w),
        forall|t2: int, ts: int, p: Posting|
            0 <= t2 < s2.catalog().len() && 0 <= ts < single.catalog().len() && s2.catalog()[t2] == single.catalog()[ts]
                ==> (#[trigger] s2.posting_lists()[t2].contains(p) <==> #[trigger] single.posting_lists()[ts].contains(
                p,
            )),
{
    lemma_reupsert_slots(s0, s1, s2, single, id, first, second);
    lemma_reupsert_postings(s0, s1, s2, single, id, first, second);
}

/// Under the same word, the two stores' posting lists hold the same
/// postings.
proof fn lemma_reupsert_postings(
    s0: FullTextDatastore,
    s1: FullTextDatastore,
    s2: FullTextDatastore,
    single: FullTextDatastore,
    id: Seq<char>,
    first: Seq<char>,
    second: Seq<char>,
)
    requires
        s0.wf(),
        s1.wf(),
        s2.wf(),
        single.wf(),
        full_text_upserted(s0, s1, id, first),
        full_text_upserted(s1, s2, id, second),
        full_text_upserted(s0, single, id, second),
    ensures
        forall|t2: int, ts: int, p: Posting|
            0 <= t2 < s2.catalog().len() && 0 <= ts < single.catalog().len() && s2.catalog()[t2] == single.catalog()[ts]
                ==> (#[trigger] s2.posting_lists()[t2].contains(p) <==> #[trigger] single.posting_lists()[ts].contains(
                p,
            )),
{
    lemma_upsert_target(s0, s1, id, first);
    lemma_upsert_target(s1, s2, id, second);
    lemma_upsert_target(s0, single, id, second);
    s1.lemma_ids_unique();
    s0.lemma_store_facts();
    s0.lemma_record_terms();
    s2.lemma_store_facts();
    single.lemma_store_facts();
    lemma_postings_follow_slots(s2);
    lemma_postings_follow_slots(single);
    let idx = upsert_target(s0.slots(), s0.vacated(), id);
    assert(has_id(s1.slots(), id));
    assert(upsert_target(s1.slots(), s1.vacated(), id) == idx);
    let (c0, c2, cs) = (s0.catalog(), s2.catalog(), single.catalog());
    assert forall|t: int| 0 <= t < c0.len() implies #[trigger] c2[t] == c0[t] && cs[t] == c0[t] by {
        assert(c2[t] == s1.catalog()[t]);
    }
    assert forall|t2: int, ts: int, p: Posting|
        0 <= t2 < c2.len() && 0 <= ts < cs.len() && c2[t2] == cs[ts] implies (#[trigger] s2.posting_lists()[t2].contains(
        p,
    ) <==> #[trigger] single.posting_lists()[ts].contains(p)) by {
        let i = p.record_idx as int;
        let w = c2[t2];
        let (a, b) = (s2.slots(), single.slots());
        if i == idx {
            let (ra, rb) = (a[i]->0, b[i]->0);
            if record_has_term(a, i, t2 as u32) || record_has_term(b, i, ts as u32) {
                assert(term_texts(second).contains(w));
            }
            if term_texts(second).contains(w) {
                assert(ra.value.terms@.contains(t2 as u32));
                assert(rb.value.terms@.contains(ts as u32));
            }
            crate::full_text::store::lemma_count_of_words(ra.value.token_ids@, term_texts(second), c2, t2);
            crate::full_text::store::lemma_count_of_words(rb.value.token_ids@, term_texts(second), cs, ts);
            assert(posting_of(a, t2, p) <==> posting_of(b, ts, p));
        } else if 0 <= i < a.len() && a[i] is Some {
            assert(a[i] == s0.slots()[i]);
            assert(b[i] == s0.slots()[i]);
            if c0.contains(w) {
                let t0 = choose|t0: int| 0 <= t0 < c0.len() && c0[t0] == w;
                assert(c2[t0] == w && cs[t0] == w);
                assert(t2 == t0);
                assert(ts == t0);
            } else {
                if t2 < c0.len() {
                    assert(c0[t2] == w);
                }
                if ts < c0.len() {
                    assert(c0[ts] == w);
                }
                let r = a[i]->0;
                if r.value.terms@.contains(t2 as u32) {
                    let k = choose|k: int| 0 <= k < r.value.terms@.len() && r.value.terms@[k] == t2 as u32;
                }
                if r.value.terms@.contains(ts as u32) {
                    let k = choose|k: int| 0 <= k < r.value.terms@.len() && r.value.terms@[k] == ts as u32;
                }
                assert(!posting_of(a, t2, p) && !posting_of(b, ts, p));
            }
        } else {
            if 0 <= i < a.len() {
                assert(a[i] == s0.slots()[i] && b[i] == s0.slots()[i]);
            }
            assert(!posting_of(a, t2, p) && !posting_of(b, ts, p));
        }
    }
}

/// The slots, vacant slots and catalog of the two stores.
proof fn lemma_reupsert_slots(
    s0: FullTextDatastore,
    s1: FullTextDatastore,
    s2: FullTextDatastore,
    single: FullTextDatastore,
    id: Seq<char>,
    first: Seq<char>,
    second: Seq<char>,
)
    requires
        s0.wf(),
        s1.wf(),
        s2.wf(),
        single.wf(),
        full_text_upserted(s0, s1, id, first),
        full_text_upserted(s1, s2, id, second),
        full_text_upserted(s0, single, id, second),
    ensures
        s2.slots().len() == single.slots().len(),
        s2.vacated() == single.vacated(),
        forall|i: int|
            0 <= i < s2.slots().len() ==> same_record_text(
                #[trigger] s2.slots()[i],
                s2.catalog(),
                single.slots()[i],
                single.catalog(),
            ),
        forall|w: Seq<char>| #[trigger] single.catalog().contains(w) ==> s2.catalog().contains(w),
{
    lemma_upsert_target(s0, s1, id, first);
    lemma_upsert_target(s1, s2, id, second);
    lemma_upsert_target(s0, single, id, second);
    s0.lemma_record_terms();
    s1.lemma_ids_unique();
    s2.lemma_store_facts();
    single.lemma_store_facts();
    let idx = upsert_target(s0.slots(), s0.vacated(), id);
    assert(has_id(s1.slots(), id));
    assert(upsert_target(s1.slots(), s1.vacated(), id) == idx);
    let (c0, c2, cs) = (s0.catalog(), s2.catalog(), single.catalog());
    assert forall|t: int| 0 <= t < c0.len() implies #[trigger] c2[t] == c0[t] && cs[t] == c0[t] by {
        assert(c2[t] == s1.catalog()[t]);
    }
    assert forall|i: int| 0 <= i < s2.slots().len() implies same_record_text(
        #[trigger] s2.slots()[i],
        c2,
        single.slots()[i],
        cs,
    ) by {
        if i == idx {
            let (r2, rs) = (s2.slots()[i]->0, single.slots()[i]->0);
            assert forall|w: Seq<char>| #[trigger] holds_term_text(r2.value, c2, w) <==> holds_term_text(
                rs.value,
                cs,
                w,
            ) by {
                if holds_term_text(r2.value, c2, w) || holds_term_text(rs.value, cs, w) {
                    assert(term_texts(second).contains(w));
                }
                if term_texts(second).contains(w) {
                    let j2 = choose|j: int| 0 <= j < c2.len() && c2[j] == w;
                    let js = choose|j: int| 0 <= j < cs.len() && cs[j] == w;
                    assert((j2 as u32) as int == j2 && (js as u32) as int == js);
                    assert(c2[(j2 as u32) as int] == w);
                    assert(r2.value.terms@.contains(j2 as u32));
                    assert(rs.value.terms@.contains(js as u32));
                }
            }
        } else {
            assert(s2.slots()[i] == s0.slots()[i]);
            assert(single.slots()[i] == s0.slots()[i]);
            if s0.slots()[i] is Some {
                let r = s0.slots()[i]->0;
                assert forall|w: Seq<char>| #[trigger] holds_term_text(r.value, c2, w) <==> holds_term_text(
                    r.value,
                    cs,
                    w,
                ) by {
                    if holds_term_text(r.value, c2, w) {
                        let t = choose|t: u32| r.value.terms@.contains(t) && t < c2.len() && #[trigger] c2[t as int] == w;
                        let k = choose|k: int| 0 <= k < r.value.terms@.len() && r.value.terms@[k] == t;
                        assert(c2[t as int] == cs[t as int]);
                    }
                    if holds_term_text(r.value, cs, w) {
                        let t = choose|t: u32| r.value.terms@.contains(t) && t < cs.len() && #[trigger] cs[t as int] == w;
                        let k = choose|k: int| 0 <= k < r.value.terms@.len() && r.value.terms@[k] == t;
                        assert(c2[t as int] == cs[t as int]);
                    }
                }
            }
        }
    }
    assert forall|w: Seq<char>| #[trigger] cs.contains(w) implies c2.contains(w) by {
        let j = choose|j: int| 0 <= j < cs.len() && cs[j] == w;
        if j < c0.len() {
            assert(c2[j] == w);
        } else {
            assert(new_terms(term_texts(second), c0)[j - c0.len()] == w);
            lemma_new_terms_from_words(term_texts(second), c0, w);
        }
    }
}

/// `same_index` chains.
proof fn lemma_same_index_transitive(a: FullTextDatastore, b: FullTextDatastore, c: FullTextDatastore)
    requires
        same_index(a, b),
        same_index(b, c),
    ensures
        same_index(a, c),
{
    assert forall|i: int| 0 <= i < a.slots().len() implies same_record(#[trigger] a.slots()[i], c.slots()[i]) by {
        assert(same_record(a.slots()[i], b.slots()[i]));
        assert(same_record(b.slots()[i], c.slots()[i]));
    }
    assert forall|t: int, p: Posting| 0 <= t < a.posting_lists().len() implies (#[trigger] a.posting_lists()[t].contains(
        p,
    ) <==> c.posting_lists()[t].contains(p)) by {
        assert(a.posting_lists()[t].contains(p) <==> b.posting_lists()[t].contains(p));
        assert(b.posting_lists()[t].contains(p) <==> c.posting_lists()[t].contains(p));
    }
}

/// Updates keep the bulk-load flag.
proof fn lemma_bulk_flag_kept(runs: Seq<FullTextDatastore>, updates: Seq<IndexUpdate>, n: int)
    requires
        updates_run(runs, updates),
        0 <= n <= updates.len(),
    ensures
        runs[n].is_bulk_loading() == runs[0].is_bulk_loading(),
    decreases n,
{
    if n > 0 {
        lemma_bulk_flag_kept(runs, updates, n - 1);
        assert(update_applied(runs[n - 1], runs[n], updates[n - 1]));
    }
}

/// After the first `n` updates the two runs still index the same content.
proof fn lemma_replay_upto(a: Seq<FullTextDatastore>, b: Seq<FullTextDatastore>, updates: Seq<IndexUpdate>, n: int)
    requires
        updates_run(a, updates),
        updates_run(b, updates),
        same_index(a[0], b[0]),
        0 <= n <= updates.len(),
    ensures
        same_index(a[n], b[n]),
    decreases n,
{
    if n > 0 {
        lemma_replay_upto(a, b, updates, n - 1);
        assert(a[n - 1].wf() && a[n].wf() && b[n - 1].wf() && b[n].wf());
        assert(update_applied(a[n - 1], a[n], updates[n - 1]));
        assert(update_applied(b[n - 1], b[n], updates[n - 1]));
        lemma_same_update_same_index(a[n - 1], b[n - 1], a[n], b[n], updates[n - 1]);
    }
}

/// Slots holding the same records hold the same ids at the same places.
proof fn lemma_same_slots_ids(a: FullTextSlots, b: FullTextSlots)
    requires
        same_slots(a, b),
    ensures
        forall|id: Seq<char>, i: int| #[trigger] id_at(a, id, i) <==> id_at(b, id, i),
        forall|id: Seq<char>| #[trigger] has_id(a, id) <==> has_id(b, id),
        forall|i: int, t: u32| #[trigger] record_has_term(a, i, t) <==> record_has_term(b, i, t),
        forall|t: int, p: Posting| #[trigger] posting_of(a, t, p) <==> posting_of(b, t, p),
{
    assert forall|t: int, p: Posting| #[trigger] posting_of(a, t, p) <==> posting_of(b, t, p) by {
        let i = p.record_idx as int;
        if 0 <= i < a.len() {
            assert(same_record(a[i], b[i]));
        }
    }
    assert forall|id: Seq<char>, i: int| #[trigger] id_at(a, id, i) <==> id_at(b, id, i) by {
        if 0 <= i < a.len() {
            assert(same_record(a[i], b[i]));
        }
    }
    assert forall|id: Seq<char>| #[trigger] has_id(a, id) <==> has_id(b, id) by {
        if has_id(a, id) {
            let i = choose|i: int| id_at(a, id, i);
            assert(id_at(b, id, i));
        }
        if has_id(b, id) {
            let i = choose|i: int| id_at(b, id, i);
            assert(id_at(a, id, i));
        }
    }
    assert forall|i: int, t: u32| #[trigger] record_has_term(a, i, t) <==> record_has_term(b, i, t) by {
        if 0 <= i < a.len() {
            assert(same_record(a[i], b[i]));
        }
    }
}

/// Slots holding the same records have the same live count, live ids and
/// token total.
proof fn lemma_same_slots_counts(a: FullTextSlots, b: FullTextSlots)
    requires
        same_slots(a, b),
    ensures
        live_count(a) == live_count(b),
        live_ids(a) == live_ids(b),
        token_sum(a) == token_sum(b),
    decreases a.len(),
{
    if a.len() > 0 {
        let (ad, bd) = (a.drop_last(), b.drop_last());
        assert forall|i: int| 0 <= i < ad.len() implies same_record(#[trigger] ad[i], bd[i]) by {
            assert(ad[i] == a[i] && bd[i] == b[i]);
        }
        lemma_same_slots_counts(ad, bd);
        assert(same_record(a.last(), b.last()));
    }
}

/// Two strictly increasing sequences with the same elements are equal.
proof fn lemma_increasing_same_elements(s: Seq<u32>, u: Seq<u32>)
    requires
        increasing_terms(s),
        increasing_terms(u),
        forall|t: u32| s.contains(t) <==> u.contains(t),
    ensures
        s == u,
    decreases s.len() + u.len(),
{
    if s.len() == 0 || u.len() == 0 {
        if s.len() > 0 {
            assert(s.contains(s[0]));
        }
        if u.len() > 0 {
            assert(u.contains(u[0]));
        }
        assert(s =~= u);
    } else {
        let (ls, lu) = (s.last(), u.last());
        assert(s.contains(ls));
        assert(u.contains(lu));
        let js = choose|j: int| 0 <= j < s.len() && s[j] == lu;
        let ju = choose|j: int| 0 <= j < u.len() && u[j] == ls;
        assert(lu <= ls);
        assert(ls <= lu);
        let (sd, ud) = (s.drop_last(), u.drop_last());
        assert forall|t: u32| sd.contains(t) <==> ud.contains(t) by {
            if sd.contains(t) {
                let j = choose|j: int| 0 <= j < sd.len() && sd[j] == t;
                assert(s[j] == t && t < ls);
                assert(u.contains(t));
                let k = choose|k: int| 0 <= k < u.len() && u[k] == t;
                assert(k != u.len() - 1);
                assert(ud[k] == t);
            }
            if ud.contains(t) {
                let j = choose|j: int| 0 <= j < ud.len() && ud[j] == t;
                assert(u[j] == t && t < lu);
                assert(s.contains(t));
                let k = choose|k: int| 0 <= k < s.len() && s[k] == t;
                assert(k != s.len() - 1);
                assert(sd[k] == t);
            }
        }
        lemma_increasing_same_elements(sd, ud);
        assert(s =~= sd.push(ls));
        assert(u =~= ud.push(lu));
    }
}

/// The posting lists of a consistent store name exactly the records that
/// hold each term.
/// The posting `p` is the one the record it names has for term `t`: the
/// record is live, holds the term, and has it that many times.
pub open spec fn posting_of(slots: FullTextSlots, t: int, p: Posting) -> bool {
    &&& record_has_term(slots, p.record_idx as int, t as u32)
    &&& p.term_frequency == count_of(slots[p.record_idx as int]->0.value.token_ids@, t as u32)
}

proof fn lemma_postings_follow_slots(s: FullTextDatastore)
    requires
        s.wf(),
    ensures
        s.catalog().len() == s.posting_lists().len(),
        forall|t: int, p: Posting|
            0 <= t < s.posting_lists().len() ==> (#[trigger] s.posting_lists()[t].contains(p) <==> posting_of(s.slots(), t, p)),
        forall|t: int, r: u32|
            0 <= t < s.posting_lists().len() ==> (#[trigger] has_record(s.posting_lists()[t], r) <==> record_has_term(
                s.slots(),
                r as int,
                t as u32,
            )),
{
    s.lemma_store_facts();
    let pl = s.posting_lists();
    assert forall|t: int, r: u32| 0 <= t < pl.len() implies (#[trigger] has_record(pl[t], r) <==> record_has_term(
        s.slots(),
        r as int,
        t as u32,
    )) by {
        if has_record(pl[t], r) {
            let k = choose|k: int| 0 <= k < pl[t].len() && (#[trigger] pl[t][k]).record_idx == r;
            assert(pl[t][k].record_idx == r);
        }
    }
    assert forall|t: int, p: Posting| 0 <= t < pl.len() implies (#[trigger] pl[t].contains(p) <==> posting_of(s.slots(), t, p)) by {
        if pl[t].contains(p) {
            let k = choose|k: int| 0 <= k < pl[t].len() && pl[t][k] == p;
            assert(pl[t][k] == p);
        }
        if posting_of(s.slots(), t, p) {
            assert(has_record(pl[t], p.record_idx));
            let k = choose|k: int| 0 <= k < pl[t].len() && (#[trigger] pl[t][k]).record_idx == p.record_idx;
            assert(pl[t][k].record_idx == p.record_idx);
            assert(pl[t][k].term_frequency == p.term_frequency);
            assert(pl[t][k] == p);
        }
    }
}

/// One update applied to two stores that index the same content leaves
/// them indexing the same content.
proof fn lemma_same_update_same_index(
    a: FullTextDatastore,
    b: FullTextDatastore,
    a2: FullTextDatastore,
    b2: FullTextDatastore,
    u: IndexUpdate,
)
    requires
        a.wf(),
        b.wf(),
        a2.wf(),
        b2.wf(),
        same_index(a, b),
        update_applied(a, a2, u),
        update_applied(b, b2, u),
    ensures
        same_index(a2, b2),
{
    let (sa, sb, sa2, sb2) = (a.slots(), b.slots(), a2.slots(), b2.slots());
    lemma_same_slots_ids(sa, sb);
    a.lemma_ids_unique();
    b.lemma_ids_unique();
    a2.lemma_ids_unique();
    b2.lemma_ids_unique();
    match u {
        IndexUpdate::Upsert(id, text) => {
            let ia = choose|idx: int|
                {
                    &&& id_at(sa2, id, idx)
                    &&& (#[trigger] sa2[idx]) matches Some(r) && crate::full_text::store::indexes_text(
                        a2.catalog(),
                        text,
                    )(r.value)
                    &&& {
                        ||| idx < sa.len() && sa2 == sa.update(idx, sa2[idx])
                        ||| idx == sa.len() && sa2 == sa.push(sa2[idx])
                    }
                    &&& has_id(sa, id) ==> id_at(sa, id, idx)
                    &&& !has_id(sa, id) && idx < sa.len() ==> sa[idx] is None
                };
            let ib = choose|idx: int|
                {
                    &&& id_at(sb2, id, idx)
                    &&& (#[trigger] sb2[idx]) matches Some(r) && crate::full_text::store::indexes_text(
                        b2.catalog(),
                        text,
                    )(r.value)
                    &&& {
                        ||| idx < sb.len() && sb2 == sb.update(idx, sb2[idx])
                        ||| idx == sb.len() && sb2 == sb.push(sb2[idx])
                    }
                    &&& has_id(sb, id) ==> id_at(sb, id, idx)
                    &&& !has_id(sb, id) && idx < sb.len() ==> sb[idx] is None
                };
            if has_id(sa, id) {
                assert(id_at(sa, id, ib));
            } else if a.vacated().len() > 0 {
                assert(id_at(sa2, id, a.vacated().last() as int));
                assert(id_at(sb2, id, b.vacated().last() as int));
            } else {
                assert(id_at(sa2, id, sa.len() as int));
                assert(id_at(sb2, id, sb.len() as int));
            }
            assert(ia == ib);
            assert(a2.catalog() == b2.catalog());
            let (ra, rb) = (sa2[ia]->0, sb2[ib]->0);
            a2.lemma_store_facts();
            a2.lemma_record_terms();
            b2.lemma_record_terms();
            assert(increasing_terms(ra.value.terms@));
            assert(increasing_terms(rb.value.terms@));
            lemma_increasing_same_elements(ra.value.terms@, rb.value.terms@);
            let (ta, tb) = (ra.value.token_ids@, rb.value.token_ids@);
            assert forall|k: int| 0 <= k < ta.len() implies ta[k] == tb[k] by {
                let c = a2.catalog();
                assert(c[ta[k] as int] == c[tb[k] as int]);
            }
            assert(ta =~= tb);
            assert(same_record(sa2[ia], sb2[ib]));
            assert forall|i: int| 0 <= i < sa2.len() implies same_record(#[trigger] sa2[i], sb2[i]) by {
                if i != ia {
                    assert(sa2[i] == sa[i]);
                    assert(sb2[i] == sb[i]);
                    assert(same_record(sa[i], sb[i]));
                }
            }
        },
        IndexUpdate::Delete(id) => {
            if has_id(sa, id) {
                let ia = choose|idx: int| id_at(sa, id, idx) && sa2 == sa.update(idx, None);
                let ib = choose|idx: int| id_at(sb, id, idx) && sb2 == sb.update(idx, None);
                assert(id_at(sa, id, ib));
                assert(ia == ib);
                let va = choose|idx: int| id_at(sa, id, idx) && a2.vacated() == a.vacated().push(idx as usize);
                let vb = choose|idx: int| id_at(sb, id, idx) && b2.vacated() == b.vacated().push(idx as usize);
                assert(id_at(sa, id, vb));
                assert(va == vb);
                assert forall|i: int| 0 <= i < sa2.len() implies same_record(#[trigger] sa2[i], sb2[i]) by {
                    if i != ia {
                        assert(same_record(sa[i], sb[i]));
                    }
                }
            } else {
                assert forall|i: int| 0 <= i < sa2.len() implies same_record(#[trigger] sa2[i], sb2[i]) by {
                    assert(same_record(sa[i], sb[i]));
                }
            }
        },
    }
    assert(same_slots(sa2, sb2));
    lemma_same_slots_ids(sa2, sb2);
    lemma_postings_follow_slots(a2);
    lemma_postings_follow_slots(b2);
}

} // verus!
