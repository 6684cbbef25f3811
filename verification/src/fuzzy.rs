//! Sparse fuzzy-search datastore backed by `nucleo_matcher`, with per-session
//! incremental narrowing.
use crate::matcher::{
    fuzzy_atom_negations, fuzzy_match_indices, fuzzy_pattern_score, indices_total, lemma_few_atoms_fit,
    score_total, totals_fit, FuzzyPattern, NumberedString, PathMatcher, MAX_SUMMED_ATOMS,
};
use crate::record_table::{
    delete_slot, has_id, id_at, live_count, live_ids, prefix_deleted, slot_deleted, slot_upserted,
    unique_ids, upsert_slot, vacant_slots_listed, RecordTable, StoredRecord,
};
use crate::search_result::{spec_highlight_ranges, StoreSearchResult};
use crate::store_health::StoreHealth;
use crate::text::{chars_of, chars_starts_with, lemma_insert_to_multiset, seq_starts_with, sorted_seqs};
use crate::top_scores::{is_top_k, lemma_push_top_score_keeps_top_k, pushed_top_score, ScoredIndex};
use vstd::prelude::*;

verus! {

broadcast use vstd::seq_lib::group_seq_properties;

/// Incremental fuzzy-search cache owned by a single search session.
pub struct FuzzySessionState {
    /// Previous query text used to detect prefix narrowing.
    last_query: String,
    /// Record indices that matched the previous query and can be rescored for
    /// a narrower prefix query.
    last_match_ids: Vec<usize>,
}

impl FuzzySessionState {
    /// The previous query.
    pub closed spec fn last_query(&self) -> Seq<char> {
        self.last_query@
    }

    /// The record indices that matched the previous query.
    pub closed spec fn last_matches(&self) -> Seq<usize> {
        self.last_match_ids@
    }

    /// A session state with no previous query.
    pub fn new() -> (r: Self)
        ensures
            r.last_query().len() == 0,
            r.last_matches().len() == 0,
    {
        FuzzySessionState { last_query: String::new(), last_match_ids: Vec::new() }
    }

    /// Clears incremental state after the datastore changes.
    pub fn reset(&mut self)
        ensures
            final(self).last_query().len() == 0,
            final(self).last_matches().len() == 0,
    {
        self.last_query = String::new();
        self.last_match_ids = Vec::new();
    }
}

/// One fuzzy-searchable record.
pub struct FuzzyRecord {
    pub text: NumberedString,
}

/// The record holds `text`.
pub open spec fn holds_text(text: Seq<char>) -> spec_fn(FuzzyRecord) -> bool {
    |r: FuzzyRecord| r.text@ == text
}

/// The slots of a fuzzy datastore.
pub type FuzzySlots = Seq<Option<StoredRecord<FuzzyRecord>>>;

/// The score of `query` on the record in slot `i`, if that slot is live and
/// the query matches its text.
pub open spec fn slot_score(slots: FuzzySlots, query: Seq<char>, i: usize) -> Option<u32> {
    if i < slots.len() && slots[i as int] is Some {
        fuzzy_pattern_score(query, slots[i as int]->0.value.text@)
    } else {
        None
    }
}

/// The matches of `query` among the candidate slots `cands`, in candidate
/// order: each live candidate whose text the query matches, with its score.
pub open spec fn fuzzy_matches(slots: FuzzySlots, query: Seq<char>, cands: Seq<usize>) -> Seq<ScoredIndex>
    decreases cands.len(),
{
    if cands.len() == 0 {
        seq![]
    } else {
        let prev = fuzzy_matches(slots, query, cands.drop_last());
        match slot_score(slots, query, cands.last()) {
            Some(score) => prev.push(ScoredIndex(score, cands.last())),
            None => prev,
        }
    }
}

/// The slot of each entry.
pub open spec fn entry_slots(s: Seq<ScoredIndex>) -> Seq<usize> {
    s.map_values(|e: ScoredIndex| e.1)
}

/// Every entry names a live slot and carries the query's score on it.
pub open spec fn scored_live(slots: FuzzySlots, query: Seq<char>, s: Seq<ScoredIndex>) -> bool {
    forall|k: int| 0 <= k < s.len() ==> slot_score(slots, query, (#[trigger] s[k]).1) == Some(s[k].0)
}

/// Every match names a live slot and carries its score.
pub proof fn lemma_fuzzy_matches_live(slots: FuzzySlots, query: Seq<char>, cands: Seq<usize>)
    ensures
        scored_live(slots, query, fuzzy_matches(slots, query, cands)),
    decreases cands.len(),
{
    if cands.len() > 0 {
        lemma_fuzzy_matches_live(slots, query, cands.drop_last());
    }
}

/// Every match is one of the candidates.
pub proof fn lemma_fuzzy_matches_from_candidates(slots: FuzzySlots, query: Seq<char>, cands: Seq<usize>)
    ensures
        forall|k: int|
            0 <= k < fuzzy_matches(slots, query, cands).len() ==> cands.contains(
                (#[trigger] fuzzy_matches(slots, query, cands)[k]).1,
            ),
    decreases cands.len(),
{
    if cands.len() > 0 {
        let d = cands.drop_last();
        lemma_fuzzy_matches_from_candidates(slots, query, d);
        let m = fuzzy_matches(slots, query, cands);
        assert forall|k: int| 0 <= k < m.len() implies cands.contains((#[trigger] m[k]).1) by {
            if k < fuzzy_matches(slots, query, d).len() {
                assert(m[k] == fuzzy_matches(slots, query, d)[k]);
                let j = choose|j: int| 0 <= j < d.len() && d[j] == m[k].1;
                assert(cands[j] == d[j]);
            } else {
                assert(cands[cands.len() - 1] == m[k].1);
            }
        }
    }
}

/// Narrowing: when a query extends the session's previous nonempty query,
/// that query matched something and neither has a negated atom, the search
/// only rescores the previous matches, so every record it matches now was
/// matched by the previous query.
pub proof fn lemma_narrowed_search_within_previous_matches(
    slots: FuzzySlots,
    last_query: Seq<char>,
    last_matches: Seq<usize>,
    query: Seq<char>,
)
    requires
        last_query.len() > 0,
        seq_starts_with(query, last_query),
        last_matches.len() > 0,
        !has_negated_atom(last_query),
        !has_negated_atom(query),
    ensures
        forall|k: int|
            0 <= k < fuzzy_matches(slots, query, search_candidates(slots, last_query, last_matches, query)).len()
                ==> last_matches.contains(
                (#[trigger] fuzzy_matches(slots, query, search_candidates(slots, last_query, last_matches, query))[k]).1,
            ),
{
    lemma_fuzzy_matches_from_candidates(slots, query, last_matches);
}

/// An entry is a match exactly when its slot is a candidate that the query
/// matches with the entry's score.
pub proof fn lemma_fuzzy_matches_contains(slots: FuzzySlots, query: Seq<char>, cands: Seq<usize>, e: ScoredIndex)
    ensures
        fuzzy_matches(slots, query, cands).contains(e) <==> (cands.contains(e.1) && slot_score(slots, query, e.1)
            == Some(e.0)),
    decreases cands.len(),
{
    if cands.len() > 0 {
        let d = cands.drop_last();
        let (prev, cur) = (fuzzy_matches(slots, query, d), fuzzy_matches(slots, query, cands));
        lemma_fuzzy_matches_contains(slots, query, d, e);
        if cur.contains(e) {
            let k = choose|k: int| 0 <= k < cur.len() && cur[k] == e;
            if k < prev.len() {
                assert(prev[k] == e);
                let j = choose|j: int| 0 <= j < d.len() && d[j] == e.1;
                assert(cands[j] == e.1);
            } else {
                assert(cands[cands.len() - 1] == e.1);
            }
        }
        if cands.contains(e.1) && slot_score(slots, query, e.1) == Some(e.0) {
            let j = choose|j: int| 0 <= j < cands.len() && cands[j] == e.1;
            if j < d.len() {
                assert(d[j] == e.1);
                let k = choose|k: int| 0 <= k < prev.len() && prev[k] == e;
                assert(cur[k] == e);
            } else {
                assert(cur[cur.len() - 1] == e);
            }
        }
    }
}

/// Narrowing loses nothing when the query only loses matches as it grows:
/// if every slot the new query matches was among the previous matches, the
/// search finds exactly the (score, slot) entries that a fresh scan of
/// every slot finds.
pub proof fn lemma_narrowed_matches_equal_fresh(
    slots: FuzzySlots,
    last_query: Seq<char>,
    last_matches: Seq<usize>,
    query: Seq<char>,
)
    requires
        forall|i: usize| #[trigger] slot_score(slots, query, i) is Some ==> last_matches.contains(i),
    ensures
        forall|e: ScoredIndex|
            #[trigger] fuzzy_matches(slots, query, search_candidates(slots, last_query, last_matches, query)).contains(e)
                <==> fuzzy_matches(slots, query, all_slots(slots.len())).contains(e),
{
    let cands = search_candidates(slots, last_query, last_matches, query);
    let all = all_slots(slots.len());
    assert forall|e: ScoredIndex|
        #[trigger] fuzzy_matches(slots, query, cands).contains(e) <==> fuzzy_matches(slots, query, all).contains(e) by {
        lemma_fuzzy_matches_contains(slots, query, cands, e);
        lemma_fuzzy_matches_contains(slots, query, all, e);
        if slot_score(slots, query, e.1) == Some(e.0) {
            assert(e.1 < slots.len());
            assert(all[e.1 as int] == e.1);
            assert(last_matches.contains(e.1));
        }
    }
}

/// A query that does not extend the session's previous query (a shorter or
/// different query, or the first one) scores every slot, as a fresh session
/// would: its matches are exactly the live slots it matches, each with its
/// score.
pub proof fn lemma_unextended_query_scans_every_slot(
    slots: FuzzySlots,
    last_query: Seq<char>,
    last_matches: Seq<usize>,
    query: Seq<char>,
    e: ScoredIndex,
)
    requires
        last_query.len() == 0 || !seq_starts_with(query, last_query),
    ensures
        search_candidates(slots, last_query, last_matches, query) == all_slots(slots.len()),
        fuzzy_matches(slots, query, search_candidates(slots, last_query, last_matches, query)).contains(e) <==> (e.1
            < slots.len() && slots[e.1 as int] is Some && fuzzy_pattern_score(query, slots[e.1 as int]->0.value.text@)
            == Some(e.0)),
{
    let all = all_slots(slots.len());
    lemma_fuzzy_matches_contains(slots, query, all, e);
    if e.1 < slots.len() {
        assert(all[e.1 as int] == e.1);
    }
}

/// A query with a negated atom, or one following a query with a negated
/// atom, scores exactly the slots that a fresh session would.
pub proof fn lemma_negated_atoms_scan_like_fresh_session(
    slots: FuzzySlots,
    last_query: Seq<char>,
    last_matches: Seq<usize>,
    query: Seq<char>,
)
    requires
        has_negated_atom(last_query) || has_negated_atom(query),
    ensures
        search_candidates(slots, last_query, last_matches, query) == search_candidates(
            slots,
            Seq::empty(),
            Seq::empty(),
            query,
        ),
{
}

/// Entries drawn from a multiset of live scored entries are live and scored.
pub proof fn lemma_scored_live_subset(slots: FuzzySlots, query: Seq<char>, a: Seq<ScoredIndex>, b: Seq<ScoredIndex>)
    requires
        scored_live(slots, query, a),
        b.to_multiset().subset_of(a.to_multiset()),
    ensures
        scored_live(slots, query, b),
{
    broadcast use vstd::multiset::group_multiset_axioms;

    a.to_multiset_ensures();
    b.to_multiset_ensures();
    assert forall|k: int| 0 <= k < b.len() implies slot_score(slots, query, (#[trigger] b[k]).1) == Some(b[k].0) by {
        assert(b.contains(b[k]));
        assert(a.to_multiset().count(b[k]) > 0);
        assert(a.contains(b[k]));
        let j = choose|j: int| 0 <= j < a.len() && a[j] == b[k];
        assert(slot_score(slots, query, a[j].1) == Some(a[j].0));
    }
}

/// The slots `0..n`.
pub open spec fn all_slots(n: nat) -> Seq<usize> {
    Seq::new(n, |i: int| i as usize)
}

/// The query parses to some negated atom.
pub open spec fn has_negated_atom(q: Seq<char>) -> bool {
    fuzzy_atom_negations(q).contains(true)
}

/// The slots a search scores: the previous matches when the query extends a
/// nonempty previous query that matched something, and neither query has a
/// negated atom (extending a negated atom can only add matches); every slot
/// otherwise.
pub open spec fn search_candidates(slots: FuzzySlots, last_query: Seq<char>, last_matches: Seq<usize>, query: Seq<char>) -> Seq<usize> {
    if last_query.len() > 0 && seq_starts_with(query, last_query) && last_matches.len() > 0 && !has_negated_atom(
        last_query,
    ) && !has_negated_atom(query) {
        last_matches
    } else {
        all_slots(slots.len())
    }
}

/// Slot `i`, if live, holds a text on which the query's running score
/// totals fit in a `u32`.
pub open spec fn slot_totals_fit(slots: FuzzySlots, query: Seq<char>, i: usize) -> bool {
    i < slots.len() && slots[i as int] is Some ==> totals_fit(query, slots[i as int]->0.value.text@)
}

/// A search of `query` from this session state adds up scores that fit in
/// a `u32` on every slot it scores: a query without atoms scores nothing.
pub open spec fn search_fits(slots: FuzzySlots, st: FuzzySessionState, query: Seq<char>) -> bool {
    fuzzy_atom_negations(query).len() > 0 ==> forall|k: int|
        0 <= k < search_candidates(slots, st.last_query(), st.last_matches(), query).len()
            ==> slot_totals_fit(slots, query, #[trigger] search_candidates(slots, st.last_query(), st.last_matches(), query)[k])
}

/// Every entry names a slot on which the totals fit.
pub open spec fn entries_fit(slots: FuzzySlots, query: Seq<char>, s: Seq<ScoredIndex>) -> bool {
    forall|k: int| 0 <= k < s.len() ==> slot_totals_fit(slots, query, (#[trigger] s[k]).1)
}

/// Entries drawn from a multiset of fitting entries fit.
proof fn lemma_entries_fit_subset(slots: FuzzySlots, query: Seq<char>, a: Seq<ScoredIndex>, b: Seq<ScoredIndex>)
    requires
        entries_fit(slots, query, a),
        b.to_multiset().subset_of(a.to_multiset()),
    ensures
        entries_fit(slots, query, b),
{
    broadcast use vstd::multiset::group_multiset_axioms;

    a.to_multiset_ensures();
    b.to_multiset_ensures();
    assert forall|k: int| 0 <= k < b.len() implies slot_totals_fit(slots, query, (#[trigger] b[k]).1) by {
        assert(b.contains(b[k]));
        assert(a.to_multiset().count(b[k]) > 0);
        assert(a.contains(b[k]));
        let j = choose|j: int| 0 <= j < a.len() && a[j] == b[k];
        assert(slot_totals_fit(slots, query, a[j].1));
    }
}

/// Strictly increasing indices.
pub open spec fn increasing_u32(s: Seq<u32>) -> bool {
    forall|i: int, j: int| 0 <= i < j < s.len() ==> s[i] < s[j]
}

/// `h` is the highlight of `query` on `text`: the sorted distinct match
/// indices compacted into ranges.
pub open spec fn highlight_of(h: Seq<u32>, query: Seq<char>, text: Seq<char>) -> bool {
    exists|s: Seq<u32>|
        increasing_u32(s) && s.to_set() == fuzzy_match_indices(query, text).to_set() && h
            == spec_highlight_ranges(s)
}

/// `r` presents the entries of `kept`, ordered by non-increasing score.
pub open spec fn presents(r: Seq<StoreSearchResult>, kept: Seq<ScoredIndex>, slots: FuzzySlots, query: Seq<char>) -> bool {
    exists|sorted: Seq<ScoredIndex>|
        {
            &&& sorted.to_multiset() == kept.to_multiset()
            &&& by_score_desc(sorted)
            &&& presents_sorted(r, sorted, slots, query)
        }
}

/// Inserting `x` at `pos` into an increasing sequence, between the entries
/// below it and those above it, keeps it increasing and adds `x` to its set.
proof fn lemma_insert_increasing(before: Seq<u32>, pos: int, x: u32)
    requires
        increasing_u32(before),
        0 <= pos <= before.len(),
        forall|j: int| pos <= j < before.len() ==> x < #[trigger] before[j],
        pos > 0 ==> before[pos - 1] < x,
    ensures
        increasing_u32(before.insert(pos, x)),
        before.insert(pos, x).to_set() == before.to_set().insert(x),
{
    let r = before.insert(pos, x);
    assert forall|i: int, j: int| 0 <= i < j < r.len() implies r[i] < r[j] by {
        if i < pos && j > pos {
            if i < pos - 1 {
                assert(before[i] < before[pos - 1]);
            }
        } else if i < pos && j == pos {
            if i < pos - 1 {
                assert(before[i] < before[pos - 1]);
            }
        }
    }
    assert forall|y: u32| r.to_set().contains(y) <==> before.to_set().insert(x).contains(y) by {
        if before.contains(y) {
            let j = choose|j: int| 0 <= j < before.len() && before[j] == y;
            if j < pos {
                assert(r[j] == y);
            } else {
                assert(r[j + 1] == y);
            }
        }
        if r.contains(y) {
            let j = choose|j: int| 0 <= j < r.len() && r[j] == y;
            if j < pos {
                assert(before[j] == y);
            } else if j > pos {
                assert(before[j - 1] == y);
            }
        }
        assert(r[pos] == x);
    }
    assert(r.to_set() =~= before.to_set().insert(x));
}

/// Whether the query parses to some negated atom.
fn any_negated(query: &str) -> (r: bool)
    ensures
        r == has_negated_atom(query@),
{
    let negations = FuzzyPattern::parse(query).atom_negations();
    let n = negations.len();
    for k in 0..n
        invariant
            n == negations@.len(),
            negations@ == fuzzy_atom_negations(query@),
            forall|j: int| 0 <= j < k ==> !negations@[j],
    {
        if negations[k] {
            proof {
                assert(negations@[k as int]);
            }
            return true;
        }
    }
    proof {
        if negations@.contains(true) {
            let j = choose|j: int| 0 <= j < negations@.len() && negations@[j] == true;
        }
    }
    false
}

/// Sorts indices and drops repeats (`sort_unstable` then `dedup`).
pub fn sort_dedup_u32(v: &Vec<u32>) -> (r: Vec<u32>)
    ensures
        increasing_u32(r@),
        r@.to_set() == v@.to_set(),
{
    let mut r: Vec<u32> = Vec::new();
    let n = v.len();
    let mut k: usize = 0;
    while k < n
        invariant
            n == v@.len(),
            k <= n,
            increasing_u32(r@),
            r@.to_set() == v@.take(k as int).to_set(),
        decreases n - k,
    {
        let x = v[k];
        let mut pos: usize = r.len();
        while pos > 0 && x < r[pos - 1]
            invariant
                pos <= r@.len(),
                forall|j: int| pos <= j < r@.len() ==> x < #[trigger] r@[j],
            decreases pos,
        {
            pos = pos - 1;
        }
        let ghost before = r@;
        proof {
            assert(v@.take(k + 1) =~= v@.take(k as int).push(x));
            assert(v@.take(k + 1).to_set() =~= v@.take(k as int).to_set().insert(x));
        }
        if pos > 0 && r[pos - 1] == x {
            proof {
                assert(before.to_set().contains(x)) by {
                    assert(before[pos - 1] == x);
                }
                assert(before.to_set().insert(x) =~= before.to_set());
            }
        } else {
            r.insert(pos, x);
            proof {
                lemma_insert_increasing(before, pos as int, x);
            }
        }
        k = k + 1;
    }
    assert(v@.take(n as int) =~= v@);
    r
}

/// `r` lists the first `max` live records in slot order, unscored.
pub open spec fn lists_first_records(r: Seq<StoreSearchResult>, slots: FuzzySlots, max: usize) -> bool {
    let ids = live_ids(slots);
    &&& r.len() == if ids.len() < max { ids.len() } else { max as nat }
    &&& forall|k: int|
        0 <= k < r.len() ==> {
            &&& (#[trigger] r[k]).id@ == ids[k]
            &&& r[k].score == 0
            &&& r[k].highlight_ranges@.len() == 0
            &&& r[k].matched_terms@.len() == 0
        }
}

/// `r` presents the entries of `kept` by non-increasing score: the record
/// id, the score, and the highlight of each.
pub open spec fn presents_sorted(r: Seq<StoreSearchResult>, sorted: Seq<ScoredIndex>, slots: FuzzySlots, query: Seq<char>) -> bool {
    &&& r.len() == sorted.len()
    &&& forall|i: int|
        0 <= i < r.len() ==> {
            let e = #[trigger] sorted[i];
            &&& e.1 < slots.len()
            &&& slots[e.1 as int] matches Some(rec)
            &&& r[i].id@ == rec.id@
            &&& r[i].score == e.0
            &&& highlight_of(r[i].highlight_ranges@, query, rec.value.text@)
            &&& r[i].matched_terms@.len() == 0
        }
}

/// What a fuzzy search of `q` gives and makes of the session state.
///
/// A query that parses to no atoms lists the first `max` live records,
/// unscored, and clears the session. Otherwise the session keeps the query
/// and the slots of every candidate it matches, and the result presents the
/// `max` best matches by non-increasing score with their highlights.
pub open spec fn fuzzy_searched(
    slots: FuzzySlots,
    old: FuzzySessionState,
    new: FuzzySessionState,
    q: Seq<char>,
    max: usize,
    r: Seq<StoreSearchResult>,
) -> bool {
    if fuzzy_atom_negations(q).len() == 0 {
        &&& new.last_query().len() == 0
        &&& new.last_matches().len() == 0
        &&& lists_first_records(r, slots, max)
    } else {
        let matches = fuzzy_matches(slots, q, search_candidates(slots, old.last_query(), old.last_matches(), q));
        &&& new.last_query() == q
        &&& new.last_matches() == entry_slots(matches)
        &&& exists|kept: Seq<ScoredIndex>| is_top_k(kept, matches, max) && presents(r, kept, slots, q)
    }
}

/// `res` carries the id of the live record in slot `i` and the query's
/// score on it.
pub open spec fn result_for_slot(res: StoreSearchResult, slots: FuzzySlots, q: Seq<char>, i: usize) -> bool {
    &&& slot_score(slots, q, i) == Some(res.score)
    &&& slots[i as int]->0.id@ == res.id@
}

/// `res` is the result of a live record that the query matches.
pub open spec fn is_match_result(res: StoreSearchResult, slots: FuzzySlots, q: Seq<char>) -> bool {
    exists|i: usize| #[trigger] result_for_slot(res, slots, q, i)
}

/// Fuzzy search results: at most `max` of them, by non-increasing score,
/// each the id of a live record that the query matches with that score.
pub proof fn lemma_fuzzy_search_results(
    slots: FuzzySlots,
    old: FuzzySessionState,
    new: FuzzySessionState,
    q: Seq<char>,
    max: usize,
    r: Seq<StoreSearchResult>,
)
    requires
        fuzzy_searched(slots, old, new, q, max, r),
    ensures
        r.len() <= max,
        fuzzy_atom_negations(q).len() > 0 ==> {
            &&& forall|i: int, j: int| 0 <= i < j < r.len() ==> (#[trigger] r[j]).score <= (#[trigger] r[i]).score
            &&& forall|k: int| 0 <= k < r.len() ==> is_match_result(#[trigger] r[k], slots, q)
        },
{
    broadcast use vstd::multiset::group_multiset_axioms;

    if fuzzy_atom_negations(q).len() > 0 {
        let matches = fuzzy_matches(slots, q, search_candidates(slots, old.last_query(), old.last_matches(), q));
        let kept = choose|kept: Seq<ScoredIndex>| is_top_k(kept, matches, max) && presents(r, kept, slots, q);
        let sorted = choose|sorted: Seq<ScoredIndex>|
            {
                &&& sorted.to_multiset() == kept.to_multiset()
                &&& by_score_desc(sorted)
                &&& presents_sorted(r, sorted, slots, q)
            };
        sorted.to_multiset_ensures();
        kept.to_multiset_ensures();
        assert(sorted.len() == kept.len());
        lemma_fuzzy_matches_live(slots, q, search_candidates(slots, old.last_query(), old.last_matches(), q));
        lemma_scored_live_subset(slots, q, matches, kept);
        lemma_scored_live_subset(slots, q, kept, sorted);
        assert forall|i: int, j: int| 0 <= i < j < r.len() implies (#[trigger] r[j]).score <= (#[trigger] r[i]).score by {
            assert(r[i].score == sorted[i].0 && r[j].score == sorted[j].0);
        }
        assert forall|k: int| 0 <= k < r.len() implies is_match_result(#[trigger] r[k], slots, q) by {
            let e = sorted[k];
            assert(slot_score(slots, q, e.1) == Some(e.0));
            assert(result_for_slot(r[k], slots, q, e.1));
        }
    }
}

/// The entries are ordered by non-increasing score.
pub open spec fn by_score_desc(s: Seq<ScoredIndex>) -> bool {
    forall|i: int, j: int| 0 <= i < j < s.len() ==> (#[trigger] s[j]).0 <= (#[trigger] s[i]).0
}

/// Inserting `x` after the entries scoring at least as much and before
/// those scoring less keeps the order by non-increasing score.
proof fn lemma_insert_by_score(before: Seq<ScoredIndex>, pos: int, x: ScoredIndex)
    requires
        by_score_desc(before),
        0 <= pos <= before.len(),
        forall|j: int| pos <= j < before.len() ==> (#[trigger] before[j]).0 < x.0,
        pos > 0 ==> before[pos - 1].0 >= x.0,
    ensures
        by_score_desc(before.insert(pos, x)),
{
    let r = before.insert(pos, x);
    assert forall|i: int, j: int| 0 <= i < j < r.len() implies (#[trigger] r[j]).0 <= (#[trigger] r[i]).0 by {
        if i < pos && j > pos {
            assert(r[i] == before[i] && r[j] == before[j - 1]);
        } else if i < pos && j == pos {
            assert(r[i] == before[i]);
            if i < pos - 1 {
                assert(before[pos - 1].0 <= before[i].0);
            }
        } else if i == pos {
            assert(r[j] == before[j - 1]);
        } else if j < pos {
            assert(r[i] == before[i] && r[j] == before[j]);
        } else {
            assert(r[i] == before[i - 1] && r[j] == before[j - 1]);
        }
    }
}

/// Orders entries by non-increasing score, keeping entries of equal score in
/// their order (what `into_sorted_vec` of the top-score heap yields, up to
/// the order of ties).
pub fn sort_by_score_desc(v: &Vec<ScoredIndex>) -> (r: Vec<ScoredIndex>)
    ensures
        r@.to_multiset() == v@.to_multiset(),
        by_score_desc(r@),
{
    let mut r: Vec<ScoredIndex> = Vec::new();
    let n = v.len();
    for k in 0..n
        invariant
            n == v@.len(),
            by_score_desc(r@),
            r@.to_multiset() == v@.take(k as int).to_multiset(),
    {
        let x = v[k];
        let mut pos: usize = r.len();
        while pos > 0 && r[pos - 1].0 < x.0
            invariant
                pos <= r@.len(),
                forall|j: int| pos <= j < r@.len() ==> (#[trigger] r@[j]).0 < x.0,
            decreases pos,
        {
            pos = pos - 1;
        }
        let ghost before = r@;
        r.insert(pos, x);
        proof {
            lemma_insert_to_multiset(before, pos as int, x);
            assert(v@.take(k + 1) =~= v@.take(k as int).push(x));
            v@.take(k as int).to_multiset_ensures();
            lemma_insert_by_score(before, pos as int, x);
        }
    }
    assert(v@.take(n as int) =~= v@);
    r
}

/// Sparse fuzzy-search datastore backed by `nucleo_matcher`.
pub struct FuzzyDatastore {
    records: RecordTable<FuzzyRecord>,
}

impl FuzzyDatastore {
    /// The slots of the record table.
    pub closed spec fn slots(&self) -> FuzzySlots {
        self.records.slots()
    }

    /// The record table is consistent and every text is short enough for the
    /// matcher.
    pub closed spec fn wf(&self) -> bool {
        &&& self.records.wf()
        &&& forall|i: int|
            0 <= i < self.records.slots().len() ==> (#[trigger] self.records.slots()[i] matches Some(r)
                ==> r.value.text@.len() <= u32::MAX)
    }

    /// The vacant slots, in the order they were vacated; the last one is
    /// reused first.
    pub closed spec fn vacated(&self) -> Seq<usize> {
        self.records.free_slots()
    }

    /// The vacant slots are listed once each and are exactly the vacant
    /// slots of the table.
    pub proof fn lemma_vacated(&self)
        requires
            self.wf(),
        ensures
            vacant_slots_listed(self.slots(), self.vacated()),
    {
        self.records.lemma_wf();
    }

    /// Ids are unique among the live records.
    pub proof fn lemma_unique_ids(&self)
        requires
            self.wf(),
        ensures
            unique_ids(self.slots()),
    {
        self.records.lemma_wf();
    }

    /// Creates an empty fuzzy datastore.
    pub fn new() -> (r: Self)
        ensures
            r.wf(),
            r.slots().len() == 0,
            r.vacated().len() == 0,
    {
        FuzzyDatastore { records: RecordTable::new() }
    }

    /// Inserts or replaces a record by its external id.
    pub fn upsert(&mut self, id: String, text: String)
        requires
            old(self).wf(),
            text@.len() <= u32::MAX,
        ensures
            final(self).wf(),
            slot_upserted(old(self).slots(), final(self).slots(), id@, holds_text(text@)),
            upsert_slot(old(self).slots(), final(self).slots(), old(self).vacated(), final(self).vacated(), id@),
    {
        let ghost old_slots = self.records.slots();
        proof {
            self.records.lemma_wf();
            if self.records.free_slots().len() > 0 {
                assert(self.records.free_slots()[self.records.free_slots().len() - 1] < old_slots.len());
            }
        }
        let record = FuzzyRecord { text: NumberedString::new(text) };
        let (idx, _) = self.records.upsert(id, record);
        proof {
            let s = self.records.slots();
            assert(s == old_slots.update(idx as int, s[idx as int]) || (idx == old_slots.len() && s == old_slots.push(s[idx as int])));
            assert forall|i: int|
                0 <= i < s.len() implies (#[trigger] s[i] matches Some(r) ==> r.value.text@.len() <= u32::MAX) by {
                if i != idx {
                    assert(s[i] == old_slots[i]);
                }
            }
            assert(s[idx as int] matches Some(r) && r.value.text@ == text@);
            assert(id_at(s, id@, idx as int));
            if idx < old_slots.len() {
                assert(s =~= old_slots.update(idx as int, s[idx as int]));
            } else {
                assert(s =~= old_slots.push(s[idx as int]));
            }
            assert(has_id(old_slots, id@) ==> id_at(old_slots, id@, idx as int));
            assert(!has_id(old_slots, id@) && idx < old_slots.len() ==> old_slots[idx as int] is None);
            let new_slots = self.slots();
            let k = idx as int;
            assert(id_at(new_slots, id@, k));
            assert(new_slots[k] matches Some(r) && r.value.text@ == text@);
            assert(new_slots == old_slots.update(k, new_slots[k]) || k == old_slots.len() && new_slots == old_slots.push(new_slots[k]));
            assert(holds_text(text@)(new_slots[k]->0.value));
        }
    }

    /// Removes a record, leaving a reusable vacant slot.
    pub fn delete(&mut self, id: &str)
        requires
            old(self).wf(),
        ensures
            final(self).wf(),
            slot_deleted(old(self).slots(), final(self).slots(), id@),
            delete_slot(old(self).slots(), old(self).vacated(), final(self).vacated(), id@),
    {
        let ghost old_slots = self.records.slots();
        let removed = self.records.delete(id);
        proof {
            if let Some((i, _)) = removed {
                assert(id_at(old_slots, id@, i as int));
            }
            let s = self.records.slots();
            assert forall|i: int|
                0 <= i < s.len() implies (#[trigger] s[i] matches Some(r) ==> r.value.text@.len() <= u32::MAX) by {
                if s[i] is Some {
                    assert(s[i] == old_slots[i]);
                }
            }
        }
    }

    /// Removes every record whose external id starts with `prefix`.
    pub fn delete_by_prefix(&mut self, prefix: &str)
        requires
            old(self).wf(),
        ensures
            final(self).wf(),
            prefix_deleted(old(self).slots(), final(self).slots(), prefix@),
            old(self).vacated().len() <= final(self).vacated().len(),
            final(self).vacated().subrange(0, old(self).vacated().len() as int) == old(self).vacated(),
    {
        let ids = self.records.ids_with_prefix(prefix);
        let n = ids.len();
        for k in 0..n
            invariant
                n == ids@.len(),
                self.wf(),
                old(self).vacated().len() <= self.vacated().len(),
                self.vacated().subrange(0, old(self).vacated().len() as int) == old(self).vacated(),
                self.slots().len() == old(self).slots().len(),
                forall|i: int|
                    0 <= i < self.slots().len() ==> (#[trigger] self.slots()[i] is Some ==> self.slots()[i]
                        == old(self).slots()[i]),
                forall|id: Seq<char>|
                    ids.deep_view().contains(id) <==> (has_id(old(self).slots(), id) && seq_starts_with(id, prefix@)),
                forall|id: Seq<char>|
                    has_id(self.slots(), id) <==> (has_id(old(self).slots(), id) && !ids.deep_view().take(
                        k as int,
                    ).contains(id)),
        {
            let ghost before = self.slots();
            let ghost before_vacated = self.vacated();
            proof {
                self.records.lemma_wf();
            }
            self.delete(ids[k].as_str());
            proof {
                let ov = old(self).vacated().len() as int;
                assert(self.vacated().subrange(0, ov) =~= before_vacated.subrange(0, ov));
                let key = ids.deep_view()[k as int];
                assert(ids@[k as int]@ == key);
                assert(ids.deep_view().take(k + 1) =~= ids.deep_view().take(k as int).push(key));
                assert forall|i: int| 0 <= i < self.slots().len() implies (#[trigger] self.slots()[i] is Some
                    ==> self.slots()[i] == old(self).slots()[i]) by {
                    if self.slots()[i] is Some {
                        assert(self.slots()[i] == before[i]);
                    }
                }
                assert forall|id: Seq<char>|
                    has_id(self.slots(), id) <==> (has_id(old(self).slots(), id) && !ids.deep_view().take(
                        k + 1,
                    ).contains(id)) by {
                    if id == key {
                        if has_id(self.slots(), id) {
                            let j = choose|j: int| id_at(self.slots(), id, j);
                            if has_id(before, key) {
                                let x = choose|x: int| id_at(before, key, x) && self.slots() == before.update(x, None);
                                assert(j != x);
                                assert(id_at(before, id, j));
                                assert(unique_ids(before));
                            } else {
                                assert(id_at(before, id, j));
                            }
                        }
                        assert(ids.deep_view().take(k + 1)[k as int] == key);
                    } else {
                        if has_id(self.slots(), id) {
                            let j = choose|j: int| id_at(self.slots(), id, j);
                            assert(id_at(before, id, j));
                        }
                        if has_id(before, id) {
                            let j = choose|j: int| id_at(before, id, j);
                            if has_id(before, key) {
                                let x = choose|x: int| id_at(before, key, x) && self.slots() == before.update(x, None);
                                assert(x != j);
                                assert(id_at(self.slots(), id, j));
                            } else {
                                assert(id_at(self.slots(), id, j));
                            }
                        }
                        let tk1 = ids.deep_view().take(k + 1);
                        if tk1.contains(id) {
                            let j = choose|j: int| 0 <= j < tk1.len() && tk1[j] == id;
                            assert(ids.deep_view().take(k as int)[j] == id);
                        }
                    }
                }
            }
        }
        proof {
            assert(ids.deep_view().take(n as int) =~= ids.deep_view());
        }
    }

    /// Removes every record and vacant slot.
    pub fn clear(&mut self)
        requires
            old(self).wf(),
        ensures
            final(self).wf(),
            final(self).slots().len() == 0,
            final(self).vacated().len() == 0,
    {
        self.records.clear();
    }

    /// Builds a health snapshot used by tests and diagnostics.
    pub fn health(&self) -> (r: StoreHealth)
        requires
            self.wf(),
        ensures
            r.exists,
            r.kind@ == "fuzzy"@,
            r.live_records == live_count(self.slots()),
            r.tombstones == self.slots().len() - live_count(self.slots()),
            r.tombstones == self.vacated().len(),
            sorted_seqs(r.record_ids.deep_view()),
            r.record_ids.deep_view().to_multiset() == live_ids(self.slots()).to_multiset(),
            r.posting_terms == 0,
            r.posting_occurrences == 0,
    {
        proof {
            self.lemma_vacated();
        }
        StoreHealth::new(
            "fuzzy",
            self.records.live_record_count(),
            self.records.tombstone_count(),
            self.records.record_ids(),
            0,
            0,
        )
    }

    /// The first `max_results` live records in slot order, unscored.
    fn first_records(&self, max_results: usize) -> (r: Vec<StoreSearchResult>)
        requires
            self.wf(),
        ensures
            lists_first_records(r@, self.slots(), max_results),
    {
        let ids = self.records.record_ids();
        let mut results: Vec<StoreSearchResult> = Vec::new();
        let n = ids.len();
        let mut k: usize = 0;
        while k < n && k < max_results
            invariant
                n == ids@.len(),
                ids.deep_view() == live_ids(self.slots()),
                k <= n,
                k <= max_results,
                results@.len() == k,
                forall|j: int|
                    0 <= j < k ==> {
                        &&& (#[trigger] results@[j]).id@ == live_ids(self.slots())[j]
                        &&& results@[j].score == 0
                        &&& results@[j].highlight_ranges@.len() == 0
                        &&& results@[j].matched_terms@.len() == 0
                    },
            decreases n - k,
        {
            let result = StoreSearchResult::new(ids[k].clone(), 0);
            proof {
                assert(ids.deep_view()[k as int] == ids@[k as int]@);
            }
            results.push(result);
            k = k + 1;
        }
        results
    }

    /// The slots to score for `query`: the session's previous matches when
    /// the query extends its nonempty previous query and those matches are
    /// nonempty (they are taken out of the session), every slot otherwise.
    fn take_candidates(&self, session: &mut FuzzySessionState, query: &str) -> (r: Vec<usize>)
        ensures
            r@ == search_candidates(self.slots(), old(session).last_query(), old(session).last_matches(), query@),
            final(session).last_query() == old(session).last_query(),
    {
        if Self::narrows(session, query) {
            let mut taken: Vec<usize> = Vec::new();
            std::mem::swap(&mut taken, &mut session.last_match_ids);
            taken
        } else {
            self.every_slot()
        }
    }

    /// Whether a search of `query` from this session state rescores only the
    /// previous matches (see `search_candidates`).
    fn narrows(session: &FuzzySessionState, query: &str) -> (r: bool)
        ensures
            r == (session.last_query().len() > 0 && seq_starts_with(query@, session.last_query())
                && session.last_matches().len() > 0 && !has_negated_atom(session.last_query())
                && !has_negated_atom(query@)),
    {
        let q = chars_of(query);
        let last = chars_of(session.last_query.as_str());
        last.len() > 0 && chars_starts_with(q.as_slice(), last.as_slice()) && session.last_match_ids.len() > 0
            && !any_negated(session.last_query.as_str()) && !any_negated(query)
    }

    /// The slots `0..slot_count`.
    fn every_slot(&self) -> (r: Vec<usize>)
        ensures
            r@ == all_slots(self.slots().len()),
    {
        let n = self.records.slot_count();
        let mut all: Vec<usize> = Vec::new();
        for i in 0..n
            invariant
                all@ == all_slots(i as nat),
        {
            all.push(i);
            proof {
                assert(all@ =~= all_slots((i + 1) as nat));
            }
        }
        all
    }

    /// Whether every running total that `Pattern::score` and
    /// `Pattern::indices` add up for `pattern` on `text` fits in a `u32`,
    /// found from the atoms' own scores.
    fn text_totals_fit(pattern: &FuzzyPattern, matcher: &mut PathMatcher, text: &NumberedString) -> (r: bool)
        requires
            text@.len() <= u32::MAX,
        ensures
            r == totals_fit(pattern@, text@),
    {
        let ghost (q, t) = (pattern@, text@);
        let negations = pattern.atom_negations();
        let na = negations.len();
        let mut score: Option<u64> = Some(0);
        let mut index_score: Option<u64> = Some(0);
        for a in 0..na
            invariant
                na == negations@.len(),
                negations@ == fuzzy_atom_negations(q),
                q == pattern@,
                t == text@,
                t.len() <= u32::MAX,
                match score {
                    Some(s) => score_total(q, t, a as int) == Some(s as int),
                    None => score_total(q, t, a as int) is None,
                },
                match index_score {
                    Some(s) => indices_total(q, t, a as int) == Some(s as int),
                    None => indices_total(q, t, a as int) is None,
                },
                forall|n: int|
                    0 <= n <= a ==> {
                        &&& (#[trigger] score_total(q, t, n) matches Some(s) ==> s <= u32::MAX)
                        &&& (indices_total(q, t, n) matches Some(s) ==> s <= u32::MAX)
                    },
        {
            let positive = pattern.atom_score(a, matcher, text);
            let own = if negations[a] {
                match positive {
                    Some(_) => None,
                    None => Some(0u32),
                }
            } else {
                positive
            };
            let own_indices = if negations[a] {
                own
            } else {
                pattern.atom_indices_score(a, matcher, text)
            };
            score = match (score, own) {
                (Some(s), Some(x)) => Some(s + x as u64),
                _ => None,
            };
            index_score = match (index_score, own_indices) {
                (Some(s), Some(x)) => Some(s + x as u64),
                _ => None,
            };
            let score_over = match score {
                Some(s) => s > 4294967295u64,
                None => false,
            };
            let index_over = match index_score {
                Some(s) => s > 4294967295u64,
                None => false,
            };
            if score_over || index_over {
                proof {
                    assert(!(score_total(q, t, a + 1) matches Some(s) ==> s <= u32::MAX) || !(indices_total(
                        q,
                        t,
                        a + 1,
                    ) matches Some(s) ==> s <= u32::MAX));
                }
                return false;
            }
        }
        true
    }

    /// Whether a search of `query` from this session state adds up scores
    /// that fit in a `u32` on every slot it would score. Queries with at
    /// most `MAX_SUMMED_ATOMS` atoms always do; for longer ones each live
    /// candidate's text is checked.
    pub fn search_totals_fit(&self, session: &FuzzySessionState, query: &str) -> (r: bool)
        requires
            self.wf(),
        ensures
            r == search_fits(self.slots(), *session, query@),
    {
        let pattern = FuzzyPattern::parse(query);
        let na = pattern.atom_negations().len();
        let ghost cands_spec = search_candidates(self.slots(), session.last_query(), session.last_matches(), query@);
        if na == 0 {
            return true;
        }
        if na <= MAX_SUMMED_ATOMS {
            proof {
                assert forall|k: int| 0 <= k < cands_spec.len() implies slot_totals_fit(self.slots(), query@, #[trigger] cands_spec[k]) by {
                    let i = cands_spec[k];
                    if i < self.slots().len() && self.slots()[i as int] is Some {
                        lemma_few_atoms_fit(query@, self.slots()[i as int]->0.value.text@);
                    }
                }
            }
            return true;
        }
        let cands = if Self::narrows(session, query) {
            session.last_match_ids.clone()
        } else {
            self.every_slot()
        };
        assert(cands@ == cands_spec);
        let mut matcher = PathMatcher::new();
        let n = cands.len();
        for k in 0..n
            invariant
                n == cands@.len(),
                cands@ == cands_spec,
                cands_spec == search_candidates(self.slots(), session.last_query(), session.last_matches(), query@),
                self.wf(),
                pattern@ == query@,
                fuzzy_atom_negations(query@).len() > 0,
                forall|j: int| 0 <= j < k ==> slot_totals_fit(self.slots(), query@, #[trigger] cands@[j]),
        {
            match self.records.get(cands[k]) {
                Some(record) => {
                    if !Self::text_totals_fit(&pattern, &mut matcher, &record.value.text) {
                        proof {
                            assert(!slot_totals_fit(self.slots(), query@, cands_spec[k as int]));
                            let st = *session;
                            assert(search_candidates(self.slots(), st.last_query(), st.last_matches(), query@)
                                == cands_spec);
                            assert(!slot_totals_fit(
                                self.slots(),
                                query@,
                                search_candidates(self.slots(), st.last_query(), st.last_matches(), query@)[k as int],
                            ));
                            assert(!search_fits(self.slots(), st, query@));
                        }
                        return false;
                    }
                },
                None => {},
            }
        }
        true
    }

    /// Scores one candidate and records it for both the current results and
    /// future incremental narrowing.
    fn score_record(
        &self,
        data_idx: usize,
        pattern: &FuzzyPattern,
        matcher: &mut PathMatcher,
        max_results: usize,
        scored: &mut Vec<ScoredIndex>,
        next_match_ids: &mut Vec<usize>,
    )
        requires
            self.wf(),
            slot_totals_fit(self.slots(), pattern@, data_idx),
        ensures
            match slot_score(self.slots(), pattern@, data_idx) {
                Some(score) => {
                    &&& pushed_top_score(old(scored)@, final(scored)@, ScoredIndex(score, data_idx), max_results)
                    &&& final(next_match_ids)@ == old(next_match_ids)@.push(data_idx)
                },
                None => {
                    &&& final(scored)@ == old(scored)@
                    &&& final(next_match_ids)@ == old(next_match_ids)@
                },
            },
    {
        let record = match self.records.get(data_idx) {
            Some(record) => record,
            None => return ,
        };
        let score = match pattern.score(matcher, &record.value.text) {
            Some(score) => score,
            None => return ,
        };
        next_match_ids.push(data_idx);
        ScoredIndex::push_top_score(scored, ScoredIndex::new(score, data_idx), max_results);
    }

    /// Results for entries ordered by score: each record's id, its score, and
    /// the highlight of the query's match indices on its text.
    fn present(&self, pattern: &FuzzyPattern, matcher: &mut PathMatcher, sorted: &Vec<ScoredIndex>) -> (r: Vec<StoreSearchResult>)
        requires
            self.wf(),
            entries_fit(self.slots(), pattern@, sorted@),
            scored_live(self.slots(), pattern@, sorted@),
        ensures
            presents_sorted(r@, sorted@, self.slots(), pattern@),
    {
        let mut results: Vec<StoreSearchResult> = Vec::new();
        let n = sorted.len();
        for i in 0..n
            invariant
                n == sorted@.len(),
                self.wf(),
                entries_fit(self.slots(), pattern@, sorted@),
                scored_live(self.slots(), pattern@, sorted@),
                presents_sorted(results@, sorted@.take(i as int), self.slots(), pattern@),
        {
            let e = sorted[i];
            proof {
                assert(slot_score(self.slots(), pattern@, sorted@[i as int].1) == Some(sorted@[i as int].0));
                assert(slot_totals_fit(self.slots(), pattern@, sorted@[i as int].1));
            }
            let record = match self.records.get(e.1) {
                Some(record) => record,
                None => {
                    proof {
                        assert(false);
                    }
                    return results;
                },
            };
            let raw = pattern.indices(matcher, &record.value.text);
            let indices = sort_dedup_u32(&raw);
            proof {
                assert forall|k: int| 0 <= k < indices@.len() implies indices@[k] < u32::MAX by {
                    assert(indices@.to_set().contains(indices@[k]));
                    assert(raw@.to_set().contains(indices@[k]));
                    let j = choose|j: int| 0 <= j < raw@.len() && raw@[j] == indices@[k];
                }
            }
            let result = StoreSearchResult::new_from_ranges(record.id.clone(), e.0, indices.as_slice());
            let ghost before = results@;
            results.push(result);
            proof {
                assert(highlight_of(result.highlight_ranges@, pattern@, record.value.text@));
                let t = sorted@.take(i + 1);
                assert forall|j: int| 0 <= j < results@.len() implies {
                    let e = #[trigger] t[j];
                    &&& e.1 < self.slots().len()
                    &&& self.slots()[e.1 as int] matches Some(rec)
                    &&& results@[j].id@ == rec.id@
                    &&& results@[j].score == e.0
                    &&& highlight_of(results@[j].highlight_ranges@, pattern@, rec.value.text@)
                    &&& results@[j].matched_terms@.len() == 0
                } by {
                    if j < i {
                        assert(t[j] == sorted@.take(i as int)[j]);
                        assert(results@[j] == before[j]);
                    }
                }
            }
        }
        proof {
            assert(sorted@.take(n as int) =~= sorted@);
        }
        results
    }

    /// Searches the records, rescoring only the session's previous matches
    /// when the query extends the previous one.
    ///
    /// A query that parses to no atoms lists the first `max_results` live
    /// records, unscored, and clears the session. Otherwise every candidate
    /// the query matches is kept in the session for the next search, and the
    /// `max_results` best of them are returned by non-increasing score with
    /// their highlights.
    pub fn search(&self, session: &mut FuzzySessionState, query: &str, max_results: usize) -> (r: Vec<StoreSearchResult>)
        requires
            self.wf(),
            search_fits(self.slots(), *old(session), query@),
        ensures
            fuzzy_searched(self.slots(), *old(session), *final(session), query@, max_results, r@),
    {
        let pattern = FuzzyPattern::parse(query);
        let negations = pattern.atom_negations();
        if negations.len() == 0 {
            session.reset();
            return self.first_records(max_results);
        }
        let cands = self.take_candidates(session, query);
        let mut matcher = PathMatcher::new();
        let mut scored: Vec<ScoredIndex> = Vec::new();
        let mut next_match_ids: Vec<usize> = Vec::new();
        let n = cands.len();
        for k in 0..n
            invariant
                n == cands@.len(),
                self.wf(),
                forall|j: int| 0 <= j < cands@.len() ==> slot_totals_fit(self.slots(), pattern@, #[trigger] cands@[j]),
                is_top_k(scored@, fuzzy_matches(self.slots(), pattern@, cands@.take(k as int)), max_results),
                next_match_ids@ == entry_slots(fuzzy_matches(self.slots(), pattern@, cands@.take(k as int))),
        {
            let ghost seen = fuzzy_matches(self.slots(), pattern@, cands@.take(k as int));
            let ghost kept = scored@;
            self.score_record(cands[k], &pattern, &mut matcher, max_results, &mut scored, &mut next_match_ids);
            proof {
                let t1 = cands@.take(k + 1);
                assert(t1.drop_last() =~= cands@.take(k as int));
                assert(t1.last() == cands@[k as int]);
                let now = fuzzy_matches(self.slots(), pattern@, t1);
                match slot_score(self.slots(), pattern@, cands@[k as int]) {
                    Some(score) => {
                        assert(now == seen.push(ScoredIndex(score, cands@[k as int])));
                        lemma_push_top_score_keeps_top_k(kept, scored@, seen, ScoredIndex(score, cands@[k as int]), max_results);
                        assert(entry_slots(now) =~= entry_slots(seen).push(cands@[k as int]));
                    },
                    None => {
                        assert(now == seen);
                    },
                }
            }
        }
        proof {
            assert(cands@.take(n as int) =~= cands@);
        }
        session.last_query = query.to_owned();
        session.last_match_ids = next_match_ids;
        let sorted = sort_by_score_desc(&scored);
        proof {
            let matches = fuzzy_matches(self.slots(), pattern@, cands@);
            lemma_fuzzy_matches_live(self.slots(), pattern@, cands@);
            lemma_scored_live_subset(self.slots(), pattern@, matches, scored@);
            lemma_scored_live_subset(self.slots(), pattern@, scored@, sorted@);
            lemma_fuzzy_matches_from_candidates(self.slots(), pattern@, cands@);
            assert forall|k: int| 0 <= k < matches.len() implies slot_totals_fit(self.slots(), pattern@, (#[trigger] matches[k]).1) by {
                let j = choose|j: int| 0 <= j < cands@.len() && cands@[j] == matches[k].1;
                assert(slot_totals_fit(self.slots(), pattern@, cands@[j]));
            }
            lemma_entries_fit_subset(self.slots(), pattern@, matches, scored@);
            lemma_entries_fit_subset(self.slots(), pattern@, scored@, sorted@);
        }
        let results = self.present(&pattern, &mut matcher, &sorted);
        proof {
            assert(presents(results@, scored@, self.slots(), query@));
        }
        results
    }
}

} // verus!
