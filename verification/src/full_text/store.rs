//! The full-text datastore: records, the word catalog and the inverted index.
//!
//! Records are stored sparsely so deleted ids can leave reusable slots while
//! postings remain sorted by record index for binary-search intersections.
use crate::full_text::postings::{
    has_record, insert_posting, remove_posting, sort_postings, sorted_postings, unique_postings,
    Posting,
};
use crate::matcher::NumberedString;
use crate::record_table::{
    delete_slot, has_id, id_at, live_ids, prefix_deleted, slot_deleted, slot_upserted, unique_ids,
    upsert_slot, vacant_slots_listed, RecordTable, StoredRecord,
};
use crate::store_health::StoreHealth;
use crate::text::{seq_starts_with, sorted_seqs};
use crate::tokenizer::{term_texts, tokenize_terms};
use vstd::hash_map::StringHashMap;
use vstd::prelude::*;

verus! {

broadcast use vstd::seq_lib::group_seq_properties;

/// Stored full-text document metadata.
pub struct FullTextRecord {
    pub token_count: u32,
    /// Unique terms present in this record, in increasing order.
    pub terms: Vec<u32>,
    /// The term id of each token of the record's text, in text order.
    pub token_ids: Ghost<Seq<u32>>,
}

/// A unique indexed term in the full-text word catalog.
pub struct FullTextTerm {
    pub text: String,
    pub matcher_text: NumberedString,
}

/// A slot of the full-text record table.
pub type FullTextSlots = Seq<Option<StoredRecord<FullTextRecord>>>;

/// The record in slot `i` is live and contains term `t`.
pub open spec fn record_has_term(slots: FullTextSlots, i: int, t: u32) -> bool {
    &&& 0 <= i < slots.len()
    &&& slots[i] matches Some(r)
    &&& r.value.terms@.contains(t)
}

/// Strictly increasing term ids.
pub open spec fn increasing_terms(s: Seq<u32>) -> bool {
    forall|i: int, j: int| 0 <= i < j < s.len() ==> s[i] < s[j]
}

/// Sum of the token counts of the live records.
pub open spec fn token_sum(slots: FullTextSlots) -> nat
    decreases slots.len(),
{
    if slots.len() == 0 {
        0
    } else {
        token_sum(slots.drop_last()) + match slots.last() {
            Some(r) => r.value.token_count as nat,
            None => 0nat,
        }
    }
}

/// The inverted index agrees with the records, except possibly for slot `x`:
/// every posting names a slot of the table and, unless it is slot `x`, a
/// live record that contains the posting's term; every record other than
/// slot `x` has a posting for each of its terms; no list names a record twice.
pub open spec fn index_agrees_except(slots: FullTextSlots, postings: Seq<Seq<Posting>>, x: int) -> bool {
    &&& forall|t: int, k: int|
        0 <= t < postings.len() && 0 <= k < postings[t].len() ==> {
            let i = (#[trigger] postings[t][k]).record_idx as int;
            &&& i < slots.len()
            &&& i != x ==> record_has_term(slots, i, t as u32)
        }
    &&& forall|i: int, t: u32|
        i != x && #[trigger] record_has_term(slots, i, t) ==> t < postings.len() && has_record(
            postings[t as int],
            i as u32,
        )
    &&& forall|t: int| 0 <= t < postings.len() ==> unique_postings(#[trigger] postings[t])
}

/// Every posting of a live record other than slot `x` carries, as its term
/// frequency, the number of the record's tokens that have the posting's
/// term.
pub open spec fn frequencies_agree_except(slots: FullTextSlots, postings: Seq<Seq<Posting>>, x: int) -> bool {
    forall|t: int, k: int|
        0 <= t < postings.len() && 0 <= k < postings[t].len() ==> {
            let p = #[trigger] postings[t][k];
            (p.record_idx as int) != x && (p.record_idx as int) < slots.len() && slots[p.record_idx as int] is Some
                ==> p.term_frequency == count_of(slots[p.record_idx as int]->0.value.token_ids@, t as u32)
        }
}

/// The inverted index agrees with the records: posting list `t` names
/// exactly the live records that contain term `t`, once each, with the
/// number of times the record's text has the term.
pub open spec fn index_agrees(slots: FullTextSlots, postings: Seq<Seq<Posting>>) -> bool {
    &&& index_agrees_except(slots, postings, -1)
    &&& frequencies_agree_except(slots, postings, -1)
    &&& forall|i: int, t: u32| #[trigger]
        record_has_term(slots, i, t) ==> t < postings.len() && has_record(
            postings[t as int],
            i as u32,
        )
}

/// Number of times `t` occurs in `s`.
pub open spec fn count_of(s: Seq<u32>, t: u32) -> nat
    decreases s.len(),
{
    if s.len() == 0 {
        0
    } else {
        count_of(s.drop_last(), t) + if s.last() == t {
            1nat
        } else {
            0nat
        }
    }
}

/// Number of times the word `w` occurs in `words`.
pub open spec fn word_count(words: Seq<Seq<char>>, w: Seq<char>) -> nat
    decreases words.len(),
{
    if words.len() == 0 {
        0
    } else {
        word_count(words.drop_last(), w) + if words.last() == w {
            1nat
        } else {
            0nat
        }
    }
}

/// Token ids that name the words in a catalog without repeats count each
/// term as often as the words hold its text.
pub proof fn lemma_count_of_words(ids: Seq<u32>, words: Seq<Seq<char>>, catalog: Seq<Seq<char>>, t: int)
    requires
        ids.len() == words.len(),
        forall|k: int| 0 <= k < ids.len() ==> #[trigger] ids[k] < catalog.len() && catalog[ids[k] as int] == words[k],
        catalog.no_duplicates(),
        0 <= t < catalog.len(),
        catalog.len() <= u32::MAX + 1,
    ensures
        count_of(ids, t as u32) == word_count(words, catalog[t]),
    decreases ids.len(),
{
    if ids.len() > 0 {
        let n = ids.len() - 1;
        assert forall|k: int| 0 <= k < ids.drop_last().len() implies #[trigger] ids.drop_last()[k] < catalog.len()
            && catalog[ids.drop_last()[k] as int] == words.drop_last()[k] by {
            assert(ids.drop_last()[k] == ids[k]);
        }
        lemma_count_of_words(ids.drop_last(), words.drop_last(), catalog, t);
        assert(ids[n] < catalog.len());
        assert((ids[n] == t as u32) <==> (words[n] == catalog[t])) by {
            if words[n] == catalog[t] {
                assert(catalog[ids[n] as int] == catalog[t]);
            }
        }
    }
}

/// The postings of `after` are those of `before`, except some of slot `x`,
/// and lists past the end of `before` are empty: frequencies outside slot
/// `x` still agree.
proof fn lemma_frequencies_kept(slots: FullTextSlots, before: Seq<Seq<Posting>>, after: Seq<Seq<Posting>>, x: int)
    requires
        frequencies_agree_except(slots, before, x),
        before.len() <= after.len(),
        forall|t: int, p: Posting|
            0 <= t < before.len() && #[trigger] after[t].contains(p) ==> before[t].contains(p) || p.record_idx as int == x,
        forall|t: int| before.len() <= t < after.len() ==> (#[trigger] after[t]).len() == 0,
    ensures
        frequencies_agree_except(slots, after, x),
{
    assert forall|t: int, k: int| 0 <= t < after.len() && 0 <= k < after[t].len() implies {
        let p = #[trigger] after[t][k];
        (p.record_idx as int) != x && (p.record_idx as int) < slots.len() && slots[p.record_idx as int] is Some
            ==> p.term_frequency == count_of(slots[p.record_idx as int]->0.value.token_ids@, t as u32)
    } by {
        let p = after[t][k];
        assert(after[t].contains(p));
        if t < before.len() && p.record_idx as int != x {
            let j = choose|j: int| 0 <= j < before[t].len() && before[t][j] == p;
            assert(before[t][j] == p);
        }
    }
}

/// Slots other than `x` (and below the old length) are unchanged, and every
/// posting names an old slot: frequencies outside slot `x` still agree.
proof fn lemma_frequencies_other_slots(old_slots: FullTextSlots, new_slots: FullTextSlots, postings: Seq<Seq<Posting>>, x: int)
    requires
        frequencies_agree_except(old_slots, postings, -1),
        old_slots.len() <= new_slots.len(),
        forall|i: int| 0 <= i < old_slots.len() && i != x ==> #[trigger] new_slots[i] == old_slots[i],
        forall|t: int, k: int|
            0 <= t < postings.len() && 0 <= k < postings[t].len() ==> ((#[trigger] postings[t][k]).record_idx as int)
                < old_slots.len(),
    ensures
        frequencies_agree_except(new_slots, postings, x),
{
    assert forall|t: int, k: int| 0 <= t < postings.len() && 0 <= k < postings[t].len() implies {
        let p = #[trigger] postings[t][k];
        (p.record_idx as int) != x && (p.record_idx as int) < new_slots.len() && new_slots[p.record_idx as int] is Some
            ==> p.term_frequency == count_of(new_slots[p.record_idx as int]->0.value.token_ids@, t as u32)
    } by {
        let i = postings[t][k].record_idx as int;
        if i != x {
            assert(new_slots[i] == old_slots[i]);
        }
    }
}

/// A vacant slot `x` needs no exception.
proof fn lemma_frequencies_vacant(slots: FullTextSlots, postings: Seq<Seq<Posting>>, x: int)
    requires
        frequencies_agree_except(slots, postings, x),
        x >= slots.len() || slots[x] is None,
    ensures
        frequencies_agree_except(slots, postings, -1),
{
    assert forall|t: int, k: int| 0 <= t < postings.len() && 0 <= k < postings[t].len() implies {
        let p = #[trigger] postings[t][k];
        (p.record_idx as int) != -1 && (p.record_idx as int) < slots.len() && slots[p.record_idx as int] is Some
            ==> p.term_frequency == count_of(slots[p.record_idx as int]->0.value.token_ids@, t as u32)
    } by {
        let p = postings[t][k];
        if p.record_idx as int == x {
        }
    }
}

/// One entry per distinct term id of `ids`, in increasing order, with the
/// number of times it occurs.
pub open spec fn counted_terms(entries: Seq<(u32, u32)>, ids: Seq<u32>) -> bool {
    &&& forall|i: int, j: int| 0 <= i < j < entries.len() ==> entries[i].0 < entries[j].0
    &&& forall|t: u32| ids.contains(t) <==> exists|k: int| 0 <= k < entries.len() && #[trigger] entries[k].0 == t
    &&& forall|k: int| 0 <= k < entries.len() ==> (#[trigger] entries[k]).1 == count_of(ids, entries[k].0)
}

/// Counts the occurrences of each distinct term id, in increasing id order.
pub fn count_terms(ids: &Vec<u32>) -> (entries: Vec<(u32, u32)>)
    requires
        ids@.len() <= u32::MAX,
    ensures
        counted_terms(entries@, ids@),
{
    let mut entries: Vec<(u32, u32)> = Vec::new();
    let n = ids.len();
    for i in 0..n
        invariant
            n == ids@.len(),
            n <= u32::MAX,
            counted_terms(entries@, ids@.take(i as int)),
            forall|k: int| 0 <= k < entries@.len() ==> (#[trigger] entries@[k]).1 <= i,
    {
        let t = ids[i];
        let ghost prev = ids@.take(i as int);
        let ghost cur = ids@.take(i + 1);
        proof {
            assert(cur == prev.push(t));
            assert(cur.drop_last() == prev);
            assert forall|u: u32| count_of(cur, u) == count_of(prev, u) + if u == t { 1nat } else { 0nat } by {}
        }
        let mut pos: usize = 0;
        while pos < entries.len() && entries[pos].0 < t
            invariant
                pos <= entries@.len(),
                forall|k: int| 0 <= k < pos ==> (#[trigger] entries@[k]).0 < t,
            decreases entries@.len() - pos,
        {
            pos = pos + 1;
        }
        let ghost before = entries@;
        if pos < entries.len() && entries[pos].0 == t {
            let c = entries[pos].1;
            entries.set(pos, (t, c + 1));
            proof {
                let e = entries@;
                assert forall|u: u32| cur.contains(u) <==> exists|k: int| 0 <= k < e.len() && #[trigger] e[k].0 == u by {
                    if cur.contains(u) && u != t {
                        assert(prev.contains(u)) by {
                            let j = choose|j: int| 0 <= j < cur.len() && cur[j] == u;
                            assert(prev[j] == u);
                        }
                        let k = choose|k: int| 0 <= k < before.len() && #[trigger] before[k].0 == u;
                        assert(e[k].0 == u);
                    }
                    if exists|k: int| 0 <= k < e.len() && #[trigger] e[k].0 == u {
                        let k = choose|k: int| 0 <= k < e.len() && #[trigger] e[k].0 == u;
                        assert(before[k].0 == u);
                        assert(prev.contains(u));
                        let j = choose|j: int| 0 <= j < prev.len() && prev[j] == u;
                        assert(cur[j] == u);
                    }
                    if u == t {
                        assert(cur[i as int] == t);
                        assert(e[pos as int].0 == t);
                    }
                }
            }
        } else {
            entries.insert(pos, (t, 1));
            proof {
                let e = entries@;
                assert(e == before.insert(pos as int, (t, 1u32)));
                assert(!prev.contains(t)) by {
                    if prev.contains(t) {
                        let k = choose|k: int| 0 <= k < before.len() && #[trigger] before[k].0 == t;
                        if k < pos {
                        } else if k > pos {
                            assert(before[pos as int].0 < before[k].0);
                        }
                    }
                }
                assert(count_of(prev, t) == 0) by {
                    lemma_count_of_absent(prev, t);
                }
                assert forall|a: int, b: int| 0 <= a < b < e.len() implies e[a].0 < e[b].0 by {
                    if a < pos && b > pos {
                        assert(e[b] == before[b - 1]);
                    } else if a > pos {
                        assert(e[a] == before[a - 1] && e[b] == before[b - 1]);
                    }
                }
                assert forall|u: u32| cur.contains(u) <==> exists|k: int| 0 <= k < e.len() && #[trigger] e[k].0 == u by {
                    if cur.contains(u) && u != t {
                        assert(prev.contains(u)) by {
                            let j = choose|j: int| 0 <= j < cur.len() && cur[j] == u;
                            assert(prev[j] == u);
                        }
                        let k = choose|k: int| 0 <= k < before.len() && #[trigger] before[k].0 == u;
                        if k < pos {
                            assert(e[k].0 == u);
                        } else {
                            assert(e[k + 1].0 == u);
                        }
                    }
                    if exists|k: int| 0 <= k < e.len() && #[trigger] e[k].0 == u {
                        let k = choose|k: int| 0 <= k < e.len() && #[trigger] e[k].0 == u;
                        if k != pos {
                            let bk = if k < pos { k } else { k - 1 };
                            assert(before[bk].0 == u);
                            assert(prev.contains(u));
                            let j = choose|j: int| 0 <= j < prev.len() && prev[j] == u;
                            assert(cur[j] == u);
                        } else {
                            assert(cur[i as int] == t);
                        }
                    }
                    if u == t {
                        assert(cur[i as int] == t);
                        assert(e[pos as int].0 == t);
                    }
                }
                assert forall|k: int| 0 <= k < e.len() implies (#[trigger] e[k]).1 == count_of(cur, e[k].0) by {
                    if k < pos {
                        assert(e[k] == before[k]);
                    } else if k > pos {
                        assert(e[k] == before[k - 1]);
                    }
                }
            }
        }
    }
    assert(ids@.take(n as int) =~= ids@);
    entries
}

/// Updating one slot changes the token sum by the difference of the slot's
/// token counts.
pub proof fn lemma_token_sum_update(slots: FullTextSlots, i: int, x: Option<StoredRecord<FullTextRecord>>)
    requires
        0 <= i < slots.len(),
    ensures
        token_sum(slots.update(i, x)) + match slots[i] {
            Some(r) => r.value.token_count as int,
            None => 0int,
        } == token_sum(slots) + match x {
            Some(r) => r.value.token_count as int,
            None => 0int,
        },
    decreases slots.len(),
{
    let u = slots.update(i, x);
    if i == slots.len() - 1 {
        assert(u.drop_last() =~= slots.drop_last());
    } else {
        assert(u.drop_last() =~= slots.drop_last().update(i, x));
        lemma_token_sum_update(slots.drop_last(), i, x);
    }
}

/// A term that does not occur has count zero.
pub proof fn lemma_count_of_absent(s: Seq<u32>, t: u32)
    requires
        !s.contains(t),
    ensures
        count_of(s, t) == 0,
    decreases s.len(),
{
    if s.len() > 0 {
        assert(!s.drop_last().contains(t)) by {
            if s.drop_last().contains(t) {
                let j = choose|j: int| 0 <= j < s.drop_last().len() && s.drop_last()[j] == t;
                assert(s[j] == t);
            }
        }
        lemma_count_of_absent(s.drop_last(), t);
    }
}

/// A record indexes `text`: its token count is the number of terms of the
/// text, its token ids name in the catalog the text's terms in order, and
/// its term ids are exactly the catalog ids of the text's terms.
pub open spec fn record_indexes_text(rec: FullTextRecord, catalog: Seq<Seq<char>>, text: Seq<char>) -> bool {
    &&& rec.token_count == term_texts(text).len()
    &&& rec.token_ids@.len() == term_texts(text).len()
    &&& forall|k: int|
        0 <= k < rec.token_ids@.len() ==> #[trigger] rec.token_ids@[k] < catalog.len() && catalog[rec.token_ids@[k] as int]
            == term_texts(text)[k]
    &&& forall|t: u32|
        rec.terms@.contains(t) <==> (t < catalog.len() && term_texts(text).contains(catalog[t as int]))
}

/// The words of `words` that `known` lacks, each once, in order of first
/// occurrence.
pub open spec fn new_terms(words: Seq<Seq<char>>, known: Seq<Seq<char>>) -> Seq<Seq<char>>
    decreases words.len(),
{
    if words.len() == 0 {
        seq![]
    } else {
        let prev = new_terms(words.drop_last(), known);
        let w = words.last();
        if known.contains(w) || prev.contains(w) {
            prev
        } else {
            prev.push(w)
        }
    }
}

/// A longer prefix of the words has at least as many new terms.
pub proof fn lemma_new_terms_prefix(words: Seq<Seq<char>>, known: Seq<Seq<char>>, i: int, j: int)
    requires
        0 <= i <= j <= words.len(),
    ensures
        new_terms(words.take(i), known).len() <= new_terms(words.take(j), known).len(),
    decreases j - i,
{
    if i < j {
        lemma_new_terms_prefix(words, known, i, j - 1);
        assert(words.take(j).drop_last() =~= words.take(j - 1));
    }
}

/// The record indexes `text` against `catalog`.
pub open spec fn indexes_text(catalog: Seq<Seq<char>>, text: Seq<char>) -> spec_fn(FullTextRecord) -> bool {
    |rec: FullTextRecord| record_indexes_text(rec, catalog, text)
}

/// The sizes after adding `text` fit the index's integer types: the
/// text's char offsets, a new record's slot index and the ids of the terms
/// it adds to the catalog in `u32`, and the token total in `usize` (with
/// the new record's tokens added to the current total).
pub open spec fn upsert_fits(s: FullTextDatastore, text: Seq<char>) -> bool {
    &&& text.len() <= u32::MAX
    &&& s.catalog().len() + new_terms(term_texts(text), s.catalog()).len() <= u32::MAX + 1
    &&& s.slots().len() <= u32::MAX
    &&& s.token_total() + term_texts(text).len() <= usize::MAX
    &&& forall|w: Seq<char>| term_texts(text).contains(w) ==> w.len() <= u32::MAX
}

/// What an upsert of `id` with `text` makes of a full-text datastore: the
/// record of `id` indexes the text in its slot (replaced, reused or added),
/// other slots are unchanged, and the catalog gains the text's terms it
/// lacked, in order of first occurrence, so that it holds them all; a new
/// id takes the most recently vacated slot, if any.
pub open spec fn full_text_upserted(old: FullTextDatastore, new: FullTextDatastore, id: Seq<char>, text: Seq<char>) -> bool {
    &&& new.is_bulk_loading() == old.is_bulk_loading()
    &&& new.uses_fuzzy_search() == old.uses_fuzzy_search()
    &&& new.catalog() == old.catalog() + new_terms(term_texts(text), old.catalog())
    &&& forall|w: Seq<char>| term_texts(text).contains(w) ==> new.catalog().contains(w)
    &&& slot_upserted(old.slots(), new.slots(), id, indexes_text(new.catalog(), text))
    &&& upsert_slot(old.slots(), new.slots(), old.vacated(), new.vacated(), id)
}

/// What deleting the record of `id` makes of a full-text datastore: its
/// slot, if it had one, becomes the most recently vacated; the catalog and
/// the settings are unchanged.
pub open spec fn full_text_deleted(old: FullTextDatastore, new: FullTextDatastore, id: Seq<char>) -> bool {
    &&& new.is_bulk_loading() == old.is_bulk_loading()
    &&& new.uses_fuzzy_search() == old.uses_fuzzy_search()
    &&& new.catalog() == old.catalog()
    &&& slot_deleted(old.slots(), new.slots(), id)
    &&& delete_slot(old.slots(), old.vacated(), new.vacated(), id)
}

/// `r` is the health snapshot of `s`: its kind, live and vacant slot
/// counts, its live ids sorted, its catalog size and its token total.
pub open spec fn full_text_health(s: FullTextDatastore, r: StoreHealth) -> bool {
    &&& r.exists
    &&& r.kind@ == "fullText"@
    &&& r.live_records == crate::record_table::live_count(s.slots())
    &&& r.tombstones == s.slots().len() - crate::record_table::live_count(s.slots())
    &&& r.tombstones == s.vacated().len()
    &&& sorted_seqs(r.record_ids.deep_view())
    &&& r.record_ids.deep_view().to_multiset() == live_ids(s.slots()).to_multiset()
    &&& r.posting_terms == s.catalog().len()
    &&& r.posting_occurrences == token_sum(s.slots())
}

/// `chain` steps through deleting each id of `ids` in turn.
pub open spec fn delete_steps(chain: Seq<FullTextDatastore>, ids: Seq<Seq<char>>) -> bool {
    &&& chain.len() == ids.len() + 1
    &&& forall|k: int| 0 <= k < ids.len() ==> full_text_deleted(#[trigger] chain[k], chain[k + 1], ids[k])
}

/// `new` is `old` after deleting, one after another and each once, the live
/// ids of `old` that start with `prefix`, in some order.
pub open spec fn deleted_each_prefixed(old: FullTextDatastore, new: FullTextDatastore, prefix: Seq<char>) -> bool {
    exists|ids: Seq<Seq<char>>, chain: Seq<FullTextDatastore>|
        {
            &&& ids.no_duplicates()
            &&& forall|id: Seq<char>| ids.contains(id) <==> (has_id(old.slots(), id) && seq_starts_with(id, prefix))
            &&& #[trigger] delete_steps(chain, ids)
            &&& chain[0] == old
            &&& chain.last() == new
        }
}

/// What finishing a bulk load makes of a full-text datastore: the same
/// records, vacant slots and catalog, posting lists with the same entries,
/// and no bulk load in progress.
pub open spec fn full_text_bulk_finished(old: FullTextDatastore, new: FullTextDatastore) -> bool {
    &&& !new.is_bulk_loading()
    &&& new.uses_fuzzy_search() == old.uses_fuzzy_search()
    &&& new.slots() == old.slots()
    &&& new.vacated() == old.vacated()
    &&& new.catalog() == old.catalog()
    &&& new.posting_lists().len() == old.posting_lists().len()
    &&& forall|t: int, p: Posting|
        0 <= t < new.posting_lists().len() ==> (#[trigger] new.posting_lists()[t].contains(p)
            <==> old.posting_lists()[t].contains(p))
}

/// Upsert, then read the index: after an upsert of `id` with `text`, the
/// posting lists name the record of `id` under exactly the catalog terms
/// that occur in the text, each with the number of times the text has it.
pub proof fn lemma_upsert_then_postings(old: FullTextDatastore, new: FullTextDatastore, id: Seq<char>, text: Seq<char>)
    requires
        new.wf(),
        full_text_upserted(old, new, id, text),
    ensures
        exists|idx: int|
            {
                &&& id_at(new.slots(), id, idx)
                &&& forall|t: int|
                    0 <= t < new.catalog().len() ==> (has_record(new.posting_lists()[t], idx as u32) <==> term_texts(
                        text,
                    ).contains(#[trigger] new.catalog()[t]))
                &&& forall|t: int, k: int|
                    0 <= t < new.catalog().len() && 0 <= k < new.posting_lists()[t].len() && (#[trigger] new.posting_lists()[t][k]).record_idx
                        == idx ==> new.posting_lists()[t][k].term_frequency == word_count(term_texts(text), new.catalog()[t])
            },
{
    new.lemma_store_facts();
    let slots = new.slots();
    let idx = choose|idx: int|
        {
            &&& id_at(slots, id, idx)
            &&& (#[trigger] slots[idx]) matches Some(r) && indexes_text(new.catalog(), text)(r.value)
            &&& {
                ||| slots == old.slots().update(idx, slots[idx])
                ||| idx == old.slots().len() && slots == old.slots().push(slots[idx])
            }
            &&& has_id(old.slots(), id) ==> id_at(old.slots(), id, idx)
            &&& !has_id(old.slots(), id) && idx < old.slots().len() ==> old.slots()[idx] is None
        };
    let rec = slots[idx]->0;
    assert(record_indexes_text(rec.value, new.catalog(), text));
    assert forall|t: int|
        0 <= t < new.catalog().len() implies (has_record(new.posting_lists()[t], idx as u32) <==> term_texts(
            text,
        ).contains(#[trigger] new.catalog()[t])) by {
        let pl = new.posting_lists();
        if has_record(pl[t], idx as u32) {
            let k = choose|k: int| 0 <= k < pl[t].len() && (#[trigger] pl[t][k]).record_idx == idx as u32;
            assert(record_has_term(slots, idx, t as u32));
        }
        if term_texts(text).contains(new.catalog()[t]) {
            assert(rec.value.terms@.contains(t as u32));
            assert(record_has_term(slots, idx, t as u32));
        }
    }
    assert forall|t: int, k: int|
        0 <= t < new.catalog().len() && 0 <= k < new.posting_lists()[t].len() && (#[trigger] new.posting_lists()[t][k]).record_idx
            == idx implies new.posting_lists()[t][k].term_frequency == word_count(term_texts(text), new.catalog()[t]) by {
        lemma_count_of_words(rec.value.token_ids@, term_texts(text), new.catalog(), t);
    }
}

/// Delete, then read: after deleting a present id, no record has that id
/// and no posting list names its former slot.
pub proof fn lemma_delete_then_absent(old: FullTextDatastore, new: FullTextDatastore, id: Seq<char>)
    requires
        old.wf(),
        new.wf(),
        slot_deleted(old.slots(), new.slots(), id),
        has_id(old.slots(), id),
    ensures
        !has_id(new.slots(), id),
        exists|idx: int|
            id_at(old.slots(), id, idx) && forall|t: int|
                0 <= t < new.posting_lists().len() ==> !has_record(#[trigger] new.posting_lists()[t], idx as u32),
{
    old.lemma_store_facts();
    new.lemma_store_facts();
    old.records.lemma_wf();
    let idx = choose|idx: int| id_at(old.slots(), id, idx) && new.slots() == old.slots().update(idx, None);
    if has_id(new.slots(), id) {
        let j = choose|j: int| id_at(new.slots(), id, j);
        assert(j != idx);
        assert(id_at(old.slots(), id, j));
    }
    assert forall|t: int| 0 <= t < new.posting_lists().len() implies !has_record(#[trigger] new.posting_lists()[t], idx as u32) by {
        let pl = new.posting_lists();
        if has_record(pl[t], idx as u32) {
            let k = choose|k: int| 0 <= k < pl[t].len() && (#[trigger] pl[t][k]).record_idx == idx as u32;
            assert(record_has_term(new.slots(), idx, t as u32));
        }
    }
}

/// BM25 full-text datastore with an inverted index.
pub struct FullTextDatastore {
    pub(crate) records: RecordTable<FullTextRecord>,
    pub(crate) term_to_id: StringHashMap<u32>,
    pub(crate) terms: Vec<FullTextTerm>,
    /// Posting lists indexed by term id; each list is sorted by record index
    /// outside bulk loading.
    pub(crate) postings: Vec<Vec<Posting>>,
    pub(crate) total_token_count: usize,
    /// Total token occurrences across live records.
    pub(crate) posting_occurrence_count: usize,
    pub(crate) bulk_loading: bool,
    pub(crate) fuzzy_search: bool,
}

impl FullTextDatastore {
    /// The slots of the record table.
    pub closed spec fn slots(&self) -> FullTextSlots {
        self.records.slots()
    }

    /// The vacant slots, in the order they were vacated; the last one is
    /// reused first.
    pub closed spec fn vacated(&self) -> Seq<usize> {
        self.records.free_slots()
    }

    /// No two live records share an id.
    pub proof fn lemma_ids_unique(&self)
        requires
            self.wf(),
        ensures
            unique_ids(self.slots()),
    {
        self.records.lemma_wf();
    }

    /// The vacant slots are listed once each and are exactly the vacant
    /// slots of the table.
    pub proof fn lemma_vacated(&self)
        requires
            self.wf(),
        ensures
            vacant_slots_listed(self.slots(), self.vacated()),
    {
        self.records.lemma_wf();
    }

    /// The posting lists, indexed by term id.
    pub closed spec fn posting_lists(&self) -> Seq<Seq<Posting>> {
        self.postings@.map_values(|v: Vec<Posting>| v@)
    }

    /// The word catalog: the text of each term id.
    pub closed spec fn catalog(&self) -> Seq<Seq<char>> {
        self.terms@.map_values(|t: FullTextTerm| t.text@)
    }

    /// Whether a bulk load is in progress.
    pub closed spec fn is_bulk_loading(&self) -> bool {
        self.bulk_loading
    }

    /// Whether queries are expanded by fuzzy matching.
    pub closed spec fn uses_fuzzy_search(&self) -> bool {
        self.fuzzy_search
    }

    /// Sum of the token counts of the live records.
    pub closed spec fn token_total(&self) -> nat {
        self.total_token_count as nat
    }

    /// The word catalog, the posting lists and the counters agree with the
    /// records.
    pub closed spec fn wf(&self) -> bool {
        &&& self.records.wf()
        &&& self.records.slots().len() <= u32::MAX + 1
        &&& self.terms@.len() == self.postings@.len()
        &&& self.postings@.len() <= u32::MAX + 1
        &&& forall|i: int|
            0 <= i < self.terms@.len() ==> {
                &&& self.term_to_id@.contains_key(#[trigger] self.terms@[i].text@)
                &&& self.term_to_id@[self.terms@[i].text@] == i
                &&& self.terms@[i].matcher_text@ == self.terms@[i].text@
                &&& self.terms@[i].text@.len() <= u32::MAX
            }
        &&& forall|k: Seq<char>| #[trigger]
            self.term_to_id@.contains_key(k) ==> self.term_to_id@[k] < self.terms@.len()
                && self.terms@[self.term_to_id@[k] as int].text@ == k
        &&& forall|i: int|
            0 <= i < self.records.slots().len() ==> match #[trigger] self.records.slots()[i] {
                Some(r) => {
                    &&& increasing_terms(r.value.terms@)
                    &&& forall|k: int|
                        0 <= k < r.value.terms@.len() ==> r.value.terms@[k]
                            < self.postings@.len()
                },
                None => true,
            }
        &&& index_agrees(self.records.slots(), self.posting_lists())
        &&& !self.bulk_loading ==> forall|t: int|
            0 <= t < self.postings@.len() ==> sorted_postings(#[trigger] self.postings@[t]@)
        &&& self.total_token_count == token_sum(self.records.slots())
        &&& self.posting_occurrence_count == self.total_token_count
    }

    /// Creates an empty full-text datastore.
    pub fn new() -> (r: Self)
        ensures
            r.wf(),
            r.slots().len() == 0,
            r.catalog().len() == 0,
            r.posting_lists().len() == 0,
            !r.is_bulk_loading(),
            r.uses_fuzzy_search(),
            r.vacated().len() == 0,
    {
        let r = FullTextDatastore {
            records: RecordTable::new(),
            term_to_id: StringHashMap::new(),
            terms: Vec::new(),
            postings: Vec::new(),
            total_token_count: 0,
            posting_occurrence_count: 0,
            bulk_loading: false,
            fuzzy_search: true,
        };
        assert(r.posting_lists() =~= Seq::<Seq<Posting>>::empty());
        r
    }

    /// Everything but the word catalog and the new terms' (empty) posting
    /// lists is as in `old`, and the catalog only grew at its end.
    pub closed spec fn catalog_extends(old: &Self, new: &Self) -> bool {
        &&& new.records == old.records
        &&& new.total_token_count == old.total_token_count
        &&& new.posting_occurrence_count == old.posting_occurrence_count
        &&& new.bulk_loading == old.bulk_loading
        &&& new.fuzzy_search == old.fuzzy_search
        &&& old.terms@.len() <= new.terms@.len()
        &&& old.postings@.len() <= new.postings@.len()
        &&& forall|i: int| 0 <= i < old.terms@.len() ==> #[trigger] new.terms@[i] == old.terms@[i]
        &&& forall|t: int| 0 <= t < old.postings@.len() ==> #[trigger] new.postings@[t] == old.postings@[t]
        &&& forall|t: int| old.postings@.len() <= t < new.postings@.len() ==> (#[trigger] new.postings@[t])@.len() == 0
    }

    /// Catalog extension is transitive.
    proof fn lemma_catalog_extends_trans(a: &Self, b: &Self, c: &Self)
        requires
            Self::catalog_extends(a, b),
            Self::catalog_extends(b, c),
        ensures
            Self::catalog_extends(a, c),
    {
        assert forall|t: int| a.postings@.len() <= t < c.postings@.len() implies (#[trigger] c.postings@[t])@.len() == 0 by {
            if t < b.postings@.len() {
                assert(c.postings@[t] == b.postings@[t]);
            }
        }
        assert forall|i: int| 0 <= i < a.terms@.len() implies #[trigger] c.terms@[i] == a.terms@[i] by {
            assert(c.terms@[i] == b.terms@[i]);
        }
        assert forall|t: int| 0 <= t < a.postings@.len() implies #[trigger] c.postings@[t] == a.postings@[t] by {
            assert(c.postings@[t] == b.postings@[t]);
        }
    }

    /// Returns the id of a term, adding it to the catalog with an empty
    /// posting list on first sighting.
    fn intern_term(&mut self, term: String) -> (r: u32)
        requires
            old(self).wf(),
            !old(self).catalog().contains(term@) ==> old(self).terms@.len() <= u32::MAX,
            term@.len() <= u32::MAX,
        ensures
            final(self).wf(),
            Self::catalog_extends(old(self), final(self)),
            final(self).terms@.len() <= old(self).terms@.len() + 1,
            r < final(self).terms@.len(),
            final(self).terms@[r as int].text@ == term@,
            final(self).catalog() == if old(self).catalog().contains(term@) {
                old(self).catalog()
            } else {
                old(self).catalog().push(term@)
            },
    {
        match self.term_to_id.get(term.as_str()) {
            Some(id) => {
                proof {
                    assert(self.catalog()[*id as int] == term@);
                }
                return *id;
            },
            None => {},
        }
        proof {
            if self.catalog().contains(term@) {
                let i = choose|i: int| 0 <= i < self.catalog().len() && self.catalog()[i] == term@;
                assert(self.terms@[i].text@ == term@);
            }
        }
        let term_id = self.postings.len() as u32;
        let ghost old_postings = self.posting_lists();
        let ghost key = term@;
        self.terms.push(FullTextTerm { text: term.clone(), matcher_text: NumberedString::new(term.clone()) });
        self.term_to_id.insert(term, term_id);
        self.postings.push(Vec::new());
        proof {
            assert(self.posting_lists() =~= old_postings.push(Seq::<Posting>::empty()));
            let s = self.records.slots();
            let pl = self.posting_lists();
            assert forall|t: int, p: Posting| 0 <= t < old_postings.len() && #[trigger] pl[t].contains(p) implies old_postings[t].contains(p)
                || p.record_idx as int == -1 by {
                assert(pl[t] == old_postings[t]);
            }
            lemma_frequencies_kept(s, old_postings, pl, -1);
            assert forall|t: int, k: int|
                0 <= t < pl.len() && 0 <= k < pl[t].len() implies {
                let i = (#[trigger] pl[t][k]).record_idx as int;
                &&& i < s.len()
                &&& i != -1 ==> record_has_term(s, i, t as u32)
            } by {
                assert(t < old_postings.len());
                assert(pl[t] == old_postings[t]);
            }
            assert forall|i: int, t: u32| #[trigger] record_has_term(s, i, t) implies t < pl.len()
                && has_record(pl[t as int], i as u32) by {
                assert(t < old_postings.len());
                assert(pl[t as int] == old_postings[t as int]);
            }
            assert forall|t: int| 0 <= t < pl.len() implies unique_postings(#[trigger] pl[t]) by {
                if t < old_postings.len() {
                    assert(pl[t] == old_postings[t]);
                }
            }
            assert forall|i: int| 0 <= i < self.terms@.len() implies {
                &&& self.term_to_id@.contains_key(#[trigger] self.terms@[i].text@)
                &&& self.term_to_id@[self.terms@[i].text@] == i
                &&& self.terms@[i].matcher_text@ == self.terms@[i].text@
                &&& self.terms@[i].text@.len() <= u32::MAX
            } by {
                if i < old(self).terms@.len() {
                    assert(self.terms@[i] == old(self).terms@[i]);
                    assert(old(self).terms@[i].text@ != key);
                }
            }
            assert forall|k: Seq<char>| #[trigger] self.term_to_id@.contains_key(k) implies self.term_to_id@[k]
                < self.terms@.len() && self.terms@[self.term_to_id@[k] as int].text@ == k by {
                if k != key {
                    assert(old(self).term_to_id@.contains_key(k));
                }
            }
            if !self.bulk_loading {
                assert forall|t: int| 0 <= t < self.postings@.len() implies sorted_postings(#[trigger] self.postings@[t]@) by {
                    if t < old_postings.len() {
                        assert(self.postings@[t] == old(self).postings@[t]);
                    }
                }
            }
        }
        proof {
            assert(self.catalog() =~= old(self).catalog().push(term@));
        }
        term_id
    }

    /// Interns every token, returning the term id of each.
    fn intern_tokens(&mut self, tokens: &Vec<String>) -> (ids: Vec<u32>)
        requires
            old(self).wf(),
            old(self).catalog().len() + new_terms(tokens.deep_view(), old(self).catalog()).len() <= u32::MAX + 1,
            forall|k: int| 0 <= k < tokens@.len() ==> (#[trigger] tokens@[k])@.len() <= u32::MAX,
        ensures
            final(self).wf(),
            Self::catalog_extends(old(self), final(self)),
            ids@.len() == tokens@.len(),
            forall|k: int|
                0 <= k < ids@.len() ==> #[trigger] ids@[k] < final(self).terms@.len()
                    && final(self).terms@[ids@[k] as int].text@ == tokens@[k]@,
            final(self).catalog() == old(self).catalog() + new_terms(tokens.deep_view(), old(self).catalog()),
    {
        let mut ids: Vec<u32> = Vec::new();
        let n = tokens.len();
        for i in 0..n
            invariant
                n == tokens@.len(),
                self.wf(),
                Self::catalog_extends(old(self), self),
                old(self).catalog().len() + new_terms(tokens.deep_view(), old(self).catalog()).len() <= u32::MAX + 1,
                forall|k: int| 0 <= k < tokens@.len() ==> (#[trigger] tokens@[k])@.len() <= u32::MAX,
                ids@.len() == i,
                forall|k: int|
                    0 <= k < ids@.len() ==> #[trigger] ids@[k] < self.terms@.len()
                        && self.terms@[ids@[k] as int].text@ == tokens@[k]@,
                self.catalog() == old(self).catalog() + new_terms(tokens.deep_view().take(i as int), old(self).catalog()),
        {
            let ghost before = *self;
            proof {
                lemma_new_terms_prefix(tokens.deep_view(), old(self).catalog(), i + 1, tokens@.len() as int);
                let p = new_terms(tokens.deep_view().take(i as int), old(self).catalog());
                let tk = tokens.deep_view().take(i + 1);
                assert(tk.drop_last() =~= tokens.deep_view().take(i as int));
                assert(tk.last() == tokens@[i as int]@);
                assert(tokens.deep_view().take(tokens@.len() as int) =~= tokens.deep_view());
                assert(self.terms@.len() == self.catalog().len());
                if !self.catalog().contains(tokens@[i as int]@) {
                    let oc = old(self).catalog();
                    let w = tokens@[i as int]@;
                    if oc.contains(w) {
                        let j = choose|j: int| 0 <= j < oc.len() && oc[j] == w;
                        assert(self.catalog()[j] == w);
                    }
                    if p.contains(w) {
                        let j = choose|j: int| 0 <= j < p.len() && p[j] == w;
                        assert(self.catalog()[oc.len() + j] == w);
                    }
                }
            }
            let id = self.intern_term(tokens[i].clone());
            ids.push(id);
            proof {
                Self::lemma_catalog_extends_trans(old(self), &before, self);
                assert forall|k: int| 0 <= k < ids@.len() implies #[trigger] ids@[k] < self.terms@.len()
                    && self.terms@[ids@[k] as int].text@ == tokens@[k]@ by {
                    if k < i {
                        assert(self.terms@[ids@[k] as int] == before.terms@[ids@[k] as int]);
                    }
                }
                let oc = old(self).catalog();
                let tk = tokens.deep_view().take(i + 1);
                let p = new_terms(tokens.deep_view().take(i as int), oc);
                let w = tokens@[i as int]@;
                assert(tk.drop_last() =~= tokens.deep_view().take(i as int));
                assert(tk.last() == w);
                assert((oc + p).contains(w) <==> (oc.contains(w) || p.contains(w))) by {
                    if (oc + p).contains(w) {
                        let j = choose|j: int| 0 <= j < (oc + p).len() && (oc + p)[j] == w;
                        if j >= oc.len() {
                            assert(p[j - oc.len()] == w);
                        }
                    }
                    if p.contains(w) {
                        let j = choose|j: int| 0 <= j < p.len() && p[j] == w;
                        assert((oc + p)[oc.len() + j] == w);
                    }
                    if oc.contains(w) {
                        let j = choose|j: int| 0 <= j < oc.len() && oc[j] == w;
                        assert((oc + p)[j] == w);
                    }
                }
                assert((oc + p).push(w) =~= oc + p.push(w));
            }
        }
        proof {
            assert(tokens.deep_view().take(n as int) =~= tokens.deep_view());
        }
        ids
    }

    /// Removes every posting of slot `idx`, whose record (with the given
    /// terms and token count) has just left the table.
    fn remove_record_from_index(&mut self, idx: usize, record: &FullTextRecord)
        requires
            old(self).records.wf(),
            idx < old(self).records.slots().len(),
            idx <= u32::MAX,
            old(self).records.slots().len() <= u32::MAX + 1,
            old(self).postings@.len() <= u32::MAX + 1,
            index_agrees_except(old(self).records.slots(), old(self).posting_lists(), idx as int),
            frequencies_agree_except(old(self).records.slots(), old(self).posting_lists(), idx as int),
            forall|t: int|
                0 <= t < old(self).postings@.len() && has_record(
                    #[trigger] old(self).posting_lists()[t],
                    idx as u32,
                ) ==> record.terms@.contains(t as u32),
            forall|k: int| 0 <= k < record.terms@.len() ==> #[trigger] record.terms@[k] < old(self).postings@.len(),
            !old(self).bulk_loading ==> forall|t: int|
                0 <= t < old(self).postings@.len() ==> sorted_postings(#[trigger] old(self).postings@[t]@),
            old(self).total_token_count == token_sum(old(self).records.slots()) + record.token_count,
            old(self).posting_occurrence_count == old(self).total_token_count,
        ensures
            final(self).records == old(self).records,
            final(self).terms == old(self).terms,
            final(self).term_to_id == old(self).term_to_id,
            final(self).bulk_loading == old(self).bulk_loading,
            final(self).fuzzy_search == old(self).fuzzy_search,
            final(self).postings@.len() == old(self).postings@.len(),
            index_agrees_except(final(self).records.slots(), final(self).posting_lists(), idx as int),
            frequencies_agree_except(final(self).records.slots(), final(self).posting_lists(), idx as int),
            forall|t: int|
                0 <= t < final(self).postings@.len() ==> !has_record(
                    #[trigger] final(self).posting_lists()[t],
                    idx as u32,
                ),
            !final(self).bulk_loading ==> forall|t: int|
                0 <= t < final(self).postings@.len() ==> sorted_postings(#[trigger] final(self).postings@[t]@),
            final(self).total_token_count == token_sum(final(self).records.slots()),
            final(self).posting_occurrence_count == final(self).total_token_count,
    {
        self.total_token_count = self.total_token_count - record.token_count as usize;
        self.posting_occurrence_count = self.posting_occurrence_count - record.token_count as usize;
        let record_idx = idx as u32;
        let sorted = !self.bulk_loading;
        let n = record.terms.len();
        let ghost slots = self.records.slots();
        for j in 0..n
            invariant
                n == record.terms@.len(),
                self.records == old(self).records,
                self.terms == old(self).terms,
                self.term_to_id == old(self).term_to_id,
                self.bulk_loading == old(self).bulk_loading,
                self.fuzzy_search == old(self).fuzzy_search,
                self.total_token_count == token_sum(slots),
                self.posting_occurrence_count == self.total_token_count,
                slots == self.records.slots(),
                sorted == !self.bulk_loading,
                record_idx == idx,
                slots.len() <= u32::MAX + 1,
                self.postings@.len() <= u32::MAX + 1,
                self.postings@.len() == old(self).postings@.len(),
                forall|k: int| 0 <= k < record.terms@.len() ==> #[trigger] record.terms@[k] < self.postings@.len(),
                index_agrees_except(slots, self.posting_lists(), idx as int),
                frequencies_agree_except(slots, self.posting_lists(), idx as int),
                forall|t: int|
                    0 <= t < self.postings@.len() && has_record(
                        #[trigger] self.posting_lists()[t],
                        idx as u32,
                    ) ==> record.terms@.subrange(j as int, n as int).contains(t as u32),
                sorted ==> forall|t: int|
                    0 <= t < self.postings@.len() ==> sorted_postings(#[trigger] self.postings@[t]@),
        {
            let t = record.terms[j];
            let ghost before = self.posting_lists();
            let ghost before_vecs = self.postings@;
            proof {
                assert(unique_postings(before[t as int]));
                assert(before[t as int] == before_vecs[t as int]@);
            }
            remove_posting(&mut self.postings[t as usize], record_idx, sorted);
            proof {
                let pl = self.posting_lists();
                assert(pl =~= before.update(t as int, self.postings@[t as int]@));
                assert forall|u: int, k: int|
                    0 <= u < pl.len() && 0 <= k < pl[u].len() implies {
                    let i = (#[trigger] pl[u][k]).record_idx as int;
                    &&& i < slots.len()
                    &&& i != idx ==> record_has_term(slots, i, u as u32)
                } by {
                    if u == t {
                        assert(pl[u].contains(pl[u][k]));
                        let kk = choose|kk: int| 0 <= kk < before[u].len() && before[u][kk] == pl[u][k];
                        assert(before[u][kk] == pl[u][k]);
                    } else {
                        assert(pl[u] == before[u]);
                    }
                }
                assert forall|i: int, u: u32|
                    i != idx && #[trigger] record_has_term(slots, i, u) implies u < pl.len() && has_record(
                    pl[u as int],
                    i as u32,
                ) by {
                    if u == t {
                        assert(has_record(before[u as int], i as u32));
                        let kk = choose|kk: int| 0 <= kk < before[u as int].len() && (#[trigger] before[u as int][kk]).record_idx == i as u32;
                        assert(before[u as int].contains(before[u as int][kk]));
                        assert(pl[u as int].contains(before[u as int][kk]));
                        let k2 = choose|k2: int| 0 <= k2 < pl[u as int].len() && pl[u as int][k2] == before[u as int][kk];
                        assert(pl[u as int][k2].record_idx == i as u32);
                    } else {
                        assert(pl[u as int] == before[u as int]);
                    }
                }
                assert forall|u: int| 0 <= u < pl.len() implies unique_postings(#[trigger] pl[u]) by {
                    if u != t {
                        assert(pl[u] == before[u]);
                    }
                }
                assert forall|u: int, p: Posting| 0 <= u < before.len() && #[trigger] pl[u].contains(p) implies before[u].contains(p)
                    || p.record_idx as int == idx by {
                    if u != t {
                        assert(pl[u] == before[u]);
                    }
                }
                lemma_frequencies_kept(slots, before, pl, idx as int);
                assert forall|u: int|
                    0 <= u < self.postings@.len() && has_record(
                        #[trigger] pl[u],
                        idx as u32,
                    ) implies record.terms@.subrange(j + 1, n as int).contains(u as u32) by {
                    if u == t {
                        let kk = choose|kk: int| 0 <= kk < pl[u].len() && (#[trigger] pl[u][kk]).record_idx == idx as u32;
                        assert(pl[u].contains(pl[u][kk]));
                    } else {
                        assert(pl[u] == before[u]);
                        assert(record.terms@.subrange(j as int, n as int).contains(u as u32));
                        let kk = choose|kk: int| 0 <= kk < n - j && record.terms@.subrange(j as int, n as int)[kk] == u as u32;
                        assert(kk != 0);
                        assert(record.terms@.subrange(j + 1, n as int)[kk - 1] == u as u32);
                    }
                }
                if sorted {
                    assert forall|u: int| 0 <= u < self.postings@.len() implies sorted_postings(#[trigger] self.postings@[u]@) by {
                        if u != t {
                            assert(self.postings@[u] == before_vecs[u]);
                        }
                    }
                }
            }
        }
    }

    /// Adds a posting of slot `idx` for each counted term of its new record.
    fn add_record_to_index(&mut self, idx: usize, entries: &Vec<(u32, u32)>)
        requires
            old(self).records.wf(),
            idx < old(self).records.slots().len(),
            idx <= u32::MAX,
            old(self).records.slots().len() <= u32::MAX + 1,
            old(self).postings@.len() <= u32::MAX + 1,
            index_agrees_except(old(self).records.slots(), old(self).posting_lists(), idx as int),
            forall|t: int|
                0 <= t < old(self).postings@.len() ==> !has_record(
                    #[trigger] old(self).posting_lists()[t],
                    idx as u32,
                ),
            forall|i: int, j: int| 0 <= i < j < entries@.len() ==> entries@[i].0 < entries@[j].0,
            forall|k: int| 0 <= k < entries@.len() ==> (#[trigger] entries@[k]).0 < old(self).postings@.len(),
            old(self).records.slots()[idx as int] matches Some(r) && forall|t: u32|
                r.value.terms@.contains(t) <==> exists|k: int| 0 <= k < entries@.len() && #[trigger] entries@[k].0 == t,
            frequencies_agree_except(old(self).records.slots(), old(self).posting_lists(), idx as int),
            forall|k: int|
                0 <= k < entries@.len() ==> (#[trigger] entries@[k]).1 == count_of(
                    old(self).records.slots()[idx as int]->0.value.token_ids@,
                    entries@[k].0,
                ),
            !old(self).bulk_loading ==> forall|t: int|
                0 <= t < old(self).postings@.len() ==> sorted_postings(#[trigger] old(self).postings@[t]@),
        ensures
            final(self).records == old(self).records,
            final(self).terms == old(self).terms,
            final(self).term_to_id == old(self).term_to_id,
            final(self).bulk_loading == old(self).bulk_loading,
            final(self).fuzzy_search == old(self).fuzzy_search,
            final(self).total_token_count == old(self).total_token_count,
            final(self).posting_occurrence_count == old(self).posting_occurrence_count,
            final(self).postings@.len() == old(self).postings@.len(),
            index_agrees(final(self).records.slots(), final(self).posting_lists()),
            !final(self).bulk_loading ==> forall|t: int|
                0 <= t < final(self).postings@.len() ==> sorted_postings(#[trigger] final(self).postings@[t]@),
    {
        let record_idx = idx as u32;
        let bulk = self.bulk_loading;
        let n = entries.len();
        let ghost slots = self.records.slots();
        for j in 0..n
            invariant
                n == entries@.len(),
                self.records == old(self).records,
                self.terms == old(self).terms,
                self.term_to_id == old(self).term_to_id,
                self.bulk_loading == old(self).bulk_loading,
                self.fuzzy_search == old(self).fuzzy_search,
                self.total_token_count == old(self).total_token_count,
                self.posting_occurrence_count == old(self).posting_occurrence_count,
                slots == self.records.slots(),
                bulk == self.bulk_loading,
                record_idx == idx,
                idx < slots.len(),
                slots.len() <= u32::MAX + 1,
                self.postings@.len() <= u32::MAX + 1,
                self.postings@.len() == old(self).postings@.len(),
                forall|i: int, k: int| 0 <= i < k < entries@.len() ==> entries@[i].0 < entries@[k].0,
                forall|k: int| 0 <= k < entries@.len() ==> (#[trigger] entries@[k]).0 < self.postings@.len(),
                index_agrees_except(slots, self.posting_lists(), idx as int),
                frequencies_agree_except(slots, self.posting_lists(), idx as int),
                forall|k: int|
                    0 <= k < entries@.len() ==> (#[trigger] entries@[k]).1 == count_of(
                        slots[idx as int]->0.value.token_ids@,
                        entries@[k].0,
                    ),
                forall|t: int, k: int|
                    0 <= t < self.posting_lists().len() && 0 <= k < self.posting_lists()[t].len()
                        && (#[trigger] self.posting_lists()[t][k]).record_idx == idx ==> self.posting_lists()[t][k].term_frequency
                        == count_of(slots[idx as int]->0.value.token_ids@, t as u32),
                forall|t: int|
                    0 <= t < self.postings@.len() ==> (has_record(#[trigger] self.posting_lists()[t], idx as u32)
                        <==> exists|k: int| 0 <= k < j && #[trigger] entries@[k].0 == t as u32),
                !bulk ==> forall|t: int|
                    0 <= t < self.postings@.len() ==> sorted_postings(#[trigger] self.postings@[t]@),
        {
            let (t, term_frequency) = entries[j];
            let ghost before = self.posting_lists();
            let ghost before_vecs = self.postings@;
            proof {
                assert(before[t as int] == before_vecs[t as int]@);
                assert(!has_record(before[t as int], idx as u32)) by {
                    if has_record(before[t as int], idx as u32) {
                        let k = choose|k: int| 0 <= k < j && #[trigger] entries@[k].0 == t;
                        assert(entries@[k].0 < entries@[j as int].0);
                    }
                }
            }
            let entry = Posting { record_idx, term_frequency };
            if bulk {
                self.postings[t as usize].push(entry);
            } else {
                insert_posting(&mut self.postings[t as usize], record_idx, term_frequency);
            }
            proof {
                let pl = self.posting_lists();
                assert(pl =~= before.update(t as int, self.postings@[t as int]@));
                let nl = pl[t as int];
                let ol = before[t as int];
                assert forall|p: Posting| nl.contains(p) <==> (p == entry || ol.contains(p)) by {
                    if bulk {
                        assert(nl == ol.push(entry));
                        if ol.contains(p) {
                            let k = choose|k: int| 0 <= k < ol.len() && ol[k] == p;
                            assert(nl[k] == p);
                        }
                        if nl.contains(p) && p != entry {
                            let k = choose|k: int| 0 <= k < nl.len() && nl[k] == p;
                            assert(k < ol.len());
                            assert(ol[k] == p);
                        }
                        if p == entry {
                            assert(nl[ol.len() as int] == p);
                        }
                    } else {
                        if ol.contains(p) && p.record_idx == record_idx {
                            let k = choose|k: int| 0 <= k < ol.len() && ol[k] == p;
                            assert(has_record(ol, idx as u32));
                        }
                    }
                }
                assert forall|u: int, k: int|
                    0 <= u < pl.len() && 0 <= k < pl[u].len() implies {
                    let i = (#[trigger] pl[u][k]).record_idx as int;
                    &&& i < slots.len()
                    &&& i != idx ==> record_has_term(slots, i, u as u32)
                } by {
                    if u == t {
                        assert(pl[u] == nl);
                        assert(nl.contains(nl[k]));
                        if nl[k] != entry {
                            let kk = choose|kk: int| 0 <= kk < ol.len() && ol[kk] == nl[k];
                            assert(ol[kk] == nl[k]);
                            assert(before[u][kk] == ol[kk]);
                            assert((before[u][kk].record_idx as int) < slots.len());
                        } else {
                            assert(nl[k].record_idx == idx);
                        }
                    } else {
                        assert(pl[u] == before[u]);
                    }
                }
                assert forall|i: int, u: u32|
                    i != idx && #[trigger] record_has_term(slots, i, u) implies u < pl.len() && has_record(
                    pl[u as int],
                    i as u32,
                ) by {
                    if u == t {
                        assert(has_record(ol, i as u32));
                        let kk = choose|kk: int| 0 <= kk < ol.len() && (#[trigger] ol[kk]).record_idx == i as u32;
                        assert(ol.contains(ol[kk]));
                        assert(nl.contains(ol[kk]));
                        let k2 = choose|k2: int| 0 <= k2 < nl.len() && nl[k2] == ol[kk];
                        assert(nl[k2].record_idx == i as u32);
                    } else {
                        assert(pl[u as int] == before[u as int]);
                    }
                }
                assert(unique_postings(nl)) by {
                    if bulk {
                        assert forall|a: int, b: int| 0 <= a < b < nl.len() implies (#[trigger] nl[a]).record_idx
                            != (#[trigger] nl[b]).record_idx by {
                            if b == ol.len() {
                                assert(nl[a] == ol[a]);
                                if ol[a].record_idx == record_idx {
                                    assert(has_record(ol, idx as u32));
                                }
                            } else {
                                assert(nl[a] == ol[a] && nl[b] == ol[b]);
                            }
                        }
                    }
                }
                assert forall|u: int| 0 <= u < pl.len() implies unique_postings(#[trigger] pl[u]) by {
                    if u != t {
                        assert(pl[u] == before[u]);
                    }
                }
                assert forall|u: int, p: Posting| 0 <= u < before.len() && #[trigger] pl[u].contains(p) implies before[u].contains(p)
                    || p.record_idx as int == idx by {
                    if u != t {
                        assert(pl[u] == before[u]);
                    }
                }
                lemma_frequencies_kept(slots, before, pl, idx as int);
                assert forall|u: int, k: int|
                    0 <= u < pl.len() && 0 <= k < pl[u].len() && (#[trigger] pl[u][k]).record_idx == idx implies pl[u][k].term_frequency
                        == count_of(slots[idx as int]->0.value.token_ids@, u as u32) by {
                    if u != t {
                        assert(pl[u] == before[u]);
                    } else {
                        assert(nl.contains(nl[k]));
                        if nl[k] != entry {
                            let kk = choose|kk: int| 0 <= kk < ol.len() && ol[kk] == nl[k];
                            assert(before[u][kk] == nl[k]);
                        }
                    }
                }
                assert forall|u: int|
                    0 <= u < self.postings@.len() implies (has_record(#[trigger] pl[u], idx as u32)
                        <==> exists|k: int| 0 <= k < j + 1 && #[trigger] entries@[k].0 == u as u32) by {
                    if u == t {
                        assert(entries@[j as int].0 == t);
                        assert(nl.contains(entry));
                        let k2 = choose|k2: int| 0 <= k2 < nl.len() && nl[k2] == entry;
                        assert(nl[k2].record_idx == idx as u32);
                    } else {
                        assert(pl[u] == before[u]);
                        if exists|k: int| 0 <= k < j + 1 && #[trigger] entries@[k].0 == u as u32 {
                            let k = choose|k: int| 0 <= k < j + 1 && #[trigger] entries@[k].0 == u as u32;
                            assert(k != j);
                        }
                    }
                }
                if !bulk {
                    assert forall|u: int| 0 <= u < self.postings@.len() implies sorted_postings(#[trigger] self.postings@[u]@) by {
                        if u != t {
                            assert(self.postings@[u] == before_vecs[u]);
                        }
                    }
                }
            }
        }
        proof {
            let pl = self.posting_lists();
            assert forall|u: int, k: int| 0 <= u < pl.len() && 0 <= k < pl[u].len() implies {
                let p = #[trigger] pl[u][k];
                (p.record_idx as int) != -1 && (p.record_idx as int) < slots.len() && slots[p.record_idx as int] is Some
                    ==> p.term_frequency == count_of(slots[p.record_idx as int]->0.value.token_ids@, u as u32)
            } by {
                if pl[u][k].record_idx == idx {
                }
            }
            assert forall|i: int, u: u32| #[trigger] record_has_term(slots, i, u) implies u < pl.len() && has_record(
                pl[u as int],
                i as u32,
            ) by {
                if i == idx {
                    let k = choose|k: int| 0 <= k < entries@.len() && #[trigger] entries@[k].0 == u;
                    assert(has_record(pl[u as int], idx as u32));
                }
            }
            assert forall|u: int, k: int|
                0 <= u < pl.len() && 0 <= k < pl[u].len() implies {
                let i = (#[trigger] pl[u][k]).record_idx as int;
                &&& i < slots.len()
                &&& i != -1 ==> record_has_term(slots, i, u as u32)
            } by {
                if pl[u][k].record_idx == idx as u32 {
                    assert(has_record(pl[u], idx as u32));
                    let kk = choose|kk: int| 0 <= kk < n && #[trigger] entries@[kk].0 == u as u32;
                }
            }
        }
    }

    /// Facts of a consistent store: the catalog holds each term text once,
    /// within `u32` ids and lengths; the posting lists agree with the
    /// records (see `index_agrees`) and are sorted outside bulk loads.
    pub proof fn lemma_store_facts(&self)
        requires
            self.wf(),
        ensures
            self.catalog().no_duplicates(),
            forall|i: int| 0 <= i < self.catalog().len() ==> (#[trigger] self.catalog()[i]).len() <= u32::MAX,
            self.catalog().len() == self.posting_lists().len(),
            self.catalog().len() <= u32::MAX + 1,
            self.slots().len() <= u32::MAX + 1,
            index_agrees(self.slots(), self.posting_lists()),
            !self.is_bulk_loading() ==> forall|t: int|
                0 <= t < self.posting_lists().len() ==> sorted_postings(#[trigger] self.posting_lists()[t]),
    {
        let c = self.catalog();
        assert forall|i: int, j: int| 0 <= i < c.len() && 0 <= j < c.len() && i != j implies c[i] != c[j] by {
            assert(c[i] == self.terms@[i].text@);
            assert(c[j] == self.terms@[j].text@);
            assert(self.term_to_id@[self.terms@[i].text@] == i);
            assert(self.term_to_id@[self.terms@[j].text@] == j);
        }
        if !self.bulk_loading {
            assert forall|t: int| 0 <= t < self.posting_lists().len() implies sorted_postings(#[trigger] self.posting_lists()[t]) by {
                assert(self.posting_lists()[t] == self.postings@[t]@);
            }
        }
    }

    /// The term ids of each live record are strictly increasing and name
    /// catalog terms.
    pub proof fn lemma_record_terms(&self)
        requires
            self.wf(),
        ensures
            forall|i: int|
                0 <= i < self.slots().len() ==> match #[trigger] self.slots()[i] {
                    Some(r) => {
                        &&& increasing_terms(r.value.terms@)
                        &&& forall|k: int| 0 <= k < r.value.terms@.len() ==> r.value.terms@[k] < self.catalog().len()
                    },
                    None => true,
                },
    {
    }

    /// Inserts or replaces a record and updates the word catalog and the
    /// inverted index.
    #[verifier::rlimit(50)]
    pub fn upsert(&mut self, id: String, text: String)
        requires
            old(self).wf(),
            upsert_fits(*old(self), text@),
        ensures
            final(self).wf(),
            full_text_upserted(*old(self), *final(self), id@, text@),
    {
        let ghost old_slots = self.records.slots();
        let tokens = tokenize_terms(text.as_str());
        proof {
            crate::tokenizer::lemma_runs_shape(text@, crate::tokenizer::term_char());
            assert(tokens.deep_view().len() == tokens@.len());
            assert forall|k: int| 0 <= k < tokens@.len() implies (#[trigger] tokens@[k])@.len() <= u32::MAX by {
                assert(tokens.deep_view()[k] == tokens@[k]@);
                assert(term_texts(text@).contains(tokens@[k]@));
            }
        }
        let ids = self.intern_tokens(&tokens);
        let entries = count_terms(&ids);
        let ghost mid = *self;
        let mut terms: Vec<u32> = Vec::new();
        let ne = entries.len();
        for k in 0..ne
            invariant
                ne == entries@.len(),
                terms@ == entries@.take(k as int).map_values(|e: (u32, u32)| e.0),
        {
            terms.push(entries[k].0);
            assert(entries@.take(k + 1).map_values(|e: (u32, u32)| e.0) =~= entries@.take(k as int).map_values(|e: (u32, u32)| e.0).push(entries@[k as int].0));
        }
        assert(entries@.take(ne as int) =~= entries@);
        let token_count = tokens.len() as u32;
        let ghost tv = text@;
        let ghost catalog = self.catalog();
        let ghost rec_value = FullTextRecord { token_count, terms, token_ids: Ghost(ids@) };
        proof {
            assert forall|t: u32| terms@.contains(t) <==> exists|k: int| 0 <= k < entries@.len() && #[trigger] entries@[k].0 == t by {
                if terms@.contains(t) {
                    let j = choose|j: int| 0 <= j < terms@.len() && terms@[j] == t;
                    assert(entries@[j].0 == t);
                }
                if exists|k: int| 0 <= k < entries@.len() && #[trigger] entries@[k].0 == t {
                    let k = choose|k: int| 0 <= k < entries@.len() && #[trigger] entries@[k].0 == t;
                    assert(terms@[k] == t);
                }
            }
            assert(increasing_terms(terms@));
            assert forall|t: u32| terms@.contains(t) <==> (t < catalog.len() && term_texts(tv).contains(catalog[t as int])) by {
                assert(tokens.deep_view() == term_texts(tv));
                if terms@.contains(t) {
                    let k = choose|k: int| 0 <= k < entries@.len() && #[trigger] entries@[k].0 == t;
                    assert(ids@.contains(t));
                    let j = choose|j: int| 0 <= j < ids@.len() && ids@[j] == t;
                    assert(catalog[t as int] == tokens@[j]@);
                    assert(tokens.deep_view()[j] == tokens@[j]@);
                }
                if t < catalog.len() && term_texts(tv).contains(catalog[t as int]) {
                    let j = choose|j: int| 0 <= j < term_texts(tv).len() && term_texts(tv)[j] == catalog[t as int];
                    assert(tokens.deep_view()[j] == tokens@[j]@);
                    assert(self.terms@[ids@[j] as int].text@ == tokens@[j]@);
                    self.lemma_store_facts();
                    assert(catalog[ids@[j] as int] == catalog[t as int]);
                    assert(ids@[j] == t);
                    assert(ids@.contains(t));
                }
            }
            assert forall|w: Seq<char>| term_texts(tv).contains(w) implies catalog.contains(w) by {
                let j = choose|j: int| 0 <= j < term_texts(tv).len() && term_texts(tv)[j] == w;
                assert(tokens.deep_view()[j] == tokens@[j]@);
                assert(catalog[ids@[j] as int] == w);
            }
            old(self).lemma_store_facts();
            self.lemma_store_facts();
            assert(catalog.subrange(0, old(self).catalog().len() as int) =~= old(self).catalog());
            assert(tokens.deep_view() == term_texts(tv));
        }
        let ghost pl_mid = self.posting_lists();
        let (idx, replaced) = self.records.upsert(id, FullTextRecord { token_count, terms, token_ids: Ghost(ids@) });
        let ghost new_slots = self.records.slots();
        proof {
            self.records.lemma_wf();
            old(self).records.lemma_wf();
            assert forall|i: int| 0 <= i < old_slots.len() && i != idx implies #[trigger] new_slots[i] == old_slots[i] by {}
            lemma_frequencies_other_slots(old_slots, new_slots, pl_mid, idx as int);
            if idx < old_slots.len() {
                lemma_token_sum_update(old_slots, idx as int, new_slots[idx as int]);
            } else {
                assert(new_slots.drop_last() =~= old_slots);
            }
        }
        self.total_token_count = self.total_token_count + token_count as usize;
        self.posting_occurrence_count = self.posting_occurrence_count + token_count as usize;
        let ghost pre_remove = *self;
        match replaced {
            Some(old_record) => {
                proof {
                    assert forall|t: int, k: int|
                        0 <= t < pl_mid.len() && 0 <= k < pl_mid[t].len() implies {
                        let i = (#[trigger] pl_mid[t][k]).record_idx as int;
                        &&& i < new_slots.len()
                        &&& i != idx ==> record_has_term(new_slots, i, t as u32)
                    } by {
                        let i = pl_mid[t][k].record_idx as int;
                        assert(record_has_term(old_slots, i, t as u32));
                    }
                    assert forall|i: int, t: u32|
                        i != idx && #[trigger] record_has_term(new_slots, i, t) implies t < pl_mid.len() && has_record(
                        pl_mid[t as int],
                        i as u32,
                    ) by {
                        assert(record_has_term(old_slots, i, t));
                    }
                    assert forall|t: int|
                        0 <= t < self.postings@.len() && has_record(#[trigger] pl_mid[t], idx as u32)
                            implies old_record.value.terms@.contains(t as u32) by {
                        let k = choose|k: int| 0 <= k < pl_mid[t].len() && (#[trigger] pl_mid[t][k]).record_idx == idx as u32;
                        assert(record_has_term(old_slots, idx as int, t as u32));
                    }
                    assert(old_slots[idx as int] == Some(old_record));
                    assert forall|k: int| 0 <= k < old_record.value.terms@.len() implies #[trigger] old_record.value.terms@[k]
                        < self.postings@.len() by {
                        assert(old_slots[idx as int] matches Some(r) && r.value.terms@[k] < old(self).postings@.len());
                    }
                    if !self.bulk_loading {
                        assert forall|t: int| 0 <= t < self.postings@.len() implies sorted_postings(#[trigger] self.postings@[t]@) by {
                            assert(pl_mid[t] == self.postings@[t]@);
                        }
                    }
                }
                self.remove_record_from_index(idx, &old_record.value);
            },
            None => {
                proof {
                    assert(idx == old_slots.len() || old_slots[idx as int] is None);
                    assert forall|t: int, k: int|
                        0 <= t < pl_mid.len() && 0 <= k < pl_mid[t].len() implies {
                        let i = (#[trigger] pl_mid[t][k]).record_idx as int;
                        &&& i < new_slots.len()
                        &&& i != idx ==> record_has_term(new_slots, i, t as u32)
                    } by {
                        let i = pl_mid[t][k].record_idx as int;
                        assert(record_has_term(old_slots, i, t as u32));
                    }
                    assert forall|i: int, t: u32|
                        i != idx && #[trigger] record_has_term(new_slots, i, t) implies t < pl_mid.len() && has_record(
                        pl_mid[t as int],
                        i as u32,
                    ) by {
                        assert(record_has_term(old_slots, i, t));
                    }
                    assert forall|t: int| 0 <= t < self.postings@.len() implies !has_record(
                        #[trigger] self.posting_lists()[t],
                        idx as u32,
                    ) by {
                        if has_record(pl_mid[t], idx as u32) {
                            let k = choose|k: int| 0 <= k < pl_mid[t].len() && (#[trigger] pl_mid[t][k]).record_idx == idx as u32;
                            assert(record_has_term(old_slots, idx as int, t as u32));
                        }
                    }
                    if !self.bulk_loading {
                        assert forall|t: int| 0 <= t < self.postings@.len() implies sorted_postings(#[trigger] self.postings@[t]@) by {
                            assert(pl_mid[t] == self.postings@[t]@);
                        }
                    }
                }
            },
        }
        proof {
            assert(new_slots[idx as int] matches Some(r) && r.value.terms@ == terms@ && r.value.token_ids@ == ids@);
            assert forall|k: int| 0 <= k < entries@.len() implies (#[trigger] entries@[k]).0 < self.postings@.len() by {
                assert(ids@.contains(entries@[k].0));
            }
        }
        self.add_record_to_index(idx, &entries);
        proof {
            let s = self.records.slots();
            assert(s == new_slots);
            assert forall|i: int| 0 <= i < s.len() implies match #[trigger] s[i] {
                Some(r) => {
                    &&& increasing_terms(r.value.terms@)
                    &&& forall|k: int| 0 <= k < r.value.terms@.len() ==> r.value.terms@[k] < self.postings@.len()
                },
                None => true,
            } by {
                if i != idx {
                    assert(s[i] == old_slots[i]);
                } else {
                    assert forall|k: int| 0 <= k < terms@.len() implies terms@[k] < self.postings@.len() by {
                        assert(entries@[k].0 < self.postings@.len());
                    }
                }
            }
            let good = |rec: FullTextRecord| record_indexes_text(rec, self.catalog(), text@);
            assert(self.catalog() == catalog);
            assert forall|k: int| 0 <= k < ids@.len() implies #[trigger] ids@[k] < catalog.len() && catalog[ids@[k] as int]
                == term_texts(text@)[k] by {
                assert(tokens.deep_view()[k] == tokens@[k]@);
            }
            assert(new_slots[idx as int] matches Some(r) && good(r.value));
        }
    }

    /// Deletes a record and makes its slot available for reuse.
    pub fn delete(&mut self, id: &str)
        requires
            old(self).wf(),
        ensures
            final(self).wf(),
            full_text_deleted(*old(self), *final(self), id@),
    {
        let ghost old_slots = self.records.slots();
        let ghost pl = self.posting_lists();
        match self.records.delete(id) {
            Some((idx, record)) => {
                let ghost new_slots = self.records.slots();
                proof {
                    assert(id_at(old_slots, id@, idx as int));
                    lemma_token_sum_update(old_slots, idx as int, None);
                    assert forall|i: int| 0 <= i < old_slots.len() && i != idx implies #[trigger] new_slots[i] == old_slots[i] by {}
                    lemma_frequencies_other_slots(old_slots, new_slots, pl, idx as int);
                    assert forall|t: int, k: int|
                        0 <= t < pl.len() && 0 <= k < pl[t].len() implies {
                        let i = (#[trigger] pl[t][k]).record_idx as int;
                        &&& i < new_slots.len()
                        &&& i != idx ==> record_has_term(new_slots, i, t as u32)
                    } by {
                        let i = pl[t][k].record_idx as int;
                        assert(record_has_term(old_slots, i, t as u32));
                    }
                    assert forall|i: int, t: u32|
                        i != idx && #[trigger] record_has_term(new_slots, i, t) implies t < pl.len() && has_record(
                        pl[t as int],
                        i as u32,
                    ) by {
                        assert(record_has_term(old_slots, i, t));
                    }
                    assert forall|t: int|
                        0 <= t < self.postings@.len() && has_record(#[trigger] pl[t], idx as u32)
                            implies record.value.terms@.contains(t as u32) by {
                        let k = choose|k: int| 0 <= k < pl[t].len() && (#[trigger] pl[t][k]).record_idx == idx as u32;
                        assert(record_has_term(old_slots, idx as int, t as u32));
                    }
                    assert forall|k: int| 0 <= k < record.value.terms@.len() implies #[trigger] record.value.terms@[k]
                        < self.postings@.len() by {
                        assert(old_slots[idx as int] matches Some(r) && r.value.terms@[k] < self.postings@.len());
                    }
                    if !self.bulk_loading {
                        assert forall|t: int| 0 <= t < self.postings@.len() implies sorted_postings(#[trigger] self.postings@[t]@) by {
                            assert(pl[t] == self.postings@[t]@);
                        }
                    }
                }
                self.remove_record_from_index(idx, &record.value);
                proof {
                    let s = self.records.slots();
                    let pl2 = self.posting_lists();
                    assert forall|i: int| 0 <= i < s.len() implies match #[trigger] s[i] {
                        Some(r) => {
                            &&& increasing_terms(r.value.terms@)
                            &&& forall|k: int| 0 <= k < r.value.terms@.len() ==> r.value.terms@[k] < self.postings@.len()
                        },
                        None => true,
                    } by {
                        if i != idx {
                            assert(s[i] == old_slots[i]);
                        }
                    }
                    assert forall|i: int, t: u32| #[trigger] record_has_term(s, i, t) implies t < pl2.len()
                        && has_record(pl2[t as int], i as u32) by {
                        assert(i != idx);
                    }
                    lemma_frequencies_vacant(s, pl2, idx as int);
                }
            },
            None => {},
        }
    }

    /// Removes every record whose external id starts with `prefix`.
    pub fn delete_by_prefix(&mut self, prefix: &str)
        requires
            old(self).wf(),
        ensures
            final(self).wf(),
            final(self).is_bulk_loading() == old(self).is_bulk_loading(),
            final(self).uses_fuzzy_search() == old(self).uses_fuzzy_search(),
            final(self).catalog() == old(self).catalog(),
            prefix_deleted(old(self).slots(), final(self).slots(), prefix@),
            old(self).vacated().len() <= final(self).vacated().len(),
            final(self).vacated().subrange(0, old(self).vacated().len() as int) == old(self).vacated(),
            deleted_each_prefixed(*old(self), *final(self), prefix@),
    {
        proof {
            self.records.lemma_wf();
        }
        let ids = self.records.ids_with_prefix(prefix);
        let n = ids.len();
        let ghost mut chain: Seq<FullTextDatastore> = seq![*self];
        for k in 0..n
            invariant
                n == ids@.len(),
                self.wf(),
                delete_steps(chain, ids.deep_view().take(k as int)),
                chain[0] == *old(self),
                chain.last() == *self,
                old(self).vacated().len() <= self.vacated().len(),
                self.vacated().subrange(0, old(self).vacated().len() as int) == old(self).vacated(),
                self.is_bulk_loading() == old(self).is_bulk_loading(),
                self.uses_fuzzy_search() == old(self).uses_fuzzy_search(),
                self.catalog() == old(self).catalog(),
                self.slots().len() == old(self).slots().len(),
                forall|i: int|
                    0 <= i < self.slots().len() ==> (#[trigger] self.slots()[i] is Some ==> self.slots()[i]
                        == old(self).slots()[i]),
                forall|id: Seq<char>|
                    ids.deep_view().contains(id) <==> (has_id(old(self).slots(), id) && seq_starts_with(id, prefix@)),
                forall|id: Seq<char>|
                    has_id(self.slots(), id) <==> (has_id(old(self).slots(), id) && !ids.deep_view().take(
                        k as int,
                    ).contains(id)),
        {
            let ghost before = self.slots();
            let ghost before_vacated = self.vacated();
            let ghost mid = *self;
            proof {
                self.records.lemma_wf();
            }
            self.delete(ids[k].as_str());
            proof {
                let t1 = ids.deep_view().take(k + 1);
                assert(t1.drop_last() =~= ids.deep_view().take(k as int));
                assert(ids.deep_view()[k as int] == ids@[k as int]@);
                let c2 = chain.push(*self);
                assert forall|j: int| 0 <= j < t1.len() implies full_text_deleted(#[trigger] c2[j], c2[j + 1], t1[j]) by {
                    if j < k {
                        assert(c2[j] == chain[j] && c2[j + 1] == chain[j + 1]);
                        assert(t1[j] == ids.deep_view().take(k as int)[j]);
                    } else {
                        assert(c2[j] == mid);
                    }
                }
                chain = c2;
            }
            proof {
                let ov = old(self).vacated().len() as int;
                assert(self.vacated().subrange(0, ov) =~= before_vacated.subrange(0, ov));
                let key = ids.deep_view()[k as int];
                assert(ids@[k as int]@ == key);
                assert(ids.deep_view().take(k + 1) =~= ids.deep_view().take(k as int).push(key));
                assert forall|i: int| 0 <= i < self.slots().len() implies (#[trigger] self.slots()[i] is Some
                    ==> self.slots()[i] == old(self).slots()[i]) by {
                    if self.slots()[i] is Some {
                        assert(self.slots()[i] == before[i]);
                    }
                }
                assert forall|id: Seq<char>|
                    has_id(self.slots(), id) <==> (has_id(old(self).slots(), id) && !ids.deep_view().take(
                        k + 1,
                    ).contains(id)) by {
                    if id == key {
                        if has_id(self.slots(), id) {
                            let j = choose|j: int| id_at(self.slots(), id, j);
                            if has_id(before, key) {
                                let x = choose|x: int| id_at(before, key, x) && self.slots() == before.update(x, None);
                                assert(j != x);
                                assert(id_at(before, id, j));
                                assert(unique_ids(before));
                            } else {
                                assert(id_at(before, id, j));
                            }
                        }
                        assert(ids.deep_view().take(k + 1)[k as int] == key);
                    } else {
                        if has_id(self.slots(), id) {
                            let j = choose|j: int| id_at(self.slots(), id, j);
                            assert(id_at(before, id, j));
                        }
                        if has_id(before, id) {
                            let j = choose|j: int| id_at(before, id, j);
                            if has_id(before, key) {
                                let x = choose|x: int| id_at(before, key, x) && self.slots() == before.update(x, None);
                                assert(x != j);
                                assert(id_at(self.slots(), id, j));
                            } else {
                                assert(id_at(self.slots(), id, j));
                            }
                        }
                        let tk1 = ids.deep_view().take(k + 1);
                        if tk1.contains(id) {
                            let j = choose|j: int| 0 <= j < tk1.len() && tk1[j] == id;
                            assert(ids.deep_view().take(k as int)[j] == id);
                        }
                    }
                }
            }
        }
        proof {
            assert(ids.deep_view().take(n as int) =~= ids.deep_view());
            assert(delete_steps(chain, ids.deep_view()));
        }
    }

    /// Removes all records, terms, postings, and reusable slots, and turns
    /// fuzzy search back on.
    pub fn clear(&mut self)
        requires
            old(self).wf(),
        ensures
            final(self).wf(),
            final(self).slots().len() == 0,
            final(self).catalog().len() == 0,
            final(self).posting_lists().len() == 0,
            !final(self).is_bulk_loading(),
            final(self).uses_fuzzy_search(),
            final(self).vacated().len() == 0,
    {
        self.records.clear();
        self.term_to_id.clear();
        self.terms.clear();
        self.postings.clear();
        self.total_token_count = 0;
        self.posting_occurrence_count = 0;
        self.bulk_loading = false;
        self.fuzzy_search = true;
        assert(self.posting_lists() =~= Seq::<Seq<Posting>>::empty());
    }

    /// Starts a bulk rebuild: clears the store; records inserted before
    /// `finish_bulk_load` use append-only posting writes.
    pub fn begin_bulk_load(&mut self)
        requires
            old(self).wf(),
        ensures
            final(self).wf(),
            final(self).slots().len() == 0,
            final(self).catalog().len() == 0,
            final(self).posting_lists().len() == 0,
            final(self).is_bulk_loading(),
            final(self).uses_fuzzy_search(),
            final(self).vacated().len() == 0,
    {
        self.clear();
        self.bulk_loading = true;
    }

    /// Finalizes a bulk rebuild by sorting every posting list.
    pub fn finish_bulk_load(&mut self)
        requires
            old(self).wf(),
        ensures
            final(self).wf(),
            full_text_bulk_finished(*old(self), *final(self)),
            !old(self).is_bulk_loading() ==> *final(self) == *old(self),
    {
        if !self.bulk_loading {
            return;
        }
        let n = self.postings.len();
        let ghost pl0 = self.posting_lists();
        let ghost slots = self.slots();
        for t in 0..n
            invariant
                n == self.postings@.len(),
                n == pl0.len(),
                self.records == old(self).records,
                self.terms == old(self).terms,
                self.term_to_id == old(self).term_to_id,
                self.bulk_loading,
                self.fuzzy_search == old(self).fuzzy_search,
                self.total_token_count == old(self).total_token_count,
                self.posting_occurrence_count == old(self).posting_occurrence_count,
                slots == self.slots(),
                pl0 == old(self).posting_lists(),
                forall|u: int| 0 <= u < n ==> unique_postings(#[trigger] self.posting_lists()[u]),
                forall|u: int, p: Posting|
                    0 <= u < n ==> (#[trigger] self.posting_lists()[u].contains(p) <==> pl0[u].contains(p)),
                forall|u: int| 0 <= u < t ==> sorted_postings(#[trigger] self.postings@[u]@),
        {
            let ghost before = self.posting_lists();
            let ghost before_vecs = self.postings@;
            let mut list: Vec<Posting> = Vec::new();
            self.postings.set_and_swap(t, &mut list);
            proof {
                assert(list@ == before[t as int]);
            }
            let sorted = sort_postings(list);
            self.postings.set(t, sorted);
            proof {
                let pl = self.posting_lists();
                assert(pl =~= before.update(t as int, sorted@));
                assert forall|u: int| 0 <= u < n implies unique_postings(#[trigger] pl[u]) by {
                    if u != t {
                        assert(pl[u] == before[u]);
                    }
                }
                assert forall|u: int, p: Posting| 0 <= u < n implies (#[trigger] pl[u].contains(p) <==> pl0[u].contains(p)) by {
                    if u != t {
                        assert(pl[u] == before[u]);
                    } else {
                        assert(before[u].contains(p) <==> pl0[u].contains(p));
                    }
                }
                assert forall|u: int| 0 <= u < t + 1 implies sorted_postings(#[trigger] self.postings@[u]@) by {
                    if u != t {
                        assert(self.postings@[u] == before_vecs[u]);
                    }
                }
            }
        }
        let ghost pl = self.posting_lists();
        proof {
            assert(forall|u: int, p: Posting| 0 <= u < n ==> (#[trigger] pl[u].contains(p) <==> pl0[u].contains(p)));
        }
        self.bulk_loading = false;
        proof {
            assert(pl =~= self.posting_lists());
            assert forall|t: int, k: int|
                0 <= t < pl.len() && 0 <= k < pl[t].len() implies {
                let i = (#[trigger] pl[t][k]).record_idx as int;
                &&& i < slots.len()
                &&& i != -1 ==> record_has_term(slots, i, t as u32)
            } by {
                assert(pl[t].contains(pl[t][k]));
                assert(pl0[t].contains(pl[t][k]));
                let kk = choose|kk: int| 0 <= kk < pl0[t].len() && pl0[t][kk] == pl[t][k];
                assert(pl0[t][kk] == pl[t][k]);
            }
            assert forall|i: int, t: u32| #[trigger] record_has_term(slots, i, t) implies t < pl.len()
                && has_record(pl[t as int], i as u32) by {
                let kk = choose|kk: int| 0 <= kk < pl0[t as int].len() && (#[trigger] pl0[t as int][kk]).record_idx == i as u32;
                assert(pl0[t as int].contains(pl0[t as int][kk]));
                assert(pl[t as int].contains(pl0[t as int][kk]));
                let k2 = choose|k2: int| 0 <= k2 < pl[t as int].len() && pl[t as int][k2] == pl0[t as int][kk];
                assert(pl[t as int][k2].record_idx == i as u32);
            }
            assert forall|u: int| 0 <= u < n implies sorted_postings(#[trigger] self.postings@[u]@) by {}
            assert forall|u: int, p: Posting| 0 <= u < pl0.len() && #[trigger] pl[u].contains(p) implies pl0[u].contains(p)
                || p.record_idx as int == -1 by {}
            lemma_frequencies_kept(slots, pl0, pl, -1);
        }
    }

    /// Builds a health snapshot used by tests and diagnostics.
    pub fn health(&self) -> (r: StoreHealth)
        requires
            self.wf(),
        ensures
            full_text_health(*self, r),
            r.posting_occurrences == self.token_total(),
    {
        proof {
            self.lemma_vacated();
        }
        StoreHealth::new(
            "fullText",
            self.records.live_record_count(),
            self.records.tombstone_count(),
            self.records.record_ids(),
            self.postings.len(),
            self.posting_occurrence_count,
        )
    }

    /// Looks a term text up in the catalog.
    pub fn lookup_term(&self, key: &str) -> (r: Option<u32>)
        requires
            self.wf(),
        ensures
            match r {
                Some(id) => id < self.catalog().len() && self.catalog()[id as int] == key@,
                None => !self.catalog().contains(key@),
            },
    {
        match self.term_to_id.get(key) {
            Some(id) => Some(*id),
            None => {
                proof {
                    if self.catalog().contains(key@) {
                        let i = choose|i: int| 0 <= i < self.catalog().len() && self.catalog()[i] == key@;
                        assert(self.terms@[i].text@ == key@);
                    }
                }
                None
            },
        }
    }

    /// Number of postings of term `t`.
    pub fn posting_count(&self, t: usize) -> (r: usize)
        requires
            self.wf(),
            t < self.posting_lists().len(),
        ensures
            r == self.posting_lists()[t as int].len(),
    {
        self.postings[t].len()
    }

    /// The matcher form of catalog term `t`.
    pub fn term_matcher_text(&self, t: usize) -> (r: &NumberedString)
        requires
            self.wf(),
            t < self.catalog().len(),
        ensures
            r@ == self.catalog()[t as int],
            r@.len() <= u32::MAX,
    {
        &self.terms[t].matcher_text
    }

    /// The text of catalog term `t`.
    pub fn term_text(&self, t: usize) -> (r: &String)
        requires
            t < self.catalog().len(),
        ensures
            r@ == self.catalog()[t as int],
    {
        &self.terms[t].text
    }

    /// The posting list of term `t`.
    pub fn postings_of(&self, t: usize) -> (r: &Vec<Posting>)
        requires
            t < self.posting_lists().len(),
        ensures
            r@ == self.posting_lists()[t as int],
    {
        &self.postings[t]
    }

    /// The record in slot `idx`, if that slot is live.
    pub fn record_at(&self, idx: usize) -> (r: Option<&StoredRecord<FullTextRecord>>)
        ensures
            match r {
                Some(rec) => idx < self.slots().len() && self.slots()[idx as int] == Some(*rec),
                None => idx >= self.slots().len() || self.slots()[idx as int] is None,
            },
    {
        self.records.get(idx)
    }

    /// Number of slots, live or vacant.
    pub fn slot_count(&self) -> (r: usize)
        ensures
            r == self.slots().len(),
    {
        self.records.slot_count()
    }

    /// Number of live records.
    pub fn live_record_count(&self) -> (r: usize)
        requires
            self.wf(),
        ensures
            r == crate::record_table::live_count(self.slots()),
    {
        self.records.live_record_count()
    }

    /// Sum of the token counts of the live records.
    pub fn total_token_count(&self) -> (r: usize)
        requires
            self.wf(),
        ensures
            r == self.token_total(),
            r == token_sum(self.slots()),
    {
        self.total_token_count
    }

    /// Whether adding `text` fits the index's integer types (see
    /// `upsert_fits`); beyond them an upsert would overflow a record index,
    /// a term id or a token count.
    pub fn can_upsert(&self, text: &str) -> (r: bool)
        requires
            self.wf(),
        ensures
            r == upsert_fits(*self, text@),
    {
        let chars = crate::text::chars_of(text);
        let n = chars.len();
        if n as u64 > 0xffff_ffffu64 {
            return false;
        }
        if self.slot_count() as u64 > 0xffff_ffffu64 {
            return false;
        }
        let terms = tokenize_terms(text);
        let nt = terms.len();
        if self.total_token_count().checked_add(nt).is_none() {
            return false;
        }
        let ghost words = terms.deep_view();
        let ghost catalog = self.catalog();
        proof {
            self.lemma_store_facts();
        }
        let mut fresh: StringHashMap<usize> = StringHashMap::new();
        let mut fresh_count: usize = 0;
        for k in 0..nt
            invariant
                nt == terms.deep_view().len(),
                words == terms.deep_view(),
                words == term_texts(text@),
                self.wf(),
                catalog == self.catalog(),
                forall|j: int| 0 <= j < k ==> (#[trigger] words[j]).len() <= u32::MAX,
                fresh_count == new_terms(words.take(k as int), catalog).len(),
                forall|w: Seq<char>| #[trigger] fresh@.contains_key(w) <==> new_terms(words.take(k as int), catalog).contains(w),
                fresh_count <= k,
        {
            let term_chars = crate::text::chars_of(terms[k].as_str());
            proof {
                assert(words[k as int] == terms@[k as int]@);
                let tk = words.take(k + 1);
                assert(tk.drop_last() =~= words.take(k as int));
                assert(tk.last() == words[k as int]);
            }
            if term_chars.len() as u64 > 0xffff_ffffu64 {
                proof {
                    assert(term_texts(text@).contains(words[k as int]));
                }
                return false;
            }
            let known = match self.lookup_term(terms[k].as_str()) {
                Some(_) => true,
                None => false,
            };
            if !known && !fresh.contains_key(terms[k].as_str()) {
                fresh.insert(terms[k].clone(), k);
                fresh_count = fresh_count + 1;
            }
            proof {
                let prev = new_terms(words.take(k as int), catalog);
                let cur = new_terms(words.take(k + 1), catalog);
                let w = words[k as int];
                assert forall|v: Seq<char>| #[trigger] fresh@.contains_key(v) <==> cur.contains(v) by {
                    if cur.contains(v) && v != w {
                        assert(prev.contains(v)) by {
                            if !(catalog.contains(w) || prev.contains(w)) {
                                let j = choose|j: int| 0 <= j < cur.len() && cur[j] == v;
                                assert(j < prev.len());
                                assert(prev[j] == v);
                            }
                        }
                    }
                    if prev.contains(v) && !(catalog.contains(w) || prev.contains(w)) {
                        let j = choose|j: int| 0 <= j < prev.len() && prev[j] == v;
                        assert(cur[j] == v);
                    }
                    if v == w && !(catalog.contains(w) || prev.contains(w)) {
                        assert(cur[prev.len() as int] == w);
                    }
                }
            }
        }
        proof {
            assert(words.take(nt as int) =~= words);
            assert forall|w: Seq<char>| term_texts(text@).contains(w) implies w.len() <= u32::MAX by {
                let j = choose|j: int| 0 <= j < term_texts(text@).len() && term_texts(text@)[j] == w;
                assert(words[j] == w);
            }
        }
        let tc = self.term_count() as u64;
        assert(tc <= 0x1_0000_0000u64);
        fresh_count as u64 <= 0x1_0000_0000u64 - tc
    }

    /// Whether a bulk load is in progress.
    pub fn bulk_loading_in_progress(&self) -> (r: bool)
        ensures
            r == self.is_bulk_loading(),
    {
        self.bulk_loading
    }

    /// Whether queries are expanded by fuzzy matching.
    pub fn fuzzy_search_enabled(&self) -> (r: bool)
        ensures
            r == self.uses_fuzzy_search(),
    {
        self.fuzzy_search
    }

    /// Number of terms in the catalog.
    pub fn term_count(&self) -> (r: usize)
        ensures
            r == self.catalog().len(),
    {
        self.terms.len()
    }

    /// The chars of catalog term `i`.
    pub fn term_chars(&self, i: usize) -> (r: Vec<char>)
        requires
            i < self.catalog().len(),
        ensures
            r@ == self.catalog()[i as int],
    {
        crate::text::chars_of(self.terms[i].text.as_str())
    }

    /// Sets whether fuzzy matching is used during search.
    pub fn set_fuzzy_search(&mut self, enabled: bool)
        requires
            old(self).wf(),
        ensures
            final(self).wf(),
            final(self).uses_fuzzy_search() == enabled,
            final(self).slots() == old(self).slots(),
            final(self).catalog() == old(self).catalog(),
            final(self).posting_lists() == old(self).posting_lists(),
            final(self).is_bulk_loading() == old(self).is_bulk_loading(),
    {
        self.fuzzy_search = enabled;
    }
}

} // verus!
