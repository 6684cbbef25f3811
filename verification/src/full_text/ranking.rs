//! Ranking of full-text matches: the records that every positive atom
//! reaches and no negative atom does, their combined scores, the best of
//! them in a stable order, and the catalog terms each one matched.
//!
//! The per-atom relevance scores are computed outside this module (they are
//! floating-point BM25 and fuzzy blends); ranking takes them as
//! (record index, score) pairs per positive atom.
use crate::full_text::postings::{has_record, Posting};
use crate::full_text::query::{
    has_term_id, query_atoms, resolved_exactly, resolved_fuzzily, ExpandedTerm, ResolvedQuery,
};
use crate::full_text::store::{record_has_term, FullTextDatastore, FullTextSlots};
use crate::fuzzy::{increasing_u32, sort_dedup_u32};
use crate::record_table::StoredRecord;
use crate::search_result::StoreSearchResult;
use crate::full_text::store::{increasing_terms, FullTextRecord};
use crate::text::{
    insert_sorted_unique, lemma_insert_to_multiset, lemma_seq_lt_asymmetric, str_lt, lemma_seq_lt_total, lemma_seq_lt_transitive, seq_lt,
    strictly_sorted_seqs,
};
use crate::top_scores::{is_top_k, lemma_push_top_score_keeps_top_k, ScoredIndex};
use vstd::prelude::*;

verus! {

broadcast use vstd::seq_lib::group_seq_properties;

/// Some term of `group` is in the record of slot `i`.
pub open spec fn group_hits(slots: FullTextSlots, group: Seq<ExpandedTerm>, i: int) -> bool {
    exists|k: int| 0 <= k < group.len() && #[trigger] record_has_term(slots, i, group[k].term_id)
}

/// Some term among the first `k` of `group` is in the record of slot `i`.
pub open spec fn hits_upto(slots: FullTextSlots, group: Seq<ExpandedTerm>, k: int, i: int) -> bool {
    exists|j: int| 0 <= j < k && #[trigger] record_has_term(slots, i, group[j].term_id)
}

/// Some negative group reaches the record of slot `i`: a negated atom
/// rejects it.
pub open spec fn excluded(slots: FullTextSlots, neg: Seq<Vec<ExpandedTerm>>, i: int) -> bool {
    exists|g: int| 0 <= g < neg.len() && #[trigger] group_hits(slots, neg[g]@, i)
}

/// Some of the first `g` negative groups reaches the record of slot `i`.
pub open spec fn excluded_upto(slots: FullTextSlots, neg: Seq<Vec<ExpandedTerm>>, g: int, i: int) -> bool {
    exists|h: int| 0 <= h < g && #[trigger] group_hits(slots, neg[h]@, i)
}

/// Some of the first `p` postings names record `i`.
pub open spec fn posted_upto(pl: Seq<Posting>, p: int, i: int) -> bool {
    exists|q: int| 0 <= q < p && (#[trigger] pl[q]).record_idx == i
}

/// Whether the strictly increasing `terms` contains `t` (binary search).
pub fn contains_sorted(terms: &Vec<u32>, t: u32) -> (r: bool)
    requires
        increasing_u32(terms@),
    ensures
        r == terms@.contains(t),
{
    let mut lo: usize = 0;
    let mut hi: usize = terms.len();
    while lo < hi
        invariant
            lo <= hi <= terms@.len(),
            increasing_u32(terms@),
            forall|k: int| 0 <= k < lo ==> #[trigger] terms@[k] < t,
            forall|k: int| hi <= k < terms@.len() ==> #[trigger] terms@[k] > t,
        decreases hi - lo,
    {
        let mid = lo + (hi - lo) / 2;
        if terms[mid] < t {
            lo = mid + 1;
        } else if terms[mid] > t {
            hi = mid;
        } else {
            assert(terms@[mid as int] == t);
            return true;
        }
    }
    proof {
        if terms@.contains(t) {
            let k = choose|k: int| 0 <= k < terms@.len() && terms@[k] == t;
            assert(terms@[k] == t);
        }
    }
    false
}

impl FullTextDatastore {
    /// Marks, by slot, the records that a negated query atom rejects: those
    /// containing a term of some negative group.
    pub fn excluded_records(&self, negative_groups: &Vec<Vec<ExpandedTerm>>) -> (r: Vec<bool>)
        requires
            self.wf(),
        ensures
            r@.len() == self.slots().len(),
            forall|i: int| 0 <= i < r@.len() ==> (r@[i] <==> excluded(self.slots(), negative_groups@, i)),
    {
        proof {
            self.lemma_store_facts();
            self.lemma_record_terms();
            assert(index_facts(self));
        }
        let n = self.slot_count();
        let mut r: Vec<bool> = Vec::new();
        for i in 0..n
            invariant
                r@.len() == i,
                forall|j: int| 0 <= j < i ==> !r@[j],
        {
            r.push(false);
        }
        let slots = Ghost(self.slots());
        let neg = Ghost(negative_groups@);
        let ng = negative_groups.len();
        for g in 0..ng
            invariant
                self.wf(),
                ng == neg@.len(),
                neg@ == negative_groups@,
                slots@ == self.slots(),
                n == slots@.len(),
                r@.len() == n,
                index_facts(self),
                forall|i: int| 0 <= i < n ==> (r@[i] <==> excluded_upto(slots@, neg@, g as int, i)),
        {
            let group = &negative_groups[g];
            let nk = group.len();
            for k in 0..nk
                invariant
                    self.wf(),
                    nk == group@.len(),
                    group@ == neg@[g as int]@,
                    slots@ == self.slots(),
                    n == slots@.len(),
                    r@.len() == n,
                    index_facts(self),
                    forall|i: int|
                        0 <= i < n ==> (r@[i] <==> (excluded_upto(slots@, neg@, g as int, i) || hits_upto(
                            slots@,
                            group@,
                            k as int,
                            i,
                        ))),
            {
                let t = group[k].term_id;
                let ghost before = r@;
                if (t as usize) < self.term_count() {
                    let postings = self.postings_of(t as usize);
                    let np = postings.len();
                    let mut p: usize = 0;
                    while p < np
                        invariant
                            p <= np,
                            np == postings@.len(),
                            postings@ == self.posting_lists()[t as int],
                            t < self.posting_lists().len(),
                            slots@ == self.slots(),
                            n == slots@.len(),
                            r@.len() == n,
                            before.len() == n,
                            index_facts(self),
                            forall|i: int|
                                0 <= i < n ==> (r@[i] <==> (before[i] || posted_upto(postings@, p as int, i))),
                        decreases np - p,
                    {
                        let ri = postings[p].record_idx as usize;
                        proof {
                            assert(self.posting_lists()[t as int][p as int] == postings@[p as int]);
                        }
                        let ghost prev = r@;
                        r.set(ri, true);
                        proof {
                            assert(r@ == prev.update(ri as int, true));
                            assert forall|i: int|
                                0 <= i < n implies (r@[i] <==> (before[i] || posted_upto(postings@, p + 1, i))) by {
                                if i == ri {
                                    assert(postings@[p as int].record_idx == i);
                                } else {
                                    assert(r@[i] == prev[i]);
                                    assert(prev[i] <==> (before[i] || posted_upto(postings@, p as int, i)));
                                }
                                if posted_upto(postings@, p as int, i) {
                                    let q = choose|q: int| 0 <= q < p && (#[trigger] postings@[q]).record_idx == i;
                                    assert(0 <= q < p + 1 && postings@[q].record_idx == i);
                                }
                                if posted_upto(postings@, p + 1, i) && !posted_upto(postings@, p as int, i) {
                                    let q = choose|q: int| 0 <= q < p + 1 && (#[trigger] postings@[q]).record_idx == i;
                                    assert(q == p);
                                }
                            }
                        }
                        let ghost pp = p;
                        p = p + 1;
                        proof {
                            assert(p as int == pp + 1);
                            assert forall|i: int| 0 <= i < n implies (r@[i] <==> (before[i] || posted_upto(postings@, p as int, i))) by {
                                assert(r@[i] <==> (before[i] || posted_upto(postings@, pp + 1, i)));
                            }
                        }
                    }
                    proof {
                        assert forall|i: int|
                            0 <= i < n implies (r@[i] <==> (excluded_upto(slots@, neg@, g as int, i) || hits_upto(
                                slots@,
                                group@,
                                k + 1,
                                i,
                            ))) by {
                            assert(before[i] <==> (excluded_upto(slots@, neg@, g as int, i) || hits_upto(slots@, group@, k as int, i)));
                            assert(r@[i] <==> (before[i] || posted_upto(postings@, np as int, i)));
                            if posted_upto(postings@, np as int, i) {
                                let q = choose|q: int| 0 <= q < np && (#[trigger] postings@[q]).record_idx == i;
                                assert(self.posting_lists()[t as int][q] == postings@[q]);
                                assert(record_has_term(slots@, i, group@[k as int].term_id));
                            }
                            if record_has_term(slots@, i, t) {
                                assert(has_record(self.posting_lists()[t as int], i as u32));
                                let q = choose|q: int|
                                    0 <= q < self.posting_lists()[t as int].len() && (#[trigger] self.posting_lists()[t as int][q]).record_idx
                                        == i as u32;
                                assert(postings@[q].record_idx == i);
                            }
                            lemma_hits_step(slots@, group@, k as int, i);
                        }
                    }
                } else {
                    proof {
                        assert forall|i: int|
                            0 <= i < n implies (r@[i] <==> (excluded_upto(slots@, neg@, g as int, i) || hits_upto(
                                slots@,
                                group@,
                                k + 1,
                                i,
                            ))) by {
                            lemma_hits_step(slots@, group@, k as int, i);
                            if record_has_term(slots@, i, t) {
                                assert(slots@[i] matches Some(rec) && rec.value.terms@.contains(t));
                            }
                        }
                    }
                }
            }
            proof {
                assert forall|i: int|
                    0 <= i < n implies (r@[i] <==> excluded_upto(slots@, neg@, g + 1, i)) by {
                    if hits_upto(slots@, group@, nk as int, i) {
                        let j = choose|j: int| 0 <= j < nk && #[trigger] record_has_term(slots@, i, group@[j].term_id);
                        assert(group_hits(slots@, neg@[g as int]@, i));
                    }
                    if group_hits(slots@, neg@[g as int]@, i) {
                        let j = choose|j: int|
                            0 <= j < group@.len() && #[trigger] record_has_term(slots@, i, group@[j].term_id);
                        assert(hits_upto(slots@, group@, nk as int, i));
                    }
                    if excluded_upto(slots@, neg@, g + 1, i) && !group_hits(slots@, neg@[g as int]@, i) {
                        let h = choose|h: int| 0 <= h < g + 1 && #[trigger] group_hits(slots@, neg@[h]@, i);
                        assert(h < g);
                    }
                    if excluded_upto(slots@, neg@, g as int, i) {
                        let h = choose|h: int| 0 <= h < g && #[trigger] group_hits(slots@, neg@[h]@, i);
                        assert(0 <= h < g + 1);
                    }
                }
            }
        }
        r
    }
}

impl FullTextDatastore {
    /// The slots of the records that contain some term of `group`, in
    /// increasing order: the candidates a positive query atom scores.
    pub fn group_records(&self, group: &Vec<ExpandedTerm>) -> (r: Vec<u32>)
        requires
            self.wf(),
        ensures
            increasing_u32(r@),
            forall|i: u32| r@.contains(i) <==> group_hits(self.slots(), group@, i as int),
    {
        proof {
            self.lemma_store_facts();
            self.lemma_record_terms();
            assert(index_facts(self));
        }
        let slots = Ghost(self.slots());
        let mut all: Vec<u32> = Vec::new();
        let nk = group.len();
        for k in 0..nk
            invariant
                nk == group@.len(),
                slots@ == self.slots(),
                index_facts(self),
                forall|i: u32| all@.contains(i) <==> hits_upto(slots@, group@, k as int, i as int),
        {
            let t = group[k].term_id;
            let ghost before = all@;
            if (t as usize) < self.term_count() {
                let postings = self.postings_of(t as usize);
                let np = postings.len();
                let mut p: usize = 0;
                while p < np
                    invariant
                        p <= np,
                        np == postings@.len(),
                        postings@ == self.posting_lists()[t as int],
                        t < self.posting_lists().len(),
                        slots@ == self.slots(),
                        index_facts(self),
                        forall|i: u32| all@.contains(i) <==> (before.contains(i) || posted_upto(postings@, p as int, i as int)),
                    decreases np - p,
                {
                    let ri = postings[p].record_idx;
                    let ghost prev = all@;
                    all.push(ri);
                    proof {
                        assert(all@ == prev.push(ri));
                        assert forall|i: u32| all@.contains(i) <==> (before.contains(i) || posted_upto(postings@, p + 1, i as int)) by {
                            if i == ri {
                                assert(postings@[p as int].record_idx == i);
                                assert(all@[all@.len() - 1] == i);
                            } else {
                                assert(prev.contains(i) <==> (before.contains(i) || posted_upto(postings@, p as int, i as int)));
                                if all@.contains(i) {
                                    let j = choose|j: int| 0 <= j < all@.len() && all@[j] == i;
                                    assert(j < prev.len());
                                    assert(prev[j] == i);
                                }
                                if prev.contains(i) {
                                    let j = choose|j: int| 0 <= j < prev.len() && prev[j] == i;
                                    assert(all@[j] == i);
                                }
                            }
                            if posted_upto(postings@, p as int, i as int) {
                                let q = choose|q: int| 0 <= q < p && (#[trigger] postings@[q]).record_idx == i as int;
                                assert(0 <= q < p + 1 && postings@[q].record_idx == i);
                            }
                            if posted_upto(postings@, p + 1, i as int) && !posted_upto(postings@, p as int, i as int) {
                                let q = choose|q: int| 0 <= q < p + 1 && (#[trigger] postings@[q]).record_idx == i as int;
                                assert(q == p);
                            }
                        }
                    }
                    let ghost pp = p;
                    p = p + 1;
                    proof {
                        assert forall|i: u32| all@.contains(i) <==> (before.contains(i) || posted_upto(postings@, p as int, i as int)) by {
                            assert(all@.contains(i) <==> (before.contains(i) || posted_upto(postings@, pp + 1, i as int)));
                        }
                    }
                }
                proof {
                    assert forall|i: u32| all@.contains(i) <==> hits_upto(slots@, group@, k + 1, i as int) by {
                        assert(before.contains(i) <==> hits_upto(slots@, group@, k as int, i as int));
                        assert(all@.contains(i) <==> (before.contains(i) || posted_upto(postings@, np as int, i as int)));
                        if posted_upto(postings@, np as int, i as int) {
                            let q = choose|q: int| 0 <= q < np && (#[trigger] postings@[q]).record_idx == i as int;
                            assert(self.posting_lists()[t as int][q] == postings@[q]);
                            assert(record_has_term(slots@, i as int, group@[k as int].term_id));
                        }
                        if record_has_term(slots@, i as int, t) {
                            assert(has_record(self.posting_lists()[t as int], i));
                            let q = choose|q: int|
                                0 <= q < self.posting_lists()[t as int].len() && (#[trigger] self.posting_lists()[t as int][q]).record_idx
                                    == i;
                            assert(postings@[q].record_idx == i);
                        }
                        lemma_hits_step(slots@, group@, k as int, i as int);
                    }
                }
            } else {
                proof {
                    assert forall|i: u32| all@.contains(i) <==> hits_upto(slots@, group@, k + 1, i as int) by {
                        lemma_hits_step(slots@, group@, k as int, i as int);
                        if record_has_term(slots@, i as int, t) {
                            assert(slots@[i as int] matches Some(rec) && rec.value.terms@.contains(t));
                        }
                    }
                }
            }
        }
        let r = sort_dedup_u32(&all);
        proof {
            assert forall|i: u32| r@.contains(i) <==> group_hits(self.slots(), group@, i as int) by {
                assert(r@.to_set().contains(i) <==> all@.to_set().contains(i));
                if hits_upto(slots@, group@, nk as int, i as int) {
                    let j = choose|j: int| 0 <= j < nk && #[trigger] record_has_term(slots@, i as int, group@[j].term_id);
                }
                if group_hits(slots@, group@, i as int) {
                    let j = choose|j: int| 0 <= j < group@.len() && #[trigger] record_has_term(slots@, i as int, group@[j].term_id);
                    assert(hits_upto(slots@, group@, nk as int, i as int));
                }
            }
        }
        r
    }
}

/// Term `t` is held by one of the first `g` groups, or by one of the first
/// `k` terms of group `g`.
pub open spec fn term_seen(pos: Seq<Vec<ExpandedTerm>>, g: int, k: int, t: u32) -> bool {
    ||| exists|h: int| 0 <= h < g && #[trigger] has_term_id(pos[h]@, t)
    ||| (g < pos.len() && has_term_id(pos[g]@.take(k), t))
}

/// The catalog text of a record term that a positive group holds.
pub open spec fn is_matched_text(
    w: Seq<char>,
    terms: Seq<u32>,
    catalog: Seq<Seq<char>>,
    pos: Seq<Vec<ExpandedTerm>>,
    g: int,
    k: int,
) -> bool {
    exists|t: u32|
        terms.contains(t) && t < catalog.len() && #[trigger] catalog[t as int] == w && term_seen(pos, g, k, t)
}

/// `m` lists, sorted and without repeats, the catalog texts of the record
/// terms that some positive group holds.
pub open spec fn matched_terms_of(
    m: Seq<Seq<char>>,
    terms: Seq<u32>,
    catalog: Seq<Seq<char>>,
    pos: Seq<Vec<ExpandedTerm>>,
) -> bool {
    &&& strictly_sorted_seqs(m)
    &&& forall|w: Seq<char>| m.contains(w) <==> is_matched_text(w, terms, catalog, pos, pos.len() as int, 0)
}

/// Seeing one more term of group `g`.
proof fn lemma_term_seen_step(pos: Seq<Vec<ExpandedTerm>>, g: int, k: int, t: u32)
    requires
        0 <= g < pos.len(),
        0 <= k < pos[g]@.len(),
    ensures
        term_seen(pos, g, k + 1, t) <==> (term_seen(pos, g, k, t) || pos[g]@[k].term_id == t),
{
    let gr = pos[g]@;
    assert(gr.take(k + 1) =~= gr.take(k).push(gr[k]));
    if has_term_id(gr.take(k + 1), t) && gr[k].term_id != t {
        let j = choose|j: int| 0 <= j < k + 1 && #[trigger] gr.take(k + 1)[j].term_id == t;
        assert(gr.take(k)[j].term_id == t);
    }
    if has_term_id(gr.take(k), t) {
        let j = choose|j: int| 0 <= j < k && #[trigger] gr.take(k)[j].term_id == t;
        assert(gr.take(k + 1)[j].term_id == t);
    }
    if gr[k].term_id == t {
        assert(gr.take(k + 1)[k].term_id == t);
    }
}

/// Finishing group `g`: all its terms seen is the same as none of group
/// `g + 1` seen.
proof fn lemma_term_seen_next_group(pos: Seq<Vec<ExpandedTerm>>, g: int, t: u32)
    requires
        0 <= g < pos.len(),
    ensures
        term_seen(pos, g, pos[g]@.len() as int, t) <==> term_seen(pos, g + 1, 0, t),
{
    let gr = pos[g]@;
    assert(gr.take(gr.len() as int) =~= gr);
    if g + 1 < pos.len() {
        assert(pos[g + 1]@.take(0).len() == 0);
    }
    if term_seen(pos, g + 1, 0, t) {
        if !has_term_id(gr, t) {
            let h = choose|h: int| 0 <= h < g + 1 && #[trigger] has_term_id(pos[h]@, t);
            assert(h < g);
        }
    }
}

impl FullTextDatastore {
    /// The catalog texts of the record's terms that some positive group
    /// holds, sorted and without repeats.
    pub fn matched_terms_for_record(&self, record_terms: &Vec<u32>, positive_groups: &Vec<Vec<ExpandedTerm>>) -> (r: Vec<String>)
        requires
            increasing_u32(record_terms@),
        ensures
            matched_terms_of(r.deep_view(), record_terms@, self.catalog(), positive_groups@),
    {
        let ghost terms = record_terms@;
        let ghost catalog = self.catalog();
        let ghost pos = positive_groups@;
        let mut matched: Vec<String> = Vec::new();
        let ng = positive_groups.len();
        for g in 0..ng
            invariant
                ng == pos.len(),
                pos == positive_groups@,
                terms == record_terms@,
                catalog == self.catalog(),
                increasing_u32(terms),
                strictly_sorted_seqs(matched.deep_view()),
                forall|w: Seq<char>| matched.deep_view().contains(w) <==> is_matched_text(w, terms, catalog, pos, g as int, 0),
        {
            let group = &positive_groups[g];
            let nk = group.len();
            for k in 0..nk
                invariant
                    ng == pos.len(),
                    g < ng,
                    nk == group@.len(),
                    group@ == pos[g as int]@,
                    terms == record_terms@,
                    catalog == self.catalog(),
                    increasing_u32(terms),
                    strictly_sorted_seqs(matched.deep_view()),
                    forall|w: Seq<char>|
                        matched.deep_view().contains(w) <==> is_matched_text(w, terms, catalog, pos, g as int, k as int),
            {
                let t = group[k].term_id;
                let ghost before = matched.deep_view();
                proof {
                    assert forall|t2: u32| term_seen(pos, g as int, k + 1, t2) <==> (term_seen(pos, g as int, k as int, t2) || t2 == t) by {
                        lemma_term_seen_step(pos, g as int, k as int, t2);
                    }
                }
                if contains_sorted(record_terms, t) && (t as usize) < self.term_count() {
                    let text = self.term_text(t as usize).clone();
                    insert_sorted_unique(&mut matched, text);
                    proof {
                        assert forall|w: Seq<char>|
                            matched.deep_view().contains(w) <==> is_matched_text(w, terms, catalog, pos, g as int, k + 1) by {
                            assert(matched.deep_view().to_set().contains(w) <==> before.to_set().insert(catalog[t as int]).contains(w));
                            if is_matched_text(w, terms, catalog, pos, g as int, k + 1) {
                                let t2 = choose|t2: u32|
                                    terms.contains(t2) && t2 < catalog.len() && #[trigger] catalog[t2 as int] == w && term_seen(pos, g as int, k + 1, t2);
                                if t2 != t {
                                    assert(is_matched_text(w, terms, catalog, pos, g as int, k as int));
                                }
                            }
                            if before.contains(w) {
                                let t2 = choose|t2: u32|
                                    terms.contains(t2) && t2 < catalog.len() && #[trigger] catalog[t2 as int] == w && term_seen(pos, g as int, k as int, t2);
                                assert(term_seen(pos, g as int, k + 1, t2));
                            }
                            if w == catalog[t as int] {
                                lemma_term_seen_step(pos, g as int, k as int, t);
                                assert(term_seen(pos, g as int, k + 1, t));
                            }
                        }
                    }
                } else {
                    proof {
                        assert forall|w: Seq<char>|
                            matched.deep_view().contains(w) <==> is_matched_text(w, terms, catalog, pos, g as int, k + 1) by {
                            if is_matched_text(w, terms, catalog, pos, g as int, k + 1) {
                                let t2 = choose|t2: u32|
                                    terms.contains(t2) && t2 < catalog.len() && #[trigger] catalog[t2 as int] == w && term_seen(pos, g as int, k + 1, t2);
                                assert(t2 != t);
                                assert(is_matched_text(w, terms, catalog, pos, g as int, k as int));
                            }
                            if before.contains(w) {
                                let t2 = choose|t2: u32|
                                    terms.contains(t2) && t2 < catalog.len() && #[trigger] catalog[t2 as int] == w && term_seen(pos, g as int, k as int, t2);
                                assert(term_seen(pos, g as int, k + 1, t2));
                            }
                        }
                    }
                }
            }
            proof {
                assert forall|w: Seq<char>|
                    matched.deep_view().contains(w) <==> is_matched_text(w, terms, catalog, pos, g + 1, 0) by {
                    assert forall|t2: u32| term_seen(pos, g as int, nk as int, t2) <==> term_seen(pos, g + 1, 0, t2) by {
                        lemma_term_seen_next_group(pos, g as int, t2);
                    }
                    if is_matched_text(w, terms, catalog, pos, g + 1, 0) {
                        let t2 = choose|t2: u32|
                            terms.contains(t2) && t2 < catalog.len() && #[trigger] catalog[t2 as int] == w && term_seen(pos, g + 1, 0, t2);
                        assert(term_seen(pos, g as int, nk as int, t2));
                    }
                    if is_matched_text(w, terms, catalog, pos, g as int, nk as int) {
                        let t2 = choose|t2: u32|
                            terms.contains(t2) && t2 < catalog.len() && #[trigger] catalog[t2 as int] == w && term_seen(pos, g as int, nk as int, t2);
                        assert(term_seen(pos, g + 1, 0, t2));
                    }
                }
            }
        }
        matched
    }
}

/// Record indices strictly increase along the (record index, score) pairs.
pub open spec fn increasing_pairs(p: Seq<(u32, u32)>) -> bool {
    forall|i: int, j: int| 0 <= i < j < p.len() ==> (#[trigger] p[i]).0 < (#[trigger] p[j]).0
}

/// Some pair is for record `i`.
pub open spec fn has_pair(p: Seq<(u32, u32)>, i: u32) -> bool {
    exists|k: int| 0 <= k < p.len() && (#[trigger] p[k]).0 == i
}

/// The score paired with record `i`, or zero when there is none.
pub open spec fn pair_score(p: Seq<(u32, u32)>, i: u32) -> nat {
    if has_pair(p, i) {
        p[choose|k: int| 0 <= k < p.len() && (#[trigger] p[k]).0 == i].1 as nat
    } else {
        0
    }
}

/// Every group has a pair for record `i`.
pub open spec fn in_all(groups: Seq<Vec<(u32, u32)>>, i: u32) -> bool {
    forall|g: int| 0 <= g < groups.len() ==> #[trigger] has_pair(groups[g]@, i)
}

/// Sum of the scores of record `i` in the first `n` groups.
pub open spec fn score_sum(groups: Seq<Vec<(u32, u32)>>, i: u32, n: int) -> nat
    decreases n,
{
    if n <= 0 {
        0
    } else {
        score_sum(groups, i, n - 1) + pair_score(groups[n - 1]@, i)
    }
}

/// Combined score of record `i`: the sum of its scores over all groups.
pub open spec fn total_score(groups: Seq<Vec<(u32, u32)>>, i: u32) -> nat {
    score_sum(groups, i, groups.len() as int)
}

/// Every positive atom counts in the combined score: adding one more
/// group of scores adds that group's score for the record, and a record
/// scores as much as the scores its groups give it.
pub proof fn lemma_total_score_adds_groups(groups: Seq<Vec<(u32, u32)>>, v: Vec<(u32, u32)>, i: u32)
    ensures
        total_score(groups.push(v), i) == total_score(groups, i) + pair_score(v@, i),
        forall|g: int| 0 <= g < groups.len() ==> pair_score(#[trigger] groups[g]@, i) <= total_score(groups, i),
{
    lemma_score_sum_prefix(groups, v, i, groups.len() as int);
    assert(groups.push(v)[groups.len() as int] == v);
    assert forall|g: int| 0 <= g < groups.len() implies pair_score(#[trigger] groups[g]@, i) <= total_score(groups, i) by {
        lemma_score_sum_has(groups, i, g, groups.len() as int);
    }
}

/// Appending a group leaves the sums over the first `n` groups alone.
proof fn lemma_score_sum_prefix(groups: Seq<Vec<(u32, u32)>>, v: Vec<(u32, u32)>, i: u32, n: int)
    requires
        n <= groups.len(),
    ensures
        score_sum(groups.push(v), i, n) == score_sum(groups, i, n),
    decreases n,
{
    if n > 0 {
        lemma_score_sum_prefix(groups, v, i, n - 1);
        assert(groups.push(v)[n - 1] == groups[n - 1]);
    }
}

/// The sum over the first `n` groups includes the score of each of them.
proof fn lemma_score_sum_has(groups: Seq<Vec<(u32, u32)>>, i: u32, g: int, n: int)
    requires
        0 <= g < n,
    ensures
        pair_score(groups[g]@, i) <= score_sum(groups, i, n),
    decreases n,
{
    if g < n - 1 {
        lemma_score_sum_has(groups, i, g, n - 1);
    }
    if n > 0 {
        lemma_score_sum_monotone(groups, i, 0, n - 1);
    }
}

/// The first of the first `n` groups with the fewest pairs.
pub open spec fn smallest_group(groups: Seq<Vec<(u32, u32)>>, n: int) -> int
    decreases n,
{
    if n <= 1 {
        0
    } else {
        let m = smallest_group(groups, n - 1);
        if groups[n - 1]@.len() < groups[m]@.len() {
            n - 1
        } else {
            m
        }
    }
}

/// The records, in the order of the pairs of `base`, that every group has a
/// pair for and that no negated atom rejects, with their combined scores.
pub open spec fn rank_candidates(
    slots: FullTextSlots,
    neg: Seq<Vec<ExpandedTerm>>,
    groups: Seq<Vec<(u32, u32)>>,
    base: Seq<(u32, u32)>,
) -> Seq<ScoredIndex>
    decreases base.len(),
{
    if base.len() == 0 {
        seq![]
    } else {
        let prev = rank_candidates(slots, neg, groups, base.drop_last());
        let i = base.last().0;
        if in_all(groups, i) && !excluded(slots, neg, i as int) {
            prev.push(ScoredIndex(total_score(groups, i) as u32, i as usize))
        } else {
            prev
        }
    }
}

/// The id of the record in slot `i`, or the empty string for a vacant slot.
pub open spec fn slot_id(slots: FullTextSlots, i: usize) -> Seq<char> {
    if i < slots.len() && slots[i as int] is Some {
        slots[i as int]->0.id@
    } else {
        seq![]
    }
}

/// `a` ranks before `b`: a higher score, or the same score and a smaller
/// record id.
pub open spec fn ranked_before(slots: FullTextSlots, a: ScoredIndex, b: ScoredIndex) -> bool {
    a.0 > b.0 || (a.0 == b.0 && seq_lt(slot_id(slots, a.1), slot_id(slots, b.1)))
}

/// No entry ranks before an earlier one.
pub open spec fn ranked_order(slots: FullTextSlots, s: Seq<ScoredIndex>) -> bool {
    forall|i: int, j: int| 0 <= i < j < s.len() ==> !ranked_before(slots, #[trigger] s[j], #[trigger] s[i])
}

/// `res` is the result for entry `e` on record `rec`: its id, its score, no
/// highlight, and the terms of the positive groups that the record holds.
pub open spec fn result_for(
    res: StoreSearchResult,
    e: ScoredIndex,
    rec: StoredRecord<FullTextRecord>,
    catalog: Seq<Seq<char>>,
    pos: Seq<Vec<ExpandedTerm>>,
) -> bool {
    &&& res.id@ == rec.id@
    &&& res.score == e.0
    &&& res.highlight_ranges@.len() == 0
    &&& matched_terms_of(res.matched_terms.deep_view(), rec.value.terms@, catalog, pos)
}

/// `r` holds, in order, the result for each entry of `sorted` whose slot is
/// live; entries of vacant slots give no result.
pub open spec fn results_of(
    r: Seq<StoreSearchResult>,
    sorted: Seq<ScoredIndex>,
    slots: FullTextSlots,
    catalog: Seq<Seq<char>>,
    pos: Seq<Vec<ExpandedTerm>>,
) -> bool
    decreases sorted.len(),
{
    if sorted.len() == 0 {
        r.len() == 0
    } else {
        let e = sorted.last();
        if e.1 < slots.len() && slots[e.1 as int] is Some {
            &&& r.len() > 0
            &&& result_for(r.last(), e, slots[e.1 as int]->0, catalog, pos)
            &&& results_of(r.drop_last(), sorted.drop_last(), slots, catalog, pos)
        } else {
            results_of(r, sorted.drop_last(), slots, catalog, pos)
        }
    }
}

/// `r` presents the entries of `kept` in rank order.
pub open spec fn ranked_results(
    r: Seq<StoreSearchResult>,
    kept: Seq<ScoredIndex>,
    slots: FullTextSlots,
    catalog: Seq<Seq<char>>,
    pos: Seq<Vec<ExpandedTerm>>,
) -> bool {
    exists|sorted: Seq<ScoredIndex>|
        {
            &&& sorted.to_multiset() == kept.to_multiset()
            &&& ranked_order(slots, sorted)
            &&& results_of(r, sorted, slots, catalog, pos)
        }
}

/// Ranking is a strict weak order: asymmetric, and an entry between two
/// others in rank order is after the first or before the last.
pub proof fn lemma_ranked_before(slots: FullTextSlots, a: ScoredIndex, b: ScoredIndex, c: ScoredIndex)
    ensures
        ranked_before(slots, a, b) ==> !ranked_before(slots, b, a),
        ranked_before(slots, a, c) ==> ranked_before(slots, a, b) || ranked_before(slots, b, c),
{
    let (ia, ib, ic) = (slot_id(slots, a.1), slot_id(slots, b.1), slot_id(slots, c.1));
    if ranked_before(slots, a, b) && a.0 == b.0 {
        lemma_seq_lt_asymmetric(ia, ib);
    }
    if ranked_before(slots, a, c) && a.0 == c.0 && b.0 == a.0 {
        lemma_seq_lt_total(ia, ib);
        if seq_lt(ib, ia) {
            lemma_seq_lt_transitive(ib, ia, ic);
        }
    }
}

/// The score paired with record `i` in increasing pairs (binary search).
pub fn find_pair(pairs: &Vec<(u32, u32)>, i: u32) -> (r: Option<u32>)
    requires
        increasing_pairs(pairs@),
    ensures
        match r {
            Some(s) => has_pair(pairs@, i) && s == pair_score(pairs@, i),
            None => !has_pair(pairs@, i),
        },
{
    let mut lo: usize = 0;
    let mut hi: usize = pairs.len();
    while lo < hi
        invariant
            lo <= hi <= pairs@.len(),
            increasing_pairs(pairs@),
            forall|k: int| 0 <= k < lo ==> (#[trigger] pairs@[k]).0 < i,
            forall|k: int| hi <= k < pairs@.len() ==> (#[trigger] pairs@[k]).0 > i,
        decreases hi - lo,
    {
        let mid = lo + (hi - lo) / 2;
        if pairs[mid].0 < i {
            lo = mid + 1;
        } else if pairs[mid].0 > i {
            hi = mid;
        } else {
            proof {
                assert(pairs@[mid as int].0 == i);
                let k = choose|k: int| 0 <= k < pairs@.len() && (#[trigger] pairs@[k]).0 == i;
                if k < mid {
                    assert(pairs@[k].0 < pairs@[mid as int].0);
                } else if k > mid {
                    assert(pairs@[mid as int].0 < pairs@[k].0);
                }
            }
            return Some(pairs[mid].1);
        }
    }
    proof {
        if has_pair(pairs@, i) {
            let k = choose|k: int| 0 <= k < pairs@.len() && (#[trigger] pairs@[k]).0 == i;
            assert(pairs@[k].0 == i);
        }
    }
    None
}

impl FullTextDatastore {
    /// The id of the record in slot `i`, or the empty string for a vacant
    /// slot (the tie-breaker of ranking).
    pub fn record_id(&self, i: usize) -> (r: &str)
        ensures
            r@ == slot_id(self.slots(), i),
    {
        match self.record_at(i) {
            Some(rec) => rec.id.as_str(),
            None => {
                proof {
                    reveal_strlit("");
                }
                ""
            },
        }
    }

    /// Whether `a` ranks before `b`.
    fn ranks_before(&self, a: ScoredIndex, b: ScoredIndex) -> (r: bool)
        ensures
            r == ranked_before(self.slots(), a, b),
    {
        a.0 > b.0 || (a.0 == b.0 && str_lt(self.record_id(a.1), self.record_id(b.1)))
    }

    /// Orders entries by rank: score descending, then record id ascending.
    pub fn sort_ranked(&self, v: &Vec<ScoredIndex>) -> (r: Vec<ScoredIndex>)
        ensures
            r@.to_multiset() == v@.to_multiset(),
            ranked_order(self.slots(), r@),
    {
        let ghost slots = self.slots();
        let mut r: Vec<ScoredIndex> = Vec::new();
        let n = v.len();
        for k in 0..n
            invariant
                n == v@.len(),
                slots == self.slots(),
                ranked_order(slots, r@),
                r@.to_multiset() == v@.take(k as int).to_multiset(),
        {
            let x = v[k];
            let mut pos: usize = r.len();
            while pos > 0 && self.ranks_before(x, r[pos - 1])
                invariant
                    pos <= r@.len(),
                    slots == self.slots(),
                    forall|j: int| pos <= j < r@.len() ==> ranked_before(slots, x, #[trigger] r@[j]),
                decreases pos,
            {
                pos = pos - 1;
            }
            let ghost before = r@;
            r.insert(pos, x);
            proof {
                lemma_insert_to_multiset(before, pos as int, x);
                assert(v@.take(k + 1) =~= v@.take(k as int).push(x));
                v@.take(k as int).to_multiset_ensures();
                assert forall|i: int, j: int| 0 <= i < j < r@.len() implies !ranked_before(slots, #[trigger] r@[j], #[trigger] r@[i]) by {
                    if i < pos && j == pos {
                        assert(r@[i] == before[i]);
                        lemma_ranked_before(slots, x, before[pos - 1], before[i]);
                    } else if i < pos && j > pos {
                        assert(r@[i] == before[i] && r@[j] == before[j - 1]);
                    } else if i == pos {
                        assert(r@[j] == before[j - 1]);
                        lemma_ranked_before(slots, x, before[j - 1], x);
                    } else if j < pos {
                        assert(r@[i] == before[i] && r@[j] == before[j]);
                    } else {
                        assert(r@[i] == before[i - 1] && r@[j] == before[j - 1]);
                    }
                }
            }
        }
        assert(v@.take(n as int) =~= v@);
        r
    }

    /// The result of each ranked entry whose slot is live, in order.
    pub fn present_ranked(&self, sorted: &Vec<ScoredIndex>, positive_groups: &Vec<Vec<ExpandedTerm>>) -> (r: Vec<StoreSearchResult>)
        requires
            self.wf(),
        ensures
            results_of(r@, sorted@, self.slots(), self.catalog(), positive_groups@),
    {
        proof {
            self.lemma_record_terms();
        }
        let mut results: Vec<StoreSearchResult> = Vec::new();
        let n = sorted.len();
        for i in 0..n
            invariant
                n == sorted@.len(),
                self.wf(),
                results_of(results@, sorted@.take(i as int), self.slots(), self.catalog(), positive_groups@),
                forall|j: int|
                    0 <= j < self.slots().len() ==> match #[trigger] self.slots()[j] {
                        Some(r) => increasing_terms(r.value.terms@),
                        None => true,
                    },
        {
            let e = sorted[i];
            let ghost t1 = sorted@.take(i + 1);
            proof {
                assert(t1.drop_last() =~= sorted@.take(i as int));
                assert(t1.last() == e);
            }
            match self.record_at(e.1) {
                Some(rec) => {
                    proof {
                        assert(self.slots()[e.1 as int] matches Some(r) && increasing_terms(r.value.terms@));
                    }
                    let matched = self.matched_terms_for_record(&rec.value.terms, positive_groups);
                    let result = StoreSearchResult::with_matched_terms(rec.id.clone(), e.0, matched);
                    let ghost before = results@;
                    results.push(result);
                    proof {
                        assert(results@.drop_last() =~= before);
                        assert(result.matched_terms.deep_view() == matched.deep_view()) by {
                            assert(result.matched_terms.deep_view() =~= matched.deep_view());
                        }
                    }
                },
                None => {},
            }
        }
        proof {
            assert(sorted@.take(n as int) =~= sorted@);
        }
        results
    }

    /// The combined score of record `i`: `None` unless every group has a
    /// pair for it, else the sum of its scores.
    pub fn combined_score(group_scores: &Vec<Vec<(u32, u32)>>, i: u32) -> (r: Option<u32>)
        requires
            forall|g: int| 0 <= g < group_scores@.len() ==> increasing_pairs(#[trigger] group_scores@[g]@),
            in_all(group_scores@, i) ==> total_score(group_scores@, i) <= u32::MAX,
        ensures
            match r {
                Some(s) => in_all(group_scores@, i) && s == total_score(group_scores@, i),
                None => !in_all(group_scores@, i),
            },
    {
        let ghost groups = group_scores@;
        let ng = group_scores.len();
        let mut found: Vec<u32> = Vec::new();
        for g in 0..ng
            invariant
                ng == groups.len(),
                groups == group_scores@,
                forall|h: int| 0 <= h < groups.len() ==> increasing_pairs(#[trigger] groups[h]@),
                found@.len() == g,
                forall|h: int| 0 <= h < g ==> #[trigger] has_pair(groups[h]@, i) && found@[h] == pair_score(groups[h]@, i),
        {
            match find_pair(&group_scores[g], i) {
                Some(s) => found.push(s),
                None => {
                    proof {
                        assert(!has_pair(groups[g as int]@, i));
                    }
                    return None;
                },
            }
        }
        proof {
            assert(in_all(groups, i));
        }
        let mut total: u32 = 0;
        for g in 0..ng
            invariant
                ng == groups.len(),
                found@.len() == ng,
                in_all(groups, i),
                total_score(groups, i) <= u32::MAX,
                forall|h: int| 0 <= h < ng ==> #[trigger] found@[h] == pair_score(groups[h]@, i),
                total == score_sum(groups, i, g as int),
        {
            proof {
                lemma_score_sum_monotone(groups, i, g + 1, ng as int);
            }
            total = total + found[g];
        }
        Some(total)
    }
}

impl FullTextDatastore {
    /// Ranks full-text matches from per-atom scores.
    ///
    /// `group_scores` holds, for each positive atom, (record index, score)
    /// pairs by increasing record index. The candidates are the records of
    /// the atom with the fewest pairs (the first such atom), in pair order,
    /// that every atom has a pair for and that no negated atom rejects; each
    /// scores the sum of its scores. The `max_results` best are returned by
    /// score, ties by record id, each with the catalog terms of the positive
    /// atoms that its record holds.
    pub fn rank(&self, query: &ResolvedQuery, group_scores: &Vec<Vec<(u32, u32)>>, max_results: usize) -> (r: Vec<StoreSearchResult>)
        requires
            self.wf(),
            scores_fit(group_scores@),
            groups_pair_atom_records(self.slots(), *query, group_scores@),
        ensures
            ranked(*self, *query, group_scores@, max_results, r@),
            r@.len() <= max_results,
            forall|i: int, j: int| 0 <= i < j < r@.len() ==> (#[trigger] r@[j]).score <= (#[trigger] r@[i]).score,
            forall|k: int| 0 <= k < r@.len() ==> result_matches_atoms(#[trigger] r@[k], self.slots(), *query),
    {
        let ghost groups = group_scores@;
        let ghost slots = self.slots();
        let ghost neg = query.negative_groups@;
        let ng = group_scores.len();
        if ng == 0 {
            return Vec::new();
        }
        proof {
            assert(forall|g: int| 0 <= g < groups.len() ==> increasing_pairs(#[trigger] groups[g]@));
            assert(forall|i: u32| in_all(groups, i) ==> total_score(groups, i) <= u32::MAX);
        }
        let mut sm: usize = 0;
        for g in 1..ng
            invariant
                ng == groups.len(),
                groups == group_scores@,
                sm < g,
                sm as int == smallest_group(groups, g as int),
        {
            if group_scores[g].len() < group_scores[sm].len() {
                sm = g;
            }
        }
        let excluded_by_slot = self.excluded_records(&query.negative_groups);
        let base = &group_scores[sm];
        let nb = base.len();
        let mut kept: Vec<ScoredIndex> = Vec::new();
        for b in 0..nb
            invariant
                nb == base@.len(),
                base@ == groups[sm as int]@,
                groups == group_scores@,
                slots == self.slots(),
                neg == query.negative_groups@,
                excluded_by_slot@.len() == slots.len(),
                forall|i: int| 0 <= i < excluded_by_slot@.len() ==> (excluded_by_slot@[i] <==> excluded(slots, neg, i)),
                forall|g: int| 0 <= g < groups.len() ==> increasing_pairs(#[trigger] groups[g]@),
                forall|i: u32| in_all(groups, i) ==> total_score(groups, i) <= u32::MAX,
                is_top_k(kept@, rank_candidates(slots, neg, groups, base@.take(b as int)), max_results),
        {
            let idx = base[b].0;
            let ghost seen = rank_candidates(slots, neg, groups, base@.take(b as int));
            let ghost before = kept@;
            proof {
                let t1 = base@.take(b + 1);
                assert(t1.drop_last() =~= base@.take(b as int));
                assert(t1.last().0 == idx);
                if idx as int >= slots.len() {
                    if excluded(slots, neg, idx as int) {
                        let g = choose|g: int| 0 <= g < neg.len() && #[trigger] group_hits(slots, neg[g]@, idx as int);
                        let k = choose|k: int| 0 <= k < neg[g]@.len() && #[trigger] record_has_term(slots, idx as int, neg[g]@[k].term_id);
                    }
                }
            }
            let rejected = (idx as usize) < excluded_by_slot.len() && excluded_by_slot[idx as usize];
            if !rejected {
                match Self::combined_score(group_scores, idx) {
                    Some(score) => {
                        let entry = ScoredIndex::new(score, idx as usize);
                        ScoredIndex::push_top_score(&mut kept, entry, max_results);
                        proof {
                            lemma_push_top_score_keeps_top_k(before, kept@, seen, entry, max_results);
                        }
                    },
                    None => {},
                }
            }
        }
        proof {
            assert(base@.take(nb as int) =~= base@);
        }
        let sorted = self.sort_ranked(&kept);
        let results = self.present_ranked(&sorted, &query.positive_groups);
        proof {
            assert(ranked_results(results@, kept@, slots, self.catalog(), query.positive_groups@));
            assert(is_top_k(kept@, rank_candidates(slots, neg, groups, groups[sm as int]@), max_results));
            lemma_ranked_results_match_atoms(*self, *query, groups, max_results, results@);
        }
        results
    }

    /// The first steps of a full-text search: nothing while a bulk load is in
    /// progress, when the query does not resolve, or when it has no positive
    /// atom; otherwise the resolved query, whose positive atoms are then
    /// scored and ranked.
    pub fn prepare_search(&self, query: &str) -> (r: Option<ResolvedQuery>)
        requires
            self.wf(),
            query@.len() < usize::MAX,
        ensures
            search_prepared(*self, query@, r),
    {
        if self.bulk_loading_in_progress() {
            return None;
        }
        let resolved = self.resolve_query(query);
        let ghost res = resolved;
        let r = match resolved {
            Some(q) => {
                if q.positive_groups.len() == 0 {
                    None
                } else {
                    Some(q)
                }
            },
            None => None,
        };
        assert(r == (if res matches Some(q) && q.positive_groups@.len() > 0 {
            res
        } else {
            None
        }));
        assert(self.uses_fuzzy_search() ==> resolved_fuzzily(res, self.catalog(), self.posting_lists(), query@));
        assert(!self.uses_fuzzy_search() ==> resolved_exactly(res, self.catalog(), query_atoms(query@)));
        assert(search_prepared(*self, query@, r)) by {
            let s = *self;
            assert(with_positive_atoms(res) == r);
            assert(s.uses_fuzzy_search() ==> resolved_fuzzily(res, s.catalog(), s.posting_lists(), query@));
            assert(!s.uses_fuzzy_search() ==> resolved_exactly(res, s.catalog(), query_atoms(query@)));
        }
        r
    }
}

/// Partial sums of nonnegative scores grow with the number of groups.
proof fn lemma_score_sum_monotone(groups: Seq<Vec<(u32, u32)>>, i: u32, a: int, b: int)
    requires
        a <= b,
    ensures
        score_sum(groups, i, a) <= score_sum(groups, i, b),
    decreases b - a,
{
    if a < b {
        lemma_score_sum_monotone(groups, i, a, b - 1);
    }
}

/// What the first steps of a full-text search of `q` give: nothing during
/// a bulk load; otherwise the query's resolution, as configured, when it
/// resolves with some positive atom, and nothing else.
pub open spec fn search_prepared(s: FullTextDatastore, q: Seq<char>, r: Option<ResolvedQuery>) -> bool {
    if s.is_bulk_loading() {
        r is None
    } else {
        exists|res: Option<ResolvedQuery>|
            {
                &&& (s.uses_fuzzy_search() ==> resolved_fuzzily(res, s.catalog(), s.posting_lists(), q))
                &&& (!s.uses_fuzzy_search() ==> resolved_exactly(res, s.catalog(), query_atoms(q)))
                &&& #[trigger] with_positive_atoms(res) == r
            }
    }
}

/// A resolved query when it has some positive atom, nothing otherwise.
pub open spec fn with_positive_atoms(res: Option<ResolvedQuery>) -> Option<ResolvedQuery> {
    if res matches Some(g) && g.positive_groups@.len() > 0 {
        res
    } else {
        None
    }
}

/// What ranking gives: nothing without positive atoms; otherwise the best
/// `max` of the candidates (see `rank_candidates`), in rank order, as
/// results.
pub open spec fn ranked(
    s: FullTextDatastore,
    query: ResolvedQuery,
    groups: Seq<Vec<(u32, u32)>>,
    max: usize,
    r: Seq<StoreSearchResult>,
) -> bool {
    if groups.len() == 0 {
        r.len() == 0
    } else {
        exists|kept: Seq<ScoredIndex>|
            {
                &&& is_top_k(
                    kept,
                    rank_candidates(
                        s.slots(),
                        query.negative_groups@,
                        groups,
                        groups[smallest_group(groups, groups.len() as int)]@,
                    ),
                    max,
                )
                &&& ranked_results(r, kept, s.slots(), s.catalog(), query.positive_groups@)
            }
    }
}

/// The pairs of each group are by increasing record index, and the combined
/// score of every record that all groups pair fits in a `u32`.
pub open spec fn scores_fit(groups: Seq<Vec<(u32, u32)>>) -> bool {
    &&& forall|g: int| 0 <= g < groups.len() ==> increasing_pairs(#[trigger] groups[g]@)
    &&& forall|i: u32| in_all(groups, i) ==> total_score(groups, i) <= u32::MAX
}

/// Every candidate is paired by every group and rejected by no negated
/// atom.
pub proof fn lemma_rank_candidates_qualify(
    slots: FullTextSlots,
    neg: Seq<Vec<ExpandedTerm>>,
    groups: Seq<Vec<(u32, u32)>>,
    base: Seq<(u32, u32)>,
)
    ensures
        forall|k: int|
            0 <= k < rank_candidates(slots, neg, groups, base).len() ==> {
                let e = #[trigger] rank_candidates(slots, neg, groups, base)[k];
                &&& in_all(groups, e.1 as u32)
                &&& !excluded(slots, neg, e.1 as int)
                &&& e.1 <= u32::MAX
            },
    decreases base.len(),
{
    if base.len() > 0 {
        let prev = rank_candidates(slots, neg, groups, base.drop_last());
        let cur = rank_candidates(slots, neg, groups, base);
        lemma_rank_candidates_qualify(slots, neg, groups, base.drop_last());
        assert forall|k: int| 0 <= k < cur.len() implies {
            let e = #[trigger] cur[k];
            &&& in_all(groups, e.1 as u32)
            &&& !excluded(slots, neg, e.1 as int)
            &&& e.1 <= u32::MAX
        } by {
            if k < prev.len() {
                assert(cur[k] == prev[k]);
            } else {
                let i = base.last().0;
                assert(cur[k].1 == i as usize);
            }
        }
    }
}

/// `res` is the result of entry `e`: a live slot, its record's id and the
/// entry's score.
pub open spec fn result_of_entry(res: StoreSearchResult, e: ScoredIndex, slots: FullTextSlots) -> bool {
    &&& e.1 < slots.len()
    &&& slots[e.1 as int] is Some
    &&& res.id@ == slots[e.1 as int]->0.id@
    &&& res.score == e.0
}

/// `res` is the result of some entry of `sorted`.
pub open spec fn from_some_entry(res: StoreSearchResult, sorted: Seq<ScoredIndex>, slots: FullTextSlots) -> bool {
    exists|m: int| 0 <= m < sorted.len() && #[trigger] result_of_entry(res, sorted[m], slots)
}

/// Scores do not increase along `s`.
pub open spec fn scores_nonincreasing(s: Seq<ScoredIndex>) -> bool {
    forall|i: int, j: int| 0 <= i < j < s.len() ==> (#[trigger] s[j]).0 <= (#[trigger] s[i]).0
}

/// Each result comes from an entry of `sorted` on a live slot and carries
/// that record's id and the entry's score; the results keep the order of
/// their entries.
pub proof fn lemma_results_from_entries(
    r: Seq<StoreSearchResult>,
    sorted: Seq<ScoredIndex>,
    slots: FullTextSlots,
    catalog: Seq<Seq<char>>,
    pos: Seq<Vec<ExpandedTerm>>,
)
    requires
        results_of(r, sorted, slots, catalog, pos),
    ensures
        r.len() <= sorted.len(),
        forall|k: int| 0 <= k < r.len() ==> from_some_entry(#[trigger] r[k], sorted, slots),
        scores_nonincreasing(sorted) ==> forall|i: int, j: int|
            0 <= i < j < r.len() ==> (#[trigger] r[j]).score <= (#[trigger] r[i]).score,
    decreases sorted.len(),
{
    if sorted.len() > 0 {
        let e = sorted.last();
        let sd = sorted.drop_last();
        let n = sorted.len() - 1;
        assert forall|res: StoreSearchResult| from_some_entry(res, sd, slots) implies from_some_entry(res, sorted, slots) by {
            let m = choose|m: int| 0 <= m < sd.len() && #[trigger] result_of_entry(res, sd[m], slots);
            assert(sorted[m] == sd[m]);
        }
        if scores_nonincreasing(sorted) {
            assert forall|a: int, b: int| 0 <= a < b < sd.len() implies (#[trigger] sd[b]).0 <= (#[trigger] sd[a]).0 by {
                assert(sd[a] == sorted[a] && sd[b] == sorted[b]);
            }
        }
        if e.1 < slots.len() && slots[e.1 as int] is Some {
            let rd = r.drop_last();
            lemma_results_from_entries(rd, sd, slots, catalog, pos);
            assert forall|k: int| 0 <= k < r.len() implies from_some_entry(#[trigger] r[k], sorted, slots) by {
                if k == r.len() - 1 {
                    assert(result_of_entry(r[k], sorted[n], slots));
                } else {
                    assert(r[k] == rd[k]);
                    assert(from_some_entry(rd[k], sd, slots));
                }
            }
            if scores_nonincreasing(sorted) {
                assert forall|i: int, j: int| 0 <= i < j < r.len() implies (#[trigger] r[j]).score <= (#[trigger] r[i]).score by {
                    assert(r[i] == rd[i]);
                    if j == r.len() - 1 {
                        assert(from_some_entry(rd[i], sd, slots));
                        let m = choose|m: int| 0 <= m < sd.len() && #[trigger] result_of_entry(rd[i], sd[m], slots);
                        assert(sorted[m] == sd[m]);
                        assert(sorted[n].0 <= sorted[m].0);
                    } else {
                        assert(r[j] == rd[j]);
                    }
                }
            }
        } else {
            lemma_results_from_entries(r, sd, slots, catalog, pos);
        }
    }
}

/// The record in slot `idx` is live, has the id of `res`, contains a term
/// of every positive atom and no term of a negated atom.
pub open spec fn record_matches_atoms(res: StoreSearchResult, slots: FullTextSlots, query: ResolvedQuery, idx: int) -> bool {
    &&& 0 <= idx < slots.len()
    &&& slots[idx] is Some
    &&& res.id@ == slots[idx]->0.id@
    &&& forall|g: int|
        0 <= g < query.positive_groups@.len() ==> group_hits(slots, #[trigger] query.positive_groups@[g]@, idx)
    &&& !excluded(slots, query.negative_groups@, idx)
}

/// Each group of scores pairs exactly the records that contain a term of
/// the matching positive atom (the records `group_records` lists for it),
/// one group per positive atom.
pub open spec fn groups_pair_atom_records(slots: FullTextSlots, query: ResolvedQuery, groups: Seq<Vec<(u32, u32)>>) -> bool {
    &&& groups.len() == query.positive_groups@.len()
    &&& forall|g: int, i: u32|
        0 <= g < groups.len() ==> (#[trigger] has_pair(groups[g]@, i) <==> group_hits(
            slots,
            query.positive_groups@[g]@,
            i as int,
        ))
}

/// `res` is the result of a record that matches the query's atoms.
pub open spec fn result_matches_atoms(res: StoreSearchResult, slots: FullTextSlots, query: ResolvedQuery) -> bool {
    exists|idx: int| #[trigger] record_matches_atoms(res, slots, query, idx)
}

/// Full-text search results: at most `max` of them, by non-increasing
/// score; each is a live record that contains a term of every positive
/// atom and no term of a negated atom, provided each atom's scores pair only
/// records that contain one of the atom's terms (as `group_records` lists
/// them).
pub proof fn lemma_ranked_results_match_atoms(
    s: FullTextDatastore,
    query: ResolvedQuery,
    groups: Seq<Vec<(u32, u32)>>,
    max: usize,
    r: Seq<StoreSearchResult>,
)
    requires
        ranked(s, query, groups, max, r),
        groups.len() == query.positive_groups@.len(),
        forall|g: int, i: u32|
            0 <= g < groups.len() && #[trigger] has_pair(groups[g]@, i) ==> group_hits(
                s.slots(),
                query.positive_groups@[g]@,
                i as int,
            ),
    ensures
        r.len() <= max,
        forall|i: int, j: int| 0 <= i < j < r.len() ==> (#[trigger] r[j]).score <= (#[trigger] r[i]).score,
        forall|k: int| 0 <= k < r.len() ==> result_matches_atoms(#[trigger] r[k], s.slots(), query),
{
    broadcast use vstd::multiset::group_multiset_axioms;

    if groups.len() > 0 {
        let slots = s.slots();
        let neg = query.negative_groups@;
        let cands = rank_candidates(slots, neg, groups, groups[smallest_group(groups, groups.len() as int)]@);
        let kept = choose|kept: Seq<ScoredIndex>|
            {
                &&& is_top_k(kept, cands, max)
                &&& ranked_results(r, kept, slots, s.catalog(), query.positive_groups@)
            };
        let sorted = choose|sorted: Seq<ScoredIndex>|
            {
                &&& sorted.to_multiset() == kept.to_multiset()
                &&& ranked_order(slots, sorted)
                &&& results_of(r, sorted, slots, s.catalog(), query.positive_groups@)
            };
        lemma_rank_candidates_qualify(slots, neg, groups, groups[smallest_group(groups, groups.len() as int)]@);
        lemma_results_from_entries(r, sorted, slots, s.catalog(), query.positive_groups@);
        sorted.to_multiset_ensures();
        kept.to_multiset_ensures();
        cands.to_multiset_ensures();
        assert(sorted.len() == kept.len());
        assert forall|i: int, j: int| 0 <= i < j < sorted.len() implies (#[trigger] sorted[j]).0 <= (#[trigger] sorted[i]).0 by {
            assert(!ranked_before(slots, sorted[j], sorted[i]));
        }
        assert(scores_nonincreasing(sorted));
        assert forall|k: int| 0 <= k < r.len() implies result_matches_atoms(#[trigger] r[k], slots, query) by {
            assert(from_some_entry(r[k], sorted, slots));
            let m = choose|m: int| 0 <= m < sorted.len() && #[trigger] result_of_entry(r[k], sorted[m], slots);
            let e = sorted[m];
            assert(sorted.contains(e));
            assert(kept.to_multiset().count(e) > 0);
            assert(cands.to_multiset().count(e) > 0);
            assert(cands.contains(e));
            let c = choose|c: int| 0 <= c < cands.len() && cands[c] == e;
            assert(in_all(groups, cands[c].1 as u32));
            let idx = e.1 as int;
            assert forall|g: int| 0 <= g < query.positive_groups@.len() implies group_hits(slots, #[trigger] query.positive_groups@[g]@, idx) by {
                assert(has_pair(groups[g]@, e.1 as u32));
            }
            assert(slots[idx] is Some);
            assert(record_matches_atoms(r[k], slots, query, idx));
        }
    }
}

/// Facts of the index that searching relies on.
pub open spec fn index_facts(s: &FullTextDatastore) -> bool {
    &&& crate::full_text::store::index_agrees(s.slots(), s.posting_lists())
    &&& s.catalog().len() == s.posting_lists().len()
    &&& s.slots().len() <= u32::MAX + 1
    &&& forall|i: int|
        0 <= i < s.slots().len() ==> match #[trigger] s.slots()[i] {
            Some(r) => {
                &&& crate::full_text::store::increasing_terms(r.value.terms@)
                &&& forall|k: int| 0 <= k < r.value.terms@.len() ==> r.value.terms@[k] < s.catalog().len()
            },
            None => true,
        }
}

/// One more term of a group: the record is hit by the first `k + 1` terms
/// exactly when it is hit by the first `k` or by term `k`.
pub proof fn lemma_hits_step(slots: FullTextSlots, group: Seq<ExpandedTerm>, k: int, i: int)
    requires
        0 <= k < group.len(),
    ensures
        hits_upto(slots, group, k + 1, i) <==> (hits_upto(slots, group, k, i) || record_has_term(
            slots,
            i,
            group[k].term_id,
        )),
{
    if hits_upto(slots, group, k + 1, i) && !record_has_term(slots, i, group[k].term_id) {
        let j = choose|j: int| 0 <= j < k + 1 && #[trigger] record_has_term(slots, i, group[j].term_id);
        assert(j < k);
    }
    if hits_upto(slots, group, k, i) {
        let j = choose|j: int| 0 <= j < k && #[trigger] record_has_term(slots, i, group[j].term_id);
        assert(0 <= j < k + 1);
    }
}

} // verus!
