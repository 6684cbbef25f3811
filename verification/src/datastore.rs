//! Datastore kinds, the datastore that dispatches to the fuzzy or the
//! full-text implementation, and per-consumer search sessions.
use crate::full_text::query::ResolvedQuery;
use crate::full_text::ranking::search_prepared;
use crate::full_text::store::{full_text_bulk_finished, full_text_deleted, full_text_upserted, token_sum, upsert_fits, FullTextDatastore};
use crate::fuzzy::{fuzzy_searched, holds_text, search_fits, FuzzyDatastore, FuzzySessionState};
use crate::record_table::{
    delete_slot, live_count, live_ids, prefix_deleted, slot_deleted, slot_upserted, upsert_slot,
};
use crate::search_result::StoreSearchResult;
use crate::store_health::StoreHealth;
use crate::text::{sorted_seqs, str_eq};
use vstd::prelude::*;

verus! {

/// Selects the search implementation backing a datastore.
#[derive(Debug, Clone, Copy, PartialEq, Eq, Structural)]
pub enum DatastoreKind {
    Fuzzy,
    FullText,
}

/// The name of a kind, as used in diagnostics and health checks.
pub open spec fn kind_name(kind: DatastoreKind) -> Seq<char> {
    match kind {
        DatastoreKind::Fuzzy => "fuzzy"@,
        DatastoreKind::FullText => "fullText"@,
    }
}

/// Parsing the name of a kind gives the kind back.
pub proof fn lemma_parse_kind_name(kind: DatastoreKind)
    ensures
        (if kind_name(kind) == "fullText"@ {
            DatastoreKind::FullText
        } else {
            DatastoreKind::Fuzzy
        }) == kind,
{
    reveal_strlit("fuzzy");
    reveal_strlit("fullText");
    assert("fuzzy"@.len() != "fullText"@.len());
}

impl DatastoreKind {
    /// Parses a store kind, defaulting to fuzzy search for unknown values.
    pub fn parse(kind: &str) -> (r: Self)
        ensures
            r == (if kind@ == "fullText"@ {
                DatastoreKind::FullText
            } else {
                DatastoreKind::Fuzzy
            }),
    {
        if str_eq(kind, "fullText") {
            DatastoreKind::FullText
        } else {
            DatastoreKind::Fuzzy
        }
    }

    /// The stable name used in diagnostics and health checks.
    pub fn as_str(&self) -> (r: &'static str)
        ensures
            r@ == kind_name(*self),
    {
        match self {
            DatastoreKind::Fuzzy => "fuzzy",
            DatastoreKind::FullText => "fullText",
        }
    }
}

/// A datastore of either kind.
pub enum Datastore {
    Fuzzy(FuzzyDatastore),
    FullText(FullTextDatastore),
}

/// What a search step gives: final results, or a resolved full-text query
/// whose positive atoms are to be scored and then ranked, or a refusal.
pub enum SearchStep {
    Done(Vec<StoreSearchResult>),
    Rank(ResolvedQuery),
    /// The matcher's `u32` total of the fuzzy query's atom scores would
    /// overflow on a record the search scores; nothing was searched.
    ScoreOverflow,
}

impl Datastore {
    /// The inner store is consistent.
    pub open spec fn wf(self) -> bool {
        match self {
            Datastore::Fuzzy(s) => s.wf(),
            Datastore::FullText(s) => s.wf(),
        }
    }

    /// The kind of the inner store.
    pub open spec fn spec_kind(self) -> DatastoreKind {
        match self {
            Datastore::Fuzzy(_) => DatastoreKind::Fuzzy,
            Datastore::FullText(_) => DatastoreKind::FullText,
        }
    }

    /// The store holds no record, and a full-text store no term, with fuzzy
    /// query expansion on and no bulk load in progress.
    pub open spec fn is_empty(self) -> bool {
        match self {
            Datastore::Fuzzy(s) => s.slots().len() == 0,
            Datastore::FullText(s) => {
                &&& s.slots().len() == 0
                &&& s.catalog().len() == 0
                &&& s.posting_lists().len() == 0
                &&& !s.is_bulk_loading()
                &&& s.uses_fuzzy_search()
            },
        }
    }

    /// Adding `text` fits the store's integer types.
    pub open spec fn can_take(self, text: Seq<char>) -> bool {
        match self {
            Datastore::Fuzzy(_) => text.len() <= u32::MAX,
            Datastore::FullText(s) => upsert_fits(s, text),
        }
    }

    /// `new` is `old` after an upsert of `id` with `text`.
    pub open spec fn upserted(old: Self, new: Self, id: Seq<char>, text: Seq<char>) -> bool {
        match (old, new) {
            (Datastore::Fuzzy(a), Datastore::Fuzzy(b)) => {
                &&& slot_upserted(a.slots(), b.slots(), id, holds_text(text))
                &&& upsert_slot(a.slots(), b.slots(), a.vacated(), b.vacated(), id)
            },
            (Datastore::FullText(a), Datastore::FullText(b)) => full_text_upserted(a, b, id, text),
            _ => false,
        }
    }

    /// `new` is `old` after deleting the record of `id`.
    pub open spec fn deleted(old: Self, new: Self, id: Seq<char>) -> bool {
        match (old, new) {
            (Datastore::Fuzzy(a), Datastore::Fuzzy(b)) => {
                &&& slot_deleted(a.slots(), b.slots(), id)
                &&& delete_slot(a.slots(), a.vacated(), b.vacated(), id)
            },
            (Datastore::FullText(a), Datastore::FullText(b)) => full_text_deleted(a, b, id),
            _ => false,
        }
    }

    /// `new` is `old` after deleting the records whose ids start with
    /// `prefix`.
    pub open spec fn prefix_removed(old: Self, new: Self, prefix: Seq<char>) -> bool {
        match (old, new) {
            (Datastore::Fuzzy(a), Datastore::Fuzzy(b)) => prefix_deleted(a.slots(), b.slots(), prefix),
            (Datastore::FullText(a), Datastore::FullText(b)) => {
                &&& prefix_deleted(a.slots(), b.slots(), prefix)
                &&& b.catalog() == a.catalog()
                &&& b.is_bulk_loading() == a.is_bulk_loading()
                &&& b.uses_fuzzy_search() == a.uses_fuzzy_search()
            },
            _ => false,
        }
    }

    /// `new` is `old` after finishing a bulk load: a fuzzy store unchanged;
    /// a full-text store with the same records, catalog and posting entries,
    /// and no bulk load in progress.
    pub open spec fn bulk_load_finished(old: Self, new: Self) -> bool {
        match (old, new) {
            (Datastore::Fuzzy(a), Datastore::Fuzzy(b)) => b == a,
            (Datastore::FullText(a), Datastore::FullText(b)) => full_text_bulk_finished(a, b),
            _ => false,
        }
    }

    /// `chain` steps through an upsert of each (id, text) record in order.
    pub open spec fn upsert_chain(chain: Seq<Self>, recs: Seq<(String, String)>) -> bool {
        &&& chain.len() == recs.len() + 1
        &&& forall|k: int|
            0 <= k < recs.len() ==> Self::upserted(#[trigger] chain[k], chain[k + 1], recs[k].0@, recs[k].1@)
    }

    /// `new` is `old` after upserting each (id, text) record in order.
    pub open spec fn upserted_all(old: Self, new: Self, recs: Seq<(String, String)>) -> bool {
        exists|chain: Seq<Self>|
            #[trigger] Self::upsert_chain(chain, recs) && chain[0] == old && chain.last() == new
    }

    /// `chain` steps through a delete of each id in order.
    pub open spec fn delete_chain(chain: Seq<Self>, ids: Seq<String>) -> bool {
        &&& chain.len() == ids.len() + 1
        &&& forall|k: int| 0 <= k < ids.len() ==> Self::deleted(#[trigger] chain[k], chain[k + 1], ids[k]@)
    }

    /// `new` is `old` after deleting each id in order.
    pub open spec fn deleted_all(old: Self, new: Self, ids: Seq<String>) -> bool {
        exists|chain: Seq<Self>| #[trigger] Self::delete_chain(chain, ids) && chain[0] == old && chain.last() == new
    }

    /// No upsert leaves a store as it is.
    pub proof fn lemma_upserted_none(a: Self, recs: Seq<(String, String)>)
        requires
            recs.len() == 0,
        ensures
            Self::upserted_all(a, a, recs),
    {
        assert(Self::upsert_chain(seq![a], recs));
    }

    /// No delete leaves a store as it is.
    pub proof fn lemma_deleted_none(a: Self, ids: Seq<String>)
        requires
            ids.len() == 0,
        ensures
            Self::deleted_all(a, a, ids),
    {
        assert(Self::delete_chain(seq![a], ids));
    }

    /// One more upsert extends a chain of upserts.
    pub proof fn lemma_upserted_all_step(a: Self, mid: Self, b: Self, recs: Seq<(String, String)>)
        requires
            recs.len() > 0,
            Self::upserted_all(a, mid, recs.drop_last()),
            Self::upserted(mid, b, recs.last().0@, recs.last().1@),
        ensures
            Self::upserted_all(a, b, recs),
    {
        let chain = choose|chain: Seq<Self>|
            #[trigger] Self::upsert_chain(chain, recs.drop_last()) && chain[0] == a && chain.last() == mid;
        let c = chain.push(b);
        assert forall|k: int| 0 <= k < recs.len() implies Self::upserted(#[trigger] c[k], c[k + 1], recs[k].0@, recs[k].1@) by {
            if k < recs.len() - 1 {
                assert(c[k] == chain[k] && c[k + 1] == chain[k + 1]);
                assert(Self::upserted(chain[k], chain[k + 1], recs.drop_last()[k].0@, recs.drop_last()[k].1@));
            } else {
                assert(c[k] == mid && c[k + 1] == b);
            }
        }
        assert(Self::upsert_chain(c, recs));
    }

    /// One more delete extends a chain of deletes.
    pub proof fn lemma_deleted_all_step(a: Self, mid: Self, b: Self, ids: Seq<String>)
        requires
            ids.len() > 0,
            Self::deleted_all(a, mid, ids.drop_last()),
            Self::deleted(mid, b, ids.last()@),
        ensures
            Self::deleted_all(a, b, ids),
    {
        let chain = choose|chain: Seq<Self>| #[trigger] Self::delete_chain(chain, ids.drop_last()) && chain[0] == a && chain.last() == mid;
        let c = chain.push(b);
        assert forall|k: int| 0 <= k < ids.len() implies Self::deleted(#[trigger] c[k], c[k + 1], ids[k]@) by {
            if k < ids.len() - 1 {
                assert(c[k] == chain[k] && c[k + 1] == chain[k + 1]);
                assert(Self::deleted(chain[k], chain[k + 1], ids.drop_last()[k]@));
            } else {
                assert(c[k] == mid && c[k + 1] == b);
            }
        }
        assert(Self::delete_chain(c, ids));
    }

    /// Builds an empty datastore of the requested kind.
    pub fn new(kind: DatastoreKind) -> (r: Self)
        ensures
            r.wf(),
            r.spec_kind() == kind,
            r.is_empty(),
    {
        match kind {
            DatastoreKind::Fuzzy => Datastore::Fuzzy(FuzzyDatastore::new()),
            DatastoreKind::FullText => Datastore::FullText(FullTextDatastore::new()),
        }
    }

    /// The kind of the inner store.
    pub fn kind(&self) -> (r: DatastoreKind)
        ensures
            r == self.spec_kind(),
    {
        match self {
            Datastore::Fuzzy(_) => DatastoreKind::Fuzzy,
            Datastore::FullText(_) => DatastoreKind::FullText,
        }
    }

    /// Whether adding `text` fits the store's integer types.
    pub fn can_upsert(&self, text: &str) -> (r: bool)
        requires
            self.wf(),
        ensures
            r == self.can_take(text@),
    {
        match self {
            Datastore::Fuzzy(_) => {
                let n = crate::text::chars_of(text).len();
                n as u64 <= 0xffff_ffffu64
            },
            Datastore::FullText(store) => store.can_upsert(text),
        }
    }

    /// Inserts or replaces a record.
    pub fn upsert(&mut self, id: String, text: String)
        requires
            old(self).wf(),
            old(self).can_take(text@),
        ensures
            final(self).wf(),
            Self::upserted(*old(self), *final(self), id@, text@),
    {
        match self {
            Datastore::Fuzzy(store) => store.upsert(id, text),
            Datastore::FullText(store) => store.upsert(id, text),
        }
    }

    /// Deletes the record of `id`, if any.
    pub fn delete(&mut self, id: &str)
        requires
            old(self).wf(),
        ensures
            final(self).wf(),
            Self::deleted(*old(self), *final(self), id@),
    {
        match self {
            Datastore::Fuzzy(store) => store.delete(id),
            Datastore::FullText(store) => store.delete(id),
        }
    }

    /// Deletes the records of `ids`, in order.
    pub(crate) fn delete_each(&mut self, ids: &Vec<String>)
        requires
            old(self).wf(),
        ensures
            final(self).wf(),
            Self::deleted_all(*old(self), *final(self), ids@),
    {
        let ghost start = *self;
        proof {
            Self::lemma_deleted_none(start, ids@.take(0));
        }
        let n = ids.len();
        for k in 0..n
            invariant
                n == ids@.len(),
                self.wf(),
                Self::deleted_all(start, *self, ids@.take(k as int)),
        {
            let ghost mid = *self;
            self.delete(ids[k].as_str());
            proof {
                let t = ids@.take(k + 1);
                assert(t.drop_last() =~= ids@.take(k as int));
                assert(t.last() == ids@[k as int]);
                Self::lemma_deleted_all_step(start, mid, *self, t);
            }
        }
        proof {
            assert(ids@.take(n as int) =~= ids@);
        }
    }

    /// Deletes every record whose id starts with `prefix`.
    pub fn delete_by_prefix(&mut self, prefix: &str)
        requires
            old(self).wf(),
        ensures
            final(self).wf(),
            Self::prefix_removed(*old(self), *final(self), prefix@),
    {
        match self {
            Datastore::Fuzzy(store) => store.delete_by_prefix(prefix),
            Datastore::FullText(store) => store.delete_by_prefix(prefix),
        }
    }

    /// Removes every record (and, for full text, every term).
    pub fn clear(&mut self)
        requires
            old(self).wf(),
        ensures
            final(self).wf(),
            final(self).spec_kind() == old(self).spec_kind(),
            final(self).is_empty(),
    {
        match self {
            Datastore::Fuzzy(store) => store.clear(),
            Datastore::FullText(store) => store.clear(),
        }
    }

    /// Starts a bulk rebuild: a fuzzy store is cleared; a full-text store is
    /// cleared and switched to append-only posting writes.
    pub fn begin_bulk_load(&mut self)
        requires
            old(self).wf(),
        ensures
            final(self).wf(),
            final(self).spec_kind() == old(self).spec_kind(),
            match *final(self) {
                Datastore::Fuzzy(s) => s.slots().len() == 0,
                Datastore::FullText(s) => {
                    &&& s.slots().len() == 0
                    &&& s.catalog().len() == 0
                    &&& s.posting_lists().len() == 0
                    &&& s.is_bulk_loading()
                    &&& s.uses_fuzzy_search()
                },
            },
    {
        match self {
            Datastore::Fuzzy(store) => store.clear(),
            Datastore::FullText(store) => store.begin_bulk_load(),
        }
    }

    /// Finishes a bulk rebuild; a fuzzy store is left as it is, a full-text
    /// store gets its posting lists sorted and accepts searches again.
    pub fn finish_bulk_load(&mut self)
        requires
            old(self).wf(),
        ensures
            final(self).wf(),
            Self::bulk_load_finished(*old(self), *final(self)),
    {
        match self {
            Datastore::Fuzzy(_) => {},
            Datastore::FullText(store) => store.finish_bulk_load(),
        }
    }

    /// Sets whether a full-text store expands queries by fuzzy matching; a
    /// fuzzy store is left as it is.
    pub fn set_full_text_fuzzy_search(&mut self, enabled: bool)
        requires
            old(self).wf(),
        ensures
            final(self).wf(),
            match (*old(self), *final(self)) {
                (Datastore::Fuzzy(a), Datastore::Fuzzy(b)) => b == a,
                (Datastore::FullText(a), Datastore::FullText(b)) => {
                    &&& b.uses_fuzzy_search() == enabled
                    &&& b.slots() == a.slots()
                    &&& b.catalog() == a.catalog()
                    &&& b.posting_lists() == a.posting_lists()
                    &&& b.is_bulk_loading() == a.is_bulk_loading()
                },
                _ => false,
            },
    {
        match self {
            Datastore::Fuzzy(_) => {},
            Datastore::FullText(store) => store.set_fuzzy_search(enabled),
        }
    }

    /// `r` is the health snapshot of `d`: its kind, live and vacant slot
    /// counts, sorted live ids, and for full text the catalog size and token
    /// total.
    pub open spec fn health_of(d: Self, r: StoreHealth) -> bool {
        &&& r.exists
        &&& r.kind@ == kind_name(d.spec_kind())
        &&& sorted_seqs(r.record_ids.deep_view())
        &&& match d {
            Datastore::Fuzzy(s) => {
                &&& r.live_records == live_count(s.slots())
                &&& r.tombstones == s.slots().len() - live_count(s.slots())
                &&& r.tombstones == s.vacated().len()
                &&& r.record_ids.deep_view().to_multiset() == live_ids(s.slots()).to_multiset()
                &&& r.posting_terms == 0
                &&& r.posting_occurrences == 0
            },
            Datastore::FullText(s) => {
                &&& r.live_records == live_count(s.slots())
                &&& r.tombstones == s.slots().len() - live_count(s.slots())
                &&& r.tombstones == s.vacated().len()
                &&& r.record_ids.deep_view().to_multiset() == live_ids(s.slots()).to_multiset()
                &&& r.posting_terms == s.catalog().len()
                &&& r.posting_occurrences == token_sum(s.slots())
            },
        }
    }

    /// A health snapshot of the store.
    pub fn health(&self) -> (r: StoreHealth)
        requires
            self.wf(),
        ensures
            Self::health_of(*self, r),
    {
        match self {
            Datastore::Fuzzy(store) => store.health(),
            Datastore::FullText(store) => store.health(),
        }
    }

    /// What the first step of a search of `q` through a session gives and
    /// makes of the session (see `search`).
    pub open spec fn searched(
        d: Self,
        old: SearchSession,
        new: SearchSession,
        q: Seq<char>,
        max: usize,
        r: SearchStep,
    ) -> bool {
        &&& new.store_id == old.store_id
        &&& new.kind == old.kind
        &&& match (d, old.kind, old.fuzzy) {
            (Datastore::Fuzzy(s), DatastoreKind::Fuzzy, Some(st)) => if !search_fits(s.slots(), st, q) {
                &&& r is ScoreOverflow
                &&& new.fuzzy == old.fuzzy
            } else {
                &&& r matches SearchStep::Done(results)
                &&& new.fuzzy matches Some(st2)
                &&& fuzzy_searched(s.slots(), st, st2, q, max, results@)
            },
            (Datastore::FullText(s), DatastoreKind::FullText, _) => {
                &&& new.fuzzy == old.fuzzy
                &&& match r {
                    SearchStep::Done(results) => results@.len() == 0 && search_prepared(s, q, None),
                    SearchStep::Rank(query) => search_prepared(s, q, Some(query)),
                    SearchStep::ScoreOverflow => false,
                }
            },
            _ => {
                &&& new.fuzzy == old.fuzzy
                &&& r matches SearchStep::Done(results) && results@.len() == 0
            },
        }
    }

    /// The first step of a search through a session.
    ///
    /// A fuzzy store searched through a fuzzy session gives its results and
    /// updates the session's narrowing state, unless the matcher's total of
    /// the query's atom scores would overflow on a record it scores. A full-text store searched
    /// through a full-text session gives no result during a bulk load or for
    /// a query without positive atom, and the resolved query to rank
    /// otherwise. A session of another kind gives no result.
    pub fn search(&self, session: &mut SearchSession, query: &str, max_results: usize) -> (r: SearchStep)
        requires
            self.wf(),
            query@.len() < usize::MAX,
        ensures
            Self::searched(*self, *old(session), *final(session), query@, max_results, r),
    {
        match self {
            Datastore::Fuzzy(store) => {
                if session.kind != DatastoreKind::Fuzzy {
                    return SearchStep::Done(Vec::new());
                }
                if session.fuzzy.is_none() {
                    return SearchStep::Done(Vec::new());
                }
                let fits = match &session.fuzzy {
                    Some(state) => store.search_totals_fit(state, query),
                    None => true,
                };
                if !fits {
                    return SearchStep::ScoreOverflow;
                }
                match &mut session.fuzzy {
                    Some(state) => SearchStep::Done(store.search(state, query, max_results)),
                    None => SearchStep::Done(Vec::new()),
                }
            },
            Datastore::FullText(store) => {
                if session.kind != DatastoreKind::FullText {
                    return SearchStep::Done(Vec::new());
                }
                match store.prepare_search(query) {
                    Some(q) => SearchStep::Rank(q),
                    None => SearchStep::Done(Vec::new()),
                }
            },
        }
    }
}

/// Per-consumer search state tied to a single datastore; fuzzy search keeps
/// its incremental narrowing state here so that separate clients searching
/// the same store do not share query history.
pub struct SearchSession {
    pub store_id: String,
    pub kind: DatastoreKind,
    pub fuzzy: Option<FuzzySessionState>,
}

/// The narrowing state is empty, or absent.
pub open spec fn session_cleared(s: SearchSession) -> bool {
    s.fuzzy matches Some(st) ==> st.last_query().len() == 0 && st.last_matches().len() == 0
}

/// `new` is `old` with its cached query state cleared.
pub open spec fn session_reset(old: SearchSession, new: SearchSession) -> bool {
    &&& new.store_id == old.store_id
    &&& new.kind == old.kind
    &&& (new.fuzzy is Some <==> old.fuzzy is Some)
    &&& session_cleared(new)
}

impl SearchSession {
    /// A session on `store_id`, with narrowing state for a fuzzy store.
    pub fn new(store_id: String, kind: DatastoreKind) -> (r: Self)
        ensures
            r.store_id == store_id,
            r.kind == kind,
            r.fuzzy is Some <==> kind == DatastoreKind::Fuzzy,
            session_cleared(r),
    {
        let fuzzy = match kind {
            DatastoreKind::Fuzzy => Some(FuzzySessionState::new()),
            DatastoreKind::FullText => None,
        };
        SearchSession { store_id, kind, fuzzy }
    }

    /// Clears cached query state after the underlying datastore changes.
    pub fn reset(&mut self)
        ensures
            session_reset(*old(self), *final(self)),
    {
        match &mut self.fuzzy {
            Some(state) => state.reset(),
            None => {},
        }
    }
}

} // verus!
