//! The search engine: datastores and per-client search sessions, each
//! addressed by an opaque string identifier.
use crate::datastore::{session_cleared, session_reset, Datastore, DatastoreKind, SearchSession, SearchStep};
use crate::keyed::{
    find_key, has_key, key_at, keyed_map, keys_unique, lemma_keyed_map_at, lemma_keyed_map_push,
    lemma_keyed_map_remove, lemma_keyed_map_update,
};
use crate::full_text::query::ResolvedQuery;
use crate::full_text::ranking::{groups_pair_atom_records, ranked, result_matches_atoms, scores_fit};
use crate::full_text::store::FullTextDatastore;
use crate::search_result::StoreSearchResult;
use crate::store_health::StoreHealth;
use crate::text::{push_char, str_eq};
use vstd::prelude::*;

verus! {

/// Number of results each search returns unless set otherwise.
pub const DEFAULT_MAX_RESULTS: usize = 200;

/// The decimal digit `d`.
pub open spec fn digit_char(d: nat) -> char {
    (48 + d) as char
}

/// The decimal digits of `n`, most significant first.
pub open spec fn decimal(n: nat) -> Seq<char>
    decreases n,
{
    if n < 10 {
        seq![digit_char(n)]
    } else {
        decimal(n / 10).push(digit_char(n % 10))
    }
}

/// Different numbers have different decimal digits.
pub proof fn lemma_decimal_injective(a: nat, b: nat)
    ensures
        decimal(a) == decimal(b) ==> a == b,
    decreases a,
{
    if decimal(a) == decimal(b) {
        let (da, db) = (decimal(a), decimal(b));
        assert(da.last() == db.last());
        assert(digit_char(a % 10) == digit_char(b % 10));
        assert((48 + a % 10) as char as int == 48 + a % 10);
        assert((48 + b % 10) as char as int == 48 + b % 10);
        if a >= 10 && b >= 10 {
            assert(decimal(a / 10) == da.drop_last());
            assert(decimal(b / 10) == db.drop_last());
            lemma_decimal_injective(a / 10, b / 10);
        } else if a >= 10 {
            lemma_decimal_len(a / 10);
        } else if b >= 10 {
            lemma_decimal_len(b / 10);
        }
    }
}

/// Decimal digits are never empty.
pub proof fn lemma_decimal_len(n: nat)
    ensures
        decimal(n).len() >= 1,
    decreases n,
{
    if n >= 10 {
        lemma_decimal_len(n / 10);
    }
}

/// Identifiers made of one prefix and different numbers differ, so every
/// datastore and every session gets a fresh identifier.
pub proof fn lemma_numbered_ids_differ(prefix: Seq<char>, a: nat, b: nat)
    requires
        a != b,
    ensures
        prefix + decimal(a) != prefix + decimal(b),
{
    lemma_decimal_injective(a, b);
    if prefix + decimal(a) == prefix + decimal(b) {
        assert((prefix + decimal(a)).subrange(prefix.len() as int, (prefix + decimal(a)).len() as int) =~= decimal(a));
        assert((prefix + decimal(b)).subrange(prefix.len() as int, (prefix + decimal(b)).len() as int) =~= decimal(b));
    }
}

/// Appends the decimal digits of `n`.
fn push_decimal(s: &mut String, n: u32)
    ensures
        final(s)@ == old(s)@ + decimal(n as nat),
    decreases n,
{
    if n >= 10 {
        push_decimal(s, n / 10);
    }
    let d: u8 = (n % 10) as u8;
    let c = (48u8 + d) as char;
    proof {
        assert(c == digit_char((n % 10) as nat));
    }
    push_char(s, c);
}

/// `prefix` followed by the decimal digits of `n`.
pub fn numbered_id(prefix: &str, n: u32) -> (r: String)
    ensures
        r@ == prefix@ + decimal(n as nat),
{
    let mut s = prefix.to_owned();
    push_decimal(&mut s, n);
    s
}

/// Owner of the datastores and of the per-client search sessions.
pub struct SearchEngine {
    /// Datastores keyed by generated `store:*` identifiers.
    stores: Vec<(String, Datastore)>,
    /// Search sessions keyed by generated `session:*` identifiers.
    sessions: Vec<(String, SearchSession)>,
    max_results: usize,
    next_store_id: u32,
    next_session_id: u32,
}

/// Each session on `store_id` has its cached query state cleared; the
/// others are unchanged.
pub open spec fn sessions_reset_for(
    old: Map<Seq<char>, SearchSession>,
    new: Map<Seq<char>, SearchSession>,
    store_id: Seq<char>,
) -> bool {
    &&& new.dom() == old.dom()
    &&& forall|k: Seq<char>|
        #[trigger] old.dom().contains(k) ==> if old[k].store_id@ == store_id {
            session_reset(old[k], new[k])
        } else {
            new[k] == old[k]
        }
}

/// Some entry among the first `k` of `old` is `e`, on a store other than
/// `store_id`.
pub open spec fn came_from(
    old: Seq<(String, SearchSession)>,
    k: int,
    store_id: Seq<char>,
    e: (String, SearchSession),
) -> bool {
    exists|m: int| 0 <= m < k && #[trigger] old[m] == e && old[m].1.store_id@ != store_id
}

/// Only the store of `id` may differ.
pub open spec fn only_store_changed(old: Map<Seq<char>, Datastore>, new: Map<Seq<char>, Datastore>, id: Seq<char>) -> bool {
    &&& new.dom() == old.dom()
    &&& forall|k: Seq<char>| #[trigger] old.dom().contains(k) && k != id ==> new[k] == old[k]
}

/// `new` is `old` after destroying the datastore `store_id`: the datastore
/// is removed, the sessions on it are closed, and everything else is kept.
pub open spec fn datastore_destroyed(old: SearchEngine, new: SearchEngine, store_id: Seq<char>) -> bool {
    &&& new.stores() == old.stores().remove(store_id)
    &&& forall|k: Seq<char>|
        #[trigger] new.sessions().dom().contains(k) <==> (old.sessions().dom().contains(k)
            && old.sessions()[k].store_id@ != store_id)
    &&& forall|k: Seq<char>| #[trigger] new.sessions().dom().contains(k) ==> new.sessions()[k] == old.sessions()[k]
    &&& new.result_cap() == old.result_cap()
    &&& new.next_store() == old.next_store()
    &&& new.next_session() == old.next_session()
}

/// Destroy, then look up: the destroyed datastore is unknown, a session
/// that was on it is unknown, and every other datastore and every session
/// on another datastore is as it was.
pub proof fn lemma_destroy_then_lookup(old: SearchEngine, new: SearchEngine, store_id: Seq<char>, key: Seq<char>)
    requires
        datastore_destroyed(old, new, store_id),
    ensures
        !new.stores().dom().contains(store_id),
        old.sessions().dom().contains(key) && old.sessions()[key].store_id@ == store_id
            ==> !new.sessions().dom().contains(key),
        key != store_id ==> (new.stores().dom().contains(key) == old.stores().dom().contains(key)
            && new.stores()[key] == old.stores()[key]),
        old.sessions().dom().contains(key) && old.sessions()[key].store_id@ != store_id
            ==> new.sessions().dom().contains(key) && new.sessions()[key] == old.sessions()[key],
{
}

impl SearchEngine {
    /// The datastores by identifier.
    pub closed spec fn stores(&self) -> Map<Seq<char>, Datastore> {
        keyed_map(self.stores@)
    }

    /// The sessions by identifier.
    pub closed spec fn sessions(&self) -> Map<Seq<char>, SearchSession> {
        keyed_map(self.sessions@)
    }

    /// The number of results each search returns at most.
    pub closed spec fn result_cap(&self) -> usize {
        self.max_results
    }

    /// The number in the next datastore identifier.
    pub closed spec fn next_store(&self) -> u32 {
        self.next_store_id
    }

    /// The number in the next session identifier.
    pub closed spec fn next_session(&self) -> u32 {
        self.next_session_id
    }

    /// Identifiers are unique and every datastore is consistent.
    pub closed spec fn wf(&self) -> bool {
        &&& keys_unique(self.stores@)
        &&& keys_unique(self.sessions@)
        &&& forall|i: int| 0 <= i < self.stores@.len() ==> (#[trigger] self.stores@[i]).1.wf()
        &&& self.max_results >= 1
    }

    /// Every datastore of a consistent engine is consistent.
    pub proof fn lemma_stores_wf(&self)
        requires
            self.wf(),
        ensures
            forall|k: Seq<char>| #[trigger] self.stores().dom().contains(k) ==> self.stores()[k].wf(),
            self.result_cap() >= 1,
    {
        assert forall|k: Seq<char>| #[trigger] self.stores().dom().contains(k) implies self.stores()[k].wf() by {
            let i = choose|i: int| #[trigger] key_at(self.stores@, k, i);
            lemma_keyed_map_at(self.stores@, i);
        }
    }

    /// Creates an empty engine with the default result cap.
    pub fn new() -> (r: Self)
        ensures
            r.wf(),
            r.stores().dom().len() == 0,
            r.sessions().dom().len() == 0,
            r.result_cap() == DEFAULT_MAX_RESULTS,
            r.next_store() == 1,
            r.next_session() == 1,
    {
        let r = SearchEngine {
            stores: Vec::new(),
            sessions: Vec::new(),
            max_results: DEFAULT_MAX_RESULTS,
            next_store_id: 1,
            next_session_id: 1,
        };
        proof {
            assert(r.stores().dom() =~= Set::empty());
            assert(r.sessions().dom() =~= Set::empty());
        }
        r
    }

    /// Sets the maximum number of results of every search, at least one.
    pub fn set_max_results(&mut self, max_results: usize)
        requires
            old(self).wf(),
        ensures
            final(self).wf(),
            final(self).result_cap() == if max_results < 1 { 1 } else { max_results },
            final(self).stores() == old(self).stores(),
            final(self).sessions() == old(self).sessions(),
            final(self).next_store() == old(self).next_store(),
            final(self).next_session() == old(self).next_session(),
    {
        self.max_results = if max_results < 1 { 1 } else { max_results };
    }

    /// The number of results each search returns at most.
    pub fn max_results(&self) -> (r: usize)
        ensures
            r == self.result_cap(),
    {
        self.max_results
    }

    /// The number in the next datastore identifier.
    pub fn next_store_number(&self) -> (r: u32)
        ensures
            r == self.next_store(),
    {
        self.next_store_id
    }

    /// The number in the next session identifier.
    pub fn next_session_number(&self) -> (r: u32)
        ensures
            r == self.next_session(),
    {
        self.next_session_id
    }

    /// Creates a datastore of the kind named by `kind` (fuzzy unless it is
    /// `fullText`) and returns its identifier, `store:` and a number.
    pub fn create_datastore(&mut self, kind: &str) -> (r: String)
        requires
            old(self).wf(),
            old(self).next_store() < u32::MAX,
        ensures
            final(self).wf(),
            r@ == "store:"@ + decimal(old(self).next_store() as nat),
            final(self).next_store() == old(self).next_store() + 1,
            final(self).stores().dom() == old(self).stores().dom().insert(r@),
            forall|k: Seq<char>|
                #[trigger] old(self).stores().dom().contains(k) && k != r@ ==> final(self).stores()[k] == old(
                    self,
                ).stores()[k],
            final(self).stores()[r@].wf(),
            final(self).stores()[r@].is_empty(),
            final(self).stores()[r@].spec_kind() == (if kind@ == "fullText"@ {
                DatastoreKind::FullText
            } else {
                DatastoreKind::Fuzzy
            }),
            final(self).sessions() == old(self).sessions(),
            final(self).result_cap() == old(self).result_cap(),
            final(self).next_session() == old(self).next_session(),
    {
        let id = numbered_id("store:", self.next_store_id);
        self.next_store_id = self.next_store_id + 1;
        let store = Datastore::new(DatastoreKind::parse(kind));
        let ghost new_store = store;
        let ghost key = id@;
        let ghost before = self.stores@;
        match find_key(&self.stores, id.as_str()) {
            Some(i) => {
                let entry_key = id.clone();
                self.stores.set(i, (entry_key, store));
                proof {
                    assert(before[i as int].0@ == key);
                    lemma_keyed_map_at(before, i as int);
                    lemma_keyed_map_update(before, i as int, id, new_store);
                }
            },
            None => {
                let entry_key = id.clone();
                self.stores.push((entry_key, store));
                proof {
                    lemma_keyed_map_push(before, id, new_store);
                }
            },
        }
        proof {
            assert(self.stores() == keyed_map(before).insert(key, new_store));
            assert forall|i: int| 0 <= i < self.stores@.len() implies (#[trigger] self.stores@[i]).1.wf() by {
                lemma_keyed_map_at(self.stores@, i);
                if self.stores@[i].0@ != key {
                    let j = choose|j: int| #[trigger] key_at(before, self.stores@[i].0@, j);
                    lemma_keyed_map_at(before, j);
                }
            }
        }
        id
    }

    /// Opens a search session on a datastore and returns its identifier,
    /// `session:` and a number; for an unknown datastore, returns the empty
    /// string and changes nothing.
    pub fn create_session(&mut self, store_id: &str) -> (r: String)
        requires
            old(self).wf(),
            old(self).stores().dom().contains(store_id@) ==> old(self).next_session() < u32::MAX,
        ensures
            final(self).wf(),
            final(self).stores() == old(self).stores(),
            final(self).result_cap() == old(self).result_cap(),
            final(self).next_store() == old(self).next_store(),
            if old(self).stores().dom().contains(store_id@) {
                &&& r@ == "session:"@ + decimal(old(self).next_session() as nat)
                &&& final(self).next_session() == old(self).next_session() + 1
                &&& final(self).sessions().dom() == old(self).sessions().dom().insert(r@)
                &&& forall|k: Seq<char>|
                    #[trigger] old(self).sessions().dom().contains(k) && k != r@ ==> final(self).sessions()[k]
                        == old(self).sessions()[k]
                &&& final(self).sessions()[r@].store_id@ == store_id@
                &&& final(self).sessions()[r@].kind == old(self).stores()[store_id@].spec_kind()
                &&& (final(self).sessions()[r@].fuzzy is Some <==> final(self).sessions()[r@].kind
                    == DatastoreKind::Fuzzy)
                &&& session_cleared(final(self).sessions()[r@])
            } else {
                &&& r@.len() == 0
                &&& final(self).sessions() == old(self).sessions()
                &&& final(self).next_session() == old(self).next_session()
            },
    {
        let kind = match find_key(&self.stores, store_id) {
            Some(i) => {
                proof {
                    lemma_keyed_map_at(self.stores@, i as int);
                }
                self.stores[i].1.kind()
            },
            None => {
                return String::new();
            },
        };
        let id = numbered_id("session:", self.next_session_id);
        self.next_session_id = self.next_session_id + 1;
        let session = SearchSession::new(store_id.to_owned(), kind);
        let ghost new_session = session;
        let ghost key = id@;
        let ghost before = self.sessions@;
        match find_key(&self.sessions, id.as_str()) {
            Some(i) => {
                let entry_key = id.clone();
                self.sessions.set(i, (entry_key, session));
                proof {
                    lemma_keyed_map_update(before, i as int, id, new_session);
                }
            },
            None => {
                let entry_key = id.clone();
                self.sessions.push((entry_key, session));
                proof {
                    lemma_keyed_map_push(before, id, new_session);
                }
            },
        }
        proof {
            assert(self.sessions() == keyed_map(before).insert(key, new_session));
        }
        id
    }

    /// Closes a search session.
    pub fn close_session(&mut self, session_id: &str)
        requires
            old(self).wf(),
        ensures
            final(self).wf(),
            final(self).sessions() == old(self).sessions().remove(session_id@),
            final(self).stores() == old(self).stores(),
            final(self).result_cap() == old(self).result_cap(),
            final(self).next_store() == old(self).next_store(),
            final(self).next_session() == old(self).next_session(),
    {
        let ghost before = self.sessions@;
        match find_key(&self.sessions, session_id) {
            Some(i) => {
                self.sessions.remove(i);
                proof {
                    lemma_keyed_map_remove(before, i as int);
                }
            },
            None => {
                proof {
                    assert(keyed_map(before).remove(session_id@) =~= keyed_map(before));
                }
            },
        }
    }

    /// Removes a datastore and closes every session on it.
    pub fn destroy_datastore(&mut self, store_id: &str)
        requires
            old(self).wf(),
        ensures
            final(self).wf(),
            datastore_destroyed(*old(self), *final(self), store_id@),
    {
        let ghost before = self.stores@;
        match find_key(&self.stores, store_id) {
            Some(i) => {
                self.stores.remove(i);
                proof {
                    lemma_keyed_map_remove(before, i as int);
                    assert forall|j: int| 0 <= j < self.stores@.len() implies (#[trigger] self.stores@[j]).1.wf() by {
                        if j < i {
                            assert(self.stores@[j] == before[j]);
                        } else {
                            assert(self.stores@[j] == before[j + 1]);
                        }
                    }
                }
            },
            None => {
                proof {
                    assert(keyed_map(before).remove(store_id@) =~= keyed_map(before));
                }
            },
        }
        let ghost old_sessions = self.sessions@;
        let mut kept: Vec<(String, SearchSession)> = Vec::new();
        let n = self.sessions.len();
        let mut sessions: Vec<(String, SearchSession)> = Vec::new();
        std::mem::swap(&mut sessions, &mut self.sessions);
        let mut k: usize = 0;
        while k < n
            invariant
                n == old_sessions.len(),
                k <= n,
                sessions@ == old_sessions.subrange(k as int, n as int),
                keys_unique(old_sessions),
                keys_unique(kept@),
                forall|j: int| 0 <= j < kept@.len() ==> came_from(old_sessions, k as int, store_id@, #[trigger] kept@[j]),
                forall|m: int|
                    0 <= m < k && (#[trigger] old_sessions[m]).1.store_id@ != store_id@ ==> has_key(kept@, old_sessions[m].0@),
            decreases n - k,
        {
            let entry = sessions.remove(0);
            let ghost e = entry;
            proof {
                assert(e == old_sessions[k as int]);
                assert(sessions@ =~= old_sessions.subrange(k + 1, n as int));
            }
            if !str_eq(entry.1.store_id.as_str(), store_id) {
                let ghost prev = kept@;
                kept.push(entry);
                proof {
                    assert forall|a: int, b: int| 0 <= a < b < kept@.len() implies (#[trigger] kept@[a]).0@ != (#[trigger] kept@[b]).0@ by {
                        if b == prev.len() {
                            assert(came_from(old_sessions, k as int, store_id@, prev[a]));
                            let m = choose|m: int|
                                0 <= m < k && #[trigger] old_sessions[m] == prev[a] && old_sessions[m].1.store_id@ != store_id@;
                            assert(old_sessions[m].0@ != old_sessions[k as int].0@);
                        } else {
                            assert(prev[a].0@ != prev[b].0@);
                        }
                    }
                    assert forall|j: int| 0 <= j < kept@.len() implies came_from(old_sessions, k + 1, store_id@, #[trigger] kept@[j]) by {
                        if j == prev.len() {
                            assert(old_sessions[k as int] == kept@[j]);
                        } else {
                            assert(came_from(old_sessions, k as int, store_id@, prev[j]));
                            let m = choose|m: int|
                                0 <= m < k && #[trigger] old_sessions[m] == prev[j] && old_sessions[m].1.store_id@ != store_id@;
                            assert(old_sessions[m] == kept@[j]);
                        }
                    }
                    assert forall|m: int|
                        0 <= m < k + 1 && (#[trigger] old_sessions[m]).1.store_id@ != store_id@ implies has_key(kept@, old_sessions[m].0@) by {
                        if m == k {
                            assert(key_at(kept@, old_sessions[m].0@, prev.len() as int));
                        } else {
                            let j = choose|j: int| #[trigger] key_at(prev, old_sessions[m].0@, j);
                            assert(key_at(kept@, old_sessions[m].0@, j));
                        }
                    }
                }
            }
            k = k + 1;
        }
        self.sessions = kept;
        proof {
            let om = keyed_map(old_sessions);
            let nm = keyed_map(self.sessions@);
            assert forall|key: Seq<char>| #[trigger] nm.dom().contains(key) <==> (om.dom().contains(key) && om[key].store_id@ != store_id@) by {
                if nm.dom().contains(key) {
                    let j = choose|j: int| #[trigger] key_at(self.sessions@, key, j);
                    assert(came_from(old_sessions, n as int, store_id@, self.sessions@[j]));
                    let m = choose|m: int|
                        0 <= m < n && #[trigger] old_sessions[m] == self.sessions@[j] && old_sessions[m].1.store_id@ != store_id@;
                    lemma_keyed_map_at(old_sessions, m);
                }
                if om.dom().contains(key) && om[key].store_id@ != store_id@ {
                    let m = choose|m: int| #[trigger] key_at(old_sessions, key, m);
                    lemma_keyed_map_at(old_sessions, m);
                }
            }
            assert forall|key: Seq<char>| #[trigger] nm.dom().contains(key) implies nm[key] == om[key] by {
                let j = choose|j: int| #[trigger] key_at(self.sessions@, key, j);
                lemma_keyed_map_at(self.sessions@, j);
                assert(came_from(old_sessions, n as int, store_id@, self.sessions@[j]));
                let m = choose|m: int|
                    0 <= m < n && #[trigger] old_sessions[m] == self.sessions@[j] && old_sessions[m].1.store_id@ != store_id@;
                lemma_keyed_map_at(old_sessions, m);
            }
        }
    }

    /// A health snapshot of a datastore, or the missing marker.
    pub fn datastore_health(&self, store_id: &str) -> (r: StoreHealth)
        requires
            self.wf(),
        ensures
            !self.stores().dom().contains(store_id@) ==> {
                &&& !r.exists
                &&& r.kind@.len() == 0
                &&& r.live_records == 0
                &&& r.tombstones == 0
                &&& r.record_ids@.len() == 0
                &&& r.posting_terms == 0
                &&& r.posting_occurrences == 0
            },
            self.stores().dom().contains(store_id@) ==> Datastore::health_of(self.stores()[store_id@], r),
    {
        match find_key(&self.stores, store_id) {
            Some(i) => {
                proof {
                    lemma_keyed_map_at(self.stores@, i as int);
                }
                self.stores[i].1.health()
            },
            None => StoreHealth::missing(),
        }
    }

    /// Clears the cached query state of every session on `store_id`.
    fn reset_sessions_for_store(&mut self, store_id: &str)
        requires
            old(self).wf(),
        ensures
            final(self).wf(),
            sessions_reset_for(old(self).sessions(), final(self).sessions(), store_id@),
            final(self).stores() == old(self).stores(),
            final(self).result_cap() == old(self).result_cap(),
            final(self).next_store() == old(self).next_store(),
            final(self).next_session() == old(self).next_session(),
    {
        let ghost old_s = self.sessions@;
        let n = self.sessions.len();
        for i in 0..n
            invariant
                n == old_s.len(),
                self.sessions@.len() == n,
                self.stores@ == old(self).stores@,
                self.max_results == old(self).max_results,
                self.next_store_id == old(self).next_store_id,
                self.next_session_id == old(self).next_session_id,
                old_s == old(self).sessions@,
                old(self).wf(),
                forall|j: int| 0 <= j < n ==> (#[trigger] self.sessions@[j]).0@ == old_s[j].0@,
                forall|j: int|
                    0 <= j < i ==> if old_s[j].1.store_id@ == store_id@ {
                        session_reset(old_s[j].1, (#[trigger] self.sessions@[j]).1)
                    } else {
                        self.sessions@[j] == old_s[j]
                    },
                forall|j: int| i <= j < n ==> #[trigger] self.sessions@[j] == old_s[j],
        {
            if str_eq(self.sessions[i].1.store_id.as_str(), store_id) {
                let ghost before = self.sessions@;
                let (key, mut session) = self.sessions.remove(i);
                session.reset();
                self.sessions.insert(i, (key, session));
                proof {
                    assert(self.sessions@ =~= before.update(i as int, (key, session)));
                }
            }
        }
        proof {
            let cur = self.sessions@;
            assert forall|a: int, b: int| 0 <= a < b < cur.len() implies (#[trigger] cur[a]).0@ != (#[trigger] cur[b]).0@ by {
                assert(old_s[a].0@ != old_s[b].0@);
            }
            let om = keyed_map(old_s);
            let nm = keyed_map(cur);
            assert forall|k: Seq<char>| nm.dom().contains(k) <==> om.dom().contains(k) by {
                if nm.dom().contains(k) {
                    let j = choose|j: int| #[trigger] key_at(cur, k, j);
                    assert(key_at(old_s, k, j));
                }
                if om.dom().contains(k) {
                    let j = choose|j: int| #[trigger] key_at(old_s, k, j);
                    assert(key_at(cur, k, j));
                }
            }
            assert(nm.dom() =~= om.dom());
            assert forall|k: Seq<char>| #[trigger] om.dom().contains(k) implies (if om[k].store_id@ == store_id@ {
                session_reset(om[k], nm[k])
            } else {
                nm[k] == om[k]
            }) by {
                let j = choose|j: int| #[trigger] key_at(old_s, k, j);
                lemma_keyed_map_at(old_s, j);
                lemma_keyed_map_at(cur, j);
            }
        }
    }

    /// Takes the store at position `i` out, leaving the list without it.
    proof fn lemma_replace_store(before: Seq<(String, Datastore)>, i: int, key: String, d: Datastore)
        requires
            keys_unique(before),
            0 <= i < before.len(),
            key@ == before[i].0@,
            forall|j: int| 0 <= j < before.len() ==> (#[trigger] before[j]).1.wf(),
            d.wf(),
        ensures
            keys_unique(before.update(i, (key, d))),
            forall|j: int| 0 <= j < before.len() ==> (#[trigger] before.update(i, (key, d))[j]).1.wf(),
            keyed_map(before.update(i, (key, d))) == keyed_map(before).insert(key@, d),
            keyed_map(before).dom().contains(key@),
            keyed_map(before)[key@] == before[i].1,
            only_store_changed(keyed_map(before), keyed_map(before.update(i, (key, d))), key@),
    {
        lemma_keyed_map_update(before, i, key, d);
        lemma_keyed_map_at(before, i);
        assert(keyed_map(before).insert(key@, d).dom() =~= keyed_map(before).dom());
    }

    /// Deletes all records of a datastore and resets its sessions.
    pub fn clear_datastore(&mut self, store_id: &str)
        requires
            old(self).wf(),
        ensures
            final(self).wf(),
            only_store_changed(old(self).stores(), final(self).stores(), store_id@),
            old(self).stores().dom().contains(store_id@) ==> {
                &&& final(self).stores()[store_id@].wf()
                &&& final(self).stores()[store_id@].spec_kind() == old(self).stores()[store_id@].spec_kind()
                &&& final(self).stores()[store_id@].is_empty()
            },
            sessions_reset_for(old(self).sessions(), final(self).sessions(), store_id@),
            final(self).result_cap() == old(self).result_cap(),
            final(self).next_store() == old(self).next_store(),
            final(self).next_session() == old(self).next_session(),
    {
        let ghost before = self.stores@;
        match find_key(&self.stores, store_id) {
            Some(i) => {
                let (key, mut store) = self.stores.remove(i);
                proof {
                    assert(store == before[i as int].1);
                }
                store.clear();
                self.stores.insert(i, (key, store));
                proof {
                    assert(self.stores@ =~= before.update(i as int, (key, store)));
                    Self::lemma_replace_store(before, i as int, key, store);
                }
            },
            None => {},
        }
        self.reset_sessions_for_store(store_id);
    }

    /// Starts a bulk rebuild of a datastore and resets its sessions.
    pub fn begin_bulk_load(&mut self, store_id: &str)
        requires
            old(self).wf(),
        ensures
            final(self).wf(),
            only_store_changed(old(self).stores(), final(self).stores(), store_id@),
            old(self).stores().dom().contains(store_id@) ==> {
                &&& final(self).stores()[store_id@].wf()
                &&& final(self).stores()[store_id@].spec_kind() == old(self).stores()[store_id@].spec_kind()
                &&& match final(self).stores()[store_id@] {
                    Datastore::Fuzzy(s) => s.slots().len() == 0,
                    Datastore::FullText(s) => {
                        &&& s.slots().len() == 0
                        &&& s.catalog().len() == 0
                        &&& s.posting_lists().len() == 0
                        &&& s.is_bulk_loading()
                        &&& s.uses_fuzzy_search()
                    },
                }
            },
            sessions_reset_for(old(self).sessions(), final(self).sessions(), store_id@),
            final(self).result_cap() == old(self).result_cap(),
            final(self).next_store() == old(self).next_store(),
            final(self).next_session() == old(self).next_session(),
    {
        let ghost before = self.stores@;
        match find_key(&self.stores, store_id) {
            Some(i) => {
                let (key, mut store) = self.stores.remove(i);
                proof {
                    assert(store == before[i as int].1);
                }
                store.begin_bulk_load();
                self.stores.insert(i, (key, store));
                proof {
                    assert(self.stores@ =~= before.update(i as int, (key, store)));
                    Self::lemma_replace_store(before, i as int, key, store);
                }
            },
            None => {},
        }
        self.reset_sessions_for_store(store_id);
    }

    /// Finishes a bulk rebuild of a datastore and resets its sessions.
    pub fn finish_bulk_load(&mut self, store_id: &str)
        requires
            old(self).wf(),
        ensures
            final(self).wf(),
            only_store_changed(old(self).stores(), final(self).stores(), store_id@),
            old(self).stores().dom().contains(store_id@) ==> Datastore::bulk_load_finished(
                old(self).stores()[store_id@],
                final(self).stores()[store_id@],
            ),
            sessions_reset_for(old(self).sessions(), final(self).sessions(), store_id@),
            final(self).result_cap() == old(self).result_cap(),
            final(self).next_store() == old(self).next_store(),
            final(self).next_session() == old(self).next_session(),
    {
        let ghost before = self.stores@;
        match find_key(&self.stores, store_id) {
            Some(i) => {
                let (key, mut store) = self.stores.remove(i);
                proof {
                    assert(store == before[i as int].1);
                }
                store.finish_bulk_load();
                self.stores.insert(i, (key, store));
                proof {
                    assert(self.stores@ =~= before.update(i as int, (key, store)));
                    Self::lemma_replace_store(before, i as int, key, store);
                }
            },
            None => {},
        }
        self.reset_sessions_for_store(store_id);
    }

    /// Inserts or replaces one record of a datastore and resets its
    /// sessions. Returns `false`, changing nothing, when the datastore exists
    /// and the text does not fit its integer types.
    pub fn upsert_record(&mut self, store_id: &str, id: &str, text: &str) -> (r: bool)
        requires
            old(self).wf(),
        ensures
            final(self).wf(),
            r == !(old(self).stores().dom().contains(store_id@) && !old(self).stores()[store_id@].can_take(text@)),
            !r ==> final(self).stores() == old(self).stores() && final(self).sessions() == old(self).sessions(),
            r ==> only_store_changed(old(self).stores(), final(self).stores(), store_id@),
            r && old(self).stores().dom().contains(store_id@) ==> Datastore::upserted(
                old(self).stores()[store_id@],
                final(self).stores()[store_id@],
                id@,
                text@,
            ),
            r ==> sessions_reset_for(old(self).sessions(), final(self).sessions(), store_id@),
            final(self).result_cap() == old(self).result_cap(),
            final(self).next_store() == old(self).next_store(),
            final(self).next_session() == old(self).next_session(),
    {
        let ghost before = self.stores@;
        match find_key(&self.stores, store_id) {
            Some(i) => {
                proof {
                    lemma_keyed_map_at(before, i as int);
                }
                if !self.stores[i].1.can_upsert(text) {
                    return false;
                }
                let (key, mut store) = self.stores.remove(i);
                proof {
                    assert(store == before[i as int].1);
                }
                store.upsert(id.to_owned(), text.to_owned());
                self.stores.insert(i, (key, store));
                proof {
                    assert(self.stores@ =~= before.update(i as int, (key, store)));
                    Self::lemma_replace_store(before, i as int, key, store);
                }
            },
            None => {},
        }
        self.reset_sessions_for_store(store_id);
        true
    }

    /// Deletes every record of a datastore whose id starts with `prefix` and
    /// resets its sessions.
    pub fn delete_records_by_prefix(&mut self, store_id: &str, prefix: &str)
        requires
            old(self).wf(),
        ensures
            final(self).wf(),
            only_store_changed(old(self).stores(), final(self).stores(), store_id@),
            old(self).stores().dom().contains(store_id@) ==> Datastore::prefix_removed(
                old(self).stores()[store_id@],
                final(self).stores()[store_id@],
                prefix@,
            ),
            sessions_reset_for(old(self).sessions(), final(self).sessions(), store_id@),
            final(self).result_cap() == old(self).result_cap(),
            final(self).next_store() == old(self).next_store(),
            final(self).next_session() == old(self).next_session(),
    {
        let ghost before = self.stores@;
        match find_key(&self.stores, store_id) {
            Some(i) => {
                let (key, mut store) = self.stores.remove(i);
                proof {
                    assert(store == before[i as int].1);
                }
                store.delete_by_prefix(prefix);
                self.stores.insert(i, (key, store));
                proof {
                    assert(self.stores@ =~= before.update(i as int, (key, store)));
                    Self::lemma_replace_store(before, i as int, key, store);
                }
            },
            None => {},
        }
        self.reset_sessions_for_store(store_id);
    }

    /// Inserts or replaces records of a datastore, in order, and resets its
    /// sessions; an unknown datastore is left alone. Stops and returns
    /// `false` at the first record whose text does not fit the datastore's
    /// integer types.
    pub fn upsert_records(&mut self, store_id: &str, records: Vec<(String, String)>) -> (r: bool)
        requires
            old(self).wf(),
        ensures
            final(self).wf(),
            !old(self).stores().dom().contains(store_id@) ==> {
                &&& r
                &&& final(self).stores() == old(self).stores()
                &&& final(self).sessions() == old(self).sessions()
            },
            old(self).stores().dom().contains(store_id@) ==> {
                let (a, b) = (old(self).stores()[store_id@], final(self).stores()[store_id@]);
                &&& only_store_changed(old(self).stores(), final(self).stores(), store_id@)
                &&& sessions_reset_for(old(self).sessions(), final(self).sessions(), store_id@)
                &&& r ==> Datastore::upserted_all(a, b, records@)
                &&& !r ==> exists|k: int|
                    0 <= k < records@.len() && Datastore::upserted_all(a, b, records@.take(k)) && !b.can_take(
                        (#[trigger] records@[k]).1@,
                    )
            },
            final(self).result_cap() == old(self).result_cap(),
            final(self).next_store() == old(self).next_store(),
            final(self).next_session() == old(self).next_session(),
    {
        let ghost before = self.stores@;
        let i = match find_key(&self.stores, store_id) {
            Some(i) => i,
            None => {
                return true;
            },
        };
        proof {
            lemma_keyed_map_at(before, i as int);
        }
        let (key, mut store) = self.stores.remove(i);
        let ghost start = store;
        proof {
            assert(store == before[i as int].1);
            Datastore::lemma_upserted_none(start, records@.take(0));
        }
        let n = records.len();
        let mut all_fit = true;
        let mut k: usize = 0;
        while k < n
            invariant_except_break
                all_fit,
            invariant
                n == records@.len(),
                k <= n,
                store.wf(),
                start == before[i as int].1,
                all_fit ==> Datastore::upserted_all(start, store, records@.take(k as int)),
                !all_fit ==> k < n && Datastore::upserted_all(start, store, records@.take(k as int)) && !store.can_take(
                    records@[k as int].1@,
                ),
            ensures
                all_fit ==> k == n,
            decreases n - k,
        {
            if !store.can_upsert(records[k].1.as_str()) {
                all_fit = false;
                break;
            }
            let ghost mid = store;
            store.upsert(records[k].0.clone(), records[k].1.clone());
            proof {
                let t = records@.take(k + 1);
                assert(t.drop_last() =~= records@.take(k as int));
                assert(t.last() == records@[k as int]);
                Datastore::lemma_upserted_all_step(start, mid, store, t);
            }
            k = k + 1;
        }
        proof {
            if all_fit {
                assert(records@.take(n as int) =~= records@);
            }
        }
        self.stores.insert(i, (key, store));
        proof {
            assert(self.stores@ =~= before.update(i as int, (key, store)));
            Self::lemma_replace_store(before, i as int, key, store);
        }
        self.reset_sessions_for_store(store_id);
        all_fit
    }

    /// Deletes records of a datastore by id, in order, and resets its
    /// sessions.
    pub fn delete_records(&mut self, store_id: &str, ids: Vec<String>)
        requires
            old(self).wf(),
        ensures
            final(self).wf(),
            only_store_changed(old(self).stores(), final(self).stores(), store_id@),
            old(self).stores().dom().contains(store_id@) ==> Datastore::deleted_all(
                old(self).stores()[store_id@],
                final(self).stores()[store_id@],
                ids@,
            ),
            sessions_reset_for(old(self).sessions(), final(self).sessions(), store_id@),
            final(self).result_cap() == old(self).result_cap(),
            final(self).next_store() == old(self).next_store(),
            final(self).next_session() == old(self).next_session(),
    {
        let ghost before = self.stores@;
        match find_key(&self.stores, store_id) {
            Some(i) => {
                let (key, mut store) = self.stores.remove(i);
                proof {
                    assert(store == before[i as int].1);
                }
                store.delete_each(&ids);
                self.stores.insert(i, (key, store));
                proof {
                    assert(self.stores@ =~= before.update(i as int, (key, store)));
                    Self::lemma_replace_store(before, i as int, key, store);
                }
            },
            None => {},
        }
        self.reset_sessions_for_store(store_id);
    }

    /// The first step of a search through a session: for an unknown session,
    /// or a session whose datastore is gone, no result; otherwise what the
    /// datastore's search step gives, with the session's state updated.
    pub fn search_session(&mut self, session_id: &str, query: &str) -> (r: SearchStep)
        requires
            old(self).wf(),
            query@.len() < usize::MAX,
        ensures
            final(self).wf(),
            final(self).stores() == old(self).stores(),
            final(self).result_cap() == old(self).result_cap(),
            final(self).next_store() == old(self).next_store(),
            final(self).next_session() == old(self).next_session(),
            if old(self).sessions().dom().contains(session_id@) && old(self).stores().dom().contains(
                old(self).sessions()[session_id@].store_id@,
            ) {
                let before = old(self).sessions()[session_id@];
                &&& final(self).sessions().dom() == old(self).sessions().dom()
                &&& forall|k: Seq<char>|
                    #[trigger] old(self).sessions().dom().contains(k) && k != session_id@ ==> final(self).sessions()[k]
                        == old(self).sessions()[k]
                &&& Datastore::searched(
                    old(self).stores()[before.store_id@],
                    before,
                    final(self).sessions()[session_id@],
                    query@,
                    old(self).result_cap(),
                    r,
                )
            } else {
                &&& final(self).sessions() == old(self).sessions()
                &&& r matches SearchStep::Done(results) && results@.len() == 0
            },
    {
        let ghost before = self.sessions@;
        let i = match find_key(&self.sessions, session_id) {
            Some(i) => i,
            None => {
                return SearchStep::Done(Vec::new());
            },
        };
        proof {
            lemma_keyed_map_at(before, i as int);
        }
        let j = match find_key(&self.stores, self.sessions[i].1.store_id.as_str()) {
            Some(j) => j,
            None => {
                return SearchStep::Done(Vec::new());
            },
        };
        proof {
            lemma_keyed_map_at(self.stores@, j as int);
        }
        let (key, mut session) = self.sessions.remove(i);
        let step = self.stores[j].1.search(&mut session, query, self.max_results);
        self.sessions.insert(i, (key, session));
        proof {
            assert(self.sessions@ =~= before.update(i as int, (key, session)));
            lemma_keyed_map_update(before, i as int, key, session);
            assert(keyed_map(before).insert(key@, session).dom() =~= keyed_map(before).dom());
        }
        step
    }

    /// The full-text datastore that a session searches, if the session
    /// exists and its datastore is a full-text one; its posting lists and
    /// records feed the scoring of a search's positive atoms.
    pub fn session_full_text_store(&self, session_id: &str) -> (r: Option<&FullTextDatastore>)
        requires
            self.wf(),
        ensures
            match r {
                Some(s) => {
                    &&& self.sessions().dom().contains(session_id@)
                    &&& self.stores().dom().contains(self.sessions()[session_id@].store_id@)
                    &&& self.stores()[self.sessions()[session_id@].store_id@] == Datastore::FullText(*s)
                    &&& s.wf()
                },
                None => !(self.sessions().dom().contains(session_id@) && self.stores().dom().contains(
                    self.sessions()[session_id@].store_id@,
                ) && self.stores()[self.sessions()[session_id@].store_id@] is FullText),
            },
    {
        let i = match find_key(&self.sessions, session_id) {
            Some(i) => i,
            None => {
                return None;
            },
        };
        proof {
            lemma_keyed_map_at(self.sessions@, i as int);
        }
        let j = match find_key(&self.stores, self.sessions[i].1.store_id.as_str()) {
            Some(j) => j,
            None => {
                return None;
            },
        };
        proof {
            lemma_keyed_map_at(self.stores@, j as int);
        }
        match &self.stores[j].1 {
            Datastore::FullText(s) => Some(s),
            Datastore::Fuzzy(_) => None,
        }
    }

    /// The last step of a full-text search through a session: ranks the
    /// records from the scores of the query's positive atoms (see
    /// `FullTextDatastore::rank`), with the engine's result cap. A session
    /// that is unknown or not on a full-text datastore gives no result.
    pub fn rank_session(&self, session_id: &str, query: &ResolvedQuery, group_scores: &Vec<Vec<(u32, u32)>>) -> (r: Vec<StoreSearchResult>)
        requires
            self.wf(),
            scores_fit(group_scores@),
            self.sessions().dom().contains(session_id@) && self.stores().dom().contains(
                self.sessions()[session_id@].store_id@,
            ) && self.stores()[self.sessions()[session_id@].store_id@] is FullText ==> groups_pair_atom_records(
                (self.stores()[self.sessions()[session_id@].store_id@]->FullText_0).slots(),
                *query,
                group_scores@,
            ),
        ensures
            if self.sessions().dom().contains(session_id@) && self.stores().dom().contains(
                self.sessions()[session_id@].store_id@,
            ) && self.stores()[self.sessions()[session_id@].store_id@] is FullText {
                let s = self.stores()[self.sessions()[session_id@].store_id@]->FullText_0;
                &&& ranked(s, *query, group_scores@, self.result_cap(), r@)
                &&& r@.len() <= self.result_cap()
                &&& forall|i: int, j: int| 0 <= i < j < r@.len() ==> (#[trigger] r@[j]).score <= (#[trigger] r@[i]).score
                &&& forall|k: int| 0 <= k < r@.len() ==> result_matches_atoms(#[trigger] r@[k], s.slots(), *query)
            } else {
                r@.len() == 0
            },
    {
        match self.session_full_text_store(session_id) {
            Some(store) => store.rank(query, group_scores, self.max_results),
            None => Vec::new(),
        }
    }
}

impl Default for SearchEngine {
    /// An empty engine, as `SearchEngine::new`.
    fn default() -> (r: Self)
        ensures
            r.wf(),
            r.stores().dom().len() == 0,
            r.sessions().dom().len() == 0,
            r.result_cap() == DEFAULT_MAX_RESULTS,
            r.next_store() == 1,
            r.next_session() == 1,
    {
        Self::new()
    }
}

} // verus!

