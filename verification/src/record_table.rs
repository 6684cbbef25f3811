//! Sparse record storage shared by the search datastores.
//!
//! Deletions leave reusable slots so numeric record indices stay stable while
//! avoiding unbounded tombstone growth across update/delete cycles.
use crate::text::{chars_of, chars_starts_with, seq_starts_with};
use vstd::hash_map::StringHashMap;
use vstd::prelude::*;

verus! {

/// A record stored in a sparse table with a stable external id.
pub struct StoredRecord<T> {
    pub id: String,
    pub value: T,
}

/// `slots[i]` holds a live record whose id is `id`.
pub open spec fn id_at<T>(slots: Seq<Option<StoredRecord<T>>>, id: Seq<char>, i: int) -> bool {
    &&& 0 <= i < slots.len()
    &&& slots[i] matches Some(r)
    &&& r.id@ == id
}

/// Some slot holds a live record with this id.
pub open spec fn has_id<T>(slots: Seq<Option<StoredRecord<T>>>, id: Seq<char>) -> bool {
    exists|i: int| id_at(slots, id, i)
}

/// No two live slots share an id.
pub open spec fn unique_ids<T>(slots: Seq<Option<StoredRecord<T>>>) -> bool {
    forall|i: int, j: int, id: Seq<char>|
        #![trigger id_at(slots, id, i), id_at(slots, id, j)]
        id_at(slots, id, i) && id_at(slots, id, j) ==> i == j
}

/// `new` is `old` with the record of `id` replaced (in its own slot) or
/// added (in a vacant slot or a new last slot); the record now in that slot
/// satisfies `good`, and every other slot is unchanged.
pub open spec fn slot_upserted<T>(
    old: Seq<Option<StoredRecord<T>>>,
    new: Seq<Option<StoredRecord<T>>>,
    id: Seq<char>,
    good: spec_fn(T) -> bool,
) -> bool {
    exists|idx: int|
        {
            &&& id_at(new, id, idx)
            &&& (#[trigger] new[idx]) matches Some(r) && good(r.value)
            &&& {
                ||| idx < old.len() && new == old.update(idx, new[idx])
                ||| idx == old.len() && new == old.push(new[idx])
            }
            &&& has_id(old, id) ==> id_at(old, id, idx)
            &&& !has_id(old, id) && idx < old.len() ==> old[idx] is None
        }
}

/// Where an upsert of `id` puts its record, and what becomes of the vacant
/// slots (listed in the order they were vacated): a present id keeps its
/// slot; a new id takes the most recently vacated slot, or a new last slot
/// when none is vacant.
pub open spec fn upsert_slot<T>(
    old: Seq<Option<StoredRecord<T>>>,
    new: Seq<Option<StoredRecord<T>>>,
    old_vacant: Seq<usize>,
    new_vacant: Seq<usize>,
    id: Seq<char>,
) -> bool {
    if has_id(old, id) {
        &&& new_vacant == old_vacant
        &&& new.len() == old.len()
    } else if old_vacant.len() > 0 {
        &&& id_at(new, id, old_vacant.last() as int)
        &&& new_vacant == old_vacant.drop_last()
        &&& new.len() == old.len()
    } else {
        &&& id_at(new, id, old.len() as int)
        &&& new_vacant == old_vacant
        &&& new.len() == old.len() + 1
    }
}

/// A delete of `id` adds its former slot, if it had one, to the end of the
/// vacant slots.
pub open spec fn delete_slot<T>(
    old: Seq<Option<StoredRecord<T>>>,
    old_vacant: Seq<usize>,
    new_vacant: Seq<usize>,
    id: Seq<char>,
) -> bool {
    if has_id(old, id) {
        exists|idx: int| id_at(old, id, idx) && new_vacant == old_vacant.push(idx as usize)
    } else {
        new_vacant == old_vacant
    }
}

/// The vacant slots are listed once each, and they are exactly the vacant
/// slots of the table.
pub open spec fn vacant_slots_listed<T>(slots: Seq<Option<StoredRecord<T>>>, vacant: Seq<usize>) -> bool {
    &&& vacant.no_duplicates()
    &&& forall|k: int| 0 <= k < vacant.len() ==> #[trigger] vacant[k] < slots.len() && slots[vacant[k] as int] is None
    &&& forall|i: int| 0 <= i < slots.len() && #[trigger] slots[i] is None ==> vacant.contains(i as usize)
    &&& live_count(slots) + vacant.len() == slots.len()
}

/// `new` is `old` without the record of `id`: its slot, if it had one, is
/// vacant and every other slot is unchanged.
pub open spec fn slot_deleted<T>(old: Seq<Option<StoredRecord<T>>>, new: Seq<Option<StoredRecord<T>>>, id: Seq<char>) -> bool {
    if has_id(old, id) {
        exists|idx: int| id_at(old, id, idx) && new == old.update(idx, None)
    } else {
        new == old
    }
}

/// `new` is `old` without the records whose ids start with `prefix`: the
/// same number of slots, every live slot of `new` as in `old`, and exactly
/// the other ids still present.
pub open spec fn prefix_deleted<T>(old: Seq<Option<StoredRecord<T>>>, new: Seq<Option<StoredRecord<T>>>, prefix: Seq<char>) -> bool {
    &&& new.len() == old.len()
    &&& forall|i: int| 0 <= i < new.len() ==> (#[trigger] new[i] is Some ==> new[i] == old[i])
    &&& forall|id: Seq<char>| has_id(new, id) <==> (has_id(old, id) && !seq_starts_with(id, prefix))
}

/// Number of live slots whose ids start with `prefix`.
pub open spec fn live_count_with_prefix<T>(slots: Seq<Option<StoredRecord<T>>>, prefix: Seq<char>) -> nat
    decreases slots.len(),
{
    if slots.len() == 0 {
        0
    } else {
        live_count_with_prefix(slots.drop_last(), prefix) + if slots.last() matches Some(r) && seq_starts_with(
            r.id@,
            prefix,
        ) {
            1nat
        } else {
            0nat
        }
    }
}

/// What deleting the records whose ids start with `prefix` leaves of a slot.
pub open spec fn kept_unless_prefixed<T>(slot: Option<StoredRecord<T>>, prefix: Seq<char>) -> Option<StoredRecord<T>> {
    if slot matches Some(r) && !seq_starts_with(r.id@, prefix) {
        slot
    } else {
        None
    }
}

/// Delete by prefix, then count: every live record whose id starts with
/// `prefix` leaves its slot vacant, every other record stays in its slot,
/// and the live count drops by the number of the former; with the empty
/// prefix no record is left.
pub proof fn lemma_prefix_deleted_counts<T>(old: Seq<Option<StoredRecord<T>>>, new: Seq<Option<StoredRecord<T>>>, prefix: Seq<char>)
    requires
        unique_ids(old),
        prefix_deleted(old, new, prefix),
    ensures
        new.len() == old.len(),
        forall|i: int| 0 <= i < old.len() ==> new[i] == kept_unless_prefixed(#[trigger] old[i], prefix),
        live_count(new) + live_count_with_prefix(old, prefix) == live_count(old),
        prefix.len() == 0 ==> live_count(new) == 0,
{
    assert forall|i: int| 0 <= i < old.len() implies new[i] == kept_unless_prefixed(#[trigger] old[i], prefix) by {
        if new[i] is Some {
            assert(new[i] == old[i]);
            let r = new[i]->0;
            assert(id_at(new, r.id@, i));
            assert(has_id(new, r.id@));
        } else if old[i] is Some {
            let r = old[i]->0;
            if !seq_starts_with(r.id@, prefix) {
                assert(id_at(old, r.id@, i));
                assert(has_id(old, r.id@));
                assert(has_id(new, r.id@));
                let j = choose|j: int| id_at(new, r.id@, j);
                assert(new[j] == old[j]);
                assert(id_at(old, r.id@, j));
            }
        }
    }
    lemma_live_count_split(old, new, prefix);
    if prefix.len() == 0 {
        lemma_empty_prefix_count(old, prefix);
    }
}

/// Slot by slot, `new` keeps the records of `old` whose ids do not start
/// with `prefix`: the live counts differ by the prefixed records.
proof fn lemma_live_count_split<T>(old: Seq<Option<StoredRecord<T>>>, new: Seq<Option<StoredRecord<T>>>, prefix: Seq<char>)
    requires
        new.len() == old.len(),
        forall|i: int| 0 <= i < old.len() ==> new[i] == kept_unless_prefixed(#[trigger] old[i], prefix),
    ensures
        live_count(new) + live_count_with_prefix(old, prefix) == live_count(old),
    decreases old.len(),
{
    if old.len() > 0 {
        let (od, nd) = (old.drop_last(), new.drop_last());
        assert forall|i: int| 0 <= i < od.len() implies nd[i] == kept_unless_prefixed(#[trigger] od[i], prefix) by {
            assert(nd[i] == new[i] && od[i] == old[i]);
        }
        lemma_live_count_split(od, nd, prefix);
        assert(new.last() == kept_unless_prefixed(old.last(), prefix));
    }
}

/// Every id starts with the empty prefix.
proof fn lemma_empty_prefix_count<T>(slots: Seq<Option<StoredRecord<T>>>, prefix: Seq<char>)
    requires
        prefix.len() == 0,
    ensures
        live_count_with_prefix(slots, prefix) == live_count(slots),
    decreases slots.len(),
{
    if slots.len() > 0 {
        lemma_empty_prefix_count(slots.drop_last(), prefix);
        if slots.last() is Some {
            assert(slots.last()->0.id@.subrange(0, 0) =~= prefix);
        }
    }
}

/// Upsert, then look up: after an upsert of `id`, a live record has `id`.
pub proof fn lemma_upserted_present<T>(
    old: Seq<Option<StoredRecord<T>>>,
    new: Seq<Option<StoredRecord<T>>>,
    id: Seq<char>,
    good: spec_fn(T) -> bool,
)
    requires
        slot_upserted(old, new, id, good),
    ensures
        has_id(new, id),
{
}

/// Delete, then look up: after deleting `id` from a table whose ids are
/// unique, no live record has `id`.
pub proof fn lemma_deleted_absent<T>(old: Seq<Option<StoredRecord<T>>>, new: Seq<Option<StoredRecord<T>>>, id: Seq<char>)
    requires
        unique_ids(old),
        slot_deleted(old, new, id),
    ensures
        !has_id(new, id),
{
    if has_id(new, id) {
        let j = choose|j: int| id_at(new, id, j);
        if has_id(old, id) {
            let idx = choose|idx: int| id_at(old, id, idx) && new == old.update(idx, None);
            assert(j != idx);
            assert(id_at(old, id, j));
        } else {
            assert(id_at(old, id, j));
        }
    }
}

/// Number of live slots.
pub open spec fn live_count<T>(slots: Seq<Option<StoredRecord<T>>>) -> nat
    decreases slots.len(),
{
    if slots.len() == 0 {
        0
    } else {
        live_count(slots.drop_last()) + if slots.last() is Some {
            1nat
        } else {
            0nat
        }
    }
}

/// Ids of the live slots, in slot order.
pub open spec fn live_ids<T>(slots: Seq<Option<StoredRecord<T>>>) -> Seq<Seq<char>>
    decreases slots.len(),
{
    if slots.len() == 0 {
        seq![]
    } else {
        let prev = live_ids(slots.drop_last());
        match slots.last() {
            Some(r) => prev.push(r.id@),
            None => prev,
        }
    }
}

/// Updating one slot changes the live count by the difference of the slot's
/// liveness.
pub proof fn lemma_live_count_update<T>(
    slots: Seq<Option<StoredRecord<T>>>,
    i: int,
    x: Option<StoredRecord<T>>,
)
    requires
        0 <= i < slots.len(),
    ensures
        live_count(slots.update(i, x)) + (if slots[i] is Some { 1int } else { 0int })
            == live_count(slots) + (if x is Some { 1int } else { 0int }),
    decreases slots.len(),
{
    let u = slots.update(i, x);
    if i == slots.len() - 1 {
        assert(u.drop_last() =~= slots.drop_last());
    } else {
        assert(u.drop_last() =~= slots.drop_last().update(i, x));
        lemma_live_count_update(slots.drop_last(), i, x);
    }
}

/// A live id is found in the list of live ids, and every listed id is live.
pub proof fn lemma_live_ids_contains<T>(slots: Seq<Option<StoredRecord<T>>>, id: Seq<char>)
    ensures
        live_ids(slots).contains(id) <==> has_id(slots, id),
    decreases slots.len(),
{
    if slots.len() > 0 {
        let d = slots.drop_last();
        let n = slots.len() - 1;
        lemma_live_ids_contains(d, id);
        let prev = live_ids(d);
        let cur = live_ids(slots);
        if has_id(d, id) {
            let i = choose|i: int| id_at(d, id, i);
            assert(id_at(slots, id, i));
        }
        if has_id(slots, id) {
            let i = choose|i: int| id_at(slots, id, i);
            if i < n {
                assert(id_at(d, id, i));
            }
        }
        match slots[n] {
            Some(r) => {
                assert(cur == prev.push(r.id@));
                if r.id@ == id {
                    assert(id_at(slots, id, n));
                    assert(cur[prev.len() as int] == id);
                }
                if prev.contains(id) {
                    let k = choose|k: int| 0 <= k < prev.len() && prev[k] == id;
                    assert(cur[k] == id);
                }
                if cur.contains(id) && r.id@ != id {
                    let k = choose|k: int| 0 <= k < cur.len() && cur[k] == id;
                    assert(prev[k] == id);
                }
            },
            None => {
                assert(cur == prev);
                if has_id(slots, id) {
                    let i = choose|i: int| id_at(slots, id, i);
                    assert(i != n);
                }
            },
        }
    }
}

/// The live count never exceeds the slot count.
pub proof fn lemma_live_count_bound<T>(slots: Seq<Option<StoredRecord<T>>>)
    ensures
        live_count(slots) <= slots.len(),
    decreases slots.len(),
{
    if slots.len() > 0 {
        lemma_live_count_bound(slots.drop_last());
    }
}

/// How one upsert, delete or clear changes the slot count: a clear leaves no
/// slot; otherwise the count stays, or grows by one live slot at the end,
/// which happens only when no slot is vacant.
pub open spec fn slot_count_step<T>(a: RecordTable<T>, b: RecordTable<T>) -> bool {
    ||| b.slots().len() == 0
    ||| b.slots().len() == a.slots().len()
    ||| a.free_slots().len() == 0 && exists|r: StoredRecord<T>| b.slots() == a.slots().push(Some(r))
}

/// The largest live count reached along `runs[0..=n]` since the table last
/// had no slot.
pub open spec fn peak_live<T>(runs: Seq<RecordTable<T>>, n: int) -> nat
    decreases n,
{
    if n <= 0 || runs[n].slots().len() == 0 {
        live_count(runs[n].slots())
    } else {
        let before = peak_live(runs, n - 1);
        let now = live_count(runs[n].slots());
        if now > before {
            now
        } else {
            before
        }
    }
}

/// Vacant slots are reused before the table grows: along any sequence of
/// upserts, deletes and clears starting from an empty table, the slot count
/// equals the largest number of live records reached since the start or
/// the last time the table was emptied; the vacant slots not yet reused
/// are the slots beyond the live ones; and the live ids (what `record_ids`
/// lists) are the ids of the live records, once each, one per live record.
pub proof fn lemma_slot_count_is_peak_live<T>(runs: Seq<RecordTable<T>>)
    requires
        runs.len() > 0,
        runs[0].slots().len() == 0,
        forall|k: int| 0 <= k < runs.len() ==> (#[trigger] runs[k]).wf(),
        forall|k: int| 0 <= k < runs.len() - 1 ==> slot_count_step(#[trigger] runs[k], runs[k + 1]),
    ensures
        runs.last().slots().len() == peak_live(runs, runs.len() - 1),
        runs.last().slots().len() - live_count(runs.last().slots()) == runs.last().free_slots().len(),
        live_ids(runs.last().slots()).no_duplicates(),
        live_ids(runs.last().slots()).len() == live_count(runs.last().slots()),
        forall|id: Seq<char>| #[trigger] live_ids(runs.last().slots()).contains(id) <==> has_id(runs.last().slots(), id),
{
    lemma_slot_count_is_peak_live_upto(runs, runs.len() - 1);
    let t = runs.last();
    assert(runs[runs.len() - 1].wf());
    t.lemma_wf();
    lemma_live_ids_unique(t.slots());
    assert forall|id: Seq<char>| #[trigger] live_ids(t.slots()).contains(id) <==> has_id(t.slots(), id) by {
        lemma_live_ids_contains(t.slots(), id);
    }
}

/// The slot count after the first `n` steps is the peak live count so far.
proof fn lemma_slot_count_is_peak_live_upto<T>(runs: Seq<RecordTable<T>>, n: int)
    requires
        0 <= n < runs.len(),
        runs[0].slots().len() == 0,
        forall|k: int| 0 <= k < runs.len() ==> (#[trigger] runs[k]).wf(),
        forall|k: int| 0 <= k < runs.len() - 1 ==> slot_count_step(#[trigger] runs[k], runs[k + 1]),
    ensures
        runs[n].slots().len() == peak_live(runs, n),
    decreases n,
{
    let b = runs[n];
    assert(b.wf());
    lemma_live_count_bound(b.slots());
    if n == 0 {
        assert(b.slots() =~= Seq::<Option<StoredRecord<T>>>::empty());
    } else if b.slots().len() == 0 {
        assert(b.slots() =~= Seq::<Option<StoredRecord<T>>>::empty());
    } else {
        let a = runs[n - 1];
        lemma_slot_count_is_peak_live_upto(runs, n - 1);
        assert(slot_count_step(a, b));
        assert(a.wf());
        if b.slots().len() != a.slots().len() {
            let r = choose|r: StoredRecord<T>| b.slots() == a.slots().push(Some(r));
            assert(b.slots().drop_last() =~= a.slots());
            assert(live_count(a.slots()) == a.slots().len());
        }
    }
}

/// With unique ids, the live ids are listed once each, one per live slot.
pub proof fn lemma_live_ids_unique<T>(slots: Seq<Option<StoredRecord<T>>>)
    requires
        unique_ids(slots),
    ensures
        live_ids(slots).no_duplicates(),
        live_ids(slots).len() == live_count(slots),
    decreases slots.len(),
{
    if slots.len() > 0 {
        let d = slots.drop_last();
        let n = slots.len() - 1;
        assert forall|i: int, j: int, id: Seq<char>|
            #![trigger id_at(d, id, i), id_at(d, id, j)]
            id_at(d, id, i) && id_at(d, id, j) implies i == j by {
            assert(id_at(slots, id, i) && id_at(slots, id, j));
        }
        lemma_live_ids_unique(d);
        if slots[n] is Some {
            let id = slots[n]->0.id@;
            lemma_live_ids_contains(d, id);
            if live_ids(d).contains(id) {
                let j = choose|j: int| id_at(d, id, j);
                assert(id_at(slots, id, j) && id_at(slots, id, n));
            }
            let prev = live_ids(d);
            assert forall|a: int, b: int| 0 <= a < b < prev.push(id).len() implies prev.push(id)[a] != prev.push(id)[b] by {
                if b == prev.len() {
                    assert(prev.contains(prev[a]));
                }
            }
        }
    }
}

/// Sparse record storage shared by search datastores.
pub struct RecordTable<T> {
    records: Vec<Option<StoredRecord<T>>>,
    id_to_index: StringHashMap<usize>,
    free_indices: Vec<usize>,
    live_record_count: usize,
}

impl<T> RecordTable<T> {
    /// The slots of the table, live or vacant.
    pub closed spec fn slots(&self) -> Seq<Option<StoredRecord<T>>> {
        self.records@
    }

    /// Vacant slots available for reuse; the last one is reused first.
    pub closed spec fn free_slots(&self) -> Seq<usize> {
        self.free_indices@
    }

    /// The table's internal consistency.
    pub closed spec fn wf(&self) -> bool {
        &&& self.live_record_count + self.free_indices@.len() == self.records@.len()
        &&& self.live_record_count == live_count(self.records@)
        &&& self.free_indices@.no_duplicates()
        &&& forall|k: int|
            0 <= k < self.free_indices@.len() ==> {
                &&& #[trigger] self.free_indices@[k] < self.records@.len()
                &&& self.records@[self.free_indices@[k] as int] is None
            }
        &&& forall|i: int|
            0 <= i < self.records@.len() && #[trigger] self.records@[i] is None
                ==> self.free_indices@.contains(i as usize)
        &&& forall|id: Seq<char>| #[trigger]
            self.id_to_index@.contains_key(id) ==> id_at(
                self.records@,
                id,
                self.id_to_index@[id] as int,
            )
        &&& forall|id: Seq<char>, i: int| #[trigger]
            id_at(self.records@, id, i) ==> self.id_to_index@.contains_key(id)
                && self.id_to_index@[id] == i
    }

    /// Facts that follow from well-formedness: ids are unique, vacant slots
    /// are exactly the free list, and the live count matches.
    pub proof fn lemma_wf(&self)
        requires
            self.wf(),
        ensures
            unique_ids(self.slots()),
            self.free_slots().no_duplicates(),
            forall|k: int|
                0 <= k < self.free_slots().len() ==> {
                    &&& #[trigger] self.free_slots()[k] < self.slots().len()
                    &&& self.slots()[self.free_slots()[k] as int] is None
                },
            forall|i: int|
                0 <= i < self.slots().len() && #[trigger] self.slots()[i] is None
                    ==> self.free_slots().contains(i as usize),
            live_count(self.slots()) + self.free_slots().len() == self.slots().len(),
    {
    }

    /// Creates an empty table.
    pub fn new() -> (r: Self)
        ensures
            r.wf(),
            r.slots() == Seq::<Option<StoredRecord<T>>>::empty(),
            r.free_slots() == Seq::<usize>::empty(),
    {
        RecordTable {
            records: Vec::new(),
            id_to_index: StringHashMap::new(),
            free_indices: Vec::new(),
            live_record_count: 0,
        }
    }

    /// Inserts or replaces a record, returning its slot and the replaced
    /// record. A replaced record keeps its slot; a new id takes the most
    /// recently freed slot, or a new slot at the end.
    pub fn upsert(&mut self, id: String, value: T) -> (r: (usize, Option<StoredRecord<T>>))
        requires
            old(self).wf(),
        ensures
            final(self).wf(),
            slot_count_step(*old(self), *final(self)),
            ({
                let old_slots = old(self).slots();
                let new_slots = final(self).slots();
                let rec = Some(StoredRecord { id: id, value: value });
                if has_id(old_slots, id@) {
                    &&& id_at(old_slots, id@, r.0 as int)
                    &&& r.1 == old_slots[r.0 as int]
                    &&& new_slots == old_slots.update(r.0 as int, rec)
                    &&& final(self).free_slots() == old(self).free_slots()
                } else if old(self).free_slots().len() > 0 {
                    &&& r.0 == old(self).free_slots().last()
                    &&& r.1 is None
                    &&& new_slots == old_slots.update(r.0 as int, rec)
                    &&& final(self).free_slots() == old(self).free_slots().drop_last()
                } else {
                    &&& r.0 == old_slots.len()
                    &&& r.1 is None
                    &&& new_slots == old_slots.push(rec)
                    &&& final(self).free_slots() == old(self).free_slots()
                }
            }),
    {
        let ghost old_slots = self.records@;
        let found = match self.id_to_index.get(id.as_str()) {
            Some(i) => Some(*i),
            None => None,
        };
        let idx: usize;
        let mut replaced: Option<StoredRecord<T>> = None;
        if let Some(i) = found {
            assert(id_at(old_slots, id@, i as int));
            idx = i;
            proof {
                lemma_live_count_update(old_slots, idx as int, None);
            }
            assert(self.live_record_count >= 1);
            self.records.set_and_swap(idx, &mut replaced);
            self.live_record_count = self.live_record_count - 1;
            assert(self.live_record_count < self.records@.len());
        } else if self.free_indices.len() > 0 {
            assert(!has_id(old_slots, id@));
            let i = self.free_indices.pop().unwrap();
            idx = i;
            proof {
                assert(self.free_indices@ == old(self).free_indices@.drop_last());
                assert(old(self).free_indices@[old(self).free_indices@.len() - 1] == i);
            }
            assert(self.live_record_count < self.records@.len());
        } else {
            assert(!has_id(old_slots, id@));
            idx = self.records.len();
            self.records.push(None);
            proof {
                assert(self.records@.drop_last() == old_slots);
                assert(live_count(self.records@) == live_count(old_slots));
            }
            assert(self.live_record_count < self.records@.len());
        }
        let ghost mid = self.records@;
        let ghost key = id@;
        self.id_to_index.insert(id.clone(), idx);
        let mut rec = Some(StoredRecord { id, value });
        self.records.set_and_swap(idx, &mut rec);
        proof {
            lemma_live_count_update(mid, idx as int, self.records@[idx as int]);
        }
        let n = self.records.len();
        assert(self.live_record_count < n);
        self.live_record_count = self.live_record_count + 1;
        proof {
            let s = self.records@;
            assert forall|k: int| 0 <= k < self.free_indices@.len() implies {
                &&& #[trigger] self.free_indices@[k] < s.len()
                &&& s[self.free_indices@[k] as int] is None
            } by {
                if found is None && old(self).free_indices@.len() > 0 {
                    assert(old(self).free_indices@[k] == self.free_indices@[k]);
                    assert(old(self).free_indices@[k] != idx);
                }
            }
            assert forall|i: int| 0 <= i < s.len() && #[trigger] s[i] is None implies
                self.free_indices@.contains(i as usize) by {
                assert(i != idx);
                assert(i < n);
                if i < old_slots.len() {
                    assert(old_slots[i] is None);
                    assert(old(self).free_indices@.contains(i as usize));
                    if found is None && old(self).free_indices@.len() > 0 {
                        let k = choose|k: int|
                            0 <= k < old(self).free_indices@.len()
                                && old(self).free_indices@[k] == i as usize;
                        assert(old(self).free_indices@[old(self).free_indices@.len() - 1] == idx);
                        assert(k != old(self).free_indices@.len() - 1);
                        assert(self.free_indices@[k] == i as usize);
                    }
                }
            }
            assert forall|kid: Seq<char>| #[trigger]
                self.id_to_index@.contains_key(kid) implies id_at(
                s,
                kid,
                self.id_to_index@[kid] as int,
            ) by {
                if kid != key {
                    let j = old(self).id_to_index@[kid];
                    assert(id_at(old_slots, kid, j as int));
                    if j == idx {
                        assert(found is Some);
                        assert(id_at(old_slots, key, idx as int));
                    }
                }
            }
            assert forall|kid: Seq<char>, i: int| #[trigger]
                id_at(s, kid, i) implies self.id_to_index@.contains_key(kid)
                && self.id_to_index@[kid] == i by {
                if i != idx {
                    assert(id_at(old_slots, kid, i));
                    if kid == key {
                        assert(has_id(old_slots, key));
                        assert(found is Some);
                        assert(id_at(old_slots, key, idx as int));
                    }
                }
            }
            if found is None && old(self).free_indices@.len() > 0 {
                assert(self.free_indices@.no_duplicates());
            }
            if found is None && old(self).free_indices@.len() == 0 {
                let r = s[idx as int]->0;
                assert(s =~= old_slots.push(Some(r)));
            }
        }
        (idx, replaced)
    }

    /// Deletes a live record and makes its slot available for reuse.
    pub fn delete(&mut self, id: &str) -> (r: Option<(usize, StoredRecord<T>)>)
        requires
            old(self).wf(),
        ensures
            final(self).wf(),
            slot_count_step(*old(self), *final(self)),
            ({
                let old_slots = old(self).slots();
                if has_id(old_slots, id@) {
                    &&& r matches Some((i, rec))
                    &&& id_at(old_slots, id@, i as int)
                    &&& old_slots[i as int] == Some(rec)
                    &&& final(self).slots() == old_slots.update(i as int, None)
                    &&& final(self).free_slots() == old(self).free_slots().push(i)
                } else {
                    &&& r is None
                    &&& final(self).slots() == old_slots
                    &&& final(self).free_slots() == old(self).free_slots()
                }
            }),
    {
        let ghost old_slots = self.records@;
        let found = match self.id_to_index.get(id) {
            Some(i) => Some(*i),
            None => None,
        };
        match found {
            None => {
                proof {
                    if has_id(old_slots, id@) {
                        let i = choose|i: int| id_at(old_slots, id@, i);
                        assert(self.id_to_index@.contains_key(id@));
                    }
                }
                None
            },
            Some(idx) => {
                assert(id_at(old_slots, id@, idx as int));
                self.id_to_index.remove(id);
                let mut taken: Option<StoredRecord<T>> = None;
                self.records.set_and_swap(idx, &mut taken);
                proof {
                    lemma_live_count_update(old_slots, idx as int, None);
                }
                self.live_record_count = self.live_record_count - 1;
                self.free_indices.push(idx);
                proof {
                    let s = self.records@;
                    assert forall|k: int| 0 <= k < self.free_indices@.len() implies {
                        &&& #[trigger] self.free_indices@[k] < s.len()
                        &&& s[self.free_indices@[k] as int] is None
                    } by {
                        if k < old(self).free_indices@.len() {
                            assert(old(self).free_indices@[k] == self.free_indices@[k]);
                        }
                    }
                    assert forall|i: int| 0 <= i < s.len() && #[trigger] s[i] is None implies
                        self.free_indices@.contains(i as usize) by {
                        if i != idx {
                            assert(old(self).free_indices@.contains(i as usize));
                            let k = choose|k: int|
                                0 <= k < old(self).free_indices@.len()
                                    && old(self).free_indices@[k] == i as usize;
                            assert(self.free_indices@[k] == i as usize);
                        } else {
                            assert(self.free_indices@[self.free_indices@.len() - 1] == idx);
                        }
                    }
                    assert forall|kid: Seq<char>| #[trigger]
                        self.id_to_index@.contains_key(kid) implies id_at(
                        s,
                        kid,
                        self.id_to_index@[kid] as int,
                    ) by {
                        assert(id_at(old_slots, kid, old(self).id_to_index@[kid] as int));
                    }
                    assert forall|kid: Seq<char>, i: int| #[trigger]
                        id_at(s, kid, i) implies self.id_to_index@.contains_key(kid)
                        && self.id_to_index@[kid] == i by {
                        assert(id_at(old_slots, kid, i));
                    }
                    assert forall|a: int, b: int|
                        0 <= a < b < self.free_indices@.len() implies self.free_indices@[a]
                        != self.free_indices@[b] by {
                        if b == self.free_indices@.len() - 1 {
                            assert(old(self).free_indices@[a] == self.free_indices@[a]);
                        } else {
                            assert(old(self).free_indices@[a] == self.free_indices@[a]);
                            assert(old(self).free_indices@[b] == self.free_indices@[b]);
                        }
                    }
                }
                match taken {
                    Some(rec) => Some((idx, rec)),
                    None => None,
                }
            },
        }
    }

    /// Removes every record and every vacant slot.
    pub fn clear(&mut self)
        requires
            old(self).wf(),
        ensures
            final(self).wf(),
            slot_count_step(*old(self), *final(self)),
            final(self).slots() == Seq::<Option<StoredRecord<T>>>::empty(),
            final(self).free_slots() == Seq::<usize>::empty(),
    {
        self.records.clear();
        self.id_to_index.clear();
        self.free_indices.clear();
        self.live_record_count = 0;
    }

    /// Returns the live record in slot `idx`, if any.
    pub fn get(&self, idx: usize) -> (r: Option<&StoredRecord<T>>)
        ensures
            match r {
                Some(rec) => idx < self.slots().len() && self.slots()[idx as int] == Some(*rec),
                None => idx >= self.slots().len() || self.slots()[idx as int] is None,
            },
    {
        if idx < self.records.len() {
            match &self.records[idx] {
                Some(rec) => Some(rec),
                None => None,
            }
        } else {
            None
        }
    }

    /// Number of slots, live or vacant.
    pub fn slot_count(&self) -> (r: usize)
        ensures
            r == self.slots().len(),
    {
        self.records.len()
    }

    /// Number of live records.
    pub fn live_record_count(&self) -> (r: usize)
        requires
            self.wf(),
        ensures
            r == live_count(self.slots()),
    {
        self.live_record_count
    }

    /// Number of vacant slots.
    pub fn tombstone_count(&self) -> (r: usize)
        requires
            self.wf(),
        ensures
            r == self.slots().len() - live_count(self.slots()),
    {
        self.records.len() - self.live_record_count
    }

    /// Ids of the live records that start with `prefix`.
    pub fn ids_with_prefix(&self, prefix: &str) -> (r: Vec<String>)
        requires
            self.wf(),
        ensures
            forall|id: Seq<char>|
                r.deep_view().contains(id) <==> (has_id(self.slots(), id) && seq_starts_with(id, prefix@)),
            r.deep_view().no_duplicates(),
    {
        proof {
            self.lemma_wf();
        }
        let p = chars_of(prefix);
        let mut r: Vec<String> = Vec::new();
        let n = self.records.len();
        for i in 0..n
            invariant
                n == self.records@.len(),
                p@ == prefix@,
                unique_ids(self.records@),
                r.deep_view().no_duplicates(),
                forall|id: Seq<char>|
                    r.deep_view().contains(id) <==> (exists|j: int| 0 <= j < i && id_at(self.records@, id, j))
                        && seq_starts_with(id, prefix@),
        {
            let ghost before = r.deep_view();
            match &self.records[i] {
                Some(rec) => {
                    let c = chars_of(rec.id.as_str());
                    if chars_starts_with(c.as_slice(), p.as_slice()) {
                        proof {
                            if before.contains(rec.id@) {
                                let j = choose|j: int| 0 <= j < i && id_at(self.records@, rec.id@, j);
                                assert(id_at(self.records@, rec.id@, i as int));
                            }
                        }
                        r.push(rec.id.clone());
                        proof {
                            assert(r.deep_view() =~= before.push(rec.id@));
                        }
                    }
                },
                None => {},
            }
            proof {
                assert forall|id: Seq<char>|
                    r.deep_view().contains(id) <==> (exists|j: int| 0 <= j < i + 1 && id_at(self.records@, id, j))
                        && seq_starts_with(id, prefix@) by {
                    if r.deep_view().contains(id) && !before.contains(id) {
                        let k = choose|k: int| 0 <= k < r.deep_view().len() && r.deep_view()[k] == id;
                        assert(k == before.len());
                        assert(id_at(self.records@, id, i as int));
                    }
                    if before.contains(id) {
                        let k = choose|k: int| 0 <= k < before.len() && before[k] == id;
                        assert(r.deep_view()[k] == id);
                    }
                    if (exists|j: int| 0 <= j < i + 1 && id_at(self.records@, id, j)) && seq_starts_with(id, prefix@) {
                        let j = choose|j: int| 0 <= j < i + 1 && id_at(self.records@, id, j);
                        if j == i {
                            assert(r.deep_view()[r.deep_view().len() - 1] == id);
                        }
                    }
                }
            }
        }
        r
    }

    /// Ids of the live records, in slot order.
    pub fn record_ids(&self) -> (r: Vec<String>)
        ensures
            r.deep_view() == live_ids(self.slots()),
    {
        let mut r: Vec<String> = Vec::new();
        let n = self.records.len();
        for i in 0..n
            invariant
                n == self.records@.len(),
                r.deep_view() == live_ids(self.records@.take(i as int)),
        {
            proof {
                assert(self.records@.take(i + 1).drop_last() =~= self.records@.take(i as int));
            }
            match &self.records[i] {
                Some(rec) => {
                    r.push(rec.id.clone());
                    proof {
                        assert(r.deep_view() =~= live_ids(self.records@.take(i as int)).push(
                            rec.id@,
                        ));
                    }
                },
                None => {},
            }
        }
        proof {
            assert(self.records@.take(n as int) =~= self.records@);
        }
        r
    }
}

} // verus!
