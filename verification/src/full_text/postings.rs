//! Posting lists: per-term lists of (record index, term frequency) entries.
use vstd::prelude::*;

verus! {

broadcast use vstd::seq_lib::group_seq_properties;

/// A single term occurrence summary inside an inverted-index posting list.
#[derive(Debug, Clone, Copy)]
pub struct Posting {
    pub record_idx: u32,
    pub term_frequency: u32,
}

/// The list holds an entry for record `r`.
pub open spec fn has_record(s: Seq<Posting>, r: u32) -> bool {
    exists|k: int| 0 <= k < s.len() && (#[trigger] s[k]).record_idx == r
}

/// Entries are strictly increasing by record index.
pub open spec fn sorted_postings(s: Seq<Posting>) -> bool {
    forall|i: int, j: int|
        0 <= i < j < s.len() ==> (#[trigger] s[i]).record_idx < (#[trigger] s[j]).record_idx
}

/// No two entries share a record index.
pub open spec fn unique_postings(s: Seq<Posting>) -> bool {
    forall|i: int, j: int|
        0 <= i < j < s.len() ==> (#[trigger] s[i]).record_idx != (#[trigger] s[j]).record_idx
}

/// First position whose record index is not below `record_idx` in a sorted
/// list (binary search).
pub fn lower_bound(postings: &[Posting], record_idx: u32) -> (r: usize)
    requires
        sorted_postings(postings@),
    ensures
        r <= postings@.len(),
        forall|k: int| 0 <= k < r ==> (#[trigger] postings@[k]).record_idx < record_idx,
        forall|k: int| r <= k < postings@.len() ==> (#[trigger] postings@[k]).record_idx >= record_idx,
{
    let mut lo: usize = 0;
    let mut hi: usize = postings.len();
    while lo < hi
        invariant
            lo <= hi <= postings@.len(),
            sorted_postings(postings@),
            forall|k: int| 0 <= k < lo ==> (#[trigger] postings@[k]).record_idx < record_idx,
            forall|k: int| hi <= k < postings@.len() ==> (#[trigger] postings@[k]).record_idx >= record_idx,
        decreases hi - lo,
    {
        let mid = lo + (hi - lo) / 2;
        if postings[mid].record_idx < record_idx {
            lo = mid + 1;
        } else {
            hi = mid;
        }
    }
    lo
}

/// Finds a record inside a sorted posting list.
pub fn find_posting(postings: &[Posting], record_idx: u32) -> (r: Option<usize>)
    requires
        sorted_postings(postings@),
    ensures
        match r {
            Some(k) => k < postings@.len() && postings@[k as int].record_idx == record_idx,
            None => !has_record(postings@, record_idx),
        },
{
    let k = lower_bound(postings, record_idx);
    if k < postings.len() && postings[k].record_idx == record_idx {
        Some(k)
    } else {
        proof {
            if has_record(postings@, record_idx) {
                let j = choose|j: int|
                    0 <= j < postings@.len() && (#[trigger] postings@[j]).record_idx == record_idx;
                if j > k {
                    assert(postings@[k as int].record_idx < postings@[j].record_idx);
                }
            }
        }
        None
    }
}

/// Inserts or replaces a posting while preserving record-index sort order.
pub fn insert_posting(postings: &mut Vec<Posting>, record_idx: u32, term_frequency: u32)
    requires
        sorted_postings(old(postings)@),
    ensures
        sorted_postings(final(postings)@),
        forall|p: Posting|
            final(postings)@.contains(p) <==> (p == Posting { record_idx, term_frequency } || (old(
                postings,
            )@.contains(p) && p.record_idx != record_idx)),
{
    let entry = Posting { record_idx, term_frequency };
    let ghost before = postings@;
    let n = postings.len();
    if n == 0 || postings[n - 1].record_idx < record_idx {
        postings.push(entry);
        proof {
            let s = postings@;
            assert(s == before.push(entry));
            assert forall|p: Posting| s.contains(p) <==> (p == entry || (before.contains(p)
                && p.record_idx != record_idx)) by {
                if before.contains(p) {
                    let k = choose|k: int| 0 <= k < before.len() && before[k] == p;
                    assert(s[k] == p);
                    if k < n - 1 {
                        assert(before[k].record_idx < before[n - 1].record_idx);
                    }
                }
                if s.contains(p) && p != entry {
                    let k = choose|k: int| 0 <= k < s.len() && s[k] == p;
                    assert(k < n);
                    assert(before[k] == p);
                }
                if p == entry {
                    assert(s[n as int] == p);
                }
            }
        }
        return;
    }
    let k = lower_bound(postings.as_slice(), record_idx);
    if k < n && postings[k].record_idx == record_idx {
        postings.set(k, entry);
        proof {
            let s = postings@;
            assert forall|p: Posting| s.contains(p) <==> (p == entry || (before.contains(p)
                && p.record_idx != record_idx)) by {
                if before.contains(p) && p.record_idx != record_idx {
                    let j = choose|j: int| 0 <= j < before.len() && before[j] == p;
                    assert(s[j] == p);
                }
                if s.contains(p) && p != entry {
                    let j = choose|j: int| 0 <= j < s.len() && s[j] == p;
                    assert(j != k);
                    assert(before[j] == p);
                    assert(before[j].record_idx != before[k as int].record_idx);
                }
                if p == entry {
                    assert(s[k as int] == p);
                }
            }
        }
    } else {
        postings.insert(k, entry);
        proof {
            let s = postings@;
            assert(s == before.insert(k as int, entry));
            assert forall|p: Posting| s.contains(p) <==> (p == entry || (before.contains(p)
                && p.record_idx != record_idx)) by {
                if before.contains(p) {
                    let j = choose|j: int| 0 <= j < before.len() && before[j] == p;
                    if j < k {
                        assert(s[j] == p);
                    } else {
                        assert(s[j + 1] == p);
                    }
                }
                if s.contains(p) && p != entry {
                    let j = choose|j: int| 0 <= j < s.len() && s[j] == p;
                    if j < k {
                        assert(before[j] == p);
                    } else if j > k {
                        assert(before[j - 1] == p);
                    }
                }
                if p == entry {
                    assert(s[k as int] == p);
                }
            }
        }
    }
}

/// Removes every entry for a record from a list that holds at most one entry
/// per record; a sorted list is searched by bisection, an unsorted one
/// linearly.
pub fn remove_posting(postings: &mut Vec<Posting>, record_idx: u32, sorted: bool)
    requires
        unique_postings(old(postings)@),
        sorted ==> sorted_postings(old(postings)@),
    ensures
        unique_postings(final(postings)@),
        sorted_postings(old(postings)@) ==> sorted_postings(final(postings)@),
        forall|p: Posting|
            final(postings)@.contains(p) <==> (old(postings)@.contains(p) && p.record_idx
                != record_idx),
{
    let ghost before = postings@;
    let position = if sorted {
        find_posting(postings.as_slice(), record_idx)
    } else {
        let mut found: Option<usize> = None;
        let n = postings.len();
        for i in 0..n
            invariant
                n == postings@.len(),
                postings@ == before,
                found is None ==> forall|k: int|
                    0 <= k < i ==> (#[trigger] postings@[k]).record_idx != record_idx,
                found matches Some(k) ==> k < n && postings@[k as int].record_idx == record_idx,
        {
            if found.is_none() && postings[i].record_idx == record_idx {
                found = Some(i);
            }
        }
        proof {
            if found is None && has_record(before, record_idx) {
                let j = choose|j: int|
                    0 <= j < before.len() && (#[trigger] before[j]).record_idx == record_idx;
                assert(before[j].record_idx != record_idx);
            }
        }
        found
    };
    match position {
        Some(k) => {
            postings.remove(k);
            proof {
                let s = postings@;
                assert(s == before.remove(k as int));
                assert forall|p: Posting| s.contains(p) <==> (before.contains(p) && p.record_idx
                    != record_idx) by {
                    if before.contains(p) && p.record_idx != record_idx {
                        let j = choose|j: int| 0 <= j < before.len() && before[j] == p;
                        if j < k {
                            assert(s[j] == p);
                        } else {
                            assert(j != k);
                            assert(s[j - 1] == p);
                        }
                    }
                    if s.contains(p) {
                        let j = choose|j: int| 0 <= j < s.len() && s[j] == p;
                        if j < k {
                            assert(before[j] == p);
                            assert(before[j].record_idx != before[k as int].record_idx);
                        } else {
                            assert(before[j + 1] == p);
                            assert(before[j + 1].record_idx != before[k as int].record_idx);
                        }
                    }
                }
                assert forall|i: int, j: int| 0 <= i < j < s.len() implies (#[trigger] s[i]).record_idx
                    != (#[trigger] s[j]).record_idx by {
                    let bi = if i < k { i } else { i + 1 };
                    let bj = if j < k { j } else { j + 1 };
                    assert(s[i] == before[bi]);
                    assert(s[j] == before[bj]);
                }
                if sorted_postings(before) {
                    assert forall|i: int, j: int| 0 <= i < j < s.len() implies (#[trigger] s[i]).record_idx
                        < (#[trigger] s[j]).record_idx by {
                        let bi = if i < k { i } else { i + 1 };
                        let bj = if j < k { j } else { j + 1 };
                        assert(s[i] == before[bi]);
                        assert(s[j] == before[bj]);
                    }
                }
            }
        },
        None => {
            proof {
                assert forall|p: Posting| before.contains(p) implies p.record_idx != record_idx by {
                    let j = choose|j: int| 0 <= j < before.len() && before[j] == p;
                    if p.record_idx == record_idx {
                        assert(has_record(before, record_idx));
                    }
                }
            }
        },
    }
}

/// Sorts a list with one entry per record by record index (the posting list
/// form that bulk loading leaves behind).
pub fn sort_postings(postings: Vec<Posting>) -> (r: Vec<Posting>)
    requires
        unique_postings(postings@),
    ensures
        sorted_postings(r@),
        forall|p: Posting| r@.contains(p) <==> postings@.contains(p),
{
    let mut r: Vec<Posting> = Vec::new();
    let n = postings.len();
    for i in 0..n
        invariant
            n == postings@.len(),
            unique_postings(postings@),
            sorted_postings(r@),
            forall|p: Posting| r@.contains(p) <==> postings@.take(i as int).contains(p),
    {
        let p = postings[i];
        proof {
            assert forall|q: Posting| r@.contains(q) implies q.record_idx != p.record_idx by {
                let j = choose|j: int| 0 <= j < i && postings@.take(i as int)[j] == q;
                assert(postings@[j] == q);
            }
        }
        let ghost before = r@;
        insert_posting(&mut r, p.record_idx, p.term_frequency);
        proof {
            let t = postings@.take(i + 1);
            assert(t == postings@.take(i as int).push(p));
            assert forall|q: Posting| r@.contains(q) <==> t.contains(q) by {
                if t.contains(q) {
                    let j = choose|j: int| 0 <= j < t.len() && t[j] == q;
                    if j < i {
                        assert(postings@.take(i as int)[j] == q);
                        assert(before.contains(q));
                    }
                }
                if before.contains(q) {
                    assert(postings@.take(i as int).contains(q));
                    let j = choose|j: int| 0 <= j < i && postings@.take(i as int)[j] == q;
                    assert(t[j] == q);
                }
                assert(t[i as int] == p);
            }
        }
    }
    assert(postings@.take(n as int) =~= postings@);
    r
}

} // verus!
