//! Search results addressed by external record id.
use vstd::prelude::*;

verus! {

broadcast use vstd::seq_lib::group_seq_properties;

/// The `[start, end)` range pairs of a list of char indices: consecutive
/// indices (each one more than the previous) share a range, any other index
/// starts a new range.
pub open spec fn spec_highlight_ranges(s: Seq<u32>) -> Seq<u32>
    decreases s.len(),
{
    if s.len() == 0 {
        seq![]
    } else if s.len() == 1 {
        seq![s[0], (s[0] + 1) as u32]
    } else {
        let prev = spec_highlight_ranges(s.drop_last());
        let x = s.last();
        if x == s[s.len() - 2] + 1 {
            prev.update(prev.len() - 1, (x + 1) as u32)
        } else {
            prev + seq![x, (x + 1) as u32]
        }
    }
}

/// The ranges always come in pairs and are never empty for a nonempty list.
pub proof fn lemma_highlight_ranges_len(s: Seq<u32>)
    ensures
        spec_highlight_ranges(s).len() % 2 == 0,
        s.len() > 0 ==> spec_highlight_ranges(s).len() >= 2,
        spec_highlight_ranges(s).len() <= 2 * s.len(),
    decreases s.len(),
{
    if s.len() > 1 {
        lemma_highlight_ranges_len(s.drop_last());
    }
}

/// Index `x` lies in one of the `[start, end)` pairs of `r`.
pub open spec fn in_some_range(r: Seq<u32>, x: u32) -> bool {
    exists|k: int| 0 <= k < r.len() / 2 && #[trigger] r[2 * k] <= x < r[2 * k + 1]
}

/// For strictly increasing indices, the ranges are nonempty, apart (each
/// ends before the next starts, with a gap), and cover exactly the indices.
pub proof fn lemma_highlight_ranges_cover(s: Seq<u32>)
    requires
        forall|i: int, j: int| 0 <= i < j < s.len() ==> s[i] < s[j],
        forall|i: int| 0 <= i < s.len() ==> s[i] < u32::MAX,
    ensures
        ({
            let r = spec_highlight_ranges(s);
            &&& r.len() % 2 == 0
            &&& forall|k: int| 0 <= k < r.len() / 2 ==> #[trigger] r[2 * k] < r[2 * k + 1]
            &&& forall|k: int| 0 <= k < r.len() / 2 - 1 ==> #[trigger] r[2 * k + 1] < r[2 * k + 2]
            &&& forall|x: u32| s.contains(x) <==> in_some_range(r, x)
            &&& s.len() > 0 ==> r.last() == s.last() + 1
        }),
    decreases s.len(),
{
    lemma_highlight_ranges_len(s);
    let r = spec_highlight_ranges(s);
    if s.len() == 1 {
        assert forall|x: u32| s.contains(x) <==> in_some_range(r, x) by {
            if in_some_range(r, x) {
                let k = choose|k: int| 0 <= k < r.len() / 2 && #[trigger] r[2 * k] <= x < r[2 * k + 1];
                assert(k == 0);
                assert(s[0] == x);
            }
            if s.contains(x) {
                assert(r[2 * 0int] <= x < r[2 * 0int + 1]);
            }
        }
    } else if s.len() > 1 {
        let sd = s.drop_last();
        lemma_highlight_ranges_cover(sd);
        lemma_highlight_ranges_len(sd);
        let p = spec_highlight_ranges(sd);
        let x = s.last();
        let last = s[s.len() - 2];
        assert(sd.last() == last);
        assert(last < x);
        let m: int = (p.len() / 2) as int;
        if x == last + 1 {
            assert(r == p.update(p.len() - 1, (x + 1) as u32));
            assert forall|k: int| 0 <= k < r.len() / 2 implies #[trigger] r[2 * k] < r[2 * k + 1] by {
                assert(p[2 * k] < p[2 * k + 1]);
                if k == m - 1 {
                    assert(2 * k + 1 == p.len() - 1);
                }
            }
            assert forall|k: int| 0 <= k < r.len() / 2 - 1 implies #[trigger] r[2 * k + 1] < r[2 * k + 2] by {
                assert(p[2 * k + 1] < p[2 * k + 2]);
            }
            assert forall|y: u32| s.contains(y) <==> in_some_range(r, y) by {
                assert(s.contains(y) <==> (sd.contains(y) || y == x)) by {
                    if s.contains(y) && y != x {
                        let j = choose|j: int| 0 <= j < s.len() && s[j] == y;
                        assert(sd[j] == y);
                    }
                    if sd.contains(y) {
                        let j = choose|j: int| 0 <= j < sd.len() && sd[j] == y;
                        assert(s[j] == y);
                    }
                    if y == x {
                        assert(s[s.len() - 1] == y);
                    }
                }
                if in_some_range(r, y) {
                    let k = choose|k: int| 0 <= k < r.len() / 2 && #[trigger] r[2 * k] <= y < r[2 * k + 1];
                    if k < m - 1 || y < x {
                        if k == m - 1 {
                            assert(p[2 * k] <= y < p[2 * k + 1]);
                        } else {
                            assert(r[2 * k] == p[2 * k] && r[2 * k + 1] == p[2 * k + 1]);
                        }
                        assert(in_some_range(p, y));
                    }
                }
                if sd.contains(y) {
                    assert(in_some_range(p, y));
                    let k = choose|k: int| 0 <= k < p.len() / 2 && #[trigger] p[2 * k] <= y < p[2 * k + 1];
                    if k == m - 1 {
                        assert(r[2 * k] <= y < r[2 * k + 1]);
                    } else {
                        assert(r[2 * k] == p[2 * k] && r[2 * k + 1] == p[2 * k + 1]);
                    }
                }
                if y == x {
                    let k = m - 1;
                    assert(p[2 * k + 1] == x);
                    assert(p[2 * k] < x);
                    assert(r[2 * k] <= y < r[2 * k + 1]);
                }
            }
        } else {
            assert(r == p + seq![x, (x + 1) as u32]);
            assert forall|k: int| 0 <= k < r.len() / 2 implies #[trigger] r[2 * k] < r[2 * k + 1] by {
                if k < m {
                    assert(p[2 * k] < p[2 * k + 1]);
                }
            }
            assert forall|k: int| 0 <= k < r.len() / 2 - 1 implies #[trigger] r[2 * k + 1] < r[2 * k + 2] by {
                if k < m - 1 {
                    assert(p[2 * k + 1] < p[2 * k + 2]);
                } else {
                    assert(r[2 * k + 1] == p.last());
                }
            }
            assert forall|y: u32| s.contains(y) <==> in_some_range(r, y) by {
                assert(s.contains(y) <==> (sd.contains(y) || y == x)) by {
                    if s.contains(y) && y != x {
                        let j = choose|j: int| 0 <= j < s.len() && s[j] == y;
                        assert(sd[j] == y);
                    }
                    if sd.contains(y) {
                        let j = choose|j: int| 0 <= j < sd.len() && sd[j] == y;
                        assert(s[j] == y);
                    }
                    if y == x {
                        assert(s[s.len() - 1] == y);
                    }
                }
                if in_some_range(r, y) {
                    let k = choose|k: int| 0 <= k < r.len() / 2 && #[trigger] r[2 * k] <= y < r[2 * k + 1];
                    if k < m {
                        assert(r[2 * k] == p[2 * k] && r[2 * k + 1] == p[2 * k + 1]);
                        assert(in_some_range(p, y));
                    }
                }
                if sd.contains(y) {
                    assert(in_some_range(p, y));
                    let k = choose|k: int| 0 <= k < p.len() / 2 && #[trigger] p[2 * k] <= y < p[2 * k + 1];
                    assert(r[2 * k] == p[2 * k] && r[2 * k + 1] == p[2 * k + 1]);
                }
                if y == x {
                    assert(r[2 * m] <= y < r[2 * m + 1]);
                }
            }
        }
    }
}

/// Converts char indices into `[start, end)` range pairs.
pub fn compact_highlight_ranges(indices: &[u32]) -> (r: Vec<u32>)
    requires
        forall|i: int| 0 <= i < indices@.len() ==> indices@[i] < u32::MAX,
    ensures
        r@ == spec_highlight_ranges(indices@),
{
    if indices.len() == 0 {
        return Vec::new();
    }
    let mut ranges: Vec<u32> = Vec::new();
    let mut start = indices[0];
    let mut prev = indices[0];
    let n = indices.len();
    let mut i: usize = 1;
    proof {
        assert(indices@.take(1) =~= seq![indices@[0]]);
    }
    while i < n
        invariant
            n == indices@.len(),
            1 <= i <= n,
            forall|k: int| 0 <= k < n ==> indices@[k] < u32::MAX,
            prev == indices@[i - 1],
            prev < u32::MAX,
            ranges@.push(start).push((prev + 1) as u32) == spec_highlight_ranges(indices@.take(i as int)),
        decreases n - i,
    {
        let index = indices[i];
        let ghost t1 = indices@.take(i + 1);
        proof {
            assert(t1.drop_last() =~= indices@.take(i as int));
            assert(t1[t1.len() - 2] == prev);
            assert(t1.last() == index);
        }
        if index == prev + 1 {
            prev = index;
            proof {
                let h = spec_highlight_ranges(indices@.take(i as int));
                assert(ranges@.push(start).push((prev + 1) as u32) =~= h.update(
                    h.len() - 1,
                    (index + 1) as u32,
                ));
            }
        } else {
            ranges.push(start);
            ranges.push(prev + 1);
            start = index;
            prev = index;
            proof {
                let h = spec_highlight_ranges(indices@.take(i as int));
                assert(ranges@.push(start).push((prev + 1) as u32) =~= h + seq![
                    index,
                    (index + 1) as u32,
                ]);
            }
        }
        i = i + 1;
    }
    ranges.push(start);
    ranges.push(prev + 1);
    assert(indices@.take(n as int) =~= indices@);
    ranges
}

/// Datastore search result addressed by external record id.
#[derive(Debug, Clone)]
pub struct StoreSearchResult {
    pub id: String,
    pub score: u32,
    pub highlight_ranges: Vec<u32>,
    pub matched_terms: Vec<String>,
}

impl StoreSearchResult {
    /// Builds a result without highlight ranges.
    pub fn new(id: String, score: u32) -> (r: Self)
        ensures
            r.id@ == id@,
            r.score == score,
            r.highlight_ranges@.len() == 0,
            r.matched_terms@.len() == 0,
    {
        StoreSearchResult { id, score, highlight_ranges: Vec::new(), matched_terms: Vec::new() }
    }

    /// Builds a result and compacts individual matched indices into ranges.
    pub fn new_from_ranges(id: String, score: u32, highlight_ranges: &[u32]) -> (r: Self)
        requires
            forall|i: int| 0 <= i < highlight_ranges@.len() ==> highlight_ranges@[i] < u32::MAX,
        ensures
            r.id@ == id@,
            r.score == score,
            r.highlight_ranges@ == spec_highlight_ranges(highlight_ranges@),
            r.matched_terms@.len() == 0,
    {
        StoreSearchResult {
            id,
            score,
            highlight_ranges: compact_highlight_ranges(highlight_ranges),
            matched_terms: Vec::new(),
        }
    }

    /// Builds a result with the matched terms reported by the search.
    pub fn with_matched_terms(id: String, score: u32, matched_terms: Vec<String>) -> (r: Self)
        ensures
            r.id@ == id@,
            r.score == score,
            r.highlight_ranges@.len() == 0,
            r.matched_terms@ == matched_terms@,
    {
        StoreSearchResult { id, score, highlight_ranges: Vec::new(), matched_terms }
    }
}

} // verus!
