//! Bounded collection of the highest scoring entries.
use vstd::multiset::Multiset;
use vstd::prelude::*;

verus! {

/// Score/index pair kept by the bounded top-score collection.
#[derive(Debug, Clone, Copy)]
pub struct ScoredIndex(pub u32, pub usize);

/// Position `pos` holds an entry with the lowest score of `s`.
pub open spec fn is_min_position(s: Seq<ScoredIndex>, pos: int) -> bool {
    &&& 0 <= pos < s.len()
    &&& forall|j: int| 0 <= j < s.len() ==> s[pos].0 <= (#[trigger] s[j]).0
}

/// What one push into a bounded top-score collection of capacity `max`
/// produces: below capacity the entry is added; at capacity it replaces an
/// entry of lowest score when it scores strictly higher, and is dropped
/// otherwise.
pub open spec fn pushed_top_score(
    old: Seq<ScoredIndex>,
    new: Seq<ScoredIndex>,
    entry: ScoredIndex,
    max: usize,
) -> bool {
    if old.len() < max {
        new == old.push(entry)
    } else if old.len() == 0 {
        new == old
    } else {
        exists|pos: int|
            is_min_position(old, pos) && if entry.0 > old[pos].0 {
                new == old.remove(pos).push(entry)
            } else {
                new == old
            }
    }
}

/// `kept` holds `min(max, seen.len())` of the entries of `seen`, and every
/// entry of `seen` left out scores no higher than any kept entry.
pub open spec fn is_top_k(kept: Seq<ScoredIndex>, seen: Seq<ScoredIndex>, max: usize) -> bool {
    &&& kept.to_multiset().subset_of(seen.to_multiset())
    &&& kept.len() == if seen.len() < max { seen.len() } else { max as nat }
    &&& forall|x: ScoredIndex|
        #![trigger seen.to_multiset().count(x)]
        seen.to_multiset().count(x) > kept.to_multiset().count(x) ==> forall|j: int|
            0 <= j < kept.len() ==> x.0 <= (#[trigger] kept[j]).0
}

/// `runs[k]` is the collection after pushing the first `k` entries of `xs`,
/// one after another, into an empty collection of capacity `max`.
pub open spec fn pushes_from_empty(runs: Seq<Seq<ScoredIndex>>, xs: Seq<ScoredIndex>, max: usize) -> bool {
    &&& runs.len() == xs.len() + 1
    &&& runs[0].len() == 0
    &&& forall|k: int| 0 <= k < xs.len() ==> pushed_top_score(#[trigger] runs[k], runs[k + 1], xs[k], max)
}

/// Pushing every entry of `xs`, one after another, into an empty bounded
/// top-score collection keeps `min(max, xs.len())` entries of `xs`, and
/// every entry left out scores no higher than any entry kept.
pub proof fn lemma_pushes_keep_top_k(runs: Seq<Seq<ScoredIndex>>, xs: Seq<ScoredIndex>, max: usize)
    requires
        pushes_from_empty(runs, xs, max),
    ensures
        is_top_k(runs.last(), xs, max),
{
    lemma_pushes_keep_top_k_upto(runs, xs, max, xs.len() as int);
    assert(xs.take(xs.len() as int) =~= xs);
}

/// The first `n` pushes keep the best of the first `n` entries.
proof fn lemma_pushes_keep_top_k_upto(runs: Seq<Seq<ScoredIndex>>, xs: Seq<ScoredIndex>, max: usize, n: int)
    requires
        pushes_from_empty(runs, xs, max),
        0 <= n <= xs.len(),
    ensures
        is_top_k(runs[n], xs.take(n), max),
    decreases n,
{
    broadcast use vstd::multiset::group_multiset_axioms;

    if n == 0 {
        assert(runs[0] =~= Seq::<ScoredIndex>::empty());
        assert(xs.take(0) =~= Seq::<ScoredIndex>::empty());
        runs[0].to_multiset_ensures();
        xs.take(0).to_multiset_ensures();
    } else {
        lemma_pushes_keep_top_k_upto(runs, xs, max, n - 1);
        assert(pushed_top_score(runs[n - 1], runs[n], xs[n - 1], max));
        lemma_push_top_score_keeps_top_k(runs[n - 1], runs[n], xs.take(n - 1), xs[n - 1], max);
        assert(xs.take(n - 1).push(xs[n - 1]) =~= xs.take(n));
    }
}

/// One push into a bounded top-score collection preserves the top-k
/// property.
pub proof fn lemma_push_top_score_keeps_top_k(
    kept: Seq<ScoredIndex>,
    new: Seq<ScoredIndex>,
    seen: Seq<ScoredIndex>,
    entry: ScoredIndex,
    max: usize,
)
    requires
        is_top_k(kept, seen, max),
        pushed_top_score(kept, new, entry, max),
    ensures
        is_top_k(new, seen.push(entry), max),
{
    broadcast use vstd::seq_lib::group_seq_properties;
    broadcast use vstd::multiset::group_multiset_axioms;

    seen.to_multiset_ensures();
    kept.to_multiset_ensures();
    new.to_multiset_ensures();
    let sm = seen.push(entry).to_multiset();
    assert(sm =~= seen.to_multiset().insert(entry));
    if kept.len() < max {
        assert(new == kept.push(entry));
        assert(new.to_multiset() =~= kept.to_multiset().insert(entry));
        assert(kept.len() == seen.len());
        assert forall|x: ScoredIndex| seen.to_multiset().count(x) <= kept.to_multiset().count(x) by {
            if seen.to_multiset().count(x) > kept.to_multiset().count(x) {
                // kept is a sub-multiset of seen of the same size, so they are equal
                lemma_subset_same_len(kept.to_multiset(), seen.to_multiset(), x);
            }
        }
    } else if kept.len() == 0 {
        assert(new == kept);
    } else {
        let pos = choose|pos: int|
            is_min_position(kept, pos) && if entry.0 > kept[pos].0 {
                new == kept.remove(pos).push(entry)
            } else {
                new == kept
            };
        let m = kept[pos];
        if entry.0 > m.0 {
            let rest = kept.remove(pos);
            rest.to_multiset_ensures();
            assert(rest.to_multiset() =~= kept.to_multiset().remove(m));
            assert(new.to_multiset() =~= kept.to_multiset().remove(m).insert(entry));
            assert(kept.to_multiset().count(m) > 0) by {
                assert(kept.contains(m));
            }
            assert forall|x: ScoredIndex| sm.count(x) > new.to_multiset().count(x) implies forall|j: int|
                0 <= j < new.len() ==> x.0 <= (#[trigger] new[j]).0 by {
                assert forall|j: int| 0 <= j < new.len() implies x.0 <= (#[trigger] new[j]).0 by {
                    if j == new.len() - 1 {
                        assert(new[j] == entry);
                        if seen.to_multiset().count(x) > kept.to_multiset().count(x) {
                            assert(x.0 <= kept[pos].0);
                        } else {
                            assert(x == m);
                        }
                    } else {
                        let kj = if j < pos { j } else { j + 1 };
                        assert(new[j] == kept[kj]);
                        if seen.to_multiset().count(x) > kept.to_multiset().count(x) {
                        } else {
                            assert(x == m);
                            assert(m.0 <= kept[kj].0);
                        }
                    }
                }
            }
        } else {
            assert(new == kept);
            assert forall|x: ScoredIndex| sm.count(x) > new.to_multiset().count(x) implies forall|j: int|
                0 <= j < new.len() ==> x.0 <= (#[trigger] new[j]).0 by {
                assert forall|j: int| 0 <= j < new.len() implies x.0 <= (#[trigger] new[j]).0 by {
                    if seen.to_multiset().count(x) <= kept.to_multiset().count(x) {
                        assert(x == entry);
                        assert(m.0 <= kept[j].0);
                    }
                }
            }
        }
    }
}

/// A sub-multiset as large as its super-multiset has every count of it.
pub proof fn lemma_subset_same_len<A>(a: Multiset<A>, b: Multiset<A>, x: A)
    requires
        a.subset_of(b),
        a.len() == b.len(),
    ensures
        b.count(x) <= a.count(x),
{
    broadcast use vstd::multiset::group_multiset_axioms;

    if b.count(x) > a.count(x) {
        let d = b.sub(a);
        assert(d.count(x) > 0);
        assert(b =~= a.add(d));
        assert(d.len() > 0) by {
            vstd::multiset::axiom_count_le_len(d, x);
        }
    }
}

impl ScoredIndex {
    /// Creates a scored index entry.
    pub fn new(score: u32, index: usize) -> (r: Self)
        ensures
            r.0 == score,
            r.1 == index,
    {
        ScoredIndex(score, index)
    }

    /// Returns the match score.
    pub fn score(&self) -> (r: u32)
        ensures
            r == self.0,
    {
        self.0
    }

    /// Returns the associated data index.
    pub fn idx(&self) -> (r: usize)
        ensures
            r == self.1,
    {
        self.1
    }

    /// Maintains a collection containing only the highest scoring entries.
    pub fn push_top_score(heap: &mut Vec<Self>, scored_idx: Self, max_results: usize)
        ensures
            pushed_top_score(old(heap)@, final(heap)@, scored_idx, max_results),
    {
        if heap.len() < max_results {
            heap.push(scored_idx);
            return;
        }
        if heap.len() == 0 {
            return;
        }
        let mut pos: usize = 0;
        let n = heap.len();
        for i in 1..n
            invariant
                n == heap@.len(),
                pos < n,
                forall|j: int| 0 <= j < i ==> heap@[pos as int].0 <= (#[trigger] heap@[j]).0,
        {
            if heap[i].0 < heap[pos].0 {
                pos = i;
            }
        }
        assert(is_min_position(heap@, pos as int));
        if scored_idx.0 > heap[pos].0 {
            heap.remove(pos);
            heap.push(scored_idx);
        }
    }
}

} // verus!
