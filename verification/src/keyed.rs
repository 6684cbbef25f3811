//! Lists of entries keyed by unique strings, viewed as maps from key to
//! value.
use crate::text::str_eq;
use vstd::prelude::*;

verus! {

/// No two entries share a key.
pub open spec fn keys_unique<V>(s: Seq<(String, V)>) -> bool {
    forall|i: int, j: int| 0 <= i < j < s.len() ==> (#[trigger] s[i]).0@ != (#[trigger] s[j]).0@
}

/// Entry `i` has key `k`.
pub open spec fn key_at<V>(s: Seq<(String, V)>, k: Seq<char>, i: int) -> bool {
    0 <= i < s.len() && s[i].0@ == k
}

/// Some entry has key `k`.
pub open spec fn has_key<V>(s: Seq<(String, V)>, k: Seq<char>) -> bool {
    exists|i: int| #[trigger] key_at(s, k, i)
}

/// The map from each key to the value of its entry.
pub open spec fn keyed_map<V>(s: Seq<(String, V)>) -> Map<Seq<char>, V> {
    Map::new(|k: Seq<char>| has_key(s, k), |k: Seq<char>| s[choose|i: int| #[trigger] key_at(s, k, i)].1)
}

/// The map holds the value of each entry under its key.
pub proof fn lemma_keyed_map_at<V>(s: Seq<(String, V)>, i: int)
    requires
        keys_unique(s),
        0 <= i < s.len(),
    ensures
        keyed_map(s).dom().contains(s[i].0@),
        keyed_map(s)[s[i].0@] == s[i].1,
{
    let k = s[i].0@;
    assert(key_at(s, k, i));
    let j = choose|j: int| #[trigger] key_at(s, k, j);
    if j < i {
        assert(s[j].0@ != s[i].0@);
    } else if j > i {
        assert(s[i].0@ != s[j].0@);
    }
}

/// Replacing entry `i` by one with an equal key replaces its value in the
/// map.
pub proof fn lemma_keyed_map_update<V>(s: Seq<(String, V)>, i: int, key: String, v: V)
    requires
        keys_unique(s),
        0 <= i < s.len(),
        key@ == s[i].0@,
    ensures
        keys_unique(s.update(i, (key, v))),
        keyed_map(s.update(i, (key, v))) == keyed_map(s).insert(key@, v),
{
    let t = s.update(i, (key, v));
    assert forall|a: int, b: int| 0 <= a < b < t.len() implies (#[trigger] t[a]).0@ != (#[trigger] t[b]).0@ by {
        assert(s[a].0@ != s[b].0@);
    }
    assert forall|k: Seq<char>| has_key(t, k) <==> has_key(s, k) by {
        if has_key(t, k) {
            let j = choose|j: int| #[trigger] key_at(t, k, j);
            assert(key_at(s, k, j));
        }
        if has_key(s, k) {
            let j = choose|j: int| #[trigger] key_at(s, k, j);
            assert(key_at(t, k, j));
        }
    }
    assert forall|k: Seq<char>| #[trigger] keyed_map(t).dom().contains(k) implies keyed_map(t)[k] == keyed_map(s).insert(s[i].0@, v)[k] by {
        let j = choose|j: int| #[trigger] key_at(t, k, j);
        lemma_keyed_map_at(t, j);
        if j != i {
            lemma_keyed_map_at(s, j);
        }
    }
    lemma_keyed_map_at(s, i);
    assert(keyed_map(t) =~= keyed_map(s).insert(s[i].0@, v));
}

/// Adding an entry with a new key adds it to the map.
pub proof fn lemma_keyed_map_push<V>(s: Seq<(String, V)>, key: String, v: V)
    requires
        keys_unique(s),
        !has_key(s, key@),
    ensures
        keys_unique(s.push((key, v))),
        keyed_map(s.push((key, v))) == keyed_map(s).insert(key@, v),
{
    let t = s.push((key, v));
    let n = s.len() as int;
    assert forall|a: int, b: int| 0 <= a < b < t.len() implies (#[trigger] t[a]).0@ != (#[trigger] t[b]).0@ by {
        if b == n {
            assert(!key_at(s, key@, a));
        } else {
            assert(s[a].0@ != s[b].0@);
        }
    }
    assert forall|k: Seq<char>| has_key(t, k) <==> (has_key(s, k) || k == key@) by {
        if has_key(t, k) {
            let j = choose|j: int| #[trigger] key_at(t, k, j);
            if j < n {
                assert(key_at(s, k, j));
            }
        }
        if has_key(s, k) {
            let j = choose|j: int| #[trigger] key_at(s, k, j);
            assert(key_at(t, k, j));
        }
        if k == key@ {
            assert(key_at(t, k, n));
        }
    }
    assert forall|k: Seq<char>| #[trigger] keyed_map(t).dom().contains(k) implies keyed_map(t)[k] == keyed_map(s).insert(key@, v)[k] by {
        let j = choose|j: int| #[trigger] key_at(t, k, j);
        lemma_keyed_map_at(t, j);
        if j < n {
            lemma_keyed_map_at(s, j);
        }
    }
    assert(keyed_map(t) =~= keyed_map(s).insert(key@, v));
}

/// Removing entry `i` removes its key from the map.
pub proof fn lemma_keyed_map_remove<V>(s: Seq<(String, V)>, i: int)
    requires
        keys_unique(s),
        0 <= i < s.len(),
    ensures
        keys_unique(s.remove(i)),
        keyed_map(s.remove(i)) == keyed_map(s).remove(s[i].0@),
{
    let t = s.remove(i);
    let key = s[i].0@;
    assert forall|a: int, b: int| 0 <= a < b < t.len() implies (#[trigger] t[a]).0@ != (#[trigger] t[b]).0@ by {
        let sa = if a < i { a } else { a + 1 };
        let sb = if b < i { b } else { b + 1 };
        assert(t[a] == s[sa] && t[b] == s[sb]);
        assert(s[sa].0@ != s[sb].0@);
    }
    assert forall|k: Seq<char>| has_key(t, k) <==> (has_key(s, k) && k != key) by {
        if has_key(t, k) {
            let j = choose|j: int| #[trigger] key_at(t, k, j);
            let sj = if j < i { j } else { j + 1 };
            assert(t[j] == s[sj]);
            assert(key_at(s, k, sj));
            if j < i {
                assert(s[j].0@ != s[i].0@);
            } else {
                assert(s[i].0@ != s[j + 1].0@);
            }
        }
        if has_key(s, k) && k != key {
            let j = choose|j: int| #[trigger] key_at(s, k, j);
            if j < i {
                assert(key_at(t, k, j));
            } else {
                assert(j != i);
                assert(t[j - 1] == s[j]);
                assert(key_at(t, k, j - 1));
            }
        }
    }
    assert forall|k: Seq<char>| #[trigger] keyed_map(t).dom().contains(k) implies keyed_map(t)[k] == keyed_map(s).remove(key)[k] by {
        let j = choose|j: int| #[trigger] key_at(t, k, j);
        lemma_keyed_map_at(t, j);
        let sj = if j < i { j } else { j + 1 };
        assert(t[j] == s[sj]);
        lemma_keyed_map_at(s, sj);
    }
    assert(keyed_map(t) =~= keyed_map(s).remove(key));
}

/// The position of the entry with key `key`, if any.
pub fn find_key<V>(entries: &Vec<(String, V)>, key: &str) -> (r: Option<usize>)
    ensures
        match r {
            Some(i) => key_at(entries@, key@, i as int),
            None => !has_key(entries@, key@),
        },
{
    let n = entries.len();
    for i in 0..n
        invariant
            n == entries@.len(),
            forall|j: int| 0 <= j < i ==> !#[trigger] key_at(entries@, key@, j),
    {
        if str_eq(entries[i].0.as_str(), key) {
            return Some(i);
        }
    }
    proof {
        if has_key(entries@, key@) {
            let j = choose|j: int| #[trigger] key_at(entries@, key@, j);
        }
    }
    None
}

} // verus!
