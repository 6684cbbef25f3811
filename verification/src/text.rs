//! Character-level helpers: char classification, lowercasing, string building
//! and the lexicographic string order used for deterministic sorting.
use vstd::prelude::*;

verus! {

broadcast use vstd::seq_lib::group_seq_properties;

/// Whether `char::is_alphanumeric` holds of a char.
pub uninterp spec fn is_alphanumeric_char(c: char) -> bool;

/// Whether a char has the Unicode `White_Space` property, which
/// `char::is_whitespace` tests: tab through carriage return, space, next
/// line, no-break space, ogham space mark, en quad through hair space, line
/// and paragraph separators, narrow no-break space, medium mathematical
/// space and ideographic space.
pub open spec fn is_whitespace_char(c: char) -> bool {
    let u = c as u32;
    ||| 0x9 <= u <= 0xD
    ||| u == 0x20
    ||| u == 0x85
    ||| u == 0xA0
    ||| u == 0x1680
    ||| 0x2000 <= u <= 0x200A
    ||| u == 0x2028
    ||| u == 0x2029
    ||| u == 0x202F
    ||| u == 0x205F
    ||| u == 0x3000
}

/// The chars that `char::to_lowercase` yields for a char.
pub uninterp spec fn lowercase_of(c: char) -> Seq<char>;

/// `char::is_alphanumeric`: the char has the Unicode `Alphabetic` or numeric
/// property. Nothing beyond the name is claimed.
#[verifier::external_body]
pub(crate) fn char_is_alphanumeric(c: char) -> (r: bool)
    ensures
        r == is_alphanumeric_char(c),
{
    c.is_alphanumeric()
}

/// Whether the char is white space (what `char::is_whitespace` answers).
pub(crate) fn char_is_whitespace(c: char) -> (r: bool)
    ensures
        r == is_whitespace_char(c),
{
    let u = c as u32;
    (0x9 <= u && u <= 0xD) || u == 0x20 || u == 0x85 || u == 0xA0 || u == 0x1680 || (0x2000 <= u && u <= 0x200A)
        || u == 0x2028 || u == 0x2029 || u == 0x202F || u == 0x205F || u == 0x3000
}

/// `char::to_lowercase`, collected. Its documentation promises that the
/// lowercase mapping is one or more chars.
#[verifier::external_body]
pub(crate) fn char_to_lowercase(c: char) -> (r: Vec<char>)
    ensures
        r@ == lowercase_of(c),
        r@.len() >= 1,
{
    c.to_lowercase().collect()
}

/// `String::push`: appends one char to the end of the string.
#[verifier::external_body]
pub(crate) fn push_char(s: &mut String, c: char)
    ensures
        final(s)@ == old(s)@.push(c),
{
    s.push(c);
}

/// The lowercase mapping of every char of `s`, concatenated.
pub open spec fn lowercase_seq(s: Seq<char>) -> Seq<char>
    decreases s.len(),
{
    if s.len() == 0 {
        seq![]
    } else {
        lowercase_seq(s.drop_last()) + lowercase_of(s.last())
    }
}

/// Collects the chars of a string slice, in order.
pub fn chars_of(s: &str) -> (r: Vec<char>)
    ensures
        r@ == s@,
{
    let mut r: Vec<char> = Vec::new();
    for c in it: s.chars()
        invariant
            r@ == it.seq().take(it.index() as int),
            it.seq() == s@,
    {
        r.push(c);
    }
    r
}

/// Builds a string from a slice of chars.
pub fn string_from_chars(v: &[char]) -> (r: String)
    ensures
        r@ == v@,
{
    let mut r = String::new();
    let n = v.len();
    for i in 0..n
        invariant
            n == v@.len(),
            r@ == v@.take(i as int),
    {
        push_char(&mut r, v[i]);
        assert(v@.take(i + 1) == v@.take(i as int).push(v@[i as int]));
    }
    assert(v@.take(n as int) == v@);
    r
}

/// Appends the lowercase mapping of `c` to `s`.
pub fn push_lowercase(s: &mut String, c: char)
    ensures
        final(s)@ == old(s)@ + lowercase_of(c),
        lowercase_of(c).len() >= 1,
{
    let lowered = char_to_lowercase(c);
    let n = lowered.len();
    for i in 0..n
        invariant
            n == lowered@.len(),
            lowered@ == lowercase_of(c),
            s@ == old(s)@ + lowered@.take(i as int),
    {
        push_char(s, lowered[i]);
        assert(lowered@.take(i + 1) == lowered@.take(i as int).push(lowered@[i as int]));
    }
    assert(lowered@.take(n as int) == lowered@);
}

/// Lowercases every char of `v[from..]`.
pub fn lowercase_string(v: &[char], from: usize) -> (r: String)
    requires
        from <= v@.len(),
    ensures
        r@ == lowercase_seq(v@.subrange(from as int, v@.len() as int)),
{
    let mut r = String::new();
    let n = v.len();
    let mut i = from;
    assert(v@.subrange(from as int, from as int) == Seq::<char>::empty());
    while i < n
        invariant
            n == v@.len(),
            from <= i <= n,
            r@ == lowercase_seq(v@.subrange(from as int, i as int)),
        decreases n - i,
    {
        push_lowercase(&mut r, v[i]);
        assert(v@.subrange(from as int, i + 1).drop_last() == v@.subrange(from as int, i as int));
        i = i + 1;
    }
    r
}

/// Strict lexicographic order of char sequences by code point, which is the
/// order of `str`'s `Ord` (UTF-8 byte order agrees with code point order).
pub open spec fn seq_lt(a: Seq<char>, b: Seq<char>) -> bool
    decreases a.len(),
{
    if a.len() == 0 {
        b.len() > 0
    } else if b.len() == 0 {
        false
    } else if a[0] == b[0] {
        seq_lt(a.drop_first(), b.drop_first())
    } else {
        (a[0] as int) < (b[0] as int)
    }
}

/// `a` is not greater than `b`.
pub open spec fn seq_le(a: Seq<char>, b: Seq<char>) -> bool {
    !seq_lt(b, a)
}

/// The string order is irreflexive.
pub proof fn lemma_seq_lt_irreflexive(a: Seq<char>)
    ensures
        !seq_lt(a, a),
    decreases a.len(),
{
    if a.len() > 0 {
        lemma_seq_lt_irreflexive(a.drop_first());
    }
}

/// The string order is transitive.
pub proof fn lemma_seq_lt_transitive(a: Seq<char>, b: Seq<char>, c: Seq<char>)
    requires
        seq_lt(a, b),
        seq_lt(b, c),
    ensures
        seq_lt(a, c),
    decreases a.len(),
{
    if a.len() > 0 && b.len() > 0 && c.len() > 0 {
        if a[0] == b[0] && b[0] == c[0] {
            lemma_seq_lt_transitive(a.drop_first(), b.drop_first(), c.drop_first());
        }
    }
}

/// The string order is total on distinct sequences.
pub proof fn lemma_seq_lt_total(a: Seq<char>, b: Seq<char>)
    ensures
        a == b || seq_lt(a, b) || seq_lt(b, a),
    decreases a.len(),
{
    if a.len() > 0 && b.len() > 0 {
        if a[0] == b[0] {
            lemma_seq_lt_total(a.drop_first(), b.drop_first());
            if a.drop_first() == b.drop_first() {
                assert(a =~= seq![a[0]] + a.drop_first());
                assert(b =~= seq![b[0]] + b.drop_first());
            }
        } else {
            assert((a[0] as int) != (b[0] as int));
        }
    } else if a.len() == 0 && b.len() == 0 {
        assert(a =~= b);
    }
}

/// The string order is asymmetric.
pub proof fn lemma_seq_lt_asymmetric(a: Seq<char>, b: Seq<char>)
    requires
        seq_lt(a, b),
    ensures
        !seq_lt(b, a),
{
    if seq_lt(b, a) {
        lemma_seq_lt_transitive(a, b, a);
        lemma_seq_lt_irreflexive(a);
    }
}

/// Compares two char vectors in the string order.
pub fn chars_lt(a: &[char], b: &[char]) -> (r: bool)
    ensures
        r == seq_lt(a@, b@),
{
    let mut i: usize = 0;
    let na = a.len();
    let nb = b.len();
    assert(a@.skip(0) == a@);
    assert(b@.skip(0) == b@);
    while i < na && i < nb
        invariant
            na == a@.len(),
            nb == b@.len(),
            i <= na,
            i <= nb,
            seq_lt(a@, b@) == seq_lt(a@.skip(i as int), b@.skip(i as int)),
        decreases na - i,
    {
        let x = a[i];
        let y = b[i];
        if x != y {
            assert(a@.skip(i as int)[0] == x);
            assert(b@.skip(i as int)[0] == y);
            return x < y;
        }
        assert(a@.skip(i as int).drop_first() == a@.skip(i + 1));
        assert(b@.skip(i as int).drop_first() == b@.skip(i + 1));
        i = i + 1;
    }
    i == na && i < nb
}

/// Compares two strings in the string order.
pub fn str_lt(a: &str, b: &str) -> (r: bool)
    ensures
        r == seq_lt(a@, b@),
{
    let ca = chars_of(a);
    let cb = chars_of(b);
    chars_lt(ca.as_slice(), cb.as_slice())
}

/// Whether two char vectors are equal.
pub fn chars_eq(a: &[char], b: &[char]) -> (r: bool)
    ensures
        r == (a@ == b@),
{
    if a.len() != b.len() {
        return false;
    }
    let n = a.len();
    for i in 0..n
        invariant
            n == a@.len(),
            n == b@.len(),
            forall|k: int| 0 <= k < i ==> a@[k] == b@[k],
    {
        if a[i] != b[i] {
            return false;
        }
    }
    assert(a@ =~= b@);
    true
}

/// Whether two strings are equal.
pub fn str_eq(a: &str, b: &str) -> (r: bool)
    ensures
        r == (a@ == b@),
{
    let ca = chars_of(a);
    let cb = chars_of(b);
    chars_eq(ca.as_slice(), cb.as_slice())
}

/// `prefix` is a prefix of `s`.
pub open spec fn seq_starts_with(s: Seq<char>, prefix: Seq<char>) -> bool {
    prefix.len() <= s.len() && s.subrange(0, prefix.len() as int) == prefix
}

/// `needle` occurs in `s` starting at position `i`.
pub open spec fn occurs_at(s: Seq<char>, needle: Seq<char>, i: int) -> bool {
    0 <= i && i + needle.len() <= s.len() && s.subrange(i, i + needle.len()) == needle
}

/// `needle` occurs somewhere in `s`.
pub open spec fn seq_contains_seq(s: Seq<char>, needle: Seq<char>) -> bool {
    exists|i: int| occurs_at(s, needle, i)
}

/// Whether `s[from..]` starts with `prefix`.
pub fn chars_match_at(s: &[char], from: usize, prefix: &[char]) -> (r: bool)
    requires
        from <= s@.len(),
    ensures
        r == occurs_at(s@, prefix@, from as int),
{
    let n = prefix.len();
    let sl = s.len();
    if n > sl - from {
        return false;
    }
    for i in 0..n
        invariant
            n == prefix@.len(),
            sl == s@.len(),
            from + n <= sl,
            forall|k: int| 0 <= k < i ==> s@[from + k] == prefix@[k],
    {
        if s[from + i] != prefix[i] {
            assert(s@.subrange(from as int, from + n)[i as int] != prefix@[i as int]);
            return false;
        }
    }
    assert(s@.subrange(from as int, from + n) =~= prefix@);
    true
}

/// Whether `s` starts with `prefix` (`str::starts_with`).
pub fn chars_starts_with(s: &[char], prefix: &[char]) -> (r: bool)
    ensures
        r == seq_starts_with(s@, prefix@),
{
    chars_match_at(s, 0, prefix)
}

/// Whether `needle` occurs in `s` (`str::contains`).
pub fn chars_contains(s: &[char], needle: &[char]) -> (r: bool)
    ensures
        r == seq_contains_seq(s@, needle@),
{
    let n = s.len();
    let m = needle.len();
    if m > n {
        assert forall|i: int| !occurs_at(s@, needle@, i) by {}
        return false;
    }
    if m == 0 {
        assert(s@.subrange(0, 0) =~= needle@);
        assert(occurs_at(s@, needle@, 0));
        return true;
    }
    let mut i: usize = 0;
    while i <= n - m
        invariant
            n == s@.len(),
            m == needle@.len(),
            1 <= m <= n,
            i <= n - m + 1,
            forall|k: int| 0 <= k < i ==> !occurs_at(s@, needle@, k),
        decreases n - m + 1 - i,
    {
        if chars_match_at(s, i, needle) {
            return true;
        }
        i = i + 1;
    }
    assert forall|k: int| !occurs_at(s@, needle@, k) by {
        if 0 <= k && k + m <= n {
            assert(k < i);
        }
    }
    false
}

/// `to_multiset` of an insertion adds the inserted element.
pub proof fn lemma_insert_to_multiset<A>(s: Seq<A>, i: int, a: A)
    requires
        0 <= i <= s.len(),
    ensures
        s.insert(i, a).to_multiset() =~= s.to_multiset().insert(a),
{
    let t = s.insert(i, a);
    assert(t.remove(i) =~= s);
    t.to_multiset_ensures();
    assert(t[i] == a);
    assert(t.contains(a));
    assert(t.to_multiset().count(a) > 0);
}

/// The strings are ordered non-decreasingly.
pub open spec fn sorted_seqs(s: Seq<Seq<char>>) -> bool {
    forall|i: int, j: int| 0 <= i < j < s.len() ==> seq_le(#[trigger] s[i], #[trigger] s[j])
}

/// The strings are ordered strictly increasingly (sorted without duplicates).
pub open spec fn strictly_sorted_seqs(s: Seq<Seq<char>>) -> bool {
    forall|i: int, j: int| 0 <= i < j < s.len() ==> seq_lt(#[trigger] s[i], #[trigger] s[j])
}

/// Sorts strings in the string order (`slice::sort` on `String`s).
pub fn sort_strings(v: Vec<String>) -> (r: Vec<String>)
    ensures
        sorted_seqs(r.deep_view()),
        r.deep_view().to_multiset() == v.deep_view().to_multiset(),
{
    let mut r: Vec<String> = Vec::new();
    let n = v.len();
    let ghost src = v.deep_view();
    let mut v = v;
    let mut taken: usize = 0;
    while v.len() > 0
        invariant
            taken + v.len() == n,
            src.len() == n,
            v.deep_view() == src.subrange(taken as int, n as int),
            sorted_seqs(r.deep_view()),
            r.deep_view().to_multiset() == src.subrange(0, taken as int).to_multiset(),
        decreases v.len(),
    {
        let s = v.remove(0);
        let ghost sv = s@;
        assert(sv == src[taken as int]);
        // Insert after every element not greater than `s`.
        let mut pos: usize = r.len();
        while pos > 0 && str_lt(s.as_str(), r[pos - 1].as_str())
            invariant
                pos <= r.len(),
                sv == s@,
                forall|k: int| pos <= k < r.len() ==> seq_lt(sv, #[trigger] r.deep_view()[k]),
            decreases pos,
        {
            pos = pos - 1;
        }
        let ghost before = r.deep_view();
        r.insert(pos, s);
        proof {
            assert(r.deep_view() =~= before.insert(pos as int, sv));
            lemma_insert_to_multiset(before, pos as int, sv);
            let rv = r.deep_view();
            assert forall|i: int, j: int| 0 <= i < j < rv.len() implies seq_le(
                #[trigger] rv[i],
                #[trigger] rv[j],
            ) by {
                if pos > 0 {
                    assert(!seq_lt(sv, before[pos - 1]));
                }
                if i < pos && j > pos {
                    if i == pos - 1 {
                        lemma_seq_lt_irreflexive(before[i]);
                    } else {
                        assert(seq_le(before[i], before[pos - 1]));
                    }
                    assert(seq_lt(sv, before[j - 1]));
                    if seq_lt(before[j - 1], before[i]) {
                        lemma_seq_lt_total(sv, before[pos - 1]);
                        if sv != before[pos - 1] {
                            lemma_seq_lt_transitive(before[pos - 1], sv, before[j - 1]);
                            if before[j - 1] != before[i] {
                                lemma_seq_lt_total(before[i], before[pos - 1]);
                                if seq_lt(before[i], before[pos - 1]) {
                                    lemma_seq_lt_transitive(before[j - 1], before[i], before[pos - 1]);
                                    lemma_seq_lt_asymmetric(before[pos - 1], before[j - 1]);
                                } else if before[i] == before[pos - 1] {
                                    lemma_seq_lt_asymmetric(before[pos - 1], before[j - 1]);
                                }
                            } else {
                                lemma_seq_lt_irreflexive(before[i]);
                            }
                        } else {
                            lemma_seq_lt_asymmetric(sv, before[j - 1]);
                        }
                    }
                } else if i == pos && j > pos {
                    lemma_seq_lt_asymmetric(sv, before[j - 1]);
                } else if i < pos && j == pos {
                    if seq_lt(sv, before[i]) {
                        lemma_seq_lt_total(before[i], before[pos - 1]);
                        if seq_lt(before[i], before[pos - 1]) {
                            lemma_seq_lt_transitive(sv, before[i], before[pos - 1]);
                        }
                    }
                } else if i < pos && j < pos {
                    assert(rv[i] == before[i] && rv[j] == before[j]);
                } else {
                    assert(rv[i] == before[i - 1] && rv[j] == before[j - 1]);
                }
            }
            assert(src.subrange(0, taken + 1) =~= src.subrange(0, taken as int).push(sv));
            src.subrange(0, taken as int).to_multiset_ensures();
        }
        taken = taken + 1;
    }
    assert(src.subrange(0, n as int) =~= src);
    r
}

/// Inserts a string into a strictly increasing vector unless it is already
/// present, keeping the vector strictly increasing.
pub fn insert_sorted_unique(v: &mut Vec<String>, s: String)
    requires
        strictly_sorted_seqs(old(v).deep_view()),
    ensures
        strictly_sorted_seqs(final(v).deep_view()),
        final(v).deep_view().to_set() == old(v).deep_view().to_set().insert(s@),
{
    let ghost sv = s@;
    let mut pos: usize = v.len();
    while pos > 0 && str_lt(s.as_str(), v[pos - 1].as_str())
        invariant
            pos <= v.len(),
            sv == s@,
            forall|k: int| pos <= k < v.len() ==> seq_lt(sv, #[trigger] v.deep_view()[k]),
        decreases pos,
    {
        pos = pos - 1;
    }
    let ghost before = v.deep_view();
    if pos > 0 && str_eq(s.as_str(), v[pos - 1].as_str()) {
        assert(before[pos - 1] == sv);
        assert(before.to_set().insert(sv) =~= before.to_set());
        return;
    }
    v.insert(pos, s);
    proof {
        let rv = v.deep_view();
        assert(rv =~= before.insert(pos as int, sv));
        if pos > 0 {
            assert(!seq_lt(sv, before[pos - 1]));
            lemma_seq_lt_total(sv, before[pos - 1]);
            assert(seq_lt(before[pos - 1], sv));
        }
        assert forall|i: int, j: int| 0 <= i < j < rv.len() implies seq_lt(
            #[trigger] rv[i],
            #[trigger] rv[j],
        ) by {
            if i < pos && j > pos {
                if i < pos - 1 {
                    lemma_seq_lt_transitive(before[i], before[pos - 1], sv);
                }
                lemma_seq_lt_transitive(before[i], sv, before[j - 1]);
            } else if i < pos && j == pos {
                if i < pos - 1 {
                    lemma_seq_lt_transitive(before[i], before[pos - 1], sv);
                }
            } else if i < pos && j < pos {
                assert(rv[i] == before[i] && rv[j] == before[j]);
            } else if i > pos {
                assert(rv[i] == before[i - 1] && rv[j] == before[j - 1]);
            }
        }
        assert forall|x: Seq<char>| rv.to_set().contains(x) <==> before.to_set().insert(
            sv,
        ).contains(x) by {
            if before.contains(x) {
                let k = choose|k: int| 0 <= k < before.len() && before[k] == x;
                if k < pos {
                    assert(rv[k] == x);
                } else {
                    assert(rv[k + 1] == x);
                }
            }
            if rv.contains(x) {
                let k = choose|k: int| 0 <= k < rv.len() && rv[k] == x;
                if k < pos {
                    assert(before[k] == x);
                } else if k > pos {
                    assert(before[k - 1] == x);
                }
            }
            assert(rv[pos as int] == sv);
        }
        assert(rv.to_set() =~= before.to_set().insert(sv));
    }
}

} // verus!
