//! Splits text into lowercase alphanumeric terms with character offsets.
use crate::text::{char_is_alphanumeric, chars_of, is_alphanumeric_char, lowercase_of, lowercase_seq, push_lowercase};
use vstd::prelude::*;

verus! {

broadcast use vstd::seq_lib::group_seq_properties;

/// Maximal runs `[start, end)` of chars of `s` that satisfy `inside`, in
/// order: a run is extended while consecutive chars stay inside and a new run
/// starts at each inside char that follows an outside one.
pub open spec fn runs(s: Seq<char>, inside: spec_fn(char) -> bool) -> Seq<(int, int)>
    decreases s.len(),
{
    if s.len() == 0 {
        seq![]
    } else {
        let prev = runs(s.drop_last(), inside);
        let n = s.len() - 1;
        if !inside(s[n]) {
            prev
        } else if n > 0 && inside(s[n - 1]) {
            prev.update(prev.len() - 1, (prev.last().0, n + 1))
        } else {
            prev.push((n, n + 1))
        }
    }
}

/// The chars that make up terms.
pub open spec fn term_char() -> spec_fn(char) -> bool {
    |c: char| is_alphanumeric_char(c)
}

/// The term runs of `s`: maximal runs of alphanumeric chars.
pub open spec fn term_runs(s: Seq<char>) -> Seq<(int, int)> {
    runs(s, term_char())
}

/// `out` lists the runs `rs` of `s`, each with its lowercased text.
pub open spec fn lists_runs(out: Seq<(String, u32, u32)>, s: Seq<char>, rs: Seq<(int, int)>) -> bool {
    &&& out.len() == rs.len()
    &&& forall|k: int|
        0 <= k < out.len() ==> {
            &&& (#[trigger] out[k]).1 == rs[k].0
            &&& out[k].2 == rs[k].1
            &&& out[k].0@ == lowercase_seq(s.subrange(rs[k].0, rs[k].1))
        }
}

/// Runs are nonempty, lie inside the sequence, are increasing and separated,
/// and a run that reaches the end of the sequence ends with an inside char.
pub proof fn lemma_runs_shape(s: Seq<char>, inside: spec_fn(char) -> bool)
    ensures
        forall|k: int|
            0 <= k < runs(s, inside).len() ==> 0 <= (#[trigger] runs(s, inside)[k]).0 < runs(
                s,
                inside,
            )[k].1 <= s.len(),
        forall|k: int|
            0 <= k < runs(s, inside).len() - 1 ==> (#[trigger] runs(s, inside)[k]).1 < runs(
                s,
                inside,
            )[k + 1].0,
        runs(s, inside).len() > 0 && runs(s, inside).last().1 == s.len() ==> inside(s.last()),
        runs(s, inside).len() <= s.len(),
    decreases s.len(),
{
    if s.len() > 0 {
        let d = s.drop_last();
        lemma_runs_shape(d, inside);
        let n = s.len() - 1;
        let prev = runs(d, inside);
        if inside(s[n]) && n > 0 && inside(s[n - 1]) {
            assert(d.last() == s[n - 1]);
            assert(prev.len() > 0) by {
                lemma_runs_step(d, n - 1, inside);
                assert(d.take(n - 1 + 1) =~= d);
            }
        } else if inside(s[n]) {
            if prev.len() > 0 && n > 0 {
                assert(prev.last().1 < n + 0 || prev.last().1 == n);
                if prev.last().1 == n {
                    assert(d.last() == s[n - 1]);
                }
            }
        }
    }
}

/// How the runs grow when one more char is taken.
pub proof fn lemma_runs_step(s: Seq<char>, i: int, inside: spec_fn(char) -> bool)
    requires
        0 <= i < s.len(),
    ensures
        !inside(s[i]) ==> runs(s.take(i + 1), inside) == runs(s.take(i), inside),
        inside(s[i]) && i > 0 && inside(s[i - 1]) ==> {
            let prev = runs(s.take(i), inside);
            &&& prev.len() > 0
            &&& runs(s.take(i + 1), inside) == prev.update(prev.len() - 1, (prev.last().0, i + 1))
        },
        inside(s[i]) && (i == 0 || !inside(s[i - 1])) ==> runs(s.take(i + 1), inside) == runs(
            s.take(i),
            inside,
        ).push((i, i + 1)),
    decreases i,
{
    let t1 = s.take(i + 1);
    assert(t1.drop_last() =~= s.take(i));
    assert(t1[i] == s[i]);
    if i > 0 {
        assert(t1[i - 1] == s[i - 1]);
        if inside(s[i]) && inside(s[i - 1]) {
            lemma_runs_step(s, i - 1, inside);
            assert(s.take(i - 1 + 1) =~= s.take(i));
        }
    }
}

/// Tokenizes text into lowercase alphanumeric terms, each with the char
/// offsets `[start, end)` of its run in `text`.
#[verifier::rlimit(30)]
pub fn tokenize_each(text: &str) -> (r: Vec<(String, u32, u32)>)
    requires
        text@.len() <= u32::MAX,
    ensures
        lists_runs(r@, text@, term_runs(text@)),
{
    let chars = chars_of(text);
    let ghost s = text@;
    let n = chars.len();
    let mut out: Vec<(String, u32, u32)> = Vec::new();
    let mut term = String::new();
    let mut in_term = false;
    let mut start: u32 = 0;
    let mut current: u32 = 0;
    let mut i: usize = 0;
    while i < n
        invariant
            chars@ == s,
            n == s.len(),
            n <= u32::MAX,
            i <= n,
            current == i,
            in_term <==> term@.len() > 0,
            term@.len() == 0 <==> (i == 0 || !is_alphanumeric_char(s[i - 1])),
            term@.len() == 0 ==> lists_runs(out@, s, term_runs(s.take(i as int))),
            term@.len() > 0 ==> {
                &&& lists_runs(out@, s, term_runs(s.take(i as int)).drop_last())
                &&& term_runs(s.take(i as int)).len() > 0
                &&& term_runs(s.take(i as int)).last() == (start as int, i as int)
                &&& start < i
                &&& term@ == lowercase_seq(s.subrange(start as int, i as int))
            },
        decreases n - i,
    {
        let ch = chars[i];
        let ghost t = s.take(i as int);
        let ghost t1 = s.take(i + 1);
        proof {
            lemma_runs_step(s, i as int, term_char());
        }
        if char_is_alphanumeric(ch) {
            if !in_term {
                start = current;
            }
            let ghost before = term@;
            push_lowercase(&mut term, ch);
            in_term = true;
            proof {
                let sub1 = s.subrange(start as int, i + 1);
                assert(sub1.drop_last() =~= s.subrange(start as int, i as int));
                assert(sub1.last() == ch);
                assert(lowercase_seq(sub1) == lowercase_seq(sub1.drop_last()) + lowercase_of(ch));
                let rt = term_runs(t);
                let rt1 = term_runs(t1);
                if before.len() == 0 {
                    assert(s.subrange(start as int, i as int) =~= Seq::<char>::empty());
                    assert(rt1 == rt.push((i as int, i + 1)));
                    assert(rt1.drop_last() =~= rt);
                    assert(lists_runs(out@, s, rt1.drop_last()));
                    assert(rt1.last() == (start as int, i + 1));
                } else {
                    assert(rt1 == rt.update(rt.len() - 1, (rt.last().0, i + 1)));
                    assert(rt1.drop_last() =~= rt.drop_last());
                    assert(lists_runs(out@, s, rt1.drop_last()));
                    assert(rt1.last() == (start as int, i + 1));
                }
            }
        } else if in_term {
            let emitted = term;
            term = String::new();
            in_term = false;
            let ghost prev_out = out@;
            out.push((emitted, start, current));
            proof {
                let rt = term_runs(t);
                assert(rt =~= rt.drop_last().push(rt.last()));
                assert forall|k: int| 0 <= k < out@.len() implies {
                    &&& (#[trigger] out@[k]).1 == rt[k].0
                    &&& out@[k].2 == rt[k].1
                    &&& out@[k].0@ == lowercase_seq(s.subrange(rt[k].0, rt[k].1))
                } by {
                    if k < prev_out.len() {
                        assert(out@[k] == prev_out[k]);
                        assert(rt.drop_last()[k] == rt[k]);
                    }
                }
            }
        }
        current = current + 1;
        i = i + 1;
    }
    if in_term {
        let ghost prev_out = out@;
        out.push((term, start, current));
        proof {
            let rt = term_runs(s.take(n as int));
            assert forall|k: int| 0 <= k < out@.len() implies {
                &&& (#[trigger] out@[k]).1 == rt[k].0
                &&& out@[k].2 == rt[k].1
                &&& out@[k].0@ == lowercase_seq(s.subrange(rt[k].0, rt[k].1))
            } by {
                if k < prev_out.len() {
                    assert(out@[k] == prev_out[k]);
                    assert(rt.drop_last()[k] == rt[k]);
                }
            }
        }
    }
    assert(s.take(n as int) =~= s);
    out
}

/// The lowercased texts of the term runs of `s`.
pub open spec fn term_texts(s: Seq<char>) -> Seq<Seq<char>> {
    term_runs(s).map_values(|r: (int, int)| lowercase_seq(s.subrange(r.0, r.1)))
}

/// The terms of a text are the texts of its tokens, in order: what
/// `tokenize_terms` returns is the first component of each entry that
/// `tokenize_each` returns.
pub proof fn lemma_terms_are_token_texts(s: Seq<char>, tokens: Seq<(String, u32, u32)>)
    requires
        lists_runs(tokens, s, term_runs(s)),
    ensures
        term_texts(s) == tokens.map_values(|t: (String, u32, u32)| t.0@),
{
    assert(term_texts(s) =~= tokens.map_values(|t: (String, u32, u32)| t.0@));
}

/// Returns only the normalized terms from `tokenize_each`.
pub fn tokenize_terms(text: &str) -> (r: Vec<String>)
    requires
        text@.len() <= u32::MAX,
    ensures
        r.deep_view() == term_texts(text@),
{
    let tokens = tokenize_each(text);
    let mut r: Vec<String> = Vec::new();
    let n = tokens.len();
    for i in 0..n
        invariant
            n == tokens@.len(),
            lists_runs(tokens@, text@, term_runs(text@)),
            r.deep_view() =~= term_texts(text@).take(i as int),
    {
        let ghost before = r.deep_view();
        r.push(tokens[i].0.clone());
        assert(tokens@[i as int].0@ == term_texts(text@)[i as int]);
        assert(r.deep_view() =~= before.push(tokens@[i as int].0@));
    }
    r
}

} // verus!
