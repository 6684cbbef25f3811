//! Query parsing and expansion of query atoms against the word catalog.
use crate::full_text::postings::Posting;
use crate::full_text::store::FullTextDatastore;
use crate::matcher::{fuzzy_atom_negations, fuzzy_atom_score, FuzzyPattern, PathMatcher};
use crate::text::{
    char_is_whitespace, chars_contains, chars_of, chars_starts_with, is_whitespace_char,
    lowercase_seq, lowercase_string, seq_contains_seq, seq_starts_with, string_from_chars,
};
use crate::tokenizer::{lemma_runs_shape, lemma_runs_step, runs};
use vstd::prelude::*;

verus! {

broadcast use vstd::seq_lib::group_seq_properties;

/// How a query atom's text is compared with catalog terms.
#[derive(Debug, Clone, Copy, PartialEq, Eq, Structural)]
pub enum AtomMode {
    Exact,
    Prefix,
    Substring,
}

/// One catalog term matched by a single query atom.
#[derive(Debug, Clone, Copy)]
pub struct ExpandedTerm {
    pub term_id: u32,
    pub fuzzy_score: u32,
}

/// A parsed query atom: negation, comparison mode and lowercased text.
pub struct QueryAtom {
    pub negative: bool,
    pub mode: AtomMode,
    pub text: Vec<char>,
}

/// The catalog terms matched by each positive and each negative atom.
pub struct ResolvedQuery {
    pub positive_groups: Vec<Vec<ExpandedTerm>>,
    pub negative_groups: Vec<Vec<ExpandedTerm>>,
}

/// Chars that belong to words of a query.
pub open spec fn word_char() -> spec_fn(char) -> bool {
    |c: char| !is_whitespace_char(c)
}

/// The atom a whitespace-separated word makes: a leading `!` negates it; then
/// a leading `^` selects prefix matching and a leading `'` substring matching;
/// the rest is lowercased. Words left empty make no atom.
pub open spec fn atom_of(w: Seq<char>) -> Option<(bool, AtomMode, Seq<char>)> {
    let negative = w.len() > 0 && w[0] == '!';
    let t = if negative {
        w.drop_first()
    } else {
        w
    };
    if t.len() == 0 {
        None
    } else if t[0] == '^' {
        if t.len() == 1 {
            None
        } else {
            Some((negative, AtomMode::Prefix, lowercase_seq(t.drop_first())))
        }
    } else if t[0] == '\'' {
        if t.len() == 1 {
            None
        } else {
            Some((negative, AtomMode::Substring, lowercase_seq(t.drop_first())))
        }
    } else {
        Some((negative, AtomMode::Exact, lowercase_seq(t)))
    }
}

/// The atoms of the words `rs` of `s`, in order.
pub open spec fn atoms_of_runs(s: Seq<char>, rs: Seq<(int, int)>) -> Seq<(bool, AtomMode, Seq<char>)>
    decreases rs.len(),
{
    if rs.len() == 0 {
        seq![]
    } else {
        let prev = atoms_of_runs(s, rs.drop_last());
        match atom_of(s.subrange(rs.last().0, rs.last().1)) {
            Some(a) => prev.push(a),
            None => prev,
        }
    }
}

/// The atoms of a query.
pub open spec fn query_atoms(s: Seq<char>) -> Seq<(bool, AtomMode, Seq<char>)> {
    atoms_of_runs(s, runs(s, word_char()))
}

/// Whether a catalog term matches an atom's text in the given mode.
pub open spec fn term_matches(mode: AtomMode, term: Seq<char>, text: Seq<char>) -> bool {
    match mode {
        AtomMode::Exact => term == text,
        AtomMode::Prefix => seq_starts_with(term, text),
        AtomMode::Substring => seq_contains_seq(term, text),
    }
}

/// `g` lists, by increasing id and with fuzzy score zero, exactly the catalog
/// terms that match `text` in `mode`.
pub open spec fn is_expansion(
    g: Seq<ExpandedTerm>,
    catalog: Seq<Seq<char>>,
    mode: AtomMode,
    text: Seq<char>,
) -> bool {
    &&& forall|i: int, j: int| 0 <= i < j < g.len() ==> g[i].term_id < g[j].term_id
    &&& forall|k: int| 0 <= k < g.len() ==> (#[trigger] g[k]).fuzzy_score == 0
    &&& forall|t: u32|
        (exists|k: int| 0 <= k < g.len() && #[trigger] g[k].term_id == t) <==> (t < catalog.len()
            && term_matches(mode, catalog[t as int], text))
}

/// Splits chars into maximal runs of non-whitespace chars.
pub fn split_words(chars: &[char]) -> (r: Vec<(usize, usize)>)
    requires
        chars@.len() < usize::MAX,
    ensures
        r@.len() == runs(chars@, word_char()).len(),
        forall|k: int|
            0 <= k < r@.len() ==> (#[trigger] r@[k]).0 == runs(chars@, word_char())[k].0 && r@[k].1
                == runs(chars@, word_char())[k].1,
{
    let ghost s = chars@;
    let n = chars.len();
    let mut out: Vec<(usize, usize)> = Vec::new();
    let mut in_word = false;
    let mut start: usize = 0;
    let mut i: usize = 0;
    while i < n
        invariant
            s == chars@,
            n == s.len(),
            n < usize::MAX,
            i <= n,
            in_word <==> (i > 0 && word_char()(s[i - 1])),
            !in_word ==> {
                &&& out@.len() == runs(s.take(i as int), word_char()).len()
                &&& forall|k: int|
                    0 <= k < out@.len() ==> (#[trigger] out@[k]).0 == runs(s.take(i as int), word_char())[k].0
                        && out@[k].1 == runs(s.take(i as int), word_char())[k].1
            },
            in_word ==> {
                let rs = runs(s.take(i as int), word_char());
                &&& rs.len() > 0
                &&& out@.len() == rs.len() - 1
                &&& forall|k: int|
                    0 <= k < out@.len() ==> (#[trigger] out@[k]).0 == rs[k].0 && out@[k].1 == rs[k].1
                &&& rs.last() == (start as int, i as int)
            },
        decreases n - i,
    {
        let c = chars[i];
        proof {
            lemma_runs_step(s, i as int, word_char());
            assert(s.take(i + 1).len() == i + 1);
        }
        let ghost rs = runs(s.take(i as int), word_char());
        let ghost rs1 = runs(s.take(i + 1), word_char());
        if !char_is_whitespace(c) {
            if !in_word {
                start = i;
                in_word = true;
                proof {
                    assert(rs1 == rs.push((i as int, i + 1)));
                }
            } else {
                proof {
                    assert(rs1 == rs.update(rs.len() - 1, (rs.last().0, i + 1)));
                }
            }
        } else if in_word {
            out.push((start, i));
            in_word = false;
            proof {
                assert(rs1 == rs);
                assert forall|k: int|
                    0 <= k < out@.len() implies (#[trigger] out@[k]).0 == rs1[k].0 && out@[k].1 == rs1[k].1 by {
                    if k < out@.len() - 1 {
                        assert(out@[k] == out@.drop_last()[k]);
                    }
                }
            }
        } else {
            proof {
                assert(rs1 == rs);
            }
        }
        i = i + 1;
    }
    if in_word {
        out.push((start, n));
    }
    assert(s.take(n as int) =~= s);
    out
}

/// Builds the atom of one word.
pub fn parse_atom(word: &[char]) -> (r: Option<QueryAtom>)
    ensures
        match r {
            Some(a) => atom_of(word@) == Some((a.negative, a.mode, a.text@)),
            None => atom_of(word@) is None,
        },
{
    let n = word.len();
    let mut from: usize = 0;
    let mut negative = false;
    if n > 0 && word[0] == '!' {
        negative = true;
        from = 1;
    }
    proof {
        let t = if negative { word@.drop_first() } else { word@ };
        assert(t =~= word@.subrange(from as int, n as int));
    }
    if from >= n {
        return None;
    }
    let mode = if word[from] == '^' {
        AtomMode::Prefix
    } else if word[from] == '\'' {
        AtomMode::Substring
    } else {
        AtomMode::Exact
    };
    if mode != AtomMode::Exact {
        from = from + 1;
        if from >= n {
            return None;
        }
    }
    let lowered = lowercase_string(word, from);
    let text = chars_of(lowered.as_str());
    proof {
        let t = word@.subrange(if negative { 1int } else { 0int }, n as int);
        if mode != AtomMode::Exact {
            assert(t.drop_first() =~= word@.subrange(from as int, n as int));
        }
    }
    Some(QueryAtom { negative, mode, text })
}

/// Parses query atoms with optional negation, prefix, and substring markers.
pub fn parse_query_atoms(query: &str) -> (r: Vec<QueryAtom>)
    requires
        query@.len() < usize::MAX,
    ensures
        r@.len() == query_atoms(query@).len(),
        forall|k: int|
            0 <= k < r@.len() ==> query_atoms(query@)[k] == ((#[trigger] r@[k]).negative, r@[k].mode, r@[k].text@),
{
    let chars = chars_of(query);
    let words = split_words(chars.as_slice());
    let ghost s = query@;
    let ghost rs = runs(s, word_char());
    proof {
        lemma_runs_shape(s, word_char());
    }
    let mut atoms: Vec<QueryAtom> = Vec::new();
    let nw = words.len();
    for k in 0..nw
        invariant
            nw == words@.len(),
            chars@ == s,
            s == query@,
            rs == runs(s, word_char()),
            words@.len() == rs.len(),
            forall|j: int| 0 <= j < words@.len() ==> (#[trigger] words@[j]).0 == rs[j].0 && words@[j].1 == rs[j].1,
            forall|j: int| 0 <= j < rs.len() ==> 0 <= (#[trigger] rs[j]).0 < rs[j].1 <= s.len(),
            atoms@.len() == atoms_of_runs(s, rs.take(k as int)).len(),
            forall|j: int|
                0 <= j < atoms@.len() ==> atoms_of_runs(s, rs.take(k as int))[j] == ((#[trigger] atoms@[j]).negative, atoms@[j].mode, atoms@[j].text@),
    {
        let (start, end) = words[k];
        let mut word: Vec<char> = Vec::new();
        let mut p = start;
        while p < end
            invariant
                start <= p <= end,
                end <= chars@.len(),
                word@ == chars@.subrange(start as int, p as int),
            decreases end - p,
        {
            word.push(chars[p]);
            p = p + 1;
        }
        let ghost prev = atoms@;
        proof {
            assert(rs.take(k + 1).drop_last() =~= rs.take(k as int));
            assert(rs.take(k + 1).last() == rs[k as int]);
        }
        match parse_atom(word.as_slice()) {
            Some(a) => {
                atoms.push(a);
                proof {
                    assert forall|j: int|
                        0 <= j < atoms@.len() implies atoms_of_runs(s, rs.take(k + 1))[j] == ((#[trigger] atoms@[j]).negative, atoms@[j].mode, atoms@[j].text@) by {
                        if j < prev.len() {
                            assert(atoms@[j] == prev[j]);
                        }
                    }
                }
            },
            None => {},
        }
    }
    assert(rs.take(nw as int) =~= rs);
    atoms
}

/// Positive atoms, in order.
pub open spec fn positive_atoms(atoms: Seq<(bool, AtomMode, Seq<char>)>) -> Seq<(bool, AtomMode, Seq<char>)> {
    atoms.filter(|a: (bool, AtomMode, Seq<char>)| !a.0)
}

/// Negative atoms, in order.
pub open spec fn negative_atoms(atoms: Seq<(bool, AtomMode, Seq<char>)>) -> Seq<(bool, AtomMode, Seq<char>)> {
    atoms.filter(|a: (bool, AtomMode, Seq<char>)| a.0)
}

/// Some catalog term matches the atom.
pub open spec fn atom_has_match(catalog: Seq<Seq<char>>, a: (bool, AtomMode, Seq<char>)) -> bool {
    exists|t: int| 0 <= t < catalog.len() && term_matches(a.1, #[trigger] catalog[t], a.2)
}

/// What exact resolution of `atoms` against `catalog` gives: nothing when
/// there is no atom or a positive atom matches no term; otherwise, for each
/// positive and each negative atom in order, its expansion.
pub open spec fn resolved_exactly(
    r: Option<ResolvedQuery>,
    catalog: Seq<Seq<char>>,
    atoms: Seq<(bool, AtomMode, Seq<char>)>,
) -> bool {
    let fails = atoms.len() == 0 || exists|k: int|
        0 <= k < atoms.len() && !(#[trigger] atoms[k]).0 && !atom_has_match(catalog, atoms[k]);
    match r {
        None => fails,
        Some(q) => {
            &&& !fails
            &&& q.positive_groups@.len() == positive_atoms(atoms).len()
            &&& forall|g: int|
                0 <= g < q.positive_groups@.len() ==> is_expansion(
                    (#[trigger] q.positive_groups@[g])@,
                    catalog,
                    positive_atoms(atoms)[g].1,
                    positive_atoms(atoms)[g].2,
                )
            &&& q.negative_groups@.len() == negative_atoms(atoms).len()
            &&& forall|g: int|
                0 <= g < q.negative_groups@.len() ==> is_expansion(
                    (#[trigger] q.negative_groups@[g])@,
                    catalog,
                    negative_atoms(atoms)[g].1,
                    negative_atoms(atoms)[g].2,
                )
        },
    }
}

/// `a` ranks before `b` among fuzzy-expanded terms: higher score first, then
/// lower term id.
pub open spec fn ranks_before(a: ExpandedTerm, b: ExpandedTerm) -> bool {
    a.fuzzy_score > b.fuzzy_score || (a.fuzzy_score == b.fuzzy_score && a.term_id < b.term_id)
}

/// Sorted by rank.
pub open spec fn sorted_by_rank(s: Seq<ExpandedTerm>) -> bool {
    forall|i: int, j: int| 0 <= i < j < s.len() ==> !ranks_before(#[trigger] s[j], #[trigger] s[i])
}

/// Highest fuzzy score of a nonempty list.
pub open spec fn max_fuzzy_score(s: Seq<ExpandedTerm>) -> u32
    decreases s.len(),
{
    if s.len() <= 1 {
        if s.len() == 1 { s[0].fuzzy_score } else { 0 }
    } else {
        let m = max_fuzzy_score(s.drop_last());
        if s.last().fuzzy_score > m {
            s.last().fuzzy_score
        } else {
            m
        }
    }
}

/// Maximum fuzzy-expanded catalog terms retained per positive atom.
pub const FUZZY_POSITIVE_TERM_LIMIT: usize = 50;

/// Keep fuzzy terms whose score is at least seven tenths of the best one.
pub open spec fn fuzzy_score_floor(best: u32) -> int {
    (best * 7 + 9) / 10
}

/// The terms that reach the score floor, in their order.
pub open spec fn above_floor(terms: Seq<ExpandedTerm>) -> Seq<ExpandedTerm> {
    let floor = fuzzy_score_floor(max_fuzzy_score(terms));
    terms.filter(|e: ExpandedTerm| e.fuzzy_score >= floor)
}

/// What the relative score floor and the positive breadth cap leave of a
/// list of fuzzy-expanded terms: the terms reaching seven tenths (rounded
/// up) of the best score, in their order; for a positive atom with more than
/// the cap of such terms, the cap's number of best ranked ones, in rank order.
pub open spec fn fuzzy_filtered(r: Seq<ExpandedTerm>, terms: Seq<ExpandedTerm>, negative: bool) -> bool {
    if terms.len() == 0 {
        r == terms
    } else if !negative && above_floor(terms).len() > FUZZY_POSITIVE_TERM_LIMIT {
        exists|s: Seq<ExpandedTerm>|
            s.to_multiset() == above_floor(terms).to_multiset() && sorted_by_rank(s) && r == s.take(
                FUZZY_POSITIVE_TERM_LIMIT as int,
            )
    } else {
        r == above_floor(terms)
    }
}

/// Sorts fuzzy-expanded terms by rank.
pub fn sort_by_rank(v: Vec<ExpandedTerm>) -> (r: Vec<ExpandedTerm>)
    ensures
        sorted_by_rank(r@),
        r@.to_multiset() == v@.to_multiset(),
{
    let mut r: Vec<ExpandedTerm> = Vec::new();
    let n = v.len();
    for k in 0..n
        invariant
            n == v@.len(),
            sorted_by_rank(r@),
            r@.to_multiset() == v@.take(k as int).to_multiset(),
    {
        let e = v[k];
        let mut pos: usize = r.len();
        while pos > 0 && ranks_before_exec(e, r[pos - 1])
            invariant
                pos <= r@.len(),
                forall|j: int| pos <= j < r@.len() ==> ranks_before(e, #[trigger] r@[j]),
            decreases pos,
        {
            pos = pos - 1;
        }
        let ghost before = r@;
        r.insert(pos, e);
        proof {
            crate::text::lemma_insert_to_multiset(before, pos as int, e);
            assert(v@.take(k + 1) =~= v@.take(k as int).push(e));
            v@.take(k as int).to_multiset_ensures();
            assert forall|i: int, j: int| 0 <= i < j < r@.len() implies !ranks_before(#[trigger] r@[j], #[trigger] r@[i]) by {
                if i < pos && j > pos {
                    assert(r@[i] == before[i]);
                    assert(r@[j] == before[j - 1]);
                    if pos > 0 {
                        assert(!ranks_before(e, before[pos - 1]));
                        assert(!ranks_before(before[pos - 1], before[i]) || i == pos - 1);
                    }
                } else if i < pos && j == pos {
                    assert(r@[i] == before[i]);
                    assert(!ranks_before(e, before[pos - 1]));
                    assert(!ranks_before(before[pos - 1], before[i]) || i == pos - 1);
                } else if i == pos {
                    assert(r@[j] == before[j - 1]);
                } else if j < pos {
                    assert(r@[i] == before[i] && r@[j] == before[j]);
                } else {
                    assert(r@[i] == before[i - 1] && r@[j] == before[j - 1]);
                }
            }
        }
    }
    assert(v@.take(n as int) =~= v@);
    r
}

/// Whether `a` ranks before `b`.
pub fn ranks_before_exec(a: ExpandedTerm, b: ExpandedTerm) -> (r: bool)
    ensures
        r == ranks_before(a, b),
{
    a.fuzzy_score > b.fuzzy_score || (a.fuzzy_score == b.fuzzy_score && a.term_id < b.term_id)
}

/// Applies the fuzzy quality floor and caps positive query expansion breadth.
pub fn filter_fuzzy_expanded_terms(terms: Vec<ExpandedTerm>, negative: bool) -> (r: Vec<ExpandedTerm>)
    requires
        forall|k: int| 0 <= k < terms@.len() ==> (#[trigger] terms@[k]).fuzzy_score * 7 <= u32::MAX,
    ensures
        fuzzy_filtered(r@, terms@, negative),
{
    let n = terms.len();
    if n == 0 {
        return terms;
    }
    let mut best = terms[0].fuzzy_score;
    for k in 1..n
        invariant
            n == terms@.len(),
            n >= 1,
            best == max_fuzzy_score(terms@.take(k as int)),
            exists|j: int| 0 <= j < k && terms@[j].fuzzy_score == best,
    {
        proof {
            assert(terms@.take(k + 1).drop_last() =~= terms@.take(k as int));
        }
        if terms[k].fuzzy_score > best {
            best = terms[k].fuzzy_score;
        }
    }
    proof {
        assert(terms@.take(1) =~= seq![terms@[0]]);
        assert(terms@.take(n as int) =~= terms@);
    }
    let product = best * 7;
    let score_floor = product / 10 + if product % 10 != 0 { 1 } else { 0 };
    assert(score_floor == fuzzy_score_floor(best));
    let ghost pred = |e: ExpandedTerm| e.fuzzy_score >= score_floor;
    let mut kept: Vec<ExpandedTerm> = Vec::new();
    for k in 0..n
        invariant
            n == terms@.len(),
            kept@ == terms@.take(k as int).filter(pred),
            pred == (|e: ExpandedTerm| e.fuzzy_score >= score_floor),
    {
        proof {
            assert(terms@.take(k + 1) =~= terms@.take(k as int).push(terms@[k as int]));
            terms@.take(k as int).lemma_filter_push(terms@[k as int], pred);
        }
        if terms[k].fuzzy_score >= score_floor {
            kept.push(terms[k]);
        }
    }
    proof {
        assert(terms@.take(n as int) =~= terms@);
        assert(kept@ == above_floor(terms@));
    }
    if !negative && kept.len() > FUZZY_POSITIVE_TERM_LIMIT {
        let ghost kv = kept@;
        let sorted = sort_by_rank(kept);
        proof {
            kv.to_multiset_ensures();
            sorted@.to_multiset_ensures();
        }
        let mut r: Vec<ExpandedTerm> = Vec::new();
        for k in 0..FUZZY_POSITIVE_TERM_LIMIT
            invariant
                sorted@.len() > FUZZY_POSITIVE_TERM_LIMIT,
                r@ == sorted@.take(k as int),
        {
            r.push(sorted[k]);
            assert(sorted@.take(k + 1) =~= sorted@.take(k as int).push(sorted@[k as int]));
        }
        proof {
            assert(sorted@.to_multiset() == above_floor(terms@).to_multiset());
        }
        return r;
    }
    kept
}

/// The fuzzy candidates of atom `atom` among the first `n` catalog terms:
/// each term with postings that the atom (its negation cleared) matches, with
/// its score, by increasing term id.
pub open spec fn fuzzy_candidates(
    catalog: Seq<Seq<char>>,
    pls: Seq<Seq<Posting>>,
    query: Seq<char>,
    atom: int,
    n: int,
) -> Seq<ExpandedTerm>
    decreases n,
{
    if n <= 0 {
        seq![]
    } else {
        let prev = fuzzy_candidates(catalog, pls, query, atom, n - 1);
        let t = n - 1;
        if pls[t].len() > 0 && fuzzy_atom_score(query, atom, catalog[t]) is Some {
            prev.push(
                ExpandedTerm {
                    term_id: t as u32,
                    fuzzy_score: fuzzy_atom_score(query, atom, catalog[t])->0 as u32,
                },
            )
        } else {
            prev
        }
    }
}

/// Some entry of `g` has term id `t`.
pub open spec fn has_term_id(g: Seq<ExpandedTerm>, t: u32) -> bool {
    exists|j: int| 0 <= j < g.len() && #[trigger] g[j].term_id == t
}

/// `g` lists by strictly increasing id one entry of `f` for each term id in
/// `f`.
pub open spec fn sorted_by_id_of(g: Seq<ExpandedTerm>, f: Seq<ExpandedTerm>) -> bool {
    &&& forall|i: int, j: int| 0 <= i < j < g.len() ==> g[i].term_id < g[j].term_id
    &&& forall|k: int| 0 <= k < g.len() ==> f.contains(#[trigger] g[k])
    &&& forall|k: int| 0 <= k < f.len() ==> has_term_id(g, (#[trigger] f[k]).term_id)
}

/// `g` is the group that fuzzy expansion makes of atom `atom`: its
/// candidates after the score floor and breadth cap, by increasing term id.
pub open spec fn fuzzy_group(
    g: Seq<ExpandedTerm>,
    catalog: Seq<Seq<char>>,
    pls: Seq<Seq<Posting>>,
    query: Seq<char>,
    atom: int,
) -> bool {
    exists|f: Seq<ExpandedTerm>|
        fuzzy_filtered(f, fuzzy_candidates(catalog, pls, query, atom, catalog.len() as int), fuzzy_atom_negations(query)[atom])
            && sorted_by_id_of(g, f)
}

/// The indices `0..n`.
pub open spec fn index_seq(n: nat) -> Seq<int> {
    Seq::new(n, |i: int| i)
}

/// Whether atom `i` has the given negation.
pub open spec fn negation_is(negations: Seq<bool>, negative: bool) -> spec_fn(int) -> bool {
    |i: int| negations[i] == negative
}

/// Indices of the atoms with the given negation, in order.
pub open spec fn atom_indices(negations: Seq<bool>, negative: bool) -> Seq<int> {
    index_seq(negations.len()).filter(negation_is(negations, negative))
}

/// What fuzzy resolution of `query` gives: nothing when the query has no
/// atom or a positive atom has no candidate; otherwise the group of each
/// positive and each negative atom, in order.
pub open spec fn resolved_fuzzily(
    r: Option<ResolvedQuery>,
    catalog: Seq<Seq<char>>,
    pls: Seq<Seq<Posting>>,
    query: Seq<char>,
) -> bool {
    let negs = fuzzy_atom_negations(query);
    let fails = negs.len() == 0 || exists|a: int|
        0 <= a < negs.len() && !(#[trigger] negs[a]) && fuzzy_candidates(catalog, pls, query, a, catalog.len() as int).len() == 0;
    match r {
        None => fails,
        Some(q) => {
            &&& !fails
            &&& q.positive_groups@.len() == atom_indices(negs, false).len()
            &&& forall|g: int|
                0 <= g < q.positive_groups@.len() ==> fuzzy_group(
                    (#[trigger] q.positive_groups@[g])@,
                    catalog,
                    pls,
                    query,
                    atom_indices(negs, false)[g],
                )
            &&& q.negative_groups@.len() == atom_indices(negs, true).len()
            &&& forall|g: int|
                0 <= g < q.negative_groups@.len() ==> fuzzy_group(
                    (#[trigger] q.negative_groups@[g])@,
                    catalog,
                    pls,
                    query,
                    atom_indices(negs, true)[g],
                )
        },
    }
}

/// A nonempty list keeps at least its best term under the score floor.
pub proof fn lemma_above_floor_nonempty(terms: Seq<ExpandedTerm>)
    requires
        terms.len() > 0,
    ensures
        above_floor(terms).len() > 0,
{
    let best = max_fuzzy_score(terms);
    lemma_max_fuzzy_score_attained(terms);
    let k = choose|k: int| 0 <= k < terms.len() && terms[k].fuzzy_score == best;
    let pred = |e: ExpandedTerm| e.fuzzy_score >= fuzzy_score_floor(best);
    assert(pred(terms[k]));
    terms.lemma_filter_contains(pred, k);
}

/// The best score belongs to some term.
pub proof fn lemma_max_fuzzy_score_attained(terms: Seq<ExpandedTerm>)
    requires
        terms.len() > 0,
    ensures
        exists|k: int| 0 <= k < terms.len() && terms[k].fuzzy_score == max_fuzzy_score(terms),
    decreases terms.len(),
{
    if terms.len() > 1 {
        lemma_max_fuzzy_score_attained(terms.drop_last());
        let k = choose|k: int| 0 <= k < terms.drop_last().len() && terms.drop_last()[k].fuzzy_score == max_fuzzy_score(terms.drop_last());
        if terms.last().fuzzy_score <= max_fuzzy_score(terms.drop_last()) {
            assert(terms[k].fuzzy_score == max_fuzzy_score(terms));
        } else {
            assert(terms[terms.len() - 1].fuzzy_score == max_fuzzy_score(terms));
        }
    } else {
        assert(terms[0].fuzzy_score == max_fuzzy_score(terms));
    }
}

/// Expanding an exact atom looks its text up in the catalog: against a
/// catalog without repeats, the expansion is the one term equal to the
/// text when the catalog has it, and nothing otherwise. A prefix atom
/// expands to terms starting with its text, a substring atom to terms
/// containing it.
pub proof fn lemma_expansion_modes(g: Seq<ExpandedTerm>, catalog: Seq<Seq<char>>, mode: AtomMode, text: Seq<char>)
    requires
        is_expansion(g, catalog, mode, text),
        catalog.no_duplicates(),
        catalog.len() <= u32::MAX + 1,
    ensures
        forall|k: int| 0 <= k < g.len() ==> (#[trigger] g[k]).term_id < catalog.len(),
        mode == AtomMode::Exact ==> {
            &&& g.len() <= 1
            &&& forall|k: int| 0 <= k < g.len() ==> catalog[(#[trigger] g[k]).term_id as int] == text
            &&& (g.len() == 1 <==> catalog.contains(text))
        },
        mode == AtomMode::Prefix ==> forall|k: int|
            0 <= k < g.len() ==> seq_starts_with(catalog[(#[trigger] g[k]).term_id as int], text),
        mode == AtomMode::Substring ==> forall|k: int|
            0 <= k < g.len() ==> seq_contains_seq(catalog[(#[trigger] g[k]).term_id as int], text),
{
    assert forall|k: int| 0 <= k < g.len() implies (#[trigger] g[k]).term_id < catalog.len() && term_matches(
        mode,
        catalog[g[k].term_id as int],
        text,
    ) by {
        let t = g[k].term_id;
        assert(exists|j: int| 0 <= j < g.len() && #[trigger] g[j].term_id == t);
        assert(term_matches(mode, catalog[t as int], text));
        assert(t < catalog.len());
    }
    if mode == AtomMode::Exact {
        if g.len() > 1 {
            assert(g[0].term_id < g[1].term_id);
            assert(catalog[g[0].term_id as int] == catalog[g[1].term_id as int]);
        }
        if catalog.contains(text) {
            let t = choose|t: int| 0 <= t < catalog.len() && catalog[t] == text;
            assert(term_matches(mode, catalog[(t as u32) as int], text));
            assert(exists|j: int| 0 <= j < g.len() && #[trigger] g[j].term_id == t as u32);
        }
        if g.len() == 1 {
            assert(catalog[g[0].term_id as int] == text);
        }
    }
}

/// No term scores above the best score.
pub proof fn lemma_max_fuzzy_score_bound(terms: Seq<ExpandedTerm>)
    ensures
        forall|k: int| 0 <= k < terms.len() ==> (#[trigger] terms[k]).fuzzy_score <= max_fuzzy_score(terms),
    decreases terms.len(),
{
    if terms.len() > 1 {
        lemma_max_fuzzy_score_bound(terms.drop_last());
        assert forall|k: int| 0 <= k < terms.len() implies (#[trigger] terms[k]).fuzzy_score <= max_fuzzy_score(terms) by {
            if k < terms.len() - 1 {
                assert(terms[k] == terms.drop_last()[k]);
            }
        }
    }
}

/// A score reaches the floor of a best score exactly when ten times it is
/// at least seven times the best.
proof fn lemma_score_floor(best: u32, x: u32)
    ensures
        x >= fuzzy_score_floor(best) <==> x * 10 >= best * 7,
{
    assert(x >= (best * 7 + 9) / 10 <==> x * 10 >= best * 7) by (nonlinear_arith);
}

/// What the score floor and the breadth cap keep of fuzzy-expanded terms:
/// every kept term is one of the terms and scores at least seven tenths of
/// every term's score; a term that scores so is dropped only by a positive
/// atom's cap, which then keeps its number of terms, each scoring higher
/// than the dropped one, or as high with a smaller term id.
pub proof fn lemma_fuzzy_filter_keeps_best(r: Seq<ExpandedTerm>, terms: Seq<ExpandedTerm>, negative: bool)
    requires
        fuzzy_filtered(r, terms, negative),
    ensures
        forall|i: int| 0 <= i < r.len() ==> terms.contains(#[trigger] r[i]),
        forall|i: int, j: int|
            0 <= i < r.len() && 0 <= j < terms.len() ==> (#[trigger] r[i]).fuzzy_score * 10 >= (#[trigger] terms[j]).fuzzy_score
                * 7,
        forall|y: ExpandedTerm|
            #![trigger r.contains(y)]
            terms.contains(y) && !r.contains(y) && (forall|j: int|
                0 <= j < terms.len() ==> y.fuzzy_score * 10 >= (#[trigger] terms[j]).fuzzy_score * 7) ==> {
                &&& !negative
                &&& r.len() == FUZZY_POSITIVE_TERM_LIMIT
                &&& forall|i: int|
                    0 <= i < r.len() ==> y.fuzzy_score < (#[trigger] r[i]).fuzzy_score || (y.fuzzy_score
                        == r[i].fuzzy_score && r[i].term_id <= y.term_id)
            },
{
    broadcast use vstd::seq_lib::group_filter_ensures;

    if terms.len() == 0 {
        return;
    }
    let best = max_fuzzy_score(terms);
    let floor = fuzzy_score_floor(best);
    let pred = |e: ExpandedTerm| e.fuzzy_score >= floor;
    let af = above_floor(terms);
    assert(af == terms.filter(pred));
    lemma_max_fuzzy_score_bound(terms);
    lemma_max_fuzzy_score_attained(terms);
    let top = choose|k: int| 0 <= k < terms.len() && terms[k].fuzzy_score == best;
    // Members of `af` are terms that reach the floor, and so seven tenths of every score.
    assert forall|x: ExpandedTerm| #[trigger] af.contains(x) implies terms.contains(x) && forall|j: int|
        0 <= j < terms.len() ==> x.fuzzy_score * 10 >= (#[trigger] terms[j]).fuzzy_score * 7 by {
        terms.lemma_filter_contains_rev(pred, x);
        let i = choose|i: int| 0 <= i < af.len() && af[i] == x;
        terms.lemma_filter_pred(pred, i);
        lemma_score_floor(best, x.fuzzy_score);
    }
    // A term reaching seven tenths of the best score is in `af`.
    assert forall|y: ExpandedTerm| terms.contains(y) && (forall|j: int|
        0 <= j < terms.len() ==> y.fuzzy_score * 10 >= (#[trigger] terms[j]).fuzzy_score * 7) implies #[trigger] af.contains(y) by {
        let k = choose|k: int| 0 <= k < terms.len() && terms[k] == y;
        assert(y.fuzzy_score * 10 >= terms[top].fuzzy_score * 7);
        lemma_score_floor(best, y.fuzzy_score);
        terms.lemma_filter_contains(pred, k);
    }
    if !negative && af.len() > FUZZY_POSITIVE_TERM_LIMIT {
        let s = choose|s: Seq<ExpandedTerm>|
            s.to_multiset() == af.to_multiset() && sorted_by_rank(s) && r == s.take(FUZZY_POSITIVE_TERM_LIMIT as int);
        s.to_multiset_ensures();
        af.to_multiset_ensures();
        assert forall|x: ExpandedTerm| #[trigger] s.contains(x) <==> af.contains(x) by {
            assert(s.to_multiset().count(x) == af.to_multiset().count(x));
        }
        assert forall|i: int| 0 <= i < r.len() implies terms.contains(#[trigger] r[i]) && forall|j: int|
            0 <= j < terms.len() ==> r[i].fuzzy_score * 10 >= (#[trigger] terms[j]).fuzzy_score * 7 by {
            assert(s.contains(s[i]));
            assert(af.contains(r[i]));
        }
        assert forall|y: ExpandedTerm|
            #![trigger r.contains(y)]
            terms.contains(y) && !r.contains(y) && (forall|j: int|
                0 <= j < terms.len() ==> y.fuzzy_score * 10 >= (#[trigger] terms[j]).fuzzy_score * 7) implies {
                &&& !negative
                &&& r.len() == FUZZY_POSITIVE_TERM_LIMIT
                &&& forall|i: int|
                    0 <= i < r.len() ==> y.fuzzy_score < (#[trigger] r[i]).fuzzy_score || (y.fuzzy_score
                        == r[i].fuzzy_score && r[i].term_id <= y.term_id)
            } by {
            assert(af.contains(y));
            assert(s.contains(y));
            let m = choose|m: int| 0 <= m < s.len() && s[m] == y;
            if m < FUZZY_POSITIVE_TERM_LIMIT {
                assert(r[m] == y);
                assert(r.contains(y));
            }
            assert forall|i: int| 0 <= i < r.len() implies y.fuzzy_score < (#[trigger] r[i]).fuzzy_score || (y.fuzzy_score
                == r[i].fuzzy_score && r[i].term_id <= y.term_id) by {
                assert(r[i] == s[i]);
                assert(!ranks_before(s[m], s[i]));
            }
        }
    } else {
        assert forall|i: int| 0 <= i < r.len() implies terms.contains(#[trigger] r[i]) && forall|j: int|
            0 <= j < terms.len() ==> r[i].fuzzy_score * 10 >= (#[trigger] terms[j]).fuzzy_score * 7 by {
            assert(af.contains(af[i]));
        }
    }
}

/// Sorts expanded terms by term id, keeping one entry per id.
#[verifier::rlimit(30)]
pub fn sort_dedup_by_id(v: Vec<ExpandedTerm>) -> (r: Vec<ExpandedTerm>)
    ensures
        sorted_by_id_of(r@, v@),
{
    let mut r: Vec<ExpandedTerm> = Vec::new();
    let n = v.len();
    let mut k: usize = 0;
    while k < n
        invariant
            n == v@.len(),
            k <= n,
            forall|i: int, j: int| 0 <= i < j < r@.len() ==> r@[i].term_id < r@[j].term_id,
            forall|i: int| 0 <= i < r@.len() ==> v@.contains(#[trigger] r@[i]),
            forall|i: int| 0 <= i < k ==> has_term_id(r@, (#[trigger] v@[i]).term_id),
        decreases n - k,
    {
        let e = v[k];
        let mut pos: usize = r.len();
        while pos > 0 && e.term_id < r[pos - 1].term_id
            invariant
                pos <= r@.len(),
                n == v@.len(),
                k < n,
                e == v@[k as int],
                forall|i: int, j: int| 0 <= i < j < r@.len() ==> r@[i].term_id < r@[j].term_id,
                forall|i: int| 0 <= i < r@.len() ==> v@.contains(#[trigger] r@[i]),
                forall|i: int| 0 <= i < k ==> has_term_id(r@, (#[trigger] v@[i]).term_id),
                forall|j: int| pos <= j < r@.len() ==> e.term_id < (#[trigger] r@[j]).term_id,
            decreases pos,
        {
            pos = pos - 1;
        }
        if pos > 0 && r[pos - 1].term_id == e.term_id {
            proof {
                assert forall|i: int| 0 <= i < k + 1 implies has_term_id(r@, (#[trigger] v@[i]).term_id) by {
                    if i == k {
                        assert(r@[pos - 1].term_id == v@[k as int].term_id);
                    }
                }
            }
        } else {
            let ghost before = r@;
            r.insert(pos, e);
            proof {
                assert(v@.contains(e)) by {
                    assert(v@[k as int] == e);
                }
                assert forall|i: int, j: int| 0 <= i < j < r@.len() implies r@[i].term_id < r@[j].term_id by {
                    if i < pos && j > pos {
                        assert(r@[j] == before[j - 1]);
                        assert(r@[i] == before[i]);
                    } else if j == pos && i < pos {
                        assert(r@[i] == before[i]);
                        if i < pos - 1 {
                            assert(before[i].term_id < before[pos - 1].term_id);
                        }
                    } else if i == pos {
                        assert(r@[j] == before[j - 1]);
                    } else if j < pos {
                        assert(r@[i] == before[i] && r@[j] == before[j]);
                    } else {
                        assert(r@[i] == before[i - 1] && r@[j] == before[j - 1]);
                    }
                }
                assert forall|i: int| 0 <= i < r@.len() implies v@.contains(#[trigger] r@[i]) by {
                    if i < pos {
                        assert(r@[i] == before[i]);
                    } else if i > pos {
                        assert(r@[i] == before[i - 1]);
                    }
                }
                assert forall|i: int| 0 <= i < k + 1 implies has_term_id(r@, (#[trigger] v@[i]).term_id) by {
                    if i < k {
                        let j = choose|j: int| 0 <= j < before.len() && #[trigger] before[j].term_id == v@[i].term_id;
                        if j < pos {
                            assert(r@[j] == before[j]);
                        } else {
                            assert(r@[j + 1] == before[j]);
                        }
                    } else {
                        assert(r@[pos as int] == e);
                    }
                }
            }
        }
        k = k + 1;
    }
    r
}

impl FullTextDatastore {
    /// Fuzzy query expansion: each query atom is matched by `nucleo_matcher`
    /// against the catalog terms that have postings.
    #[verifier::rlimit(40)]
    pub fn resolve_query_fuzzy(&self, query: &str) -> (r: Option<ResolvedQuery>)
        requires
            self.wf(),
        ensures
            resolved_fuzzily(r, self.catalog(), self.posting_lists(), query@),
    {
        let pattern = FuzzyPattern::parse(query);
        let negations = pattern.atom_negations();
        let ghost negs = fuzzy_atom_negations(query@);
        let ghost catalog = self.catalog();
        let ghost pls = self.posting_lists();
        let ghost qv = query@;
        let na = negations.len();
        if na == 0 {
            return None;
        }
        let mut matcher = PathMatcher::new();
        let nt = self.term_count();
        proof {
            self.lemma_store_facts();
        }
        let mut positive_groups: Vec<Vec<ExpandedTerm>> = Vec::new();
        let mut negative_groups: Vec<Vec<ExpandedTerm>> = Vec::new();
        let ghost all = index_seq(na as nat);
        for a in 0..na
            invariant
                na == negations@.len(),
                negations@ == negs,
                negs == fuzzy_atom_negations(qv),
                pattern@ == qv,
                qv == query@,
                na > 0,
                self.wf(),
                catalog == self.catalog(),
                pls == self.posting_lists(),
                nt == catalog.len(),
                nt == pls.len(),
                nt <= u32::MAX + 1,
                all == index_seq(na as nat),
                forall|j: int|
                    0 <= j < a && !negs[j] ==> fuzzy_candidates(catalog, pls, qv, j, nt as int).len() > 0,
                positive_groups@.len() == all.take(a as int).filter(negation_is(negs, false)).len(),
                forall|g: int|
                    0 <= g < positive_groups@.len() ==> fuzzy_group(
                        (#[trigger] positive_groups@[g])@,
                        catalog,
                        pls,
                        qv,
                        all.take(a as int).filter(negation_is(negs, false))[g],
                    ),
                negative_groups@.len() == all.take(a as int).filter(negation_is(negs, true)).len(),
                forall|g: int|
                    0 <= g < negative_groups@.len() ==> fuzzy_group(
                        (#[trigger] negative_groups@[g])@,
                        catalog,
                        pls,
                        qv,
                        all.take(a as int).filter(negation_is(negs, true))[g],
                    ),
        {
            let mut candidates: Vec<ExpandedTerm> = Vec::new();
            for t in 0..nt
                invariant
                    nt == catalog.len(),
                    nt == pls.len(),
                    nt <= u32::MAX + 1,
                    a < na,
                    na == fuzzy_atom_negations(pattern@).len(),
                    self.wf(),
                    catalog == self.catalog(),
                    pls == self.posting_lists(),
                    candidates@ == fuzzy_candidates(catalog, pls, pattern@, a as int, t as int),
                    forall|k: int| 0 <= k < candidates@.len() ==> (#[trigger] candidates@[k]).fuzzy_score <= u16::MAX,
            {
                let ghost before = candidates@;
                if self.posting_count(t) > 0 {
                    match pattern.atom_score(a, &mut matcher, self.term_matcher_text(t)) {
                        Some(score) => {
                            candidates.push(ExpandedTerm { term_id: t as u32, fuzzy_score: score });
                        },
                        None => {},
                    }
                }
                proof {
                    assert(t as int + 1 - 1 == t);
                }
            }
            let ghost cands = candidates@;
            let negative = negations[a];
            let filtered = filter_fuzzy_expanded_terms(candidates, negative);
            let ghost fv = filtered@;
            let group = sort_dedup_by_id(filtered);
            proof {
                assert(fuzzy_group(group@, catalog, pls, qv, a as int));
                assert(all.take(a + 1) =~= all.take(a as int).push(a as int));
                all.take(a as int).lemma_filter_push(a as int, negation_is(negs, false));
                all.take(a as int).lemma_filter_push(a as int, negation_is(negs, true));
            }
            if negative {
                let ghost before = negative_groups@;
                negative_groups.push(group);
                proof {
                    assert forall|g: int| 0 <= g < negative_groups@.len() implies fuzzy_group(
                        (#[trigger] negative_groups@[g])@,
                        catalog,
                        pls,
                        qv,
                        all.take(a + 1).filter(negation_is(negs, true))[g],
                    ) by {
                        if g < before.len() {
                            assert(negative_groups@[g] == before[g]);
                        }
                    }
                }
            } else if group.len() == 0 {
                proof {
                    if cands.len() > 0 {
                        lemma_above_floor_nonempty(cands);
                        if above_floor(cands).len() > FUZZY_POSITIVE_TERM_LIMIT {
                            let s = choose|s: Seq<ExpandedTerm>|
                                s.to_multiset() == above_floor(cands).to_multiset() && sorted_by_rank(s) && fv == s.take(
                                    FUZZY_POSITIVE_TERM_LIMIT as int,
                                );
                            s.to_multiset_ensures();
                            above_floor(cands).to_multiset_ensures();
                        }
                        assert(fv.len() > 0);
                        assert(sorted_by_id_of(group@, fv));
                        let f0 = fv[0];
                        assert(0 <= 0 < fv.len());
                        assert(exists|j: int| 0 <= j < group@.len() && #[trigger] group@[j].term_id == f0.term_id);
                    }
                    assert(!negs[a as int]);
                    assert(exists|x: int|
                        0 <= x < negs.len() && !(#[trigger] negs[x]) && fuzzy_candidates(catalog, pls, qv, x, catalog.len() as int).len() == 0);
                }
                return None;
            } else {
                let ghost before = positive_groups@;
                positive_groups.push(group);
                proof {
                    if cands.len() == 0 {
                        assert(fv == cands);
                        assert(sorted_by_id_of(group@, fv));
                        assert(fv.contains(group@[0]));
                    }
                    assert forall|g: int| 0 <= g < positive_groups@.len() implies fuzzy_group(
                        (#[trigger] positive_groups@[g])@,
                        catalog,
                        pls,
                        qv,
                        all.take(a + 1).filter(negation_is(negs, false))[g],
                    ) by {
                        if g < before.len() {
                            assert(positive_groups@[g] == before[g]);
                        }
                    }
                }
            }
        }
        proof {
            assert(all.take(na as int) =~= all);
            assert(!(exists|x: int|
                0 <= x < negs.len() && !(#[trigger] negs[x]) && fuzzy_candidates(catalog, pls, qv, x, catalog.len() as int).len() == 0));
        }
        Some(ResolvedQuery { positive_groups, negative_groups })
    }

    /// Expands each parsed query atom against the indexed word catalog, by
    /// fuzzy matching or by exact comparison as configured.
    pub fn resolve_query(&self, query: &str) -> (r: Option<ResolvedQuery>)
        requires
            self.wf(),
            query@.len() < usize::MAX,
        ensures
            self.uses_fuzzy_search() ==> resolved_fuzzily(r, self.catalog(), self.posting_lists(), query@),
            !self.uses_fuzzy_search() ==> resolved_exactly(r, self.catalog(), query_atoms(query@)),
    {
        if self.fuzzy_search_enabled() {
            self.resolve_query_fuzzy(query)
        } else {
            self.resolve_query_exact(query)
        }
    }

    /// Exact query expansion: exact lookup, prefix, or substring comparisons.
    pub fn resolve_query_exact(&self, query: &str) -> (r: Option<ResolvedQuery>)
        requires
            self.wf(),
            query@.len() < usize::MAX,
        ensures
            resolved_exactly(r, self.catalog(), query_atoms(query@)),
    {
        let atoms = parse_query_atoms(query);
        let ghost av = query_atoms(query@);
        let ghost catalog = self.catalog();
        if atoms.len() == 0 {
            return None;
        }
        let mut positive_groups: Vec<Vec<ExpandedTerm>> = Vec::new();
        let mut negative_groups: Vec<Vec<ExpandedTerm>> = Vec::new();
        let n = atoms.len();
        for k in 0..n
            invariant
                n == atoms@.len(),
                n == av.len(),
                av == query_atoms(query@),
                n > 0,
                self.wf(),
                catalog == self.catalog(),
                forall|j: int| 0 <= j < n ==> av[j] == ((#[trigger] atoms@[j]).negative, atoms@[j].mode, atoms@[j].text@),
                forall|j: int| 0 <= j < k && !(#[trigger] av[j]).0 ==> atom_has_match(catalog, av[j]),
                positive_groups@.len() == positive_atoms(av.take(k as int)).len(),
                forall|g: int|
                    0 <= g < positive_groups@.len() ==> is_expansion(
                        (#[trigger] positive_groups@[g])@,
                        catalog,
                        positive_atoms(av.take(k as int))[g].1,
                        positive_atoms(av.take(k as int))[g].2,
                    ),
                negative_groups@.len() == negative_atoms(av.take(k as int)).len(),
                forall|g: int|
                    0 <= g < negative_groups@.len() ==> is_expansion(
                        (#[trigger] negative_groups@[g])@,
                        catalog,
                        negative_atoms(av.take(k as int))[g].1,
                        negative_atoms(av.take(k as int))[g].2,
                    ),
        {
            let atom = &atoms[k];
            let expanded = self.expand_terms_exact(atom.mode, atom.text.as_slice());
            let ghost a = av[k as int];
            let ghost ev = expanded@;
            proof {
                self.lemma_store_facts();
                assert(is_expansion(ev, catalog, a.1, a.2));
                assert(a.0 == atom.negative);
            }
            proof {
                assert(av.take(k + 1) =~= av.take(k as int).push(a));
                av.take(k as int).lemma_filter_push(a, |x: (bool, AtomMode, Seq<char>)| !x.0);
                av.take(k as int).lemma_filter_push(a, |x: (bool, AtomMode, Seq<char>)| x.0);
            }
            if atom.negative {
                let ghost before = negative_groups@;
                negative_groups.push(expanded);
                proof {
                    assert forall|g: int| 0 <= g < negative_groups@.len() implies is_expansion(
                        (#[trigger] negative_groups@[g])@,
                        catalog,
                        negative_atoms(av.take(k + 1))[g].1,
                        negative_atoms(av.take(k + 1))[g].2,
                    ) by {
                        if g < before.len() {
                            assert(negative_groups@[g] == before[g]);
                        }
                    }
                }
            } else if expanded.len() == 0 {
                proof {
                    assert(!atom_has_match(catalog, a)) by {
                        if atom_has_match(catalog, a) {
                            let t = choose|t: int| 0 <= t < catalog.len() && term_matches(a.1, #[trigger] catalog[t], a.2);
                            let tu = t as u32;
                            assert(tu as int == t);
                            assert(tu < catalog.len() && term_matches(a.1, catalog[tu as int], a.2));
                            assert(exists|kk: int| 0 <= kk < ev.len() && #[trigger] ev[kk].term_id == tu);
                        }
                    }
                    assert(!av[k as int].0);
                    assert(exists|j: int| 0 <= j < av.len() && !(#[trigger] av[j]).0 && !atom_has_match(catalog, av[j]));
                    assert(resolved_exactly(None, catalog, av));
                }
                return None;
            } else {
                let ghost before = positive_groups@;
                positive_groups.push(expanded);
                proof {
                    let e0 = ev[0];
                    assert(exists|kk: int| 0 <= kk < ev.len() && #[trigger] ev[kk].term_id == e0.term_id);
                    assert(term_matches(a.1, catalog[e0.term_id as int], a.2));
                    assert(atom_has_match(catalog, a));
                    assert forall|g: int| 0 <= g < positive_groups@.len() implies is_expansion(
                        (#[trigger] positive_groups@[g])@,
                        catalog,
                        positive_atoms(av.take(k + 1))[g].1,
                        positive_atoms(av.take(k + 1))[g].2,
                    ) by {
                        if g < before.len() {
                            assert(positive_groups@[g] == before[g]);
                        }
                    }
                }
            }
        }
        proof {
            assert(av.take(n as int) =~= av);
            assert(!(exists|j: int| 0 <= j < av.len() && !(#[trigger] av[j]).0 && !atom_has_match(catalog, av[j])));
        }
        Some(ResolvedQuery { positive_groups, negative_groups })
    }

    /// Collects the catalog terms that match an atom's text by exact, prefix,
    /// or substring comparison.
    pub fn expand_terms_exact(&self, mode: AtomMode, text: &[char]) -> (r: Vec<ExpandedTerm>)
        requires
            self.wf(),
        ensures
            is_expansion(r@, self.catalog(), mode, text@),
    {
        proof {
            self.lemma_store_facts();
        }
        let ghost catalog = self.catalog();
        let mut r: Vec<ExpandedTerm> = Vec::new();
        if mode == AtomMode::Exact {
            let key = string_from_chars(text);
            match self.lookup_term(key.as_str()) {
                Some(id) => {
                    r.push(ExpandedTerm { term_id: id, fuzzy_score: 0 });
                    proof {
                        assert forall|t: u32|
                            (exists|k: int| 0 <= k < r@.len() && #[trigger] r@[k].term_id == t) <==> (t < catalog.len()
                                && term_matches(mode, catalog[t as int], text@)) by {
                            if t < catalog.len() && term_matches(mode, catalog[t as int], text@) {
                                assert(catalog[t as int] == catalog[id as int]);
                                assert(r@[0].term_id == t);
                            }
                        }
                    }
                },
                None => {},
            }
            return r;
        }
        let n = self.term_count();
        for i in 0..n
            invariant
                n == catalog.len(),
                catalog == self.catalog(),
                n <= u32::MAX + 1,
                mode != AtomMode::Exact,
                forall|a: int, b: int| 0 <= a < b < r@.len() ==> r@[a].term_id < r@[b].term_id,
                forall|k: int| 0 <= k < r@.len() ==> (#[trigger] r@[k]).term_id < i && r@[k].fuzzy_score == 0,
                forall|t: u32|
                    (exists|k: int| 0 <= k < r@.len() && #[trigger] r@[k].term_id == t) <==> (t < i
                        && term_matches(mode, catalog[t as int], text@)),
        {
            let term = self.term_chars(i);
            let hit = if mode == AtomMode::Prefix {
                chars_starts_with(term.as_slice(), text)
            } else {
                chars_contains(term.as_slice(), text)
            };
            let ghost before = r@;
            if hit {
                r.push(ExpandedTerm { term_id: i as u32, fuzzy_score: 0 });
            }
            proof {
                assert forall|t: u32|
                    (exists|k: int| 0 <= k < r@.len() && #[trigger] r@[k].term_id == t) <==> (t < i + 1
                        && term_matches(mode, catalog[t as int], text@)) by {
                    if exists|k: int| 0 <= k < r@.len() && #[trigger] r@[k].term_id == t {
                        let k = choose|k: int| 0 <= k < r@.len() && #[trigger] r@[k].term_id == t;
                        if k < before.len() {
                            assert(before[k].term_id == t);
                        }
                    }
                    if t < i && term_matches(mode, catalog[t as int], text@) {
                        let k = choose|k: int| 0 <= k < before.len() && #[trigger] before[k].term_id == t;
                        assert(r@[k].term_id == t);
                    }
                    if t == i && term_matches(mode, catalog[t as int], text@) {
                        assert(r@[before.len() as int].term_id == t);
                    }
                }
            }
        }
        r
    }
}

} // verus!
