//! The fuzzy matching that `nucleo_matcher` performs, behind trusted wrappers.
//!
//! Every wrapper parses queries with smart case matching and smart Unicode
//! normalization, and matches with the path-matching configuration, as the
//! search datastores do.
use nucleo_matcher::pattern::{CaseMatching, Normalization, Pattern};
use nucleo_matcher::{Config, Matcher, Utf32String};
use vstd::prelude::*;

verus! {

#[verifier::external_type_specification]
#[verifier::external_body]
pub struct ExUtf32String(Utf32String);

#[verifier::external_type_specification]
#[verifier::external_body]
pub struct ExPattern(Pattern);

#[verifier::external_type_specification]
#[verifier::external_body]
pub struct ExMatcher(Matcher);

/// Most atoms whose `u16` scores a `u32` total always holds
/// (`65537 * 65535 <= u32::MAX`).
pub const MAX_SUMMED_ATOMS: usize = 65537;

/// Negation flag of each atom that `Pattern::parse` makes of a query.
pub uninterp spec fn fuzzy_atom_negations(query: Seq<char>) -> Seq<bool>;

/// What `Atom::score` returns for atom `atom` of a parsed query, taken with
/// its negation cleared, against a text.
pub uninterp spec fn fuzzy_atom_score(query: Seq<char>, atom: int, text: Seq<char>) -> Option<u16>;

/// The score that `Atom::indices` returns for atom `atom` of a parsed
/// query, taken with its negation cleared, against a text.
pub uninterp spec fn fuzzy_atom_indices_score(query: Seq<char>, atom: int, text: Seq<char>) -> Option<u16>;

/// What atom `atom` contributes to a pattern's total: its score, or for a
/// negated atom zero when its positive form does not match and a failure
/// when it does. `positive` is the score of the positive form.
pub open spec fn atom_contribution(query: Seq<char>, atom: int, text: Seq<char>, positive: Option<u16>) -> Option<u16> {
    if fuzzy_atom_negations(query)[atom] {
        if fuzzy_atom_score(query, atom, text) is Some {
            None
        } else {
            Some(0u16)
        }
    } else {
        positive
    }
}

/// The running total of the first `n` atoms' scores as `Pattern::score`
/// adds them: nothing once an atom fails.
pub open spec fn score_total(query: Seq<char>, text: Seq<char>, n: int) -> Option<int>
    decreases n,
{
    if n <= 0 {
        Some(0)
    } else {
        match score_total(query, text, n - 1) {
            Some(s) => match atom_contribution(query, n - 1, text, fuzzy_atom_score(query, n - 1, text)) {
                Some(x) => Some(s + x),
                None => None,
            },
            None => None,
        }
    }
}

/// The running total of the first `n` atoms' scores as `Pattern::indices`
/// adds them: nothing once an atom fails.
pub open spec fn indices_total(query: Seq<char>, text: Seq<char>, n: int) -> Option<int>
    decreases n,
{
    if n <= 0 {
        Some(0)
    } else {
        match indices_total(query, text, n - 1) {
            Some(s) => match atom_contribution(query, n - 1, text, fuzzy_atom_indices_score(query, n - 1, text)) {
                Some(x) => Some(s + x),
                None => None,
            },
            None => None,
        }
    }
}

/// Every running total of `Pattern::score` and of `Pattern::indices` on the
/// text fits in the `u32` that they add in.
pub open spec fn totals_fit(query: Seq<char>, text: Seq<char>) -> bool {
    forall|n: int|
        0 <= n <= fuzzy_atom_negations(query).len() ==> {
            &&& (#[trigger] score_total(query, text, n) matches Some(s) ==> s <= u32::MAX)
            &&& (indices_total(query, text, n) matches Some(s) ==> s <= u32::MAX)
        }
}

/// What `Pattern::score` returns for a parsed query against a text: the
/// sum of its atoms' contributions, or nothing when one fails.
pub open spec fn fuzzy_pattern_score(query: Seq<char>, text: Seq<char>) -> Option<u32> {
    match score_total(query, text, fuzzy_atom_negations(query).len() as int) {
        Some(s) => Some(s as u32),
        None => None,
    }
}

/// A running total of `n` atoms is at most `n` times the largest `u16`.
pub proof fn lemma_totals_bound(query: Seq<char>, text: Seq<char>, n: int)
    requires
        n >= 0,
    ensures
        score_total(query, text, n) matches Some(s) ==> 0 <= s <= n * 65535,
        indices_total(query, text, n) matches Some(s) ==> 0 <= s <= n * 65535,
    decreases n,
{
    if n > 0 {
        lemma_totals_bound(query, text, n - 1);
    }
}

/// With at most `MAX_SUMMED_ATOMS` atoms every total fits.
pub proof fn lemma_few_atoms_fit(query: Seq<char>, text: Seq<char>)
    requires
        fuzzy_atom_negations(query).len() <= MAX_SUMMED_ATOMS,
    ensures
        totals_fit(query, text),
{
    assert forall|n: int| 0 <= n <= fuzzy_atom_negations(query).len() implies {
        &&& (#[trigger] score_total(query, text, n) matches Some(s) ==> s <= u32::MAX)
        &&& (indices_total(query, text, n) matches Some(s) ==> s <= u32::MAX)
    } by {
        lemma_totals_bound(query, text, n);
        assert(n * 65535 <= 65537 * 65535) by (nonlinear_arith)
            requires
                0 <= n <= 65537,
        ;
    }
}

/// The char indices that `Pattern::indices` appends for a parsed query
/// against a text.
pub uninterp spec fn fuzzy_match_indices(query: Seq<char>, text: Seq<char>) -> Seq<u32>;

/// Searchable text stored together with the UTF-32 form that the matcher
/// reads.
pub struct NumberedString {
    text: String,
    utf32: Utf32String,
}

impl View for NumberedString {
    type V = Seq<char>;

    closed spec fn view(&self) -> Seq<char> {
        self.text@
    }
}

impl NumberedString {
    /// Keeps the text and converts it with `Utf32String::from` into the
    /// matcher's representation (claimed: the view is the text).
    #[verifier::external_body]
    pub fn new(string: String) -> (r: Self)
        ensures
            r@ == string@,
    {
        NumberedString { utf32: Utf32String::from(string.as_str()), text: string }
    }

    /// The text this string was made from.
    pub fn as_str(&self) -> (r: &str)
        ensures
            r@ == self@,
    {
        self.text.as_str()
    }
}

/// A query parsed by `Pattern::parse`, together with the query text.
pub struct FuzzyPattern {
    query: String,
    pattern: Pattern,
}

impl View for FuzzyPattern {
    type V = Seq<char>;

    closed spec fn view(&self) -> Seq<char> {
        self.query@
    }
}

impl FuzzyPattern {
    /// `Pattern::parse` with smart case matching and smart normalization
    /// (claimed: the view is the query parsed).
    #[verifier::external_body]
    pub(crate) fn parse(query: &str) -> (r: Self)
        ensures
            r@ == query@,
    {
        FuzzyPattern {
            query: query.to_string(),
            pattern: Pattern::parse(query, CaseMatching::Smart, Normalization::Smart),
        }
    }

    /// The `negative` flag of each parsed atom, in order (claimed: the named
    /// list of flags for this query).
    #[verifier::external_body]
    pub(crate) fn atom_negations(&self) -> (r: Vec<bool>)
        ensures
            r@ == fuzzy_atom_negations(self@),
    {
        self.pattern.atoms.iter().map(|atom| atom.negative).collect()
    }

    /// `Pattern::score` against a text (claimed: the atoms' contributions
    /// summed in order, stopping at the first that fails, as its source
    /// does). The matcher panics on texts longer than `u32::MAX` chars, and
    /// the `u32` sum overflows when a running total exceeds it; `requires`
    /// leaves both out.
    #[verifier::external_body]
    pub(crate) fn score(&self, matcher: &mut PathMatcher, text: &NumberedString) -> (r: Option<u32>)
        requires
            text@.len() <= u32::MAX,
            totals_fit(self@, text@),
        ensures
            r == fuzzy_pattern_score(self@, text@),
    {
        self.pattern.score(text.utf32.slice(..), &mut matcher.matcher)
    }

    /// `Atom::score` of one atom, with its negation cleared, against a text
    /// (claimed: the named score for this query, atom and text).
    #[verifier::external_body]
    pub(crate) fn atom_score(&self, atom: usize, matcher: &mut PathMatcher, text: &NumberedString) -> (r:
        Option<u32>)
        requires
            atom < fuzzy_atom_negations(self@).len(),
            text@.len() <= u32::MAX,
        ensures
            r == match fuzzy_atom_score(self@, atom as int, text@) {
                Some(x) => Some(x as u32),
                None => None,
            },
    {
        let mut positive_atom = self.pattern.atoms[atom].clone();
        positive_atom.negative = false;
        positive_atom.score(text.utf32.slice(..), &mut matcher.matcher).map(u32::from)
    }

    /// The score that `Atom::indices` returns for one atom, with its
    /// negation cleared, against a text; the indices it appends are
    /// dropped (claimed: the named score for this query, atom and text).
    #[verifier::external_body]
    pub(crate) fn atom_indices_score(&self, atom: usize, matcher: &mut PathMatcher, text: &NumberedString) -> (r:
        Option<u32>)
        requires
            atom < fuzzy_atom_negations(self@).len(),
            text@.len() <= u32::MAX,
        ensures
            r == match fuzzy_atom_indices_score(self@, atom as int, text@) {
                Some(x) => Some(x as u32),
                None => None,
            },
    {
        let mut positive_atom = self.pattern.atoms[atom].clone();
        positive_atom.negative = false;
        let mut scratch = Vec::new();
        positive_atom.indices(text.utf32.slice(..), &mut matcher.matcher, &mut scratch).map(u32::from)
    }

    /// `Pattern::indices` against a text, collected into a fresh vector
    /// (claimed: the named indices; each is a position in the matcher's
    /// char-per-grapheme form of the text, so below the text's char count).
    /// Its bounds are those of `score`: `Pattern::indices` adds the atoms'
    /// `Atom::indices` scores in a `u32` the same way.
    #[verifier::external_body]
    pub(crate) fn indices(&self, matcher: &mut PathMatcher, text: &NumberedString) -> (r: Vec<u32>)
        requires
            text@.len() <= u32::MAX,
            totals_fit(self@, text@),
        ensures
            r@ == fuzzy_match_indices(self@, text@),
            forall|k: int| 0 <= k < r@.len() ==> r@[k] < text@.len(),
    {
        let mut indices = Vec::new();
        let _ = self.pattern.indices(text.utf32.slice(..), &mut matcher.matcher, &mut indices);
        indices
    }
}

/// A `Matcher` configured for matching paths.
pub struct PathMatcher {
    matcher: Matcher,
}

impl PathMatcher {
    /// `Matcher::new(Config::DEFAULT.match_paths())`.
    #[verifier::external_body]
    pub(crate) fn new() -> Self {
        PathMatcher { matcher: Matcher::new(Config::DEFAULT.match_paths()) }
    }
}

} // verus!
