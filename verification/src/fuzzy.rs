//! Fuzzy path matching, backed by `nucleo-matcher` — the fzf/skim-style
//! matcher written by the Helix maintainers — in its path configuration
//! (extra bonus for matches right after `/`).

use vstd::prelude::*;
use crate::text::{chars_of, trim, trim_vec};
use nucleo_matcher::pattern::{AtomKind, CaseMatching, Normalization, Pattern};

verus! {

/// The score `nucleo-matcher` gives `candidate` for the fuzzy pattern
/// `query` (case-insensitive, smart normalisation, path bonuses), or `None`
/// when it does not match.
pub uninterp spec fn path_match_score(query: Seq<char>, candidate: Seq<char>) -> Option<u32>;

/// Scores `candidate` against `query` with `nucleo_matcher`: a `Matcher` in
/// the `Config::DEFAULT.match_paths()` configuration and
/// `Pattern::new(query, CaseMatching::Ignore, Normalization::Smart,
/// AtomKind::Fuzzy)`, then `Pattern::score`. Claimed: the result is
/// [`path_match_score`] of the two strings; nothing else is stated of it.
#[verifier::external_body]
fn nucleo_path_score(query: &str, candidate: &str) -> (r: Option<u32>)
    ensures
        r == path_match_score(query@, candidate@),
{
    let mut matcher = nucleo_matcher::Matcher::new(nucleo_matcher::Config::DEFAULT.match_paths());
    let pattern = Pattern::new(query, CaseMatching::Ignore, Normalization::Smart, AtomKind::Fuzzy);
    let mut buf = Vec::new();
    pattern.score(nucleo_matcher::Utf32Str::new(candidate, &mut buf), &mut matcher)
}

/// The score of `candidate` for `query`: `Some(0)` for a blank query (which
/// matches everything), otherwise the matcher's score.
pub open spec fn spec_fuzzy_score(query: Seq<char>, candidate: Seq<char>) -> Option<u32> {
    if trim(query).len() == 0 {
        Some(0)
    } else {
        path_match_score(query, candidate)
    }
}

/// A reusable fuzzy matcher for a single query, tuned for filesystem paths.
pub struct PathMatcher {
    query: String,
    empty: bool,
}

impl PathMatcher {
    #[verifier::type_invariant]
    spec fn inv(self) -> bool {
        self.empty == (trim(self.query@).len() == 0)
    }

    /// The query this matcher scores against.
    pub closed spec fn query(self) -> Seq<char> {
        self.query@
    }

    /// Build a matcher for `query`. An empty query matches every candidate with
    /// a neutral score.
    pub fn new(query: &str) -> (m: Self)
        ensures
            m.query() == query@,
    {
        let q = chars_of(query);
        let t = trim_vec(&q);
        let mut s = String::new();
        crate::text::extend_string(&mut s, query);
        PathMatcher { query: s, empty: t.len() == 0 }
    }

    /// Whether the query was empty (so everything matches).
    pub fn is_empty(&self) -> (r: bool)
        ensures
            r == (trim(self.query()).len() == 0),
    {
        proof {
            use_type_invariant(self);
        }
        self.empty
    }

    /// Score `candidate` against the query. Returns `None` when it does not
    /// match; higher scores are better. An empty query yields `Some(0)`.
    pub fn score(&self, candidate: &str) -> (r: Option<u32>)
        ensures
            r == spec_fuzzy_score(self.query(), candidate@),
    {
        proof {
            use_type_invariant(self);
        }
        if self.empty {
            return Some(0);
        }
        nucleo_path_score(self.query.as_str(), candidate)
    }
}

/// One-shot convenience wrapper (builds a throwaway [`PathMatcher`]). Prefer
/// reusing a [`PathMatcher`] when scoring many candidates.
pub fn fuzzy_match(query: &str, candidate: &str) -> (r: Option<u32>)
    ensures
        r == spec_fuzzy_score(query@, candidate@),
{
    PathMatcher::new(query).score(candidate)
}

/// A blank query matches every candidate, with the neutral score zero.
pub proof fn lemma_blank_query_matches_everything(query: Seq<char>, candidate: Seq<char>)
    requires
        trim(query).len() == 0,
    ensures
        spec_fuzzy_score(query, candidate) == Some(0u32),
{
}

} // verus!
