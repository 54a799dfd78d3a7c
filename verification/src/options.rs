//! Configuration for the search engine.
//!
//! All options are set through builder-style methods that consume the old
//! value and return the updated one; the engine itself never mutates its
//! configuration. Similarity scores and the threshold are fixed-point
//! fractions with denominator [`SCORE_SCALE`].

use vstd::prelude::*;

verus! {

/// Denominator of all fixed-point similarity scores: scores and thresholds
/// range over `0 ..= SCORE_SCALE`, standing for the real interval `[0, 1]`.
pub const SCORE_SCALE: u64 = 0x4000_0000;

/// Default similarity threshold: the largest fixed-point fraction not above
/// eight tenths.
pub const DEFAULT_THRESHOLD: u64 = 858993459;

/// The error returned when an engine is constructed from malformed options.
#[derive(Clone, Copy, Debug, PartialEq, Eq, Structural)]
pub enum OptionsError {
    /// The threshold lies outside `0 ..= SCORE_SCALE` and so names no
    /// fraction in `[0, 1]`.
    ThresholdOutOfRange,
}

/// Options and flags configuring the search engine.
#[derive(Clone, Debug)]
pub struct SearchOptions {
    /// When false (the default), content and queries are case folded before
    /// any splitting.
    pub case_sensitive: bool,
    /// When true (the default), content and queries are split on Unicode
    /// whitespace.
    pub stop_whitespace: bool,
    /// Substrings that terminate a token: each one, in order, splits every
    /// current token on its occurrences, dropping the stop word itself.
    pub stop_words: Vec<String>,
    /// Minimum score, as a fraction of [`SCORE_SCALE`], that a vocabulary
    /// token must strictly exceed to count as a match.
    pub threshold: u64,
    /// When true, score with a bounded Levenshtein distance over bytes
    /// (only meaningful for ASCII content) instead of Jaro-Winkler.
    pub levenshtein: bool,
}

impl SearchOptions {
    /// A threshold is well formed when it names a fraction in `[0, 1]`.
    pub open spec fn wf(self) -> bool {
        self.threshold <= SCORE_SCALE
    }

    /// Creates a default configuration.
    pub fn new() -> (r: Self)
        ensures
            r.case_sensitive == false,
            r.stop_whitespace == true,
            r.stop_words@ == Seq::<String>::empty(),
            r.threshold == DEFAULT_THRESHOLD,
            r.levenshtein == false,
            r.wf(),
    {
        SearchOptions {
            case_sensitive: false,
            stop_whitespace: true,
            stop_words: Vec::new(),
            threshold: DEFAULT_THRESHOLD,
            levenshtein: false,
        }
    }

    /// Sets whether the engine distinguishes letter case.
    pub fn case_sensitive(self, case_sensitive: bool) -> (r: Self)
        ensures
            r == (SearchOptions { case_sensitive, ..self }),
    {
        SearchOptions { case_sensitive, ..self }
    }

    /// Sets whether tokens are split on Unicode whitespace (tabs and line
    /// breaks included).
    pub fn stop_whitespace(self, stop_whitespace: bool) -> (r: Self)
        ensures
            r == (SearchOptions { stop_whitespace, ..self }),
    {
        SearchOptions { stop_whitespace, ..self }
    }

    /// Sets the custom stop words that split content and query tokens.
    pub fn stop_words(self, stop_words: Vec<String>) -> (r: Self)
        ensures
            r == (SearchOptions { stop_words, ..self }),
    {
        SearchOptions { stop_words, ..self }
    }

    /// Sets the match threshold, as a fraction of [`SCORE_SCALE`].
    ///
    /// A value above [`SCORE_SCALE`] names no fraction in `[0, 1]` and is
    /// rejected when an engine is constructed from these options.
    pub fn threshold(self, threshold: u64) -> (r: Self)
        ensures
            r == (SearchOptions { threshold, ..self }),
    {
        SearchOptions { threshold, ..self }
    }

    /// Sets whether the byte-level bounded Levenshtein metric is used in
    /// place of Jaro-Winkler. That metric treats tokens as byte strings, so
    /// on non-ASCII content its distances are over- or under-counted.
    pub fn levenshtein(self, levenshtein: bool) -> (r: Self)
        ensures
            r == (SearchOptions { levenshtein, ..self }),
    {
        SearchOptions { levenshtein, ..self }
    }
}

} // verus!
