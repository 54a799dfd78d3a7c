//! A small in-memory fuzzy lookup index.
//!
//! Callers register (identifier, free-text content) pairs and later issue
//! free-text queries; the index returns the identifiers of registered entries
//! ranked by textual similarity, tolerating typos and partial words.
//!
//! Content and queries run through the same tokenizer (case folding,
//! whitespace splitting, configurable stop-word splitting). Every distinct
//! vocabulary token is scored against every query token with either
//! Jaro-Winkler similarity or a bounded Levenshtein distance; scores are held
//! as fixed-point fractions of [`options::SCORE_SCALE`].
#![verifier::loop_isolation(false)]

pub mod engine;
pub mod laws;
pub mod options;
pub mod score;
pub mod search;
pub mod text;

pub use engine::SimSearch;
pub use options::OptionsError;
pub use options::SearchOptions;
