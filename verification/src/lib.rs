//! Bigram-based fuzzy text matching for an inverted-index access method.
//!
//! The crate turns strings and wildcard search patterns into ordered,
//! duplicate-free sets of 2-character shingles ("bigrams"), scores textual
//! similarity as an exact ratio of shared bigrams, extracts search keys from
//! queries, and decides from per-key index results whether a candidate row is
//! a definite match, a possible match needing recheck, or no match.

use vstd::prelude::*;

pub mod bigram;
pub mod config;
pub mod consistent;
pub mod query;
pub mod similarity;
pub mod text;

verus! {

/// Strategy number for wildcard ("LIKE") substring search.
pub const LIKE_STRATEGY_NUMBER: i16 = 1;

/// Strategy number for similarity-threshold search.
pub const SIMILARITY_STRATEGY_NUMBER: i16 = 2;

/// Errors surfaced to the host engine.
#[derive(Debug, PartialEq, Eq, Structural, Clone, Copy)]
pub enum BigmError {
    /// A strategy number other than the two known ones reached key
    /// extraction or consistency checking.
    UnrecognizedStrategy(i16),
    /// An empty pattern was handed to `likequery`.
    EmptyQuery,
}

} // verus!
