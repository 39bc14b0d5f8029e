//! Configuration snapshot threaded into key extraction and consistency
//! checking.
//!
//! The host owns the runtime-settable parameters; the core reads them from an
//! immutable snapshot passed per call and keeps no state of its own. The
//! similarity threshold is carried as an exact fraction so that threshold
//! comparisons are exact integer arithmetic.

use vstd::prelude::*;

verus! {

/// A read-only snapshot of the host's runtime parameters.
#[derive(Debug, Clone, Copy)]
pub struct Config {
    /// Whether uncertain index matches get a final recheck against the
    /// stored value.
    pub enable_recheck: bool,
    /// Cap on the number of keys used for an index search; zero means no
    /// limit.
    pub gin_key_limit: i32,
    /// Numerator of the similarity threshold fraction.
    pub similarity_limit_num: u32,
    /// Denominator of the similarity threshold fraction.
    pub similarity_limit_den: u32,
}

impl Config {
    /// A valid snapshot: a non-negative key cap and a threshold fraction
    /// within [0, 1].
    pub open spec fn wf(self) -> bool {
        &&& self.gin_key_limit >= 0
        &&& self.similarity_limit_den > 0
        &&& self.similarity_limit_num <= self.similarity_limit_den
    }
}

/// Whether uncertain matches are rechecked against the stored value.
pub fn enable_recheck(config: &Config) -> (r: bool)
    ensures
        r == config.enable_recheck,
{
    config.enable_recheck
}

/// The maximum number of bigram keys used for an index search; zero means no
/// limit.
pub fn gin_key_limit(config: &Config) -> (r: i32)
    ensures
        r == config.gin_key_limit,
{
    config.gin_key_limit
}

/// The similarity threshold as an exact fraction (numerator, denominator).
pub fn similarity_limit(config: &Config) -> (r: (u32, u32))
    ensures
        r.0 == config.similarity_limit_num,
        r.1 == config.similarity_limit_den,
{
    (config.similarity_limit_num, config.similarity_limit_den)
}

} // verus!
