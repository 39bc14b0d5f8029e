//! The ternary consistency check an index scan runs once per candidate row:
//! from the per-key presence results, decide whether the row definitely
//! matches, possibly matches and needs a recheck, or definitely does not
//! match.

use vstd::prelude::*;

use crate::config::Config;
use crate::{BigmError, LIKE_STRATEGY_NUMBER, SIMILARITY_STRATEGY_NUMBER};

verus! {

/// One key's presence result from an index scan: present, absent, or
/// undetermined (as in a lossy bitmap scan).
#[derive(Debug, PartialEq, Eq, Structural, Clone, Copy)]
pub enum GinTernaryValue {
    /// The key is certainly absent.
    False,
    /// The key is certainly present.
    True,
    /// The key may be present; only a recheck can tell.
    Maybe,
}

/// Whether some per-key result is FALSE.
pub open spec fn any_false(checks: Seq<GinTernaryValue>) -> bool {
    exists|i: int| 0 <= i < checks.len() && checks[i] == GinTernaryValue::False
}

/// How many per-key results are not FALSE.
pub open spec fn count_not_false(checks: Seq<GinTernaryValue>) -> nat
    decreases checks.len(),
{
    if checks.len() == 0 {
        0
    } else {
        count_not_false(checks.drop_last()) + if checks.last() == GinTernaryValue::False {
            0nat
        } else {
            1nat
        }
    }
}

/// The verdict for a wildcard search: FALSE as soon as any extracted key is
/// absent (every key of a contained pattern must be present); otherwise
/// MAYBE when a recheck is enabled and the match is not known to be exact,
/// else TRUE.
pub open spec fn spec_like_consistent(
    checks: Seq<GinTernaryValue>,
    needs_recheck: bool,
    config: Config,
) -> GinTernaryValue {
    if any_false(checks) {
        GinTernaryValue::False
    } else if config.enable_recheck && (needs_recheck || checks.len() != 1) {
        GinTernaryValue::Maybe
    } else {
        GinTernaryValue::True
    }
}

/// The verdict for a similarity search: FALSE with no keys, or when the
/// share of present keys is below the threshold; otherwise MAYBE, firmed up
/// to TRUE when rechecking is disabled.
pub open spec fn spec_similarity_consistent(
    checks: Seq<GinTernaryValue>,
    config: Config,
) -> GinTernaryValue {
    if checks.len() == 0 {
        GinTernaryValue::False
    } else if count_not_false(checks) * config.similarity_limit_den
        >= config.similarity_limit_num * checks.len() {
        if config.enable_recheck {
            GinTernaryValue::Maybe
        } else {
            GinTernaryValue::True
        }
    } else {
        GinTernaryValue::False
    }
}

/// Resolves one scan candidate: per-key presence results in, ternary
/// verdict out. `needs_recheck` is the flag that key extraction produced
/// for a wildcard query; a similarity search ignores it. An unknown
/// strategy number is an error, never a silent default.
pub fn gin_bigm_triconsistent(
    check: &Vec<GinTernaryValue>,
    strategy_number: i16,
    needs_recheck: bool,
    config: &Config,
) -> (r: Result<GinTernaryValue, BigmError>)
    requires
        config.wf(),
    ensures
        strategy_number == LIKE_STRATEGY_NUMBER ==> r == Ok::<GinTernaryValue, BigmError>(
            spec_like_consistent(check@, needs_recheck, *config),
        ),
        strategy_number == SIMILARITY_STRATEGY_NUMBER ==> r == Ok::<GinTernaryValue, BigmError>(
            spec_similarity_consistent(check@, *config),
        ),
        (strategy_number != LIKE_STRATEGY_NUMBER && strategy_number != SIMILARITY_STRATEGY_NUMBER)
            ==> r == Err::<GinTernaryValue, BigmError>(
            BigmError::UnrecognizedStrategy(strategy_number),
        ),
{
    let nkeys = check.len();
    if strategy_number == LIKE_STRATEGY_NUMBER {
        // every extracted key must be present
        let mut i: usize = 0;
        while i < nkeys
            invariant
                i <= nkeys == check@.len(),
                strategy_number == LIKE_STRATEGY_NUMBER,
                forall|k: int| 0 <= k < i ==> check@[k] != GinTernaryValue::False,
            decreases nkeys - i,
        {
            if check[i] == GinTernaryValue::False {
                proof {
                    assert(LIKE_STRATEGY_NUMBER != SIMILARITY_STRATEGY_NUMBER);
                }
                return Ok(GinTernaryValue::False);
            }
            i += 1;
        }
        // no recheck when it is disabled, or when the single extracted key
        // already proves the match exactly
        if config.enable_recheck && (needs_recheck || nkeys != 1) {
            Ok(GinTernaryValue::Maybe)
        } else {
            Ok(GinTernaryValue::True)
        }
    } else if strategy_number == SIMILARITY_STRATEGY_NUMBER {
        let mut ntrue: usize = 0;
        let mut i: usize = 0;
        proof {
            assert(check@.take(0) =~= Seq::<GinTernaryValue>::empty());
        }
        while i < nkeys
            invariant
                i <= nkeys == check@.len(),
                ntrue == count_not_false(check@.take(i as int)),
                ntrue <= i,
            decreases nkeys - i,
        {
            proof {
                assert(check@.take(i as int + 1).drop_last() =~= check@.take(i as int));
                assert(check@.take(i as int + 1).last() == check@[i as int]);
            }
            if check[i] != GinTernaryValue::False {
                ntrue += 1;
            }
            i += 1;
        }
        proof {
            assert(check@.take(nkeys as int) =~= check@);
        }
        proof {
            vstd::arithmetic::mul::lemma_mul_upper_bound(
                ntrue as int,
                u64::MAX as int,
                config.similarity_limit_den as int,
                u32::MAX as int,
            );
            vstd::arithmetic::mul::lemma_mul_upper_bound(
                config.similarity_limit_num as int,
                u32::MAX as int,
                nkeys as int,
                u64::MAX as int,
            );
        }
        if nkeys == 0 {
            Ok(GinTernaryValue::False)
        } else if (ntrue as u128) * (config.similarity_limit_den as u128) >= (
        config.similarity_limit_num as u128) * (nkeys as u128) {
            if config.enable_recheck {
                Ok(GinTernaryValue::Maybe)
            } else {
                Ok(GinTernaryValue::True)
            }
        } else {
            Ok(GinTernaryValue::False)
        }
    } else {
        Err(BigmError::UnrecognizedStrategy(strategy_number))
    }
}

/// Short-circuit law of the wildcard strategy: one absent key forces a
/// FALSE verdict, whatever the other results, the recheck flag and the
/// configuration say.
pub proof fn lemma_like_false_short_circuit(
    checks: Seq<GinTernaryValue>,
    needs_recheck: bool,
    config: Config,
)
    requires
        exists|i: int| 0 <= i < checks.len() && checks[i] == GinTernaryValue::False,
    ensures
        spec_like_consistent(checks, needs_recheck, config) == GinTernaryValue::False,
{
}

/// A similarity search with no keys never matches.
pub proof fn lemma_similarity_no_keys(checks: Seq<GinTernaryValue>, config: Config)
    requires
        checks.len() == 0,
    ensures
        spec_similarity_consistent(checks, config) == GinTernaryValue::False,
{
}

} // verus!
