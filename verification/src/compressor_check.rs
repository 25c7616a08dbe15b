//! Deciding whether an AIR needs a compression stage before the first
//! recursion, from the number of rows its verifier circuit uses.
use vstd::prelude::*;
use vstd::arithmetic::power2::{pow2, lemma_pow2_unfold, lemma2_to64};

verus! {

/// Whether a compression stage is needed, and whether the STARK description
/// was updated while deciding.
#[derive(Debug, Clone, Copy, PartialEq, Eq, Structural)]
pub struct CompressorCheckResult {
    pub needed: bool,
    pub starkinfo_updated: bool,
}

/// `floor(log2(n))`, with 0 for 0 and 1.
pub open spec fn floor_log2(n: nat) -> nat
    decreases n,
{
    if n <= 1 {
        0
    } else {
        1 + floor_log2(n / 2)
    }
}

/// `floor(log2(n))` for a positive `n`: `2^r <= n < 2^(r+1)`.
pub proof fn lemma_log2_bounds(n: nat)
    requires
        n >= 1,
    ensures
        pow2(floor_log2(n)) <= n < pow2(floor_log2(n) + 1),
    decreases n,
{
    reveal_with_fuel(vstd::arithmetic::power::pow, 2);
    lemma_pow2_unfold(1);
    vstd::arithmetic::power2::lemma_pow2(0);
    if n > 1 {
        let k = floor_log2(n / 2);
        lemma_log2_bounds(n / 2);
        lemma_pow2_unfold(k + 1);
        lemma_pow2_unfold(k + 2);
        assert(floor_log2(n) == k + 1);
    }
}

/// `floor(log2(n))`, and 0 for 0.
pub fn log2_usize(n: usize) -> (r: usize)
    ensures
        r == floor_log2(n as nat),
        n >= 1 ==> r < n,
{
    let mut m: usize = n;
    let mut r: usize = 0;
    while m > 1
        invariant
            floor_log2(n as nat) == r + floor_log2(m as nat),
            r + m <= n,
            n >= 1 ==> m >= 1,
        decreases m,
    {
        m = m / 2;
        r = r + 1;
    }
    r
}

/// Row bits above which the verifier circuit needs a compression stage.
pub const RECURSIVE_BITS: usize = 17;

/// Rows of the recursion's threshold: `2^16 + 2^12`.
pub const QUERY_ROW_THRESHOLD: usize = 69632;

/// Bits needed to index `n_used` rows (at least 1).
pub open spec fn rows_bits(n_used: nat) -> nat {
    if n_used <= 1 {
        1
    } else {
        floor_log2((n_used - 1) as nat) + 1
    }
}

/// The number of FRI queries that fills the threshold of rows, rounding
/// up, when each query uses `n_used / n_queries` rows (`n_queries` itself
/// when a query uses no row).
pub open spec fn min_queries(n_used: nat, n_queries: nat) -> nat {
    let per_query: nat = if n_queries > 0 { n_used / n_queries } else { n_used };
    if per_query > 0 {
        ((QUERY_ROW_THRESHOLD + per_query - 1) as nat / per_query as nat) as nat
    } else {
        n_queries
    }
}

/// The decision for a verifier circuit of `n_used` rows with `n_queries`
/// FRI queries: a compression stage is needed above the recursion's bits;
/// below them the queries are raised or lowered to the minimum, and the
/// new number is returned when it differs.
pub open spec fn decision(n_used: nat, n_queries: nat) -> (CompressorCheckResult, Option<nat>) {
    let bits = rows_bits(n_used);
    if bits > RECURSIVE_BITS {
        (CompressorCheckResult { needed: true, starkinfo_updated: false }, None)
    } else if bits == RECURSIVE_BITS {
        (CompressorCheckResult { needed: false, starkinfo_updated: false }, None)
    } else if min_queries(n_used, n_queries) != n_queries {
        (CompressorCheckResult { needed: false, starkinfo_updated: true }, Some(min_queries(n_used, n_queries)))
    } else {
        (CompressorCheckResult { needed: false, starkinfo_updated: false }, None)
    }
}

/// Decides on a compression stage from the rows the verifier circuit uses,
/// returning the new number of FRI queries when the description must be
/// updated.
pub fn compressor_decision(n_used: usize, n_queries: usize) -> (r: (CompressorCheckResult, Option<usize>))
    ensures
        r.0 == decision(n_used as nat, n_queries as nat).0,
        r.1 == match decision(n_used as nat, n_queries as nat).1 {
            Some(q) => Some(q as usize),
            None => None::<usize>,
        },
        decision(n_used as nat, n_queries as nat).1 matches Some(q) ==> q <= usize::MAX,
{
    let n_bits: usize = if n_used <= 1 { 1 } else { log2_usize(n_used - 1) + 1 };
    if n_bits > RECURSIVE_BITS {
        return (CompressorCheckResult { needed: true, starkinfo_updated: false }, None);
    }
    if n_bits == RECURSIVE_BITS {
        return (CompressorCheckResult { needed: false, starkinfo_updated: false }, None);
    }
    proof {
        if n_used > 1 {
            lemma_log2_bounds((n_used - 1) as nat);
            lemma2_to64();
            assert(floor_log2((n_used - 1) as nat) + 1 <= 16);
            assert(pow2(floor_log2((n_used - 1) as nat) + 1) <= pow2(16)) by {
                if floor_log2((n_used - 1) as nat) + 1 < 16 {
                    vstd::arithmetic::power2::lemma_pow2_strictly_increases(floor_log2((n_used - 1) as nat) + 1, 16);
                }
            }
        }
    }
    assert(n_used <= 65536);
    let per_query: usize = if n_queries > 0 { n_used / n_queries } else { n_used };
    let min_q: usize = if per_query > 0 {
        (QUERY_ROW_THRESHOLD + per_query - 1) / per_query
    } else {
        n_queries
    };
    if min_q != n_queries {
        (CompressorCheckResult { needed: false, starkinfo_updated: true }, Some(min_q))
    } else {
        (CompressorCheckResult { needed: false, starkinfo_updated: false }, None)
    }
}

} // verus!
