//! The staleness policy for the cached evaluation history: when the
//! cache may be used as it stands and when it must be refreshed first.

use vstd::prelude::*;

verus! {

/// How long a stale cache may still be used without a refresh, in
/// seconds.
pub const FRESH_SECS: u64 = 900;

/// What to do with the cached history before searching.
#[derive(Debug, PartialEq, Eq, Structural)]
pub enum Freshness {
    /// The cache is fresh enough: use it unmodified.
    UseCache,
    /// The cache is stale: refresh it from the remote source first.
    Refresh,
}

/// Decide whether the cached history may be used as it stands. It may
/// when its last record already covers the current bad tip, or else when
/// no more than the threshold has elapsed since the cache was written;
/// only a cache that fails both tests is refreshed.
pub fn history_freshness(covers_bad: bool, elapsed_secs: u64, elapsed_subsec_nanos: u32) -> (r:
    Freshness)
    ensures
        r == Freshness::Refresh <==> (!covers_bad && (elapsed_secs > FRESH_SECS || (elapsed_secs
            == FRESH_SECS && elapsed_subsec_nanos > 0))),
{
    if covers_bad {
        Freshness::UseCache
    } else if elapsed_secs > FRESH_SECS || (elapsed_secs == FRESH_SECS && elapsed_subsec_nanos > 0) {
        Freshness::Refresh
    } else {
        Freshness::UseCache
    }
}

} // verus!
