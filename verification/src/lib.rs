//! Verified core of a per-node telemetry daemon for batch jobs isolated in
//! cgroups.  The library owns the metric catalog, the job table, the
//! per-subscription countdown scheduler, the stats-file and subscription-spec
//! parsers, and the snapshot merge; the surrounding process (filesystem
//! watching, file reads, counter FFI, wire transport) feeds it plain values.

use vstd::prelude::*;

pub mod backends;
pub mod catalog;
pub mod cgroup_manager;
pub mod metric;
pub mod parse;
pub mod sampling;
pub mod scheduler;
pub mod stats;

verus! {

/// Time left until the next absolute instant that is a whole multiple of
/// `period`, starting from `now` (both in the same unit).  The tick loop
/// sleeps for exactly this long so that successive wakeups stay phase-locked
/// to round timestamps despite per-tick jitter.
pub fn duration_to_next_multiple(now: u128, period: u128) -> (r: u128)
    requires
        period > 0,
        now + period <= u128::MAX,
    ensures
        r == (now / period + 1) * period - now,
        0 < r <= period,
        (now + r) % (period as int) == 0,
{
    proof {
        let n = now as int;
        let p = period as int;
        vstd::arithmetic::div_mod::lemma_fundamental_div_mod(n, p);
        vstd::arithmetic::div_mod::lemma_mod_bound(n, p);
        assert((n / p + 1) * p == p * (n / p) + p) by (nonlinear_arith);
        assert(((n / p + 1) * p) % p == 0) by (nonlinear_arith)
            requires p > 0
        ;
        assert(n < (n / p + 1) * p <= n + p);
    }
    (now / period + 1) * period - now
}

} // verus!
