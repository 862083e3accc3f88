//! Normalization of requested sampling periods against the engine's base
//! period.
//!
//! Every subscription's cadence is kept phase-aligned with the base tick:
//! a requested period is rounded to an exact multiple of the base period
//! (when larger) or an exact divisor of it (when not larger), choosing
//! whichever of the two bracketing candidates is numerically closer to the
//! request, with ties resolved to the lower candidate.

use vstd::prelude::*;

verus! {

/// The largest divisor of `b` that is at most `p` (well defined for
/// `1 <= p <= b`, since 1 divides everything).
pub open spec fn lower_divisor(b: int, p: int) -> int
    recommends
        1 <= p <= b,
    decreases p,
{
    if p <= 1 {
        1
    } else if b % p == 0 {
        p
    } else {
        lower_divisor(b, p - 1)
    }
}

/// The smallest divisor of `b` that is at least `p` (well defined for
/// `1 <= p <= b`, since `b` divides itself).
pub open spec fn upper_divisor(b: int, p: int) -> int
    recommends
        1 <= p <= b,
    decreases b - p,
{
    if p >= b {
        b
    } else if b % p == 0 {
        p
    } else {
        upper_divisor(b, p + 1)
    }
}

/// `lower_divisor(b, p)` really is the largest divisor of `b` not above `p`:
/// it divides `b`, lies in `1..=p`, and no larger value up to `p` divides `b`.
pub proof fn lemma_lower_divisor_props(b: int, p: int)
    requires
        1 <= p <= b,
    ensures
        1 <= lower_divisor(b, p) <= p,
        b % lower_divisor(b, p) == 0,
        forall|k: int| lower_divisor(b, p) < k <= p ==> #[trigger] (b % k) != 0,
    decreases p,
{
    if p <= 1 {
    } else if b % p == 0 {
    } else {
        lemma_lower_divisor_props(b, p - 1);
    }
}

/// `upper_divisor(b, p)` really is the smallest divisor of `b` not below `p`:
/// it divides `b`, lies in `p..=b`, and no smaller value down to `p` divides
/// `b`.
pub proof fn lemma_upper_divisor_props(b: int, p: int)
    requires
        1 <= p <= b,
    ensures
        p <= upper_divisor(b, p) <= b,
        b % upper_divisor(b, p) == 0,
        forall|k: int| p <= k < upper_divisor(b, p) ==> #[trigger] (b % k) != 0,
    decreases b - p,
{
    if p >= b {
    } else if b % p == 0 {
    } else {
        lemma_upper_divisor_props(b, p + 1);
    }
}

/// What `round_sampling` returns: the requested period itself when it is
/// already an exact multiple or divisor of the base period, otherwise the
/// closer of the two bracketing candidates, ties to the lower one.
pub open spec fn rounded_period(base: int, period: int) -> int
    recommends
        0 < base,
        0 < period,
{
    if period > base {
        if period % base == 0 {
            period
        } else {
            let lo = base * (period / base);
            let hi = base * (period / base + 1);
            if period - lo <= hi - period {
                lo
            } else {
                hi
            }
        }
    } else {
        if base % period == 0 {
            period
        } else {
            let lo = lower_divisor(base, period);
            let hi = upper_divisor(base, period);
            if period - lo <= hi - period {
                lo
            } else {
                hi
            }
        }
    }
}

/// Round a requested sampling period onto the base-period grid: the result is
/// an exact multiple or an exact divisor of `default_period`, and of the two
/// bracketing candidates it is the one closer to `metric_period` (ties go to
/// the lower candidate).  Both periods are in milliseconds.
pub fn round_sampling(default_period: i64, metric_period: i64) -> (r: i64)
    requires
        0 < default_period,
        0 < metric_period,
        default_period + metric_period <= i64::MAX,
    ensures
        r == rounded_period(default_period as int, metric_period as int),
        0 < r,
        r <= default_period + metric_period,
        r as int % default_period as int == 0 || default_period as int % r as int == 0,
{
    let b = default_period;
    let p = metric_period;
    if p > b {
        if p % b == 0 {
            p
        } else {
            proof {
                vstd::arithmetic::div_mod::lemma_fundamental_div_mod(p as int, b as int);
                vstd::arithmetic::div_mod::lemma_mod_bound(p as int, b as int);
                assert(b as int * (p as int / b as int) == p as int - p as int % b as int) by (nonlinear_arith)
                    requires
                        b > 0,
                        p as int == b as int * (p as int / b as int) + p as int % b as int,
                ;
                assert(b as int * (p as int / b as int + 1) == b as int * (p as int / b as int)
                    + b as int) by (nonlinear_arith);
                assert((b as int * (p as int / b as int)) % b as int == 0) by (nonlinear_arith)
                    requires
                        b > 0,
                ;
                assert((b as int * (p as int / b as int + 1)) % b as int == 0)
                    by (nonlinear_arith)
                    requires
                        b > 0,
                ;
            }
            let q = p / b;
            let lo = b * q;
            let hi = b * (q + 1);
            if p - lo <= hi - p {
                lo
            } else {
                hi
            }
        }
    } else {
        if b % p == 0 {
            p
        } else {
            // Here 1 < p < b: p == 1 or p == b would divide b.
            let ghost bb = b as int;
            let ghost pp = p as int;
            let mut lo = p - 1;
            while b % lo != 0
                invariant
                    1 <= lo < pp,
                    b == bb,
                    1 < pp < bb,
                    lower_divisor(bb, pp) == lower_divisor(bb, lo as int),
                decreases lo,
            {
                lo = lo - 1;
            }
            proof {
                lemma_lower_divisor_props(bb, pp);
            }
            let mut hi = p + 1;
            while b % hi != 0
                invariant
                    pp < hi <= bb,
                    b == bb,
                    1 < pp < bb,
                    upper_divisor(bb, pp) == upper_divisor(bb, hi as int),
                decreases bb - hi,
            {
                proof {
                    vstd::arithmetic::div_mod::lemma_mod_self_0(bb);
                    assert(hi < bb);
                }
                hi = hi + 1;
            }
            proof {
                lemma_upper_divisor_props(bb, pp);
            }
            if p - lo <= hi - p {
                lo
            } else {
                hi
            }
        }
    }
}


/// How far apart two periods lie.
pub open spec fn period_distance(a: int, b: int) -> int {
    if a >= b {
        a - b
    } else {
        b - a
    }
}

/// A positive divisor of a positive number is no larger than it.
proof fn lemma_divisor_le(b: int, k: int)
    requires
        0 < b,
        0 < k,
        b % k == 0,
    ensures
        k <= b,
{
    if k > b {
        vstd::arithmetic::div_mod::lemma_small_mod(b as nat, k as nat);
    }
}

/// No period aligned with the base — an exact multiple or an exact divisor
/// of it — is strictly closer to the request than the rounded period.
pub proof fn lemma_rounded_period_closest(base: int, period: int, k: int)
    requires
        0 < base,
        0 < period,
        0 < k,
        k % base == 0 || base % k == 0,
    ensures
        period_distance(rounded_period(base, period), period) <= period_distance(k, period),
{
    let r = rounded_period(base, period);
    if period > base {
        if period % base == 0 {
        } else {
            let q = period / base;
            let lo = base * q;
            let hi = base * (q + 1);
            vstd::arithmetic::div_mod::lemma_fundamental_div_mod(period, base);
            vstd::arithmetic::div_mod::lemma_mod_bound(period, base);
            assert(base * q == period - period % base) by (nonlinear_arith)
                requires
                    base > 0,
                    period == base * (period / base) + period % base,
                    q == period / base,
            ;
            assert(hi == lo + base) by (nonlinear_arith)
                requires
                    hi == base * (q + 1),
                    lo == base * q,
            ;
            assert(q > 0) by (nonlinear_arith)
                requires
                    base > 0,
                    base * q > 0,
            ;
            assert(lo >= base) by (nonlinear_arith)
                requires
                    base > 0,
                    q >= 1,
                    lo == base * q,
            ;
            if k % base == 0 {
                let m = k / base;
                vstd::arithmetic::div_mod::lemma_fundamental_div_mod(k, base);
                assert(k == base * m);
                if k <= lo {
                    assert(period_distance(k, period) >= period - lo);
                } else {
                    assert(m > q) by (nonlinear_arith)
                        requires
                            base > 0,
                            base * m > base * q,
                    ;
                    assert(k >= hi) by (nonlinear_arith)
                        requires
                            base > 0,
                            m >= q + 1,
                            k == base * m,
                            hi == base * (q + 1),
                    ;
                    assert(period_distance(k, period) >= hi - period);
                }
            } else {
                lemma_divisor_le(base, k);
                assert(period_distance(k, period) >= period - lo);
            }
        }
    } else {
        if base % period == 0 {
        } else {
            lemma_lower_divisor_props(base, period);
            lemma_upper_divisor_props(base, period);
            let lo = lower_divisor(base, period);
            let hi = upper_divisor(base, period);
            if base % k == 0 {
                lemma_divisor_le(base, k);
                if k <= lo {
                    assert(period_distance(k, period) >= period - lo);
                } else {
                    assert(k >= hi);
                    assert(period_distance(k, period) >= hi - period);
                }
            } else {
                // A multiple of the base: the base itself is the closest one,
                // and it is a divisor of itself no closer than the bracket.
                let m = k / base;
                vstd::arithmetic::div_mod::lemma_fundamental_div_mod(k, base);
                assert(k == base * m);
                assert(m > 0) by (nonlinear_arith)
                    requires
                        base > 0,
                        base * m > 0,
                ;
                vstd::arithmetic::div_mod::lemma_mod_self_0(base);
                assert(base >= hi);
                if m == 1 {
                    assert(k == base) by (nonlinear_arith)
                        requires
                            k == base * m,
                            m == 1,
                    ;
                    assert(period_distance(k, period) >= hi - period);
                } else {
                    assert(k >= 2 * base) by (nonlinear_arith)
                        requires
                            base > 0,
                            m >= 2,
                            k == base * m,
                    ;
                    assert(period_distance(k, period) >= hi - period);
                }
            }
        }
    }
}

} // verus!
