//! Highlight animation progress: a pure function of elapsed time, so
//! that emphasis is frame-rate independent. One value ramps the freshly
//! focused leaf's background toward full emphasis, its complement decays
//! a previously emphasized leaf back to baseline.

use vstd::prelude::*;

verus! {

/// Full progress, in per-mille.
pub const PROGRESS_SCALE: u64 = 1000;

/// Progress of a linear ease after `elapsed` time units of a ramp
/// lasting `duration` units, in per-mille, clamped at completion.
pub open spec fn progress_spec(elapsed: int, duration: int) -> int
    recommends
        duration > 0,
{
    if elapsed >= duration {
        1000
    } else {
        elapsed * 1000 / duration
    }
}

/// Ramp-up progress of the highlight animation, in per-mille.
pub fn progress_per_mille(elapsed: u64, duration: u64) -> (p: u64)
    requires
        duration > 0,
    ensures
        p == progress_spec(elapsed as int, duration as int),
        p <= 1000,
{
    if elapsed >= duration {
        1000
    } else {
        let wide = (elapsed as u128) * 1000 / (duration as u128);
        proof {
            assert((elapsed as int) * 1000 <= (duration as int) * 1000) by (nonlinear_arith)
                requires
                    elapsed <= duration,
            ;
            vstd::arithmetic::div_mod::lemma_div_is_ordered(
                (elapsed as int) * 1000,
                (duration as int) * 1000,
                duration as int,
            );
            vstd::arithmetic::div_mod::lemma_div_multiples_vanish(1000, duration as int);
        }
        wide as u64
    }
}

/// Decay progress of a previously highlighted leaf: the complement of
/// the ramp, so the two animations always sum to full scale.
pub fn decay_per_mille(elapsed: u64, duration: u64) -> (p: u64)
    requires
        duration > 0,
    ensures
        p == 1000 - progress_spec(elapsed as int, duration as int),
        p <= 1000,
{
    let up = progress_per_mille(elapsed, duration);
    1000 - up
}

/// Monotonic ease: progress never decreases as time advances.
pub proof fn lemma_progress_monotonic(e1: int, e2: int, d: int)
    requires
        d > 0,
        0 <= e1 <= e2,
    ensures
        progress_spec(e1, d) <= progress_spec(e2, d),
{
    if e2 < d {
        assert(e1 * 1000 <= e2 * 1000) by (nonlinear_arith)
            requires
                e1 <= e2,
        ;
        vstd::arithmetic::div_mod::lemma_div_is_ordered(e1 * 1000, e2 * 1000, d);
    } else if e1 < d {
        assert(e1 * 1000 <= d * 1000) by (nonlinear_arith)
            requires
                e1 <= d,
        ;
        vstd::arithmetic::div_mod::lemma_div_is_ordered(e1 * 1000, d * 1000, d);
        vstd::arithmetic::div_mod::lemma_div_multiples_vanish(1000, d);
    }
}

/// Progress stays within the scale for every point in time.
pub proof fn lemma_progress_bounded(e: int, d: int)
    requires
        d > 0,
        0 <= e,
    ensures
        0 <= progress_spec(e, d) <= 1000,
{
    if e < d {
        assert(e * 1000 >= 0) by (nonlinear_arith)
            requires
                e >= 0,
        ;
        vstd::arithmetic::div_mod::lemma_div_is_ordered(0, e * 1000, d);
        assert(e * 1000 <= d * 1000) by (nonlinear_arith)
            requires
                e <= d,
        ;
        vstd::arithmetic::div_mod::lemma_div_is_ordered(e * 1000, d * 1000, d);
        vstd::arithmetic::div_mod::lemma_div_multiples_vanish(1000, d);
        vstd::arithmetic::div_mod::lemma_div_of0(d);
    }
}

} // verus!
