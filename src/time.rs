//! A wall-clock budget: a start instant and a duration in nanoseconds.

use vstd::prelude::*;
use std::time::{Duration, Instant};

verus! {

#[verifier::external_type_specification]
#[verifier::external_body]
pub struct ExInstant(Instant);

/// Relies on `Instant::now`: the current instant, of which nothing is known.
pub assume_specification[ Instant::now ]() -> Instant;

/// Relies on `Instant::elapsed`: the time since the instant, which depends on the clock.
pub assume_specification[ Instant::elapsed ](this: &Instant) -> Duration;

/// Relies on `Duration::as_nanos`: the whole nanoseconds of a duration.
pub assume_specification[ Duration::as_nanos ](this: &Duration) -> u128;

/// What is left of a budget of `duration` nanoseconds after `elapsed` of them.
pub open spec fn remaining_spec(duration: nat, elapsed: nat) -> nat {
    if elapsed >= duration {
        0
    } else {
        (duration - elapsed) as nat
    }
}

/// More than `frac` hundredths of the budget remain.
pub open spec fn time_remaining_spec(duration: nat, elapsed: nat, frac: nat) -> bool {
    100 * remaining_spec(duration, elapsed) > frac * duration
}

pub struct Timer {
    pub start: Instant,
    pub duration_nanos: u64,
}

impl Timer {
    /// A budget of `duration_nanos` nanoseconds, starting now.
    pub fn new(duration_nanos: u64) -> (t: Timer)
        ensures
            t.duration_nanos == duration_nanos,
    {
        Timer { start: Instant::now(), duration_nanos }
    }

    /// Nanoseconds since the start, saturated at `u64::MAX`.
    pub fn elapsed(&self) -> u64 {
        let d = self.start.elapsed();
        let n = d.as_nanos();
        if n > u64::MAX as u128 {
            u64::MAX
        } else {
            n as u64
        }
    }

    /// What is left after `elapsed` nanoseconds: never below zero, and
    /// zero once `elapsed` reaches the duration.
    pub fn remaining_after(&self, elapsed: u64) -> (r: u64)
        ensures
            r == remaining_spec(self.duration_nanos as nat, elapsed as nat),
    {
        if elapsed >= self.duration_nanos {
            0
        } else {
            self.duration_nanos - elapsed
        }
    }

    /// Nanoseconds left of the budget now.
    pub fn remaining(&self) -> (r: u64)
        ensures
            r <= self.duration_nanos,
    {
        let e = self.elapsed();
        self.remaining_after(e)
    }

    /// More than `frac` hundredths of the budget remain after `elapsed` nanoseconds.
    pub fn is_time_remaining_after(&self, elapsed: u64, frac: u32) -> (r: bool)
        ensures
            r == time_remaining_spec(self.duration_nanos as nat, elapsed as nat, frac as nat),
    {
        let rem = self.remaining_after(elapsed);
        assert((frac as int) * (self.duration_nanos as int) <= 0xffff_ffff * 0xffff_ffff_ffff_ffff)
            by (nonlinear_arith)
            requires
                frac <= 0xffff_ffffu32,
                self.duration_nanos <= 0xffff_ffff_ffff_ffffu64,
        ;
        100 * (rem as u128) > (frac as u128) * (self.duration_nanos as u128)
    }

    /// More than `frac` hundredths of the budget remain now.
    pub fn is_time_remaining(&self, frac: u32) -> (r: bool)
        ensures
            r ==> (frac as int) * (self.duration_nanos as int) < 100 * (self.duration_nanos as int),
    {
        let e = self.elapsed();
        let r = self.is_time_remaining_after(e, frac);
        proof {
            if r {
                let rem = remaining_spec(self.duration_nanos as nat, e as nat);
                assert(100 * rem <= 100 * (self.duration_nanos as int));
            }
        }
        r
    }

    /// More than five hundredths of the budget remain now.
    pub fn is_time_remaining_5(&self) -> (r: bool)
        ensures
            r ==> self.duration_nanos > 0,
    {
        self.is_time_remaining(5)
    }
}

} // verus!
