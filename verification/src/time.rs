//! Instants and durations of a monotonic clock.
//!
//! The clock is a free-running hardware counter; an [`Instant`] is a counter
//! reading and a [`Duration`] is a difference of two readings, both in ticks.
//! Timer-queue entries are ordered by these values.

use vstd::prelude::*;

verus! {

/// A point in time of a monotonic clock, counted in clock ticks since the
/// counter started.
#[derive(Clone, Copy, PartialEq, Eq, Structural, Debug)]
pub struct Instant {
    pub ticks: u64,
}

/// A span of time, counted in clock ticks.
#[derive(Clone, Copy, PartialEq, Eq, Structural, Debug)]
pub struct Duration {
    pub ticks: u64,
}

impl Instant {
    /// The instant `ticks` ticks after the counter's zero point.
    pub fn new(ticks: u64) -> (r: Instant)
        ensures
            r.ticks == ticks,
    {
        Instant { ticks }
    }

    /// The counter's zero point, used as the baseline for deferred spawns
    /// made before the clock is handed to the runtime.
    pub fn zero() -> (r: Instant)
        ensures
            r.ticks == 0,
    {
        Instant { ticks: 0 }
    }

    /// True if `self` is no later than `other`.
    pub fn at_or_before(self, other: Instant) -> (r: bool)
        ensures
            r == (self.ticks <= other.ticks),
    {
        self.ticks <= other.ticks
    }

    /// True if `self` is strictly earlier than `other`.
    pub fn before(self, other: Instant) -> (r: bool)
        ensures
            r == (self.ticks < other.ticks),
    {
        self.ticks < other.ticks
    }

    /// The instant `d` after `self`.
    pub fn plus(self, d: Duration) -> (r: Instant)
        requires
            self.ticks + d.ticks <= u64::MAX,
        ensures
            r.ticks == self.ticks + d.ticks,
    {
        Instant { ticks: self.ticks + d.ticks }
    }

    /// The span from `earlier` up to `self`.
    pub fn duration_since(self, earlier: Instant) -> (r: Duration)
        requires
            earlier.ticks <= self.ticks,
        ensures
            r.ticks == self.ticks - earlier.ticks,
    {
        Duration { ticks: self.ticks - earlier.ticks }
    }
}

impl Duration {
    /// The span of `ticks` clock ticks.
    pub fn from_ticks(ticks: u64) -> (r: Duration)
        ensures
            r.ticks == ticks,
    {
        Duration { ticks }
    }
}

} // verus!
