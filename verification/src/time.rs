//! Spans and points of time, as nanosecond counts.

use vstd::prelude::*;

verus! {

/// Nanoseconds in a second.
pub const NANOS_PER_SEC: u128 = 1000000000;

/// The longest span that a clock can measure: the largest number of whole
/// seconds in 64 bits, and just under one more.
pub const MAX_NANOS: u128 = 18446744073709551615999999999;

/// A span of time.
#[derive(Debug, Clone, Copy, PartialEq, Eq, PartialOrd, Ord, Hash, Structural)]
pub struct Duration {
    /// Its length in nanoseconds.
    pub nanos: u128,
}

impl Duration {
    /// Whether a clock can measure the span.
    pub open spec fn valid(self) -> bool {
        self.nanos <= MAX_NANOS
    }

    /// Tell whether a clock can measure the span.
    pub fn is_valid(&self) -> (r: bool)
        ensures
            r == self.valid(),
    {
        self.nanos <= MAX_NANOS
    }

    /// A span of whole seconds.
    pub fn from_secs(secs: u64) -> (r: Self)
        ensures
            r.nanos == secs * NANOS_PER_SEC,
            r.valid(),
    {
        Duration { nanos: secs as u128 * NANOS_PER_SEC }
    }

    /// A span of whole milliseconds.
    pub fn from_millis(millis: u64) -> (r: Self)
        ensures
            r.nanos == millis * 1000000,
            r.valid(),
    {
        Duration { nanos: millis as u128 * 1000000 }
    }

    /// A span of whole microseconds.
    pub fn from_micros(micros: u64) -> (r: Self)
        ensures
            r.nanos == micros * 1000,
            r.valid(),
    {
        Duration { nanos: micros as u128 * 1000 }
    }

    /// The empty span.
    pub fn zero() -> (r: Self)
        ensures
            r.nanos == 0,
    {
        Duration { nanos: 0 }
    }

    /// Whether the span is empty.
    pub fn is_zero(&self) -> (r: bool)
        ensures
            r == (self.nanos == 0),
    {
        self.nanos == 0
    }
}

/// A point of time on a monotonic clock, as nanoseconds since its epoch.
#[derive(Debug, Clone, Copy, PartialEq, Eq, PartialOrd, Ord, Hash, Structural)]
pub struct Instant {
    pub nanos: u128,
}

impl Instant {
    /// Whether a clock can reach the point.
    pub open spec fn valid(self) -> bool {
        self.nanos <= MAX_NANOS
    }
}

} // verus!
