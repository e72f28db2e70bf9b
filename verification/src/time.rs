//! Monotonic time as plain numbers.

use std::time::Instant;
use vstd::prelude::*;

verus! {

pub const NANOS_PER_MILLI: u64 = 1_000_000;

/// A point in time, in nanoseconds from the start of the clock that gave it.
/// Points before the start are negative.
#[derive(Debug, Clone, Copy, PartialEq, Eq, Structural)]
pub struct Timestamp {
    pub nanos: i64,
}

/// Nanoseconds from `earlier` to `later`; 0 when `earlier` is not before `later`.
pub open spec fn elapsed(later: Timestamp, earlier: Timestamp) -> int {
    if later.nanos > earlier.nanos {
        later.nanos - earlier.nanos
    } else {
        0
    }
}

impl Timestamp {
    /// The point `nanos` nanoseconds after the start; the last point that there
    /// is where that one does not fit.
    pub fn after_start(nanos: u128) -> (r: Timestamp)
        ensures
            r.nanos == if nanos <= i64::MAX {
                nanos as int
            } else {
                i64::MAX as int
            },
    {
        if nanos <= i64::MAX as u128 {
            Timestamp { nanos: nanos as i64 }
        } else {
            Timestamp { nanos: i64::MAX }
        }
    }

    /// Nanoseconds since `earlier`, or 0 when `earlier` is the later one.
    pub fn duration_since(self, earlier: Timestamp) -> (r: u64)
        ensures
            r == elapsed(self, earlier),
    {
        if self.nanos > earlier.nanos {
            (self.nanos as i128 - earlier.nanos as i128) as u64
        } else {
            0
        }
    }

    /// The point `nanos` nanoseconds later.
    pub fn plus(self, nanos: u64) -> (r: Timestamp)
        requires
            self.nanos + nanos <= i64::MAX,
        ensures
            r.nanos == self.nanos + nanos,
    {
        Timestamp { nanos: (self.nanos as i128 + nanos as i128) as i64 }
    }

    /// The point `nanos` nanoseconds earlier.
    pub fn minus(self, nanos: u64) -> (r: Timestamp)
        requires
            self.nanos - nanos >= i64::MIN,
        ensures
            r.nanos == self.nanos - nanos,
    {
        Timestamp { nanos: (self.nanos as i128 - nanos as i128) as i64 }
    }
}

#[verifier::external_type_specification]
#[verifier::external_body]
pub struct ExInstant(std::time::Instant);

/// `Instant::now` reads the system's monotonic clock; nothing is claimed of
/// the instant.
#[verifier::external_body]
fn instant_now() -> (r: Instant) {
    Instant::now()
}

/// `Instant::elapsed` gives the time since `start`, here in nanoseconds. How
/// much that is depends on when it is read, so nothing is claimed of it.
#[verifier::external_body]
fn instant_elapsed(start: &Instant) -> (r: u128) {
    start.elapsed().as_nanos()
}

/// A monotonic clock that starts at 0.
#[derive(Debug, Clone, Copy)]
pub struct Clock {
    start: Instant,
}

impl Clock {
    /// A clock that reads 0 at this moment.
    pub fn start() -> Clock {
        Clock { start: instant_now() }
    }

    /// The present moment: [`Timestamp::after_start`] of what has passed since
    /// the clock started.
    pub fn now(&self) -> (r: Timestamp)
        ensures
            r.nanos >= 0,
    {
        Timestamp::after_start(instant_elapsed(&self.start))
    }
}

/// Time passes forwards: what has passed from one moment to a later one is
/// their distance, what has passed to an earlier one is nothing, and two
/// stretches in a row add up.
pub proof fn lemma_time_adds_up(a: Timestamp, b: Timestamp, c: Timestamp)
    ensures
        a.nanos <= b.nanos ==> elapsed(b, a) == b.nanos - a.nanos,
        a.nanos >= b.nanos ==> elapsed(b, a) == 0,
        a.nanos <= b.nanos <= c.nanos ==> elapsed(b, a) + elapsed(c, b) == elapsed(c, a),
        elapsed(a, a) == 0,
{
}

} // verus!
