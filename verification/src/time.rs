//! Logical simulation time, counted in whole units of the configured scale.

use vstd::prelude::*;

verus! {

/// A relative amount of simulation time.
#[derive(Debug, Clone, Copy, PartialEq, Eq, Structural, Hash)]
pub struct Duration(pub u64);

/// An absolute point in simulation time.
#[derive(Debug, Clone, Copy, PartialEq, Eq, Structural, Hash)]
pub struct Instant(pub u64);

/// The instant `d` after `t`, held at the largest representable instant
/// when the sum would pass it.
pub open spec fn advance(t: u64, d: u64) -> u64 {
    if t + d > u64::MAX {
        u64::MAX
    } else {
        (t + d) as u64
    }
}

impl Instant {
    /// Moves this instant forward by `d`, saturating at the last instant.
    pub fn after(self, d: Duration) -> (r: Instant)
        ensures
            r.0 == advance(self.0, d.0),
    {
        if d.0 > u64::MAX - self.0 {
            Instant(u64::MAX)
        } else {
            Instant(self.0 + d.0)
        }
    }
}

} // verus!
