//! Instants on the UTC time line, held as whole seconds since the Unix epoch
//! plus a sub-second nanosecond count.

use vstd::prelude::*;

verus! {

/// A point on the UTC time line.
///
/// `secs` counts whole seconds since 1970-01-01T00:00:00Z and `nanos` the
/// nanoseconds past that second. Instants are ordered by `secs`, then `nanos`.
#[derive(Clone, Copy, Debug, PartialEq, Eq, Structural, Hash)]
pub struct Instant {
    pub secs: i64,
    pub nanos: u32,
}

impl Instant {
    /// `self` lies strictly before `other`.
    pub open spec fn earlier_than(self, other: Instant) -> bool {
        self.secs < other.secs || (self.secs == other.secs && self.nanos < other.nanos)
    }

    /// `self` lies at or before `other`.
    pub open spec fn not_after(self, other: Instant) -> bool {
        !other.earlier_than(self)
    }

    pub fn new(secs: i64, nanos: u32) -> (r: Instant)
        ensures
            r.secs == secs,
            r.nanos == nanos,
    {
        Instant { secs, nanos }
    }

    /// Strict order on instants.
    pub fn is_before(&self, other: &Instant) -> (r: bool)
        ensures
            r == self.earlier_than(*other),
    {
        self.secs < other.secs || (self.secs == other.secs && self.nanos < other.nanos)
    }

    /// Non-strict order on instants.
    pub fn is_at_or_before(&self, other: &Instant) -> (r: bool)
        ensures
            r == self.not_after(*other),
    {
        !other.is_before(self)
    }

    /// Whole seconds elapsed from `earlier` to `self`, rounded down, and zero
    /// when `self` does not lie after `earlier`.
    pub open spec fn elapsed_secs(self, earlier: Instant) -> int {
        if self.not_after(earlier) {
            0
        } else if self.nanos < earlier.nanos {
            self.secs - earlier.secs - 1
        } else {
            self.secs - earlier.secs
        }
    }

    /// Whole seconds elapsed since `earlier`, never negative.
    pub fn seconds_since(&self, earlier: &Instant) -> (r: u64)
        ensures
            r == self.elapsed_secs(*earlier),
    {
        if self.is_at_or_before(earlier) {
            0
        } else {
            let wide: i128 = self.secs as i128 - earlier.secs as i128;
            if self.nanos < earlier.nanos {
                (wide - 1) as u64
            } else {
                wide as u64
            }
        }
    }
}

/// The current time, read from the system clock.
///
/// Calls `chrono::Utc::now`, which panics where the clock stands before the
/// Unix epoch, and keeps its Unix seconds and sub-second nanoseconds. Nothing
/// is claimed of the value: it is whatever the clock says.
#[verifier::external_body]
pub(crate) fn current_instant() -> (r: Instant) {
    let t = chrono::Utc::now();
    Instant { secs: t.timestamp(), nanos: t.timestamp_subsec_nanos() }
}

} // verus!
