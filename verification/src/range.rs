//! Time ranges with any combination of open, closed and missing ends.
use vstd::prelude::*;

use crate::Time;

verus! {

/// One end of a time range.
#[derive(Debug, Clone, Copy, PartialEq, Eq, Structural)]
pub enum TimeBound {
    Included(Time),
    Excluded(Time),
    Unbounded,
}

impl TimeBound {
    /// Whether `t` lies at or after this bound, taken as the start of a range.
    pub open spec fn admits_from(self, t: Time) -> bool {
        match self {
            TimeBound::Included(start) => start <= t,
            TimeBound::Excluded(start) => start < t,
            TimeBound::Unbounded => true,
        }
    }

    /// Whether `t` lies at or before this bound, taken as the end of a range.
    pub open spec fn admits_until(self, t: Time) -> bool {
        match self {
            TimeBound::Included(end) => t <= end,
            TimeBound::Excluded(end) => t < end,
            TimeBound::Unbounded => true,
        }
    }

    /// Tests `t` against this bound as the start of a range.
    pub fn starts_by(&self, t: Time) -> (ok: bool)
        ensures
            ok == self.admits_from(t),
    {
        match *self {
            TimeBound::Included(start) => start <= t,
            TimeBound::Excluded(start) => start < t,
            TimeBound::Unbounded => true,
        }
    }

    /// Tests `t` against this bound as the end of a range.
    pub fn ends_after(&self, t: Time) -> (ok: bool)
        ensures
            ok == self.admits_until(t),
    {
        match *self {
            TimeBound::Included(end) => t <= end,
            TimeBound::Excluded(end) => t < end,
            TimeBound::Unbounded => true,
        }
    }
}

/// A range of timestamps.
#[derive(Debug, Clone, Copy, PartialEq, Eq, Structural)]
pub struct TimeRange {
    pub start: TimeBound,
    pub end: TimeBound,
}

impl TimeRange {
    /// Whether `t` lies inside the range.
    pub open spec fn contains(self, t: Time) -> bool {
        self.start.admits_from(t) && self.end.admits_until(t)
    }

    /// The range of every timestamp from `start` on.
    pub open spec fn since(start: Time) -> TimeRange {
        TimeRange { start: TimeBound::Included(start), end: TimeBound::Unbounded }
    }

    /// The range between two given bounds.
    pub fn new(start: TimeBound, end: TimeBound) -> (r: TimeRange)
        ensures
            r == (TimeRange { start, end }),
    {
        TimeRange { start, end }
    }

    /// Every timestamp: `..`.
    pub fn all() -> (r: TimeRange)
        ensures
            r == (TimeRange { start: TimeBound::Unbounded, end: TimeBound::Unbounded }),
            forall|t: Time| r.contains(t),
    {
        TimeRange { start: TimeBound::Unbounded, end: TimeBound::Unbounded }
    }

    /// `start..`.
    pub fn starting_at(start: Time) -> (r: TimeRange)
        ensures
            r == TimeRange::since(start),
            forall|t: Time| r.contains(t) <==> start <= t,
    {
        TimeRange { start: TimeBound::Included(start), end: TimeBound::Unbounded }
    }

    /// `..end`.
    pub fn before(end: Time) -> (r: TimeRange)
        ensures
            r == (TimeRange { start: TimeBound::Unbounded, end: TimeBound::Excluded(end) }),
            forall|t: Time| r.contains(t) <==> t < end,
    {
        TimeRange { start: TimeBound::Unbounded, end: TimeBound::Excluded(end) }
    }

    /// `..=end`.
    pub fn through(end: Time) -> (r: TimeRange)
        ensures
            r == (TimeRange { start: TimeBound::Unbounded, end: TimeBound::Included(end) }),
            forall|t: Time| r.contains(t) <==> t <= end,
    {
        TimeRange { start: TimeBound::Unbounded, end: TimeBound::Included(end) }
    }

    /// `start..end`.
    pub fn half_open(start: Time, end: Time) -> (r: TimeRange)
        ensures
            r == (TimeRange { start: TimeBound::Included(start), end: TimeBound::Excluded(end) }),
            forall|t: Time| r.contains(t) <==> start <= t < end,
    {
        TimeRange { start: TimeBound::Included(start), end: TimeBound::Excluded(end) }
    }

    /// `start..=end`.
    pub fn closed(start: Time, end: Time) -> (r: TimeRange)
        ensures
            r == (TimeRange { start: TimeBound::Included(start), end: TimeBound::Included(end) }),
            forall|t: Time| r.contains(t) <==> start <= t <= end,
    {
        TimeRange { start: TimeBound::Included(start), end: TimeBound::Included(end) }
    }

    /// Tests whether `t` lies inside the range.
    pub fn includes(&self, t: Time) -> (ok: bool)
        ensures
            ok == self.contains(t),
    {
        self.start.starts_by(t) && self.end.ends_after(t)
    }
}

} // verus!
