//! The cost algebra: times and durations counted in ticks, and closed
//! intervals of time.

use vstd::prelude::*;

verus! {

/// A point in time, or the cost accumulated so far, in ticks.
pub type Time = u64;

/// A span of time, or the cost of one transition, in ticks.
pub type Duration = u64;

/// The least and the greatest value of a type, standing for minus and plus
/// infinity.
pub trait LimitValues: Sized {
    /// The least value.
    spec fn bottom() -> Self;

    /// The greatest value.
    spec fn top() -> Self;

    fn min_value() -> (r: Self)
        ensures
            r == Self::bottom(),
    ;

    fn max_value() -> (r: Self)
        ensures
            r == Self::top(),
    ;
}

impl LimitValues for u64 {
    open spec fn bottom() -> u64 {
        0
    }

    open spec fn top() -> u64 {
        u64::MAX
    }

    fn min_value() -> (r: u64) {
        0
    }

    fn max_value() -> (r: u64) {
        u64::MAX
    }
}

/// A closed interval of time. It is well formed when `start <= end`.
#[derive(Debug, Clone, Copy, PartialEq, Eq, PartialOrd, Ord, Hash, Structural)]
pub struct Interval {
    pub start: Time,
    pub end: Time,
}

impl Interval {
    /// `start <= end`.
    pub open spec fn wf(self) -> bool {
        self.start <= self.end
    }

    /// Whether `t` lies in the interval, both ends included.
    pub open spec fn holds(self, t: int) -> bool {
        self.start <= t <= self.end
    }

    /// The whole time line.
    pub open spec fn whole() -> Interval {
        Interval { start: 0, end: u64::MAX }
    }

    /// The order of intervals: by start, then by end.
    pub open spec fn before(self, other: Interval) -> bool {
        self.start < other.start || (self.start == other.start && self.end < other.end)
    }

    pub fn new(start: Time, end: Time) -> (r: Interval)
        ensures
            r.start == start,
            r.end == end,
    {
        Interval { start, end }
    }

    /// Whether `t` lies in the interval.
    pub fn contains(&self, t: Time) -> (r: bool)
        ensures
            r == self.holds(t as int),
    {
        self.start <= t && t <= self.end
    }

    /// Whether the interval comes strictly before `other` in the order of
    /// intervals.
    pub fn precedes(&self, other: &Interval) -> (r: bool)
        ensures
            r == self.before(*other),
    {
        self.start < other.start || (self.start == other.start && self.end < other.end)
    }
}

impl Default for Interval {
    fn default() -> (r: Interval)
        ensures
            r == Interval::whole(),
    {
        Interval::new(<Time as LimitValues>::min_value(), <Time as LimitValues>::max_value())
    }
}

} // verus!
