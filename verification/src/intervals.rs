//! Sequences of intervals: the forbidden intervals that a bucket of
//! constraints adds up to, the safe intervals that they leave, and the
//! earliest arrival in a safe interval.

use vstd::prelude::*;
use crate::constraint::{blocked, ordered, Constraint};
use crate::time::{Duration, Interval, Time};

verus! {

/// Whether `t` lies in some interval of `s`.
pub open spec fn covers(s: Seq<Interval>, t: int) -> bool {
    exists|k: int| 0 <= k < s.len() && (#[trigger] s[k]).holds(t)
}

/// Whether the intervals of `s` are well formed and come in increasing
/// order with at least one tick between any two of them.
pub open spec fn separated(s: Seq<Interval>) -> bool {
    &&& forall|k: int| 0 <= k < s.len() ==> (#[trigger] s[k]).wf()
    &&& forall|i: int, j: int| 0 <= i < j < s.len() ==> (#[trigger] s[i]).end + 1 < (#[trigger] s[j]).start
}

/// The forbidden intervals of a bucket of constraints: the union of their
/// intervals, as separated intervals.
pub fn get_forbidden_intervals(bucket: &Vec<Constraint>) -> (r: Vec<Interval>)
    requires
        ordered(bucket@),
    ensures
        separated(r@),
        forall|t: int| covers(r@, t) <==> blocked(bucket@, t),
{
    let mut out: Vec<Interval> = Vec::new();
    let mut i: usize = 0;
    while i < bucket.len()
        invariant
            i <= bucket.len(),
            ordered(bucket@),
            separated(out@),
            forall|k: int, j: int|
                0 <= k < out.len() && i <= j < bucket.len() ==> (#[trigger] out[k]).start <= (
                #[trigger] bucket[j]).interval.start,
            forall|t: int|
                #![trigger covers(out@, t)]
                #![trigger blocked(bucket@.take(i as int), t)]
                covers(out@, t) <==> blocked(bucket@.take(i as int), t),
        decreases bucket.len() - i,
    {
        let iv = bucket[i].interval;
        let ghost before = out@;
        let ghost done = bucket@.take(i as int);
        let ghost next = bucket@.take(i + 1);
        proof {
            assert forall|j: int| i < j < bucket.len() implies iv.start <= (
            #[trigger] bucket[j]).interval.start by {
                assert(bucket[i as int].interval.before(bucket[j].interval));
            }
        }
        if iv.start <= iv.end {
            let n: usize = out.len();
            if n > 0 && (iv.start <= out[n - 1].end || iv.start - 1 == out[n - 1].end) {
                let last = out[n - 1];
                if iv.end > last.end {
                    out.set(n - 1, Interval { start: last.start, end: iv.end });
                }
                proof {
                    let merged = out@[n - 1];
                    assert(last.start <= iv.start);
                    assert forall|t: int| covers(out@, t) <==> blocked(next, t) by {
                        if covers(out@, t) {
                            let k = choose|k: int| 0 <= k < out.len() && (#[trigger] out[k]).holds(t);
                            if k < n - 1 || last.holds(t) {
                                assert(before[k].holds(t));
                                assert(covers(before, t));
                                let j = choose|j: int|
                                    0 <= j < done.len() && (#[trigger] done[j]).interval.holds(t);
                                assert(next[j].interval.holds(t));
                            } else {
                                assert(next[i as int].interval.holds(t));
                            }
                        }
                        if blocked(next, t) {
                            let j = choose|j: int|
                                0 <= j < next.len() && (#[trigger] next[j]).interval.holds(t);
                            if j < i {
                                assert(done[j].interval.holds(t));
                                assert(blocked(done, t));
                                let k = choose|k: int|
                                    0 <= k < before.len() && (#[trigger] before[k]).holds(t);
                                assert(out@[k].holds(t));
                            } else {
                                assert(merged.holds(t));
                            }
                        }
                    }
                }
            } else {
                out.push(iv);
                proof {
                    assert forall|a: int, b: int| 0 <= a < b < out.len() implies (
                    #[trigger] out[a]).end + 1 < (#[trigger] out[b]).start by {
                        if b == n {
                            if a < n - 1 {
                                assert(before[a].end + 1 < before[n - 1].start);
                            }
                        }
                    }
                    assert forall|t: int| covers(out@, t) <==> blocked(next, t) by {
                        if covers(out@, t) {
                            let k = choose|k: int| 0 <= k < out.len() && (#[trigger] out[k]).holds(t);
                            if k < n {
                                assert(before[k].holds(t));
                                assert(covers(before, t));
                                let j = choose|j: int|
                                    0 <= j < done.len() && (#[trigger] done[j]).interval.holds(t);
                                assert(next[j].interval.holds(t));
                            } else {
                                assert(next[i as int].interval.holds(t));
                            }
                        }
                        if blocked(next, t) {
                            let j = choose|j: int|
                                0 <= j < next.len() && (#[trigger] next[j]).interval.holds(t);
                            if j < i {
                                assert(done[j].interval.holds(t));
                                assert(blocked(done, t));
                                let k = choose|k: int|
                                    0 <= k < before.len() && (#[trigger] before[k]).holds(t);
                                assert(out@[k].holds(t));
                            } else {
                                assert(out@[n as int].holds(t));
                            }
                        }
                    }
                }
            }
        } else {
            proof {
                assert forall|t: int| covers(out@, t) <==> blocked(next, t) by {
                    if covers(out@, t) {
                        let j = choose|j: int|
                            0 <= j < done.len() && (#[trigger] done[j]).interval.holds(t);
                        assert(next[j].interval.holds(t));
                    }
                    if blocked(next, t) {
                        let j = choose|j: int|
                            0 <= j < next.len() && (#[trigger] next[j]).interval.holds(t);
                        assert(done[j].interval.holds(t));
                    }
                }
            }
        }
        i += 1;
    }
    proof {
        assert(bucket@.take(i as int) == bucket@);
    }
    out
}

/// The intervals that `forbidden` leaves free on the whole time line.
pub fn complement(forbidden: &Vec<Interval>) -> (r: Vec<Interval>)
    requires
        separated(forbidden@),
    ensures
        separated(r@),
        forall|t: int| 0 <= t <= u64::MAX ==> (covers(r@, t) <==> !covers(forbidden@, t)),
        forall|t: int| covers(r@, t) ==> 0 <= t <= u64::MAX,
{
    let mut out: Vec<Interval> = Vec::new();
    let mut lo: Time = 0;
    let mut open: bool = true;
    let mut k: usize = 0;
    while k < forbidden.len()
        invariant
            k <= forbidden.len(),
            separated(forbidden@),
            separated(out@),
            !open ==> k == forbidden.len(),
            open ==> forall|j: int| 0 <= j < k ==> (#[trigger] forbidden[j]).end < lo,
            open ==> forall|j: int| k <= j < forbidden.len() ==> lo <= (#[trigger] forbidden[j]).start,
            open ==> forall|i: int| 0 <= i < out.len() ==> (#[trigger] out[i]).end + 1 < lo,
            open ==> forall|t: int|
                #![trigger covers(out@, t)]
                #![trigger covers(forbidden@.take(k as int), t)]
                0 <= t < lo ==> (covers(out@, t) <==> !covers(forbidden@.take(k as int), t)),
            !open ==> forall|t: int|
                0 <= t <= u64::MAX ==> (covers(out@, t) <==> !covers(forbidden@, t)),
        decreases forbidden.len() - k,
    {
        let f = forbidden[k];
        let ghost before = out@;
        let ghost done = forbidden@.take(k as int);
        let ghost next = forbidden@.take(k + 1);
        let ghost lo0 = lo;
        proof {
            assert(f.wf());
            assert(next[k as int] == f);
        }
        if open {
            if f.start > lo {
                out.push(Interval { start: lo, end: f.start - 1 });
            }
            let ghost mid = out@;
            proof {
                assert forall|t: int| 0 <= t <= f.end implies (covers(mid, t) <==> !covers(next, t)) by {
                    if covers(mid, t) {
                        let i = choose|i: int| 0 <= i < mid.len() && (#[trigger] mid[i]).holds(t);
                        if i < before.len() {
                            assert(before[i].holds(t));
                            assert(covers(before, t));
                            if covers(next, t) {
                                let j = choose|j: int|
                                    0 <= j < next.len() && (#[trigger] next[j]).holds(t);
                                if j < k {
                                    assert(done[j].holds(t));
                                }
                            }
                        } else {
                            if covers(next, t) {
                                let j = choose|j: int|
                                    0 <= j < next.len() && (#[trigger] next[j]).holds(t);
                                if j < k {
                                    assert(forbidden[j].end < lo0);
                                }
                            }
                        }
                    } else {
                        if t < lo0 {
                            assert(!covers(before, t)) by {
                                if covers(before, t) {
                                    let i = choose|i: int|
                                        0 <= i < before.len() && (#[trigger] before[i]).holds(t);
                                    assert(mid[i].holds(t));
                                }
                            }
                            let j = choose|j: int| 0 <= j < done.len() && (#[trigger] done[j]).holds(t);
                            assert(next[j].holds(t));
                        } else if t < f.start {
                            assert(mid[mid.len() - 1].holds(t));
                        } else {
                            assert(next[k as int].holds(t));
                        }
                    }
                }
            }
            if f.end == u64::MAX {
                open = false;
                proof {
                    if k + 1 < forbidden.len() {
                        assert(forbidden[k as int].end + 1 < forbidden[k + 1].start);
                    }
                    assert(next == forbidden@);
                }
            } else {
                lo = f.end + 1;
                proof {
                    assert forall|j: int| k + 1 <= j < forbidden.len() implies lo <= (
                    #[trigger] forbidden[j]).start by {
                        assert(forbidden[k as int].end + 1 < forbidden[j].start);
                    }
                }
            }
        }
        k += 1;
    }
    if open {
        let ghost before = out@;
        out.push(Interval { start: lo, end: u64::MAX });
        proof {
            assert(forbidden@.take(k as int) == forbidden@);
            assert forall|t: int| 0 <= t <= u64::MAX implies (covers(out@, t) <==> !covers(
                forbidden@,
                t,
            )) by {
                if t < lo {
                    if covers(out@, t) {
                        let i = choose|i: int| 0 <= i < out.len() && (#[trigger] out[i]).holds(t);
                        assert(before[i].holds(t));
                        assert(covers(before, t));
                    } else {
                        assert(!covers(before, t)) by {
                            if covers(before, t) {
                                let i = choose|i: int|
                                    0 <= i < before.len() && (#[trigger] before[i]).holds(t);
                                assert(out[i].holds(t));
                            }
                        }
                    }
                } else {
                    assert(out[out.len() - 1].holds(t));
                    if covers(forbidden@, t) {
                        let j = choose|j: int|
                            0 <= j < forbidden.len() && (#[trigger] forbidden[j]).holds(t);
                        assert(forbidden[j].end < lo);
                    }
                }
            }
        }
    }
    out
}

/// Whether `t` lies in some interval of `s` before the end of the interval,
/// where the intervals are separated.
pub open spec fn held(s: Seq<Interval>, t: int) -> bool {
    covers(s, t) && covers(s, t + 1)
}

/// Whether an agent that is ready to leave a state at `ready`, and may stay
/// there until `leave_by`, can take a transition of `cost` ticks so that it
/// arrives at `arrival` within `target`, leaving at a time at which no
/// `forbidden` interval holds it: it may leave at the end of one.
pub open spec fn feasible_arrival(
    ready: int,
    cost: int,
    leave_by: int,
    target: Interval,
    forbidden: Seq<Interval>,
    arrival: int,
) -> bool {
    &&& ready <= arrival - cost <= leave_by
    &&& target.holds(arrival)
    &&& !held(forbidden, arrival - cost)
}

/// The earliest feasible arrival, if there is any.
pub fn earliest_arrival(
    ready: Time,
    cost: Duration,
    leave_by: Time,
    target: &Interval,
    forbidden: &Vec<Interval>,
) -> (r: Option<Time>)
    requires
        separated(forbidden@),
    ensures
        match r {
            Some(a) => feasible_arrival(
                ready as int,
                cost as int,
                leave_by as int,
                *target,
                forbidden@,
                a as int,
            ) && forall|b: int|
                feasible_arrival(ready as int, cost as int, leave_by as int, *target, forbidden@, b)
                    ==> a <= b,
            None => forall|b: int|
                !feasible_arrival(ready as int, cost as int, leave_by as int, *target, forbidden@, b),
        },
{
    if ready > leave_by || cost > u64::MAX - ready {
        return None;
    }
    let mut arrival: Time = ready + cost;
    if arrival > target.end {
        return None;
    }
    if arrival < target.start {
        arrival = target.start;
        if arrival > target.end || arrival - cost > leave_by {
            return None;
        }
    }
    let departure: Time = arrival - cost;
    let mut k: usize = 0;
    while k < forbidden.len() && forbidden[k].end < departure
        invariant
            k <= forbidden.len(),
            forall|j: int| 0 <= j < k ==> (#[trigger] forbidden[j]).end < departure,
        decreases forbidden.len() - k,
    {
        k += 1;
    }
    if k < forbidden.len() && forbidden[k].start <= departure && departure < forbidden[k].end {
        let f = forbidden[k];
        if f.end > leave_by || cost > u64::MAX - f.end || f.end + cost > target.end {
            proof {
                assert forall|b: int|
                    !feasible_arrival(
                        ready as int,
                        cost as int,
                        leave_by as int,
                        *target,
                        forbidden@,
                        b,
                    ) by {
                    if ready <= b - cost <= leave_by && target.holds(b) {
                        assert(b - cost >= departure);
                        if b - cost < f.end {
                            assert(forbidden[k as int].holds(b - cost));
                            assert(forbidden[k as int].holds(b - cost + 1));
                        }
                    }
                }
            }
            return None;
        }
        let later: Time = f.end + cost;
        proof {
            assert(!covers(forbidden@, f.end + 1)) by {
                if covers(forbidden@, f.end + 1) {
                    let j = choose|j: int|
                        0 <= j < forbidden.len() && (#[trigger] forbidden[j]).holds(f.end + 1);
                    if j < k {
                    } else if j > k {
                        assert(forbidden[k as int].end + 1 < forbidden[j].start);
                    }
                }
            }
            assert forall|b: int|
                feasible_arrival(
                    ready as int,
                    cost as int,
                    leave_by as int,
                    *target,
                    forbidden@,
                    b,
                ) implies later <= b by {
                assert(b - cost >= departure);
                if b - cost < f.end {
                    assert(forbidden[k as int].holds(b - cost));
                    assert(forbidden[k as int].holds(b - cost + 1));
                }
            }
        }
        Some(later)
    } else {
        proof {
            assert(!held(forbidden@, departure as int)) by {
                if held(forbidden@, departure as int) {
                    let j = choose|j: int|
                        0 <= j < forbidden.len() && (#[trigger] forbidden[j]).holds(departure as int);
                    let i = choose|i: int|
                        0 <= i < forbidden.len() && (#[trigger] forbidden[i]).holds(departure + 1);
                    if j > k {
                        assert(forbidden[k as int].end + 1 < forbidden[j].start);
                    }
                    if i > j {
                        assert(forbidden[j].end + 1 < forbidden[i].start);
                    } else if i < j {
                        assert(forbidden[i].end + 1 < forbidden[j].start);
                    }
                }
            }
        }
        Some(arrival)
    }
}

} // verus!
