use cbs::intervals::{complement, earliest_arrival, get_forbidden_intervals};
use cbs::sipp::{get_collision_intervals, get_safe_intervals};
use cbs::{Constraint, ConstraintSet, ConstraintType, Interval, LimitValues};

#[test]
fn interval_default_is_whole_time_line() {
    let i = Interval::default();
    assert_eq!(i.start, <u64 as LimitValues>::min_value());
    assert_eq!(i.end, <u64 as LimitValues>::max_value());
    assert_eq!(i, Interval::new(0, u64::MAX));
}

#[test]
fn interval_contains_its_ends() {
    let i = Interval::new(3, 7);
    assert!(i.contains(3));
    assert!(i.contains(7));
    assert!(!i.contains(8));
    assert!(!i.contains(2));
}

#[test]
fn interval_order_is_by_start_then_end() {
    assert!(Interval::new(1, 9).precedes(&Interval::new(2, 3)));
    assert!(Interval::new(1, 2).precedes(&Interval::new(1, 3)));
    assert!(!Interval::new(1, 3).precedes(&Interval::new(1, 3)));
    assert!(!Interval::new(2, 3).precedes(&Interval::new(1, 9)));
    assert!(Interval::new(1, 9) < Interval::new(2, 3));
}

#[test]
fn constraint_constructors_fill_the_fields() {
    let c = Constraint::new_state_constraint(3, 7, Interval::new(1, 2));
    assert_eq!(c.agent, 3);
    assert_eq!(c.state, 7);
    assert_eq!(c.next, None);
    assert_eq!(c.interval, Interval::new(1, 2));
    assert_eq!(c.type_, ConstraintType::State);
    let d = Constraint::new_action_constraint(4, 7, 8, Interval::new(5, 6));
    assert_eq!(d.agent, 4);
    assert_eq!(d.state, 7);
    assert_eq!(d.next, Some(8));
    assert_eq!(d.interval, Interval::new(5, 6));
    assert_eq!(d.type_, ConstraintType::Action);
}

#[test]
fn constraints_compare_by_interval() {
    let a = Constraint::new_state_constraint(0, 1, Interval::new(1, 2));
    let b = Constraint::new_action_constraint(5, 9, 3, Interval::new(1, 2));
    let c = Constraint::new_state_constraint(0, 1, Interval::new(1, 3));
    assert!(a == b);
    assert!(a != c);
    assert!(a < c);
    assert!(c > b);
    assert_eq!(a.partial_cmp(&b), Some(std::cmp::Ordering::Equal));
}

#[test]
fn constraint_set_keeps_buckets_in_order() {
    let mut set = ConstraintSet::default();
    assert!(set.get_state_constraints(&1).is_none());
    assert!(set.get_action_constraints(&1, &2).is_none());
    set.add(Constraint::new_state_constraint(0, 1, Interval::new(10, 20)));
    set.add(Constraint::new_state_constraint(0, 1, Interval::new(1, 5)));
    set.add(Constraint::new_state_constraint(0, 1, Interval::new(10, 12)));
    set.add(Constraint::new_state_constraint(0, 2, Interval::new(7, 8)));
    // The same interval once more is not taken in.
    set.add(Constraint::new_state_constraint(9, 1, Interval::new(1, 5)));
    let bucket = set.get_state_constraints(&1).unwrap();
    let intervals: Vec<Interval> = bucket.iter().map(|c| c.interval).collect();
    assert_eq!(
        intervals,
        vec![Interval::new(1, 5), Interval::new(10, 12), Interval::new(10, 20)]
    );
    assert_eq!(bucket[0].agent, 0);
    assert_eq!(set.get_state_constraints(&2).unwrap().len(), 1);
    assert!(set.get_state_constraints(&3).is_none());
    assert!(set.get_action_constraints(&1, &2).is_none());
}

#[test]
fn constraint_set_files_action_constraints_by_edge() {
    let mut set = ConstraintSet::default();
    set.add(Constraint::new_action_constraint(0, 1, 2, Interval::new(4, 4)));
    set.add(Constraint::new_action_constraint(0, 1, 3, Interval::new(5, 5)));
    set.add(Constraint::new_action_constraint(0, 1, 2, Interval::new(2, 3)));
    let bucket = set.get_action_constraints(&1, &2).unwrap();
    let intervals: Vec<Interval> = bucket.iter().map(|c| c.interval).collect();
    assert_eq!(intervals, vec![Interval::new(2, 3), Interval::new(4, 4)]);
    assert_eq!(set.get_action_constraints(&1, &3).unwrap().len(), 1);
    assert!(set.get_action_constraints(&2, &1).is_none());
    assert!(set.get_state_constraints(&1).is_none());
}

#[test]
fn forbidden_intervals_merge_what_overlaps_or_touches() {
    let mut set = ConstraintSet::default();
    for (a, b) in [(1u64, 5u64), (3, 8), (9, 10), (20, 30), (25, 26), (40, 39)] {
        set.add(Constraint::new_state_constraint(0, 1, Interval::new(a, b)));
    }
    let forbidden = get_forbidden_intervals(set.get_state_constraints(&1).unwrap());
    assert_eq!(forbidden, vec![Interval::new(1, 10), Interval::new(20, 30)]);
}

#[test]
fn complement_gives_what_is_left_of_the_time_line() {
    assert_eq!(complement(&vec![]), vec![Interval::new(0, u64::MAX)]);
    assert_eq!(
        complement(&vec![Interval::new(1, 10), Interval::new(20, 30)]),
        vec![Interval::new(0, 0), Interval::new(11, 19), Interval::new(31, u64::MAX)]
    );
    assert_eq!(
        complement(&vec![Interval::new(0, 10), Interval::new(20, u64::MAX)]),
        vec![Interval::new(11, 19)]
    );
    assert_eq!(complement(&vec![Interval::new(0, u64::MAX)]), vec![]);
}

#[test]
fn safe_intervals_are_what_the_state_constraints_leave() {
    let mut set = ConstraintSet::default();
    set.add(Constraint::new_state_constraint(0, 1, Interval::new(5, 6)));
    set.add(Constraint::new_state_constraint(0, 1, Interval::new(7, 9)));
    set.add(Constraint::new_action_constraint(0, 1, 2, Interval::new(0, 100)));
    assert_eq!(
        get_safe_intervals(&set, 1),
        vec![Interval::new(0, 4), Interval::new(10, u64::MAX)]
    );
    assert_eq!(get_safe_intervals(&set, 2), vec![Interval::default()]);
    assert_eq!(get_collision_intervals(&set, 1, 2), vec![Interval::new(0, 100)]);
    assert_eq!(get_collision_intervals(&set, 2, 1), vec![]);
}

#[test]
fn earliest_arrival_without_waiting() {
    // Ready at 3, two ticks on the way, into [0, 100].
    let r = earliest_arrival(3, 2, 50, &Interval::new(0, 100), &vec![]);
    assert_eq!(r, Some(5));
}

#[test]
fn earliest_arrival_waits_for_the_safe_interval() {
    let r = earliest_arrival(3, 2, 50, &Interval::new(10, 100), &vec![]);
    assert_eq!(r, Some(10));
    // It cannot wait longer than it may stay.
    let r = earliest_arrival(3, 2, 7, &Interval::new(10, 100), &vec![]);
    assert_eq!(r, None);
    let r = earliest_arrival(3, 2, 8, &Interval::new(10, 100), &vec![]);
    assert_eq!(r, Some(10));
}

#[test]
fn earliest_arrival_is_too_late_for_the_safe_interval() {
    let r = earliest_arrival(3, 2, 50, &Interval::new(0, 4), &vec![]);
    assert_eq!(r, None);
    let r = earliest_arrival(u64::MAX, 1, u64::MAX, &Interval::default(), &vec![]);
    assert_eq!(r, None);
}

#[test]
fn earliest_arrival_leaves_after_a_forbidden_interval() {
    let forbidden = vec![Interval::new(0, 1), Interval::new(3, 6), Interval::new(9, 9)];
    // The departure at 3 is forbidden until 6: leave at 6, arrive at 8.
    let r = earliest_arrival(3, 2, 50, &Interval::new(0, 100), &forbidden);
    assert_eq!(r, Some(8));
    // The departure at 2 is free.
    let r = earliest_arrival(2, 2, 50, &Interval::new(0, 100), &forbidden);
    assert_eq!(r, Some(4));
    // The agent may leave at the end of a forbidden interval.
    let r = earliest_arrival(6, 2, 50, &Interval::new(0, 100), &forbidden);
    assert_eq!(r, Some(8));
    let r = earliest_arrival(3, 2, 6, &Interval::new(0, 100), &forbidden);
    assert_eq!(r, Some(8));
    // Leaving at 6 is too late for the state that the agent is in.
    let r = earliest_arrival(3, 2, 5, &Interval::new(0, 100), &forbidden);
    assert_eq!(r, None);
    // Arriving at 8 is too late for the state that it goes to.
    let r = earliest_arrival(3, 2, 50, &Interval::new(0, 7), &forbidden);
    assert_eq!(r, None);
    // An interval of one tick holds nobody.
    let r = earliest_arrival(0, 1, 50, &Interval::new(10, 100), &forbidden);
    assert_eq!(r, Some(10));
    // An edge of one tick that is forbidden from 0 to 3 is left at 3.
    let r = earliest_arrival(0, 1, 50, &Interval::default(), &vec![Interval::new(0, 3)]);
    assert_eq!(r, Some(4));
}
