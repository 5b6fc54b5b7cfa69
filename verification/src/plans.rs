//! Plans and walks: what holds of the paths that an agent can follow under
//! constraints, and what they have to do with the walks of the transition
//! system.

use vstd::prelude::*;
use crate::constraint::{barred, blocked, same_blocks, Constraint, ConstraintSet};
use crate::search::Solution;
use crate::sipp::{
    admissible_for,
    best_of_task,
    maximal_safe_interval,
    plan_of_task,
    step_ok,
    stop_ok,
    valid_plan,
    SippState,
};
use crate::time::{Duration, Interval, Time};
use crate::transition::{
    connected,
    is_distance,
    lemma_connected_self,
    lemma_connected_step,
    lemma_distance_exists,
    lemma_shortest_is,
    lemma_shortest_some,
    lemma_walk_cost_not_negative,
    shortest,
    walk_cost,
    walk_end,
    walk_valid,
    Action,
    State,
    Task,
    TransitionSystem,
};

verus! {

/// A plan that is valid under one set of constraints is valid under every
/// set that forbids the same.
pub proof fn lemma_valid_plan_same_blocks<TS: TransitionSystem>(
    ts: &TS,
    a: &ConstraintSet,
    b: &ConstraintSet,
    states: Seq<SippState>,
    costs: Seq<Time>,
    actions: Seq<Action>,
)
    requires
        valid_plan(ts, a, states, costs, actions),
        same_blocks(a, b),
    ensures
        valid_plan(ts, b, states, costs, actions),
{
    assert forall|i: int| 0 <= i < states.len() implies stop_ok(b, #[trigger] states[i], costs[i]) by {
        assert(stop_ok(a, states[i], costs[i]));
        let s = states[i].internal_state;
        let iv = states[i].safe_interval;
        assert forall|t: int| iv.holds(t) implies !blocked(b.state_bucket(s), t) by {
            assert(!blocked(a.state_bucket(s), t));
        }
        assert(blocked(a.state_bucket(s), iv.start - 1) == blocked(b.state_bucket(s), iv.start - 1));
        assert(blocked(a.state_bucket(s), iv.end + 1) == blocked(b.state_bucket(s), iv.end + 1));
    }
    assert forall|i: int| 0 <= i < actions.len() implies step_ok(
        ts,
        b,
        states[i],
        costs[i],
        #[trigger] actions[i],
        states[i + 1],
        costs[i + 1],
    ) by {
        assert(step_ok(ts, a, states[i], costs[i], actions[i], states[i + 1], costs[i + 1]));
        let d = costs[i + 1] - ts.cost(states[i].internal_state, actions[i]);
        assert(blocked(a.action_bucket(states[i].internal_state, states[i + 1].internal_state), d)
            == blocked(b.action_bucket(states[i].internal_state, states[i + 1].internal_state), d));
    }
}

/// Whether `action` leads from the one state to the other, and takes no
/// longer than from `ready` to `arrival`.
pub open spec fn link_ok<TS: TransitionSystem>(
    ts: &TS,
    from: SippState,
    ready: Time,
    action: Action,
    to: SippState,
    arrival: Time,
) -> bool {
    &&& from.internal_state < ts.n_states()
    &&& ts.actions(from.internal_state).contains(action)
    &&& ts.target(from.internal_state, action) == to.internal_state
    &&& arrival >= ready + ts.cost(from.internal_state, action)
}

/// Whether each action of the plan leads from one state to the next, and the
/// agent arrives in no state sooner than the action before takes.
pub open spec fn connected_plan<TS: TransitionSystem>(
    ts: &TS,
    states: Seq<SippState>,
    costs: Seq<Time>,
    actions: Seq<Action>,
) -> bool {
    &&& states.len() == costs.len()
    &&& states.len() == actions.len() + 1
    &&& forall|i: int|
        0 <= i < actions.len() ==> link_ok(
            ts,
            states[i],
            costs[i],
            #[trigger] actions[i],
            states[i + 1],
            costs[i + 1],
        )
}

/// A valid plan is connected.
pub proof fn lemma_valid_plan_connected<TS: TransitionSystem>(
    ts: &TS,
    constraints: &ConstraintSet,
    states: Seq<SippState>,
    costs: Seq<Time>,
    actions: Seq<Action>,
)
    requires
        valid_plan(ts, constraints, states, costs, actions),
    ensures
        connected_plan(ts, states, costs, actions),
{
    assert forall|i: int| 0 <= i < actions.len() implies link_ok(
        ts,
        states[i],
        costs[i],
        #[trigger] actions[i],
        states[i + 1],
        costs[i + 1],
    ) by {
        assert(step_ok(ts, constraints, states[i], costs[i], actions[i], states[i + 1], costs[i + 1]));
    }
}

/// Along a valid plan each action leads from one state to the next, and the
/// agent arrives no earlier than the action takes.
pub proof fn lemma_plan_connected<TS: TransitionSystem>(
    ts: &TS,
    constraints: &ConstraintSet,
    states: Seq<SippState>,
    costs: Seq<Time>,
    actions: Seq<Action>,
    i: int,
)
    requires
        valid_plan(ts, constraints, states, costs, actions),
        0 <= i < actions.len(),
    ensures
        ts.actions(states[i].internal_state).contains(actions[i]),
        ts.target(states[i].internal_state, actions[i]) == states[i + 1].internal_state,
        costs[i + 1] >= costs[i] + ts.cost(states[i].internal_state, actions[i]),
{
    assert(step_ok(ts, constraints, states[i], costs[i], actions[i], states[i + 1], costs[i + 1]));
}

/// Along a valid plan the agent is in no state at a time that a state
/// constraint forbids, from its arrival there until it leaves, and takes no
/// action at a time at which the action constraints keep it from leaving.
pub proof fn lemma_plan_respects_constraints<TS: TransitionSystem>(
    ts: &TS,
    constraints: &ConstraintSet,
    states: Seq<SippState>,
    costs: Seq<Time>,
    actions: Seq<Action>,
    i: int,
    t: int,
)
    requires
        valid_plan(ts, constraints, states, costs, actions),
        0 <= i < actions.len(),
        costs[i] <= t <= costs[i + 1] - ts.cost(states[i].internal_state, actions[i]),
    ensures
        !blocked(constraints.state_bucket(states[i].internal_state), t),
        !blocked(constraints.state_bucket(states[i + 1].internal_state), costs[i + 1] as int),
        !barred(
            constraints.action_bucket(states[i].internal_state, states[i + 1].internal_state),
            costs[i + 1] - ts.cost(states[i].internal_state, actions[i]),
        ),
{
    assert(step_ok(ts, constraints, states[i], costs[i], actions[i], states[i + 1], costs[i + 1]));
    assert(stop_ok(constraints, states[i], costs[i]));
    assert(stop_ok(constraints, states[i + 1], costs[i + 1]));
    assert(states[i].safe_interval.holds(t));
}

/// What is left of a valid plan from its step `i` on is a valid plan.
pub proof fn lemma_plan_suffix<TS: TransitionSystem>(
    ts: &TS,
    constraints: &ConstraintSet,
    states: Seq<SippState>,
    costs: Seq<Time>,
    actions: Seq<Action>,
    i: int,
)
    requires
        valid_plan(ts, constraints, states, costs, actions),
        0 <= i < states.len(),
    ensures
        valid_plan(ts, constraints, states.skip(i), costs.skip(i), actions.skip(i)),
        states.skip(i).last() == states.last(),
        costs.skip(i).last() == costs.last(),
        states.skip(i)[0] == states[i],
        costs.skip(i)[0] == costs[i],
{
    let s = states.skip(i);
    let c = costs.skip(i);
    let a = actions.skip(i);
    assert forall|x: int| 0 <= x < s.len() implies stop_ok(constraints, #[trigger] s[x], c[x]) by {
        assert(stop_ok(constraints, states[x + i], costs[x + i]));
    }
    assert forall|x: int| 0 <= x < a.len() implies step_ok(
        ts,
        constraints,
        s[x],
        c[x],
        #[trigger] a[x],
        s[x + 1],
        c[x + 1],
    ) by {
        assert(a[x] == actions[x + i]);
        assert(step_ok(
            ts,
            constraints,
            states[x + i],
            costs[x + i],
            actions[x + i],
            states[x + i + 1],
            costs[x + i + 1],
        ));
    }
}

/// What is best of the paths of a task under some bounds is best of them
/// under bounds that are the same for every state.
pub proof fn lemma_best_of_task_same_bounds<TS: TransitionSystem>(
    ts: &TS,
    constraints: &ConstraintSet,
    task: Task,
    interval: Interval,
    one: spec_fn(State) -> Option<Duration>,
    other: spec_fn(State) -> Option<Duration>,
    found: Option<Solution<SippState>>,
)
    requires
        forall|x: State| #[trigger] one(x) == other(x),
        best_of_task(ts, constraints, task, interval, one, found),
    ensures
        best_of_task(ts, constraints, task, interval, other, found),
{
    if admissible_for(ts, constraints, task, interval, other) {
        assert forall|states: Seq<SippState>, costs: Seq<Time>, actions: Seq<Action>|
            #[trigger] valid_plan(ts, constraints, states, costs, actions) && states.last().internal_state
                == task.goal_state && interval.holds(costs.last() as int) implies one(
            states[0].internal_state,
        ).is_some() && costs[0] + one(states[0].internal_state).unwrap() <= costs.last() by {
            assert(one(states[0].internal_state) == other(states[0].internal_state));
        }
    }
}

/// A state has no two safe intervals that hold the same time.
pub proof fn lemma_safe_interval_unique(
    constraints: &ConstraintSet,
    state: State,
    one: Interval,
    other: Interval,
    t: int,
)
    requires
        maximal_safe_interval(constraints, state, one),
        maximal_safe_interval(constraints, state, other),
        one.holds(t),
        other.holds(t),
    ensures
        one == other,
{
    if other.start < one.start {
        assert(other.holds(one.start - 1));
    }
    if one.start < other.start {
        assert(one.holds(other.start - 1));
    }
    if other.end < one.end {
        assert(one.holds(other.end + 1));
    }
    if one.end < other.end {
        assert(other.holds(one.end + 1));
    }
}

/// Whether the bounds are admissible for the goal in the transition system:
/// every state from which a walk reaches the goal within the time that
/// there is has a bound, which is no more than the time of any such walk.
pub open spec fn walk_admissible<TS: TransitionSystem>(
    ts: &TS,
    goal: State,
    hv: spec_fn(State) -> Option<Duration>,
) -> bool {
    forall|state: State, cost: int| #[trigger]
        connected(ts, state, goal, cost) && cost <= u64::MAX ==> hv(state).is_some() && hv(state).unwrap()
            <= cost
}

/// Along a valid plan the agent walks from the first state to the last, in
/// no more time than the plan takes.
pub proof fn lemma_plan_walk<TS: TransitionSystem>(
    ts: &TS,
    constraints: &ConstraintSet,
    states: Seq<SippState>,
    costs: Seq<Time>,
    actions: Seq<Action>,
)
    requires
        valid_plan(ts, constraints, states, costs, actions),
    ensures
        exists|cost: int|
            #[trigger] connected(ts, states[0].internal_state, states.last().internal_state, cost) && cost
                <= costs.last() - costs[0],
    decreases states.len(),
{
    if actions.len() == 0 {
        lemma_connected_self(ts, states[0].internal_state);
        assert(connected(ts, states[0].internal_state, states.last().internal_state, 0));
    } else {
        lemma_plan_suffix(ts, constraints, states, costs, actions, 1);
        lemma_plan_walk(ts, constraints, states.skip(1), costs.skip(1), actions.skip(1));
        let rest = choose|cost: int|
            #[trigger] connected(ts, states[1].internal_state, states.last().internal_state, cost) && cost
                <= costs.last() - costs[1];
        assert(step_ok(ts, constraints, states[0], costs[0], actions[0], states[1], costs[1]));
        lemma_connected_step(
            ts,
            states[0].internal_state,
            actions[0],
            states.last().internal_state,
            rest,
        );
        let all = ts.cost(states[0].internal_state, actions[0]) + rest;
        assert(connected(ts, states[0].internal_state, states.last().internal_state, all) && all
            <= costs.last() - costs[0]);
    }
}

/// Bounds that are admissible for the goal in the transition system are
/// admissible for a task with that goal under any constraints.
pub proof fn lemma_walk_admissible<TS: TransitionSystem>(
    ts: &TS,
    constraints: &ConstraintSet,
    task: Task,
    interval: Interval,
    hv: spec_fn(State) -> Option<Duration>,
)
    requires
        walk_admissible(ts, task.goal_state, hv),
    ensures
        admissible_for(ts, constraints, task, interval, hv),
{
    assert forall|states: Seq<SippState>, costs: Seq<Time>, actions: Seq<Action>|
        #[trigger] valid_plan(ts, constraints, states, costs, actions) && states.last().internal_state
            == task.goal_state && interval.holds(costs.last() as int) implies hv(
        states[0].internal_state,
    ).is_some() && costs[0] + hv(states[0].internal_state).unwrap() <= costs.last() by {
        lemma_plan_walk(ts, constraints, states, costs, actions);
    }
}

/// The first time from which on, until `t`, nothing is forbidden.
pub open spec fn left_end(bucket: Seq<Constraint>, t: nat) -> nat
    decreases t,
{
    if t == 0 || blocked(bucket, t - 1) {
        t
    } else {
        left_end(bucket, (t - 1) as nat)
    }
}

/// The last time until which, from `t` on, nothing is forbidden.
pub open spec fn right_end(bucket: Seq<Constraint>, t: nat) -> nat
    decreases u64::MAX - t,
{
    if t >= u64::MAX || blocked(bucket, (t + 1) as int) {
        t
    } else {
        right_end(bucket, t + 1)
    }
}

/// Nothing is forbidden from `left_end` to `t`, and `left_end` is as early
/// as that can be.
pub proof fn lemma_left_end(bucket: Seq<Constraint>, t: nat)
    requires
        !blocked(bucket, t as int),
    ensures
        left_end(bucket, t) <= t,
        forall|x: int| left_end(bucket, t) <= x <= t ==> !blocked(bucket, x),
        left_end(bucket, t) == 0 || blocked(bucket, left_end(bucket, t) - 1),
    decreases t,
{
    if t == 0 || blocked(bucket, t - 1) {
    } else {
        lemma_left_end(bucket, (t - 1) as nat);
    }
}

/// Nothing is forbidden from `t` to `right_end`, and `right_end` is as late
/// as that can be.
pub proof fn lemma_right_end(bucket: Seq<Constraint>, t: nat)
    requires
        !blocked(bucket, t as int),
        t <= u64::MAX,
    ensures
        t <= right_end(bucket, t) <= u64::MAX,
        forall|x: int| t <= x <= right_end(bucket, t) ==> !blocked(bucket, x),
        right_end(bucket, t) == u64::MAX || blocked(bucket, (right_end(bucket, t) + 1) as int),
    decreases u64::MAX - t,
{
    if t >= u64::MAX || blocked(bucket, (t + 1) as int) {
    } else {
        lemma_right_end(bucket, t + 1);
    }
}

/// Where nothing is forbidden from `t` to `end`, `right_end` is no earlier
/// than `end`.
pub proof fn lemma_right_end_reaches(bucket: Seq<Constraint>, t: nat, end: nat)
    requires
        t <= end <= u64::MAX,
        forall|x: int| t <= x <= end ==> !blocked(bucket, x),
    ensures
        right_end(bucket, t) >= end,
    decreases u64::MAX - t,
{
    if t < end {
        assert(!blocked(bucket, (t + 1) as int));
        lemma_right_end_reaches(bucket, t + 1, end);
    } else {
        assert(!blocked(bucket, t as int));
        lemma_right_end(bucket, t);
    }
}

/// The safe interval of `state` that holds `t`.
pub open spec fn safe_around(constraints: &ConstraintSet, state: State, t: Time) -> Interval {
    Interval {
        start: left_end(constraints.state_bucket(state), t as nat) as u64,
        end: right_end(constraints.state_bucket(state), t as nat) as u64,
    }
}

/// A time at which a state is not forbidden lies in a safe interval of the
/// state.
pub proof fn lemma_safe_around(constraints: &ConstraintSet, state: State, t: Time)
    requires
        !blocked(constraints.state_bucket(state), t as int),
    ensures
        maximal_safe_interval(constraints, state, safe_around(constraints, state, t)),
        safe_around(constraints, state, t).holds(t as int),
{
    let bucket = constraints.state_bucket(state);
    lemma_left_end(bucket, t as nat);
    lemma_right_end(bucket, t as nat);
}

/// The states of a plan, each in the safe interval that it has under the
/// constraints.
pub open spec fn relabelled(constraints: &ConstraintSet, states: Seq<SippState>, costs: Seq<Time>) -> Seq<
    SippState,
> {
    Seq::new(
        states.len(),
        |i: int|
            SippState {
                safe_interval: safe_around(constraints, states[i].internal_state, costs[i]),
                internal_state: states[i].internal_state,
            },
    )
}

/// Whether `fewer` forbids nothing that `more` does not forbid.
pub open spec fn forbids_less(fewer: &ConstraintSet, more: &ConstraintSet) -> bool {
    &&& forall|s: State, t: int| #[trigger]
        blocked(fewer.state_bucket(s), t) ==> blocked(more.state_bucket(s), t)
    &&& forall|f: State, g: State, t: int| #[trigger]
        blocked(fewer.action_bucket(f, g), t) ==> blocked(more.action_bucket(f, g), t)
}

/// A plan that is valid under constraints is valid, with its states in the
/// safe intervals that they then have, under constraints that forbid less.
pub proof fn lemma_relabel<TS: TransitionSystem>(
    ts: &TS,
    more: &ConstraintSet,
    fewer: &ConstraintSet,
    states: Seq<SippState>,
    costs: Seq<Time>,
    actions: Seq<Action>,
)
    requires
        valid_plan(ts, more, states, costs, actions),
        forbids_less(fewer, more),
    ensures
        valid_plan(ts, fewer, relabelled(fewer, states, costs), costs, actions),
{
    let wide = relabelled(fewer, states, costs);
    assert forall|i: int| 0 <= i < wide.len() implies stop_ok(fewer, #[trigger] wide[i], costs[i]) by {
        assert(stop_ok(more, states[i], costs[i]));
        assert(states[i].safe_interval.holds(costs[i] as int));
        assert(!blocked(more.state_bucket(states[i].internal_state), costs[i] as int));
        lemma_safe_around(fewer, states[i].internal_state, costs[i]);
    }
    assert forall|i: int| 0 <= i < actions.len() implies step_ok(
        ts,
        fewer,
        wide[i],
        costs[i],
        #[trigger] actions[i],
        wide[i + 1],
        costs[i + 1],
    ) by {
        assert(step_ok(ts, more, states[i], costs[i], actions[i], states[i + 1], costs[i + 1]));
        assert(stop_ok(more, states[i], costs[i]));
        let s = states[i].internal_state;
        let old_end = states[i].safe_interval.end;
        let bucket = fewer.state_bucket(s);
        assert forall|x: int| costs[i] <= x <= old_end implies !blocked(bucket, x) by {
            assert(states[i].safe_interval.holds(x));
            assert(!blocked(more.state_bucket(s), x));
        }
        lemma_right_end_reaches(bucket, costs[i] as nat, old_end as nat);
        lemma_right_end(bucket, costs[i] as nat);
    }
}

/// Whether the constraints forbid nothing.
pub open spec fn unconstrained(constraints: &ConstraintSet) -> bool {
    &&& forall|s: State, t: int| !#[trigger] blocked(constraints.state_bucket(s), t)
    &&& forall|f: State, g: State, t: int| !#[trigger] blocked(constraints.action_bucket(f, g), t)
}

/// The state `state` in the safe interval that is all of time.
pub open spec fn at_all_times(state: State) -> SippState {
    SippState { safe_interval: Interval::whole(), internal_state: state }
}

/// The states that the agent comes through when it takes the actions from
/// `state`, each in the safe interval that is all of time.
pub open spec fn walk_states<TS: TransitionSystem>(ts: &TS, state: State, actions: Seq<Action>) -> Seq<
    SippState,
>
    decreases actions.len(),
{
    if actions.len() == 0 {
        seq![at_all_times(state)]
    } else {
        seq![at_all_times(state)] + walk_states(ts, ts.target(state, actions[0]), actions.skip(1))
    }
}

/// The times at which the agent arrives in the states that it comes through
/// when it takes the actions from `state` at the time `start`, one right
/// after the other.
pub open spec fn walk_times<TS: TransitionSystem>(
    ts: &TS,
    state: State,
    start: int,
    actions: Seq<Action>,
) -> Seq<Time>
    decreases actions.len(),
{
    if actions.len() == 0 {
        seq![start as u64]
    } else {
        seq![start as u64] + walk_times(
            ts,
            ts.target(state, actions[0]),
            start + ts.cost(state, actions[0]),
            actions.skip(1),
        )
    }
}

/// Where nothing is forbidden, the agent can follow every walk without
/// waiting.
pub proof fn lemma_walk_plan<TS: TransitionSystem>(
    ts: &TS,
    constraints: &ConstraintSet,
    state: State,
    start: int,
    actions: Seq<Action>,
)
    requires
        unconstrained(constraints),
        walk_valid(ts, state, actions),
        0 <= start,
        start + walk_cost(ts, state, actions) <= u64::MAX,
    ensures
        valid_plan(
            ts,
            constraints,
            walk_states(ts, state, actions),
            walk_times(ts, state, start, actions),
            actions,
        ),
        walk_states(ts, state, actions)[0] == at_all_times(state),
        walk_times(ts, state, start, actions)[0] == start,
        walk_states(ts, state, actions).last() == at_all_times(walk_end(ts, state, actions)),
        walk_times(ts, state, start, actions).last() == start + walk_cost(ts, state, actions),
    decreases actions.len(),
{
    let states = walk_states(ts, state, actions);
    let costs = walk_times(ts, state, start, actions);
    lemma_walk_cost_not_negative(ts, state, actions);
    assert(maximal_safe_interval(constraints, state, Interval::whole()));
    if actions.len() == 0 {
        assert(stop_ok(constraints, states[0], costs[0]));
    } else {
        let next = ts.target(state, actions[0]);
        let then = start + ts.cost(state, actions[0]);
        let rest = actions.skip(1);
        lemma_walk_cost_not_negative(ts, next, rest);
        lemma_walk_plan(ts, constraints, next, then, rest);
        let tail_states = walk_states(ts, next, rest);
        let c1 = walk_times(ts, next, then, rest);
        assert(states =~= seq![at_all_times(state)] + tail_states);
        assert(costs =~= seq![start as u64] + c1);
        assert forall|i: int| 0 <= i < states.len() implies stop_ok(
            constraints,
            #[trigger] states[i],
            costs[i],
        ) by {
            if i > 0 {
                assert(states[i] == tail_states[i - 1]);
                assert(costs[i] == c1[i - 1]);
                assert(stop_ok(constraints, tail_states[i - 1], c1[i - 1]));
            }
        }
        assert forall|i: int| 0 <= i < actions.len() implies step_ok(
            ts,
            constraints,
            states[i],
            costs[i],
            #[trigger] actions[i],
            states[i + 1],
            costs[i + 1],
        ) by {
            assert(states[i + 1] == tail_states[i]);
            assert(costs[i + 1] == c1[i]);
            if i > 0 {
                assert(states[i] == tail_states[i - 1]);
                assert(costs[i] == c1[i - 1]);
                assert(actions[i] == rest[i - 1]);
                assert(step_ok(ts, constraints, tail_states[i - 1], c1[i - 1], rest[i - 1], tail_states[i], c1[i]));
            }
        }
        assert(states.last() == tail_states.last());
        assert(costs.last() == c1.last());
    }
}

/// What the search finds where nothing is forbidden: a path that takes the
/// time of the shortest walk from the initial state to the goal, or nothing
/// where there is no walk or the clock does not reach that far.
pub open spec fn costs_the_shortest<TS: TransitionSystem>(
    ts: &TS,
    task: Task,
    found: Option<Solution<SippState>>,
) -> bool {
    match shortest(ts, task.initial_state, task.goal_state) {
        Some(d) => if task.initial_cost + d <= u64::MAX {
            found.is_some() && found.unwrap().costs@.last() == task.initial_cost + d
        } else {
            found.is_none()
        },
        None => found.is_none(),
    }
}

/// Where nothing is forbidden, the path that is best of the paths of a task
/// takes the time of the shortest walk from the initial state to the goal.
pub proof fn lemma_unconstrained_cost<TS: TransitionSystem>(
    ts: &TS,
    constraints: &ConstraintSet,
    task: Task,
    hv: spec_fn(State) -> Option<Duration>,
    found: Option<Solution<SippState>>,
)
    requires
        unconstrained(constraints),
        task.initial_state < ts.n_states(),
        walk_admissible(ts, task.goal_state, hv),
        best_of_task(ts, constraints, task, Interval::whole(), hv, found),
        found.is_some() ==> plan_of_task(
            ts,
            constraints,
            task,
            Interval::whole(),
            found.unwrap().states@,
            found.unwrap().costs@,
            found.unwrap().actions@,
        ),
    ensures
        costs_the_shortest(ts, task, found),
{
    let from = task.initial_state;
    let goal = task.goal_state;
    let whole = Interval::whole();
    lemma_walk_admissible(ts, constraints, task, whole, hv);
    if found.is_some() {
        let plan = found.unwrap();
        lemma_plan_walk(ts, constraints, plan.states@, plan.costs@, plan.actions@);
        let c = choose|cost: int|
            #[trigger] connected(ts, from, goal, cost) && cost <= plan.costs@.last() - plan.costs@[0];
        lemma_distance_exists(ts, from, goal, c);
        let d = choose|d: int| 0 <= d <= c && #[trigger] is_distance(ts, from, goal, d);
        lemma_shortest_is(ts, from, goal, d as u64);
    }
    if shortest(ts, from, goal).is_some() {
        let d = shortest(ts, from, goal).unwrap();
        lemma_shortest_some(ts, from, goal);
        if task.initial_cost + d <= u64::MAX {
            let walk = choose|actions: Seq<Action>|
                walk_valid(ts, from, actions) && #[trigger] walk_end(ts, from, actions) == goal
                    && walk_cost(ts, from, actions) == d as int;
            lemma_walk_plan(ts, constraints, from, task.initial_cost as int, walk);
            let states = walk_states(ts, from, walk);
            let costs = walk_times(ts, from, task.initial_cost as int, walk);
            assert(plan_of_task(ts, constraints, task, whole, states, costs, walk));
        }
    }
}

/// The part of a valid plan from its step `from` to its step `to` is a
/// valid plan, also where the agent is in the first state of the part
/// already at the earlier time `ready`.
pub proof fn lemma_plan_part<TS: TransitionSystem>(
    ts: &TS,
    constraints: &ConstraintSet,
    states: Seq<SippState>,
    costs: Seq<Time>,
    actions: Seq<Action>,
    from: int,
    to: int,
    ready: Time,
)
    requires
        valid_plan(ts, constraints, states, costs, actions),
        0 <= from <= to < states.len(),
        ready <= costs[from],
        stop_ok(constraints, states[from], ready),
    ensures
        valid_plan(
            ts,
            constraints,
            states.subrange(from, to + 1),
            costs.subrange(from, to + 1).update(0, ready),
            actions.subrange(from, to),
        ),
        states.subrange(from, to + 1)[0] == states[from],
        states.subrange(from, to + 1).last() == states[to],
        costs.subrange(from, to + 1).update(0, ready)[0] == ready,
        costs.subrange(from, to + 1).update(0, ready).last() <= costs[to],
{
    let part_states = states.subrange(from, to + 1);
    let part_costs = costs.subrange(from, to + 1).update(0, ready);
    let part_actions = actions.subrange(from, to);
    assert forall|x: int| 0 <= x < part_states.len() implies stop_ok(
        constraints,
        #[trigger] part_states[x],
        part_costs[x],
    ) by {
        if x > 0 {
            assert(stop_ok(constraints, states[x + from], costs[x + from]));
        }
    }
    assert forall|x: int| 0 <= x < part_actions.len() implies step_ok(
        ts,
        constraints,
        part_states[x],
        part_costs[x],
        #[trigger] part_actions[x],
        part_states[x + 1],
        part_costs[x + 1],
    ) by {
        assert(part_actions[x] == actions[x + from]);
        assert(step_ok(
            ts,
            constraints,
            states[x + from],
            costs[x + from],
            actions[x + from],
            states[x + from + 1],
            costs[x + from + 1],
        ));
    }
}

} // verus!
