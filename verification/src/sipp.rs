//! Safe-interval path planning: the best-first search of one agent through
//! the safe intervals of the states, around the constraints on it.

use vstd::prelude::*;
use vstd::multiset::*;
use crate::constraint::{barred, blocked, ConstraintSet};
use crate::frontier::{
    best,
    covered,
    distinct_places,
    edge_done,
    edges_done,
    entry_ok,
    front_ok,
    goal_kept,
    goals_best,
    grown,
    improved_to,
    recorded,
    same_place,
    lemma_best_of_task,
    lemma_edge_looked,
    lemma_edge_skipped,
    lemma_edges_done_stay,
    lemma_front_finish,
    lemma_front_goal,
    lemma_front_improve,
    lemma_front_pop_current,
    lemma_front_pop_stale,
    lemma_front_push,
    lemma_front_replace,
    lemma_paced_goal,
    lemma_paced_grown,
    lemma_paced_pop,
    lemma_paced_push,
    lemma_paced_replace,
    lemma_paced_sorted,
    lemma_paced_start,
    paced,
    lemma_goal_kept_stays,
    lemma_grown_push,
    lemma_grown_start,
    lemma_reached_in,
    lemma_slot,
    lemma_step_feasible,
    started,
    state_done,
    table_within,
};
use crate::intervals::{
    complement,
    covers,
    earliest_arrival,
    feasible_arrival,
    get_forbidden_intervals,
    held,
    separated,
};
use crate::queue::PriorityQueue;
use crate::search::{Heuristic, SearchNode, Solution};
use crate::search_tree::{
    chain,
    lemma_chain,
    lemma_table_update,
    node_ok,
    nodes_ok,
    table_weight,
    tables_ok,
    SippNode,
};
use crate::time::{Duration, Interval, Time};
use crate::transition::{Action, State, Task, TransitionSystem};
use crate::weight::lemma_row_update;

verus! {

/// A state of the agent together with one of the intervals during which it
/// may be there.
#[derive(Debug, PartialEq, Eq, Hash, Clone, Copy, Structural)]
pub struct SippState {
    pub safe_interval: Interval,
    pub internal_state: State,
}

/// Whether no state constraint forbids `state` at any time of `interval`.
pub open spec fn safe_interval_of(constraints: &ConstraintSet, state: State, interval: Interval) -> bool {
    &&& interval.wf()
    &&& forall|t: int| interval.holds(t) ==> !blocked(constraints.state_bucket(state), t)
}

/// Whether `interval` is one of the safe intervals of `state`: no state
/// constraint forbids any of its times, and it reaches on either side as far
/// as the constraints and the time line allow.
pub open spec fn maximal_safe_interval(
    constraints: &ConstraintSet,
    state: State,
    interval: Interval,
) -> bool {
    &&& safe_interval_of(constraints, state, interval)
    &&& interval.start == 0 || blocked(constraints.state_bucket(state), interval.start - 1)
    &&& interval.end == u64::MAX || blocked(constraints.state_bucket(state), interval.end + 1)
}

/// Whether the agent may be in `state` at the time `cost`.
pub open spec fn stop_ok(constraints: &ConstraintSet, state: SippState, cost: Time) -> bool {
    &&& maximal_safe_interval(constraints, state.internal_state, state.safe_interval)
    &&& state.safe_interval.holds(cost as int)
}

/// Whether the agent, in `from` since `ready`, may take `action` so as to
/// arrive in `to` at `arrival`: the action leads there, the agent leaves
/// while it may still be in `from`, and the action constraints do not keep
/// it from leaving at that time.
pub open spec fn step_ok<TS: TransitionSystem>(
    ts: &TS,
    constraints: &ConstraintSet,
    from: SippState,
    ready: Time,
    action: Action,
    to: SippState,
    arrival: Time,
) -> bool {
    let departure = arrival - ts.cost(from.internal_state, action);
    &&& from.internal_state < ts.n_states()
    &&& ts.actions(from.internal_state).contains(action)
    &&& ts.target(from.internal_state, action) == to.internal_state
    &&& ready <= departure <= from.safe_interval.end
    &&& !barred(constraints.action_bucket(from.internal_state, to.internal_state), departure)
}

/// Whether the states, arrival times and actions make up a path that the
/// agent can follow under the constraints.
pub open spec fn valid_plan<TS: TransitionSystem>(
    ts: &TS,
    constraints: &ConstraintSet,
    states: Seq<SippState>,
    costs: Seq<Time>,
    actions: Seq<Action>,
) -> bool {
    &&& states.len() == costs.len()
    &&& states.len() == actions.len() + 1
    &&& forall|i: int| 0 <= i < states.len() ==> stop_ok(constraints, #[trigger] states[i], costs[i])
    &&& forall|i: int|
        0 <= i < actions.len() ==> step_ok(
            ts,
            constraints,
            states[i],
            costs[i],
            #[trigger] actions[i],
            states[i + 1],
            costs[i + 1],
        )
}

impl Solution<SippState> {
    /// Whether the solution is a path that the agent can follow under the
    /// constraints.
    pub open spec fn valid<TS: TransitionSystem>(&self, ts: &TS, constraints: &ConstraintSet) -> bool {
        valid_plan(ts, constraints, self.states@, self.costs@, self.actions@)
    }
}

/// The safe intervals of `state`: what the state constraints on it leave of
/// the time line, as separated intervals.
pub fn get_safe_intervals(constraints: &ConstraintSet, state: State) -> (r: Vec<Interval>)
    requires
        constraints.wf(),
    ensures
        separated(r@),
        forall|t: int|
            0 <= t <= u64::MAX ==> (covers(r@, t) <==> !blocked(constraints.state_bucket(state), t)),
        forall|k: int|
            0 <= k < r@.len() ==> maximal_safe_interval(constraints, state, #[trigger] r@[k]),
{
    proof {
        constraints.lemma_buckets_ordered();
    }
    let forbidden = match constraints.get_state_constraints(&state) {
        Some(bucket) => get_forbidden_intervals(bucket),
        None => Vec::new(),
    };
    proof {
        assert forall|t: int| covers(forbidden@, t) <==> blocked(
            constraints.state_bucket(state),
            t,
        ) by {}
    }
    let r = complement(&forbidden);
    proof {
        assert forall|k: int| 0 <= k < r@.len() implies maximal_safe_interval(
            constraints,
            state,
            #[trigger] r@[k],
        ) by {
            assert forall|t: int| r@[k].holds(t) implies !blocked(
                constraints.state_bucket(state),
                t,
            ) by {
                assert(covers(r@, t));
            }
            let lo = r@[k].start - 1;
            if lo >= 0 && covers(r@, lo) {
                let i = choose|i: int| 0 <= i < r@.len() && (#[trigger] r@[i]).holds(lo);
                if i < k {
                    assert(r@[i].end + 1 < r@[k].start);
                } else if i > k {
                    assert(r@[k].end + 1 < r@[i].start);
                }
            }
            let hi = r@[k].end + 1;
            if hi <= u64::MAX && covers(r@, hi) {
                let i = choose|i: int| 0 <= i < r@.len() && (#[trigger] r@[i]).holds(hi);
                if i < k {
                    assert(r@[i].end + 1 < r@[k].start);
                } else if i > k {
                    assert(r@[k].end + 1 < r@[i].start);
                }
            }
        }
    }
    r
}

/// The intervals during which the agent may not leave `from` for `to`: the
/// union of the action constraints on that edge, as separated intervals.
pub fn get_collision_intervals(constraints: &ConstraintSet, from: State, to: State) -> (r: Vec<
    Interval,
>)
    requires
        constraints.wf(),
    ensures
        separated(r@),
        forall|t: int| covers(r@, t) <==> blocked(constraints.action_bucket(from, to), t),
{
    proof {
        constraints.lemma_buckets_ordered();
    }
    match constraints.get_action_constraints(&from, &to) {
        Some(bucket) => get_forbidden_intervals(bucket),
        None => Vec::new(),
    }
}

/// What a generalized search has to do: start from any of the initial states,
/// each at its own time, and reach the goal state at a time within the
/// interval that the goal is given with.
pub struct SippTask {
    initial_times: Vec<Time>,
    initial_states: Vec<SippState>,
    goal_state: SippState,
    internal_task: Task,
}

impl SippTask {
    /// The times at which the agent is in the initial states.
    pub closed spec fn initial_times(&self) -> Seq<Time> {
        self.initial_times@
    }

    /// The initial states.
    pub closed spec fn initial_states(&self) -> Seq<SippState> {
        self.initial_states@
    }

    /// The state to reach, with the interval during which it counts as
    /// reached.
    pub closed spec fn goal_state(&self) -> SippState {
        self.goal_state
    }

    /// The task that this one is a part of.
    pub closed spec fn internal_task(&self) -> Task {
        self.internal_task
    }

    /// Whether the search may start in `state` at the time `cost`.
    pub open spec fn starts_at(&self, state: SippState, cost: Time) -> bool {
        exists|k: int|
            0 <= k < self.initial_times().len() && k < self.initial_states().len()
                && #[trigger] self.initial_times()[k] == cost && self.initial_states()[k] == state
    }

    /// Whether the agent has done the task when it arrives in `state` at the
    /// time `cost`.
    pub open spec fn reached(&self, state: SippState, cost: Time) -> bool {
        &&& self.goal_state().safe_interval.holds(cost as int)
        &&& self.internal_task().goal_reached(state.internal_state)
    }

    pub fn new(
        initial_times: Vec<Time>,
        initial_states: Vec<SippState>,
        goal_state: SippState,
        internal_task: Task,
    ) -> (r: SippTask)
        ensures
            r.initial_times() == initial_times@,
            r.initial_states() == initial_states@,
            r.goal_state() == goal_state,
            r.internal_task() == internal_task,
    {
        SippTask { initial_times, initial_states, goal_state, internal_task }
    }

    /// Whether `node` is a goal of the search.
    pub fn is_goal(&self, node: &SearchNode<SippState>) -> (r: bool)
        ensures
            r == self.reached(node.state, node.cost),
    {
        node.cost >= self.goal_state.safe_interval.start && node.cost
            <= self.goal_state.safe_interval.end && self.internal_task.is_goal_state(
            node.state.internal_state,
        )
    }
}

/// Whether `solution` is a path that the agent can follow under the
/// constraints from one of the initial states of `task`, at its time, to the
/// goal, a state of the system.
pub open spec fn solves<TS: TransitionSystem>(
    ts: &TS,
    constraints: &ConstraintSet,
    task: &SippTask,
    solution: Solution<SippState>,
) -> bool {
    &&& solution.valid(ts, constraints)
    &&& task.starts_at(solution.states@[0], solution.costs@[0])
    &&& task.reached(solution.states@.last(), solution.costs@.last())
    &&& solution.states@.last().internal_state < ts.n_states()
}

/// Whether `sipp_task` is `task` as a generalized task: its only start is the
/// initial state of `task`, in the safe interval that holds the initial time,
/// and its goal is the goal of `task`, to be reached within `interval`.
pub open spec fn single_start(
    constraints: &ConstraintSet,
    task: Task,
    interval: Interval,
    sipp_task: SippTask,
) -> bool {
    &&& sipp_task.initial_times() == seq![task.initial_cost]
    &&& sipp_task.initial_states().len() == 1
    &&& sipp_task.initial_states()[0].internal_state == task.initial_state
    &&& stop_ok(constraints, sipp_task.initial_states()[0], task.initial_cost)
    &&& sipp_task.goal_state() == (SippState { safe_interval: interval, internal_state: task.goal_state })
    &&& sipp_task.internal_task() == task
}

/// One more than `n`, as far as a counter goes.
pub open spec fn count_up(n: nat) -> nat {
    if n < usize::MAX {
        n + 1
    } else {
        n
    }
}

/// `m` more than `n`, as far as a counter goes.
pub open spec fn count_up_by(n: nat, m: nat) -> nat {
    if n + m <= usize::MAX {
        n + m
    } else {
        usize::MAX as nat
    }
}

/// What a search with a single start has to do: the task, and the interval
/// during which the goal counts as reached.
pub struct SippConfig<'a, H: Heuristic> {
    task: Task,
    interval: Interval,
    constraints: &'a ConstraintSet,
    heuristic: H,
}

impl<'a, H: Heuristic> SippConfig<'a, H> {
    /// The task.
    pub closed spec fn task(&self) -> Task {
        self.task
    }

    /// The interval during which the goal counts as reached.
    pub closed spec fn interval(&self) -> Interval {
        self.interval
    }

    /// The constraints on the agent.
    pub closed spec fn constraints(&self) -> &'a ConstraintSet {
        self.constraints
    }

    /// The heuristic that guides the search.
    pub closed spec fn heuristic(&self) -> H {
        self.heuristic
    }

    /// The constraints are well formed and the heuristic can be asked.
    pub open spec fn wf(&self) -> bool {
        self.constraints().wf() && self.heuristic().wf()
    }

    pub fn new(task: Task, interval: Interval, constraints: &'a ConstraintSet, heuristic: H) -> (r:
        Self)
        ensures
            r.task() == task,
            r.interval() == interval,
            r.constraints() == constraints,
            r.heuristic() == heuristic,
    {
        SippConfig { task, interval, constraints, heuristic }
    }

    /// Gives the heuristic back.
    pub fn into_heuristic(self) -> (h: H)
        ensures
            h == self.heuristic(),
    {
        self.heuristic
    }
}

/// What a generalized search has to do, and whether it stops at the first
/// goal that it reaches.
pub struct GeneralizedSippConfig<'a, H: Heuristic> {
    task: SippTask,
    constraints: &'a ConstraintSet,
    heuristic: H,
    single_path: bool,
}

impl<'a, H: Heuristic> GeneralizedSippConfig<'a, H> {
    /// The task.
    pub closed spec fn task(&self) -> SippTask {
        self.task
    }

    /// The constraints on the agent.
    pub closed spec fn constraints(&self) -> &'a ConstraintSet {
        self.constraints
    }

    /// The heuristic that guides the search.
    pub closed spec fn heuristic(&self) -> H {
        self.heuristic
    }

    /// Whether the search stops at the first goal.
    pub closed spec fn single_path(&self) -> bool {
        self.single_path
    }

    /// The constraints are well formed and the heuristic can be asked.
    pub open spec fn wf(&self) -> bool {
        self.constraints().wf() && self.heuristic().wf()
    }

    pub fn new(task: SippTask, constraints: &'a ConstraintSet, heuristic: H, single_path: bool) -> (r:
        Self)
        ensures
            r.task() == task,
            r.constraints() == constraints,
            r.heuristic() == heuristic,
            r.single_path() == single_path,
    {
        GeneralizedSippConfig { task, constraints, heuristic, single_path }
    }

    /// Gives the heuristic back.
    pub fn into_heuristic(self) -> (h: H)
        ensures
            h == self.heuristic(),
    {
        self.heuristic
    }
}

/// How often a planner has searched.
#[derive(Debug, Default, Clone, Copy, PartialEq, Eq, Structural)]
pub struct SippStats {
    pub searches: usize,
}

/// Whether the bounds are admissible for the task under the constraints:
/// along every path that the agent can follow to the goal, the bound of the
/// state in which the path begins is no more than the time that the path
/// takes.
pub open spec fn admissible<TS: TransitionSystem>(
    ts: &TS,
    constraints: &ConstraintSet,
    task: &SippTask,
    hv: spec_fn(State) -> Option<Duration>,
) -> bool {
    forall|states: Seq<SippState>, costs: Seq<Time>, actions: Seq<Action>|
        #[trigger] valid_plan(ts, constraints, states, costs, actions) && task.reached(
            states.last(),
            costs.last(),
        ) ==> hv(states[0].internal_state).is_some() && costs[0] + hv(
            states[0].internal_state,
        ).unwrap() <= costs.last()
}

/// Whether `states`, `costs` and `actions` make up a path that the agent can
/// follow under the constraints from one of the initial states of `task`, a
/// state of the system, to the goal.
pub open spec fn plan_to_goal<TS: TransitionSystem>(
    ts: &TS,
    constraints: &ConstraintSet,
    task: &SippTask,
    states: Seq<SippState>,
    costs: Seq<Time>,
    actions: Seq<Action>,
) -> bool {
    &&& valid_plan(ts, constraints, states, costs, actions)
    &&& states[0].internal_state < ts.n_states()
    &&& task.starts_at(states[0], costs[0])
    &&& task.reached(states.last(), costs.last())
}

/// The bounds of a heuristic, as a function of the state.
pub open spec fn bounds_of<H: Heuristic>(heuristic: H) -> spec_fn(State) -> Option<Duration> {
    |state: State| heuristic.value(state)
}

/// Whether every arrival in the safe interval of `last` counts for the goal
/// of the task as far as its beginning goes: the safe interval begins no
/// earlier than the interval of the goal.
pub open spec fn counts_from(task: &SippTask, last: SippState) -> bool {
    last.safe_interval.start >= task.goal_state().safe_interval.start
}

/// Whether the solutions hold the best of all paths to the goal: where there
/// is any path that the agent can follow to the goal, to end in a safe
/// interval that begins no earlier than the interval of the goal, there is
/// one solution, and it ends no later than that path. This is claimed where
/// the bounds are admissible.
pub open spec fn best_of_all<TS: TransitionSystem>(
    ts: &TS,
    constraints: &ConstraintSet,
    task: &SippTask,
    hv: spec_fn(State) -> Option<Duration>,
    solutions: Seq<Solution<SippState>>,
) -> bool {
    admissible(ts, constraints, task, hv) ==> forall|
        states: Seq<SippState>,
        costs: Seq<Time>,
        actions: Seq<Action>,
    | #[trigger]
        plan_to_goal(ts, constraints, task, states, costs, actions) && counts_from(task, states.last())
            ==> solutions.len() == 1 && solutions[0].costs@.last() <= costs.last()
}

/// Whether one of the solutions ends in the safe interval `last`, no later
/// than `t`.
pub open spec fn reaches_as_early(solutions: Seq<Solution<SippState>>, last: SippState, t: Time) -> bool {
    exists|k: int|
        0 <= k < solutions.len() && (#[trigger] solutions[k]).states@.last() == last
            && solutions[k].costs@.last() <= t
}

/// Whether the bounds are steady for the goal: every state has a bound,
/// that of the goal is zero, and the bound of a state is no more than the
/// time that an action takes and the bound of the state that it leads to.
pub open spec fn steady<TS: TransitionSystem>(ts: &TS, goal: State, hv: spec_fn(State) -> Option<Duration>) -> bool {
    &&& hv(goal) == Some(0u64)
    &&& forall|s: State| s < ts.n_states() ==> (#[trigger] hv(s)).is_some()
    &&& forall|s: State, a: Action|
        s < ts.n_states() && #[trigger] ts.actions(s).contains(a) ==> hv(s).unwrap() <= ts.cost(s, a) + hv(
            ts.target(s, a),
        ).unwrap()
}

/// Whether the paths come in the order of the times at which they end.
pub open spec fn in_order(solutions: Seq<Solution<SippState>>) -> bool {
    forall|a: int, b: int|
        0 <= a < b < solutions.len() ==> (#[trigger] solutions[a]).costs@.last() <= (
        #[trigger] solutions[b]).costs@.last()
}

/// Whether no two of the paths end in one safe interval of one state.
pub open spec fn distinct_ends(solutions: Seq<Solution<SippState>>) -> bool {
    forall|a: int, b: int|
        0 <= a < b < solutions.len() ==> (#[trigger] solutions[a]).states@.last() != (
        #[trigger] solutions[b]).states@.last()
}

/// Whether the solutions hold a path to every safe interval of the goal that
/// can be reached: for any path that the agent can follow to the goal, to
/// end in a safe interval that begins no earlier than the interval of the
/// goal, one of the solutions ends in the same safe interval, no later than
/// that path. This is claimed where the bounds are admissible.
pub open spec fn every_goal<TS: TransitionSystem>(
    ts: &TS,
    constraints: &ConstraintSet,
    task: &SippTask,
    hv: spec_fn(State) -> Option<Duration>,
    solutions: Seq<Solution<SippState>>,
) -> bool {
    admissible(ts, constraints, task, hv) ==> forall|
        states: Seq<SippState>,
        costs: Seq<Time>,
        actions: Seq<Action>,
    | #[trigger]
        plan_to_goal(ts, constraints, task, states, costs, actions) && counts_from(task, states.last())
            ==> reaches_as_early(solutions, states.last(), costs.last())
}

/// Whether the bounds are admissible for the task under the constraints:
/// along every path that the agent can follow to the goal of the task, to
/// end there within `interval`, the bound of the state in which the path
/// begins is no more than the time that the path takes.
pub open spec fn admissible_for<TS: TransitionSystem>(
    ts: &TS,
    constraints: &ConstraintSet,
    task: Task,
    interval: Interval,
    hv: spec_fn(State) -> Option<Duration>,
) -> bool {
    forall|states: Seq<SippState>, costs: Seq<Time>, actions: Seq<Action>|
        #[trigger] valid_plan(ts, constraints, states, costs, actions) && states.last().internal_state
            == task.goal_state && interval.holds(costs.last() as int) ==> hv(
            states[0].internal_state,
        ).is_some() && costs[0] + hv(states[0].internal_state).unwrap() <= costs.last()
}

/// Whether `states`, `costs` and `actions` make up a path that the agent can
/// follow under the constraints from the initial state of the task, at its
/// initial time, to the goal, to end there within `interval`.
pub open spec fn plan_of_task<TS: TransitionSystem>(
    ts: &TS,
    constraints: &ConstraintSet,
    task: Task,
    interval: Interval,
    states: Seq<SippState>,
    costs: Seq<Time>,
    actions: Seq<Action>,
) -> bool {
    &&& valid_plan(ts, constraints, states, costs, actions)
    &&& states[0].internal_state == task.initial_state
    &&& costs[0] == task.initial_cost
    &&& states.last().internal_state == task.goal_state
    &&& interval.holds(costs.last() as int)
}

/// Whether `found` is the best of all paths of the task: where there is any
/// path that the agent can follow from the initial state to the goal, to
/// end in a safe interval that begins no earlier than `interval`, one has
/// been found, and it ends no later than that path. This is claimed where
/// the initial state is a state of the system and the bounds are
/// admissible.
pub open spec fn best_of_task<TS: TransitionSystem>(
    ts: &TS,
    constraints: &ConstraintSet,
    task: Task,
    interval: Interval,
    hv: spec_fn(State) -> Option<Duration>,
    found: Option<Solution<SippState>>,
) -> bool {
    admissible_for(ts, constraints, task, interval, hv) && task.initial_state < ts.n_states() ==> forall|
        states: Seq<SippState>,
        costs: Seq<Time>,
        actions: Seq<Action>,
    | #[trigger]
        plan_of_task(ts, constraints, task, interval, states, costs, actions)
            && states.last().safe_interval.start >= interval.start ==> found.is_some()
            && found.unwrap().costs@.last() <= costs.last()
}

/// The planner of one agent.
pub struct SafeIntervalPathPlanning<'a, TS: TransitionSystem> {
    transition_system: &'a TS,
    queue: PriorityQueue<usize>,
    safe: Vec<Vec<Interval>>,
    distance: Vec<Vec<Option<Time>>>,
    nodes: Vec<SippNode>,
    stats: SippStats,
}

impl<'a, TS: TransitionSystem> SafeIntervalPathPlanning<'a, TS> {
    /// The transition system that the agent moves in.
    pub closed spec fn transition_system(&self) -> &'a TS {
        self.transition_system
    }

    /// How often the planner has searched.
    pub closed spec fn searches(&self) -> nat {
        self.stats.searches as nat
    }

    /// The count of searches is one that a counter holds.
    pub proof fn lemma_searches(&self)
        ensures
            self.searches() <= usize::MAX,
    {
    }

    spec fn inv(&self, constraints: &ConstraintSet, task: &SippTask) -> bool {
        &&& self.transition_system.wf()
        &&& constraints.wf()
        &&& self.queue.wf()
        &&& tables_ok(self.transition_system, constraints, self.safe@, self.distance@)
        &&& nodes_ok(self.transition_system, constraints, task, self.safe@, self.nodes@)
        &&& forall|x: SearchNode<usize>| #[trigger]
            self.queue.contents().count(x) > 0 ==> x.state < self.nodes.len()
        &&& forall|s: int| 0 <= s < self.safe@.len() ==> separated((#[trigger] self.safe@[s])@)
        &&& table_within(self.safe@, self.distance@)
    }

    pub fn new(transition_system: &'a TS) -> (r: Self)
        ensures
            r.transition_system() == transition_system,
            r.searches() == 0,
    {
        SafeIntervalPathPlanning {
            transition_system,
            queue: PriorityQueue::new(),
            safe: Vec::new(),
            distance: Vec::new(),
            nodes: Vec::new(),
            stats: SippStats { searches: 0 },
        }
    }

    /// The search is where a best-first search has to be, with nothing that
    /// waits to go into the queue and no safe interval that is being
    /// expanded.
    spec fn front(
        &self,
        constraints: &ConstraintSet,
        task: &SippTask,
        hv: spec_fn(State) -> Option<Duration>,
        goals: Seq<usize>,
    ) -> bool {
        front_ok(
            self.transition_system,
            constraints,
            task,
            hv,
            goals,
            self.safe@,
            self.distance@,
            self.nodes@,
            self.queue.contents(),
            Seq::<SearchNode<usize>>::empty(),
            None,
            task.initial_times().len() as int,
        )
    }

    /// Empties the queue and the search tree, fills the tables of safe
    /// intervals, and puts the initial states of `task` into the queue. An
    /// initial state is left out where it is no state of the transition
    /// system, where its interval is none of the safe intervals of its state,
    /// or where its time lies outside its interval.
    fn init(
        &mut self,
        constraints: &ConstraintSet,
        task: &SippTask,
        Ghost(hv): Ghost<spec_fn(State) -> Option<Duration>>,
    )
        requires
            old(self).transition_system.wf(),
            constraints.wf(),
        ensures
            final(self).inv(constraints, task),
            final(self).front(constraints, task, hv, Seq::<usize>::empty()),
            final(self).transition_system == old(self).transition_system,
            final(self).stats == old(self).stats,
    {
        broadcast use vstd::multiset::group_multiset_axioms;

        self.queue.clear();
        self.nodes.clear();
        self.safe.clear();
        self.distance.clear();
        let n: usize = self.transition_system.num_states();
        let mut s: usize = 0;
        while s < n
            invariant
                s <= n,
                n == self.transition_system.n_states(),
                constraints.wf(),
                self.transition_system == old(self).transition_system,
                self.stats == old(self).stats,
                self.queue.wf(),
                self.queue.contents() == Multiset::<SearchNode<usize>>::empty(),
                self.nodes@.len() == 0,
                self.safe.len() == s,
                self.distance.len() == s,
                forall|q: int| 0 <= q < s ==> (#[trigger] self.distance[q]).len() == self.safe[q].len(),
                forall|q: int, j: int|
                    0 <= q < s && 0 <= j < self.distance[q]@.len() ==> (
                    #[trigger] self.distance[q]@[j]).is_none(),
                forall|q: int, j: int|
                    0 <= q < s && 0 <= j < self.safe[q].len() ==> maximal_safe_interval(
                        constraints,
                        q as usize,
                        #[trigger] self.safe[q][j],
                    ),
                forall|q: int, t: int|
                    0 <= q < s && 0 <= t <= u64::MAX && !blocked(
                        constraints.state_bucket(q as usize),
                        t,
                    ) ==> #[trigger] covers(self.safe[q]@, t),
                forall|q: int| 0 <= q < s ==> separated((#[trigger] self.safe@[q])@),
            decreases n - s,
        {
            let intervals = get_safe_intervals(constraints, s);
            let mut row: Vec<Option<Time>> = Vec::new();
            let mut j: usize = 0;
            while j < intervals.len()
                invariant
                    j <= intervals.len(),
                    row.len() == j,
                    forall|q: int| 0 <= q < j ==> (#[trigger] row@[q]).is_none(),
                decreases intervals.len() - j,
            {
                row.push(None);
                j += 1;
            }
            self.safe.push(intervals);
            self.distance.push(row);
            s += 1;
        }
        let ghost none = Seq::<SearchNode<usize>>::empty();
        let ghost no_goals = Seq::<usize>::empty();
        proof {
            assert forall|x: State, y: int|
                x < self.safe@.len() && 0 <= y < self.safe@[x as int]@.len() implies (#[trigger] best(
                self.distance@,
                x,
                y,
            )).is_none() by {
                assert(self.distance@[x as int]@[y].is_none());
            }
            assert(front_ok(
                self.transition_system,
                constraints,
                task,
                hv,
                no_goals,
                self.safe@,
                self.distance@,
                self.nodes@,
                self.queue.contents(),
                none,
                None,
                0,
            ));
        }
        let m: usize = if task.initial_times.len() <= task.initial_states.len() {
            task.initial_times.len()
        } else {
            task.initial_states.len()
        };
        let mut k: usize = 0;
        while k < m
            invariant
                k <= m,
                m <= task.initial_times.len(),
                m <= task.initial_states.len(),
                m == task.initial_times.len() || m == task.initial_states.len(),
                n == self.transition_system.n_states(),
                self.transition_system == old(self).transition_system,
                self.stats == old(self).stats,
                self.inv(constraints, task),
                none == Seq::<SearchNode<usize>>::empty(),
                no_goals == Seq::<usize>::empty(),
                front_ok(
                    self.transition_system,
                    constraints,
                    task,
                    hv,
                    no_goals,
                    self.safe@,
                    self.distance@,
                    self.nodes@,
                    self.queue.contents(),
                    none,
                    None,
                    k as int,
                ),
            decreases m - k,
        {
            let time: Time = task.initial_times[k];
            let state: SippState = task.initial_states[k];
            let s: usize = state.internal_state;
            let ghost ts = self.transition_system;
            if s < n {
                let row_len: usize = self.safe[s].len();
                let mut j: usize = 0;
                while j < row_len && !(self.safe[s][j] == state.safe_interval)
                    invariant
                        j <= row_len,
                        s < self.safe.len(),
                        row_len == self.safe[s as int].len(),
                        forall|q: int| 0 <= q < j ==> (#[trigger] self.safe[s as int]@[q]) != state.safe_interval,
                    decreases row_len - j,
                {
                    j += 1;
                }
                proof {
                    if stop_ok(constraints, state, time) {
                        lemma_slot(ts, constraints, self.safe@, self.distance@, state, time);
                    }
                }
                if j < row_len && state.safe_interval.contains(time) {
                    let improved: bool = match self.distance[s][j] {
                        Some(d) => time < d,
                        None => true,
                    };
                    if improved {
                        let ghost nodes0 = self.nodes@;
                        let ghost queue0 = self.queue.contents();
                        let ghost table0 = self.distance@;
                        self.distance[s].set(j, Some(time));
                        let idx: usize = self.nodes.len();
                        let node = SippNode { state, slot: j, cost: time, parent: None };
                        self.nodes.push(node);
                        let entry = SearchNode { state: idx, cost: time, heuristic: 0 };
                        self.queue.push(entry);
                        proof {
                            assert(task.initial_times()[k as int] == time);
                            assert(task.starts_at(state, time));
                            assert forall|i: int| 0 <= i < self.nodes@.len() implies node_ok(
                                self.transition_system,
                                constraints,
                                task,
                                self.safe@,
                                self.nodes@,
                                i,
                            ) by {
                                if i < idx {
                                    assert(node_ok(
                                        self.transition_system,
                                        constraints,
                                        task,
                                        self.safe@,
                                        nodes0,
                                        i,
                                    ));
                                }
                            }
                            assert forall|x: SearchNode<usize>| #[trigger]
                                self.queue.contents().count(x) > 0 implies x.state
                                < self.nodes.len() by {
                                if x != entry {
                                    assert(queue0.count(x) > 0);
                                }
                            }
                            assert(improved_to(table0, self.distance@, s, j as int, time)) by {
                                assert forall|x: State, y: int|
                                    x < table0.len() && 0 <= y < table0[x as int]@.len() && (x != s || y
                                        != j) implies #[trigger] best(self.distance@, x, y) == best(
                                    table0,
                                    x,
                                    y,
                                ) by {}
                            }
                            lemma_front_improve(
                                ts,
                                constraints,
                                task,
                                hv,
                                no_goals,
                                self.safe@,
                                table0,
                                self.distance@,
                                nodes0,
                                queue0,
                                none,
                                None,
                                node,
                                entry,
                                k as int,
                            );
                            lemma_front_push(
                                ts,
                                constraints,
                                task,
                                hv,
                                no_goals,
                                self.safe@,
                                self.distance@,
                                self.nodes@,
                                queue0,
                                none.push(entry),
                                k as int,
                            );
                            assert(none.push(entry).skip(1) =~= none);
                            assert(none.push(entry)[0] == entry);
                        }
                    }
                    proof {
                        assert(self.safe@[s as int]@[j as int] == state.safe_interval);
                        assert(best(self.distance@, s, j as int).is_some());
                        assert(started(self.safe@, self.distance@, state, time));
                    }
                }
            }
            proof {
                assert(front_ok(
                    self.transition_system,
                    constraints,
                    task,
                    hv,
                    no_goals,
                    self.safe@,
                    self.distance@,
                    self.nodes@,
                    self.queue.contents(),
                    none,
                    None,
                    k + 1,
                )) by {
                    assert forall|q: int|
                        0 <= q < k + 1 && q < task.initial_times().len() && q < task.initial_states().len() && (
                        #[trigger] task.initial_states()[q]).internal_state < self.safe@.len() && stop_ok(
                            constraints,
                            task.initial_states()[q],
                            task.initial_times()[q],
                        ) implies started(
                        self.safe@,
                        self.distance@,
                        task.initial_states()[q],
                        task.initial_times()[q],
                    ) by {}
                }
            }
            k += 1;
        }
        proof {
            assert(front_ok(
                self.transition_system,
                constraints,
                task,
                hv,
                no_goals,
                self.safe@,
                self.distance@,
                self.nodes@,
                self.queue.contents(),
                none,
                None,
                task.initial_times().len() as int,
            ));
        }
    }

    /// The nodes that the agent can go to from the node `current` so as to
    /// arrive at a state earlier than on any path found before. Each gets
    /// its place in the search tree, with `current` as its parent, and in
    /// the table of best arrivals, which changes nowhere else. A successor
    /// arrives as early as the agent can by its action, has the bound of
    /// its state as its heuristic, and can reach the goal in time as far as
    /// the bound tells; there is none for a state without a bound.
    #[verifier::rlimit(60)]
    fn get_successors<H: Heuristic>(
        &mut self,
        constraints: &ConstraintSet,
        task: &SippTask,
        heuristic: &mut H,
        current: usize,
        Ghost(goals): Ghost<Seq<usize>>,
        Ghost(hv): Ghost<spec_fn(State) -> Option<Duration>>,
    ) -> (successors: Vec<SearchNode<usize>>)
        requires
            old(self).inv(constraints, task),
            old(heuristic).wf(),
            current < old(self).nodes.len(),
            forall|x: State| #[trigger] old(heuristic).value(x) == hv(x),
            front_ok(
                old(self).transition_system,
                constraints,
                task,
                hv,
                goals,
                old(self).safe@,
                old(self).distance@,
                old(self).nodes@,
                old(self).queue.contents(),
                Seq::<SearchNode<usize>>::empty(),
                Some(
                    (
                        old(self).nodes[current as int].state.internal_state,
                        old(self).nodes[current as int].slot as int,
                    ),
                ),
                task.initial_times().len() as int,
            ),
            best(
                old(self).distance@,
                old(self).nodes[current as int].state.internal_state,
                old(self).nodes[current as int].slot as int,
            ) == Some(old(self).nodes[current as int].cost),
            goal_kept(
                task,
                old(self).distance@,
                old(self).nodes@,
                old(self).queue.contents(),
                Seq::<SearchNode<usize>>::empty(),
                goals,
                old(self).nodes[current as int].state.internal_state,
                old(self).nodes[current as int].slot as int,
            ),
        ensures
            final(self).inv(constraints, task),
            final(heuristic).wf(),
            final(heuristic).follows(old(heuristic)),
            forall|x: State| #[trigger] final(heuristic).value(x) == hv(x),
            final(self).transition_system == old(self).transition_system,
            final(self).stats == old(self).stats,
            final(self).queue == old(self).queue,
            final(self).nodes.len() >= old(self).nodes.len(),
            forall|i: int|
                0 <= i < old(self).nodes.len() ==> (#[trigger] final(self).nodes[i]) == old(self).nodes[i],
            forall|q: int|
                0 <= q < successors.len() ==> (#[trigger] successors[q]).state < final(self).nodes.len(),
            table_weight(final(self).distance@) + successors.len() <= table_weight(
                old(self).distance@,
            ),
            front_ok(
                final(self).transition_system,
                constraints,
                task,
                hv,
                goals,
                final(self).safe@,
                final(self).distance@,
                final(self).nodes@,
                final(self).queue.contents(),
                successors@,
                None,
                task.initial_times().len() as int,
            ),
            final(self).safe == old(self).safe,
            final(self).nodes.len() == old(self).nodes.len() + successors.len(),
            grown(
                old(self).transition_system,
                constraints,
                hv,
                task.goal_state().safe_interval.end,
                old(self).distance@,
                final(self).distance@,
                final(self).nodes@,
                successors@,
                current,
                old(self).nodes.len() as int,
            ),
            state_done(
                old(self).transition_system,
                constraints,
                hv,
                task.goal_state().safe_interval.end,
                final(self).safe@,
                final(self).distance@,
                old(self).nodes[current as int].state.internal_state,
                old(self).nodes[current as int].slot as int,
            ),
    {
        let mut successors: Vec<SearchNode<usize>> = Vec::new();
        let here: SippNode = self.nodes[current];
        let s: State = here.state.internal_state;
        let horizon: Time = task.goal_state.safe_interval.end;
        let ghost ts = self.transition_system;
        let ghost cj = here.slot as int;
        let ghost upto = task.initial_times().len() as int;
        proof {
            assert(node_ok(
                self.transition_system,
                constraints,
                task,
                self.safe@,
                self.nodes@,
                current as int,
            ));
            assert(successors@ =~= Seq::<SearchNode<usize>>::empty());
            heuristic.lemma_follows_self();
            lemma_grown_start(ts, constraints, hv, horizon, self.distance@, self.nodes@, current);
        }
        let actions = self.transition_system.actions_from(s);
        let mut k: usize = 0;
        while k < actions.len()
            invariant
                k <= actions.len(),
                actions@ == self.transition_system.actions(s),
                s < self.transition_system.n_states(),
                self.inv(constraints, task),
                heuristic.wf(),
                heuristic.follows(old(heuristic)),
                forall|x: State| #[trigger] heuristic.value(x) == hv(x),
                ts == self.transition_system,
                horizon == task.goal_state().safe_interval.end,
                upto == task.initial_times().len(),
                self.transition_system == old(self).transition_system,
                self.stats == old(self).stats,
                self.queue == old(self).queue,
                self.safe == old(self).safe,
                self.nodes.len() >= old(self).nodes.len(),
                current < old(self).nodes.len(),
                here == old(self).nodes[current as int],
                s == here.state.internal_state,
                cj == here.slot,
                forall|i: int|
                    0 <= i < old(self).nodes.len() ==> (#[trigger] self.nodes[i]) == old(self).nodes[i],
                forall|q: int|
                    0 <= q < successors.len() ==> (#[trigger] successors[q]).state
                        < self.nodes.len(),
                table_weight(self.distance@) + successors.len() <= table_weight(
                    old(self).distance@,
                ),
                self.nodes.len() == old(self).nodes.len() + successors.len(),
                grown(
                    ts,
                    constraints,
                    hv,
                    horizon,
                    old(self).distance@,
                    self.distance@,
                    self.nodes@,
                    successors@,
                    current,
                    old(self).nodes.len() as int,
                ),
                best(self.distance@, s, cj) == Some(here.cost),
                goal_kept(
                    task,
                    self.distance@,
                    self.nodes@,
                    self.queue.contents(),
                    successors@,
                    goals,
                    s,
                    cj,
                ),
                front_ok(
                    ts,
                    constraints,
                    task,
                    hv,
                    goals,
                    self.safe@,
                    self.distance@,
                    self.nodes@,
                    self.queue.contents(),
                    successors@,
                    Some((s, cj)),
                    upto,
                ),
                edges_done(
                    ts,
                    constraints,
                    hv,
                    horizon,
                    self.safe@,
                    self.distance@,
                    s,
                    cj,
                    k as int,
                    0,
                ),
            decreases actions.len() - k,
        {
            let action: Action = actions[k];
            proof {
                assert(actions@.contains(action));
            }
            let next: State = self.transition_system.transition(s, &action);
            let cost: Duration = self.transition_system.transition_cost(s, &action);
            let ghost asked = *heuristic;
            let answer = heuristic.get_heuristic(next);
            proof {
                heuristic.lemma_follows_on(&asked, old(heuristic));
            }
            let h: Duration = match answer {
                Some(h) => h,
                None => 0,
            };
            let in_time: bool = answer.is_some() && here.cost as u128 + cost as u128 + h as u128
                <= horizon as u128;
            if in_time {
                let collisions = get_collision_intervals(constraints, s, next);
                let row_len: usize = self.safe[next].len();
                let mut j: usize = 0;
                while j < row_len
                    invariant
                        j <= row_len,
                        k < actions.len(),
                        actions@ == self.transition_system.actions(s),
                        action == actions@[k as int],
                        next < self.safe.len(),
                        row_len == self.safe[next as int].len(),
                        self.transition_system.actions(s).contains(action),
                        self.transition_system.target(s, action) == next,
                        self.transition_system.cost(s, action) == cost,
                        s < self.transition_system.n_states(),
                        hv(next) == Some(h),
                        separated(collisions@),
                        forall|t: int|
                            covers(collisions@, t) <==> blocked(constraints.action_bucket(s, next), t),
                        self.inv(constraints, task),
                        ts == self.transition_system,
                        horizon == task.goal_state().safe_interval.end,
                        upto == task.initial_times().len(),
                        self.transition_system == old(self).transition_system,
                        self.stats == old(self).stats,
                        self.queue == old(self).queue,
                        self.safe == old(self).safe,
                        self.nodes.len() >= old(self).nodes.len(),
                        current < old(self).nodes.len(),
                        here == old(self).nodes[current as int],
                        s == here.state.internal_state,
                        cj == here.slot,
                        forall|i: int|
                            0 <= i < old(self).nodes.len() ==> (#[trigger] self.nodes[i]) == old(self).nodes[i],
                        forall|q: int|
                            0 <= q < successors.len() ==> (#[trigger] successors[q]).state
                                < self.nodes.len(),
                        table_weight(self.distance@) + successors.len() <= table_weight(
                            old(self).distance@,
                        ),
                        self.nodes.len() == old(self).nodes.len() + successors.len(),
                        grown(
                            ts,
                            constraints,
                            hv,
                            horizon,
                            old(self).distance@,
                            self.distance@,
                            self.nodes@,
                            successors@,
                            current,
                            old(self).nodes.len() as int,
                        ),
                        best(self.distance@, s, cj) == Some(here.cost),
                        goal_kept(
                            task,
                            self.distance@,
                            self.nodes@,
                            self.queue.contents(),
                            successors@,
                            goals,
                            s,
                            cj,
                        ),
                goal_kept(
                    task,
                    self.distance@,
                    self.nodes@,
                    self.queue.contents(),
                    successors@,
                    goals,
                    s,
                    cj,
                ),
                        front_ok(
                            ts,
                            constraints,
                            task,
                            hv,
                            goals,
                            self.safe@,
                            self.distance@,
                            self.nodes@,
                            self.queue.contents(),
                            successors@,
                            Some((s, cj)),
                            upto,
                        ),
                        edges_done(
                            ts,
                            constraints,
                            hv,
                            horizon,
                            self.safe@,
                            self.distance@,
                            s,
                            cj,
                            k as int,
                            j as int,
                        ),
                    decreases row_len - j,
                {
                    let target: Interval = self.safe[next][j];
                    let earliest = earliest_arrival(
                        here.cost,
                        cost,
                        here.state.safe_interval.end,
                        &target,
                        &collisions,
                    );
                    let arrival: Time = match earliest {
                        Some(t) => t,
                        None => 0,
                    };
                    let improved: bool = earliest.is_some() && arrival as u128 + h as u128
                        <= horizon as u128 && match self.distance[next][j] {
                        Some(d) => arrival < d,
                        None => true,
                    };
                    proof {
                        assert(node_ok(ts, constraints, task, self.safe@, self.nodes@, current as int));
                    }
                    if improved {
                        let ghost nodes0 = self.nodes@;
                        let ghost table0 = self.distance@;
                        let ghost extra0 = successors@;
                        self.distance[next].set(j, Some(arrival));
                        let idx: usize = self.nodes.len();
                        let node = SippNode {
                            state: SippState { safe_interval: target, internal_state: next },
                            slot: j,
                            cost: arrival,
                            parent: Some((action, current)),
                        };
                        self.nodes.push(node);
                        let entry = SearchNode { state: idx, cost: arrival, heuristic: h };
                        successors.push(entry);
                        proof {
                            assert(self.distance@ =~= table0.update(
                                next as int,
                                self.distance@[next as int],
                            ));
                            assert(self.distance@[next as int]@ =~= table0[next as int]@.update(
                                j as int,
                                Some(arrival),
                            ));
                            lemma_table_update(table0, next as int, self.distance@[next as int]);
                            lemma_row_update(table0[next as int]@, j as int, Some(arrival));
                            assert(feasible_arrival(
                                here.cost as int,
                                cost as int,
                                here.state.safe_interval.end as int,
                                target,
                                collisions@,
                                arrival as int,
                            ));
                            assert(!held(collisions@, arrival - cost));
                            assert(self.nodes@[current as int] == here);
                            assert forall|i: int| 0 <= i < self.nodes@.len() implies node_ok(
                                self.transition_system,
                                constraints,
                                task,
                                self.safe@,
                                self.nodes@,
                                i,
                            ) by {
                                if i < idx {
                                    assert(node_ok(
                                        self.transition_system,
                                        constraints,
                                        task,
                                        self.safe@,
                                        nodes0,
                                        i,
                                    ));
                                } else {
                                    assert(maximal_safe_interval(
                                        constraints,
                                        next,
                                        self.safe@[next as int][j as int],
                                    ));
                                }
                            }
                            assert(improved_to(table0, self.distance@, next, j as int, arrival)) by {
                                assert forall|x: State, y: int|
                                    x < table0.len() && 0 <= y < table0[x as int]@.len() && (x != next
                                        || y != j) implies #[trigger] best(self.distance@, x, y) == best(
                                    table0,
                                    x,
                                    y,
                                ) by {}
                            }
                            assert(next != s || j != cj);
                            lemma_front_improve(
                                ts,
                                constraints,
                                task,
                                hv,
                                goals,
                                self.safe@,
                                table0,
                                self.distance@,
                                nodes0,
                                self.queue.contents(),
                                extra0,
                                Some((s, cj)),
                                node,
                                entry,
                                upto,
                            );
                            lemma_goal_kept_stays(
                                task,
                                table0,
                                self.distance@,
                                nodes0,
                                self.queue.contents(),
                                extra0,
                                goals,
                                node,
                                entry,
                                s,
                                cj,
                            );
                            lemma_edges_done_stay(
                                ts,
                                constraints,
                                hv,
                                horizon,
                                self.safe@,
                                table0,
                                self.distance@,
                                next,
                                j as int,
                                arrival,
                                s,
                                cj,
                                k as int,
                                j as int,
                            );
                            assert(node_ok(ts, constraints, task, self.safe@, self.nodes@, idx as int));
                            assert(nodes0[current as int] == here);
                            assert(step_ok(ts, constraints, here.state, here.cost, action, node.state, arrival));
                            assert forall|t: Time| #[trigger]
                                step_ok(ts, constraints, here.state, here.cost, action, node.state, t)
                                    && node.state.safe_interval.holds(t as int) implies arrival <= t by {
                                lemma_step_feasible(
                                    ts,
                                    constraints,
                                    here.state,
                                    here.cost,
                                    action,
                                    node.state,
                                    t,
                                    collisions@,
                                );
                            }
                            assert forall|x: int| 0 <= x < table0.len() && x != next implies (
                            #[trigger] self.distance@[x]) == table0[x] by {}
                            lemma_grown_push(
                                ts,
                                constraints,
                                hv,
                                horizon,
                                old(self).distance@,
                                table0,
                                self.distance@,
                                nodes0,
                                extra0,
                                current,
                                old(self).nodes.len() as int,
                                node,
                                entry,
                            );
                        }
                    }
                    proof {
                        lemma_edge_looked(
                            ts,
                            constraints,
                            hv,
                            horizon,
                            self.safe@,
                            self.distance@,
                            s,
                            cj,
                            k as int,
                            j as int,
                            collisions@,
                            earliest,
                        );
                        assert(edges_done(
                            ts,
                            constraints,
                            hv,
                            horizon,
                            self.safe@,
                            self.distance@,
                            s,
                            cj,
                            k as int,
                            j + 1,
                        ));
                    }
                    j += 1;
                }
            } else {
                proof {
                    assert forall|y: int|
                        0 <= y < self.safe@[next as int]@.len() implies #[trigger] edge_done(
                        ts,
                        constraints,
                        hv,
                        horizon,
                        self.safe@,
                        self.distance@,
                        s,
                        cj,
                        k as int,
                        y,
                    ) by {
                        lemma_edge_skipped(
                            ts,
                            constraints,
                            hv,
                            horizon,
                            self.safe@,
                            self.distance@,
                            s,
                            cj,
                            k as int,
                            y,
                        );
                    }
                }
            }
            proof {
                assert(edges_done(
                    ts,
                    constraints,
                    hv,
                    horizon,
                    self.safe@,
                    self.distance@,
                    s,
                    cj,
                    k + 1,
                    0,
                ));
            }
            k += 1;
        }
        proof {
            lemma_front_finish(
                ts,
                constraints,
                task,
                hv,
                goals,
                self.safe@,
                self.distance@,
                self.nodes@,
                self.queue.contents(),
                successors@,
                s,
                cj,
                upto,
            );
        }
        successors
    }

    /// Where among the goals the safe interval of the node `id` stands, if
    /// it does.
    fn goal_at(&self, goals: &Vec<usize>, id: usize) -> (r: Option<usize>)
        requires
            id < self.nodes.len(),
            forall|q: int| 0 <= q < goals.len() ==> (#[trigger] goals[q]) < self.nodes.len(),
        ensures
            match r {
                Some(i) => i < goals.len() && same_place(self.nodes@, goals[i as int], id),
                None => forall|q: int|
                    0 <= q < goals.len() ==> !same_place(self.nodes@, #[trigger] goals[q], id),
            },
    {
        let state: State = self.nodes[id].state.internal_state;
        let slot: usize = self.nodes[id].slot;
        let mut q: usize = 0;
        while q < goals.len()
            invariant
                q <= goals.len(),
                id < self.nodes.len(),
                state == self.nodes[id as int].state.internal_state,
                slot == self.nodes[id as int].slot,
                forall|p: int| 0 <= p < goals.len() ==> (#[trigger] goals[p]) < self.nodes.len(),
                forall|p: int| 0 <= p < q ==> !same_place(self.nodes@, #[trigger] goals[p], id),
            decreases goals.len() - q,
        {
            let other: usize = goals[q];
            if self.nodes[other].state.internal_state == state && self.nodes[other].slot == slot {
                return Some(q);
            }
            q += 1;
        }
        None
    }

    /// Runs the search until the queue is empty, or until the first goal
    /// where only one path is asked for, and returns the goals that it
    /// reached, as nodes of the search tree: for each safe interval of the
    /// goal the node that was taken last, which is the best.
    #[verifier::rlimit(60)]
    fn find_paths<H: Heuristic>(
        &mut self,
        constraints: &ConstraintSet,
        task: &SippTask,
        heuristic: &mut H,
        single_path: bool,
        Ghost(hv): Ghost<spec_fn(State) -> Option<Duration>>,
    ) -> (goals: Vec<usize>)
        requires
            old(self).inv(constraints, task),
            old(self).front(constraints, task, hv, Seq::<usize>::empty()),
            old(heuristic).wf(),
            forall|x: State| #[trigger] old(heuristic).value(x) == hv(x),
        ensures
            final(self).inv(constraints, task),
            final(heuristic).wf(),
            final(heuristic).follows(old(heuristic)),
            forall|x: State| #[trigger] final(heuristic).value(x) == hv(x),
            final(self).transition_system == old(self).transition_system,
            final(self).stats == old(self).stats,
            single_path ==> goals.len() <= 1,
            forall|q: int|
                0 <= q < goals.len() ==> (#[trigger] goals[q]) < final(self).nodes.len()
                    && task.reached(
                    final(self).nodes[goals[q] as int].state,
                    final(self).nodes[goals[q] as int].cost,
                ),
            distinct_places(final(self).nodes@, goals@),
            steady(final(self).transition_system, task.internal_task().goal_state, hv) ==> forall|
                a: int,
                b: int,
            |
                0 <= a < b < goals.len() ==> final(self).nodes[(#[trigger] goals[a]) as int].cost <= final(self).nodes[(#[trigger] goals[b]) as int].cost,
            single_path && admissible(final(self).transition_system, constraints, task, hv) ==> forall|
                states: Seq<SippState>,
                costs: Seq<Time>,
                actions: Seq<Action>,
            | #[trigger]
                plan_to_goal(final(self).transition_system, constraints, task, states, costs, actions)
                    && counts_from(task, states.last()) ==> goals.len() == 1 && final(self).nodes[goals[0] as int].cost <= costs.last(),
            !single_path && admissible(final(self).transition_system, constraints, task, hv) ==> forall|
                states: Seq<SippState>,
                costs: Seq<Time>,
                actions: Seq<Action>,
            | #[trigger]
                plan_to_goal(final(self).transition_system, constraints, task, states, costs, actions)
                    && counts_from(task, states.last()) ==> covered(
                    final(self).safe@,
                    final(self).nodes@,
                    goals@,
                    states.last(),
                    costs.last(),
                ),
    {
        broadcast use vstd::multiset::group_multiset_axioms;

        let mut goals: Vec<usize> = Vec::new();
        let ghost ts = self.transition_system;
        let ghost none = Seq::<SearchNode<usize>>::empty();
        let ghost upto = task.initial_times().len() as int;
        let ghost goal_state = task.internal_task().goal_state;
        let ghost mut floor: int = 0;
        proof {
            heuristic.lemma_follows_self();
            assert(goals@ =~= Seq::<usize>::empty());
            lemma_paced_start(self.queue.contents(), self.nodes@, self.distance@);
        }
        loop
            invariant_except_break
                single_path ==> goals.len() == 0,
                self.front(constraints, task, hv, goals@),
            invariant
                self.inv(constraints, task),
                heuristic.wf(),
                heuristic.follows(old(heuristic)),
                forall|x: State| #[trigger] heuristic.value(x) == hv(x),
                ts == self.transition_system,
                none == Seq::<SearchNode<usize>>::empty(),
                upto == task.initial_times().len(),
                self.transition_system == old(self).transition_system,
                self.stats == old(self).stats,
                forall|q: int|
                    0 <= q < goals.len() ==> (#[trigger] goals[q]) < self.nodes.len()
                        && task.reached(
                        self.nodes[goals[q] as int].state,
                        self.nodes[goals[q] as int].cost,
                    ),
                distinct_places(self.nodes@, goals@),
                goal_state == task.internal_task().goal_state,
                goals_best(self.distance@, self.nodes@, goals@),
                steady(ts, goal_state, hv) ==> paced(floor, self.queue.contents(), none, self.nodes@, goals@),
            ensures
                self.inv(constraints, task),
                heuristic.wf(),
                heuristic.follows(old(heuristic)),
                forall|x: State| #[trigger] heuristic.value(x) == hv(x),
                self.transition_system == old(self).transition_system,
                self.stats == old(self).stats,
                single_path ==> goals.len() <= 1,
                forall|q: int|
                    0 <= q < goals.len() ==> (#[trigger] goals[q]) < self.nodes.len()
                        && task.reached(
                        self.nodes[goals[q] as int].state,
                        self.nodes[goals[q] as int].cost,
                    ),
                distinct_places(self.nodes@, goals@),
                steady(ts, goal_state, hv) ==> forall|a: int, b: int|
                    0 <= a < b < goals.len() ==> self.nodes[(#[trigger] goals[a]) as int].cost <= self.nodes[(
                    #[trigger] goals[b]) as int].cost,
                single_path && admissible(ts, constraints, task, hv) ==> forall|
                    states: Seq<SippState>,
                    costs: Seq<Time>,
                    actions: Seq<Action>,
                | #[trigger]
                    plan_to_goal(ts, constraints, task, states, costs, actions) && counts_from(
                        task,
                        states.last(),
                    ) ==> goals.len() == 1 && self.nodes[goals[0] as int].cost <= costs.last(),
                !single_path && admissible(ts, constraints, task, hv) ==> forall|
                    states: Seq<SippState>,
                    costs: Seq<Time>,
                    actions: Seq<Action>,
                | #[trigger]
                    plan_to_goal(ts, constraints, task, states, costs, actions) && counts_from(
                        task,
                        states.last(),
                    ) ==> covered(self.safe@, self.nodes@, goals@, states.last(), costs.last()),
            decreases table_weight(self.distance@), self.queue.spec_len(),
        {
            let ghost queue0 = self.queue.contents();
            let ghost goals0 = goals@;
            let popped = self.queue.pop();
            let current = match popped {
                Some(c) => c,
                None => {
                    proof {
                        if steady(ts, goal_state, hv) {
                            lemma_paced_sorted(floor, self.queue.contents(), self.nodes@, goals@);
                        }
                        if admissible(ts, constraints, task, hv) {
                            assert forall|
                                states: Seq<SippState>,
                                costs: Seq<Time>,
                                actions: Seq<Action>,
                            | #[trigger]
                                plan_to_goal(ts, constraints, task, states, costs, actions) && counts_from(
                                    task,
                                    states.last(),
                                ) implies covered(
                                self.safe@,
                                self.nodes@,
                                goals@,
                                states.last(),
                                costs.last(),
                            ) by {
                                self.lemma_reached(constraints, task, hv, goals@, states, costs, actions);
                                self.queue.lemma_len();
                            }
                        }
                    }
                    break ;
                },
            };
            proof {
                assert(queue0.count(current) > 0);
                assert(entry_ok(hv, self.distance@, self.nodes@, current));
                assert(self.queue.contents() == queue0.remove(current));
                if steady(ts, goal_state, hv) {
                    lemma_paced_pop(floor, queue0, self.nodes@, goals@, current);
                }
                floor = current.priority();
            }
            let node: SippNode = self.nodes[current.state];
            proof {
                assert(node_ok(
                    self.transition_system,
                    constraints,
                    task,
                    self.safe@,
                    self.nodes@,
                    current.state as int,
                ));
                assert(best(self.distance@, node.state.internal_state, node.slot as int)
                    == self.distance@[node.state.internal_state as int]@[node.slot as int]);
            }
            let stale: bool = match self.distance[node.state.internal_state][node.slot] {
                Some(d) => current.cost > d,
                None => false,
            };
            if stale {
                proof {
                    lemma_front_pop_stale(
                        ts,
                        constraints,
                        task,
                        hv,
                        goals@,
                        self.safe@,
                        self.distance@,
                        self.nodes@,
                        queue0,
                        current,
                        upto,
                    );
                }
                continue ;
            }
            proof {
                lemma_front_pop_current(
                    ts,
                    constraints,
                    task,
                    hv,
                    goals@,
                    self.safe@,
                    self.distance@,
                    self.nodes@,
                    queue0,
                    current,
                    upto,
                );
            }
            let found = SearchNode { state: node.state, cost: node.cost, heuristic: current.heuristic };
            let is_goal: bool = task.is_goal(&found);
            if is_goal {
                match self.goal_at(&goals, current.state) {
                    Some(at) => {
                        goals.set(at, current.state);
                        proof {
                            assert(goals@ == goals0.update(at as int, current.state));
                            lemma_front_replace(
                                ts,
                                constraints,
                                task,
                                hv,
                                goals0,
                                self.safe@,
                                self.distance@,
                                self.nodes@,
                                self.queue.contents(),
                                none,
                                node.state.internal_state,
                                node.slot as int,
                                upto,
                                at as int,
                                current.state,
                            );
                            assert forall|a: int, b: int| 0 <= a < b < goals@.len() implies !same_place(
                                self.nodes@,
                                #[trigger] goals@[a],
                                #[trigger] goals@[b],
                            ) by {
                                if a != at && b != at {
                                    assert(!same_place(self.nodes@, goals0[a], goals0[b]));
                                } else if a == at {
                                    assert(!same_place(self.nodes@, goals0[a], goals0[b]));
                                } else {
                                    assert(!same_place(self.nodes@, goals0[a], goals0[b]));
                                }
                            }
                            assert(goals@[at as int] == current.state);
                            lemma_paced_replace(
                                floor,
                                self.queue.contents(),
                                self.distance@,
                                self.nodes@,
                                goals0,
                                at as int,
                                current.state,
                            );
                        }
                    },
                    None => {
                        goals.push(current.state);
                        proof {
                            lemma_front_goal(
                                ts,
                                constraints,
                                task,
                                hv,
                                goals0,
                                self.safe@,
                                self.distance@,
                                self.nodes@,
                                self.queue.contents(),
                                none,
                                Some((node.state.internal_state, node.slot as int)),
                                upto,
                                current.state,
                            );
                            assert(goals@[goals0.len() as int] == current.state);
                            lemma_paced_goal(
                                floor,
                                self.queue.contents(),
                                self.distance@,
                                self.nodes@,
                                goals0,
                                current.state,
                            );
                        }
                    },
                }
                proof {
                    assert(recorded(
                        self.nodes@,
                        goals@,
                        node.state.internal_state,
                        node.slot as int,
                        node.cost,
                    ));
                }
                if single_path {
                    proof {
                        if steady(ts, goal_state, hv) {
                            lemma_paced_sorted(floor, self.queue.contents(), self.nodes@, goals@);
                        }
                        if admissible(ts, constraints, task, hv) {
                            assert forall|
                                states: Seq<SippState>,
                                costs: Seq<Time>,
                                actions: Seq<Action>,
                            | #[trigger]
                                plan_to_goal(ts, constraints, task, states, costs, actions) && counts_from(
                                    task,
                                    states.last(),
                                ) implies node.cost <= costs.last() by {
                                lemma_reached_in(
                                    ts,
                                    constraints,
                                    task,
                                    hv,
                                    self.safe@,
                                    self.distance@,
                                    self.nodes@,
                                    queue0,
                                    goals0,
                                    states,
                                    costs,
                                    actions,
                                    upto,
                                );
                                let x = choose|x: SearchNode<usize>|
                                    queue0.count(x) > 0 && #[trigger] x.priority() <= costs.last();
                                assert(!x.precedes(&current));
                            }
                        }
                    }
                    break ;
                }
            }
            let ghost nodes0 = self.nodes@;
            let ghost table0 = self.distance@;
            let ghost asked = *heuristic;
            let successors = self.get_successors(
                constraints,
                task,
                heuristic,
                current.state,
                Ghost(goals@),
                Ghost(hv),
            );
            let ghost nodes1 = self.nodes@;
            proof {
                heuristic.lemma_follows_on(&asked, old(heuristic));
                lemma_paced_grown(
                    ts,
                    constraints,
                    task,
                    hv,
                    task.goal_state().safe_interval.end,
                    table0,
                    self.distance@,
                    nodes0,
                    nodes1,
                    self.queue.contents(),
                    successors@,
                    goals@,
                    current,
                );
                assert(distinct_places(nodes1, goals@)) by {
                    assert forall|a: int, b: int| 0 <= a < b < goals@.len() implies !same_place(
                        nodes1,
                        #[trigger] goals@[a],
                        #[trigger] goals@[b],
                    ) by {
                        assert(!same_place(nodes0, goals@[a], goals@[b]));
                        assert(nodes1[goals@[a] as int] == nodes0[goals@[a] as int]);
                        assert(nodes1[goals@[b] as int] == nodes0[goals@[b] as int]);
                    }
                }
            }
            let ghost table1 = self.distance@;
            let ghost len1 = self.queue.spec_len();
            proof {
                assert(successors@.skip(0) =~= successors@);
            }
            let mut q: usize = 0;
            while q < successors.len()
                invariant
                    q <= successors.len(),
                    self.inv(constraints, task),
                    ts == self.transition_system,
                    upto == task.initial_times().len(),
                    self.transition_system == old(self).transition_system,
                    self.stats == old(self).stats,
                    self.queue.spec_len() == len1 + q,
                    forall|i: int|
                        0 <= i < successors.len() ==> (#[trigger] successors[i]).state
                            < self.nodes.len(),
                    self.nodes@.len() >= nodes0.len(),
                    forall|i: int| 0 <= i < nodes0.len() ==> (#[trigger] self.nodes[i]) == nodes0[i],
                    self.distance@ == table1,
                    self.nodes@ == nodes1,
                    none == Seq::<SearchNode<usize>>::empty(),
                    steady(ts, goal_state, hv) ==> paced(
                        floor,
                        self.queue.contents(),
                        successors@.skip(q as int),
                        self.nodes@,
                        goals@,
                    ),
                    front_ok(
                        ts,
                        constraints,
                        task,
                        hv,
                        goals@,
                        self.safe@,
                        self.distance@,
                        self.nodes@,
                        self.queue.contents(),
                        successors@.skip(q as int),
                        None,
                        upto,
                    ),
                decreases successors.len() - q,
            {
                let ghost queue1 = self.queue.contents();
                let entry = successors[q];
                self.queue.push(entry);
                proof {
                    assert forall|x: SearchNode<usize>| #[trigger]
                        self.queue.contents().count(x) > 0 implies x.state < self.nodes.len() by {
                        if x != entry {
                            assert(queue1.count(x) > 0);
                        }
                    }
                    lemma_front_push(
                        ts,
                        constraints,
                        task,
                        hv,
                        goals@,
                        self.safe@,
                        self.distance@,
                        self.nodes@,
                        queue1,
                        successors@.skip(q as int),
                        upto,
                    );
                    assert(successors@.skip(q as int)[0] == entry);
                    assert(successors@.skip(q as int).skip(1) =~= successors@.skip(q + 1));
                    if steady(ts, goal_state, hv) {
                        lemma_paced_push(floor, queue1, successors@.skip(q as int), self.nodes@, goals@);
                    }
                }
                q += 1;
            }
            proof {
                assert(successors@.skip(q as int) =~= none);
            }
        }
        goals
    }

    /// Where the search is at the head of its loop, some node stands in the
    /// queue with a priority that is no more than the time of any path to
    /// the goal, unless the search has taken the safe interval in which the
    /// path ends out of the queue as a goal, at a cost that is no more than
    /// that time.
    proof fn lemma_reached(
        &self,
        constraints: &ConstraintSet,
        task: &SippTask,
        hv: spec_fn(State) -> Option<Duration>,
        goals: Seq<usize>,
        states: Seq<SippState>,
        costs: Seq<Time>,
        actions: Seq<Action>,
    )
        requires
            self.inv(constraints, task),
            self.front(constraints, task, hv, goals),
            admissible(self.transition_system, constraints, task, hv),
            counts_from(task, states.last()),
            plan_to_goal(self.transition_system, constraints, task, states, costs, actions),
        ensures
            (exists|e: SearchNode<usize>|
                self.queue.contents().count(e) > 0 && #[trigger] e.priority() <= costs.last())
                || covered(self.safe@, self.nodes@, goals, states.last(), costs.last()),
    {
        lemma_reached_in(
            self.transition_system,
            constraints,
            task,
            hv,
            self.safe@,
            self.distance@,
            self.nodes@,
            self.queue.contents(),
            goals,
            states,
            costs,
            actions,
            task.initial_times().len() as int,
        );
    }

    /// The path of the search tree that ends in the node `goal`.
    fn get_solution(&self, constraints: &ConstraintSet, task: &SippTask, goal: usize) -> (solution:
        Solution<SippState>)
        requires
            self.inv(constraints, task),
            goal < self.nodes.len(),
        ensures
            solution.valid(self.transition_system, constraints),
            task.starts_at(solution.states@[0], solution.costs@[0]),
            solution.states@.last() == self.nodes[goal as int].state,
            solution.costs@.last() == self.nodes[goal as int].cost,
    {
        let ghost path = chain(self.nodes@, goal);
        let mut reversed: Vec<usize> = Vec::new();
        let mut current: usize = goal;
        reversed.push(current);
        loop
            invariant
                current < self.nodes.len(),
                reversed.len() >= 1,
                reversed@.last() == current,
                path =~= chain(self.nodes@, current) + reversed@.drop_last().reverse(),
                self.inv(constraints, task),
            ensures
                reversed.len() >= 1,
                path =~= reversed@.reverse(),
            decreases current,
        {
            proof {
                assert(node_ok(
                    self.transition_system,
                    constraints,
                    task,
                    self.safe@,
                    self.nodes@,
                    current as int,
                ));
            }
            match self.nodes[current].parent {
                Some((_, parent)) => {
                    proof {
                        let before = reversed@;
                        let after = before.push(parent);
                        assert(after.drop_last() =~= before);
                        assert(before.reverse() =~= seq![current] + before.drop_last().reverse());
                    }
                    current = parent;
                    reversed.push(parent);
                },
                None => {
                    proof {
                        assert(reversed@.reverse() =~= seq![current]
                            + reversed@.drop_last().reverse());
                    }
                    break ;
                },
            }
        }
        proof {
            lemma_chain(self.transition_system, constraints, task, self.safe@, self.nodes@, goal);
        }
        let mut solution: Solution<SippState> = Solution::default();
        let len: usize = reversed.len();
        let mut m: usize = 0;
        while m < len
            invariant
                m <= len,
                len == reversed.len(),
                len == path.len(),
                path =~= reversed@.reverse(),
                forall|q: int| 0 <= q < path.len() ==> (#[trigger] path[q]) < self.nodes.len(),
                forall|q: int|
                    1 <= q < path.len() ==> self.nodes[(#[trigger] path[q]) as int].parent.is_some(),
                solution.states.len() == m,
                solution.costs.len() == m,
                solution.actions.len() == (if m == 0 {
                    0int
                } else {
                    m - 1
                }),
                forall|q: int|
                    0 <= q < m ==> (#[trigger] solution.states[q]) == self.nodes[path[q] as int].state,
                forall|q: int|
                    0 <= q < m ==> (#[trigger] solution.costs[q]) == self.nodes[path[q] as int].cost,
                forall|q: int|
                    1 <= q < m ==> (#[trigger] solution.actions[q - 1]) == self.nodes[path[q] as int].parent.unwrap().0,
            decreases len - m,
        {
            let index: usize = reversed[len - 1 - m];
            proof {
                assert(path[m as int] == index);
            }
            let node: SippNode = self.nodes[index];
            solution.states.push(node.state);
            solution.costs.push(node.cost);
            if m > 0 {
                match node.parent {
                    Some((action, _)) => {
                        solution.actions.push(action);
                    },
                    None => {},
                }
            }
            m += 1;
        }
        proof {
            let ts = self.transition_system;
            assert forall|i: int| 0 <= i < solution.states@.len() implies stop_ok(
                constraints,
                #[trigger] solution.states@[i],
                solution.costs@[i],
            ) by {
                assert(node_ok(ts, constraints, task, self.safe@, self.nodes@, path[i] as int));
            }
            assert forall|i: int| 0 <= i < solution.actions@.len() implies step_ok(
                ts,
                constraints,
                solution.states@[i],
                solution.costs@[i],
                #[trigger] solution.actions@[i],
                solution.states@[i + 1],
                solution.costs@[i + 1],
            ) by {
                assert(node_ok(ts, constraints, task, self.safe@, self.nodes@, path[i + 1] as int));
                assert(solution.actions@[i + 1 - 1] == self.nodes[path[i + 1] as int].parent.unwrap().0);
            }
            assert(node_ok(ts, constraints, task, self.safe@, self.nodes@, path[0] as int));
        }
        solution
    }

    /// One whole search: from the initial states of `task` to its goal.
    fn run<H: Heuristic>(
        &mut self,
        constraints: &ConstraintSet,
        task: &SippTask,
        heuristic: &mut H,
        single_path: bool,
    ) -> (solutions: Vec<Solution<SippState>>)
        requires
            old(self).transition_system.wf(),
            constraints.wf(),
            old(heuristic).wf(),
        ensures
            final(heuristic).wf(),
            final(heuristic).follows(old(heuristic)),
            forall|x: State| #[trigger] final(heuristic).value(x) == old(heuristic).value(x),
            final(self).transition_system == old(self).transition_system,
            final(self).searches() == count_up(old(self).searches()),
            single_path ==> solutions.len() <= 1,
            forall|k: int|
                0 <= k < solutions.len() ==> solves(
                    final(self).transition_system,
                    constraints,
                    task,
                    #[trigger] solutions[k],
                ),
            distinct_ends(solutions@),
            steady(final(self).transition_system, task.internal_task().goal_state, bounds_of(*old(heuristic)))
                ==> in_order(solutions@),
            single_path ==> best_of_all(
                final(self).transition_system,
                constraints,
                task,
                bounds_of(*old(heuristic)),
                solutions@,
            ),
            !single_path ==> every_goal(
                final(self).transition_system,
                constraints,
                task,
                bounds_of(*old(heuristic)),
                solutions@,
            ),
    {
        if self.stats.searches < usize::MAX {
            self.stats.searches += 1;
        }
        let ghost hv = bounds_of(*heuristic);
        self.init(constraints, task, Ghost(hv));
        let goals = self.find_paths(constraints, task, heuristic, single_path, Ghost(hv));
        let mut solutions: Vec<Solution<SippState>> = Vec::new();
        let mut k: usize = 0;
        while k < goals.len()
            invariant
                k <= goals.len(),
                solutions.len() == k,
                self.inv(constraints, task),
                distinct_places(self.nodes@, goals@),
                steady(self.transition_system, task.internal_task().goal_state, hv) ==> forall|a: int, b: int|
                    0 <= a < b < goals.len() ==> self.nodes[(#[trigger] goals[a]) as int].cost <= self.nodes[(
                    #[trigger] goals[b]) as int].cost,
                forall|q: int|
                    0 <= q < goals.len() ==> (#[trigger] goals[q]) < self.nodes.len()
                        && task.reached(
                        self.nodes[goals[q] as int].state,
                        self.nodes[goals[q] as int].cost,
                    ),
                forall|q: int|
                    0 <= q < solutions.len() ==> solves(
                        self.transition_system,
                        constraints,
                        task,
                        #[trigger] solutions[q],
                    ),
                forall|q: int|
                    0 <= q < solutions.len() ==> (#[trigger] solutions[q]).costs@.last()
                        == self.nodes[goals[q] as int].cost && solutions[q].states@.last()
                        == self.nodes[goals[q] as int].state,
            decreases goals.len() - k,
        {
            let solution = self.get_solution(constraints, task, goals[k]);
            proof {
                assert(node_ok(
                    self.transition_system,
                    constraints,
                    task,
                    self.safe@,
                    self.nodes@,
                    goals[k as int] as int,
                ));
            }
            solutions.push(solution);
            k += 1;
        }
        proof {
            if steady(self.transition_system, task.internal_task().goal_state, hv) {
                assert forall|a: int, b: int| 0 <= a < b < solutions@.len() implies (
                #[trigger] solutions@[a]).costs@.last() <= (#[trigger] solutions@[b]).costs@.last() by {
                    assert(self.nodes[goals@[a] as int].cost <= self.nodes[goals@[b] as int].cost);
                }
            }
            assert forall|a: int, b: int| 0 <= a < b < solutions@.len() implies (
            #[trigger] solutions@[a]).states@.last() != (#[trigger] solutions@[b]).states@.last() by {
                let x = self.nodes@[goals@[a] as int];
                let y = self.nodes@[goals@[b] as int];
                assert(node_ok(self.transition_system, constraints, task, self.safe@, self.nodes@, goals@[a] as int));
                assert(node_ok(self.transition_system, constraints, task, self.safe@, self.nodes@, goals@[b] as int));
                assert(!same_place(self.nodes@, goals@[a], goals@[b]));
                if x.state == y.state {
                    let row = self.safe@[x.state.internal_state as int]@;
                    assert(separated(row));
                    assert(row[x.slot as int] == row[y.slot as int]);
                    if x.slot < y.slot {
                        assert(row[x.slot as int].end + 1 < row[y.slot as int].start);
                    } else {
                        assert(row[y.slot as int].end + 1 < row[x.slot as int].start);
                    }
                    assert(row[x.slot as int].wf());
                }
            }
            if single_path && admissible(self.transition_system, constraints, task, hv) {
                assert forall|states: Seq<SippState>, costs: Seq<Time>, actions: Seq<Action>| #[trigger]
                    plan_to_goal(
                        self.transition_system,
                        constraints,
                        task,
                        states,
                        costs,
                        actions,
                    ) && counts_from(task, states.last()) implies solutions@.len() == 1
                    && solutions@[0].costs@.last() <= costs.last() by {
                    assert(goals.len() == 1);
                }
            }
            if !single_path && admissible(self.transition_system, constraints, task, hv) {
                assert forall|states: Seq<SippState>, costs: Seq<Time>, actions: Seq<Action>| #[trigger]
                    plan_to_goal(
                        self.transition_system,
                        constraints,
                        task,
                        states,
                        costs,
                        actions,
                    ) && counts_from(task, states.last()) implies reaches_as_early(
                    solutions@,
                    states.last(),
                    costs.last(),
                ) by {
                    assert(covered(self.safe@, self.nodes@, goals@, states.last(), costs.last()));
                    let last = states.last();
                    let q = choose|q: int|
                        0 <= q < goals@.len() && (#[trigger] goals@[q]) < self.nodes@.len()
                            && self.nodes@[goals@[q] as int].state.internal_state == last.internal_state
                            && self.safe@[last.internal_state as int]@[self.nodes@[goals@[q] as int].slot as int]
                            == last.safe_interval && self.nodes@[goals@[q] as int].cost <= costs.last();
                    assert(node_ok(
                        self.transition_system,
                        constraints,
                        task,
                        self.safe@,
                        self.nodes@,
                        goals@[q] as int,
                    ));
                    assert(solutions@[q].states@.last() == last);
                }
            }
        }
        solutions
    }

    /// The generalized task that `task` stands for: a single start, in the
    /// safe interval of the initial state that holds the initial time. There
    /// is none where the agent may not be in the initial state at that time.
    fn start_of(task: &Task, interval: Interval, constraints: &ConstraintSet) -> (r: Option<SippTask>)
        requires
            constraints.wf(),
        ensures
            r.is_some() <==> !blocked(
                constraints.state_bucket(task.initial_state),
                task.initial_cost as int,
            ),
            r.is_some() ==> single_start(constraints, *task, interval, r.unwrap()),
    {
        let intervals = get_safe_intervals(constraints, task.initial_state);
        let mut k: usize = 0;
        while k < intervals.len() && !intervals[k].contains(task.initial_cost)
            invariant
                k <= intervals.len(),
                forall|j: int| 0 <= j < k ==> !(#[trigger] intervals[j]).holds(task.initial_cost as int),
            decreases intervals.len() - k,
        {
            k += 1;
        }
        if k >= intervals.len() {
            proof {
                assert(!covers(intervals@, task.initial_cost as int));
            }
            return None;
        }
        proof {
            assert(covers(intervals@, task.initial_cost as int));
        }
        let mut initial_times: Vec<Time> = Vec::new();
        initial_times.push(task.initial_cost);
        let mut initial_states: Vec<SippState> = Vec::new();
        initial_states.push(
            SippState { safe_interval: intervals[k], internal_state: task.initial_state },
        );
        let goal_state = SippState { safe_interval: interval, internal_state: task.goal_state };
        Some(SippTask { initial_times, initial_states, goal_state, internal_task: *task })
    }

    /// Turns a task with a single start into a generalized one. Where the
    /// agent may not be in its initial state at its initial time, there is no
    /// such task and the configuration comes back as it was.
    pub fn to_generalized<'c, H: Heuristic>(&self, config: SippConfig<'c, H>, single_path: bool) -> (r:
        Result<GeneralizedSippConfig<'c, H>, SippConfig<'c, H>>)
        requires
            config.constraints().wf(),
        ensures
            r.is_ok() <==> !blocked(
                config.constraints().state_bucket(config.task().initial_state),
                config.task().initial_cost as int,
            ),
            match r {
                Ok(g) => {
                    &&& single_start(config.constraints(), config.task(), config.interval(), g.task())
                    &&& g.constraints() == config.constraints()
                    &&& g.heuristic() == config.heuristic()
                    &&& g.single_path() == single_path
                },
                Err(c) => c == config,
            },
    {
        match Self::start_of(&config.task, config.interval, config.constraints) {
            Some(task) => Ok(
                GeneralizedSippConfig {
                    task,
                    constraints: config.constraints,
                    heuristic: config.heuristic,
                    single_path,
                },
            ),
            None => Err(config),
        }
    }

    /// Searches for the best path of the task. There is none where the agent
    /// may not be in its initial state at its initial time.
    pub fn solve<'c, H: Heuristic>(&mut self, config: &mut SippConfig<'c, H>) -> (r: Option<
        Solution<SippState>,
    >)
        requires
            old(self).transition_system().wf(),
            old(config).wf(),
        ensures
            final(config).wf(),
            final(config).task() == old(config).task(),
            final(config).interval() == old(config).interval(),
            final(config).constraints() == old(config).constraints(),
            final(self).transition_system() == old(self).transition_system(),
            blocked(
                old(config).constraints().state_bucket(old(config).task().initial_state),
                old(config).task().initial_cost as int,
            ) ==> r.is_none() && final(self).searches() == old(self).searches(),
            !blocked(
                old(config).constraints().state_bucket(old(config).task().initial_state),
                old(config).task().initial_cost as int,
            ) ==> final(self).searches() == count_up(old(self).searches()),
            match r {
                Some(solution) => {
                    &&& solution.valid(final(self).transition_system(), old(config).constraints())
                    &&& solution.states@[0].internal_state == old(config).task().initial_state
                    &&& solution.costs@[0] == old(config).task().initial_cost
                    &&& solution.states@.last().internal_state == old(config).task().goal_state
                    &&& old(config).interval().holds(solution.costs@.last() as int)
                },
                None => true,
            },
            forall|x: State| #[trigger]
                final(config).heuristic().value(x) == old(config).heuristic().value(x),
            final(config).heuristic().follows(&old(config).heuristic()),
            best_of_task(
                final(self).transition_system(),
                old(config).constraints(),
                old(config).task(),
                old(config).interval(),
                bounds_of(old(config).heuristic()),
                r,
            ),
    {
        let ghost ts = self.transition_system;
        let ghost hv = bounds_of(config.heuristic);
        match Self::start_of(&config.task, config.interval, config.constraints) {
            Some(task) => {
                let mut solutions = self.run(config.constraints, &task, &mut config.heuristic, true);
                let ghost all = solutions@;
                let r = solutions.pop();
                proof {
                    if r.is_some() {
                        let solution = r.unwrap();
                        assert(solves(self.transition_system, config.constraints, &task, solution));
                    }
                    lemma_best_of_task(
                        ts,
                        config.constraints,
                        config.task,
                        config.interval,
                        task,
                        hv,
                        all,
                    );
                }
                r
            },
            None => {
                proof {
                    config.heuristic.lemma_follows_self();
                    assert forall|states: Seq<SippState>, costs: Seq<Time>, actions: Seq<Action>|
                        #[trigger] plan_of_task(
                            ts,
                            config.constraints,
                            config.task,
                            config.interval,
                            states,
                            costs,
                            actions,
                        ) implies false by {
                        assert(stop_ok(config.constraints, states[0], costs[0]));
                        assert(states[0].safe_interval.holds(costs[0] as int));
                    }
                }
                None
            },
        }
    }

    /// Searches for paths of the generalized task: the best one where a
    /// single path is asked for, else one to each safe interval of the goal
    /// state that can be reached in time. No two of the paths end in the
    /// same safe interval, and with steady bounds they come in the order of
    /// the times at which they end.
    pub fn solve_generalized<'c, H: Heuristic>(&mut self, config: &mut GeneralizedSippConfig<'c, H>) -> (r:
        Vec<Solution<SippState>>)
        requires
            old(self).transition_system().wf(),
            old(config).wf(),
        ensures
            final(config).wf(),
            final(config).task() == old(config).task(),
            final(config).constraints() == old(config).constraints(),
            final(config).single_path() == old(config).single_path(),
            final(self).transition_system() == old(self).transition_system(),
            final(self).searches() == count_up(old(self).searches()),
            old(config).single_path() ==> r.len() <= 1,
            forall|k: int|
                0 <= k < r.len() ==> solves(
                    final(self).transition_system(),
                    old(config).constraints(),
                    &old(config).task(),
                    #[trigger] r[k],
                ),
            distinct_ends(r@),
            steady(
                final(self).transition_system(),
                old(config).task().internal_task().goal_state,
                bounds_of(old(config).heuristic()),
            ) ==> in_order(r@),
            forall|x: State| #[trigger]
                final(config).heuristic().value(x) == old(config).heuristic().value(x),
            final(config).heuristic().follows(&old(config).heuristic()),
            old(config).single_path() ==> best_of_all(
                final(self).transition_system(),
                old(config).constraints(),
                &old(config).task(),
                bounds_of(old(config).heuristic()),
                r@,
            ),
            !old(config).single_path() ==> every_goal(
                final(self).transition_system(),
                old(config).constraints(),
                &old(config).task(),
                bounds_of(old(config).heuristic()),
                r@,
            ),
    {
        self.run(config.constraints, &config.task, &mut config.heuristic, config.single_path)
    }

    /// How often the planner has searched.
    pub fn get_stats(&self) -> (r: SippStats)
        ensures
            r.searches == self.searches(),
    {
        self.stats
    }
}

} // verus!
