//! Safe-interval path planning through landmarks: the states that the agent
//! has to visit, in their order, before it goes for the goal.

use vstd::prelude::*;
use fxhash::FxHashMap;
use crate::constraint::{blocked, Constraint, ConstraintSet, LandmarkSet};
use crate::plans::{
    costs_the_shortest,
    lemma_best_of_task_same_bounds,
    lemma_plan_part,
    lemma_safe_interval_unique,
    lemma_unconstrained_cost,
    lemma_walk_admissible,
    unconstrained,
    walk_admissible,
};
use crate::search::{differential_bounds, DifferentialHeuristic, Heuristic, Solution};
use crate::sipp::{
    admissible,
    admissible_for,
    best_of_all,
    counts_from,
    best_of_task,
    bounds_of,
    count_up,
    count_up_by,
    every_goal,
    plan_of_task,
    plan_to_goal,
    reaches_as_early,
    single_start,
    solves,
    step_ok,
    stop_ok,
    valid_plan,
    GeneralizedSippConfig,
    SafeIntervalPathPlanning,
    SippConfig,
    SippState,
    SippStats,
    SippTask,
};
use crate::time::{Duration, Interval, Time};
use crate::transition::{Action, State, Task, TransitionSystem};

verus! {

/// `fxhash::FxHasher`, the hasher of an `FxHashMap`. It is carried along and
/// never looked into.
#[verifier::external_type_specification]
#[verifier::external_body]
pub struct ExFxHasher(fxhash::FxHasher);

/// `std::hash::BuildHasherDefault`, which makes the hashers of an
/// `FxHashMap`. It is carried along and never looked into.
#[verifier::external_type_specification]
#[verifier::external_body]
#[verifier::reject_recursive_types(H)]
pub struct ExBuildHasherDefault<H>(std::hash::BuildHasherDefault<H>);

/// What a part of a solution is filed under: the state and the safe interval
/// that it ends in, the time at which it ends, and the number of the landmark
/// that it leads to.
pub type PartKey = (State, Time, Time, Time, usize);

/// `FxHashMap::default`: the map that it makes holds nothing.
#[verifier::external_body]
fn parts_new() -> (parts: FxHashMap<PartKey, Solution<SippState>>)
    ensures
        parts@.dom() == Set::<PartKey>::empty(),
{
    FxHashMap::default()
}

/// `HashMap::clear` on an `FxHashMap`: the map holds nothing afterwards.
#[verifier::external_body]
fn parts_clear(parts: &mut FxHashMap<PartKey, Solution<SippState>>)
    ensures
        final(parts)@.dom() == Set::<PartKey>::empty(),
{
    parts.clear()
}

/// `HashMap::insert` on an `FxHashMap`: afterwards the map holds `part` under
/// `key`, in place of what it held there before, and everything else as
/// before.
#[verifier::external_body]
fn parts_insert(
    m: &mut FxHashMap<PartKey, Solution<SippState>>,
    key: PartKey,
    part: Solution<SippState>,
)
    ensures
        final(m)@ == old(m)@.insert(key, part),
{
    m.insert(key, part);
}

/// `HashMap::remove` on an `FxHashMap`: what the map held under `key` comes
/// out of it, if it held anything there, and everything else stays.
#[verifier::external_body]
fn parts_remove(m: &mut FxHashMap<PartKey, Solution<SippState>>, key: &PartKey) -> (r: Option<
    Solution<SippState>,
>)
    ensures
        final(m)@ == old(m)@.remove(*key),
        match r {
            Some(part) => old(m)@.contains_key(*key) && part == old(m)@[*key],
            None => !old(m)@.contains_key(*key),
        },
{
    m.remove(key)
}

/// The key of the part that ends in `state` at the time `cost` and leads to
/// the landmark with the number `landmark`.
pub open spec fn part_key(state: SippState, cost: Time, landmark: usize) -> PartKey {
    (state.internal_state, state.safe_interval.start, state.safe_interval.end, cost, landmark)
}

fn make_key(state: SippState, cost: Time, landmark: usize) -> (key: PartKey)
    ensures
        key == part_key(state, cost, landmark),
{
    (state.internal_state, state.safe_interval.start, state.safe_interval.end, cost, landmark)
}

/// Whether `marks` names, for each landmark in its turn, a step of the path
/// at which the agent is in the landmark's state at a time of the landmark's
/// interval, no step before that of an earlier landmark.
pub open spec fn marks_ok(
    states: Seq<SippState>,
    costs: Seq<Time>,
    landmarks: Seq<Constraint>,
    marks: Seq<int>,
) -> bool {
    &&& marks.len() == landmarks.len()
    &&& forall|m: int|
        0 <= m < marks.len() ==> 0 <= (#[trigger] marks[m]) < states.len()
            && states[marks[m]].internal_state == landmarks[m].state
            && landmarks[m].interval.holds(costs[marks[m]] as int)
    &&& forall|a: int, b: int| 0 <= a < b < marks.len() ==> (#[trigger] marks[a]) <= (#[trigger] marks[b])
}

/// Whether the path visits every landmark within its interval, in the order
/// of the landmarks.
pub open spec fn visits_landmarks(
    states: Seq<SippState>,
    costs: Seq<Time>,
    landmarks: Seq<Constraint>,
) -> bool {
    exists|marks: Seq<int>| marks_ok(states, costs, landmarks, marks)
}

/// Whether the heuristics are what those of `before` have become by
/// answering questions, one for one.
pub open spec fn heuristics_follow<H: Heuristic>(after: Seq<H>, before: Seq<H>) -> bool {
    &&& after.len() == before.len()
    &&& forall|i: int| 0 <= i < after.len() ==> (#[trigger] after[i]).follows(&before[i])
}

/// Heuristics are what they have become before any question.
pub proof fn lemma_heuristics_follow_self<H: Heuristic>(a: Seq<H>)
    ensures
        heuristics_follow(a, a),
{
    assert forall|i: int| 0 <= i < a.len() implies (#[trigger] a[i]).follows(&a[i]) by {
        a[i].lemma_follows_self();
    }
}

/// What heuristics have become stays what they have become when they
/// answer more questions.
pub proof fn lemma_heuristics_follow_on<H: Heuristic>(a: Seq<H>, b: Seq<H>, c: Seq<H>)
    requires
        heuristics_follow(a, b),
        heuristics_follow(b, c),
    ensures
        heuristics_follow(a, c),
{
    assert forall|i: int| 0 <= i < a.len() implies (#[trigger] a[i]).follows(&c[i]) by {
        assert(b[i].follows(&c[i]));
        a[i].lemma_follows_on(&b[i], &c[i]);
    }
}

/// What a search through landmarks has to do.
pub struct LSippConfig<'a, H: Heuristic> {
    task: Task,
    constraints: &'a ConstraintSet,
    landmarks: LandmarkSet,
    pivots: Vec<State>,
    heuristic_to_pivots: Vec<H>,
    precision: Duration,
}

impl<'a, H: Heuristic> LSippConfig<'a, H> {
    /// The task.
    pub closed spec fn task(&self) -> Task {
        self.task
    }

    /// The constraints on the agent.
    pub closed spec fn constraints(&self) -> &'a ConstraintSet {
        self.constraints
    }

    /// The landmarks, in the order in which the agent has to visit them.
    pub closed spec fn landmarks(&self) -> Seq<Constraint> {
        self.landmarks@
    }

    /// The pivots of the differential heuristic.
    pub closed spec fn pivots(&self) -> Seq<State> {
        self.pivots@
    }

    /// The heuristics to the pivots, one for each.
    pub closed spec fn heuristics(&self) -> Seq<H> {
        self.heuristic_to_pivots@
    }

    /// The shortest span of time that counts.
    pub closed spec fn precision(&self) -> Duration {
        self.precision
    }

    /// The constraints are well formed and every heuristic can be asked.
    pub open spec fn wf(&self) -> bool {
        &&& self.constraints().wf()
        &&& forall|i: int| 0 <= i < self.heuristics().len() ==> (#[trigger] self.heuristics()[i]).wf()
    }

    /// The configuration with the goal of the task as its only pivot.
    pub fn new(
        task: Task,
        constraints: &'a ConstraintSet,
        landmarks: LandmarkSet,
        heuristic: H,
        precision: Duration,
    ) -> (r: Self)
        ensures
            r.task() == task,
            r.constraints() == constraints,
            r.landmarks() == landmarks@,
            r.pivots() == seq![task.goal_state],
            r.heuristics() == seq![heuristic],
            r.precision() == precision,
    {
        let mut pivots: Vec<State> = Vec::new();
        pivots.push(task.goal_state);
        let mut heuristic_to_pivots: Vec<H> = Vec::new();
        heuristic_to_pivots.push(heuristic);
        LSippConfig { task, constraints, landmarks, pivots, heuristic_to_pivots, precision }
    }

    pub fn new_with_pivots(
        task: Task,
        constraints: &'a ConstraintSet,
        landmarks: LandmarkSet,
        pivots: Vec<State>,
        heuristic_to_pivots: Vec<H>,
        precision: Duration,
    ) -> (r: Self)
        ensures
            r.task() == task,
            r.constraints() == constraints,
            r.landmarks() == landmarks@,
            r.pivots() == pivots@,
            r.heuristics() == heuristic_to_pivots@,
            r.precision() == precision,
    {
        LSippConfig { task, constraints, landmarks, pivots, heuristic_to_pivots, precision }
    }

    /// Gives the heuristics back.
    pub fn into_heuristics(self) -> (r: Vec<H>)
        ensures
            r@ == self.heuristics(),
    {
        self.heuristic_to_pivots
    }
}

/// How often a planner with landmarks has searched, itself and through the
/// planner below it.
#[derive(Debug, Default, Clone, Copy, PartialEq, Eq, Structural)]
pub struct LSippStats {
    pub searches: usize,
    pub sipp_stats: SippStats,
}

impl LSippStats {
    /// Adds the counts of `rhs` to these.
    pub fn add_assign(&mut self, rhs: LSippStats)
        requires
            old(self).searches + rhs.searches <= usize::MAX,
            old(self).sipp_stats.searches + rhs.sipp_stats.searches <= usize::MAX,
        ensures
            final(self).searches == old(self).searches + rhs.searches,
            final(self).sipp_stats.searches == old(self).sipp_stats.searches + rhs.sipp_stats.searches,
    {
        self.searches += rhs.searches;
        self.sipp_stats.searches += rhs.sipp_stats.searches;
    }
}

/// How often the planner below searches for one task of the planner with
/// landmarks: once for each landmark and once for the goal, but not for the
/// first of them where the agent may not be in its initial state at its
/// initial time.
pub open spec fn segments(constraints: &ConstraintSet, task: Task, landmarks: Seq<Constraint>) -> nat {
    if blocked(constraints.state_bucket(task.initial_state), task.initial_cost as int) {
        landmarks.len()
    } else {
        landmarks.len() + 1
    }
}

/// Whether `solution` does what the configuration asks for: it is a path that
/// the agent can follow under the constraints, from the initial state at the
/// initial time, through every landmark, to the goal, where the agent may
/// then stay for good.
pub open spec fn lsipp_solves<TS: TransitionSystem>(
    ts: &TS,
    constraints: &ConstraintSet,
    task: Task,
    landmarks: Seq<Constraint>,
    solution: Solution<SippState>,
) -> bool {
    &&& solution.valid(ts, constraints)
    &&& solution.states@[0].internal_state == task.initial_state
    &&& solution.costs@[0] == task.initial_cost
    &&& solution.states@.last().internal_state == task.goal_state
    &&& solution.states@.last().safe_interval.end == u64::MAX
    &&& visits_landmarks(solution.states@, solution.costs@, landmarks)
}

/// Whether no path that the agent can follow from the initial state of the
/// task to its goal ends before `t`.
pub open spec fn least_end<TS: TransitionSystem>(
    ts: &TS,
    constraints: &ConstraintSet,
    task: Task,
    t: Time,
) -> bool {
    forall|states: Seq<SippState>, costs: Seq<Time>, actions: Seq<Action>|
        #[trigger] plan_of_task(ts, constraints, task, Interval::whole(), states, costs, actions) ==> t
            <= costs.last()
}

/// Whether the agent is left without a path: where there is any path that
/// it can follow from the initial state of the task to its goal, one of
/// those that end first ends in a safe interval in which the agent cannot
/// stay for good.
pub open spec fn stranded<TS: TransitionSystem>(ts: &TS, constraints: &ConstraintSet, task: Task) -> bool {
    (exists|states: Seq<SippState>, costs: Seq<Time>, actions: Seq<Action>|
        #[trigger] plan_of_task(ts, constraints, task, Interval::whole(), states, costs, actions))
        ==> exists|other_states: Seq<SippState>, c2: Seq<Time>, a2: Seq<Action>|
        #[trigger] plan_of_task(ts, constraints, task, Interval::whole(), other_states, c2, a2)
            && least_end(ts, constraints, task, c2.last()) && other_states.last().safe_interval.end
            != u64::MAX
}

/// Whether `found` is what is to be found for a task without landmarks:
/// no path that the agent can follow from the initial state to the goal ends
/// before the one that was found; and where none was found the agent is left
/// without a path. This is claimed where the initial state is a state of the
/// system and the bounds are admissible.
pub open spec fn lsipp_best<TS: TransitionSystem>(
    ts: &TS,
    constraints: &ConstraintSet,
    task: Task,
    hv: spec_fn(State) -> Option<Duration>,
    found: Option<Solution<SippState>>,
) -> bool {
    admissible_for(ts, constraints, task, Interval::whole(), hv) && task.initial_state < ts.n_states()
        ==> match found {
        Some(solution) => least_end(ts, constraints, task, solution.costs@.last()),
        None => stranded(ts, constraints, task),
    }
}

/// Where nothing is forbidden and no landmark is set, the path that the
/// planner finds takes the time of the shortest walk from the initial state
/// to the goal; it finds none where there is no walk or the clock does not
/// reach that far. This holds where the initial state is a state of the
/// system and the bounds are admissible for the goal.
pub proof fn lemma_lsipp_unconstrained_cost<TS: TransitionSystem>(
    ts: &TS,
    constraints: &ConstraintSet,
    task: Task,
    hv: spec_fn(State) -> Option<Duration>,
    found: Option<Solution<SippState>>,
)
    requires
        unconstrained(constraints),
        task.initial_state < ts.n_states(),
        walk_admissible(ts, task.goal_state, hv),
        lsipp_best(ts, constraints, task, hv, found),
        found.is_some() ==> lsipp_solves(
            ts,
            constraints,
            task,
            Seq::<Constraint>::empty(),
            found.unwrap(),
        ),
    ensures
        costs_the_shortest(ts, task, found),
{
    let whole = Interval::whole();
    lemma_walk_admissible(ts, constraints, task, whole, hv);
    assert(best_of_task(ts, constraints, task, whole, hv, found)) by {
        assert forall|states: Seq<SippState>, costs: Seq<Time>, actions: Seq<Action>|
            #[trigger] plan_of_task(ts, constraints, task, whole, states, costs, actions) implies found.is_some()
            && found.unwrap().costs@.last() <= costs.last() by {
            if found.is_none() {
                let (other_states, c2, a2) = choose|other_states: Seq<SippState>, c2: Seq<Time>, a2: Seq<Action>|
                    #[trigger] plan_of_task(ts, constraints, task, whole, other_states, c2, a2) && least_end(
                        ts,
                        constraints,
                        task,
                        c2.last(),
                    ) && other_states.last().safe_interval.end != u64::MAX;
                assert(stop_ok(constraints, other_states.last(), c2.last()));
            }
        }
    }
    lemma_unconstrained_cost(ts, constraints, task, hv, found);
}

/// Whether `states`, `costs` and `actions` make up a path that the agent can
/// follow from the initial state of the task to its goal, and `marks` names
/// the steps at which it visits the landmarks.
pub open spec fn landmark_path<TS: TransitionSystem>(
    ts: &TS,
    constraints: &ConstraintSet,
    task: Task,
    landmarks: Seq<Constraint>,
    states: Seq<SippState>,
    costs: Seq<Time>,
    actions: Seq<Action>,
    marks: Seq<int>,
) -> bool {
    &&& plan_of_task(ts, constraints, task, Interval::whole(), states, costs, actions)
    &&& marks_ok(states, costs, landmarks, marks)
}

/// Whether the path is at each landmark in a safe interval that begins no
/// earlier than the interval of the landmark: every arrival in that safe
/// interval then counts as a visit, as far as its beginning goes.
pub open spec fn marks_count(states: Seq<SippState>, landmarks: Seq<Constraint>, marks: Seq<int>) -> bool {
    forall|m: int|
        0 <= m < marks.len() && m < landmarks.len() ==> states[#[trigger] marks[m]].safe_interval.start
            >= landmarks[m].interval.start
}

/// Whether `states`, `costs` and `actions` make up a path through the
/// landmarks that is at each landmark in a safe interval that begins no
/// earlier than the interval of the landmark. Every path through landmarks
/// whose intervals begin with time is such a path.
pub open spec fn landmark_plan<TS: TransitionSystem>(
    ts: &TS,
    constraints: &ConstraintSet,
    task: Task,
    landmarks: Seq<Constraint>,
    states: Seq<SippState>,
    costs: Seq<Time>,
    actions: Seq<Action>,
    marks: Seq<int>,
) -> bool {
    &&& landmark_path(ts, constraints, task, landmarks, states, costs, actions, marks)
    &&& marks_count(states, landmarks, marks)
}

/// Whether the bounds are admissible for the goal of the task and for every
/// landmark, as the goal of the way to it, and the task begins in a state
/// of the system.
pub open spec fn landmarks_fit<TS: TransitionSystem, H: Heuristic>(
    ts: &TS,
    task: Task,
    landmarks: Seq<Constraint>,
    pivots: Seq<State>,
    heuristics: Seq<H>,
) -> bool {
    &&& task.initial_state < ts.n_states()
    &&& walk_admissible(ts, task.goal_state, differential_bounds(task.goal_state, pivots, heuristics))
    &&& forall|m: int|
        0 <= m < landmarks.len() ==> walk_admissible(
            ts,
            (#[trigger] landmarks[m]).state,
            differential_bounds(landmarks[m].state, pivots, heuristics),
        )
}

/// Bounds that fit the landmarks still fit them when the heuristics have
/// answered questions.
proof fn lemma_landmarks_fit_follow<TS: TransitionSystem, H: Heuristic>(
    ts: &TS,
    task: Task,
    landmarks: Seq<Constraint>,
    pivots: Seq<State>,
    before: Seq<H>,
    after: Seq<H>,
)
    requires
        landmarks_fit(ts, task, landmarks, pivots, before),
        heuristics_follow(after, before),
    ensures
        landmarks_fit(ts, task, landmarks, pivots, after),
{
    lemma_bounds_same(ts, task.goal_state, pivots, before, after);
    assert forall|m: int| 0 <= m < landmarks.len() implies walk_admissible(
        ts,
        (#[trigger] landmarks[m]).state,
        differential_bounds(landmarks[m].state, pivots, after),
    ) by {
        lemma_bounds_same(ts, landmarks[m].state, pivots, before, after);
    }
}

/// Bounds that are admissible for a goal still are when the heuristics have
/// answered questions.
proof fn lemma_bounds_same<TS: TransitionSystem, H: Heuristic>(
    ts: &TS,
    goal: State,
    pivots: Seq<State>,
    before: Seq<H>,
    after: Seq<H>,
)
    requires
        heuristics_follow(after, before),
        walk_admissible(ts, goal, differential_bounds(goal, pivots, before)),
    ensures
        walk_admissible(ts, goal, differential_bounds(goal, pivots, after)),
{
    let count: nat = if pivots.len() <= before.len() {
        pivots.len()
    } else {
        before.len()
    };
    assert forall|i: int, s: State| 0 <= i < count implies #[trigger] after[i].value(s) == before[i].value(
        s,
    ) by {
        assert(after[i].follows(&before[i]));
        after[i].lemma_follows_value(&before[i], s);
    }
    let old_bounds = differential_bounds(goal, pivots, before);
    let new_bounds = differential_bounds(goal, pivots, after);
    assert forall|state: State, cost: int| #[trigger]
        crate::transition::connected(ts, state, goal, cost) && cost <= u64::MAX implies new_bounds(
        state,
    ).is_some() && new_bounds(state).unwrap() <= cost by {
        crate::search::lemma_differential_same(goal, pivots, after, before, state, count);
        assert(new_bounds(state) == old_bounds(state));
    }
}

/// Whether one of the landings is in the safe interval `z`, no later than
/// `t`.
spec fn landed(states: Seq<SippState>, times: Seq<Time>, z: SippState, t: Time) -> bool {
    exists|q: int| 0 <= q < states.len() && q < times.len() && #[trigger] states[q] == z && times[q] <= t
}

/// Whether the agent may be in each of the landings at its time, a state of
/// the system.
spec fn landings_ok<TS: TransitionSystem>(
    ts: &TS,
    constraints: &ConstraintSet,
    states: Seq<SippState>,
    times: Seq<Time>,
) -> bool {
    forall|q: int|
        0 <= q < states.len() && q < times.len() ==> stop_ok(constraints, #[trigger] states[q], times[q])
            && states[q].internal_state < ts.n_states()
}

/// Whether every path of the task through the landmarks is at the landmark
/// `level` in the safe interval of one of the landings, no earlier than that
/// landing.
spec fn landings_cover<TS: TransitionSystem>(
    ts: &TS,
    constraints: &ConstraintSet,
    task: Task,
    landmarks: Seq<Constraint>,
    level: int,
    landing_states: Seq<SippState>,
    landing_times: Seq<Time>,
) -> bool {
    forall|states: Seq<SippState>, costs: Seq<Time>, actions: Seq<Action>, marks: Seq<int>|
        #[trigger] landmark_plan(ts, constraints, task, landmarks, states, costs, actions, marks)
            ==> landed(landing_states, landing_times, states[marks[level]], costs[marks[level]])
}

/// Bounds that are admissible for the goal of a task are admissible for the
/// generalized task with that goal.
proof fn lemma_admissible_task<TS: TransitionSystem>(
    ts: &TS,
    constraints: &ConstraintSet,
    task: Task,
    interval: Interval,
    sipp_task: &SippTask,
    hv: spec_fn(State) -> Option<Duration>,
)
    requires
        walk_admissible(ts, task.goal_state, hv),
        sipp_task.goal_state() == (SippState { safe_interval: interval, internal_state: task.goal_state }),
        sipp_task.internal_task() == task,
    ensures
        admissible(ts, constraints, sipp_task, hv),
{
    lemma_walk_admissible(ts, constraints, task, interval, hv);
    assert forall|states: Seq<SippState>, costs: Seq<Time>, actions: Seq<Action>|
        #[trigger] valid_plan(ts, constraints, states, costs, actions) && sipp_task.reached(
            states.last(),
            costs.last(),
        ) implies hv(states[0].internal_state).is_some() && costs[0] + hv(
        states[0].internal_state,
    ).unwrap() <= costs.last() by {}
}

/// The part of a path from one of the landings to a later step at which the
/// agent is in the goal of the generalized task, within the interval of the
/// goal, is a path of the generalized task that starts from the landings.
proof fn lemma_part_to_goal<TS: TransitionSystem>(
    ts: &TS,
    constraints: &ConstraintSet,
    sipp_task: &SippTask,
    states: Seq<SippState>,
    costs: Seq<Time>,
    actions: Seq<Action>,
    from: int,
    to: int,
)
    requires
        valid_plan(ts, constraints, states, costs, actions),
        0 <= from <= to < states.len(),
        landings_ok(ts, constraints, sipp_task.initial_states(), sipp_task.initial_times()),
        landed(sipp_task.initial_states(), sipp_task.initial_times(), states[from], costs[from]),
        counts_from(sipp_task, states[to]),
        sipp_task.goal_state().safe_interval.end >= costs[to],
        sipp_task.internal_task().goal_reached(states[to].internal_state),
    ensures
        exists|part_states: Seq<SippState>, part_costs: Seq<Time>, part_actions: Seq<Action>|
            #[trigger] plan_to_goal(ts, constraints, sipp_task, part_states, part_costs, part_actions)
                && part_states.last() == states[to] && part_costs.last() <= costs[to],
{
    let q = choose|q: int|
        0 <= q < sipp_task.initial_states().len() && q < sipp_task.initial_times().len()
            && #[trigger] sipp_task.initial_states()[q] == states[from] && sipp_task.initial_times()[q]
            <= costs[from];
    let ready = sipp_task.initial_times()[q];
    lemma_plan_part(ts, constraints, states, costs, actions, from, to, ready);
    let part_states = states.subrange(from, to + 1);
    let part_costs = costs.subrange(from, to + 1).update(0, ready);
    let part_actions = actions.subrange(from, to);
    assert(sipp_task.starts_at(part_states[0], part_costs[0]));
    assert(stop_ok(constraints, part_states.last(), part_costs.last()));
    assert(plan_to_goal(ts, constraints, sipp_task, part_states, part_costs, part_actions)
        && part_states.last() == states[to] && part_costs.last() <= costs[to]);
}

/// Whether every path of the task through the landmarks is at the landmark
/// `level` in the safe interval in which one of the solutions ends, no
/// earlier than that solution.
spec fn solutions_cover<TS: TransitionSystem>(
    ts: &TS,
    constraints: &ConstraintSet,
    task: Task,
    landmarks: Seq<Constraint>,
    level: int,
    solutions: Seq<Solution<SippState>>,
) -> bool {
    forall|states: Seq<SippState>, costs: Seq<Time>, actions: Seq<Action>, marks: Seq<int>|
        #[trigger] landmark_plan(ts, constraints, task, landmarks, states, costs, actions, marks)
            ==> reaches_as_early(solutions, states[marks[level]], costs[marks[level]])
}

/// The solutions of the search to the first landmark cover every path
/// through the landmarks.
proof fn lemma_first_cover<TS: TransitionSystem>(
    ts: &TS,
    constraints: &ConstraintSet,
    task: Task,
    landmarks: Seq<Constraint>,
    sipp_task: &SippTask,
    hv: spec_fn(State) -> Option<Duration>,
    solutions: Seq<Solution<SippState>>,
)
    requires
        landmarks.len() > 0,
        task.initial_state < ts.n_states(),
        single_start(
            constraints,
            Task {
                initial_state: task.initial_state,
                goal_state: landmarks[0].state,
                initial_cost: task.initial_cost,
            },
            landmarks[0].interval,
            *sipp_task,
        ),
        admissible(ts, constraints, sipp_task, hv),
        every_goal(ts, constraints, sipp_task, hv, solutions),
    ensures
        solutions_cover(ts, constraints, task, landmarks, 0, solutions),
{
    assert forall|states: Seq<SippState>, costs: Seq<Time>, actions: Seq<Action>, marks: Seq<int>|
        #[trigger] landmark_plan(
            ts,
            constraints,
            task,
            landmarks,
            states,
            costs,
            actions,
            marks,
        ) implies reaches_as_early(solutions, states[marks[0]], costs[marks[0]]) by {
        let first = sipp_task.initial_states()[0];
        let to = marks[0];
        assert(stop_ok(constraints, states[0], costs[0]));
        crate::plans::lemma_safe_interval_unique(
            constraints,
            task.initial_state,
            first.safe_interval,
            states[0].safe_interval,
            task.initial_cost as int,
        );
        assert(first == states[0]);
        assert(sipp_task.initial_times()[0] == costs[0]);
        assert(landed(sipp_task.initial_states(), sipp_task.initial_times(), states[0], costs[0]));
        assert(stop_ok(constraints, states[to], costs[to]));
        lemma_part_to_goal(ts, constraints, sipp_task, states, costs, actions, 0, to);
        let (part_states, part_costs, part_actions) = choose|
            part_states: Seq<SippState>,
            part_costs: Seq<Time>,
            part_actions: Seq<Action>,
        |
            #[trigger] plan_to_goal(ts, constraints, sipp_task, part_states, part_costs, part_actions)
                && part_states.last() == states[to] && part_costs.last() <= costs[to];
        assert(reaches_as_early(solutions, part_states.last(), part_costs.last()));
        let k = choose|k: int|
            0 <= k < solutions.len() && (#[trigger] solutions[k]).states@.last() == part_states.last()
                && solutions[k].costs@.last() <= part_costs.last();
        assert(solutions[k].states@.last() == states[to] && solutions[k].costs@.last() <= costs[to]);
    }
}

/// The solutions of the search from the landings at one landmark to the
/// next cover every path through the landmarks.
proof fn lemma_next_cover<TS: TransitionSystem>(
    ts: &TS,
    constraints: &ConstraintSet,
    task: Task,
    landmarks: Seq<Constraint>,
    level: int,
    sipp_task: &SippTask,
    hv: spec_fn(State) -> Option<Duration>,
    solutions: Seq<Solution<SippState>>,
)
    requires
        0 < level < landmarks.len(),
        landings_ok(ts, constraints, sipp_task.initial_states(), sipp_task.initial_times()),
        landings_cover(
            ts,
            constraints,
            task,
            landmarks,
            level - 1,
            sipp_task.initial_states(),
            sipp_task.initial_times(),
        ),
        sipp_task.goal_state() == (SippState {
            safe_interval: landmarks[level].interval,
            internal_state: landmarks[level].state,
        }),
        sipp_task.internal_task().goal_state == landmarks[level].state,
        admissible(ts, constraints, sipp_task, hv),
        every_goal(ts, constraints, sipp_task, hv, solutions),
    ensures
        solutions_cover(ts, constraints, task, landmarks, level, solutions),
{
    assert forall|states: Seq<SippState>, costs: Seq<Time>, actions: Seq<Action>, marks: Seq<int>|
        #[trigger] landmark_plan(
            ts,
            constraints,
            task,
            landmarks,
            states,
            costs,
            actions,
            marks,
        ) implies reaches_as_early(solutions, states[marks[level]], costs[marks[level]]) by {
        let from = marks[level - 1];
        let to = marks[level];
        assert(landed(sipp_task.initial_states(), sipp_task.initial_times(), states[from], costs[from]));
        lemma_part_to_goal(ts, constraints, sipp_task, states, costs, actions, from, to);
        let (part_states, part_costs, part_actions) = choose|
            part_states: Seq<SippState>,
            part_costs: Seq<Time>,
            part_actions: Seq<Action>,
        |
            #[trigger] plan_to_goal(ts, constraints, sipp_task, part_states, part_costs, part_actions)
                && part_states.last() == states[to] && part_costs.last() <= costs[to];
        assert(reaches_as_early(solutions, part_states.last(), part_costs.last()));
        let k = choose|k: int|
            0 <= k < solutions.len() && (#[trigger] solutions[k]).states@.last() == part_states.last()
                && solutions[k].costs@.last() <= part_costs.last();
        assert(solutions[k].states@.last() == states[to] && solutions[k].costs@.last() <= costs[to]);
    }
}

/// Whether the one solution ends no later than any path of the task through
/// the landmarks.
spec fn solution_least<TS: TransitionSystem>(
    ts: &TS,
    constraints: &ConstraintSet,
    task: Task,
    landmarks: Seq<Constraint>,
    solutions: Seq<Solution<SippState>>,
) -> bool {
    forall|states: Seq<SippState>, costs: Seq<Time>, actions: Seq<Action>, marks: Seq<int>|
        #[trigger] landmark_plan(ts, constraints, task, landmarks, states, costs, actions, marks)
            ==> solutions.len() == 1 && solutions[0].costs@.last() <= costs.last()
}

/// The solution of the search from the landings at the last landmark to the
/// goal ends no later than any path through the landmarks.
proof fn lemma_last_cover<TS: TransitionSystem>(
    ts: &TS,
    constraints: &ConstraintSet,
    task: Task,
    landmarks: Seq<Constraint>,
    sipp_task: &SippTask,
    hv: spec_fn(State) -> Option<Duration>,
    solutions: Seq<Solution<SippState>>,
)
    requires
        landmarks.len() > 0,
        landings_ok(ts, constraints, sipp_task.initial_states(), sipp_task.initial_times()),
        landings_cover(
            ts,
            constraints,
            task,
            landmarks,
            landmarks.len() - 1,
            sipp_task.initial_states(),
            sipp_task.initial_times(),
        ),
        sipp_task.goal_state() == (SippState {
            safe_interval: Interval::whole(),
            internal_state: task.goal_state,
        }),
        sipp_task.internal_task().goal_state == task.goal_state,
        admissible(ts, constraints, sipp_task, hv),
        best_of_all(ts, constraints, sipp_task, hv, solutions),
    ensures
        solution_least(ts, constraints, task, landmarks, solutions),
{
    assert forall|states: Seq<SippState>, costs: Seq<Time>, actions: Seq<Action>, marks: Seq<int>|
        #[trigger] landmark_plan(
            ts,
            constraints,
            task,
            landmarks,
            states,
            costs,
            actions,
            marks,
        ) implies solutions.len() == 1 && solutions[0].costs@.last() <= costs.last() by {
        let from = marks[landmarks.len() - 1];
        let to = states.len() - 1;
        assert(landed(sipp_task.initial_states(), sipp_task.initial_times(), states[from], costs[from]));
        lemma_part_to_goal(ts, constraints, sipp_task, states, costs, actions, from, to);
    }
}

/// Where the solutions cover the paths through the landmarks, so do the
/// landings at which the solutions end.
proof fn lemma_landings_cover<TS: TransitionSystem>(
    ts: &TS,
    constraints: &ConstraintSet,
    task: Task,
    landmarks: Seq<Constraint>,
    level: int,
    solutions: Seq<Solution<SippState>>,
    landing_states: Seq<SippState>,
    landing_times: Seq<Time>,
)
    requires
        solutions_cover(ts, constraints, task, landmarks, level, solutions),
        landing_states.len() == solutions.len(),
        landing_times.len() == solutions.len(),
        forall|k: int|
            #![trigger landing_states[k]]
            #![trigger landing_times[k]]
            0 <= k < solutions.len() ==> landing_states[k] == solutions[k].states@.last() && landing_times[k]
                == solutions[k].costs@.last(),
    ensures
        landings_cover(ts, constraints, task, landmarks, level, landing_states, landing_times),
{
    assert forall|states: Seq<SippState>, costs: Seq<Time>, actions: Seq<Action>, marks: Seq<int>|
        #[trigger] landmark_plan(
            ts,
            constraints,
            task,
            landmarks,
            states,
            costs,
            actions,
            marks,
        ) implies landed(landing_states, landing_times, states[marks[level]], costs[marks[level]]) by {
        assert(reaches_as_early(solutions, states[marks[level]], costs[marks[level]]));
        let k = choose|k: int|
            0 <= k < solutions.len() && (#[trigger] solutions[k]).states@.last() == states[marks[level]]
                && solutions[k].costs@.last() <= costs[marks[level]];
        assert(landing_states[k] == solutions[k].states@.last());
        assert(landing_times[k] <= costs[marks[level]]);
    }
}

/// Whether no path that the agent can follow from the initial state of the
/// task through the landmarks to its goal ends before `t`.
pub open spec fn least_end_through<TS: TransitionSystem>(
    ts: &TS,
    constraints: &ConstraintSet,
    task: Task,
    landmarks: Seq<Constraint>,
    t: Time,
) -> bool {
    forall|states: Seq<SippState>, costs: Seq<Time>, actions: Seq<Action>, marks: Seq<int>|
        #[trigger] landmark_plan(ts, constraints, task, landmarks, states, costs, actions, marks) ==> t
            <= costs.last()
}

/// Whether `found` is what is to be found for a task with landmarks: no path
/// that the agent can follow from the initial state through the landmarks to
/// the goal, at each landmark in a safe interval that begins no earlier than
/// the interval of the landmark, ends before the one that was found; and
/// where none was found though there is such a path, a path through the
/// landmarks that ends no later than any of them ends in a safe interval in
/// which the agent cannot stay for good.
pub open spec fn lsipp_best_through<TS: TransitionSystem>(
    ts: &TS,
    constraints: &ConstraintSet,
    task: Task,
    landmarks: Seq<Constraint>,
    found: Option<Solution<SippState>>,
) -> bool {
    match found {
        Some(solution) => least_end_through(ts, constraints, task, landmarks, solution.costs@.last()),
        None => (exists|states: Seq<SippState>, costs: Seq<Time>, actions: Seq<Action>, marks: Seq<int>|
            #[trigger] landmark_plan(ts, constraints, task, landmarks, states, costs, actions, marks))
            ==> exists|other_states: Seq<SippState>, c2: Seq<Time>, a2: Seq<Action>, other_marks: Seq<int>|
            #[trigger] landmark_path(ts, constraints, task, landmarks, other_states, c2, a2, other_marks)
                && least_end_through(ts, constraints, task, landmarks, c2.last())
                && other_states.last().safe_interval.end != u64::MAX,
    }
}

/// What the planner finds costs the same on every run: of two runs of one
/// task under the same constraints, where each has found what is best,
/// either both find a path, and the two paths end at the same time, or
/// neither finds one. This holds where the interval of every landmark
/// begins with time.
pub proof fn lemma_lsipp_same_cost<TS: TransitionSystem>(
    ts: &TS,
    constraints: &ConstraintSet,
    task: Task,
    landmarks: Seq<Constraint>,
    one: Option<Solution<SippState>>,
    other: Option<Solution<SippState>>,
)
    requires
        forall|m: int| 0 <= m < landmarks.len() ==> (#[trigger] landmarks[m]).interval.start == 0,
        lsipp_best_through(ts, constraints, task, landmarks, one),
        lsipp_best_through(ts, constraints, task, landmarks, other),
        one.is_some() ==> lsipp_solves(ts, constraints, task, landmarks, one.unwrap()),
        other.is_some() ==> lsipp_solves(ts, constraints, task, landmarks, other.unwrap()),
    ensures
        one.is_some() == other.is_some(),
        one.is_some() ==> one.unwrap().costs@.last() == other.unwrap().costs@.last(),
{
    if one.is_some() {
        lemma_found_again(ts, constraints, task, landmarks, one.unwrap(), other);
    }
    if other.is_some() {
        lemma_found_again(ts, constraints, task, landmarks, other.unwrap(), one);
    }
}

/// Where one run has found a path, another run finds one too, which ends no
/// later.
proof fn lemma_found_again<TS: TransitionSystem>(
    ts: &TS,
    constraints: &ConstraintSet,
    task: Task,
    landmarks: Seq<Constraint>,
    found: Solution<SippState>,
    other: Option<Solution<SippState>>,
)
    requires
        forall|m: int| 0 <= m < landmarks.len() ==> (#[trigger] landmarks[m]).interval.start == 0,
        lsipp_best_through(ts, constraints, task, landmarks, Some(found)),
        lsipp_best_through(ts, constraints, task, landmarks, other),
        lsipp_solves(ts, constraints, task, landmarks, found),
    ensures
        other.is_some(),
        other.unwrap().costs@.last() <= found.costs@.last(),
{
    let whole = Interval::whole();
    let marks = choose|marks: Seq<int>| marks_ok(found.states@, found.costs@, landmarks, marks);
    assert(plan_of_task(ts, constraints, task, whole, found.states@, found.costs@, found.actions@));
    assert(marks_count(found.states@, landmarks, marks)) by {
        assert forall|m: int| 0 <= m < marks.len() && m < landmarks.len() implies found.states@[
            #[trigger] marks[m]
        ].safe_interval.start >= landmarks[m].interval.start by {
            assert(landmarks[m].interval.start == 0);
        }
    }
    assert(landmark_plan(
        ts,
        constraints,
        task,
        landmarks,
        found.states@,
        found.costs@,
        found.actions@,
        marks,
    ));
    if other.is_none() {
        let (other_states, c2, a2, other_marks) = choose|
            other_states: Seq<SippState>,
            c2: Seq<Time>,
            a2: Seq<Action>,
            other_marks: Seq<int>,
        | #[trigger]
            landmark_path(ts, constraints, task, landmarks, other_states, c2, a2, other_marks)
                && least_end_through(ts, constraints, task, landmarks, c2.last())
                && other_states.last().safe_interval.end != u64::MAX;
        assert(marks_count(other_states, landmarks, other_marks)) by {
            assert forall|m: int| 0 <= m < other_marks.len() && m < landmarks.len() implies other_states[
                #[trigger] other_marks[m]
            ].safe_interval.start >= landmarks[m].interval.start by {
                assert(landmarks[m].interval.start == 0);
            }
        }
        assert(landmark_plan(ts, constraints, task, landmarks, other_states, c2, a2, other_marks));
        assert(found.costs@.last() <= c2.last());
        assert(c2.last() <= found.costs@.last());
        assert(stop_ok(constraints, other_states.last(), c2.last()));
        assert(stop_ok(constraints, found.states@.last(), found.costs@.last()));
        lemma_safe_interval_unique(
            constraints,
            task.goal_state,
            other_states.last().safe_interval,
            found.states@.last().safe_interval,
            c2.last() as int,
        );
    }
}

/// Whether a path was found that ends no later than any path of the task
/// through the landmarks, if there is any such path.
spec fn found_least<TS: TransitionSystem>(
    ts: &TS,
    constraints: &ConstraintSet,
    task: Task,
    landmarks: Seq<Constraint>,
    found: Option<Solution<SippState>>,
) -> bool {
    forall|states: Seq<SippState>, costs: Seq<Time>, actions: Seq<Action>, marks: Seq<int>|
        #[trigger] landmark_plan(ts, constraints, task, landmarks, states, costs, actions, marks)
            ==> found.is_some() && found.unwrap().costs@.last() <= costs.last()
}

/// Whether `found` is what a search for the generalized task `segment` has
/// returned under the bounds `hv`: every path of `found` is a path of the
/// task; where one path was asked for there is at most one, which is the
/// best of all, and else there is a path to every safe interval of the
/// goal. What is best and what is every interval is claimed as the planner
/// below claims it.
spec fn searched<TS: TransitionSystem>(
    ts: &TS,
    constraints: &ConstraintSet,
    segment: SippTask,
    hv: spec_fn(State) -> Option<Duration>,
    single_path: bool,
    found: Seq<Solution<SippState>>,
) -> bool {
    &&& forall|k: int| 0 <= k < found.len() ==> solves(ts, constraints, &segment, #[trigger] found[k])
    &&& single_path ==> found.len() <= 1 && best_of_all(ts, constraints, &segment, hv, found)
    &&& !single_path ==> every_goal(ts, constraints, &segment, hv, found)
}

/// Whether the landings are where and when the paths of `found` end, one
/// for one.
spec fn landings_of(found: Seq<Solution<SippState>>, states: Seq<SippState>, times: Seq<Time>) -> bool {
    &&& states.len() == found.len()
    &&& times.len() == found.len()
    &&& forall|k: int|
        #![trigger states[k]]
        #![trigger times[k]]
        0 <= k < found.len() ==> states[k] == found[k].states@.last() && times[k] == found[k].costs@.last()
}

/// Whether `segment` is the task from the places `starts` at the times
/// `times` to the state `goal`, there to arrive within `interval`.
spec fn segment_to(
    segment: SippTask,
    starts: Seq<SippState>,
    times: Seq<Time>,
    goal: State,
    interval: Interval,
    internal: Task,
) -> bool {
    &&& segment.initial_states() == starts
    &&& segment.initial_times() == times
    &&& segment.goal_state() == (SippState { safe_interval: interval, internal_state: goal })
    &&& segment.internal_task() == internal
}

/// What a search has returned under some bounds it has returned under
/// bounds that are the same for every state.
proof fn lemma_searched_same<TS: TransitionSystem>(
    ts: &TS,
    constraints: &ConstraintSet,
    segment: SippTask,
    one: spec_fn(State) -> Option<Duration>,
    other: spec_fn(State) -> Option<Duration>,
    single_path: bool,
    found: Seq<Solution<SippState>>,
)
    requires
        forall|x: State| #[trigger] one(x) == other(x),
        searched(ts, constraints, segment, one, single_path, found),
    ensures
        searched(ts, constraints, segment, other, single_path, found),
{
    if admissible(ts, constraints, &segment, other) {
        assert forall|states: Seq<SippState>, costs: Seq<Time>, actions: Seq<Action>|
            #[trigger] valid_plan(ts, constraints, states, costs, actions) && segment.reached(
                states.last(),
                costs.last(),
            ) implies one(states[0].internal_state).is_some() && costs[0] + one(
            states[0].internal_state,
        ).unwrap() <= costs.last() by {
            assert(one(states[0].internal_state) == other(states[0].internal_state));
        }
        assert(admissible(ts, constraints, &segment, one));
    }
}

/// The bounds of heuristics that have answered questions are the bounds
/// that they had.
proof fn lemma_bounds_equal<H: Heuristic>(goal: State, pivots: Seq<State>, before: Seq<H>, after: Seq<H>)
    requires
        heuristics_follow(after, before),
    ensures
        forall|x: State| #[trigger]
            differential_bounds(goal, pivots, after)(x) == differential_bounds(goal, pivots, before)(x),
{
    let count: nat = if pivots.len() <= before.len() {
        pivots.len()
    } else {
        before.len()
    };
    assert forall|i: int, s: State| 0 <= i < count implies #[trigger] after[i].value(s) == before[i].value(
        s,
    ) by {
        assert(after[i].follows(&before[i]));
        after[i].lemma_follows_value(&before[i], s);
    }
    assert forall|x: State| #[trigger]
        differential_bounds(goal, pivots, after)(x) == differential_bounds(goal, pivots, before)(x) by {
        crate::search::lemma_differential_same(goal, pivots, after, before, x, count);
    }
}

/// Whether the landings are what the search to the landmark `level`, which
/// is not the first, has returned: the search went from the landings that
/// are filed under the landmark before it to the state of the landmark,
/// there to arrive within its interval.
spec fn level_searched<TS: TransitionSystem, H: Heuristic>(
    ts: &TS,
    constraints: &ConstraintSet,
    task: Task,
    landmarks: Seq<Constraint>,
    pivots: Seq<State>,
    heuristics: Seq<H>,
    level: int,
    parts: Map<PartKey, Solution<SippState>>,
    states: Seq<SippState>,
    times: Seq<Time>,
) -> bool {
    exists|segment: SippTask, found: Seq<Solution<SippState>>| #[trigger]
        searched(
            ts,
            constraints,
            segment,
            differential_bounds(landmarks[level].state, pivots, heuristics),
            false,
            found,
        ) && segment.goal_state() == (SippState {
            safe_interval: landmarks[level].interval,
            internal_state: landmarks[level].state,
        }) && segment.internal_task() == (Task {
            initial_state: landmarks[level - 1].state,
            goal_state: landmarks[level].state,
            initial_cost: task.initial_cost,
        }) && landings_filed(
            parts,
            segment.initial_states(),
            segment.initial_times(),
            (level - 1) as usize,
        ) && landings_of(found, states, times)
}

spec fn part_ok<TS: TransitionSystem>(
    ts: &TS,
    constraints: &ConstraintSet,
    task: Task,
    landmarks: Seq<Constraint>,
    parts: Map<PartKey, Solution<SippState>>,
    key: PartKey,
) -> bool {
    let part = parts[key];
    let level = key.4;
    &&& level < landmarks.len()
    &&& part.valid(ts, constraints)
    &&& part_key(part.states@.last(), part.costs@.last(), level) == key
    &&& part.states@.last().internal_state == landmarks[level as int].state
    &&& landmarks[level as int].interval.holds(part.costs@.last() as int)
    &&& if level == 0 {
        part.states@[0].internal_state == task.initial_state && part.costs@[0] == task.initial_cost
    } else {
        parts.contains_key(part_key(part.states@[0], part.costs@[0], (level - 1) as usize))
    }
}

spec fn parts_ok<TS: TransitionSystem>(
    ts: &TS,
    constraints: &ConstraintSet,
    task: Task,
    landmarks: Seq<Constraint>,
    parts: Map<PartKey, Solution<SippState>>,
    below: int,
) -> bool {
    forall|key: PartKey| #[trigger]
        parts.contains_key(key) && key.4 < below ==> part_ok(
            ts,
            constraints,
            task,
            landmarks,
            parts,
            key,
        )
}

/// Whether every landing is the end of a part that is filed under `level`.
spec fn landings_filed(
    parts: Map<PartKey, Solution<SippState>>,
    states: Seq<SippState>,
    times: Seq<Time>,
    level: usize,
) -> bool {
    &&& states.len() == times.len()
    &&& forall|q: int|
        0 <= q < states.len() ==> parts.contains_key(
            part_key(#[trigger] states[q], times[q], level),
        )
}

/// The path that follows `part` and then `rest`, which begins where `part`
/// ends.
fn join(part: Solution<SippState>, rest: Solution<SippState>) -> (r: Solution<SippState>)
    requires
        part.states@.len() >= 1,
        rest.states@.len() >= 1,
        rest.states@.len() == rest.costs@.len(),
    ensures
        r.states@ == part.states@ + rest.states@.skip(1),
        r.costs@ == part.costs@ + rest.costs@.skip(1),
        r.actions@ == part.actions@ + rest.actions@,
{
    let mut r = part;
    let mut i: usize = 1;
    while i < rest.states.len()
        invariant
            1 <= i <= rest.states.len(),
            rest.states@.len() == rest.costs@.len(),
            r.states@ == part.states@ + rest.states@.subrange(1, i as int),
            r.costs@ == part.costs@ + rest.costs@.subrange(1, i as int),
            r.actions@ == part.actions@,
        decreases rest.states.len() - i,
    {
        r.states.push(rest.states[i]);
        r.costs.push(rest.costs[i]);
        proof {
            assert(rest.states@.subrange(1, i + 1) =~= rest.states@.subrange(1, i as int).push(
                rest.states@[i as int],
            ));
            assert(rest.costs@.subrange(1, i + 1) =~= rest.costs@.subrange(1, i as int).push(
                rest.costs@[i as int],
            ));
        }
        i += 1;
    }
    proof {
        assert(rest.states@.subrange(1, i as int) =~= rest.states@.skip(1));
        assert(rest.costs@.subrange(1, i as int) =~= rest.costs@.skip(1));
    }
    let mut j: usize = 0;
    while j < rest.actions.len()
        invariant
            j <= rest.actions.len(),
            r.states@ == part.states@ + rest.states@.skip(1),
            r.costs@ == part.costs@ + rest.costs@.skip(1),
            r.actions@ == part.actions@ + rest.actions@.take(j as int),
        decreases rest.actions.len() - j,
    {
        r.actions.push(rest.actions[j]);
        proof {
            assert(rest.actions@.take(j + 1) =~= rest.actions@.take(j as int).push(
                rest.actions@[j as int],
            ));
        }
        j += 1;
    }
    proof {
        assert(rest.actions@.take(j as int) =~= rest.actions@);
    }
    r
}

/// Two valid plans of which the second begins in the state and at the time
/// in which the first ends make one valid plan.
pub proof fn lemma_join_valid<TS: TransitionSystem>(
    ts: &TS,
    constraints: &ConstraintSet,
    first_states: Seq<SippState>,
    c1: Seq<Time>,
    a1: Seq<Action>,
    other_states: Seq<SippState>,
    c2: Seq<Time>,
    a2: Seq<Action>,
)
    requires
        valid_plan(ts, constraints, first_states, c1, a1),
        valid_plan(ts, constraints, other_states, c2, a2),
        first_states.last() == other_states[0],
        c1.last() == c2[0],
    ensures
        valid_plan(ts, constraints, first_states + other_states.skip(1), c1 + c2.skip(1), a1 + a2),
{
    let s = first_states + other_states.skip(1);
    let c = c1 + c2.skip(1);
    let a = a1 + a2;
    let n = first_states.len() as int;
    assert forall|i: int| 0 <= i < s.len() implies stop_ok(constraints, #[trigger] s[i], c[i]) by {
        if i < n {
            assert(stop_ok(constraints, first_states[i], c1[i]));
        } else {
            assert(s[i] == other_states[i - n + 1]);
            assert(stop_ok(constraints, other_states[i - n + 1], c2[i - n + 1]));
        }
    }
    assert forall|i: int| 0 <= i < a.len() implies step_ok(
        ts,
        constraints,
        s[i],
        c[i],
        #[trigger] a[i],
        s[i + 1],
        c[i + 1],
    ) by {
        if i < n - 1 {
            assert(step_ok(ts, constraints, first_states[i], c1[i], a1[i], first_states[i + 1], c1[i + 1]));
        } else {
            let k = i - (n - 1);
            assert(a[i] == a2[k]);
            assert(step_ok(ts, constraints, other_states[k], c2[k], a2[k], other_states[k + 1], c2[k + 1]));
            assert(s[i] == other_states[k]);
            assert(c[i] == c2[k]);
            assert(s[i + 1] == other_states[k + 1]);
            assert(c[i + 1] == c2[k + 1]);
        }
    }
}

/// The planner of one agent that has landmarks to visit.
pub struct SafeIntervalPathPlanningWithLandmarks<'a, TS: TransitionSystem> {
    sipp: SafeIntervalPathPlanning<'a, TS>,
    solutions: Vec<Solution<SippState>>,
    solution_parts: FxHashMap<PartKey, Solution<SippState>>,
    landmark_states: Vec<SippState>,
    landmark_times: Vec<Time>,
    stats: LSippStats,
}

impl<'a, TS: TransitionSystem> SafeIntervalPathPlanningWithLandmarks<'a, TS> {
    /// The transition system that the agent moves in.
    pub closed spec fn transition_system(&self) -> &'a TS {
        self.sipp.transition_system()
    }

    /// How often the planner has searched.
    pub closed spec fn searches(&self) -> nat {
        self.stats.searches as nat
    }

    /// How often the planner below has searched.
    pub closed spec fn sipp_searches(&self) -> nat {
        self.sipp.searches()
    }

    /// Whether the parts that are filed lead the agent validly to the
    /// landmarks up to `level`, and the landings are the ends of those that
    /// lead to `level`. Nothing is filed where the agent may not be in its
    /// initial state at its initial time.
    spec fn phase_ok<'c, H: Heuristic>(&self, config: &LSippConfig<'c, H>, level: usize) -> bool {
        &&& parts_ok(
            self.sipp.transition_system(),
            config.constraints,
            config.task,
            config.landmarks@,
            self.solution_parts@,
            level + 1,
        )
        &&& forall|key: PartKey| #[trigger] self.solution_parts@.contains_key(key) ==> key.4 <= level
        &&& landings_filed(
            self.solution_parts@,
            self.landmark_states@,
            self.landmark_times@,
            level,
        )
        &&& landings_ok(
            self.sipp.transition_system(),
            config.constraints,
            self.landmark_states@,
            self.landmark_times@,
        )
        &&& blocked(
            config.constraints.state_bucket(config.task.initial_state),
            config.task.initial_cost as int,
        ) ==> self.landmark_states@.len() == 0
    }

    pub fn new(transition_system: &'a TS) -> (r: Self)
        ensures
            r.transition_system() == transition_system,
            r.searches() == 0,
            r.sipp_searches() == 0,
    {
        SafeIntervalPathPlanningWithLandmarks {
            sipp: SafeIntervalPathPlanning::new(transition_system),
            solutions: Vec::new(),
            solution_parts: parts_new(),
            landmark_states: Vec::new(),
            landmark_times: Vec::new(),
            stats: LSippStats { searches: 0, sipp_stats: SippStats { searches: 0 } },
        }
    }

    fn init(&mut self)
        ensures
            final(self).sipp == old(self).sipp,
            final(self).solutions@.len() == 0,
            final(self).solution_parts@.dom() == Set::<PartKey>::empty(),
            final(self).landmark_states@.len() == 0,
            final(self).landmark_times@.len() == 0,
            final(self).searches() == count_up(old(self).searches()),
    {
        self.solutions.clear();
        parts_clear(&mut self.solution_parts);
        self.landmark_states.clear();
        self.landmark_times.clear();
        if self.stats.searches < usize::MAX {
            self.stats.searches += 1;
        }
    }

    /// The differential heuristic of `task`, made of the heuristics of the
    /// configuration, which it takes along.
    fn get_heuristic<'c, H: Heuristic>(config: &mut LSippConfig<'c, H>, task: Task) -> (dh:
        DifferentialHeuristic<H>)
        requires
            old(config).wf(),
        ensures
            dh.wf(),
            dh.task() == task,
            dh.pivots() == old(config).pivots(),
            dh.heuristics() == old(config).heuristics(),
            final(config).heuristics().len() == 0,
            final(config).task == old(config).task,
            final(config).constraints == old(config).constraints,
            final(config).landmarks == old(config).landmarks,
            final(config).pivots == old(config).pivots,
            final(config).precision == old(config).precision,
    {
        let mut heuristics: Vec<H> = Vec::new();
        core::mem::swap(&mut config.heuristic_to_pivots, &mut heuristics);
        let dh = DifferentialHeuristic::new(task, config.pivots.clone(), heuristics);
        proof {
            assert forall|i: int| 0 <= i < dh.heuristics().len() implies (
            #[trigger] dh.heuristics()[i]).wf() by {
                assert(old(config).heuristics()[i].wf());
            }
        }
        dh
    }

    /// Hands the heuristics of `dh` back to the configuration.
    fn give_back<'c, H: Heuristic>(config: &mut LSippConfig<'c, H>, dh: DifferentialHeuristic<H>)
        requires
            dh.wf(),
            old(config).constraints.wf(),
        ensures
            final(config).wf(),
            final(config).heuristics() == dh.heuristics(),
            final(config).task == old(config).task,
            final(config).constraints == old(config).constraints,
            final(config).landmarks == old(config).landmarks,
            final(config).pivots == old(config).pivots,
            final(config).precision == old(config).precision,
    {
        let (_, mut heuristics) = dh.into_parts();
        core::mem::swap(&mut config.heuristic_to_pivots, &mut heuristics);
    }

    /// Files the solutions of the last search as the parts that lead to the
    /// landmark `level`, and notes where and when they end.
    fn store_solution_parts<'c, H: Heuristic>(&mut self, config: &LSippConfig<'c, H>, level: usize)
        requires
            level < config.landmarks@.len(),
            old(self).landmark_states@.len() == 0,
            old(self).landmark_times@.len() == 0,
            parts_ok(
                old(self).sipp.transition_system(),
                config.constraints,
                config.task,
                config.landmarks@,
                old(self).solution_parts@,
                level as int,
            ),
            forall|key: PartKey| #[trigger]
                old(self).solution_parts@.contains_key(key) ==> key.4 < level,
            forall|q: int|
                0 <= q < old(self).solutions@.len() ==> {
                    let part = #[trigger] old(self).solutions@[q];
                    &&& part.valid(old(self).sipp.transition_system(), config.constraints)
                    &&& part.states@.last().internal_state == config.landmarks@[level as int].state
                    &&& part.states@.last().internal_state < old(self).sipp.transition_system().n_states()
                    &&& config.landmarks@[level as int].interval.holds(part.costs@.last() as int)
                    &&& if level == 0 {
                        part.states@[0].internal_state == config.task.initial_state
                            && part.costs@[0] == config.task.initial_cost
                    } else {
                        old(self).solution_parts@.contains_key(
                            part_key(part.states@[0], part.costs@[0], (level - 1) as usize),
                        )
                    }
                },
            blocked(
                config.constraints.state_bucket(config.task.initial_state),
                config.task.initial_cost as int,
            ) ==> old(self).solutions@.len() == 0,
        ensures
            final(self).sipp == old(self).sipp,
            final(self).stats == old(self).stats,
            final(self).solutions@.len() == 0,
            final(self).phase_ok(config, level),
            final(self).landmark_states@.len() == old(self).solutions@.len(),
            final(self).landmark_times@.len() == old(self).solutions@.len(),
            forall|key: PartKey| #[trigger]
                old(self).solution_parts@.contains_key(key) ==> final(self).solution_parts@.contains_key(key),
            forall|k: int|
                #![trigger final(self).landmark_states@[k]]
                #![trigger final(self).landmark_times@[k]]
                0 <= k < old(self).solutions@.len() ==> final(self).landmark_states@[k] == old(self).solutions@[k].states@.last() && final(self).landmark_times@[k] == old(self).solutions@[k].costs@.last(),
    {
        let ghost ts = self.sipp.transition_system();
        let ghost all = self.solutions@;
        while self.solutions.len() > 0
            invariant
                level < config.landmarks@.len(),
                all == old(self).solutions@,
                self.landmark_states@.len() + self.solutions@.len() == all.len(),
                self.landmark_times@.len() == self.landmark_states@.len(),
                forall|q: int|
                    0 <= q < self.solutions@.len() ==> (#[trigger] self.solutions@[q]) == all[
                        self.landmark_states@.len() + q
                    ],
                forall|k: int|
                    #![trigger self.landmark_states@[k]]
                    #![trigger self.landmark_times@[k]]
                    0 <= k < self.landmark_states@.len() ==> self.landmark_states@[k]
                        == all[k].states@.last() && self.landmark_times@[k] == all[k].costs@.last(),
                landings_ok(ts, config.constraints, self.landmark_states@, self.landmark_times@),
                self.sipp == old(self).sipp,
                self.stats == old(self).stats,
                ts == self.sipp.transition_system(),
                forall|key: PartKey| #[trigger]
                    self.solution_parts@.contains_key(key) ==> key.4 <= level,
                forall|key: PartKey| #[trigger]
                    old(self).solution_parts@.contains_key(key) ==> key.4 < level,
                forall|key: PartKey| #[trigger]
                    old(self).solution_parts@.contains_key(key) ==> self.solution_parts@.contains_key(
                        key,
                    ) && self.solution_parts@[key] == old(self).solution_parts@[key],
                parts_ok(
                    ts,
                    config.constraints,
                    config.task,
                    config.landmarks@,
                    self.solution_parts@,
                    level + 1,
                ),
                landings_filed(
                    self.solution_parts@,
                    self.landmark_states@,
                    self.landmark_times@,
                    level,
                ),
                forall|q: int|
                    0 <= q < self.solutions@.len() ==> {
                        let part = #[trigger] self.solutions@[q];
                        &&& part.valid(ts, config.constraints)
                        &&& part.states@.last().internal_state == config.landmarks@[level as int].state
                        &&& part.states@.last().internal_state < ts.n_states()
                        &&& config.landmarks@[level as int].interval.holds(part.costs@.last() as int)
                        &&& if level == 0 {
                            part.states@[0].internal_state == config.task.initial_state
                                && part.costs@[0] == config.task.initial_cost
                        } else {
                            old(self).solution_parts@.contains_key(
                                part_key(part.states@[0], part.costs@[0], (level - 1) as usize),
                            )
                        }
                    },
                blocked(
                    config.constraints.state_bucket(config.task.initial_state),
                    config.task.initial_cost as int,
                ) ==> self.solutions@.len() == 0 && self.landmark_states@.len() == 0,
            decreases self.solutions.len(),
        {
            let ghost rest0 = self.solutions@;
            let ghost parts0 = self.solution_parts@;
            let ghost states0 = self.landmark_states@;
            let ghost times0 = self.landmark_times@;
            let part = self.solutions.remove(0);
            proof {
                assert(part == rest0[0]);
                assert forall|q: int| 0 <= q < self.solutions@.len() implies {
                    let p = #[trigger] self.solutions@[q];
                    &&& p.valid(ts, config.constraints)
                    &&& p.states@.last().internal_state == config.landmarks@[level as int].state
                    &&& p.states@.last().internal_state < ts.n_states()
                    &&& config.landmarks@[level as int].interval.holds(p.costs@.last() as int)
                    &&& if level == 0 {
                        p.states@[0].internal_state == config.task.initial_state && p.costs@[0]
                            == config.task.initial_cost
                    } else {
                        old(self).solution_parts@.contains_key(
                            part_key(p.states@[0], p.costs@[0], (level - 1) as usize),
                        )
                    }
                } by {
                    assert(self.solutions@[q] == rest0[q + 1]);
                }
                assert forall|q: int| 0 <= q < self.solutions@.len() implies (
                #[trigger] self.solutions@[q]) == all[states0.len() + 1 + q] by {
                    assert(self.solutions@[q] == rest0[q + 1]);
                }
                assert(part == all[states0.len() as int]);
            }
            let last: usize = part.states.len() - 1;
            let state: SippState = part.states[last];
            let cost: Time = part.costs[last];
            let key = make_key(state, cost, level);
            self.landmark_states.push(state);
            self.landmark_times.push(cost);
            parts_insert(&mut self.solution_parts, key, part);
            proof {
                let parts1 = self.solution_parts@;
                assert forall|k: PartKey| #[trigger] parts1.contains_key(k) && k.4 < level
                    + 1 implies part_ok(
                    ts,
                    config.constraints,
                    config.task,
                    config.landmarks@,
                    parts1,
                    k,
                ) by {
                    if k == key {
                    } else {
                        assert(parts0.contains_key(k));
                        assert(part_ok(
                            ts,
                            config.constraints,
                            config.task,
                            config.landmarks@,
                            parts0,
                            k,
                        ));
                    }
                }
                assert forall|q: int| 0 <= q < self.landmark_states@.len() implies parts1.contains_key(
                    part_key(#[trigger] self.landmark_states@[q], self.landmark_times@[q], level),
                ) by {
                    if q < states0.len() {
                        assert(parts0.contains_key(part_key(states0[q], times0[q], level)));
                    }
                }
                assert forall|q: int|
                    0 <= q < self.landmark_states@.len() && q < self.landmark_times@.len() implies stop_ok(
                    config.constraints,
                    #[trigger] self.landmark_states@[q],
                    self.landmark_times@[q],
                ) && self.landmark_states@[q].internal_state < ts.n_states() by {
                    if q < states0.len() {
                        assert(self.landmark_states@[q] == states0[q]);
                        assert(self.landmark_times@[q] == times0[q]);
                    }
                }
                assert forall|k: int|
                    #![trigger self.landmark_states@[k]]
                    #![trigger self.landmark_times@[k]]
                    0 <= k < self.landmark_states@.len() implies self.landmark_states@[k]
                    == all[k].states@.last() && self.landmark_times@[k] == all[k].costs@.last() by {
                    if k < states0.len() {
                        assert(self.landmark_states@[k] == states0[k]);
                        assert(self.landmark_times@[k] == times0[k]);
                    }
                }
            }
        }
    }

    /// Searches from the initial state at the initial time to the state of
    /// the first landmark, there to arrive within its interval, for a path to
    /// every safe interval. Files every path that the search returns under
    /// the place and the time at which it ends, and lists these as landings.
    /// Where the agent may not be in its initial state at its initial time
    /// nothing is searched and nothing filed.
    fn to_first_landmark<'c, H: Heuristic>(&mut self, config: &mut LSippConfig<'c, H>)
        requires
            old(self).sipp.transition_system().wf(),
            old(config).wf(),
            old(config).landmarks@.len() > 0,
            old(self).solutions@.len() == 0,
            old(self).solution_parts@.dom() == Set::<PartKey>::empty(),
            old(self).landmark_states@.len() == 0,
            old(self).landmark_times@.len() == 0,
        ensures
            final(config).wf(),
            final(config).task == old(config).task,
            final(config).constraints == old(config).constraints,
            final(config).landmarks == old(config).landmarks,
            final(config).pivots == old(config).pivots,
            final(config).precision == old(config).precision,
            heuristics_follow(final(config).heuristics(), old(config).heuristics()),
            final(self).sipp.transition_system() == old(self).sipp.transition_system(),
            final(self).stats == old(self).stats,
            final(self).solutions@.len() == 0,
            final(self).phase_ok(final(config), 0),
            final(self).sipp.searches() == if blocked(
                old(config).constraints.state_bucket(old(config).task.initial_state),
                old(config).task.initial_cost as int,
            ) {
                old(self).sipp.searches()
            } else {
                count_up(old(self).sipp.searches())
            },
            blocked(
                old(config).constraints.state_bucket(old(config).task.initial_state),
                old(config).task.initial_cost as int,
            ) ==> final(self).solution_parts@ == old(self).solution_parts@,
            !blocked(
                old(config).constraints.state_bucket(old(config).task.initial_state),
                old(config).task.initial_cost as int,
            ) ==> exists|segment: SippTask, found: Seq<Solution<SippState>>| #[trigger]
                searched(
                    old(self).sipp.transition_system(),
                    old(config).constraints,
                    segment,
                    differential_bounds(
                        old(config).landmarks@[0].state,
                        old(config).pivots@,
                        old(config).heuristics(),
                    ),
                    false,
                    found,
                ) && single_start(
                    old(config).constraints,
                    Task {
                        initial_state: old(config).task.initial_state,
                        goal_state: old(config).landmarks@[0].state,
                        initial_cost: old(config).task.initial_cost,
                    },
                    old(config).landmarks@[0].interval,
                    segment,
                ) && landings_of(found, final(self).landmark_states@, final(self).landmark_times@),
            landmarks_fit(
                old(self).sipp.transition_system(),
                old(config).task,
                old(config).landmarks@,
                old(config).pivots@,
                old(config).heuristics(),
            ) ==> landings_cover(
                old(self).sipp.transition_system(),
                old(config).constraints,
                old(config).task,
                old(config).landmarks@,
                0,
                final(self).landmark_states@,
                final(self).landmark_times@,
            ),
    {
        let ghost ts = self.sipp.transition_system();
        let ghost fit = landmarks_fit(ts, config.task, config.landmarks@, config.pivots@, config.heuristics());
        let task = Task::new(
            config.task.initial_state,
            config.landmarks[0].state,
            config.task.initial_cost,
        );
        let interval: Interval = config.landmarks[0].interval;
        let ghost h0 = config.heuristics();
        let dh = Self::get_heuristic(config, task);
        let ghost dh0 = dh;
        let sipp_config = SippConfig::new(task, interval, config.constraints, dh);
        match self.sipp.to_generalized(sipp_config, false) {
            Ok(generalized) => {
                let mut generalized = generalized;
                let ghost sipp_task = generalized.task();
                self.solutions = self.sipp.solve_generalized(&mut generalized);
                let dh1 = generalized.into_heuristic();
                proof {
                    assert(dh1.follows(&dh0));
                    assert(heuristics_follow(dh1.heuristics(), h0));
                }
                Self::give_back(config, dh1);
                proof {
                    assert forall|q: int| 0 <= q < self.solutions@.len() implies {
                        let part = #[trigger] self.solutions@[q];
                        &&& part.valid(self.sipp.transition_system(), config.constraints)
                        &&& part.states@.last().internal_state == config.landmarks@[0].state
                        &&& part.states@.last().internal_state < ts.n_states()
                        &&& config.landmarks@[0].interval.holds(part.costs@.last() as int)
                        &&& part.states@[0].internal_state == config.task.initial_state
                        &&& part.costs@[0] == config.task.initial_cost
                    } by {
                        let part = self.solutions@[q];
                        assert(solves(
                            self.sipp.transition_system(),
                            config.constraints,
                            &sipp_task,
                            part,
                        ));
                    }
                    if fit {
                        let hv = bounds_of(dh0);
                        let goal_bounds = differential_bounds(task.goal_state, config.pivots@, h0);
                        assert(walk_admissible(ts, task.goal_state, goal_bounds));
                        assert forall|x: State| #[trigger] hv(x) == goal_bounds(x) by {}
                        assert(walk_admissible(ts, task.goal_state, hv));
                        lemma_admissible_task(ts, config.constraints, task, interval, &sipp_task, hv);
                        lemma_first_cover(
                            ts,
                            config.constraints,
                            config.task,
                            config.landmarks@,
                            &sipp_task,
                            hv,
                            self.solutions@,
                        );
                    }
                }
                let ghost found = self.solutions@;
                proof {
                    let goal_bounds = differential_bounds(task.goal_state, config.pivots@, h0);
                    assert forall|x: State| #[trigger] bounds_of(dh0)(x) == goal_bounds(x) by {}
                    assert(searched(ts, config.constraints, sipp_task, bounds_of(dh0), false, found));
                    lemma_searched_same(
                        ts,
                        config.constraints,
                        sipp_task,
                        bounds_of(dh0),
                        goal_bounds,
                        false,
                        found,
                    );
                }
                self.store_solution_parts(config, 0);
                proof {
                    assert(landings_of(found, self.landmark_states@, self.landmark_times@));
                    if fit {
                        lemma_landings_cover(
                            ts,
                            config.constraints,
                            config.task,
                            config.landmarks@,
                            0,
                            found,
                            self.landmark_states@,
                            self.landmark_times@,
                        );
                    }
                }
            },
            Err(sipp_config) => {
                proof {
                    lemma_heuristics_follow_self(h0);
                    assert forall|
                        states: Seq<SippState>,
                        costs: Seq<Time>,
                        actions: Seq<Action>,
                        marks: Seq<int>,
                    | #[trigger]
                        landmark_plan(
                            ts,
                            config.constraints,
                            config.task,
                            config.landmarks@,
                            states,
                            costs,
                            actions,
                            marks,
                        ) implies landed(
                        self.landmark_states@,
                        self.landmark_times@,
                        states[marks[0]],
                        costs[marks[0]],
                    ) by {
                        assert(stop_ok(config.constraints, states[0], costs[0]));
                    }
                }
                Self::give_back(config, sipp_config.into_heuristic());
            },
        }
    }

    /// Takes the landings out of the planner, as the starts of the next
    /// search, which is to reach `goal` within `interval`.
    fn next_task(&mut self, goal: State, interval: Interval, task: Task) -> (r: SippTask)
        ensures
            r.initial_states() == old(self).landmark_states@,
            r.initial_times() == old(self).landmark_times@,
            r.goal_state() == (SippState { safe_interval: interval, internal_state: goal }),
            r.internal_task() == task,
            final(self).landmark_states@.len() == 0,
            final(self).landmark_times@.len() == 0,
            final(self).sipp == old(self).sipp,
            final(self).stats == old(self).stats,
            final(self).solutions == old(self).solutions,
            final(self).solution_parts == old(self).solution_parts,
    {
        let mut states: Vec<SippState> = Vec::new();
        let mut times: Vec<Time> = Vec::new();
        core::mem::swap(&mut self.landmark_states, &mut states);
        core::mem::swap(&mut self.landmark_times, &mut times);
        SippTask::new(times, states, SippState { safe_interval: interval, internal_state: goal }, task)
    }

    /// Searches from each landmark to the next: from the landings at the
    /// one to the state of the other, there to arrive within its interval,
    /// for a path to every safe interval. Files every path that a search
    /// returns and lists where and when it ends as the landings at that
    /// landmark, in place of those at the landmark before it. With one
    /// landmark there is nothing to do.
    fn between_landmarks<'c, H: Heuristic>(&mut self, config: &mut LSippConfig<'c, H>, Ghost(fit): Ghost<bool>)
        requires
            old(self).sipp.transition_system().wf(),
            old(config).wf(),
            old(config).landmarks@.len() > 0,
            old(self).solutions@.len() == 0,
            old(self).phase_ok(old(config), 0),
            fit ==> landmarks_fit(
                old(self).sipp.transition_system(),
                old(config).task,
                old(config).landmarks@,
                old(config).pivots@,
                old(config).heuristics(),
            ),
            fit ==> landings_cover(
                old(self).sipp.transition_system(),
                old(config).constraints,
                old(config).task,
                old(config).landmarks@,
                0,
                old(self).landmark_states@,
                old(self).landmark_times@,
            ),
        ensures
            final(config).wf(),
            final(config).task == old(config).task,
            final(config).constraints == old(config).constraints,
            final(config).landmarks == old(config).landmarks,
            final(config).pivots == old(config).pivots,
            final(config).precision == old(config).precision,
            heuristics_follow(final(config).heuristics(), old(config).heuristics()),
            final(self).sipp.transition_system() == old(self).sipp.transition_system(),
            final(self).stats == old(self).stats,
            final(self).solutions@.len() == 0,
            final(self).phase_ok(final(config), (old(config).landmarks@.len() - 1) as usize),
            final(self).sipp.searches() == count_up_by(
                old(self).sipp.searches(),
                (old(config).landmarks@.len() - 1) as nat,
            ),
            old(config).landmarks@.len() == 1 ==> final(self).landmark_states@ == old(self).landmark_states@
                && final(self).landmark_times@ == old(self).landmark_times@ && final(self).solution_parts@
                == old(self).solution_parts@ && final(config).heuristics() == old(config).heuristics(),
            old(config).landmarks@.len() > 1 ==> level_searched(
                old(self).sipp.transition_system(),
                old(config).constraints,
                old(config).task,
                old(config).landmarks@,
                old(config).pivots@,
                old(config).heuristics(),
                old(config).landmarks@.len() - 1,
                final(self).solution_parts@,
                final(self).landmark_states@,
                final(self).landmark_times@,
            ),
            fit ==> landings_cover(
                old(self).sipp.transition_system(),
                old(config).constraints,
                old(config).task,
                old(config).landmarks@,
                old(config).landmarks@.len() - 1,
                final(self).landmark_states@,
                final(self).landmark_times@,
            ),
    {
        let count: usize = config.landmarks.len();
        let ghost ts = self.sipp.transition_system();
        proof {
            lemma_heuristics_follow_self(config.heuristics());
            self.sipp.lemma_searches();
        }
        let mut i: usize = 1;
        while i < count
            invariant
                1 <= i <= count,
                ts == self.sipp.transition_system(),
                fit ==> landmarks_fit(
                    ts,
                    old(config).task,
                    old(config).landmarks@,
                    old(config).pivots@,
                    old(config).heuristics(),
                ),
                fit ==> landings_cover(
                    ts,
                    config.constraints,
                    config.task,
                    config.landmarks@,
                    i - 1,
                    self.landmark_states@,
                    self.landmark_times@,
                ),
                count == config.landmarks@.len(),
                self.sipp.transition_system().wf(),
                config.wf(),
                config.task == old(config).task,
                config.constraints == old(config).constraints,
                config.landmarks == old(config).landmarks,
                config.pivots == old(config).pivots,
                config.precision == old(config).precision,
                heuristics_follow(config.heuristics(), old(config).heuristics()),
                self.sipp.transition_system() == old(self).sipp.transition_system(),
                self.stats == old(self).stats,
                self.solutions@.len() == 0,
                self.phase_ok(config, (i - 1) as usize),
                self.sipp.searches() == count_up_by(old(self).sipp.searches(), (i - 1) as nat),
                i == 1 ==> self.landmark_states@ == old(self).landmark_states@ && self.landmark_times@
                    == old(self).landmark_times@ && self.solution_parts@ == old(self).solution_parts@
                    && config.heuristics() == old(config).heuristics(),
                i > 1 ==> level_searched(
                    ts,
                    config.constraints,
                    config.task,
                    config.landmarks@,
                    config.pivots@,
                    old(config).heuristics(),
                    i - 1,
                    self.solution_parts@,
                    self.landmark_states@,
                    self.landmark_times@,
                ),
            decreases count - i,
        {
            let task = Task::new(
                config.landmarks[i - 1].state,
                config.landmarks[i].state,
                config.task.initial_cost,
            );
            let interval: Interval = config.landmarks[i].interval;
            let ghost states0 = self.landmark_states@;
            let ghost times0 = self.landmark_times@;
            let sipp_task = self.next_task(config.landmarks[i].state, interval, task);
            let ghost the_task = sipp_task;
            let ghost h0 = config.heuristics();
            let dh = Self::get_heuristic(config, task);
            let ghost dh0 = dh;
            let mut generalized = GeneralizedSippConfig::new(
                sipp_task,
                config.constraints,
                dh,
                false,
            );
            self.solutions = self.sipp.solve_generalized(&mut generalized);
            let dh1 = generalized.into_heuristic();
            proof {
                assert(dh1.follows(&dh0));
                assert(heuristics_follow(dh1.heuristics(), h0));
                lemma_heuristics_follow_on(dh1.heuristics(), h0, old(config).heuristics());
            }
            Self::give_back(config, dh1);
            proof {
                let ts = self.sipp.transition_system();
                assert forall|q: int| 0 <= q < self.solutions@.len() implies {
                    let part = #[trigger] self.solutions@[q];
                    &&& part.valid(ts, config.constraints)
                    &&& part.states@.last().internal_state == config.landmarks@[i as int].state
                    &&& part.states@.last().internal_state < ts.n_states()
                    &&& config.landmarks@[i as int].interval.holds(part.costs@.last() as int)
                    &&& self.solution_parts@.contains_key(
                        part_key(part.states@[0], part.costs@[0], (i - 1) as usize),
                    )
                } by {
                    let part = self.solutions@[q];
                    assert(solves(ts, config.constraints, &the_task, part));
                    let k = choose|k: int|
                        0 <= k < the_task.initial_times().len() && k < the_task.initial_states().len()
                            && #[trigger] the_task.initial_times()[k] == part.costs@[0]
                            && the_task.initial_states()[k] == part.states@[0];
                    assert(self.solution_parts@.contains_key(
                        part_key(states0[k], times0[k], (i - 1) as usize),
                    ));
                }
                if self.solutions@.len() > 0 {
                    assert(solves(ts, config.constraints, &the_task, self.solutions@[0]));
                }
                if fit {
                    let hv = bounds_of(dh0);
                    let goal_bounds = differential_bounds(task.goal_state, config.pivots@, h0);
                    lemma_landmarks_fit_follow(
                        ts,
                        config.task,
                        config.landmarks@,
                        config.pivots@,
                        old(config).heuristics(),
                        h0,
                    );
                    assert(walk_admissible(ts, task.goal_state, goal_bounds));
                    assert forall|x: State| #[trigger] hv(x) == goal_bounds(x) by {}
                    assert(walk_admissible(ts, task.goal_state, hv));
                    lemma_admissible_task(ts, config.constraints, task, interval, &the_task, hv);
                    lemma_next_cover(
                        ts,
                        config.constraints,
                        config.task,
                        config.landmarks@,
                        i as int,
                        &the_task,
                        hv,
                        self.solutions@,
                    );
                }
            }
            let ghost found = self.solutions@;
            let ghost parts0 = self.solution_parts@;
            proof {
                let goal_bounds = differential_bounds(task.goal_state, config.pivots@, old(config).heuristics());
                lemma_bounds_equal(task.goal_state, config.pivots@, old(config).heuristics(), h0);
                assert forall|x: State| #[trigger] bounds_of(dh0)(x) == goal_bounds(x) by {
                    assert(bounds_of(dh0)(x) == differential_bounds(task.goal_state, config.pivots@, h0)(x));
                }
                assert(searched(ts, config.constraints, the_task, bounds_of(dh0), false, found));
                lemma_searched_same(
                    ts,
                    config.constraints,
                    the_task,
                    bounds_of(dh0),
                    goal_bounds,
                    false,
                    found,
                );
                assert(landings_filed(parts0, states0, times0, (i - 1) as usize));
            }
            self.store_solution_parts(config, i);
            proof {
                assert(landings_of(found, self.landmark_states@, self.landmark_times@));
                assert(landings_filed(self.solution_parts@, states0, times0, (i - 1) as usize)) by {
                    assert forall|q: int| 0 <= q < states0.len() implies self.solution_parts@.contains_key(
                        part_key(#[trigger] states0[q], times0[q], (i - 1) as usize),
                    ) by {
                        assert(parts0.contains_key(part_key(states0[q], times0[q], (i - 1) as usize)));
                    }
                }
                assert(level_searched(
                    ts,
                    config.constraints,
                    config.task,
                    config.landmarks@,
                    config.pivots@,
                    old(config).heuristics(),
                    i as int,
                    self.solution_parts@,
                    self.landmark_states@,
                    self.landmark_times@,
                ));
                if fit {
                    lemma_landings_cover(
                        ts,
                        config.constraints,
                        config.task,
                        config.landmarks@,
                        i as int,
                        found,
                        self.landmark_states@,
                        self.landmark_times@,
                    );
                }
            }
            i += 1;
        }
    }

    /// Searches from the landings at the last landmark to the goal of the
    /// task, at whatever time, for the one best path.
    fn to_goal<'c, H: Heuristic>(&mut self, config: &mut LSippConfig<'c, H>, Ghost(fit): Ghost<bool>)
        requires
            old(self).sipp.transition_system().wf(),
            old(config).wf(),
            old(config).landmarks@.len() > 0,
            old(self).phase_ok(old(config), (old(config).landmarks@.len() - 1) as usize),
            fit ==> landmarks_fit(
                old(self).sipp.transition_system(),
                old(config).task,
                old(config).landmarks@,
                old(config).pivots@,
                old(config).heuristics(),
            ),
            fit ==> landings_cover(
                old(self).sipp.transition_system(),
                old(config).constraints,
                old(config).task,
                old(config).landmarks@,
                old(config).landmarks@.len() - 1,
                old(self).landmark_states@,
                old(self).landmark_times@,
            ),
        ensures
            final(config).wf(),
            final(config).task == old(config).task,
            final(config).constraints == old(config).constraints,
            final(config).landmarks == old(config).landmarks,
            final(config).pivots == old(config).pivots,
            final(config).precision == old(config).precision,
            heuristics_follow(final(config).heuristics(), old(config).heuristics()),
            final(self).sipp.transition_system() == old(self).sipp.transition_system(),
            final(self).stats == old(self).stats,
            final(self).solution_parts == old(self).solution_parts,
            final(self).sipp.searches() == count_up(old(self).sipp.searches()),
            exists|segment: SippTask| #[trigger]
                searched(
                    old(self).sipp.transition_system(),
                    old(config).constraints,
                    segment,
                    differential_bounds(
                        old(config).task.goal_state,
                        old(config).pivots@,
                        old(config).heuristics(),
                    ),
                    true,
                    final(self).solutions@,
                ) && segment_to(
                    segment,
                    old(self).landmark_states@,
                    old(self).landmark_times@,
                    old(config).task.goal_state,
                    Interval::whole(),
                    Task {
                        initial_state: old(config).landmarks@[old(config).landmarks@.len() - 1].state,
                        goal_state: old(config).task.goal_state,
                        initial_cost: old(config).task.initial_cost,
                    },
                ),
            final(self).solutions@.len() <= 1,
            fit ==> solution_least(
                old(self).sipp.transition_system(),
                old(config).constraints,
                old(config).task,
                old(config).landmarks@,
                final(self).solutions@,
            ),
            blocked(
                old(config).constraints.state_bucket(old(config).task.initial_state),
                old(config).task.initial_cost as int,
            ) ==> final(self).solutions@.len() == 0,
            forall|q: int|
                0 <= q < final(self).solutions@.len() ==> {
                    let part = #[trigger] final(self).solutions@[q];
                    &&& part.valid(final(self).sipp.transition_system(), old(config).constraints)
                    &&& part.states@.last().internal_state == old(config).task.goal_state
                    &&& final(self).solution_parts@.contains_key(
                        part_key(
                            part.states@[0],
                            part.costs@[0],
                            (old(config).landmarks@.len() - 1) as usize,
                        ),
                    )
                },
    {
        let count: usize = config.landmarks.len();
        let task = Task::new(
            config.landmarks[count - 1].state,
            config.task.goal_state,
            config.task.initial_cost,
        );
        let ghost states0 = self.landmark_states@;
        let ghost times0 = self.landmark_times@;
        let sipp_task = self.next_task(config.task.goal_state, Interval::default(), task);
        let ghost the_task = sipp_task;
        let ghost h0 = config.heuristics();
        let dh = Self::get_heuristic(config, task);
        let ghost dh0 = dh;
        let mut generalized = GeneralizedSippConfig::new(sipp_task, config.constraints, dh, true);
        self.solutions = self.sipp.solve_generalized(&mut generalized);
        let dh1 = generalized.into_heuristic();
        proof {
            assert(dh1.follows(&dh0));
            assert(heuristics_follow(dh1.heuristics(), h0));
        }
        Self::give_back(config, dh1);
        proof {
            let ts = self.sipp.transition_system();
            assert forall|q: int| 0 <= q < self.solutions@.len() implies {
                let part = #[trigger] self.solutions@[q];
                &&& part.valid(ts, config.constraints)
                &&& part.states@.last().internal_state == config.task.goal_state
                &&& self.solution_parts@.contains_key(
                    part_key(part.states@[0], part.costs@[0], (count - 1) as usize),
                )
            } by {
                let part = self.solutions@[q];
                assert(solves(ts, config.constraints, &the_task, part));
                let k = choose|k: int|
                    0 <= k < the_task.initial_times().len() && k < the_task.initial_states().len()
                        && #[trigger] the_task.initial_times()[k] == part.costs@[0]
                        && the_task.initial_states()[k] == part.states@[0];
                assert(self.solution_parts@.contains_key(
                    part_key(states0[k], times0[k], (count - 1) as usize),
                ));
            }
            if self.solutions@.len() > 0 {
                assert(solves(ts, config.constraints, &the_task, self.solutions@[0]));
            }
            let bounds = differential_bounds(task.goal_state, config.pivots@, h0);
            assert forall|x: State| #[trigger] bounds_of(dh0)(x) == bounds(x) by {}
            assert(searched(ts, config.constraints, the_task, bounds_of(dh0), true, self.solutions@));
            lemma_searched_same(ts, config.constraints, the_task, bounds_of(dh0), bounds, true, self.solutions@);
            assert(segment_to(
                the_task,
                states0,
                times0,
                config.task.goal_state,
                Interval::whole(),
                task,
            ));
            if fit {
                let hv = bounds_of(dh0);
                let goal_bounds = differential_bounds(task.goal_state, config.pivots@, h0);
                assert(walk_admissible(ts, task.goal_state, goal_bounds));
                assert forall|x: State| #[trigger] hv(x) == goal_bounds(x) by {}
                assert(walk_admissible(ts, task.goal_state, hv));
                lemma_admissible_task(ts, config.constraints, task, Interval::whole(), &the_task, hv);
                lemma_last_cover(
                    ts,
                    config.constraints,
                    config.task,
                    config.landmarks@,
                    &the_task,
                    hv,
                    self.solutions@,
                );
            }
        }
    }

    /// Puts the parts together, from the goal back to the initial state,
    /// into the one path that the last search has completed.
    #[verifier::rlimit(80)]
    fn get_solution<'c, H: Heuristic>(&mut self, config: &LSippConfig<'c, H>) -> (r: Option<
        Solution<SippState>,
    >)
        requires
            config.landmarks@.len() > 0,
            parts_ok(
                old(self).sipp.transition_system(),
                config.constraints,
                config.task,
                config.landmarks@,
                old(self).solution_parts@,
                config.landmarks@.len() as int,
            ),
            forall|q: int|
                0 <= q < old(self).solutions@.len() ==> {
                    let part = #[trigger] old(self).solutions@[q];
                    &&& part.valid(old(self).sipp.transition_system(), config.constraints)
                    &&& part.states@.last().internal_state == config.task.goal_state
                    &&& old(self).solution_parts@.contains_key(
                        part_key(
                            part.states@[0],
                            part.costs@[0],
                            (config.landmarks@.len() - 1) as usize,
                        ),
                    )
                },
        ensures
            final(self).sipp == old(self).sipp,
            final(self).stats == old(self).stats,
            old(self).solutions@.len() == 0 ==> r.is_none(),
            old(self).solutions@.len() > 0 ==> r.is_some() && r.unwrap().costs@.last() == old(self).solutions@[0].costs@.last(),
            match r {
                Some(solution) => {
                    &&& solution.valid(final(self).sipp.transition_system(), config.constraints)
                    &&& solution.states@[0].internal_state == config.task.initial_state
                    &&& solution.costs@[0] == config.task.initial_cost
                    &&& solution.states@.last().internal_state == config.task.goal_state
                    &&& visits_landmarks(solution.states@, solution.costs@, config.landmarks@)
                },
                None => true,
            },
    {
        if self.solutions.len() == 0 {
            return None;
        }
        let ghost ts = self.sipp.transition_system();
        let count: usize = config.landmarks.len();
        let mut current = self.solutions.swap_remove(0);
        let ghost end = current.costs@.last();
        let mut level: usize = count;
        let ghost mut marks: Seq<int> = Seq::empty();
        while level > 0
            invariant
                level <= count,
                current.costs@.last() == end,
                count == config.landmarks@.len(),
                self.sipp == old(self).sipp,
                self.stats == old(self).stats,
                ts == self.sipp.transition_system(),
                current.valid(ts, config.constraints),
                current.states@.last().internal_state == config.task.goal_state,
                parts_ok(
                    ts,
                    config.constraints,
                    config.task,
                    config.landmarks@,
                    self.solution_parts@,
                    level as int,
                ),
                level > 0 ==> self.solution_parts@.contains_key(
                    part_key(current.states@[0], current.costs@[0], (level - 1) as usize),
                ),
                level == 0 ==> current.states@[0].internal_state == config.task.initial_state
                    && current.costs@[0] == config.task.initial_cost,
                marks.len() == count - level,
                forall|m: int|
                    0 <= m < marks.len() ==> 0 <= (#[trigger] marks[m]) < current.states@.len()
                        && current.states@[marks[m]].internal_state == config.landmarks@[level
                        + m].state && config.landmarks@[level + m].interval.holds(
                        current.costs@[marks[m]] as int,
                    ),
                forall|a: int, b: int|
                    0 <= a < b < marks.len() ==> (#[trigger] marks[a]) <= (#[trigger] marks[b]),
            decreases level,
        {
            let key = make_key(current.states[0], current.costs[0], level - 1);
            let ghost parts0 = self.solution_parts@;
            match parts_remove(&mut self.solution_parts, &key) {
                Some(part) => {
                    proof {
                        assert(part_ok(
                            ts,
                            config.constraints,
                            config.task,
                            config.landmarks@,
                            parts0,
                            key,
                        ));
                        assert(part.states@.last() == current.states@[0]);
                        lemma_join_valid(
                            ts,
                            config.constraints,
                            part.states@,
                            part.costs@,
                            part.actions@,
                            current.states@,
                            current.costs@,
                            current.actions@,
                        );
                    }
                    let ghost shift = part.states@.len() - 1;
                    let ghost old_marks = marks;
                    let ghost rest = current;
                    current = join(part, current);
                    proof {
                        marks = seq![shift as int] + old_marks.map_values(|x: int| x + shift);
                        assert forall|m: int| 0 <= m < marks.len() implies 0 <= (
                        #[trigger] marks[m]) < current.states@.len()
                            && current.states@[marks[m]].internal_state == config.landmarks@[level
                            - 1 + m].state && config.landmarks@[level - 1 + m].interval.holds(
                            current.costs@[marks[m]] as int,
                        ) by {
                            if m > 0 {
                                let x = old_marks[m - 1];
                                assert(marks[m] == x + shift);
                                if x == 0 {
                                    assert(current.states@[shift] == part.states@.last());
                                    assert(current.costs@[shift] == part.costs@.last());
                                } else {
                                    assert(current.states@[x + shift] == rest.states@[x]);
                                    assert(current.costs@[x + shift] == rest.costs@[x]);
                                }
                            } else {
                                assert(current.states@[shift] == part.states@.last());
                                assert(current.costs@[shift] == part.costs@.last());
                            }
                        }
                        assert forall|a: int, b: int| 0 <= a < b < marks.len() implies (
                        #[trigger] marks[a]) <= (#[trigger] marks[b]) by {
                            if a > 0 {
                                assert(old_marks[a - 1] <= old_marks[b - 1]);
                            }
                        }
                        if rest.states@.len() > 1 {
                            assert(current.states@.last() == rest.states@.last());
                            assert(current.costs@.last() == rest.costs@.last());
                        } else {
                            assert(current.costs@ =~= part.costs@);
                        }
                        assert forall|k: PartKey| #[trigger]
                            self.solution_parts@.contains_key(k) && k.4 < level - 1 implies part_ok(
                            ts,
                            config.constraints,
                            config.task,
                            config.landmarks@,
                            self.solution_parts@,
                            k,
                        ) by {
                            assert(parts0.contains_key(k));
                            assert(part_ok(
                                ts,
                                config.constraints,
                                config.task,
                                config.landmarks@,
                                parts0,
                                k,
                            ));
                        }
                    }
                    level -= 1;
                },
                None => {
                    // Each path begins where a part that is filed ends.
                    return None;
                },
            }
        }
        proof {
            assert(marks_ok(current.states@, current.costs@, config.landmarks@, marks));
        }
        Some(current)
    }

    /// Searches for the best path from the initial state through the
    /// landmarks, in their order, to the goal. There is none where the agent
    /// may not be in its initial state at its initial time. Where the bounds
    /// fit the landmarks, no path ends before the one that is found that is
    /// at each landmark in a safe interval that begins no earlier than the
    /// interval of the landmark; none is found only where there is no such
    /// path, or a path through the landmarks that ends no later than any of
    /// them ends where the agent cannot stay for good. The planner below
    /// searches once for each landmark and once for the goal.
    pub fn solve<'c, H: Heuristic>(&mut self, config: &mut LSippConfig<'c, H>) -> (r: Option<
        Solution<SippState>,
    >)
        requires
            old(self).transition_system().wf(),
            old(config).wf(),
        ensures
            final(config).wf(),
            final(config).task() == old(config).task(),
            final(config).constraints() == old(config).constraints(),
            final(config).landmarks() == old(config).landmarks(),
            final(config).pivots() == old(config).pivots(),
            final(config).precision() == old(config).precision(),
            heuristics_follow(final(config).heuristics(), old(config).heuristics()),
            final(self).transition_system() == old(self).transition_system(),
            final(self).searches() == count_up(old(self).searches()),
            final(self).sipp_searches() == count_up_by(
                old(self).sipp_searches(),
                segments(old(config).constraints(), old(config).task(), old(config).landmarks()),
            ),
            old(config).landmarks().len() == 0 ==> lsipp_best(
                final(self).transition_system(),
                old(config).constraints(),
                old(config).task(),
                differential_bounds(
                    old(config).task().goal_state,
                    old(config).pivots(),
                    old(config).heuristics(),
                ),
                r,
            ),
            landmarks_fit(
                final(self).transition_system(),
                old(config).task(),
                old(config).landmarks(),
                old(config).pivots(),
                old(config).heuristics(),
            ) ==> lsipp_best_through(
                final(self).transition_system(),
                old(config).constraints(),
                old(config).task(),
                old(config).landmarks(),
                r,
            ),
            blocked(
                old(config).constraints().state_bucket(old(config).task().initial_state),
                old(config).task().initial_cost as int,
            ) ==> r.is_none(),
            match r {
                Some(solution) => lsipp_solves(
                    final(self).transition_system(),
                    old(config).constraints(),
                    old(config).task(),
                    old(config).landmarks(),
                    solution,
                ),
                None => true,
            },
    {
        self.init();
        proof {
            self.sipp.lemma_searches();
        }
        let ghost ts = self.sipp.transition_system();
        let ghost h0 = config.heuristics();
        let ghost hv = differential_bounds(config.task.goal_state, config.pivots@, h0);
        let ghost fit = landmarks_fit(ts, config.task, config.landmarks@, config.pivots@, h0);
        let solution = if config.landmarks.len() == 0 {
            let task: Task = config.task;
            let dh = Self::get_heuristic(config, task);
            let ghost dh0 = dh;
            let mut sipp_config = SippConfig::new(task, Interval::default(), config.constraints, dh);
            let found = self.sipp.solve(&mut sipp_config);
            let dh1 = sipp_config.into_heuristic();
            proof {
                assert(dh1.follows(&dh0));
                assert(heuristics_follow(dh1.heuristics(), h0));
            }
            Self::give_back(config, dh1);
            proof {
                if found.is_some() {
                    let s = found.unwrap();
                    assert(marks_ok(s.states@, s.costs@, config.landmarks@, Seq::<int>::empty()));
                }
                assert forall|x: State| #[trigger] bounds_of(dh0)(x) == hv(x) by {}
                lemma_best_of_task_same_bounds(
                    ts,
                    config.constraints,
                    task,
                    Interval::whole(),
                    bounds_of(dh0),
                    hv,
                    found,
                );
                if fit {
                    lemma_walk_admissible(ts, config.constraints, task, Interval::whole(), hv);
                    assert(found_least(ts, config.constraints, task, config.landmarks@, found));
                }
            }
            found
        } else {
            proof {
                assert forall|key: PartKey| !self.solution_parts@.contains_key(key) by {
                    assert(!self.solution_parts@.dom().contains(key));
                }
            }
            self.to_first_landmark(config);
            let ghost h1 = config.heuristics();
            proof {
                if fit {
                    lemma_landmarks_fit_follow(ts, config.task, config.landmarks@, config.pivots@, h0, h1);
                }
            }
            self.between_landmarks(config, Ghost(fit));
            let ghost h2 = config.heuristics();
            proof {
                lemma_heuristics_follow_on(h2, h1, h0);
                if fit {
                    lemma_landmarks_fit_follow(ts, config.task, config.landmarks@, config.pivots@, h0, h2);
                }
            }
            self.to_goal(config, Ghost(fit));
            proof {
                lemma_heuristics_follow_on(config.heuristics(), h2, h0);
            }
            let ghost last_found = self.solutions@;
            let joined = self.get_solution(config);
            proof {
                if fit {
                    assert(solution_least(ts, config.constraints, config.task, config.landmarks@, last_found));
                    assert(found_least(ts, config.constraints, config.task, config.landmarks@, joined));
                }
            }
            joined
        };
        proof {
            if fit {
                assert(found_least(ts, config.constraints, config.task, config.landmarks@, solution));
            }
        }
        match solution {
            Some(solution) => {
                let last: usize = solution.states.len() - 1;
                if solution.states[last].safe_interval.end != u64::MAX {
                    proof {
                        assert(plan_of_task(
                            ts,
                            config.constraints,
                            config.task,
                            Interval::whole(),
                            solution.states@,
                            solution.costs@,
                            solution.actions@,
                        ));
                        let marks = choose|marks: Seq<int>|
                            marks_ok(solution.states@, solution.costs@, config.landmarks@, marks);
                        assert(landmark_path(
                            ts,
                            config.constraints,
                            config.task,
                            config.landmarks@,
                            solution.states@,
                            solution.costs@,
                            solution.actions@,
                            marks,
                        ));
                        if fit {
                            assert(least_end_through(
                                ts,
                                config.constraints,
                                config.task,
                                config.landmarks@,
                                solution.costs@.last(),
                            ));
                        }
                    }
                    None
                } else {
                    Some(solution)
                }
            },
            None => None,
        }
    }

    /// How often the planner has searched, itself and through the planner
    /// below it.
    pub fn get_stats(&mut self) -> (r: LSippStats)
        ensures
            r.searches == old(self).searches(),
            r.sipp_stats.searches == old(self).sipp_searches(),
            final(self).transition_system() == old(self).transition_system(),
            final(self).searches() == old(self).searches(),
            final(self).sipp_searches() == old(self).sipp_searches(),
    {
        self.stats.sipp_stats = self.sipp.get_stats();
        self.stats
    }
}

} // verus!
