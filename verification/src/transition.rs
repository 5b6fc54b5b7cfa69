//! Transition systems: the states and actions that agents move through, the
//! tasks they are given and the moves they make.

use vstd::prelude::*;
use crate::time::{Duration, Interval, Time};

verus! {

/// A state of a transition system, addressed by its index.
pub type State = usize;

/// An action of a transition system, addressed by its index.
pub type Action = usize;

/// A directed graph of states whose edges are actions with a cost. The states
/// are the indices below `n_states()`. Equivalence of states, as used to
/// recognise a goal, is equality of indices.
pub trait TransitionSystem {
    /// What the system needs to hold of itself before it can be asked
    /// anything.
    spec fn wf(&self) -> bool;

    /// The number of states.
    spec fn n_states(&self) -> nat;

    /// The actions that leave `state`.
    spec fn actions(&self, state: State) -> Seq<Action>;

    /// The state that `action` leads to from `state`.
    spec fn target(&self, state: State, action: Action) -> State;

    /// The time that `action` takes from `state`.
    spec fn cost(&self, state: State, action: Action) -> Duration;

    /// The actions that arrive at `state`.
    spec fn reverse_actions(&self, state: State) -> Seq<Action>;

    /// The state from which `action` arrives at `state`.
    spec fn source(&self, state: State, action: Action) -> State;

    /// An action that leaves a state of the system arrives at a state of
    /// the system, and is among the actions that arrive there from the state
    /// that it has left.
    proof fn lemma_reverse(&self, state: State, action: Action)
        requires
            self.wf(),
            state < self.n_states(),
            self.actions(state).contains(action),
        ensures
            self.target(state, action) < self.n_states(),
            self.reverse_actions(self.target(state, action)).contains(action),
            self.source(self.target(state, action), action) == state,
    ;

    fn num_states(&self) -> (n: usize)
        requires
            self.wf(),
        ensures
            n == self.n_states(),
    ;

    fn actions_from(&self, state: State) -> (r: Vec<Action>)
        requires
            self.wf(),
            state < self.n_states(),
        ensures
            r@ == self.actions(state),
    ;

    fn transition(&self, state: State, action: &Action) -> (r: State)
        requires
            self.wf(),
            state < self.n_states(),
            self.actions(state).contains(*action),
        ensures
            r == self.target(state, *action),
            r < self.n_states(),
    ;

    fn transition_cost(&self, state: State, action: &Action) -> (r: Duration)
        requires
            self.wf(),
            state < self.n_states(),
            self.actions(state).contains(*action),
        ensures
            r == self.cost(state, *action),
    ;

    fn reverse_actions_from(&self, state: State) -> (r: Vec<Action>)
        requires
            self.wf(),
            state < self.n_states(),
        ensures
            r@ == self.reverse_actions(state),
    ;

    fn reverse_transition(&self, state: State, action: &Action) -> (r: State)
        requires
            self.wf(),
            state < self.n_states(),
            self.reverse_actions(state).contains(*action),
        ensures
            r == self.source(state, *action),
            r < self.n_states(),
            self.actions(r).contains(*action),
            self.target(r, *action) == state,
    ;

    fn reverse_transition_cost(&self, state: State, action: &Action) -> (r: Duration)
        requires
            self.wf(),
            state < self.n_states(),
            self.reverse_actions(state).contains(*action),
        ensures
            r == self.cost(self.source(state, *action), *action),
    ;
}

/// Whether the actions can be taken one after the other from `state`.
pub open spec fn walk_valid<TS: TransitionSystem>(ts: &TS, state: State, actions: Seq<Action>) -> bool
    decreases actions.len(),
{
    if actions.len() == 0 {
        true
    } else {
        &&& state < ts.n_states()
        &&& ts.actions(state).contains(actions[0])
        &&& walk_valid(ts, ts.target(state, actions[0]), actions.skip(1))
    }
}

/// The state that the actions lead to from `state`.
pub open spec fn walk_end<TS: TransitionSystem>(ts: &TS, state: State, actions: Seq<Action>) -> State
    decreases actions.len(),
{
    if actions.len() == 0 {
        state
    } else {
        walk_end(ts, ts.target(state, actions[0]), actions.skip(1))
    }
}

/// The time that the actions take from `state`.
pub open spec fn walk_cost<TS: TransitionSystem>(ts: &TS, state: State, actions: Seq<Action>) -> int
    decreases actions.len(),
{
    if actions.len() == 0 {
        0
    } else {
        ts.cost(state, actions[0]) + walk_cost(ts, ts.target(state, actions[0]), actions.skip(1))
    }
}

/// Whether some walk leads from `from` to `to` in the time `cost`.
pub open spec fn connected<TS: TransitionSystem>(ts: &TS, from: State, to: State, cost: int) -> bool {
    exists|actions: Seq<Action>|
        walk_valid(ts, from, actions) && #[trigger] walk_end(ts, from, actions) == to && walk_cost(
            ts,
            from,
            actions,
        ) == cost
}

/// Whether no walk leads from `from` to `to` in less time than `d`.
pub open spec fn lower_bound<TS: TransitionSystem>(ts: &TS, from: State, to: State, d: int) -> bool {
    forall|cost: int| #[trigger] connected(ts, from, to, cost) ==> d <= cost
}

/// Whether `d` is the time of the shortest walk from `from` to `to`.
pub open spec fn is_distance<TS: TransitionSystem>(ts: &TS, from: State, to: State, d: int) -> bool {
    connected(ts, from, to, d) && lower_bound(ts, from, to, d)
}

/// The time of the shortest walk from `from` to `to`, as far as time is
/// counted; `None` where there is no such walk.
pub open spec fn shortest<TS: TransitionSystem>(ts: &TS, from: State, to: State) -> Option<Duration> {
    if exists|d: Duration| is_distance(ts, from, to, d as int) {
        Some(choose|d: Duration| is_distance(ts, from, to, d as int))
    } else {
        None
    }
}

/// A time that is the shortest is the one that `shortest` names.
pub proof fn lemma_shortest_is<TS: TransitionSystem>(ts: &TS, from: State, to: State, d: Duration)
    requires
        is_distance(ts, from, to, d as int),
    ensures
        shortest(ts, from, to) == Some(d),
{
    let chosen = choose|x: Duration| is_distance(ts, from, to, x as int);
    assert(is_distance(ts, from, to, chosen as int));
    assert(connected(ts, from, to, chosen as int));
    assert(connected(ts, from, to, d as int));
}

/// The time that `shortest` names is the time of the shortest walk.
pub proof fn lemma_shortest_some<TS: TransitionSystem>(ts: &TS, from: State, to: State)
    requires
        shortest(ts, from, to).is_some(),
    ensures
        is_distance(ts, from, to, shortest(ts, from, to).unwrap() as int),
{
}

/// Where two states are connected, there is a shortest walk between them.
pub proof fn lemma_distance_exists<TS: TransitionSystem>(ts: &TS, from: State, to: State, cost: int)
    requires
        connected(ts, from, to, cost),
    ensures
        exists|d: int| 0 <= d <= cost && #[trigger] is_distance(ts, from, to, d),
    decreases cost,
{
    lemma_connected_not_negative(ts, from, to, cost);
    if lower_bound(ts, from, to, cost) {
        assert(is_distance(ts, from, to, cost));
    } else {
        let less = choose|less: int| #[trigger] connected(ts, from, to, less) && !(cost <= less);
        lemma_connected_not_negative(ts, from, to, less);
        lemma_distance_exists(ts, from, to, less);
    }
}

/// Whether every walk can be gone back, in the same time.
pub open spec fn symmetric<TS: TransitionSystem>(ts: &TS) -> bool {
    forall|a: State, b: State, cost: int| #[trigger] connected(ts, a, b, cost) ==> connected(ts, b, a, cost)
}

/// Whether every action can be undone: from the state that it leads to, an
/// action leads back in the same time.
pub open spec fn two_way<TS: TransitionSystem>(ts: &TS) -> bool {
    forall|state: State, action: Action|
        state < ts.n_states() && #[trigger] ts.actions(state).contains(action) ==> exists|back: Action|
            #[trigger] ts.actions(ts.target(state, action)).contains(back) && ts.target(
                ts.target(state, action),
                back,
            ) == state && ts.cost(ts.target(state, action), back) == ts.cost(state, action)
}

/// Two walks, of which the second begins where the first ends, make one
/// walk that takes the time of both.
pub proof fn lemma_walk_concat<TS: TransitionSystem>(
    ts: &TS,
    state: State,
    first: Seq<Action>,
    second: Seq<Action>,
)
    requires
        walk_valid(ts, state, first),
        walk_valid(ts, walk_end(ts, state, first), second),
    ensures
        walk_valid(ts, state, first + second),
        walk_end(ts, state, first + second) == walk_end(ts, walk_end(ts, state, first), second),
        walk_cost(ts, state, first + second) == walk_cost(ts, state, first) + walk_cost(
            ts,
            walk_end(ts, state, first),
            second,
        ),
    decreases first.len(),
{
    if first.len() == 0 {
        assert(first + second =~= second);
    } else {
        let next = ts.target(state, first[0]);
        lemma_walk_concat(ts, next, first.skip(1), second);
        assert((first + second)[0] == first[0]);
        assert((first + second).skip(1) =~= first.skip(1) + second);
    }
}

/// Where one state is connected to a second and the second to a third, the
/// first is connected to the third, in the time of both walks.
pub proof fn lemma_connected_concat<TS: TransitionSystem>(
    ts: &TS,
    a: State,
    b: State,
    c: State,
    first: int,
    second: int,
)
    requires
        connected(ts, a, b, first),
        connected(ts, b, c, second),
    ensures
        connected(ts, a, c, first + second),
{
    let x = choose|actions: Seq<Action>|
        walk_valid(ts, a, actions) && #[trigger] walk_end(ts, a, actions) == b && walk_cost(ts, a, actions)
            == first;
    let y = choose|actions: Seq<Action>|
        walk_valid(ts, b, actions) && #[trigger] walk_end(ts, b, actions) == c && walk_cost(ts, b, actions)
            == second;
    lemma_walk_concat(ts, a, x, y);
    assert(walk_valid(ts, a, x + y) && walk_end(ts, a, x + y) == c && walk_cost(ts, a, x + y) == first
        + second);
}

/// Where every action can be undone, every walk can be gone back.
pub proof fn lemma_walk_back<TS: TransitionSystem>(ts: &TS, state: State, actions: Seq<Action>)
    requires
        ts.wf(),
        two_way(ts),
        walk_valid(ts, state, actions),
    ensures
        connected(ts, walk_end(ts, state, actions), state, walk_cost(ts, state, actions)),
    decreases actions.len(),
{
    if actions.len() == 0 {
        lemma_connected_self(ts, state);
    } else {
        let action = actions[0];
        let next = ts.target(state, action);
        let rest = actions.skip(1);
        lemma_walk_back(ts, next, rest);
        ts.lemma_reverse(state, action);
        let back = choose|back: Action|
            #[trigger] ts.actions(next).contains(back) && ts.target(next, back) == state && ts.cost(
                next,
                back,
            ) == ts.cost(state, action);
        lemma_connected_self(ts, state);
        lemma_connected_step(ts, next, back, state, 0);
        lemma_connected_concat(
            ts,
            walk_end(ts, state, actions),
            next,
            state,
            walk_cost(ts, next, rest),
            ts.cost(state, action) + 0,
        );
    }
}

/// Where every action can be undone, the system is symmetric.
pub proof fn lemma_two_way_symmetric<TS: TransitionSystem>(ts: &TS)
    requires
        ts.wf(),
        two_way(ts),
    ensures
        symmetric(ts),
{
    assert forall|a: State, b: State, cost: int| #[trigger] connected(ts, a, b, cost) implies connected(
        ts,
        b,
        a,
        cost,
    ) by {
        let walk = choose|actions: Seq<Action>|
            walk_valid(ts, a, actions) && #[trigger] walk_end(ts, a, actions) == b && walk_cost(
                ts,
                a,
                actions,
            ) == cost;
        lemma_walk_back(ts, a, walk);
    }
}

/// No two states are connected in less than no time.
pub proof fn lemma_connected_not_negative<TS: TransitionSystem>(ts: &TS, a: State, b: State, cost: int)
    requires
        connected(ts, a, b, cost),
    ensures
        cost >= 0,
{
    let x = choose|actions: Seq<Action>|
        walk_valid(ts, a, actions) && #[trigger] walk_end(ts, a, actions) == b && walk_cost(ts, a, actions)
            == cost;
    lemma_walk_cost_not_negative(ts, a, x);
}

/// Where no walk takes a time that can be counted, `shortest` names none.
pub proof fn lemma_shortest_none<TS: TransitionSystem>(ts: &TS, from: State, to: State)
    requires
        forall|cost: int| cost <= u64::MAX ==> !#[trigger] connected(ts, from, to, cost),
    ensures
        shortest(ts, from, to).is_none(),
{
    assert forall|d: Duration| !is_distance(ts, from, to, d as int) by {
        assert(!connected(ts, from, to, d as int));
    }
}

/// No walk takes less than no time.
pub proof fn lemma_walk_cost_not_negative<TS: TransitionSystem>(ts: &TS, state: State, actions: Seq<Action>)
    ensures
        walk_cost(ts, state, actions) >= 0,
    decreases actions.len(),
{
    if actions.len() > 0 {
        lemma_walk_cost_not_negative(ts, ts.target(state, actions[0]), actions.skip(1));
    }
}

/// Every state is connected to itself at no cost.
pub proof fn lemma_connected_self<TS: TransitionSystem>(ts: &TS, state: State)
    ensures
        connected(ts, state, state, 0),
{
    let empty = Seq::<Action>::empty();
    assert(walk_valid(ts, state, empty) && walk_end(ts, state, empty) == state && walk_cost(
        ts,
        state,
        empty,
    ) == 0);
}

/// A walk can be entered by one more action at its start.
pub proof fn lemma_connected_step<TS: TransitionSystem>(
    ts: &TS,
    from: State,
    action: Action,
    to: State,
    cost: int,
)
    requires
        from < ts.n_states(),
        ts.actions(from).contains(action),
        connected(ts, ts.target(from, action), to, cost),
    ensures
        connected(ts, from, to, ts.cost(from, action) + cost),
{
    let next = ts.target(from, action);
    let rest = choose|actions: Seq<Action>|
        walk_valid(ts, next, actions) && #[trigger] walk_end(ts, next, actions) == to && walk_cost(
            ts,
            next,
            actions,
        ) == cost;
    let all = seq![action] + rest;
    assert(all[0] == action);
    assert(all.skip(1) =~= rest);
    assert(walk_valid(ts, from, all) && walk_end(ts, from, all) == to && walk_cost(ts, from, all)
        == ts.cost(from, action) + cost);
}

/// What one agent has to do: go from `initial_state`, where it is at time
/// `initial_cost`, to `goal_state`.
#[derive(Debug, Clone, Copy, PartialEq, Eq, Structural)]
pub struct Task {
    pub initial_state: State,
    pub goal_state: State,
    pub initial_cost: Time,
}

impl Task {
    pub fn new(initial_state: State, goal_state: State, initial_cost: Time) -> (r: Task)
        ensures
            r == (Task { initial_state, goal_state, initial_cost }),
    {
        Task { initial_state, goal_state, initial_cost }
    }

    /// Whether `state` is equivalent to the goal.
    pub open spec fn goal_reached(self, state: State) -> bool {
        state == self.goal_state
    }

    pub fn is_goal_state(&self, state: State) -> (r: bool)
        ensures
            r == self.goal_reached(state),
    {
        state == self.goal_state
    }

    /// The task of going back: from the goal to the initial state.
    pub fn reverse(&self) -> (r: Task)
        ensures
            r == (Task {
                initial_state: self.goal_state,
                goal_state: self.initial_state,
                initial_cost: self.initial_cost,
            }),
    {
        Task {
            initial_state: self.goal_state,
            goal_state: self.initial_state,
            initial_cost: self.initial_cost,
        }
    }
}

/// One step of one agent: it leaves `from` at `interval.start` by `action`
/// and arrives at `to` at `interval.end`. The first step of a plan has no
/// action: the agent is in its initial state, `from` and `to` alike, at its
/// initial time.
#[derive(Debug, Clone, Copy, PartialEq, Eq)]
pub struct Move {
    pub agent: usize,
    pub from: State,
    pub to: State,
    pub action: Option<Action>,
    pub interval: Interval,
}

impl Move {
    pub fn new(
        agent: usize,
        from: State,
        to: State,
        action: Option<Action>,
        interval: Interval,
    ) -> (r: Move)
        ensures
            r == (Move { agent, from, to, action, interval }),
    {
        Move { agent, from, to, action, interval }
    }
}

} // verus!
