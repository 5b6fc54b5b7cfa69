//! What every search of this library shares: solutions, heuristics and the
//! nodes of a best-first search with their order.

use vstd::prelude::*;
use std::cmp::Ordering;
use crate::time::{Duration, Time};
use crate::transition::{
    connected,
    is_distance,
    lemma_connected_concat,
    lemma_connected_not_negative,
    lemma_distance_exists,
    lemma_shortest_is,
    lemma_shortest_some,
    shortest,
    symmetric,
    Action,
    State,
    Task,
    TransitionSystem,
};

verus! {

/// A path through a search space: the states that it visits, the time at
/// which it arrives at each, and the actions between them.
#[derive(Debug, Clone)]
pub struct Solution<S> {
    pub states: Vec<S>,
    pub costs: Vec<Time>,
    pub actions: Vec<Action>,
}

impl<S> Default for Solution<S> {
    fn default() -> (r: Solution<S>)
        ensures
            r.states@.len() == 0,
            r.costs@.len() == 0,
            r.actions@.len() == 0,
    {
        Solution { states: Vec::new(), costs: Vec::new(), actions: Vec::new() }
    }
}

/// A lower bound on what it still costs to reach a goal. A heuristic may
/// keep what it has computed from one question to the next.
pub trait Heuristic {
    /// What the heuristic needs to hold of itself before it can be asked.
    spec fn wf(&self) -> bool;

    /// The bound that the heuristic has for `state`, or `None` where the
    /// goal cannot be reached from it.
    spec fn value(&self, state: State) -> Option<Duration>;

    /// Whether this heuristic is what `before` has become by answering
    /// questions.
    spec fn follows(&self, before: &Self) -> bool;

    /// A heuristic is what it has become before any question.
    proof fn lemma_follows_self(&self)
        ensures
            self.follows(self),
    ;

    /// What a heuristic has become stays what it has become when it answers
    /// more questions.
    proof fn lemma_follows_on(&self, middle: &Self, before: &Self)
        requires
            self.follows(middle),
            middle.follows(before),
        ensures
            self.follows(before),
    ;

    /// Whatever a heuristic keeps from one question to the next, its bounds
    /// stay what they are.
    proof fn lemma_follows_value(&self, before: &Self, state: State)
        requires
            self.follows(before),
        ensures
            self.value(state) == before.value(state),
    ;

    /// The bound for `state`.
    fn get_heuristic(&mut self, state: State) -> (h: Option<Duration>)
        requires
            old(self).wf(),
        ensures
            final(self).wf(),
            h == old(self).value(state),
            final(self).follows(old(self)),
            forall|s: State| #[trigger] final(self).value(s) == old(self).value(s),
    ;
}

/// A node of a best-first search. Nodes are taken by increasing
/// `cost + heuristic`; of two nodes with the same sum the one with the
/// larger cost comes first.
#[derive(Debug, Clone, Copy)]
pub struct SearchNode<S> {
    pub state: S,
    pub cost: Time,
    pub heuristic: Duration,
}

impl<S> SearchNode<S> {
    /// The estimated cost of a path through the node.
    pub open spec fn priority(&self) -> int {
        self.cost + self.heuristic
    }

    /// Whether the node is taken before `other`.
    pub open spec fn precedes(&self, other: &SearchNode<S>) -> bool {
        self.priority() < other.priority() || (self.priority() == other.priority() && self.cost
            > other.cost)
    }

    /// Whether the node is taken before `other`.
    pub fn precedes_exec(&self, other: &SearchNode<S>) -> (r: bool)
        ensures
            r == self.precedes(other),
    {
        let a: u128 = self.f_value();
        let b: u128 = other.f_value();
        a < b || (a == b && self.cost > other.cost)
    }

    /// The estimated cost of a path through the node.
    pub fn f_value(&self) -> (r: u128)
        ensures
            r == self.priority(),
    {
        self.cost as u128 + self.heuristic as u128
    }
}

impl<S> PartialEq for SearchNode<S> {
    fn eq(&self, other: &SearchNode<S>) -> (r: bool) {
        self.f_value() == other.f_value()
    }
}

impl<S> vstd::std_specs::cmp::PartialEqSpecImpl for SearchNode<S> {
    open spec fn obeys_eq_spec() -> bool {
        true
    }

    open spec fn eq_spec(&self, other: &SearchNode<S>) -> bool {
        self.priority() == other.priority()
    }
}

impl<S> PartialOrd for SearchNode<S> {
    fn partial_cmp(&self, other: &SearchNode<S>) -> (r: Option<Ordering>) {
        let a: u128 = self.f_value();
        let b: u128 = other.f_value();
        if a == b {
            if self.cost > other.cost {
                Some(Ordering::Less)
            } else if self.cost < other.cost {
                Some(Ordering::Greater)
            } else {
                Some(Ordering::Equal)
            }
        } else if a < b {
            Some(Ordering::Less)
        } else {
            Some(Ordering::Greater)
        }
    }
}

impl<S> vstd::std_specs::cmp::PartialOrdSpecImpl for SearchNode<S> {
    open spec fn obeys_partial_cmp_spec() -> bool {
        true
    }

    open spec fn partial_cmp_spec(&self, other: &SearchNode<S>) -> Option<Ordering> {
        if self.precedes(other) {
            Some(Ordering::Less)
        } else if other.precedes(self) {
            Some(Ordering::Greater)
        } else {
            Some(Ordering::Equal)
        }
    }
}

/// What one pivot adds to the differential bound. `h_state` and `h_goal` are
/// the distances to the pivot from the state and from the goal. A pivot that
/// is the goal gives the distance from the state itself, any other pivot the
/// difference of the two distances.
pub open spec fn pivot_bound(is_goal: bool, h_state: Option<Duration>, h_goal: Option<Duration>) -> int {
    if is_goal {
        match h_state {
            Some(h) => h as int,
            None => 0,
        }
    } else {
        match (h_state, h_goal) {
            (Some(a), Some(b)) => if a >= b {
                a - b
            } else {
                b - a
            },
            _ => 0,
        }
    }
}

/// The greater of the bound so far and the bound of one more pivot.
pub fn combine_bound(
    so_far: Duration,
    is_goal: bool,
    h_state: Option<Duration>,
    h_goal: Option<Duration>,
) -> (r: Duration)
    ensures
        r == if so_far >= pivot_bound(is_goal, h_state, h_goal) {
            so_far as int
        } else {
            pivot_bound(is_goal, h_state, h_goal)
        },
{
    let bound: Duration = if is_goal {
        match h_state {
            Some(h) => h,
            None => 0,
        }
    } else {
        match (h_state, h_goal) {
            (Some(a), Some(b)) => if a >= b {
                a - b
            } else {
                b - a
            },
            _ => 0,
        }
    };
    if so_far >= bound {
        so_far
    } else {
        bound
    }
}

/// The bound of a pivot is admissible where the distances to the pivot obey
/// the triangle inequality around `distance`, the true cost from the state
/// to the goal: neither of the two is more than `distance` above the other,
/// and the distance to a pivot that is the goal is no more than `distance`.
pub proof fn lemma_pivot_bound_admissible(
    is_goal: bool,
    h_state: Option<Duration>,
    h_goal: Option<Duration>,
    distance: int,
)
    requires
        distance >= 0,
        is_goal && h_state.is_some() ==> h_state.unwrap() <= distance,
        !is_goal && h_state.is_some() && h_goal.is_some() ==> h_state.unwrap() <= distance
            + h_goal.unwrap() && h_goal.unwrap() <= distance + h_state.unwrap(),
    ensures
        0 <= pivot_bound(is_goal, h_state, h_goal) <= distance,
{
}

/// The greatest of the bounds that the first `k` pivots give for `state`,
/// and zero.
pub open spec fn differential_bound<H: Heuristic>(
    goal: State,
    pivots: Seq<State>,
    heuristics: Seq<H>,
    state: State,
    k: nat,
) -> int
    decreases k,
{
    if k == 0 {
        0
    } else {
        let rest = differential_bound(goal, pivots, heuristics, state, (k - 1) as nat);
        let is_goal = pivots[k - 1] == goal;
        let bound = pivot_bound(
            is_goal,
            heuristics[k - 1].value(state),
            if is_goal {
                None
            } else {
                heuristics[k - 1].value(goal)
            },
        );
        if rest >= bound {
            rest
        } else {
            bound
        }
    }
}

/// Whether one of the first `k` pivots is the goal.
pub open spec fn matched(goal: State, pivots: Seq<State>, k: nat) -> bool
    decreases k,
{
    k > 0 && (pivots[k - 1] == goal || matched(goal, pivots, (k - 1) as nat))
}

/// The greatest of the distances from `state` that the heuristics of those
/// of the first `k` pivots give that are the goal, or `None` where none of
/// them gives any.
pub open spec fn goal_bound<H: Heuristic>(
    goal: State,
    pivots: Seq<State>,
    heuristics: Seq<H>,
    state: State,
    k: nat,
) -> Option<Duration>
    decreases k,
{
    if k == 0 {
        None
    } else {
        let rest = goal_bound(goal, pivots, heuristics, state, (k - 1) as nat);
        if pivots[k - 1] == goal {
            match (rest, heuristics[k - 1].value(state)) {
                (Some(r), Some(h)) => Some(
                    if r >= h {
                        r
                    } else {
                        h
                    },
                ),
                (None, Some(h)) => Some(h),
                (_, None) => rest,
            }
        } else {
            rest
        }
    }
}

/// The bounds of the differential heuristic with the given goal, pivots and
/// heuristics, as a function of the state. Where a pivot is the goal, the
/// bound is the greatest distance that the heuristics of such pivots give,
/// and there is none where they give none: the goal cannot be reached then.
/// Else it is the greatest difference that any pivot gives, and zero.
pub open spec fn differential_bounds<H: Heuristic>(
    goal: State,
    pivots: Seq<State>,
    heuristics: Seq<H>,
) -> spec_fn(State) -> Option<Duration> {
    |state: State|
        {
            let count: nat = if pivots.len() <= heuristics.len() {
                pivots.len()
            } else {
                heuristics.len()
            };
            if matched(goal, pivots, count) {
                goal_bound(goal, pivots, heuristics, state, count)
            } else {
                Some(differential_bound(goal, pivots, heuristics, state, count) as u64)
            }
        }
}

/// The differential bound depends on nothing but the bounds of the
/// heuristics.
pub proof fn lemma_differential_same<H: Heuristic>(
    goal: State,
    pivots: Seq<State>,
    a: Seq<H>,
    b: Seq<H>,
    state: State,
    k: nat,
)
    requires
        k <= a.len(),
        k <= b.len(),
        forall|i: int, s: State| 0 <= i < k ==> #[trigger] a[i].value(s) == b[i].value(s),
    ensures
        differential_bound(goal, pivots, a, state, k) == differential_bound(goal, pivots, b, state, k),
        goal_bound(goal, pivots, a, state, k) == goal_bound(goal, pivots, b, state, k),
    decreases k,
{
    if k > 0 {
        lemma_differential_same(goal, pivots, a, b, state, (k - 1) as nat);
        assert(a[k - 1].value(state) == b[k - 1].value(state));
        assert(a[k - 1].value(goal) == b[k - 1].value(goal));
    }
}

/// The differential bound is no less than zero and fits where bounds are
/// kept.
pub proof fn lemma_differential_range<H: Heuristic>(
    goal: State,
    pivots: Seq<State>,
    heuristics: Seq<H>,
    state: State,
    k: nat,
)
    ensures
        0 <= differential_bound(goal, pivots, heuristics, state, k) <= u64::MAX,
    decreases k,
{
    if k > 0 {
        lemma_differential_range(goal, pivots, heuristics, state, (k - 1) as nat);
    }
}

/// The differential bound is admissible where the bound of each pivot is:
/// where none of them is more than `distance`.
pub proof fn lemma_differential_admissible<H: Heuristic>(
    goal: State,
    pivots: Seq<State>,
    heuristics: Seq<H>,
    state: State,
    k: nat,
    distance: int,
)
    requires
        distance >= 0,
        forall|i: int|
            0 <= i < k ==> pivot_bound(
                pivots[i] == goal,
                #[trigger] heuristics[i].value(state),
                if pivots[i] == goal {
                    None
                } else {
                    heuristics[i].value(goal)
                },
            ) <= distance,
    ensures
        differential_bound(goal, pivots, heuristics, state, k) <= distance,
    decreases k,
{
    if k > 0 {
        lemma_differential_admissible(goal, pivots, heuristics, state, (k - 1) as nat, distance);
        assert(pivot_bound(
            pivots[k - 1] == goal,
            heuristics[k - 1].value(state),
            if pivots[k - 1] == goal {
                None
            } else {
                heuristics[k - 1].value(goal)
            },
        ) <= distance);
    }
}

/// The differential heuristic of a task: the greatest bound that any of the
/// pivots gives, each through a heuristic of its own.
pub struct DifferentialHeuristic<H: Heuristic> {
    task: Task,
    pivots: Vec<State>,
    heuristic_to_pivots: Vec<H>,
}

impl<H: Heuristic> DifferentialHeuristic<H> {
    /// The task.
    pub closed spec fn task(&self) -> Task {
        self.task
    }

    /// The pivots.
    pub closed spec fn pivots(&self) -> Seq<State> {
        self.pivots@
    }

    /// The heuristics to the pivots, one for each.
    pub closed spec fn heuristics(&self) -> Seq<H> {
        self.heuristic_to_pivots@
    }

    /// The number of pivots that have a heuristic.
    pub open spec fn count(&self) -> nat {
        if self.pivots().len() <= self.heuristics().len() {
            self.pivots().len()
        } else {
            self.heuristics().len()
        }
    }

    pub fn new(task: Task, pivots: Vec<State>, heuristic_to_pivots: Vec<H>) -> (r: Self)
        ensures
            r.task() == task,
            r.pivots() == pivots@,
            r.heuristics() == heuristic_to_pivots@,
    {
        DifferentialHeuristic { task, pivots, heuristic_to_pivots }
    }

    /// Gives the pivots and their heuristics back.
    pub fn into_parts(self) -> (r: (Vec<State>, Vec<H>))
        ensures
            r.0@ == self.pivots(),
            r.1@ == self.heuristics(),
    {
        (self.pivots, self.heuristic_to_pivots)
    }
}

/// The differential bounds are admissible: there is a bound for a state,
/// no more than the time of any walk from the state to the goal that takes
/// no more time than there is. This holds where the heuristic to each pivot
/// gives the time of the shortest walk to the pivot, and where a pivot is
/// the goal or the walks of the system can be gone back.
pub proof fn lemma_differential_bounds_admissible<TS: TransitionSystem, H: Heuristic>(
    ts: &TS,
    goal: State,
    pivots: Seq<State>,
    heuristics: Seq<H>,
    state: State,
    distance: int,
)
    requires
        forall|i: int, s: State|
            0 <= i < pivots.len() && i < heuristics.len() ==> #[trigger] heuristics[i].value(s) == shortest(
                ts,
                s,
                pivots[i],
            ),
        symmetric(ts) || matched(
            goal,
            pivots,
            if pivots.len() <= heuristics.len() {
                pivots.len()
            } else {
                heuristics.len()
            },
        ),
        connected(ts, state, goal, distance),
        distance <= u64::MAX,
    ensures
        differential_bounds(goal, pivots, heuristics)(state).is_some(),
        differential_bounds(goal, pivots, heuristics)(state).unwrap() <= distance,
{
    let count: nat = if pivots.len() <= heuristics.len() {
        pivots.len()
    } else {
        heuristics.len()
    };
    lemma_connected_not_negative(ts, state, goal, distance);
    lemma_distance_exists(ts, state, goal, distance);
    let d = choose|d: int| 0 <= d <= distance && #[trigger] is_distance(ts, state, goal, d);
    lemma_shortest_is(ts, state, goal, d as u64);
    lemma_goal_bound_exact(ts, goal, pivots, heuristics, state, count);
    if matched(goal, pivots, count) {
        return ;
    }
    lemma_unmatched(goal, pivots, count);
    assert forall|i: int| 0 <= i < count implies pivot_bound(
        pivots[i] == goal,
        #[trigger] heuristics[i].value(state),
        if pivots[i] == goal {
            None
        } else {
            heuristics[i].value(goal)
        },
    ) <= distance by {
        let pivot = pivots[i];
        let h_state = heuristics[i].value(state);
        assert(h_state == shortest(ts, state, pivot));
        if pivot == goal {
            if h_state.is_some() {
                lemma_shortest_some(ts, state, goal);
            }
        } else {
            let h_goal = heuristics[i].value(goal);
            assert(h_goal == shortest(ts, goal, pivot));
            if h_state.is_some() && h_goal.is_some() {
                lemma_shortest_some(ts, state, pivot);
                lemma_shortest_some(ts, goal, pivot);
                let a = h_state.unwrap() as int;
                let b = h_goal.unwrap() as int;
                lemma_connected_concat(ts, state, goal, pivot, distance, b);
                assert(connected(ts, goal, state, distance));
                lemma_connected_concat(ts, goal, state, pivot, distance, a);
            }
        }
    }
    lemma_differential_admissible(goal, pivots, heuristics, state, count, distance);
    lemma_differential_range(goal, pivots, heuristics, state, count);
}

/// Where none of the first `k` pivots is the goal, none of them is.
pub proof fn lemma_unmatched(goal: State, pivots: Seq<State>, k: nat)
    requires
        !matched(goal, pivots, k),
    ensures
        forall|i: int| 0 <= i < k ==> #[trigger] pivots[i] != goal,
    decreases k,
{
    if k > 0 {
        lemma_unmatched(goal, pivots, (k - 1) as nat);
    }
}

/// Where the heuristic of every pivot that is the goal gives the time of the
/// shortest walk to it, the bound that these pivots give is that time.
pub proof fn lemma_goal_bound_exact<TS: TransitionSystem, H: Heuristic>(
    ts: &TS,
    goal: State,
    pivots: Seq<State>,
    heuristics: Seq<H>,
    state: State,
    k: nat,
)
    requires
        forall|i: int|
            0 <= i < k && pivots[i] == goal ==> (#[trigger] heuristics[i]).value(state) == shortest(
                ts,
                state,
                goal,
            ),
    ensures
        matched(goal, pivots, k) ==> goal_bound(goal, pivots, heuristics, state, k) == shortest(
            ts,
            state,
            goal,
        ),
        !matched(goal, pivots, k) ==> goal_bound(goal, pivots, heuristics, state, k).is_none(),
    decreases k,
{
    if k > 0 {
        lemma_goal_bound_exact(ts, goal, pivots, heuristics, state, (k - 1) as nat);
        if pivots[k - 1] == goal {
            assert(heuristics[k - 1].value(state) == shortest(ts, state, goal));
        }
    }
}

/// The differential heuristic is admissible: it has a bound for a state, no
/// more than the time of any walk from the state to the goal of the task
/// that takes no more time than there is. This holds where the heuristic to
/// each pivot gives the time of the shortest walk to the pivot, and where a
/// pivot is the goal or the walks of the system can be gone back.
pub proof fn lemma_differential_heuristic_admissible<TS: TransitionSystem, H: Heuristic>(
    ts: &TS,
    heuristic: &DifferentialHeuristic<H>,
    state: State,
    distance: int,
)
    requires
        forall|i: int, s: State|
            0 <= i < heuristic.count() ==> #[trigger] heuristic.heuristics()[i].value(s) == shortest(
                ts,
                s,
                heuristic.pivots()[i],
            ),
        symmetric(ts) || matched(heuristic.task().goal_state, heuristic.pivots(), heuristic.count()),
        connected(ts, state, heuristic.task().goal_state, distance),
        distance <= u64::MAX,
    ensures
        heuristic.value(state).is_some(),
        heuristic.value(state).unwrap() <= distance,
{
    lemma_differential_bounds_admissible(
        ts,
        heuristic.task().goal_state,
        heuristic.pivots(),
        heuristic.heuristics(),
        state,
        distance,
    );
}

impl<H: Heuristic> Heuristic for DifferentialHeuristic<H> {
    open spec fn wf(&self) -> bool {
        forall|i: int| 0 <= i < self.heuristics().len() ==> (#[trigger] self.heuristics()[i]).wf()
    }

    open spec fn value(&self, state: State) -> Option<Duration> {
        differential_bounds(self.task().goal_state, self.pivots(), self.heuristics())(state)
    }

    open spec fn follows(&self, before: &Self) -> bool {
        &&& self.task() == before.task()
        &&& self.pivots() == before.pivots()
        &&& self.heuristics().len() == before.heuristics().len()
        &&& forall|i: int|
            0 <= i < self.heuristics().len() ==> (#[trigger] self.heuristics()[i]).follows(
                &before.heuristics()[i],
            )
    }

    proof fn lemma_follows_self(&self) {
        assert forall|i: int| 0 <= i < self.heuristics().len() implies (
        #[trigger] self.heuristics()[i]).follows(&self.heuristics()[i]) by {
            self.heuristics()[i].lemma_follows_self();
        }
    }

    proof fn lemma_follows_on(&self, middle: &Self, before: &Self) {
        assert forall|i: int| 0 <= i < self.heuristics().len() implies (
        #[trigger] self.heuristics()[i]).follows(&before.heuristics()[i]) by {
            assert(middle.heuristics()[i].follows(&before.heuristics()[i]));
            self.heuristics()[i].lemma_follows_on(&middle.heuristics()[i], &before.heuristics()[i]);
        }
    }

    proof fn lemma_follows_value(&self, before: &Self, state: State) {
        assert forall|i: int, s: State| 0 <= i < self.count() implies #[trigger] self.heuristics()[i].value(
            s,
        ) == before.heuristics()[i].value(s) by {
            assert(self.heuristics()[i].follows(&before.heuristics()[i]));
            self.heuristics()[i].lemma_follows_value(&before.heuristics()[i], s);
        }
        lemma_differential_same(
            self.task().goal_state,
            self.pivots(),
            self.heuristics(),
            before.heuristics(),
            state,
            self.count(),
        );
    }

    fn get_heuristic(&mut self, state: State) -> (h: Option<Duration>)
        ensures
            final(self).task() == old(self).task(),
            final(self).pivots() == old(self).pivots(),
            final(self).heuristics().len() == old(self).heuristics().len(),
    {
        let mut heuristic: Duration = 0;
        let mut found: bool = false;
        let mut best: Option<Duration> = None;
        let n: usize = if self.pivots.len() <= self.heuristic_to_pivots.len() {
            self.pivots.len()
        } else {
            self.heuristic_to_pivots.len()
        };
        let goal: State = self.task.goal_state;
        let ghost before = self.heuristic_to_pivots@;
        proof {
            assert forall|j: int| 0 <= j < self.heuristic_to_pivots.len() implies (
            #[trigger] self.heuristic_to_pivots[j]).wf() by {
                assert(self.heuristics()[j].wf());
            }
            assert forall|j: int| 0 <= j < self.heuristic_to_pivots.len() implies (
            #[trigger] self.heuristic_to_pivots[j]).follows(&before[j]) by {
                before[j].lemma_follows_self();
            }
        }
        let mut i: usize = 0;
        while i < n
            invariant
                i <= n,
                n <= self.pivots.len(),
                n <= self.heuristic_to_pivots.len(),
                n == old(self).count(),
                goal == self.task.goal_state,
                before == old(self).heuristic_to_pivots@,
                forall|j: int|
                    0 <= j < self.heuristic_to_pivots.len() ==> (
                    #[trigger] self.heuristic_to_pivots[j]).wf(),
                forall|j: int, s: State|
                    0 <= j < self.heuristic_to_pivots.len() ==> #[trigger] self.heuristic_to_pivots[j].value(
                        s,
                    ) == before[j].value(s),
                forall|j: int|
                    0 <= j < self.heuristic_to_pivots.len() ==> (
                    #[trigger] self.heuristic_to_pivots[j]).follows(&before[j]),
                self.task == old(self).task,
                self.pivots == old(self).pivots,
                self.heuristic_to_pivots.len() == old(self).heuristic_to_pivots.len(),
                heuristic == differential_bound(goal, self.pivots@, before, state, i as nat),
                found == matched(goal, self.pivots@, i as nat),
                best == goal_bound(goal, self.pivots@, before, state, i as nat),
            decreases n - i,
        {
            let is_goal: bool = self.pivots[i] == goal;
            let ghost now = self.heuristic_to_pivots@;
            let h_state = self.heuristic_to_pivots[i].get_heuristic(state);
            let ghost then = self.heuristic_to_pivots@;
            let h_goal = if is_goal {
                None
            } else {
                self.heuristic_to_pivots[i].get_heuristic(goal)
            };
            proof {
                assert(h_state == now[i as int].value(state));
                assert(now[i as int].value(state) == before[i as int].value(state));
                if !is_goal {
                    assert(h_goal == then[i as int].value(goal));
                    assert(then[i as int].value(goal) == now[i as int].value(goal));
                    assert(now[i as int].value(goal) == before[i as int].value(goal));
                }
                assert forall|j: int, s: State|
                    0 <= j < self.heuristic_to_pivots.len() implies #[trigger] self.heuristic_to_pivots[j].value(
                    s,
                ) == before[j].value(s) by {
                    if j == i {
                        assert(self.heuristic_to_pivots[j].value(s) == then[j].value(s));
                        assert(then[j].value(s) == now[j].value(s));
                    } else {
                        assert(self.heuristic_to_pivots[j] == now[j]);
                    }
                    assert(now[j].value(s) == before[j].value(s));
                }
                assert forall|j: int| 0 <= j < self.heuristic_to_pivots.len() implies (
                #[trigger] self.heuristic_to_pivots[j]).follows(&before[j]) by {
                    assert(now[j].follows(&before[j]));
                    if j == i {
                        assert(then[j].follows(&now[j]));
                        then[j].lemma_follows_on(&now[j], &before[j]);
                        if is_goal {
                            assert(self.heuristic_to_pivots[j] == then[j]);
                        } else {
                            assert(self.heuristic_to_pivots[j].follows(&then[j]));
                            self.heuristic_to_pivots[j].lemma_follows_on(&then[j], &before[j]);
                        }
                    } else {
                        assert(self.heuristic_to_pivots[j] == now[j]);
                    }
                }
            }
            heuristic = combine_bound(heuristic, is_goal, h_state, h_goal);
            if is_goal {
                found = true;
                best = match (best, h_state) {
                    (Some(r), Some(h)) => Some(
                        if r >= h {
                            r
                        } else {
                            h
                        },
                    ),
                    (None, Some(h)) => Some(h),
                    (_, None) => best,
                };
            }
            i += 1;
        }
        proof {
            assert forall|j: int| 0 <= j < self.heuristics().len() implies (
            #[trigger] self.heuristics()[j]).wf() by {
                assert(self.heuristic_to_pivots[j].wf());
            }
            assert forall|j: int| 0 <= j < self.heuristics().len() implies (
            #[trigger] self.heuristics()[j]).follows(&old(self).heuristics()[j]) by {
                assert(self.heuristic_to_pivots[j].follows(&before[j]));
            }
            assert forall|s: State| #[trigger] self.value(s) == old(self).value(s) by {
                lemma_differential_same(
                    goal,
                    self.pivots@,
                    self.heuristic_to_pivots@,
                    before,
                    s,
                    n as nat,
                );
            }
        }
        proof {
            lemma_differential_range(goal, self.pivots@, before, state, n as nat);
        }
        if found {
            best
        } else {
            Some(heuristic)
        }
    }
}

} // verus!
