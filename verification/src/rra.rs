//! Reverse resumable A*: a search backwards from the goal of a task that
//! goes on, from one question to the next, where it stopped.

use vstd::prelude::*;
use vstd::multiset::*;
use crate::queue::PriorityQueue;
use crate::search::{Heuristic, SearchNode};
use crate::time::Duration;
use crate::transition::{
    connected,
    is_distance,
    lemma_connected_self,
    lemma_connected_step,
    lemma_shortest_is,
    lemma_shortest_none,
    lemma_walk_cost_not_negative,
    lower_bound,
    shortest,
    walk_cost,
    walk_end,
    walk_valid,
    Action,
    State,
    Task,
    TransitionSystem,
};
use crate::weight::{lemma_row_update, row_weight};

verus! {

/// The heuristic that knows nothing: its bound is zero for every state.
pub struct SimpleHeuristic {}

impl SimpleHeuristic {
    pub fn new<TS: TransitionSystem>(transition_system: &TS, task: Task) -> (r: SimpleHeuristic)
        ensures
            r.wf(),
            consistent(transition_system, &r),
    {
        SimpleHeuristic {  }
    }
}

impl Heuristic for SimpleHeuristic {
    open spec fn wf(&self) -> bool {
        true
    }

    open spec fn value(&self, state: State) -> Option<Duration> {
        Some(0u64)
    }

    open spec fn follows(&self, before: &Self) -> bool {
        true
    }

    proof fn lemma_follows_self(&self) {
    }

    proof fn lemma_follows_on(&self, middle: &Self, before: &Self) {
    }

    proof fn lemma_follows_value(&self, before: &Self, state: State) {
    }

    fn get_heuristic(&mut self, state: State) -> (h: Option<Duration>) {
        Some(0)
    }
}

/// Whether the heuristic has a bound for every state of the system, and the
/// bound of a state that an action leads to is no more than the bound of the
/// state that the action leaves and the time that the action takes.
pub open spec fn consistent<TS: TransitionSystem, H: Heuristic>(ts: &TS, heuristic: &H) -> bool {
    &&& forall|s: State| s < ts.n_states() ==> (#[trigger] heuristic.value(s)).is_some()
    &&& forall|s: State, a: Action|
        s < ts.n_states() && #[trigger] ts.actions(s).contains(a) ==> heuristic.value(
            ts.target(s, a),
        ).unwrap() <= ts.cost(s, a) + heuristic.value(s).unwrap()
}

/// The search backwards from the goal of a task. A state is closed once the
/// search has expanded it; the cost recorded for it then is the time of the
/// shortest walk from it to the goal, and stays.
pub struct ReverseResumableAStar<'a, TS: TransitionSystem, H: Heuristic> {
    transition_system: &'a TS,
    task: Task,
    heuristic: H,
    queue: PriorityQueue<State>,
    distance: Vec<Option<Duration>>,
    closed: Vec<bool>,
}

impl<'a, TS: TransitionSystem, H: Heuristic> ReverseResumableAStar<'a, TS, H> {
    /// The transition system that is searched.
    pub closed spec fn transition_system(&self) -> &'a TS {
        self.transition_system
    }

    /// The task from whose goal the search starts.
    pub closed spec fn task(&self) -> Task {
        self.task
    }

    /// Whether the search has closed `state`.
    pub closed spec fn is_closed(&self, state: State) -> bool {
        state < self.closed.len() && self.closed[state as int]
    }

    /// The cost of the best walk from `state` to the goal that the search
    /// has found so far.
    pub closed spec fn recorded(&self, state: State) -> Option<Duration> {
        if state < self.distance.len() {
            self.distance[state as int]
        } else {
            None
        }
    }

    /// The bound of the search for a state is the time of the shortest walk
    /// from the state to the goal.
    pub proof fn lemma_value(&self, state: State)
        ensures
            self.value(state) == shortest(self.transition_system(), state, self.task().goal_state),
    {
    }

    /// The node that stands in the queue for `state` at the cost `cost`.
    spec fn entry(&self, state: State, cost: Duration) -> SearchNode<State> {
        SearchNode { state, cost, heuristic: self.heuristic.value(state).unwrap() }
    }

    /// Whether the search has looked at the action with the number `k` that
    /// arrives at the closed state `to`: the state that it comes from is
    /// closed too, or has a cost recorded that is no more than the way
    /// through `to` costs.
    spec fn relaxed(&self, to: State, k: int) -> bool {
        let action = self.transition_system.reverse_actions(to)[k];
        let from = self.transition_system.source(to, action);
        let through = self.distance[to as int].unwrap() + self.transition_system.cost(from, action);
        ||| from >= self.closed.len()
        ||| self.closed[from as int]
        ||| through > u64::MAX
        ||| self.distance[from as int].is_some() && self.distance[from as int].unwrap() <= through
    }

    /// All that holds of the search but that every arrival at a closed state
    /// has been looked at.
    spec fn tables_ok(&self) -> bool {
        let ts = self.transition_system;
        let goal = self.task.goal_state;
        &&& ts.wf()
        &&& self.heuristic.wf()
        &&& consistent(ts, &self.heuristic)
        &&& self.queue.wf()
        &&& self.distance.len() == ts.n_states()
        &&& self.closed.len() == ts.n_states()
        &&& forall|x: SearchNode<State>| #[trigger]
            self.queue.contents().count(x) > 0 ==> {
                &&& x.state < self.distance.len()
                &&& self.distance[x.state as int].is_some()
                &&& self.distance[x.state as int].unwrap() <= x.cost
                &&& self.heuristic.value(x.state) == Some(x.heuristic)
            }
        &&& forall|s: int|
            0 <= s < self.distance.len() && (#[trigger] self.distance[s]).is_some() ==> connected(
                ts,
                s as State,
                goal,
                self.distance[s].unwrap() as int,
            )
        &&& forall|s: int|
            0 <= s < self.closed.len() && #[trigger] self.closed[s] ==> self.distance[s].is_some()
                && lower_bound(ts, s as State, goal, self.distance[s].unwrap() as int)
        &&& forall|s: int|
            0 <= s < self.distance.len() && !self.closed[s] && (#[trigger] self.distance[s]).is_some()
                ==> self.queue.contents().count(self.entry(s as State, self.distance[s].unwrap())) > 0
        &&& goal < self.distance.len() ==> self.distance[goal as int] == Some(0u64)
    }

    /// Whether every arrival at a closed state has been looked at, but for
    /// the arrivals at `open` from the number `done` on.
    spec fn relaxed_but(&self, open: Option<State>, done: int) -> bool {
        forall|to: State, k: int|
            to < self.closed.len() && self.closed[to as int] && 0 <= k
                < self.transition_system.reverse_actions(to).len() && (open != Some(to) || k < done)
                ==> #[trigger] self.relaxed(to, k)
    }

    /// Along a walk to the goal from a state that is not closed, some state
    /// stands in the queue with a priority that is no more than the time of
    /// the walk and the bound of the state that the walk begins in.
    proof fn lemma_frontier(&self, from: State, actions: Seq<Action>)
        requires
            self.wf(),
            from < self.closed.len(),
            !self.closed[from as int],
            walk_valid(self.transition_system, from, actions),
            walk_end(self.transition_system, from, actions) == self.task.goal_state,
            walk_cost(self.transition_system, from, actions) <= u64::MAX,
        ensures
            exists|x: SearchNode<State>|
                self.queue.contents().count(x) > 0 && #[trigger] x.priority() <= walk_cost(
                    self.transition_system,
                    from,
                    actions,
                ) + self.heuristic.value(from).unwrap(),
        decreases actions.len(),
    {
        let ts = self.transition_system;
        let goal = self.task.goal_state;
        if actions.len() == 0 {
            let x = self.entry(goal, 0);
            assert(self.distance[goal as int] == Some(0u64));
            assert(self.queue.contents().count(x) > 0);
            assert(x.priority() <= 0 + self.heuristic.value(from).unwrap());
        } else {
            let action = actions[0];
            let to = ts.target(from, action);
            let rest = actions.skip(1);
            ts.lemma_reverse(from, action);
            lemma_walk_cost_not_negative(ts, to, rest);
            if self.closed[to as int] {
                let k = ts.reverse_actions(to).index_of(action);
                assert(self.relaxed(to, k));
                assert(connected(ts, to, goal, walk_cost(ts, to, rest))) by {
                    assert(walk_valid(ts, to, rest) && walk_end(ts, to, rest) == goal && walk_cost(
                        ts,
                        to,
                        rest,
                    ) == walk_cost(ts, to, rest));
                }
                assert(self.distance[to as int].unwrap() <= walk_cost(ts, to, rest));
                let reached = self.distance[from as int].unwrap();
                let x = self.entry(from, reached);
                assert(self.queue.contents().count(x) > 0);
                assert(x.priority() <= walk_cost(ts, from, actions) + self.heuristic.value(
                    from,
                ).unwrap());
            } else {
                self.lemma_frontier(to, rest);
                let x = choose|x: SearchNode<State>|
                    self.queue.contents().count(x) > 0 && #[trigger] x.priority() <= walk_cost(
                        ts,
                        to,
                        rest,
                    ) + self.heuristic.value(to).unwrap();
                assert(ts.actions(from).contains(action));
                assert(self.heuristic.value(to).unwrap() <= ts.cost(from, action)
                    + self.heuristic.value(from).unwrap());
                assert(x.priority() <= walk_cost(ts, from, actions) + self.heuristic.value(
                    from,
                ).unwrap());
            }
        }
    }

    /// The search from the goal of `task`, with nothing closed yet. The
    /// heuristic bounds the cost from a state back to the initial state.
    pub fn new(transition_system: &'a TS, task: Task, heuristic: H) -> (r: Self)
        requires
            transition_system.wf(),
            heuristic.wf(),
            consistent(transition_system, &heuristic),
        ensures
            r.wf(),
            r.transition_system() == transition_system,
            r.task() == task,
            forall|s: State| !r.is_closed(s),
    {
        broadcast use vstd::multiset::group_multiset_axioms;

        let mut heuristic = heuristic;
        let ghost given = heuristic;
        let n: usize = transition_system.num_states();
        let mut distance: Vec<Option<Duration>> = Vec::new();
        let mut closed: Vec<bool> = Vec::new();
        let mut s: usize = 0;
        while s < n
            invariant
                s <= n,
                distance.len() == s,
                closed.len() == s,
                forall|q: int| 0 <= q < s ==> (#[trigger] distance[q]).is_none(),
                forall|q: int| 0 <= q < s ==> !(#[trigger] closed[q]),
            decreases n - s,
        {
            distance.push(None);
            closed.push(false);
            s += 1;
        }
        let mut queue: PriorityQueue<State> = PriorityQueue::new();
        if task.goal_state < n {
            let bound = heuristic.get_heuristic(task.goal_state);
            proof {
                assert(given.value(task.goal_state).is_some());
                assert forall|x: State| #[trigger] heuristic.value(x) == given.value(x) by {}
            }
            match bound {
                Some(h) => {
                    distance.set(task.goal_state, Some(0));
                    queue.push(SearchNode { state: task.goal_state, cost: 0, heuristic: h });
                    proof {
                        lemma_connected_self(transition_system, task.goal_state);
                    }
                },
                None => {},
            }
        }
        let r = ReverseResumableAStar { transition_system, task, heuristic, queue, distance, closed };
        proof {
            assert(consistent(transition_system, &r.heuristic)) by {
                assert forall|x: State| #[trigger] r.heuristic.value(x) == given.value(x) by {}
            }
            assert(r.tables_ok());
            assert(r.relaxed_but(None, 0));
        }
        r
    }
}

impl<'a, TS: TransitionSystem, H: Heuristic> Heuristic for ReverseResumableAStar<'a, TS, H> {
    closed spec fn wf(&self) -> bool {
        &&& self.tables_ok()
        &&& self.relaxed_but(None, 0)
    }

    /// The time of the shortest walk from `state` to the goal.
    closed spec fn value(&self, state: State) -> Option<Duration> {
        shortest(self.transition_system, state, self.task.goal_state)
    }

    /// The search goes on in the same system, from the same goal.
    closed spec fn follows(&self, before: &Self) -> bool {
        self.transition_system == before.transition_system && self.task == before.task
    }

    proof fn lemma_follows_self(&self) {
    }

    proof fn lemma_follows_on(&self, middle: &Self, before: &Self) {
    }

    proof fn lemma_follows_value(&self, before: &Self, state: State) {
    }

    /// The time of the shortest walk from `state` to the goal, or `None`
    /// where there is none. The search goes on until it has closed `state`
    /// or comes to its end.
    fn get_heuristic(&mut self, state: State) -> (h: Option<Duration>)
        ensures
            final(self).transition_system() == old(self).transition_system(),
            final(self).task() == old(self).task(),
            forall|s: State| #[trigger]
                old(self).is_closed(s) ==> final(self).is_closed(s) && final(self).recorded(s)
                    == old(self).recorded(s),
            h == shortest(old(self).transition_system(), state, old(self).task().goal_state),
            h.is_some() ==> final(self).is_closed(state) || state >= final(self).transition_system().n_states(),
    {
        broadcast use vstd::multiset::group_multiset_axioms;

        let n: usize = self.distance.len();
        let ghost ts = self.transition_system;
        let ghost goal = self.task.goal_state;
        if state >= n {
            if state == self.task.goal_state {
                proof {
                    lemma_connected_self(ts, state);
                    assert forall|cost: int| #[trigger] connected(ts, state, goal, cost) implies 0
                        <= cost by {
                        let actions = choose|actions: Seq<Action>|
                            walk_valid(ts, state, actions) && #[trigger] walk_end(ts, state, actions)
                                == goal && walk_cost(ts, state, actions) == cost;
                        lemma_walk_cost_not_negative(ts, state, actions);
                    }
                    lemma_shortest_is(ts, state, goal, 0);
                }
                return Some(0);
            }
            proof {
                assert forall|cost: int| cost <= u64::MAX implies !#[trigger] connected(
                    ts,
                    state,
                    goal,
                    cost,
                ) by {
                    if connected(ts, state, goal, cost) {
                        let actions = choose|actions: Seq<Action>|
                            walk_valid(ts, state, actions) && #[trigger] walk_end(ts, state, actions)
                                == goal && walk_cost(ts, state, actions) == cost;
                        assert(actions.len() > 0);
                    }
                }
                lemma_shortest_none(ts, state, goal);
            }
            return None;
        }
        loop
            invariant
                self.wf(),
                n == self.distance.len(),
                state < n,
                ts == self.transition_system,
                goal == self.task.goal_state,
                self.transition_system == old(self).transition_system,
                self.task == old(self).task,
                old(self).closed.len() == n,
                old(self).distance.len() == n,
                self.closed.len() == n,
                forall|s: int|
                    0 <= s < n && #[trigger] old(self).closed[s] ==> self.closed[s]
                        && self.distance[s] == old(self).distance[s],
            decreases row_weight(self.distance@), self.queue.spec_len(),
        {
            if self.closed[state] {
                proof {
                    assert(is_distance(ts, state, goal, self.distance[state as int].unwrap() as int));
                    lemma_shortest_is(ts, state, goal, self.distance[state as int].unwrap());
                }
                return self.distance[state];
            }
            let ghost before = *self;
            let current = match self.queue.pop() {
                Some(c) => c,
                None => {
                    proof {
                        assert forall|cost: int| cost <= u64::MAX implies !#[trigger] connected(
                            ts,
                            state,
                            goal,
                            cost,
                        ) by {
                            if connected(ts, state, goal, cost) {
                                let actions = choose|actions: Seq<Action>|
                                    walk_valid(ts, state, actions) && #[trigger] walk_end(
                                        ts,
                                        state,
                                        actions,
                                    ) == goal && walk_cost(ts, state, actions) == cost;
                                before.lemma_frontier(state, actions);
                                before.queue.lemma_len();
                            }
                        }
                        lemma_shortest_none(ts, state, goal);
                        assert(self.queue.contents() == before.queue.contents());
                        assert(self.tables_ok());
                        assert(self.relaxed_but(None, 0)) by {
                            assert forall|to: State, k: int|
                                to < self.closed.len() && self.closed[to as int] && 0 <= k
                                    < self.transition_system.reverse_actions(to).len() implies #[trigger] self.relaxed(
                                to,
                                k,
                            ) by {
                                assert(before.relaxed(to, k));
                            }
                        }
                    }
                    return None;
                },
            };
            let here: State = current.state;
            proof {
                assert(before.queue.contents().count(current) > 0);
                assert forall|x: SearchNode<State>| #[trigger]
                    self.queue.contents().count(x) > 0 implies before.queue.contents().count(x)
                    > 0 by {}
            }
            if self.closed[here] {
                proof {
                    assert(self.tables_ok());
                    assert(self.relaxed_but(None, 0)) by {
                        assert forall|to: State, k: int|
                            to < self.closed.len() && self.closed[to as int] && 0 <= k
                                < self.transition_system.reverse_actions(to).len() implies #[trigger] self.relaxed(to, k) by {
                            assert(before.relaxed(to, k));
                        }
                    }
                }
                continue ;
            }
            let reached: Duration = match self.distance[here] {
                Some(d) => d,
                None => {
                    proof {
                        assert(false);
                    }
                    continue ;
                },
            };
            if current.cost > reached {
                proof {
                    assert(self.tables_ok()) by {
                        assert forall|s: int|
                            0 <= s < self.distance.len() && !self.closed[s] && (
                            #[trigger] self.distance[s]).is_some() implies self.queue.contents().count(
                            self.entry(s as State, self.distance[s].unwrap()),
                        ) > 0 by {
                            let e = self.entry(s as State, self.distance[s].unwrap());
                            assert(before.queue.contents().count(e) > 0);
                            assert(e != current);
                        }
                    }
                    assert(self.relaxed_but(None, 0)) by {
                        assert forall|to: State, k: int|
                            to < self.closed.len() && self.closed[to as int] && 0 <= k
                                < self.transition_system.reverse_actions(to).len() implies #[trigger] self.relaxed(to, k) by {
                            assert(before.relaxed(to, k));
                        }
                    }
                }
                continue ;
            }
            proof {
                // No walk from here to the goal is shorter than what is
                // recorded.
                assert(current.cost == reached);
                assert(before.heuristic.value(here) == Some(current.heuristic));
                assert forall|cost: int| #[trigger] connected(ts, here, goal, cost) implies reached
                    <= cost by {
                    if cost <= u64::MAX {
                        let actions = choose|actions: Seq<Action>|
                            walk_valid(ts, here, actions) && #[trigger] walk_end(ts, here, actions)
                                == goal && walk_cost(ts, here, actions) == cost;
                        before.lemma_frontier(here, actions);
                        let x = choose|x: SearchNode<State>|
                            before.queue.contents().count(x) > 0 && #[trigger] x.priority() <= walk_cost(
                                ts,
                                here,
                                actions,
                            ) + before.heuristic.value(here).unwrap();
                        assert(!x.precedes(&current));
                    }
                }
            }
            self.closed.set(here, true);
            let ghost table0 = self.distance@;
            let ghost len0 = self.queue.spec_len();
            proof {
                assert(self.tables_ok()) by {
                    assert forall|s: int|
                        0 <= s < self.distance.len() && !self.closed[s] && (
                        #[trigger] self.distance[s]).is_some() implies self.queue.contents().count(
                        self.entry(s as State, self.distance[s].unwrap()),
                    ) > 0 by {
                        let e = self.entry(s as State, self.distance[s].unwrap());
                        assert(before.queue.contents().count(e) > 0);
                        assert(e != current);
                    }
                }
                assert(self.relaxed_but(Some(here), 0)) by {
                    assert forall|to: State, k: int|
                        to < self.closed.len() && self.closed[to as int] && 0 <= k
                            < self.transition_system.reverse_actions(to).len() && to != here implies #[trigger] self.relaxed(to, k) by {
                        assert(before.relaxed(to, k));
                    }
                }
            }
            let actions = self.transition_system.reverse_actions_from(here);
            let mut k: usize = 0;
            while k < actions.len()
                invariant
                    k <= actions.len(),
                    actions@ == self.transition_system.reverse_actions(here),
                    here < n,
                    self.tables_ok(),
                    self.relaxed_but(Some(here), k as int),
                    n == self.distance.len(),
                    ts == self.transition_system,
                    goal == self.task.goal_state,
                    self.closed[here as int],
                    self.distance[here as int] == Some(reached),
                    self.transition_system == old(self).transition_system,
                    self.task == old(self).task,
                    old(self).closed.len() == n,
                    old(self).distance.len() == n,
                    self.closed.len() == n,
                    forall|s: int|
                        0 <= s < n && #[trigger] old(self).closed[s] ==> self.closed[s]
                            && self.distance[s] == old(self).distance[s],
                    row_weight(self.distance@) + self.queue.spec_len() <= row_weight(table0) + len0,
                    self.queue.spec_len() >= len0,
                decreases actions.len() - k,
            {
                let action: Action = actions[k];
                proof {
                    assert(actions@.contains(action));
                }
                let from: State = self.transition_system.reverse_transition(here, &action);
                let cost: Duration = self.transition_system.reverse_transition_cost(here, &action);
                let ghost mid = *self;
                if self.closed[from] || cost > u64::MAX - reached {
                    proof {
                        assert(self.relaxed(here, k as int));
                    }
                    k += 1;
                    continue ;
                }
                let found: Duration = reached + cost;
                let improved: bool = match self.distance[from] {
                    Some(d) => found < d,
                    None => true,
                };
                if !improved {
                    proof {
                        assert(self.relaxed(here, k as int));
                    }
                    k += 1;
                    continue ;
                }
                let answer = self.heuristic.get_heuristic(from);
                proof {
                    assert(mid.heuristic.value(from).is_some());
                    assert forall|x: State| #[trigger] self.heuristic.value(x) == mid.heuristic.value(
                        x,
                    ) by {}
                }
                let bound: Duration = match answer {
                    Some(b) => b,
                    None => {
                        proof {
                            assert(false);
                        }
                        k += 1;
                        continue ;
                    },
                };
                let ghost table1 = self.distance@;
                let ghost queue1 = self.queue.contents();
                let entry = SearchNode { state: from, cost: found, heuristic: bound };
                self.distance.set(from, Some(found));
                self.queue.push(entry);
                proof {
                    lemma_row_update(table1, from as int, Some(found));
                    lemma_connected_step(ts, from, action, goal, reached as int);
                    assert(from != goal);
                    assert(entry == self.entry(from, found));
                    assert(self.tables_ok()) by {
                        assert(consistent(ts, &self.heuristic));
                        assert forall|x: SearchNode<State>| #[trigger]
                            self.queue.contents().count(x) > 0 implies {
                            &&& x.state < self.distance.len()
                            &&& self.distance[x.state as int].is_some()
                            &&& self.distance[x.state as int].unwrap() <= x.cost
                            &&& self.heuristic.value(x.state) == Some(x.heuristic)
                        } by {
                            if x != entry {
                                assert(queue1.count(x) > 0);
                                assert(mid.queue.contents().count(x) > 0);
                            }
                        }
                        assert forall|s: int|
                            0 <= s < self.distance.len() && !self.closed[s] && (
                            #[trigger] self.distance[s]).is_some() implies self.queue.contents().count(
                            self.entry(s as State, self.distance[s].unwrap()),
                        ) > 0 by {
                            if s != from {
                                assert(mid.distance[s].is_some());
                                let e = mid.entry(s as State, mid.distance[s].unwrap());
                                assert(mid.queue.contents().count(e) > 0);
                                assert(e == self.entry(s as State, self.distance[s].unwrap()));
                            }
                        }
                        assert forall|s: int|
                            0 <= s < self.distance.len() && (#[trigger] self.distance[s]).is_some() implies connected(
                            ts,
                            s as State,
                            goal,
                            self.distance[s].unwrap() as int,
                        ) by {
                            if s != from {
                                assert(mid.distance[s].is_some());
                            }
                        }
                        assert forall|s: int|
                            0 <= s < self.closed.len() && #[trigger] self.closed[s] implies self.distance[s].is_some()
                            && lower_bound(ts, s as State, goal, self.distance[s].unwrap() as int) by {
                            assert(mid.closed[s]);
                        }
                    }
                    assert(self.relaxed_but(Some(here), k + 1)) by {
                        assert forall|to: State, j: int|
                            to < self.closed.len() && self.closed[to as int] && 0 <= j
                                < self.transition_system.reverse_actions(to).len() && (to != here
                                || j < k + 1) implies #[trigger] self.relaxed(to, j) by {
                            if to == here && j == k {
                            } else {
                                assert(mid.relaxed(to, j));
                            }
                        }
                    }
                }
                k += 1;
            }
            proof {
                assert(self.relaxed_but(None, 0)) by {
                    assert forall|to: State, j: int|
                        to < self.closed.len() && self.closed[to as int] && 0 <= j
                            < self.transition_system.reverse_actions(to).len() implies #[trigger] self.relaxed(to, j) by {}
                }
            }
        }
    }
}

} // verus!
