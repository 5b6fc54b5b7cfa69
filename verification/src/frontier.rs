//! The frontier of a safe-interval search: what has to hold of the queue and
//! of the table of best arrivals for the first goal that the search takes
//! out of the queue to be the best.

use vstd::prelude::*;
use vstd::multiset::*;
use crate::constraint::{blocked, ConstraintSet};
use crate::intervals::{covers, feasible_arrival, held};
use crate::plans::{lemma_plan_suffix, lemma_safe_interval_unique};
use crate::search::{SearchNode, Solution};
use crate::search_tree::{tables_ok, SippNode};
use crate::sipp::{
    admissible,
    admissible_for,
    counts_from,
    best_of_all,
    best_of_task,
    maximal_safe_interval,
    plan_of_task,
    plan_to_goal,
    single_start,
    steady,
    step_ok,
    stop_ok,
    valid_plan,
    SippState,
    SippTask,
};
use crate::time::{Duration, Interval, Time};
use crate::transition::{Action, State, Task, TransitionSystem};

verus! {

/// The best arrival that the table holds for the safe interval `j` of the
/// state `s`.
pub(crate) open spec fn best(distance: Seq<Vec<Option<Time>>>, s: State, j: int) -> Option<Time> {
    distance[s as int]@[j]
}

/// Whether every arrival that the table holds lies in its safe interval.
pub(crate) open spec fn table_within(safe: Seq<Vec<Interval>>, distance: Seq<Vec<Option<Time>>>) -> bool {
    forall|s: State, j: int|
        s < safe.len() && 0 <= j < safe[s as int]@.len() && (#[trigger] best(distance, s, j)).is_some()
            ==> safe[s as int]@[j].holds(best(distance, s, j).unwrap() as int)
}

/// The state `s` in its safe interval `j`.
pub(crate) open spec fn place(safe: Seq<Vec<Interval>>, s: State, j: int) -> SippState {
    SippState { safe_interval: safe[s as int]@[j], internal_state: s }
}

/// Whether `e` stands for a node of the tree at the cost of the node, which
/// is no less than the best arrival at the state of the node, with a
/// heuristic that is no more than the bound of the state.
pub(crate) open spec fn entry_ok(
    hv: spec_fn(State) -> Option<Duration>,
    distance: Seq<Vec<Option<Time>>>,
    nodes: Seq<SippNode>,
    e: SearchNode<usize>,
) -> bool {
    let node = nodes[e.state as int];
    let s = node.state.internal_state;
    &&& e.state < nodes.len()
    &&& e.cost == node.cost
    &&& s < distance.len()
    &&& node.slot < distance[s as int]@.len()
    &&& best(distance, s, node.slot as int).is_some()
    &&& best(distance, s, node.slot as int).unwrap() <= e.cost
    &&& hv(s).is_some() ==> e.heuristic <= hv(s).unwrap()
}

/// Whether the queue, or what is about to go into it, holds the safe
/// interval `j` of the state `s` at the cost `b`.
pub(crate) open spec fn has_entry(
    queue: Multiset<SearchNode<usize>>,
    extra: Seq<SearchNode<usize>>,
    nodes: Seq<SippNode>,
    s: State,
    j: int,
    b: Time,
) -> bool {
    exists|e: SearchNode<usize>|
        (queue.count(e) > 0 || extra.contains(e)) && #[trigger] holds_place(nodes, e, s, j, b)
}

pub(crate) open spec fn holds_place(nodes: Seq<SippNode>, e: SearchNode<usize>, s: State, j: int, b: Time) -> bool {
    &&& e.state < nodes.len()
    &&& nodes[e.state as int].state.internal_state == s
    &&& nodes[e.state as int].slot == j
    &&& e.cost == b
}

/// Whether the agent, in the safe interval `j` of `s` since the time `b`,
/// can arrive at `t` in the safe interval `j2` of the state that the action
/// with the number `k` leads to, early enough to reach the goal by
/// `horizon` as far as the bounds tell.
pub(crate) open spec fn can_arrive<TS: TransitionSystem>(
    ts: &TS,
    constraints: &ConstraintSet,
    hv: spec_fn(State) -> Option<Duration>,
    horizon: Time,
    safe: Seq<Vec<Interval>>,
    s: State,
    j: int,
    b: Time,
    k: int,
    j2: int,
    t: Time,
) -> bool {
    let a = ts.actions(s)[k];
    let to_state = ts.target(s, a);
    &&& step_ok(ts, constraints, place(safe, s, j), b, a, place(safe, to_state, j2), t)
    &&& safe[to_state as int]@[j2].holds(t as int)
    &&& hv(to_state).is_some()
    &&& t + hv(to_state).unwrap() <= horizon
}

/// Whether the search has looked at the arrival in the safe interval `j2`
/// by the action `k` from the safe interval `j` of `s`: the table holds an
/// arrival there that is no later than any at which the agent can arrive
/// from its best arrival here.
pub(crate) open spec fn edge_done<TS: TransitionSystem>(
    ts: &TS,
    constraints: &ConstraintSet,
    hv: spec_fn(State) -> Option<Duration>,
    horizon: Time,
    safe: Seq<Vec<Interval>>,
    distance: Seq<Vec<Option<Time>>>,
    s: State,
    j: int,
    k: int,
    j2: int,
) -> bool {
    let to_state = ts.target(s, ts.actions(s)[k]);
    forall|t: Time| #[trigger]
        can_arrive(ts, constraints, hv, horizon, safe, s, j, best(distance, s, j).unwrap(), k, j2, t)
            ==> best(distance, to_state, j2).is_some() && best(distance, to_state, j2).unwrap() <= t
}

/// Whether the search has looked at every arrival from the safe interval
/// `j` of `s` that comes before the arrival in `j2` by the action `k`.
pub(crate) open spec fn edges_done<TS: TransitionSystem>(
    ts: &TS,
    constraints: &ConstraintSet,
    hv: spec_fn(State) -> Option<Duration>,
    horizon: Time,
    safe: Seq<Vec<Interval>>,
    distance: Seq<Vec<Option<Time>>>,
    s: State,
    j: int,
    k: int,
    j2: int,
) -> bool {
    forall|x: int, y: int|
        0 <= x < ts.actions(s).len() && 0 <= y < safe[ts.target(s, ts.actions(s)[x]) as int]@.len() && (x
            < k || (x == k && y < j2)) ==> #[trigger] edge_done(
            ts,
            constraints,
            hv,
            horizon,
            safe,
            distance,
            s,
            j,
            x,
            y,
        )
}

/// Whether the search has looked at every arrival from the safe interval
/// `j` of `s`.
pub(crate) open spec fn state_done<TS: TransitionSystem>(
    ts: &TS,
    constraints: &ConstraintSet,
    hv: spec_fn(State) -> Option<Duration>,
    horizon: Time,
    safe: Seq<Vec<Interval>>,
    distance: Seq<Vec<Option<Time>>>,
    s: State,
    j: int,
) -> bool {
    edges_done(ts, constraints, hv, horizon, safe, distance, s, j, ts.actions(s).len() as int, 0)
}

/// Whether the table holds, for the safe interval of `z`, an arrival that is
/// no later than `t`.
pub(crate) open spec fn started(safe: Seq<Vec<Interval>>, distance: Seq<Vec<Option<Time>>>, z: SippState, t: Time) -> bool {
    exists|j: int|
        0 <= j < safe[z.internal_state as int]@.len() && #[trigger] safe[z.internal_state as int]@[j]
            == z.safe_interval && best(distance, z.internal_state, j).is_some() && best(
            distance,
            z.internal_state,
            j,
        ).unwrap() <= t
}

/// Whether the search has taken the safe interval `j` of `s` out of the
/// queue as a goal, at the cost `b`.
pub(crate) open spec fn recorded(nodes: Seq<SippNode>, goals: Seq<usize>, s: State, j: int, b: Time) -> bool {
    exists|q: int|
        0 <= q < goals.len() && (#[trigger] goals[q]) < nodes.len()
            && nodes[goals[q] as int].state.internal_state == s && nodes[goals[q] as int].slot == j
            && nodes[goals[q] as int].cost == b
}

/// Whether a safe interval that is the goal, reached at a time that counts,
/// stands in the queue or has been taken out of it as a goal.
pub(crate) open spec fn goal_kept(
    task: &SippTask,
    distance: Seq<Vec<Option<Time>>>,
    nodes: Seq<SippNode>,
    queue: Multiset<SearchNode<usize>>,
    extra: Seq<SearchNode<usize>>,
    goals: Seq<usize>,
    s: State,
    j: int,
) -> bool {
    task.internal_task().goal_reached(s) && task.goal_state().safe_interval.holds(
        best(distance, s, j).unwrap() as int,
    ) ==> has_entry(queue, extra, nodes, s, j, best(distance, s, j).unwrap()) || recorded(
        nodes,
        goals,
        s,
        j,
        best(distance, s, j).unwrap(),
    )
}

/// Whether the search is where a best-first search has to be: what stands
/// in the queue stands for nodes of the tree; every safe interval that has
/// been reached, but the one that is being expanded, stands in the queue at
/// its best arrival or has been expanded from it; a goal that has been
/// reached stands in the queue or has been taken out of it as a goal; and
/// every initial state has been reached.
pub(crate) open spec fn front_ok<TS: TransitionSystem>(
    ts: &TS,
    constraints: &ConstraintSet,
    task: &SippTask,
    hv: spec_fn(State) -> Option<Duration>,
    goals: Seq<usize>,
    safe: Seq<Vec<Interval>>,
    distance: Seq<Vec<Option<Time>>>,
    nodes: Seq<SippNode>,
    queue: Multiset<SearchNode<usize>>,
    extra: Seq<SearchNode<usize>>,
    current: Option<(State, int)>,
    upto: int,
) -> bool {
    let horizon = task.goal_state().safe_interval.end;
    &&& forall|e: SearchNode<usize>| #[trigger] queue.count(e) > 0 ==> entry_ok(hv, distance, nodes, e)
    &&& forall|q: int| 0 <= q < extra.len() ==> entry_ok(hv, distance, nodes, #[trigger] extra[q])
    &&& forall|s: State, j: int|
        s < safe.len() && 0 <= j < safe[s as int]@.len() && (#[trigger] best(distance, s, j)).is_some()
            && current != Some((s, j)) ==> has_entry(
            queue,
            extra,
            nodes,
            s,
            j,
            best(distance, s, j).unwrap(),
        ) || state_done(ts, constraints, hv, horizon, safe, distance, s, j)
    &&& forall|s: State, j: int|
        s < safe.len() && 0 <= j < safe[s as int]@.len() && (#[trigger] best(distance, s, j)).is_some()
            && current != Some((s, j)) ==> goal_kept(task, distance, nodes, queue, extra, goals, s, j)
    &&& forall|k: int|
        0 <= k < upto && k < task.initial_times().len() && k < task.initial_states().len() && (
        #[trigger] task.initial_states()[k]).internal_state < safe.len() && stop_ok(
            constraints,
            task.initial_states()[k],
            task.initial_times()[k],
        ) ==> started(safe, distance, task.initial_states()[k], task.initial_times()[k])
}

/// Whether `after` is `before` with one arrival made better: the arrival in
/// the safe interval `j` of `s` is `t` now, less than it was.
pub(crate) open spec fn improved_to(
    before: Seq<Vec<Option<Time>>>,
    after: Seq<Vec<Option<Time>>>,
    s: State,
    j: int,
    t: Time,
) -> bool {
    &&& before.len() == after.len()
    &&& s < before.len()
    &&& 0 <= j < before[s as int]@.len()
    &&& forall|x: int| 0 <= x < before.len() ==> (#[trigger] after[x])@.len() == before[x]@.len()
    &&& best(after, s, j) == Some(t)
    &&& best(before, s, j).is_some() ==> t < best(before, s, j).unwrap()
    &&& forall|x: State, y: int|
        x < before.len() && 0 <= y < before[x as int]@.len() && (x != s || y != j) ==> #[trigger] best(
            after,
            x,
            y,
        ) == best(before, x, y)
}

/// An arrival that the search has looked at stays looked at when an arrival
/// elsewhere gets better.
pub(crate) proof fn lemma_edge_done_stays<TS: TransitionSystem>(
    ts: &TS,
    constraints: &ConstraintSet,
    hv: spec_fn(State) -> Option<Duration>,
    horizon: Time,
    safe: Seq<Vec<Interval>>,
    before: Seq<Vec<Option<Time>>>,
    after: Seq<Vec<Option<Time>>>,
    to_state: State,
    j2: int,
    t: Time,
    s: State,
    j: int,
    k: int,
    y: int,
)
    requires
        ts.wf(),
        improved_to(before, after, to_state, j2, t),
        safe.len() == before.len(),
        safe.len() == ts.n_states(),
        forall|x: int| 0 <= x < safe.len() ==> (#[trigger] before[x])@.len() == safe[x]@.len(),
        s < safe.len(),
        0 <= j < safe[s as int]@.len(),
        s != to_state || j != j2,
        0 <= k < ts.actions(s).len(),
        0 <= y < safe[ts.target(s, ts.actions(s)[k]) as int]@.len(),
        edge_done(ts, constraints, hv, horizon, safe, before, s, j, k, y),
    ensures
        edge_done(ts, constraints, hv, horizon, safe, after, s, j, k, y),
{
    let a = ts.actions(s)[k];
    let to = ts.target(s, a);
    assert(ts.actions(s).contains(a));
    ts.lemma_reverse(s, a);
    assert(best(after, s, j) == best(before, s, j));
    assert forall|arrival: Time| #[trigger]
        can_arrive(
            ts,
            constraints,
            hv,
            horizon,
            safe,
            s,
            j,
            best(after, s, j).unwrap(),
            k,
            y,
            arrival,
        ) implies best(after, to, y).is_some() && best(after, to, y).unwrap() <= arrival by {
        assert(can_arrive(
            ts,
            constraints,
            hv,
            horizon,
            safe,
            s,
            j,
            best(before, s, j).unwrap(),
            k,
            y,
            arrival,
        ));
        if to == to_state && y == j2 {
        } else {
            assert(best(after, to, y) == best(before, to, y));
        }
    }
}

/// The shape that the tables of a search have.
pub(crate) open spec fn shape_ok<TS: TransitionSystem>(ts: &TS, safe: Seq<Vec<Interval>>, distance: Seq<Vec<Option<Time>>>) -> bool {
    &&& safe.len() == ts.n_states()
    &&& distance.len() == safe.len()
    &&& forall|x: int| 0 <= x < safe.len() ==> (#[trigger] distance[x])@.len() == safe[x]@.len()
}

/// The search stays where it has to be when an arrival gets better and a
/// node for it is about to go into the queue.
pub(crate) proof fn lemma_front_improve<TS: TransitionSystem>(
    ts: &TS,
    constraints: &ConstraintSet,
    task: &SippTask,
    hv: spec_fn(State) -> Option<Duration>,
    goals: Seq<usize>,
    safe: Seq<Vec<Interval>>,
    before: Seq<Vec<Option<Time>>>,
    after: Seq<Vec<Option<Time>>>,
    nodes: Seq<SippNode>,
    queue: Multiset<SearchNode<usize>>,
    extra: Seq<SearchNode<usize>>,
    current: Option<(State, int)>,
    node: SippNode,
    entry: SearchNode<usize>,
    upto: int,
)
    requires
        ts.wf(),
        shape_ok(ts, safe, before),
        front_ok(ts, constraints, task, hv, goals, safe, before, nodes, queue, extra, current, upto),
        improved_to(
            before,
            after,
            node.state.internal_state,
            node.slot as int,
            node.cost,
        ),
        current != Some((node.state.internal_state, node.slot as int)),
        entry.state == nodes.len(),
        entry.cost == node.cost,
        hv(node.state.internal_state).is_some() ==> entry.heuristic <= hv(
            node.state.internal_state,
        ).unwrap(),
    ensures
        front_ok(
            ts,
            constraints,
            task,
            hv,
            goals,
            safe,
            after,
            nodes.push(node),
            queue,
            extra.push(entry),
            current,
            upto,
        ),
{
    let to_state = node.state.internal_state;
    let j2 = node.slot as int;
    let nodes1 = nodes.push(node);
    let extra1 = extra.push(entry);
    let horizon = task.goal_state().safe_interval.end;
    assert(extra1[extra.len() as int] == entry);
    assert(holds_place(nodes1, entry, to_state, j2, node.cost));
    assert(has_entry(queue, extra1, nodes1, to_state, j2, node.cost));
    assert forall|e: SearchNode<usize>| #[trigger] queue.count(e) > 0 implies entry_ok(
        hv,
        after,
        nodes1,
        e,
    ) by {
        assert(entry_ok(hv, before, nodes, e));
        let n = nodes[e.state as int];
        if n.state.internal_state == to_state && n.slot == j2 {
        } else {
            assert(best(after, n.state.internal_state, n.slot as int) == best(
                before,
                n.state.internal_state,
                n.slot as int,
            ));
        }
    }
    assert forall|q: int| 0 <= q < extra1.len() implies entry_ok(hv, after, nodes1, #[trigger] extra1[q]) by {
        if q < extra.len() {
            let e = extra[q];
            assert(entry_ok(hv, before, nodes, e));
            let n = nodes[e.state as int];
            if n.state.internal_state == to_state && n.slot == j2 {
            } else {
                assert(best(after, n.state.internal_state, n.slot as int) == best(
                    before,
                    n.state.internal_state,
                    n.slot as int,
                ));
            }
        }
    }
    assert forall|s: State, j: int|
        s < safe.len() && 0 <= j < safe[s as int]@.len() && (#[trigger] best(after, s, j)).is_some()
            && current != Some((s, j)) implies has_entry(
        queue,
        extra1,
        nodes1,
        s,
        j,
        best(after, s, j).unwrap(),
    ) || state_done(ts, constraints, hv, horizon, safe, after, s, j) by {
        if s == to_state && j == j2 {
        } else {
            assert(best(after, s, j) == best(before, s, j));
            let b = best(before, s, j).unwrap();
            if has_entry(queue, extra, nodes, s, j, b) {
                let e = choose|e: SearchNode<usize>|
                    (queue.count(e) > 0 || extra.contains(e)) && #[trigger] holds_place(nodes, e, s, j, b);
                if extra.contains(e) {
                    let q = choose|q: int| 0 <= q < extra.len() && extra[q] == e;
                    assert(extra1[q] == e);
                }
                assert(holds_place(nodes1, e, s, j, b));
            } else {
                assert(state_done(ts, constraints, hv, horizon, safe, before, s, j));
                assert forall|x: int, y: int|
                    0 <= x < ts.actions(s).len() && 0 <= y < safe[ts.target(s, ts.actions(s)[x]) as int]@.len() implies #[trigger] edge_done(
                    ts,
                    constraints,
                    hv,
                    horizon,
                    safe,
                    after,
                    s,
                    j,
                    x,
                    y,
                ) by {
                    assert(edge_done(ts, constraints, hv, horizon, safe, before, s, j, x, y));
                    lemma_edge_done_stays(
                        ts,
                        constraints,
                        hv,
                        horizon,
                        safe,
                        before,
                        after,
                        to_state,
                        j2,
                        node.cost,
                        s,
                        j,
                        x,
                        y,
                    );
                }
            }
        }
    }
    {
        assert forall|s: State, j: int|
            s < safe.len() && 0 <= j < safe[s as int]@.len() && (#[trigger] best(after, s, j)).is_some()
                && current != Some((s, j)) implies goal_kept(task, after, nodes1, queue, extra1, goals, s, j) by {
            if s == to_state && j == j2 {
            } else {
                assert(best(after, s, j) == best(before, s, j));
                let b = best(before, s, j).unwrap();
                assert(goal_kept(task, before, nodes, queue, extra, goals, s, j));
                if has_entry(queue, extra, nodes, s, j, b) {
                    let e = choose|e: SearchNode<usize>|
                        (queue.count(e) > 0 || extra.contains(e)) && #[trigger] holds_place(
                            nodes,
                            e,
                            s,
                            j,
                            b,
                        );
                    if extra.contains(e) {
                        let q = choose|q: int| 0 <= q < extra.len() && extra[q] == e;
                        assert(extra1[q] == e);
                    }
                    assert(holds_place(nodes1, e, s, j, b));
                }
            }
        }
    }
    assert forall|k: int|
        0 <= k < upto && k < task.initial_times().len() && k < task.initial_states().len() && (
        #[trigger] task.initial_states()[k]).internal_state < safe.len() && stop_ok(
            constraints,
            task.initial_states()[k],
            task.initial_times()[k],
        ) implies started(safe, after, task.initial_states()[k], task.initial_times()[k]) by {
        let z = task.initial_states()[k];
        let t = task.initial_times()[k];
        assert(started(safe, before, z, t));
        let j = choose|j: int|
            0 <= j < safe[z.internal_state as int]@.len() && #[trigger] safe[z.internal_state as int]@[j]
                == z.safe_interval && best(before, z.internal_state, j).is_some() && best(
                before,
                z.internal_state,
                j,
            ).unwrap() <= t;
        if z.internal_state == to_state && j == j2 {
        } else {
            assert(best(after, z.internal_state, j) == best(before, z.internal_state, j));
        }
        assert(safe[z.internal_state as int]@[j] == z.safe_interval && best(
            after,
            z.internal_state,
            j,
        ).is_some() && best(after, z.internal_state, j).unwrap() <= t);
    }
}

/// The search stays where it has to be when a node that is out of date
/// leaves the queue.
pub(crate) proof fn lemma_front_pop_stale<TS: TransitionSystem>(
    ts: &TS,
    constraints: &ConstraintSet,
    task: &SippTask,
    hv: spec_fn(State) -> Option<Duration>,
    goals: Seq<usize>,
    safe: Seq<Vec<Interval>>,
    distance: Seq<Vec<Option<Time>>>,
    nodes: Seq<SippNode>,
    queue: Multiset<SearchNode<usize>>,
    popped: SearchNode<usize>,
    upto: int,
)
    requires
        front_ok(
            ts,
            constraints,
            task,
            hv,
            goals,
            safe,
            distance,
            nodes,
            queue,
            Seq::<SearchNode<usize>>::empty(),
            None,
            upto,
        ),
        queue.count(popped) > 0,
        popped.cost > best(
            distance,
            nodes[popped.state as int].state.internal_state,
            nodes[popped.state as int].slot as int,
        ).unwrap(),
    ensures
        front_ok(
            ts,
            constraints,
            task,
            hv,
            goals,
            safe,
            distance,
            nodes,
            queue.remove(popped),
            Seq::<SearchNode<usize>>::empty(),
            None,
            upto,
        ),
{
    broadcast use vstd::multiset::group_multiset_axioms;

    let rest = queue.remove(popped);
    let none = Seq::<SearchNode<usize>>::empty();
    let horizon = task.goal_state().safe_interval.end;
    assert forall|s: State, j: int, b: Time| has_entry(queue, none, nodes, s, j, b) && b == best(
        distance,
        s,
        j,
    ).unwrap() implies has_entry(rest, none, nodes, s, j, b) by {
        let e = choose|e: SearchNode<usize>|
            (queue.count(e) > 0 || none.contains(e)) && #[trigger] holds_place(nodes, e, s, j, b);
        assert(e != popped);
        assert(rest.count(e) > 0);
    }
    assert forall|s: State, j: int|
        s < safe.len() && 0 <= j < safe[s as int]@.len() && (#[trigger] best(distance, s, j)).is_some() implies has_entry(
        rest,
        none,
        nodes,
        s,
        j,
        best(distance, s, j).unwrap(),
    ) || state_done(ts, constraints, hv, horizon, safe, distance, s, j) by {}
    {
        assert forall|s: State, j: int|
            s < safe.len() && 0 <= j < safe[s as int]@.len() && (#[trigger] best(distance, s, j)).is_some() implies goal_kept(task, distance, nodes, rest, none, goals, s, j) by {
            assert(goal_kept(task, distance, nodes, queue, none, goals, s, j));
        }
    }
}

/// The search stays where it has to be, but for the safe interval that is
/// being expanded, when the node of that interval leaves the queue.
pub(crate) proof fn lemma_front_pop_current<TS: TransitionSystem>(
    ts: &TS,
    constraints: &ConstraintSet,
    task: &SippTask,
    hv: spec_fn(State) -> Option<Duration>,
    goals: Seq<usize>,
    safe: Seq<Vec<Interval>>,
    distance: Seq<Vec<Option<Time>>>,
    nodes: Seq<SippNode>,
    queue: Multiset<SearchNode<usize>>,
    popped: SearchNode<usize>,
    upto: int,
)
    requires
        front_ok(
            ts,
            constraints,
            task,
            hv,
            goals,
            safe,
            distance,
            nodes,
            queue,
            Seq::<SearchNode<usize>>::empty(),
            None,
            upto,
        ),
        queue.count(popped) > 0,
    ensures
        front_ok(
            ts,
            constraints,
            task,
            hv,
            goals,
            safe,
            distance,
            nodes,
            queue.remove(popped),
            Seq::<SearchNode<usize>>::empty(),
            Some(
                (
                    nodes[popped.state as int].state.internal_state,
                    nodes[popped.state as int].slot as int,
                ),
            ),
            upto,
        ),
{
    broadcast use vstd::multiset::group_multiset_axioms;

    let rest = queue.remove(popped);
    let none = Seq::<SearchNode<usize>>::empty();
    let horizon = task.goal_state().safe_interval.end;
    let cs = nodes[popped.state as int].state.internal_state;
    let cj = nodes[popped.state as int].slot as int;
    assert forall|s: State, j: int, b: Time|
        has_entry(queue, none, nodes, s, j, b) && (s != cs || j != cj) implies has_entry(
        rest,
        none,
        nodes,
        s,
        j,
        b,
    ) by {
        let e = choose|e: SearchNode<usize>|
            (queue.count(e) > 0 || none.contains(e)) && #[trigger] holds_place(nodes, e, s, j, b);
        assert(e != popped);
        assert(rest.count(e) > 0);
    }
    assert forall|s: State, j: int|
        s < safe.len() && 0 <= j < safe[s as int]@.len() && (#[trigger] best(distance, s, j)).is_some()
            && Some((cs, cj)) != Some((s, j)) implies has_entry(
        rest,
        none,
        nodes,
        s,
        j,
        best(distance, s, j).unwrap(),
    ) || state_done(ts, constraints, hv, horizon, safe, distance, s, j) by {}
    {
        assert forall|s: State, j: int|
            s < safe.len() && 0 <= j < safe[s as int]@.len() && (#[trigger] best(distance, s, j)).is_some()
                && Some((cs, cj)) != Some((s, j)) implies goal_kept(task, distance, nodes, rest, none, goals, s, j) by {
            assert(goal_kept(task, distance, nodes, queue, none, goals, s, j));
        }
    }
}

/// The search is where it has to be again when the safe interval that was
/// being expanded has been expanded.
pub(crate) proof fn lemma_front_finish<TS: TransitionSystem>(
    ts: &TS,
    constraints: &ConstraintSet,
    task: &SippTask,
    hv: spec_fn(State) -> Option<Duration>,
    goals: Seq<usize>,
    safe: Seq<Vec<Interval>>,
    distance: Seq<Vec<Option<Time>>>,
    nodes: Seq<SippNode>,
    queue: Multiset<SearchNode<usize>>,
    extra: Seq<SearchNode<usize>>,
    s: State,
    j: int,
    upto: int,
)
    requires
        front_ok(ts, constraints, task, hv, goals, safe, distance, nodes, queue, extra, Some((s, j)), upto),
        state_done(
            ts,
            constraints,
            hv,
            task.goal_state().safe_interval.end,
            safe,
            distance,
            s,
            j,
        ),
        goal_kept(task, distance, nodes, queue, extra, goals, s, j),
    ensures
        front_ok(ts, constraints, task, hv, goals, safe, distance, nodes, queue, extra, None, upto),
{
}

/// The search stays where it has to be when a node goes into the queue.
pub(crate) proof fn lemma_front_push<TS: TransitionSystem>(
    ts: &TS,
    constraints: &ConstraintSet,
    task: &SippTask,
    hv: spec_fn(State) -> Option<Duration>,
    goals: Seq<usize>,
    safe: Seq<Vec<Interval>>,
    distance: Seq<Vec<Option<Time>>>,
    nodes: Seq<SippNode>,
    queue: Multiset<SearchNode<usize>>,
    extra: Seq<SearchNode<usize>>,
    upto: int,
)
    requires
        extra.len() > 0,
        front_ok(ts, constraints, task, hv, goals, safe, distance, nodes, queue, extra, None, upto),
    ensures
        front_ok(
            ts,
            constraints,
            task,
            hv,
            goals,
            safe,
            distance,
            nodes,
            queue.insert(extra[0]),
            extra.skip(1),
            None,
            upto,
        ),
{
    broadcast use vstd::multiset::group_multiset_axioms;

    let first = extra[0];
    let more = queue.insert(first);
    let rest = extra.skip(1);
    let horizon = task.goal_state().safe_interval.end;
    assert forall|e: SearchNode<usize>| #[trigger] more.count(e) > 0 implies entry_ok(
        hv,
        distance,
        nodes,
        e,
    ) by {
        if e != first {
            assert(queue.count(e) > 0);
        }
    }
    assert forall|q: int| 0 <= q < rest.len() implies entry_ok(hv, distance, nodes, #[trigger] rest[q]) by {
        assert(rest[q] == extra[q + 1]);
    }
    assert forall|s: State, j: int, b: Time| has_entry(queue, extra, nodes, s, j, b) implies has_entry(
        more,
        rest,
        nodes,
        s,
        j,
        b,
    ) by {
        let e = choose|e: SearchNode<usize>|
            (queue.count(e) > 0 || extra.contains(e)) && #[trigger] holds_place(nodes, e, s, j, b);
        if queue.count(e) > 0 || e == first {
            assert(more.count(e) > 0);
        } else {
            let q = choose|q: int| 0 <= q < extra.len() && extra[q] == e;
            assert(rest[q - 1] == e);
        }
    }
    assert forall|s: State, j: int|
        s < safe.len() && 0 <= j < safe[s as int]@.len() && (#[trigger] best(distance, s, j)).is_some() implies has_entry(
        more,
        rest,
        nodes,
        s,
        j,
        best(distance, s, j).unwrap(),
    ) || state_done(ts, constraints, hv, horizon, safe, distance, s, j) by {}
    {
        assert forall|s: State, j: int|
            s < safe.len() && 0 <= j < safe[s as int]@.len() && (#[trigger] best(distance, s, j)).is_some() implies goal_kept(task, distance, nodes, more, rest, goals, s, j) by {
            assert(goal_kept(task, distance, nodes, queue, extra, goals, s, j));
        }
    }
}

/// A safe interval of a state is among the safe intervals that the tables
/// hold for the state.
pub(crate) proof fn lemma_slot<TS: TransitionSystem>(
    ts: &TS,
    constraints: &ConstraintSet,
    safe: Seq<Vec<Interval>>,
    distance: Seq<Vec<Option<Time>>>,
    state: SippState,
    t: Time,
)
    requires
        tables_ok(ts, constraints, safe, distance),
        state.internal_state < safe.len(),
        stop_ok(constraints, state, t),
    ensures
        exists|j: int|
            0 <= j < safe[state.internal_state as int]@.len()
                && #[trigger] safe[state.internal_state as int]@[j] == state.safe_interval,
{
    let s = state.internal_state;
    let mine = state.safe_interval;
    let bucket = constraints.state_bucket(s);
    assert(mine.holds(mine.start as int));
    assert(!blocked(bucket, mine.start as int));
    assert(covers(safe[s as int]@, mine.start as int));
    let j = choose|j: int| 0 <= j < safe[s as int]@.len() && (#[trigger] safe[s as int]@[j]).holds(mine.start as int);
    let other = safe[s as int]@[j];
    assert(maximal_safe_interval(constraints, s, other));
    if other.start < mine.start {
        assert(other.holds(mine.start - 1));
    }
    if other.end < mine.end {
        assert(mine.holds(other.end + 1));
    }
    if mine.end < other.end {
        assert(other.holds(mine.end + 1));
    }
    assert(other == mine);
}

/// Whether the search has taken the safe interval of `last` out of the queue
/// as a goal, at a cost that is no more than `t`.
pub(crate) open spec fn covered(
    safe: Seq<Vec<Interval>>,
    nodes: Seq<SippNode>,
    goals: Seq<usize>,
    last: SippState,
    t: Time,
) -> bool {
    exists|q: int|
        0 <= q < goals.len() && (#[trigger] goals[q]) < nodes.len()
            && nodes[goals[q] as int].state.internal_state == last.internal_state
            && safe[last.internal_state as int]@[nodes[goals[q] as int].slot as int]
            == last.safe_interval && nodes[goals[q] as int].cost <= t
}

/// Along a plan to the goal of which the search has reached a step no later
/// than the plan does, some node stands in the queue with a priority that
/// is no more than the time at which the plan ends, unless the search has
/// taken the safe interval in which the plan ends out of the queue as a
/// goal, at a cost that is no more than that time. This holds with
/// admissible bounds, for a path that ends in a safe interval that begins no
/// earlier than the interval of the goal.
pub(crate) proof fn lemma_plan_front<TS: TransitionSystem>(
    ts: &TS,
    constraints: &ConstraintSet,
    task: &SippTask,
    hv: spec_fn(State) -> Option<Duration>,
    safe: Seq<Vec<Interval>>,
    distance: Seq<Vec<Option<Time>>>,
    nodes: Seq<SippNode>,
    queue: Multiset<SearchNode<usize>>,
    goals: Seq<usize>,
    states: Seq<SippState>,
    costs: Seq<Time>,
    actions: Seq<Action>,
    i: int,
    j: int,
    upto: int,
)
    requires
        ts.wf(),
        tables_ok(ts, constraints, safe, distance),
        front_ok(
            ts,
            constraints,
            task,
            hv,
            goals,
            safe,
            distance,
            nodes,
            queue,
            Seq::<SearchNode<usize>>::empty(),
            None,
            upto,
        ),
        admissible(ts, constraints, task, hv),
        table_within(safe, distance),
        counts_from(task, states.last()),
        valid_plan(ts, constraints, states, costs, actions),
        task.reached(states.last(), costs.last()),
        0 <= i < states.len(),
        states[i].internal_state < safe.len(),
        0 <= j < safe[states[i].internal_state as int]@.len(),
        safe[states[i].internal_state as int]@[j] == states[i].safe_interval,
        best(distance, states[i].internal_state, j).is_some(),
        best(distance, states[i].internal_state, j).unwrap() <= costs[i],
    ensures
        (exists|e: SearchNode<usize>| queue.count(e) > 0 && #[trigger] e.priority() <= costs.last())
            || covered(safe, nodes, goals, states.last(), costs.last()),
    decreases states.len() - i,
{
    let none = Seq::<SearchNode<usize>>::empty();
    let horizon = task.goal_state().safe_interval.end;
    let s = states[i].internal_state;
    let b = best(distance, s, j).unwrap();
    lemma_plan_suffix(ts, constraints, states, costs, actions, i);
    assert(valid_plan(ts, constraints, states.skip(i), costs.skip(i), actions.skip(i)));
    assert(hv(s).is_some() && costs[i] + hv(s).unwrap() <= costs.last());
    if has_entry(queue, none, nodes, s, j, b) {
        let e = choose|e: SearchNode<usize>|
            (queue.count(e) > 0 || none.contains(e)) && #[trigger] holds_place(nodes, e, s, j, b);
        assert(entry_ok(hv, distance, nodes, e));
        assert(e.priority() <= costs.last());
    } else {
        assert(state_done(ts, constraints, hv, horizon, safe, distance, s, j));
        if i == states.len() - 1 {
            assert(safe[s as int]@[j].holds(b as int));
            assert(goal_kept(task, distance, nodes, queue, none, goals, s, j));
            assert(recorded(nodes, goals, s, j, b));
            let q = choose|q: int|
                0 <= q < goals.len() && (#[trigger] goals[q]) < nodes.len()
                    && nodes[goals[q] as int].state.internal_state == s && nodes[goals[q] as int].slot
                    == j && nodes[goals[q] as int].cost == b;
            assert(goals[q] < nodes.len() && nodes[goals[q] as int].state.internal_state
                == states.last().internal_state && safe[states.last().internal_state as int]@[nodes[goals[q] as int].slot as int]
                == states.last().safe_interval && nodes[goals[q] as int].cost <= costs.last());
        } else {
            let a = actions[i];
            let next = states[i + 1];
            let to_state = next.internal_state;
            assert(step_ok(ts, constraints, states[i], costs[i], a, next, costs[i + 1]));
            assert(stop_ok(constraints, next, costs[i + 1]));
            ts.lemma_reverse(s, a);
            lemma_slot(ts, constraints, safe, distance, next, costs[i + 1]);
            let j2 = choose|j2: int|
                0 <= j2 < safe[to_state as int]@.len() && #[trigger] safe[to_state as int]@[j2] == next.safe_interval;
            let k = ts.actions(s).index_of(a);
            assert(ts.actions(s)[k] == a);
            lemma_plan_suffix(ts, constraints, states, costs, actions, i + 1);
            assert(valid_plan(
                ts,
                constraints,
                states.skip(i + 1),
                costs.skip(i + 1),
                actions.skip(i + 1),
            ));
            assert(hv(to_state).is_some() && costs[i + 1] + hv(to_state).unwrap() <= costs.last());
            assert(edge_done(ts, constraints, hv, horizon, safe, distance, s, j, k, j2));
            assert(place(safe, s, j) == states[i]);
            assert(place(safe, to_state, j2) == next);
            assert(can_arrive(ts, constraints, hv, horizon, safe, s, j, b, k, j2, costs[i + 1]));
            lemma_plan_front(
                ts,
                constraints,
                task,
                hv,
                safe,
                distance,
                nodes,
                queue,
                goals,
                states,
                costs,
                actions,
                i + 1,
                j2,
                upto,
            );
        }
    }
}

/// The arrivals that the search has looked at stay looked at when an
/// arrival elsewhere gets better.
pub(crate) proof fn lemma_edges_done_stay<TS: TransitionSystem>(
    ts: &TS,
    constraints: &ConstraintSet,
    hv: spec_fn(State) -> Option<Duration>,
    horizon: Time,
    safe: Seq<Vec<Interval>>,
    before: Seq<Vec<Option<Time>>>,
    after: Seq<Vec<Option<Time>>>,
    to_state: State,
    j2: int,
    t: Time,
    s: State,
    j: int,
    k: int,
    y: int,
)
    requires
        ts.wf(),
        improved_to(before, after, to_state, j2, t),
        shape_ok(ts, safe, before),
        s < safe.len(),
        0 <= j < safe[s as int]@.len(),
        s != to_state || j != j2,
        edges_done(ts, constraints, hv, horizon, safe, before, s, j, k, y),
    ensures
        edges_done(ts, constraints, hv, horizon, safe, after, s, j, k, y),
{
    assert forall|x: int, z: int|
        0 <= x < ts.actions(s).len() && 0 <= z < safe[ts.target(s, ts.actions(s)[x]) as int]@.len() && (x
            < k || (x == k && z < y)) implies #[trigger] edge_done(
        ts,
        constraints,
        hv,
        horizon,
        safe,
        after,
        s,
        j,
        x,
        z,
    ) by {
        assert(edge_done(ts, constraints, hv, horizon, safe, before, s, j, x, z));
        lemma_edge_done_stays(ts, constraints, hv, horizon, safe, before, after, to_state, j2, t, s, j, x, z);
    }
}

/// The search has looked at an arrival once the table holds, for the safe
/// interval of the arrival, a time that is no later than the earliest at
/// which the agent can arrive there, where that is early enough to reach the
/// goal.
pub(crate) proof fn lemma_edge_looked<TS: TransitionSystem>(
    ts: &TS,
    constraints: &ConstraintSet,
    hv: spec_fn(State) -> Option<Duration>,
    horizon: Time,
    safe: Seq<Vec<Interval>>,
    distance: Seq<Vec<Option<Time>>>,
    s: State,
    j: int,
    k: int,
    j2: int,
    collisions: Seq<Interval>,
    earliest: Option<Time>,
)
    requires
        0 <= k < ts.actions(s).len(),
        best(distance, s, j).is_some(),
        forall|t: int|
            covers(collisions, t) <==> blocked(
                constraints.action_bucket(s, ts.target(s, ts.actions(s)[k])),
                t,
            ),
        match earliest {
            Some(a) => forall|b: int|
                feasible_arrival(
                    best(distance, s, j).unwrap() as int,
                    ts.cost(s, ts.actions(s)[k]) as int,
                    safe[s as int]@[j].end as int,
                    safe[ts.target(s, ts.actions(s)[k]) as int]@[j2],
                    collisions,
                    b,
                ) ==> a <= b,
            None => forall|b: int|
                !feasible_arrival(
                    best(distance, s, j).unwrap() as int,
                    ts.cost(s, ts.actions(s)[k]) as int,
                    safe[s as int]@[j].end as int,
                    safe[ts.target(s, ts.actions(s)[k]) as int]@[j2],
                    collisions,
                    b,
                ),
        },
        earliest.is_some() && hv(ts.target(s, ts.actions(s)[k])).is_some() && earliest.unwrap() + hv(
            ts.target(s, ts.actions(s)[k]),
        ).unwrap() <= horizon ==> best(distance, ts.target(s, ts.actions(s)[k]), j2).is_some() && best(
            distance,
            ts.target(s, ts.actions(s)[k]),
            j2,
        ).unwrap() <= earliest.unwrap(),
    ensures
        edge_done(ts, constraints, hv, horizon, safe, distance, s, j, k, j2),
{
    let a = ts.actions(s)[k];
    let to_state = ts.target(s, a);
    let b = best(distance, s, j).unwrap();
    assert forall|t: Time| #[trigger]
        can_arrive(ts, constraints, hv, horizon, safe, s, j, b, k, j2, t) implies best(
        distance,
        to_state,
        j2,
    ).is_some() && best(distance, to_state, j2).unwrap() <= t by {
        assert(step_ok(ts, constraints, place(safe, s, j), b, a, place(safe, to_state, j2), t));
        assert(!held(collisions, t - ts.cost(s, a)));
        assert(feasible_arrival(
            b as int,
            ts.cost(s, a) as int,
            safe[s as int]@[j].end as int,
            safe[to_state as int]@[j2],
            collisions,
            t as int,
        ));
    }
}

/// The search need not look at the arrivals by an action that leads to a
/// state from which the goal cannot be reached in time.
pub(crate) proof fn lemma_edge_skipped<TS: TransitionSystem>(
    ts: &TS,
    constraints: &ConstraintSet,
    hv: spec_fn(State) -> Option<Duration>,
    horizon: Time,
    safe: Seq<Vec<Interval>>,
    distance: Seq<Vec<Option<Time>>>,
    s: State,
    j: int,
    k: int,
    j2: int,
)
    requires
        0 <= k < ts.actions(s).len(),
        best(distance, s, j).is_some(),
        hv(ts.target(s, ts.actions(s)[k])).is_none() || best(distance, s, j).unwrap() + ts.cost(
            s,
            ts.actions(s)[k],
        ) + hv(ts.target(s, ts.actions(s)[k])).unwrap() > horizon,
    ensures
        edge_done(ts, constraints, hv, horizon, safe, distance, s, j, k, j2),
{
    let a = ts.actions(s)[k];
    let to_state = ts.target(s, a);
    let b = best(distance, s, j).unwrap();
    assert forall|t: Time| #[trigger]
        can_arrive(ts, constraints, hv, horizon, safe, s, j, b, k, j2, t) implies best(
        distance,
        to_state,
        j2,
    ).is_some() && best(distance, to_state, j2).unwrap() <= t by {
        assert(step_ok(ts, constraints, place(safe, s, j), b, a, place(safe, to_state, j2), t));
    }
}

/// Where the search is at the head of its loop, some node stands in the
/// queue with a priority that is no more than the time of any path to the
/// goal, unless the search has taken the safe interval in which the path
/// ends out of the queue as a goal, at a cost that is no more than that
/// time.
pub(crate) proof fn lemma_reached_in<TS: TransitionSystem>(
    ts: &TS,
    constraints: &ConstraintSet,
    task: &SippTask,
    hv: spec_fn(State) -> Option<Duration>,
    safe: Seq<Vec<Interval>>,
    distance: Seq<Vec<Option<Time>>>,
    nodes: Seq<SippNode>,
    queue: Multiset<SearchNode<usize>>,
    goals: Seq<usize>,
    states: Seq<SippState>,
    costs: Seq<Time>,
    actions: Seq<Action>,
    upto: int,
)
    requires
        ts.wf(),
        tables_ok(ts, constraints, safe, distance),
        upto == task.initial_times().len(),
        front_ok(
            ts,
            constraints,
            task,
            hv,
            goals,
            safe,
            distance,
            nodes,
            queue,
            Seq::<SearchNode<usize>>::empty(),
            None,
            upto,
        ),
        admissible(ts, constraints, task, hv),
        table_within(safe, distance),
        counts_from(task, states.last()),
        plan_to_goal(ts, constraints, task, states, costs, actions),
    ensures
        (exists|e: SearchNode<usize>| queue.count(e) > 0 && #[trigger] e.priority() <= costs.last())
            || covered(safe, nodes, goals, states.last(), costs.last()),
{
    let k = choose|k: int|
        0 <= k < task.initial_times().len() && k < task.initial_states().len()
            && #[trigger] task.initial_times()[k] == costs[0] && task.initial_states()[k] == states[0];
    let z = task.initial_states()[k];
    assert(stop_ok(constraints, states[0], costs[0]));
    assert(started(safe, distance, z, costs[0]));
    let j = choose|j: int|
        0 <= j < safe[z.internal_state as int]@.len() && #[trigger] safe[z.internal_state as int]@[j]
            == z.safe_interval && best(distance, z.internal_state, j).is_some() && best(
            distance,
            z.internal_state,
            j,
        ).unwrap() <= costs[0];
    lemma_plan_front(
        ts,
        constraints,
        task,
        hv,
        safe,
        distance,
        nodes,
        queue,
        goals,
        states,
        costs,
        actions,
        0,
        j,
        upto,
    );
}

/// What is best of all paths of the generalized task with a single start is
/// best of all paths of the task.
pub(crate) proof fn lemma_best_of_task<TS: TransitionSystem>(
    ts: &TS,
    constraints: &ConstraintSet,
    task: Task,
    interval: Interval,
    sipp_task: SippTask,
    hv: spec_fn(State) -> Option<Duration>,
    solutions: Seq<Solution<SippState>>,
)
    requires
        single_start(constraints, task, interval, sipp_task),
        best_of_all(ts, constraints, &sipp_task, hv, solutions),
    ensures
        best_of_task(
            ts,
            constraints,
            task,
            interval,
            hv,
            if solutions.len() > 0 {
                Some(solutions.last())
            } else {
                None
            },
        ),
{
    if admissible_for(ts, constraints, task, interval, hv) && task.initial_state < ts.n_states() {
        assert(admissible(ts, constraints, &sipp_task, hv)) by {
            assert forall|states: Seq<SippState>, costs: Seq<Time>, actions: Seq<Action>|
                #[trigger] valid_plan(ts, constraints, states, costs, actions) && sipp_task.reached(
                    states.last(),
                    costs.last(),
                ) implies hv(states[0].internal_state).is_some() && costs[0] + hv(
                states[0].internal_state,
            ).unwrap() <= costs.last() by {}
        }
        assert forall|states: Seq<SippState>, costs: Seq<Time>, actions: Seq<Action>|
            #[trigger] plan_of_task(ts, constraints, task, interval, states, costs, actions)
                && states.last().safe_interval.start >= interval.start implies solutions.len() == 1
            && solutions[0].costs@.last() <= costs.last() by {
            let first = sipp_task.initial_states()[0];
            assert(stop_ok(constraints, states[0], costs[0]));
            lemma_safe_interval_unique(
                constraints,
                task.initial_state,
                first.safe_interval,
                states[0].safe_interval,
                task.initial_cost as int,
            );
            assert(first == states[0]);
            assert(sipp_task.initial_times()[0] == costs[0]);
            assert(sipp_task.starts_at(states[0], costs[0]));
            assert(plan_to_goal(ts, constraints, &sipp_task, states, costs, actions));
            assert(counts_from(&sipp_task, states.last()));
        }
    }
}

/// The search stays where it has to be when it takes a goal out of the
/// queue.
pub(crate) proof fn lemma_front_goal<TS: TransitionSystem>(
    ts: &TS,
    constraints: &ConstraintSet,
    task: &SippTask,
    hv: spec_fn(State) -> Option<Duration>,
    goals: Seq<usize>,
    safe: Seq<Vec<Interval>>,
    distance: Seq<Vec<Option<Time>>>,
    nodes: Seq<SippNode>,
    queue: Multiset<SearchNode<usize>>,
    extra: Seq<SearchNode<usize>>,
    current: Option<(State, int)>,
    upto: int,
    goal: usize,
)
    requires
        front_ok(ts, constraints, task, hv, goals, safe, distance, nodes, queue, extra, current, upto),
    ensures
        front_ok(
            ts,
            constraints,
            task,
            hv,
            goals.push(goal),
            safe,
            distance,
            nodes,
            queue,
            extra,
            current,
            upto,
        ),
{
    let more = goals.push(goal);
    assert forall|s: State, j: int|
        s < safe.len() && 0 <= j < safe[s as int]@.len() && (#[trigger] best(distance, s, j)).is_some()
            && current != Some((s, j)) implies goal_kept(task, distance, nodes, queue, extra, more, s, j) by {
        assert(goal_kept(task, distance, nodes, queue, extra, goals, s, j));
        let b = best(distance, s, j).unwrap();
        if recorded(nodes, goals, s, j, b) {
            let q = choose|q: int|
                0 <= q < goals.len() && (#[trigger] goals[q]) < nodes.len()
                    && nodes[goals[q] as int].state.internal_state == s && nodes[goals[q] as int].slot
                    == j && nodes[goals[q] as int].cost == b;
            assert(more[q] == goals[q]);
        }
    }
}

/// A goal that stands in the queue, or has been taken out of it, still does
/// when an arrival elsewhere gets better.
pub(crate) proof fn lemma_goal_kept_stays(
    task: &SippTask,
    before: Seq<Vec<Option<Time>>>,
    after: Seq<Vec<Option<Time>>>,
    nodes: Seq<SippNode>,
    queue: Multiset<SearchNode<usize>>,
    extra: Seq<SearchNode<usize>>,
    goals: Seq<usize>,
    node: SippNode,
    entry: SearchNode<usize>,
    s: State,
    j: int,
)
    requires
        improved_to(before, after, node.state.internal_state, node.slot as int, node.cost),
        s < before.len(),
        0 <= j < before[s as int]@.len(),
        s != node.state.internal_state || j != node.slot,
        goal_kept(task, before, nodes, queue, extra, goals, s, j),
    ensures
        goal_kept(task, after, nodes.push(node), queue, extra.push(entry), goals, s, j),
{
    let b = best(before, s, j).unwrap();
    assert(best(after, s, j) == best(before, s, j));
    if has_entry(queue, extra, nodes, s, j, b) {
        let e = choose|e: SearchNode<usize>|
            (queue.count(e) > 0 || extra.contains(e)) && #[trigger] holds_place(nodes, e, s, j, b);
        if extra.contains(e) {
            let q = choose|q: int| 0 <= q < extra.len() && extra[q] == e;
            assert(extra.push(entry)[q] == e);
        }
        assert(holds_place(nodes.push(node), e, s, j, b));
    }
    if recorded(nodes, goals, s, j, b) {
        let q = choose|q: int|
            0 <= q < goals.len() && (#[trigger] goals[q]) < nodes.len()
                && nodes[goals[q] as int].state.internal_state == s && nodes[goals[q] as int].slot == j
                && nodes[goals[q] as int].cost == b;
        assert(nodes.push(node)[goals[q] as int] == nodes[goals[q] as int]);
    }
}

/// Whether `e` is a successor of the node `current`: it stands for a node
/// that was made after the node `first_new`, whose parent is `current`. The
/// agent goes there from `current` by the action of the node, arrives at the
/// time of the node in its safe interval and at no time can arrive there
/// earlier that way; the arrival is earlier than the table `before` held
/// for that safe interval. The heuristic of `e` is the bound of the state,
/// and with it the arrival is no later than `horizon`.
pub(crate) open spec fn successor_ok<TS: TransitionSystem>(
    ts: &TS,
    constraints: &ConstraintSet,
    hv: spec_fn(State) -> Option<Duration>,
    horizon: Time,
    before: Seq<Vec<Option<Time>>>,
    nodes: Seq<SippNode>,
    current: usize,
    first_new: int,
    e: SearchNode<usize>,
) -> bool {
    let here = nodes[current as int];
    let node = nodes[e.state as int];
    &&& first_new <= e.state < nodes.len()
    &&& e.cost == node.cost
    &&& node.parent.is_some()
    &&& node.parent.unwrap().1 == current
    &&& step_ok(ts, constraints, here.state, here.cost, node.parent.unwrap().0, node.state, node.cost)
    &&& node.state.safe_interval.holds(node.cost as int)
    &&& forall|t: Time| #[trigger]
        step_ok(ts, constraints, here.state, here.cost, node.parent.unwrap().0, node.state, t)
            && node.state.safe_interval.holds(t as int) ==> node.cost <= t
    &&& hv(node.state.internal_state) == Some(e.heuristic)
    &&& e.cost + e.heuristic <= horizon
    &&& node.state.internal_state < before.len()
    &&& node.slot < before[node.state.internal_state as int]@.len()
    &&& match best(before, node.state.internal_state, node.slot as int) {
        Some(d) => e.cost < d,
        None => true,
    }
}

/// Whether the table `after` holds for the safe interval `j` of `s` what
/// `before` held, or else the arrival of one of the successors there; and no
/// later an arrival than `before` held.
pub(crate) open spec fn entry_stepped(
    before: Seq<Vec<Option<Time>>>,
    after: Seq<Vec<Option<Time>>>,
    nodes: Seq<SippNode>,
    extra: Seq<SearchNode<usize>>,
    s: State,
    j: int,
) -> bool {
    &&& best(before, s, j).is_some() ==> best(after, s, j).is_some() && best(after, s, j).unwrap() <= best(
        before,
        s,
        j,
    ).unwrap()
    &&& best(after, s, j) == best(before, s, j) || (best(after, s, j).is_some() && exists|q: int|
        0 <= q < extra.len() && #[trigger] holds_place(nodes, extra[q], s, j, best(after, s, j).unwrap()))
}

/// What an expansion of the node `current` has done by the time it has made
/// the successors `extra`: each of them is a successor of `current`, and the
/// table of best arrivals has changed from `before` to `after` at their
/// safe intervals only, to their arrivals.
#[verifier::opaque]
pub(crate) open spec fn grown<TS: TransitionSystem>(
    ts: &TS,
    constraints: &ConstraintSet,
    hv: spec_fn(State) -> Option<Duration>,
    horizon: Time,
    before: Seq<Vec<Option<Time>>>,
    after: Seq<Vec<Option<Time>>>,
    nodes: Seq<SippNode>,
    extra: Seq<SearchNode<usize>>,
    current: usize,
    first_new: int,
) -> bool {
    &&& current < first_new <= nodes.len()
    &&& after.len() == before.len()
    &&& forall|s: int| 0 <= s < before.len() ==> (#[trigger] after[s])@.len() == before[s]@.len()
    &&& forall|q: int|
        0 <= q < extra.len() ==> successor_ok(
            ts,
            constraints,
            hv,
            horizon,
            before,
            nodes,
            current,
            first_new,
            #[trigger] extra[q],
        )
    &&& forall|s: State, j: int|
        s < before.len() && 0 <= j < before[s as int]@.len() ==> #[trigger] entry_stepped(
            before,
            after,
            nodes,
            extra,
            s,
            j,
        )
}

/// Before an expansion has made any successor the table is as it was.
pub(crate) proof fn lemma_grown_start<TS: TransitionSystem>(
    ts: &TS,
    constraints: &ConstraintSet,
    hv: spec_fn(State) -> Option<Duration>,
    horizon: Time,
    table: Seq<Vec<Option<Time>>>,
    nodes: Seq<SippNode>,
    current: usize,
)
    requires
        current < nodes.len(),
    ensures
        grown(
            ts,
            constraints,
            hv,
            horizon,
            table,
            table,
            nodes,
            Seq::<SearchNode<usize>>::empty(),
            current,
            nodes.len() as int,
        ),
{
    reveal(grown);
}

/// An agent that can take a step arrives at a feasible time.
pub(crate) proof fn lemma_step_feasible<TS: TransitionSystem>(
    ts: &TS,
    constraints: &ConstraintSet,
    from: SippState,
    ready: Time,
    action: Action,
    to: SippState,
    t: Time,
    collisions: Seq<Interval>,
)
    requires
        forall|x: int|
            covers(collisions, x) <==> blocked(
                constraints.action_bucket(from.internal_state, to.internal_state),
                x,
            ),
        step_ok(ts, constraints, from, ready, action, to, t),
        to.safe_interval.holds(t as int),
    ensures
        feasible_arrival(
            ready as int,
            ts.cost(from.internal_state, action) as int,
            from.safe_interval.end as int,
            to.safe_interval,
            collisions,
            t as int,
        ),
{
    assert(!held(collisions, t - ts.cost(from.internal_state, action)));
}

/// One more successor: the node `node` is put into the tree, `entry` stands
/// for it, and the table takes its arrival.
pub(crate) proof fn lemma_grown_push<TS: TransitionSystem>(
    ts: &TS,
    constraints: &ConstraintSet,
    hv: spec_fn(State) -> Option<Duration>,
    horizon: Time,
    before: Seq<Vec<Option<Time>>>,
    table0: Seq<Vec<Option<Time>>>,
    table1: Seq<Vec<Option<Time>>>,
    nodes0: Seq<SippNode>,
    extra0: Seq<SearchNode<usize>>,
    current: usize,
    first_new: int,
    node: SippNode,
    entry: SearchNode<usize>,
)
    requires
        grown(ts, constraints, hv, horizon, before, table0, nodes0, extra0, current, first_new),
        entry.state == nodes0.len(),
        entry.cost == node.cost,
        hv(node.state.internal_state) == Some(entry.heuristic),
        entry.cost + entry.heuristic <= horizon,
        node.parent.is_some(),
        node.parent.unwrap().1 == current,
        step_ok(
            ts,
            constraints,
            nodes0[current as int].state,
            nodes0[current as int].cost,
            node.parent.unwrap().0,
            node.state,
            node.cost,
        ),
        node.state.safe_interval.holds(node.cost as int),
        forall|t: Time| #[trigger]
            step_ok(
                ts,
                constraints,
                nodes0[current as int].state,
                nodes0[current as int].cost,
                node.parent.unwrap().0,
                node.state,
                t,
            ) && node.state.safe_interval.holds(t as int) ==> node.cost <= t,
        node.state.internal_state < table0.len(),
        node.slot < table0[node.state.internal_state as int]@.len(),
        match best(table0, node.state.internal_state, node.slot as int) {
            Some(d) => node.cost < d,
            None => true,
        },
        table1.len() == table0.len(),
        forall|s: int|
            0 <= s < table0.len() && s != node.state.internal_state ==> (#[trigger] table1[s]) == table0[s],
        table1[node.state.internal_state as int]@ == table0[node.state.internal_state as int]@.update(
            node.slot as int,
            Some(node.cost),
        ),
    ensures
        grown(
            ts,
            constraints,
            hv,
            horizon,
            before,
            table1,
            nodes0.push(node),
            extra0.push(entry),
            current,
            first_new,
        ),
{
    reveal(grown);
    let nodes1 = nodes0.push(node);
    let extra1 = extra0.push(entry);
    let next = node.state.internal_state;
    let slot = node.slot as int;
    assert(entry_stepped(before, table0, nodes0, extra0, next, slot));
    assert forall|q: int| 0 <= q < extra1.len() implies successor_ok(
        ts,
        constraints,
        hv,
        horizon,
        before,
        nodes1,
        current,
        first_new,
        #[trigger] extra1[q],
    ) by {
        if q < extra0.len() {
            assert(extra1[q] == extra0[q]);
            assert(successor_ok(ts, constraints, hv, horizon, before, nodes0, current, first_new, extra0[q]));
            assert(nodes1[extra0[q].state as int] == nodes0[extra0[q].state as int]);
            assert(nodes1[current as int] == nodes0[current as int]);
        } else {
            assert(extra1[q] == entry);
            assert(nodes1[entry.state as int] == node);
            assert(nodes1[current as int] == nodes0[current as int]);
        }
    }
    assert forall|s: int| 0 <= s < before.len() implies (#[trigger] table1[s])@.len() == before[s]@.len() by {
        assert(table0[s]@.len() == before[s]@.len());
        if s != next {
            assert(table1[s] == table0[s]);
        }
    }
    assert forall|s: State, j: int| s < before.len() && 0 <= j < before[s as int]@.len() implies #[trigger] entry_stepped(
        before,
        table1,
        nodes1,
        extra1,
        s,
        j,
    ) by {
        assert(entry_stepped(before, table0, nodes0, extra0, s, j));
        assert(table0[s as int]@.len() == before[s as int]@.len());
        if s == next && j == slot {
            assert(best(table1, s, j) == Some(node.cost));
            assert(holds_place(nodes1, extra1[extra0.len() as int], s, j, node.cost));
        } else {
            if s != next {
                assert(table1[s as int] == table0[s as int]);
            }
            assert(best(table1, s, j) == best(table0, s, j));
            if best(table0, s, j) != best(before, s, j) {
                let q = choose|q: int|
                    0 <= q < extra0.len() && #[trigger] holds_place(
                        nodes0,
                        extra0[q],
                        s,
                        j,
                        best(table0, s, j).unwrap(),
                    );
                assert(extra1[q] == extra0[q]);
                assert(nodes1[extra0[q].state as int] == nodes0[extra0[q].state as int]);
                assert(holds_place(nodes1, extra1[q], s, j, best(table1, s, j).unwrap()));
            }
        }
    }
}

/// Whether the two nodes stand for one safe interval of one state.
pub(crate) open spec fn same_place(nodes: Seq<SippNode>, a: usize, b: usize) -> bool {
    nodes[a as int].state.internal_state == nodes[b as int].state.internal_state && nodes[a as int].slot
        == nodes[b as int].slot
}

/// Whether no two of the goals stand for one safe interval of one state.
pub(crate) open spec fn distinct_places(nodes: Seq<SippNode>, goals: Seq<usize>) -> bool {
    forall|a: int, b: int|
        0 <= a < b < goals.len() ==> !same_place(nodes, #[trigger] goals[a], #[trigger] goals[b])
}

/// The search stays where it has to be when it takes a goal out of the
/// queue in place of one that it took before in the same safe interval,
/// which is the one that is being expanded.
pub(crate) proof fn lemma_front_replace<TS: TransitionSystem>(
    ts: &TS,
    constraints: &ConstraintSet,
    task: &SippTask,
    hv: spec_fn(State) -> Option<Duration>,
    goals: Seq<usize>,
    safe: Seq<Vec<Interval>>,
    distance: Seq<Vec<Option<Time>>>,
    nodes: Seq<SippNode>,
    queue: Multiset<SearchNode<usize>>,
    extra: Seq<SearchNode<usize>>,
    s: State,
    j: int,
    upto: int,
    at: int,
    goal: usize,
)
    requires
        front_ok(ts, constraints, task, hv, goals, safe, distance, nodes, queue, extra, Some((s, j)), upto),
        0 <= at < goals.len(),
        goals[at] < nodes.len(),
        nodes[goals[at] as int].state.internal_state == s,
        nodes[goals[at] as int].slot == j,
    ensures
        front_ok(
            ts,
            constraints,
            task,
            hv,
            goals.update(at, goal),
            safe,
            distance,
            nodes,
            queue,
            extra,
            Some((s, j)),
            upto,
        ),
{
    let more = goals.update(at, goal);
    assert forall|x: State, y: int|
        x < safe.len() && 0 <= y < safe[x as int]@.len() && (#[trigger] best(distance, x, y)).is_some() && Some(
            (s, j),
        ) != Some((x, y)) implies goal_kept(task, distance, nodes, queue, extra, more, x, y) by {
        assert(goal_kept(task, distance, nodes, queue, extra, goals, x, y));
        let b = best(distance, x, y).unwrap();
        if recorded(nodes, goals, x, y, b) {
            let q = choose|q: int|
                0 <= q < goals.len() && (#[trigger] goals[q]) < nodes.len()
                    && nodes[goals[q] as int].state.internal_state == x && nodes[goals[q] as int].slot == y
                    && nodes[goals[q] as int].cost == b;
            assert(q != at);
            assert(more[q] == goals[q]);
        }
    }
}

/// Whether the search keeps pace: nothing in the queue, nor about to go into
/// it, has a priority below `floor`, the priority of the node that was
/// taken last; the goals were taken at costs up to `floor`, each no earlier
/// than the one before it.
#[verifier::opaque]
pub(crate) open spec fn paced(
    floor: int,
    queue: Multiset<SearchNode<usize>>,
    extra: Seq<SearchNode<usize>>,
    nodes: Seq<SippNode>,
    goals: Seq<usize>,
) -> bool {
    &&& forall|e: SearchNode<usize>| #[trigger] queue.count(e) > 0 ==> e.priority() >= floor
    &&& forall|q: int| 0 <= q < extra.len() ==> (#[trigger] extra[q]).priority() >= floor
    &&& forall|q: int| 0 <= q < goals.len() ==> nodes[(#[trigger] goals[q]) as int].cost <= floor
    &&& forall|a: int, b: int|
        0 <= a < b < goals.len() ==> nodes[(#[trigger] goals[a]) as int].cost <= nodes[(
        #[trigger] goals[b]) as int].cost
}

/// Whether the table holds for the safe interval of each goal an arrival
/// that is no later than the goal.
#[verifier::opaque]
pub(crate) open spec fn goals_best(distance: Seq<Vec<Option<Time>>>, nodes: Seq<SippNode>, goals: Seq<usize>) -> bool {
    forall|q: int|
        0 <= q < goals.len() ==> {
            let node = nodes[(#[trigger] goals[q]) as int];
            &&& goals[q] < nodes.len()
            &&& node.state.internal_state < distance.len()
            &&& node.slot < distance[node.state.internal_state as int]@.len()
            &&& best(distance, node.state.internal_state, node.slot as int).is_some()
            &&& best(distance, node.state.internal_state, node.slot as int).unwrap() <= node.cost
        }
}

/// A search that has taken nothing yet keeps pace.
pub(crate) proof fn lemma_paced_start(queue: Multiset<SearchNode<usize>>, nodes: Seq<SippNode>, distance: Seq<Vec<Option<Time>>>)
    ensures
        paced(0, queue, Seq::<SearchNode<usize>>::empty(), nodes, Seq::<usize>::empty()),
        goals_best(distance, nodes, Seq::<usize>::empty()),
{
    reveal(paced);
    reveal(goals_best);
}

/// The search keeps pace when it takes the first node out of the queue.
pub(crate) proof fn lemma_paced_pop(
    floor: int,
    queue: Multiset<SearchNode<usize>>,
    nodes: Seq<SippNode>,
    goals: Seq<usize>,
    current: SearchNode<usize>,
)
    requires
        paced(floor, queue, Seq::<SearchNode<usize>>::empty(), nodes, goals),
        queue.count(current) > 0,
        forall|other: SearchNode<usize>| #[trigger] queue.count(other) > 0 ==> !other.precedes(&current),
    ensures
        floor <= current.priority(),
        paced(current.priority(), queue.remove(current), Seq::<SearchNode<usize>>::empty(), nodes, goals),
{
    reveal(paced);
    broadcast use vstd::multiset::group_multiset_axioms;

    let rest = queue.remove(current);
    assert forall|e: SearchNode<usize>| #[trigger] rest.count(e) > 0 implies e.priority()
        >= current.priority() by {
        assert(queue.count(e) > 0);
        assert(!e.precedes(&current));
    }
}

/// The search keeps pace when it takes a goal at the cost `floor`, where it
/// has taken none in that safe interval.
pub(crate) proof fn lemma_paced_goal(
    floor: int,
    queue: Multiset<SearchNode<usize>>,
    distance: Seq<Vec<Option<Time>>>,
    nodes: Seq<SippNode>,
    goals: Seq<usize>,
    goal: usize,
)
    requires
        goals_best(distance, nodes, goals),
        goal < nodes.len(),
        nodes[goal as int].state.internal_state < distance.len(),
        nodes[goal as int].slot < distance[nodes[goal as int].state.internal_state as int]@.len(),
        best(distance, nodes[goal as int].state.internal_state, nodes[goal as int].slot as int) == Some(
            nodes[goal as int].cost,
        ),
    ensures
        goals_best(distance, nodes, goals.push(goal)),
        paced(floor, queue, Seq::<SearchNode<usize>>::empty(), nodes, goals) && nodes[goal as int].cost
            == floor ==> paced(floor, queue, Seq::<SearchNode<usize>>::empty(), nodes, goals.push(goal)),
{
    reveal(paced);
    reveal(goals_best);
    let more = goals.push(goal);
    assert forall|q: int| 0 <= q < more.len() implies {
        let node = nodes[(#[trigger] more[q]) as int];
        &&& more[q] < nodes.len()
        &&& node.state.internal_state < distance.len()
        &&& node.slot < distance[node.state.internal_state as int]@.len()
        &&& best(distance, node.state.internal_state, node.slot as int).is_some()
        &&& best(distance, node.state.internal_state, node.slot as int).unwrap() <= node.cost
    } by {
        if q < goals.len() {
            assert(more[q] == goals[q]);
        }
    }
    if paced(floor, queue, Seq::<SearchNode<usize>>::empty(), nodes, goals) && nodes[goal as int].cost == floor {
        assert forall|q: int| 0 <= q < more.len() implies nodes[(#[trigger] more[q]) as int].cost <= floor by {
            if q < goals.len() {
                assert(more[q] == goals[q]);
            }
        }
        assert forall|a: int, b: int| 0 <= a < b < more.len() implies nodes[(#[trigger] more[a]) as int].cost
            <= nodes[(#[trigger] more[b]) as int].cost by {
            assert(more[a] == goals[a]);
            if b < goals.len() {
                assert(more[b] == goals[b]);
            }
        }
    }
}

/// The search keeps pace when it takes a goal at the cost `floor` in place
/// of one that it took before in the same safe interval: the two cost the
/// same.
pub(crate) proof fn lemma_paced_replace(
    floor: int,
    queue: Multiset<SearchNode<usize>>,
    distance: Seq<Vec<Option<Time>>>,
    nodes: Seq<SippNode>,
    goals: Seq<usize>,
    at: int,
    goal: usize,
)
    requires
        goals_best(distance, nodes, goals),
        0 <= at < goals.len(),
        goal < nodes.len(),
        same_place(nodes, goals[at], goal),
        best(distance, nodes[goal as int].state.internal_state, nodes[goal as int].slot as int) == Some(
            nodes[goal as int].cost,
        ),
    ensures
        goals_best(distance, nodes, goals.update(at, goal)),
        paced(floor, queue, Seq::<SearchNode<usize>>::empty(), nodes, goals) && nodes[goal as int].cost
            == floor ==> paced(floor, queue, Seq::<SearchNode<usize>>::empty(), nodes, goals.update(at, goal)),
{
    reveal(paced);
    reveal(goals_best);
    let more = goals.update(at, goal);
    assert(goals[at] < nodes.len());
    assert forall|q: int| 0 <= q < more.len() implies {
        let node = nodes[(#[trigger] more[q]) as int];
        &&& more[q] < nodes.len()
        &&& node.state.internal_state < distance.len()
        &&& node.slot < distance[node.state.internal_state as int]@.len()
        &&& best(distance, node.state.internal_state, node.slot as int).is_some()
        &&& best(distance, node.state.internal_state, node.slot as int).unwrap() <= node.cost
    } by {
        if q != at {
            assert(more[q] == goals[q]);
        } else {
            assert(goals[at] < nodes.len());
        }
    }
    if paced(floor, queue, Seq::<SearchNode<usize>>::empty(), nodes, goals) && nodes[goal as int].cost == floor {
        assert(nodes[goals[at] as int].cost <= floor);
        assert(nodes[goals[at] as int].cost == nodes[goal as int].cost);
        assert forall|q: int| 0 <= q < more.len() implies nodes[(#[trigger] more[q]) as int].cost <= floor by {
            if q != at {
                assert(more[q] == goals[q]);
            }
        }
        assert forall|a: int, b: int| 0 <= a < b < more.len() implies nodes[(#[trigger] more[a]) as int].cost
            <= nodes[(#[trigger] more[b]) as int].cost by {
            assert(nodes[more[a] as int].cost == nodes[goals[a] as int].cost);
            assert(nodes[more[b] as int].cost == nodes[goals[b] as int].cost);
        }
    }
}

/// The search keeps pace when it expands the node that it has taken: with
/// steady bounds no successor has a priority below that of the node.
pub(crate) proof fn lemma_paced_grown<TS: TransitionSystem>(
    ts: &TS,
    constraints: &ConstraintSet,
    task: &SippTask,
    hv: spec_fn(State) -> Option<Duration>,
    horizon: Time,
    before: Seq<Vec<Option<Time>>>,
    after: Seq<Vec<Option<Time>>>,
    nodes0: Seq<SippNode>,
    nodes1: Seq<SippNode>,
    queue: Multiset<SearchNode<usize>>,
    extra: Seq<SearchNode<usize>>,
    goals: Seq<usize>,
    current: SearchNode<usize>,
)
    requires
        grown(ts, constraints, hv, horizon, before, after, nodes1, extra, current.state, nodes0.len() as int),
        goals_best(before, nodes0, goals),
        nodes1.len() >= nodes0.len(),
        forall|i: int| 0 <= i < nodes0.len() ==> (#[trigger] nodes1[i]) == nodes0[i],
        current.state < nodes0.len(),
        current.cost == nodes0[current.state as int].cost,
        hv(nodes0[current.state as int].state.internal_state).is_some() ==> current.heuristic <= hv(
            nodes0[current.state as int].state.internal_state,
        ).unwrap(),
    ensures
        goals_best(after, nodes1, goals),
        steady(ts, task.internal_task().goal_state, hv) && paced(
            current.priority(),
            queue,
            Seq::<SearchNode<usize>>::empty(),
            nodes0,
            goals,
        ) ==> paced(current.priority(), queue, extra, nodes1, goals),
{
    reveal(paced);
    reveal(goals_best);
    reveal(grown);
    assert forall|q: int| 0 <= q < goals.len() implies {
        let node = nodes1[(#[trigger] goals[q]) as int];
        &&& goals[q] < nodes1.len()
        &&& node.state.internal_state < after.len()
        &&& node.slot < after[node.state.internal_state as int]@.len()
        &&& best(after, node.state.internal_state, node.slot as int).is_some()
        &&& best(after, node.state.internal_state, node.slot as int).unwrap() <= node.cost
    } by {
        let node = nodes0[goals[q] as int];
        assert(nodes1[goals[q] as int] == node);
        assert(entry_stepped(before, after, nodes1, extra, node.state.internal_state, node.slot as int));
    }
    if steady(ts, task.internal_task().goal_state, hv) && paced(
        current.priority(),
        queue,
        Seq::<SearchNode<usize>>::empty(),
        nodes0,
        goals,
    ) {
        let here = nodes1[current.state as int];
        assert(here == nodes0[current.state as int]);
        assert forall|q: int| 0 <= q < extra.len() implies (#[trigger] extra[q]).priority()
            >= current.priority() by {
            let e = extra[q];
            assert(successor_ok(ts, constraints, hv, horizon, before, nodes1, current.state, nodes0.len() as int, e));
            let node = nodes1[e.state as int];
            let a = node.parent.unwrap().0;
            assert(step_ok(ts, constraints, here.state, here.cost, a, node.state, node.cost));
            assert(ts.actions(here.state.internal_state).contains(a));
            assert(hv(here.state.internal_state).is_some());
        }
        assert forall|q: int| 0 <= q < goals.len() implies nodes1[(#[trigger] goals[q]) as int].cost
            <= current.priority() by {
            assert(nodes1[goals[q] as int] == nodes0[goals[q] as int]);
        }
        assert forall|a: int, b: int| 0 <= a < b < goals.len() implies nodes1[(#[trigger] goals[a]) as int].cost
            <= nodes1[(#[trigger] goals[b]) as int].cost by {
            assert(nodes1[goals[a] as int] == nodes0[goals[a] as int]);
            assert(nodes1[goals[b] as int] == nodes0[goals[b] as int]);
        }
    }
}

/// The search keeps pace when a successor goes into the queue.
pub(crate) proof fn lemma_paced_push(
    floor: int,
    queue: Multiset<SearchNode<usize>>,
    extra: Seq<SearchNode<usize>>,
    nodes: Seq<SippNode>,
    goals: Seq<usize>,
)
    requires
        paced(floor, queue, extra, nodes, goals),
        extra.len() > 0,
    ensures
        paced(floor, queue.insert(extra[0]), extra.skip(1), nodes, goals),
{
    reveal(paced);
    broadcast use vstd::multiset::group_multiset_axioms;

    let more = queue.insert(extra[0]);
    assert forall|e: SearchNode<usize>| #[trigger] more.count(e) > 0 implies e.priority() >= floor by {
        if e != extra[0] {
            assert(queue.count(e) > 0);
        }
    }
    assert forall|q: int| 0 <= q < extra.skip(1).len() implies (#[trigger] extra.skip(1)[q]).priority()
        >= floor by {
        assert(extra.skip(1)[q] == extra[q + 1]);
    }
}

/// The goals of a search that has kept pace come in the order of their
/// costs.
pub(crate) proof fn lemma_paced_sorted(
    floor: int,
    queue: Multiset<SearchNode<usize>>,
    nodes: Seq<SippNode>,
    goals: Seq<usize>,
)
    requires
        paced(floor, queue, Seq::<SearchNode<usize>>::empty(), nodes, goals),
    ensures
        forall|a: int, b: int|
            0 <= a < b < goals.len() ==> nodes[(#[trigger] goals[a]) as int].cost <= nodes[(
            #[trigger] goals[b]) as int].cost,
{
    reveal(paced);
}

} // verus!
