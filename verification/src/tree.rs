//! The constraint tree: what the nodes of a conflict-based search hold, and
//! what has to hold of them.

use vstd::prelude::*;
use crate::cbs::{CbsConfig, CbsNode};
use crate::collision::{
    collides, conflicts_match, plan_move, plan_moves, reports, reports_any, resolving,
};
use crate::conflict::{Conflict, ConflictType};
use crate::constraint::{added, blocked, same_blocks, Constraint, ConstraintSet, ConstraintType};
use crate::lsipp::{heuristics_follow, least_end, lsipp_solves, stranded};
use crate::plans::{
    forbids_less, lemma_relabel, lemma_valid_plan_same_blocks, relabelled, unconstrained, walk_admissible,
};
use crate::search::{differential_bounds, lemma_differential_same, Heuristic, Solution};
use crate::sipp::{plan_of_task, SippState};
use crate::time::{Duration, Interval, Time};
use crate::transition::{connected, Action, Move, State, Task, TransitionSystem};

verus! {

/// Whether `c` is the constraint of the node `id` or of one of the nodes
/// above it.
pub open spec fn chain_has(nodes: Seq<CbsNode>, id: usize, c: Constraint) -> bool
    decreases id,
{
    ||| nodes[id as int].constraint == Some(c)
    ||| match nodes[id as int].parent {
        Some(p) => p < id && chain_has(nodes, p, c),
        None => false,
    }
}

/// Whether `c` forbids `agent` to be in `state` at the time `t`.
pub open spec fn forbids_state(c: Constraint, agent: usize, state: State, t: int) -> bool {
    &&& c.agent == agent
    &&& c.type_ == ConstraintType::State
    &&& c.state == state
    &&& c.interval.holds(t)
}

/// Whether `c` forbids `agent` to leave `from` for `to` at the time `t`.
pub open spec fn forbids_action(c: Constraint, agent: usize, from: State, to: State, t: int) -> bool {
    &&& c.agent == agent
    &&& c.type_ == ConstraintType::Action
    &&& c.state == from
    &&& c.next == Some(to)
    &&& c.interval.holds(t)
}

/// Whether `set` forbids `agent` exactly what the constraints of the node
/// `id` and of the nodes above it forbid it.
pub open spec fn represents(set: &ConstraintSet, nodes: Seq<CbsNode>, id: usize, agent: usize) -> bool {
    &&& forall|s: State, t: int| #[trigger]
        blocked(set.state_bucket(s), t) <==> exists|c: Constraint|
            chain_has(nodes, id, c) && #[trigger] forbids_state(c, agent, s, t)
    &&& forall|f: State, g: State, t: int| #[trigger]
        blocked(set.action_bucket(f, g), t) <==> exists|c: Constraint|
            chain_has(nodes, id, c) && #[trigger] forbids_action(c, agent, f, g, t)
}

/// The plan of `agent` at the node `id`: the one made anew at the node, or
/// else the plan of the agent at the parent.
pub open spec fn plan_of(nodes: Seq<CbsNode>, id: usize, agent: usize) -> Option<Solution<SippState>>
    decreases id,
{
    let node = nodes[id as int];
    if agent < node.solutions@.len() && node.solutions@[agent as int].is_some() {
        node.solutions@[agent as int]
    } else {
        match node.parent {
            Some(p) => if p < id {
                plan_of(nodes, p, agent)
            } else {
                None
            },
            None => None,
        }
    }
}

/// Whether the nodes up to `id` are the same in both trees, in all that the
/// plans and the constraints of a node depend on.
pub open spec fn same_tree(a: Seq<CbsNode>, b: Seq<CbsNode>, id: usize) -> bool {
    &&& id < a.len()
    &&& id < b.len()
    &&& forall|i: int|
        0 <= i <= id ==> (#[trigger] a[i]).parent == b[i].parent && a[i].constraint == b[i].constraint
            && a[i].solutions == b[i].solutions
}

/// The plans and the constraints of a node depend on nothing but the node
/// and the nodes above it.
pub proof fn lemma_same_tree(a: Seq<CbsNode>, b: Seq<CbsNode>, id: usize)
    requires
        same_tree(a, b, id),
    ensures
        forall|agent: usize| #[trigger] plan_of(a, id, agent) == plan_of(b, id, agent),
        forall|c: Constraint| #[trigger] chain_has(a, id, c) == chain_has(b, id, c),
    decreases id,
{
    assert(a[id as int].parent == b[id as int].parent);
    assert(a[id as int].constraint == b[id as int].constraint);
    assert(a[id as int].solutions == b[id as int].solutions);
    match a[id as int].parent {
        Some(p) => {
            if p < id {
                assert forall|i: int| 0 <= i <= p implies (#[trigger] a[i]).parent == b[i].parent
                    && a[i].constraint == b[i].constraint && a[i].solutions == b[i].solutions by {}
                lemma_same_tree(a, b, p);
            }
        },
        None => {},
    }
    assert forall|agent: usize| #[trigger] plan_of(a, id, agent) == plan_of(b, id, agent) by {
        let na = a[id as int];
        let nb = b[id as int];
        if agent < na.solutions@.len() && na.solutions@[agent as int].is_some() {
            assert(plan_of(a, id, agent) == na.solutions@[agent as int]);
            assert(plan_of(b, id, agent) == nb.solutions@[agent as int]);
        } else {
            match na.parent {
                Some(p) => {
                    if p < id {
                        assert(plan_of(a, id, agent) == plan_of(a, p, agent));
                        assert(plan_of(b, id, agent) == plan_of(b, p, agent));
                    } else {
                        assert(plan_of(a, id, agent).is_none());
                    }
                },
                None => {
                    assert(plan_of(a, id, agent).is_none());
                },
            }
        }
    }
    assert forall|c: Constraint| #[trigger] chain_has(a, id, c) == chain_has(b, id, c) by {
        match a[id as int].parent {
            Some(p) => {
                if p < id {
                    assert(chain_has(a, id, c) == (a[id as int].constraint == Some(c) || chain_has(
                        a,
                        p,
                        c,
                    )));
                    assert(chain_has(b, id, c) == (b[id as int].constraint == Some(c) || chain_has(
                        b,
                        p,
                        c,
                    )));
                } else {
                    assert(chain_has(a, id, c) == (a[id as int].constraint == Some(c)));
                    assert(chain_has(b, id, c) == (b[id as int].constraint == Some(c)));
                }
            },
            None => {
                assert(chain_has(a, id, c) == (a[id as int].constraint == Some(c)));
                assert(chain_has(b, id, c) == (b[id as int].constraint == Some(c)));
            },
        }
    }
}

/// A copy of `plan`.
pub fn copy_plan(plan: &Solution<SippState>) -> (r: Solution<SippState>)
    ensures
        r.states@ == plan.states@,
        r.costs@ == plan.costs@,
        r.actions@ == plan.actions@,
{
    Solution {
        states: plan.states.clone(),
        costs: plan.costs.clone(),
        actions: plan.actions.clone(),
    }
}

/// Whether the node `id` holds a plan for `agent` that does the agent's
/// task under the constraints of the node and of the nodes above it.
pub open spec fn plan_ok<TS: TransitionSystem>(
    ts: &TS,
    tasks: Seq<Task>,
    nodes: Seq<CbsNode>,
    id: usize,
    agent: usize,
) -> bool {
    &&& plan_of(nodes, id, agent).is_some()
    &&& exists|set: ConstraintSet| #[trigger]
        represents(&set, nodes, id, agent) && set.wf() && lsipp_solves(
            ts,
            &set,
            tasks[agent as int],
            Seq::<Constraint>::empty(),
            plan_of(nodes, id, agent).unwrap(),
        )
}

/// Whether `plan` does the task of `agent` under the constraints of the node
/// `id` and of the nodes above it.
pub open spec fn does_task<TS: TransitionSystem>(
    ts: &TS,
    tasks: Seq<Task>,
    nodes: Seq<CbsNode>,
    id: usize,
    agent: usize,
    plan: Solution<SippState>,
) -> bool {
    exists|set: ConstraintSet| #[trigger]
        represents(&set, nodes, id, agent) && set.wf() && lsipp_solves(
            ts,
            &set,
            tasks[agent as int],
            Seq::<Constraint>::empty(),
            plan,
        )
}

/// The moves of the plan of `agent` at the node `id`.
pub open spec fn node_moves<TS: TransitionSystem>(
    ts: &TS,
    nodes: Seq<CbsNode>,
    id: usize,
    agent: usize,
) -> Seq<Move> {
    plan_moves(ts, agent, plan_of(nodes, id, agent).unwrap())
}

/// The moves of the plans of the first `n` agents at the node `id`.
pub open spec fn all_moves<TS: TransitionSystem>(ts: &TS, nodes: Seq<CbsNode>, id: usize, n: nat) -> Seq<
    Seq<Move>,
> {
    Seq::new(n, |agent: int| node_moves(ts, nodes, id, agent as usize))
}

/// The sum of the times at which the first `n` agents reach their goals at
/// the node `id`.
pub open spec fn cost_sum(nodes: Seq<CbsNode>, id: usize, n: nat) -> int
    decreases n,
{
    if n == 0 {
        0
    } else {
        cost_sum(nodes, id, (n - 1) as nat) + plan_of(nodes, id, (n - 1) as usize).unwrap().costs@.last()
    }
}

/// Whether the node `id` is what a node of the constraint tree has to be:
/// its parent comes before it, it holds a plan for every agent that does the
/// agent's task under the constraints on it, its conflicts are those between
/// these plans, and its cost is the sum of theirs.
pub open spec fn node_ok<TS: TransitionSystem>(ts: &TS, tasks: Seq<Task>, nodes: Seq<CbsNode>, id: usize) -> bool {
    let node = nodes[id as int];
    &&& match node.parent {
        Some(p) => p < id,
        None => true,
    }
    &&& match node.constraint {
        Some(c) => c.wf(),
        None => true,
    }
    &&& forall|agent: usize| agent < tasks.len() ==> #[trigger] plan_ok(ts, tasks, nodes, id, agent)
    &&& conflicts_match(node.conflicts@, all_moves(ts, nodes, id, tasks.len()))
    &&& node.total_cost == cost_sum(nodes, id, tasks.len())
}

/// Whether `set` forbids `agent` exactly what the constraints in `visited`
/// forbid it.
pub open spec fn covers_set(set: &ConstraintSet, visited: Set<Constraint>, agent: usize) -> bool {
    &&& forall|s: State, t: int| #[trigger]
        blocked(set.state_bucket(s), t) <==> exists|c: Constraint|
            visited.contains(c) && #[trigger] forbids_state(c, agent, s, t)
    &&& forall|f: State, g: State, t: int| #[trigger]
        blocked(set.action_bucket(f, g), t) <==> exists|c: Constraint|
            visited.contains(c) && #[trigger] forbids_action(c, agent, f, g, t)
}

/// A set that takes in one more constraint of the agent forbids what the
/// constraints visited so far and that one forbid.
pub proof fn lemma_covers_added(
    before: &ConstraintSet,
    after: &ConstraintSet,
    visited: Set<Constraint>,
    c: Constraint,
    agent: usize,
)
    requires
        covers_set(before, visited, agent),
        c.agent == agent,
        c.wf(),
        added(before, after, c),
    ensures
        covers_set(after, visited.insert(c), agent),
{
    let more = visited.insert(c);
    assert forall|s: State, t: int| #[trigger]
        blocked(after.state_bucket(s), t) <==> exists|x: Constraint|
            more.contains(x) && #[trigger] forbids_state(x, agent, s, t) by {
        if blocked(after.state_bucket(s), t) {
            if c.type_ == ConstraintType::State && s == c.state && c.interval.holds(t) {
                assert(more.contains(c) && forbids_state(c, agent, s, t));
            } else {
                assert(blocked(before.state_bucket(s), t));
                let x = choose|x: Constraint| visited.contains(x) && #[trigger] forbids_state(x, agent, s, t);
                assert(more.contains(x) && forbids_state(x, agent, s, t));
            }
        }
        if exists|x: Constraint| more.contains(x) && #[trigger] forbids_state(x, agent, s, t) {
            let x = choose|x: Constraint| more.contains(x) && #[trigger] forbids_state(x, agent, s, t);
            if x == c {
                assert(blocked(after.state_bucket(s), t));
            } else {
                assert(visited.contains(x) && forbids_state(x, agent, s, t));
                assert(blocked(before.state_bucket(s), t));
            }
        }
    }
    assert forall|f: State, g: State, t: int| #[trigger]
        blocked(after.action_bucket(f, g), t) <==> exists|x: Constraint|
            more.contains(x) && #[trigger] forbids_action(x, agent, f, g, t) by {
        if blocked(after.action_bucket(f, g), t) {
            if c.type_ == ConstraintType::Action && f == c.state && Some(g) == c.next && c.interval.holds(
                t,
            ) {
                assert(more.contains(c) && forbids_action(c, agent, f, g, t));
            } else {
                assert(blocked(before.action_bucket(f, g), t));
                let x = choose|x: Constraint|
                    visited.contains(x) && #[trigger] forbids_action(x, agent, f, g, t);
                assert(more.contains(x) && forbids_action(x, agent, f, g, t));
            }
        }
        if exists|x: Constraint| more.contains(x) && #[trigger] forbids_action(x, agent, f, g, t) {
            let x = choose|x: Constraint| more.contains(x) && #[trigger] forbids_action(x, agent, f, g, t);
            if x == c {
                assert(blocked(after.action_bucket(f, g), t));
            } else {
                assert(visited.contains(x) && forbids_action(x, agent, f, g, t));
                assert(blocked(before.action_bucket(f, g), t));
            }
        }
    }
}

/// A constraint of another agent changes nothing of what the constraints
/// visited so far forbid the agent.
pub proof fn lemma_covers_other(set: &ConstraintSet, visited: Set<Constraint>, c: Constraint, agent: usize)
    requires
        covers_set(set, visited, agent),
        c.agent != agent,
    ensures
        covers_set(set, visited.insert(c), agent),
{
    let more = visited.insert(c);
    assert forall|s: State, t: int| #[trigger]
        blocked(set.state_bucket(s), t) <==> exists|x: Constraint|
            more.contains(x) && #[trigger] forbids_state(x, agent, s, t) by {
        if blocked(set.state_bucket(s), t) {
            let x = choose|x: Constraint| visited.contains(x) && #[trigger] forbids_state(x, agent, s, t);
            assert(more.contains(x) && forbids_state(x, agent, s, t));
        }
        if exists|x: Constraint| more.contains(x) && #[trigger] forbids_state(x, agent, s, t) {
            let x = choose|x: Constraint| more.contains(x) && #[trigger] forbids_state(x, agent, s, t);
            assert(visited.contains(x) && forbids_state(x, agent, s, t));
        }
    }
    assert forall|f: State, g: State, t: int| #[trigger]
        blocked(set.action_bucket(f, g), t) <==> exists|x: Constraint|
            more.contains(x) && #[trigger] forbids_action(x, agent, f, g, t) by {
        if blocked(set.action_bucket(f, g), t) {
            let x = choose|x: Constraint| visited.contains(x) && #[trigger] forbids_action(x, agent, f, g, t);
            assert(more.contains(x) && forbids_action(x, agent, f, g, t));
        }
        if exists|x: Constraint| more.contains(x) && #[trigger] forbids_action(x, agent, f, g, t) {
            let x = choose|x: Constraint| more.contains(x) && #[trigger] forbids_action(x, agent, f, g, t);
            assert(visited.contains(x) && forbids_action(x, agent, f, g, t));
        }
    }
}

/// A set that forbids what the constraints in `visited` forbid represents
/// the node whose constraints, with those above it, these are.
pub proof fn lemma_covers_represents(
    set: &ConstraintSet,
    visited: Set<Constraint>,
    nodes: Seq<CbsNode>,
    id: usize,
    agent: usize,
)
    requires
        covers_set(set, visited, agent),
        forall|c: Constraint| visited.contains(c) <==> chain_has(nodes, id, c),
    ensures
        represents(set, nodes, id, agent),
{
    assert forall|s: State, t: int| #[trigger]
        blocked(set.state_bucket(s), t) <==> exists|c: Constraint|
            chain_has(nodes, id, c) && #[trigger] forbids_state(c, agent, s, t) by {
        if blocked(set.state_bucket(s), t) {
            let x = choose|x: Constraint| visited.contains(x) && #[trigger] forbids_state(x, agent, s, t);
            assert(chain_has(nodes, id, x) && forbids_state(x, agent, s, t));
        }
        if exists|c: Constraint| chain_has(nodes, id, c) && #[trigger] forbids_state(c, agent, s, t) {
            let x = choose|x: Constraint| chain_has(nodes, id, x) && #[trigger] forbids_state(x, agent, s, t);
            assert(visited.contains(x) && forbids_state(x, agent, s, t));
        }
    }
    assert forall|f: State, g: State, t: int| #[trigger]
        blocked(set.action_bucket(f, g), t) <==> exists|c: Constraint|
            chain_has(nodes, id, c) && #[trigger] forbids_action(c, agent, f, g, t) by {
        if blocked(set.action_bucket(f, g), t) {
            let x = choose|x: Constraint| visited.contains(x) && #[trigger] forbids_action(x, agent, f, g, t);
            assert(chain_has(nodes, id, x) && forbids_action(x, agent, f, g, t));
        }
        if exists|c: Constraint| chain_has(nodes, id, c) && #[trigger] forbids_action(c, agent, f, g, t) {
            let x = choose|x: Constraint|
                chain_has(nodes, id, x) && #[trigger] forbids_action(x, agent, f, g, t);
            assert(visited.contains(x) && forbids_action(x, agent, f, g, t));
        }
    }
}

/// The constraints of a node that is to be made: `delta`, and those of
/// `parent` and of the nodes above it.
pub open spec fn under(nodes: Seq<CbsNode>, parent: Option<usize>, delta: Option<Constraint>) -> Set<
    Constraint,
> {
    Set::new(
        |c: Constraint|
            delta == Some(c) || match parent {
                Some(p) => chain_has(nodes, p, c),
                None => false,
            },
    )
}

/// Whether `agent` is left without a path under a set of constraints that
/// forbids the agent what the constraints in `visited` forbid it.
pub open spec fn left_stranded<TS: TransitionSystem>(
    ts: &TS,
    tasks: Seq<Task>,
    visited: Set<Constraint>,
    agent: usize,
) -> bool {
    exists|set: ConstraintSet| #[trigger]
        covers_set(&set, visited, agent) && set.wf() && stranded(ts, &set, tasks[agent as int])
}

/// The constraint of the child that resolves `conflict` for the agent of
/// its first move, where `which` is 0, or of its second.
pub open spec fn side(conflict: Conflict, which: int, precision: Duration) -> Constraint {
    if which == 0 {
        resolving(conflict.first(), conflict.second(), precision)
    } else {
        resolving(conflict.second(), conflict.first(), precision)
    }
}

/// Whether `node` is a child of the node `parent` that resolves `conflict`:
/// it adds the constraint that keeps one of the two agents out of it.
pub open spec fn child_of(node: CbsNode, parent: usize, conflict: Conflict, precision: Duration) -> bool {
    &&& node.parent == Some(parent)
    &&& (node.constraint == Some(side(conflict, 0, precision)) || node.constraint == Some(
        side(conflict, 1, precision),
    ))
}

/// Whether every path that the agent can follow under the constraints from
/// the initial state of the task to its goal, there to stay for good, ends
/// after `now`.
pub open spec fn ends_after<TS: TransitionSystem>(ts: &TS, set: &ConstraintSet, task: Task, now: Time) -> bool {
    forall|states: Seq<SippState>, costs: Seq<Time>, actions: Seq<Action>|
        #[trigger] plan_of_task(ts, set, task, Interval::whole(), states, costs, actions)
            && states.last().safe_interval.end == u64::MAX ==> costs.last() > now
}

/// Where the cheapest plan ends after `now`, every path does.
pub proof fn lemma_cheapest_late<TS: TransitionSystem>(
    ts: &TS,
    set: &ConstraintSet,
    task: Task,
    plan: Solution<SippState>,
    now: Time,
)
    requires
        cheapest(ts, set, task, plan),
        plan.costs@.last() > now,
    ensures
        ends_after(ts, set, task, now),
{
}

/// Where the agent is left without a path under constraints that forbid no
/// less than those under which `cheap` is its cheapest plan, every path on
/// which it can stay at the goal ends after `cheap`.
pub proof fn lemma_stranded_late<TS: TransitionSystem>(
    ts: &TS,
    fewer: &ConstraintSet,
    more: &ConstraintSet,
    task: Task,
    cheap: Solution<SippState>,
)
    requires
        cheapest(ts, fewer, task, cheap),
        forbids_less(fewer, more),
        stranded(ts, more, task),
    ensures
        ends_after(ts, more, task, cheap.costs@.last()),
{
    let whole = Interval::whole();
    assert forall|states: Seq<SippState>, costs: Seq<Time>, actions: Seq<Action>|
        #[trigger] plan_of_task(ts, more, task, whole, states, costs, actions) && states.last().safe_interval.end
            == u64::MAX implies costs.last() > cheap.costs@.last() by {
        let (other_states, c2, a2) = choose|other_states: Seq<SippState>, c2: Seq<Time>, a2: Seq<Action>|
            #[trigger] plan_of_task(ts, more, task, whole, other_states, c2, a2) && least_end(
                ts,
                more,
                task,
                c2.last(),
            ) && other_states.last().safe_interval.end != u64::MAX;
        assert(c2.last() <= costs.last());
        lemma_relabel(ts, more, fewer, other_states, c2, a2);
        let wide = relabelled(fewer, other_states, c2);
        assert(plan_of_task(ts, fewer, task, whole, wide, c2, a2));
        assert(cheap.costs@.last() <= c2.last());
        if c2.last() == costs.last() {
            crate::plans::lemma_safe_interval_unique(
                more,
                task.goal_state,
                other_states.last().safe_interval,
                states.last().safe_interval,
                c2.last() as int,
            );
        }
    }
}

/// Whether the agent of `mine` loses time when it gives way to `other` by
/// the margin `precision`: under the constraints in `visited` and the
/// constraint that keeps it out of the conflict, every path on which it can
/// stay at its goal ends after `now`.
pub open spec fn loses_time<TS: TransitionSystem>(
    ts: &TS,
    tasks: Seq<Task>,
    visited: Set<Constraint>,
    mine: Move,
    other: Move,
    precision: Duration,
    now: Time,
) -> bool {
    exists|set: ConstraintSet| #[trigger]
        covers_set(&set, visited.insert(resolving(mine, other, precision)), mine.agent) && set.wf()
            && ends_after(ts, &set, tasks[mine.agent as int], now)
}

/// Whether the agent of `mine` can give way to `other` by the margin
/// `precision` in time: under the constraints in `visited` and the
/// constraint that keeps it out of the conflict, it has a path to its goal,
/// there to stay for good, that ends no later than `now`.
pub open spec fn gives_way_in_time<TS: TransitionSystem>(
    ts: &TS,
    tasks: Seq<Task>,
    visited: Set<Constraint>,
    mine: Move,
    other: Move,
    precision: Duration,
    now: Time,
) -> bool {
    exists|set: ConstraintSet, plan: Solution<SippState>| #[trigger]
        lsipp_solves(ts, &set, tasks[mine.agent as int], Seq::<Constraint>::empty(), plan) && covers_set(
            &set,
            visited.insert(resolving(mine, other, precision)),
            mine.agent,
        ) && set.wf() && plan.costs@.last() <= now
}

/// Two sets that forbid an agent what the same constraints forbid it forbid
/// the same.
pub proof fn lemma_covers_same(a: &ConstraintSet, b: &ConstraintSet, visited: Set<Constraint>, agent: usize)
    requires
        covers_set(a, visited, agent),
        covers_set(b, visited, agent),
    ensures
        same_blocks(a, b),
{
}

/// An agent that can give way in time does not lose time when it gives way,
/// and one that loses time cannot give way in time.
pub proof fn lemma_gives_way_one_way<TS: TransitionSystem>(
    ts: &TS,
    tasks: Seq<Task>,
    visited: Set<Constraint>,
    mine: Move,
    other: Move,
    precision: Duration,
    now: Time,
)
    ensures
        !(loses_time(ts, tasks, visited, mine, other, precision, now) && gives_way_in_time(
            ts,
            tasks,
            visited,
            mine,
            other,
            precision,
            now,
        )),
{
    if loses_time(ts, tasks, visited, mine, other, precision, now) && gives_way_in_time(
        ts,
        tasks,
        visited,
        mine,
        other,
        precision,
        now,
    ) {
        let task = tasks[mine.agent as int];
        let more = visited.insert(resolving(mine, other, precision));
        let late = choose|set: ConstraintSet| #[trigger]
            covers_set(&set, more, mine.agent) && set.wf() && ends_after(ts, &set, task, now);
        let (set, plan) = choose|set: ConstraintSet, plan: Solution<SippState>| #[trigger]
            lsipp_solves(ts, &set, task, Seq::<Constraint>::empty(), plan) && covers_set(
                &set,
                more,
                mine.agent,
            ) && set.wf() && plan.costs@.last() <= now;
        lemma_covers_same(&set, &late, more, mine.agent);
        lemma_valid_plan_same_blocks(ts, &set, &late, plan.states@, plan.costs@, plan.actions@);
        assert(plan_of_task(ts, &late, task, Interval::whole(), plan.states@, plan.costs@, plan.actions@));
    }
}

/// Whether the agent of `mine` loses time when it gives way to `other`, by
/// whatever margin the constraint was made with.
pub open spec fn gives_way_late<TS: TransitionSystem>(
    ts: &TS,
    tasks: Seq<Task>,
    visited: Set<Constraint>,
    mine: Move,
    other: Move,
    now: Time,
) -> bool {
    exists|precision: Duration| #[trigger] loses_time(ts, tasks, visited, mine, other, precision, now)
}

/// Whether the kind of `conflict` says no more than holds: where it is
/// cardinal, either agent loses time when it gives way, and where it is
/// semi-cardinal, one of them does. The plans of the two agents end at
/// `first_now` and `second_now`.
pub open spec fn kind_ok<TS: TransitionSystem>(
    ts: &TS,
    tasks: Seq<Task>,
    visited: Set<Constraint>,
    conflict: Conflict,
    first_now: Time,
    second_now: Time,
) -> bool {
    let one = gives_way_late(ts, tasks, visited, conflict.first(), conflict.second(), first_now);
    let other = gives_way_late(ts, tasks, visited, conflict.second(), conflict.first(), second_now);
    match conflict.type_ {
        ConflictType::Cardinal => one && other,
        ConflictType::SemiCardinal => one || other,
        _ => true,
    }
}

/// The time at which the plan of `agent` at the node `id` ends.
pub open spec fn plan_end(nodes: Seq<CbsNode>, id: usize, agent: usize) -> Time {
    plan_of(nodes, id, agent).unwrap().costs@.last()
}

/// Whether the kind of every conflict of the node `id` says no more than
/// holds.
pub open spec fn kinds_ok<TS: TransitionSystem>(ts: &TS, tasks: Seq<Task>, nodes: Seq<CbsNode>, id: usize) -> bool {
    forall|q: int|
        0 <= q < nodes[id as int].conflicts@.len() ==> kind_ok(
            ts,
            tasks,
            under(nodes, Some(id), None),
            #[trigger] nodes[id as int].conflicts@[q],
            plan_end(nodes, id, nodes[id as int].conflicts@[q].first().agent),
            plan_end(nodes, id, nodes[id as int].conflicts@[q].second().agent),
        )
}

/// The kinds of the conflicts of a node say no more than holds whatever
/// nodes come after it.
pub proof fn lemma_kinds_ok_stable<TS: TransitionSystem>(
    ts: &TS,
    tasks: Seq<Task>,
    a: Seq<CbsNode>,
    b: Seq<CbsNode>,
    id: usize,
)
    requires
        kinds_ok(ts, tasks, a, id),
        id < a.len(),
        id < b.len(),
        forall|i: int| 0 <= i <= id ==> (#[trigger] a[i]) == b[i],
    ensures
        kinds_ok(ts, tasks, b, id),
{
    lemma_same_tree(a, b, id);
    assert(under(a, Some(id), None) =~= under(b, Some(id), None));
    assert forall|q: int| 0 <= q < b[id as int].conflicts@.len() implies kind_ok(
        ts,
        tasks,
        under(b, Some(id), None),
        #[trigger] b[id as int].conflicts@[q],
        plan_end(b, id, b[id as int].conflicts@[q].first().agent),
        plan_end(b, id, b[id as int].conflicts@[q].second().agent),
    ) by {
        let conflict = a[id as int].conflicts@[q];
        assert(kind_ok(
            ts,
            tasks,
            under(a, Some(id), None),
            conflict,
            plan_end(a, id, conflict.first().agent),
            plan_end(a, id, conflict.second().agent),
        ));
    }
}

/// Whether the child of `parent` that adds the constraint `c` is among the
/// nodes that `after` holds beyond `before`, or the agent of `c` is left
/// without a path under `c` and the constraints of `parent`.
pub open spec fn settled<TS: TransitionSystem>(
    ts: &TS,
    tasks: Seq<Task>,
    before: Seq<CbsNode>,
    after: Seq<CbsNode>,
    parent: usize,
    c: Constraint,
) -> bool {
    ||| exists|k: int| before.len() <= k < after.len() && (#[trigger] after[k]).constraint == Some(c)
    ||| left_stranded(ts, tasks, under(before, Some(parent), Some(c)), c.agent)
}

/// The conflicts of a node are between moves of two of the agents, of which
/// the first has the smaller number.
pub proof fn lemma_conflict_agents<TS: TransitionSystem>(
    ts: &TS,
    tasks: Seq<Task>,
    nodes: Seq<CbsNode>,
    id: usize,
    q: int,
)
    requires
        tasks.len() <= usize::MAX,
        node_ok(ts, tasks, nodes, id),
        0 <= q < nodes[id as int].conflicts@.len(),
    ensures
        nodes[id as int].conflicts@[q].first().agent < nodes[id as int].conflicts@[q].second().agent,
        nodes[id as int].conflicts@[q].second().agent < tasks.len(),
{
    let conflict = nodes[id as int].conflicts@[q];
    let moves = all_moves(ts, nodes, id, tasks.len());
    assert(reports_any(conflict, moves));
    let (i, j) = choose|i: int, j: int| 0 <= i < j < moves.len() && #[trigger] reports(conflict, moves[i], moves[j]);
    let (k, l) = choose|k: int, l: int|
        0 <= k < moves[i].len() && 0 <= l < moves[j].len() && #[trigger] collides(moves[i], k, moves[j], l)
            && conflict.first() == moves[i][k] && conflict.second() == moves[j][l];
    assert(moves[i][k] == plan_move(ts, i as usize, plan_of(nodes, id, i as usize).unwrap(), k));
    assert(moves[j][l] == plan_move(ts, j as usize, plan_of(nodes, id, j as usize).unwrap(), l));
}

/// A set that represents a node forbids what the constraints of the node
/// and of the nodes above it forbid.
pub proof fn lemma_represents_covers(set: &ConstraintSet, nodes: Seq<CbsNode>, id: usize, agent: usize)
    requires
        represents(set, nodes, id, agent),
    ensures
        covers_set(set, under(nodes, Some(id), None), agent),
{
    let visited = under(nodes, Some(id), None);
    assert forall|s: State, t: int| #[trigger]
        blocked(set.state_bucket(s), t) <==> exists|c: Constraint|
            visited.contains(c) && #[trigger] forbids_state(c, agent, s, t) by {
        if blocked(set.state_bucket(s), t) {
            let x = choose|x: Constraint| chain_has(nodes, id, x) && #[trigger] forbids_state(x, agent, s, t);
            assert(visited.contains(x) && forbids_state(x, agent, s, t));
        }
        if exists|c: Constraint| visited.contains(c) && #[trigger] forbids_state(c, agent, s, t) {
            let x = choose|x: Constraint| visited.contains(x) && #[trigger] forbids_state(x, agent, s, t);
            assert(chain_has(nodes, id, x) && forbids_state(x, agent, s, t));
        }
    }
    assert forall|f: State, g: State, t: int| #[trigger]
        blocked(set.action_bucket(f, g), t) <==> exists|c: Constraint|
            visited.contains(c) && #[trigger] forbids_action(c, agent, f, g, t) by {
        if blocked(set.action_bucket(f, g), t) {
            let x = choose|x: Constraint|
                chain_has(nodes, id, x) && #[trigger] forbids_action(x, agent, f, g, t);
            assert(visited.contains(x) && forbids_action(x, agent, f, g, t));
        }
        if exists|c: Constraint| visited.contains(c) && #[trigger] forbids_action(c, agent, f, g, t) {
            let x = choose|x: Constraint| visited.contains(x) && #[trigger] forbids_action(x, agent, f, g, t);
            assert(chain_has(nodes, id, x) && forbids_action(x, agent, f, g, t));
        }
    }
}

/// Whether `plan` does the task of `agent` under a set of constraints that
/// forbids the agent what the constraints in `visited` forbid it.
pub open spec fn prospect_ok<TS: TransitionSystem>(
    ts: &TS,
    tasks: Seq<Task>,
    visited: Set<Constraint>,
    agent: usize,
    plan: Solution<SippState>,
) -> bool {
    exists|set: ConstraintSet| #[trigger]
        covers_set(&set, visited, agent) && set.wf() && lsipp_solves(
            ts,
            &set,
            tasks[agent as int],
            Seq::<Constraint>::empty(),
            plan,
        )
}

/// The sum of the times at which the first `n` of the plans end.
pub open spec fn plans_cost(plans: Seq<Solution<SippState>>, n: nat) -> int
    decreases n,
{
    if n == 0 {
        0
    } else {
        plans_cost(plans, (n - 1) as nat) + plans[n - 1].costs@.last()
    }
}

/// Whether the node `a` is taken from the queue before the node `b`: it
/// costs less or, at the same cost, has fewer conflicts or, with as many
/// conflicts, a less pressing one to resolve first.
pub open spec fn node_before(a: CbsNode, b: CbsNode) -> bool {
    ||| a.total_cost < b.total_cost
    ||| a.total_cost == b.total_cost && a.conflicts@.len() < b.conflicts@.len()
    ||| a.total_cost == b.total_cost && a.conflicts@.len() == b.conflicts@.len() && first_rank(a)
        > first_rank(b)
}

/// The place of the kind of the first conflict of a node in the order of
/// kinds, or one more than any where the node has no conflict.
pub open spec fn first_rank(node: CbsNode) -> int {
    if node.conflicts@.len() > 0 {
        node.conflicts@[0].type_.rank()
    } else {
        4
    }
}

/// A node that is what it has to be stays so when nodes are added to the
/// tree.
pub proof fn lemma_node_ok_stable<TS: TransitionSystem>(
    ts: &TS,
    tasks: Seq<Task>,
    a: Seq<CbsNode>,
    b: Seq<CbsNode>,
    id: usize,
)
    requires
        node_ok(ts, tasks, a, id),
        same_tree(a, b, id),
        a[id as int].conflicts == b[id as int].conflicts,
        a[id as int].total_cost == b[id as int].total_cost,
    ensures
        node_ok(ts, tasks, b, id),
{
    lemma_same_tree(a, b, id);
    assert forall|agent: usize| agent < tasks.len() implies #[trigger] plan_ok(
        ts,
        tasks,
        b,
        id,
        agent,
    ) by {
        assert(plan_ok(ts, tasks, a, id, agent));
        assert(plan_of(a, id, agent) == plan_of(b, id, agent));
        let set = choose|set: ConstraintSet| #[trigger]
            represents(&set, a, id, agent) && set.wf() && lsipp_solves(
                ts,
                &set,
                tasks[agent as int],
                Seq::<Constraint>::empty(),
                plan_of(a, id, agent).unwrap(),
            );
        assert(represents(&set, b, id, agent)) by {
            assert forall|c: Constraint| chain_has(a, id, c) == chain_has(b, id, c) by {}
        }
    }
    assert(all_moves(ts, a, id, tasks.len()) =~= all_moves(ts, b, id, tasks.len())) by {
        assert forall|agent: usize| #[trigger]
            node_moves(ts, a, id, agent) == node_moves(ts, b, id, agent) by {
            assert(plan_of(a, id, agent) == plan_of(b, id, agent));
        }
    }
    lemma_cost_sum_stable(a, b, id, tasks.len());
}

/// The cost of a node depends on nothing but the plans at the node.
pub proof fn lemma_cost_sum_stable(a: Seq<CbsNode>, b: Seq<CbsNode>, id: usize, n: nat)
    requires
        forall|agent: usize| #[trigger] plan_of(a, id, agent) == plan_of(b, id, agent),
    ensures
        cost_sum(a, id, n) == cost_sum(b, id, n),
    decreases n,
{
    if n > 0 {
        lemma_cost_sum_stable(a, b, id, (n - 1) as nat);
        assert(plan_of(a, id, (n - 1) as usize) == plan_of(b, id, (n - 1) as usize));
    }
}

/// The cost of a node is the sum of the costs of plans that are its plans.
pub proof fn lemma_cost_sum_plans(nodes: Seq<CbsNode>, id: usize, plans: Seq<Solution<SippState>>, n: nat)
    requires
        n <= plans.len(),
        n <= usize::MAX,
        forall|agent: usize|
            agent < n ==> (#[trigger] plan_of(nodes, id, agent)).is_some() && plan_of(
                nodes,
                id,
                agent,
            ).unwrap().costs@ == plans[agent as int].costs@,
    ensures
        cost_sum(nodes, id, n) == plans_cost(plans, n),
    decreases n,
{
    if n > 0 {
        lemma_cost_sum_plans(nodes, id, plans, (n - 1) as nat);
        assert(plan_of(nodes, id, (n - 1) as usize).unwrap().costs@ == plans[n - 1].costs@);
    }
}

/// Whether no path that the agent can follow under the constraints from
/// the initial state of the task to its goal ends before `plan` does.
pub open spec fn cheapest<TS: TransitionSystem>(
    ts: &TS,
    set: &ConstraintSet,
    task: Task,
    plan: Solution<SippState>,
) -> bool {
    least_end(ts, set, task, plan.costs@.last())
}

/// Whether the plan of `agent` at the node `id` is the cheapest under the
/// constraints of the node and of the nodes above it.
pub open spec fn plan_best<TS: TransitionSystem>(
    ts: &TS,
    tasks: Seq<Task>,
    nodes: Seq<CbsNode>,
    id: usize,
    agent: usize,
) -> bool {
    exists|set: ConstraintSet| #[trigger]
        represents(&set, nodes, id, agent) && set.wf() && cheapest(
            ts,
            &set,
            tasks[agent as int],
            plan_of(nodes, id, agent).unwrap(),
        )
}

/// Whether the node `id` holds the cheapest plan of every agent, and costs
/// no less than its parent.
pub open spec fn node_best<TS: TransitionSystem>(ts: &TS, tasks: Seq<Task>, nodes: Seq<CbsNode>, id: usize) -> bool {
    &&& forall|agent: usize| agent < tasks.len() ==> #[trigger] plan_best(ts, tasks, nodes, id, agent)
    &&& match nodes[id as int].parent {
        Some(p) => p < id && nodes[p as int].total_cost <= nodes[id as int].total_cost,
        None => true,
    }
}

/// Whether `plan` is the cheapest plan of `agent` under a set of constraints
/// that forbids the agent what the constraints in `visited` forbid it.
pub open spec fn prospect_best<TS: TransitionSystem>(
    ts: &TS,
    tasks: Seq<Task>,
    visited: Set<Constraint>,
    agent: usize,
    plan: Solution<SippState>,
) -> bool {
    exists|set: ConstraintSet| #[trigger]
        covers_set(&set, visited, agent) && set.wf() && cheapest(ts, &set, tasks[agent as int], plan)
}

/// Whether the bounds of the differential heuristic are admissible for the
/// goal of every task, and every task begins in a state of the system.
pub open spec fn bounds_fit<TS: TransitionSystem, H: Heuristic>(
    ts: &TS,
    tasks: Seq<Task>,
    pivots: Seq<State>,
    heuristics: Seq<H>,
) -> bool {
    forall|agent: int|
        0 <= agent < tasks.len() ==> (#[trigger] tasks[agent]).initial_state < ts.n_states()
            && walk_admissible(
            ts,
            tasks[agent].goal_state,
            differential_bounds(tasks[agent].goal_state, pivots, heuristics),
        )
}

/// Whether the bounds of the heuristics of the configuration fit the tasks
/// of the configuration.
pub open spec fn bounds_ok<TS: TransitionSystem, H: Heuristic>(ts: &TS, config: &CbsConfig<H>) -> bool {
    bounds_fit(ts, config.tasks(), config.pivots(), config.heuristics())
}

/// The bounds fit where every task begins in a state of the system, the
/// heuristic to each pivot gives the time of the shortest walk to the
/// pivot, and the goal of every task is a pivot or the walks of the system
/// can be gone back.
pub proof fn lemma_bounds_fit<TS: TransitionSystem, H: Heuristic>(
    ts: &TS,
    tasks: Seq<Task>,
    pivots: Seq<State>,
    heuristics: Seq<H>,
)
    requires
        forall|agent: int| 0 <= agent < tasks.len() ==> (#[trigger] tasks[agent]).initial_state < ts.n_states(),
        forall|i: int, s: State|
            0 <= i < pivots.len() && i < heuristics.len() ==> #[trigger] heuristics[i].value(s)
                == crate::transition::shortest(ts, s, pivots[i]),
        crate::transition::symmetric(ts) || forall|agent: int|
            0 <= agent < tasks.len() ==> crate::search::matched(
                (#[trigger] tasks[agent]).goal_state,
                pivots,
                if pivots.len() <= heuristics.len() {
                    pivots.len()
                } else {
                    heuristics.len()
                },
            ),
    ensures
        bounds_fit(ts, tasks, pivots, heuristics),
{
    assert forall|agent: int| 0 <= agent < tasks.len() implies (#[trigger] tasks[agent]).initial_state
        < ts.n_states() && walk_admissible(
        ts,
        tasks[agent].goal_state,
        differential_bounds(tasks[agent].goal_state, pivots, heuristics),
    ) by {
        let goal = tasks[agent].goal_state;
        assert forall|state: State, cost: int| #[trigger] connected(ts, state, goal, cost) && cost
            <= u64::MAX implies differential_bounds(goal, pivots, heuristics)(state).is_some()
            && differential_bounds(goal, pivots, heuristics)(state).unwrap() <= cost by {
            crate::search::lemma_differential_bounds_admissible(
                ts,
                goal,
                pivots,
                heuristics,
                state,
                cost,
            );
        }
    }
}

/// Bounds that fit still fit when the heuristics have answered questions.
pub proof fn lemma_bounds_follow<TS: TransitionSystem, H: Heuristic>(
    ts: &TS,
    tasks: Seq<Task>,
    pivots: Seq<State>,
    before: Seq<H>,
    after: Seq<H>,
)
    requires
        bounds_fit(ts, tasks, pivots, before),
        heuristics_follow(after, before),
    ensures
        bounds_fit(ts, tasks, pivots, after),
{
    let count: nat = if pivots.len() <= before.len() {
        pivots.len()
    } else {
        before.len()
    };
    assert forall|i: int, s: State| 0 <= i < count implies #[trigger] after[i].value(s) == before[i].value(
        s,
    ) by {
        assert(after[i].follows(&before[i]));
        after[i].lemma_follows_value(&before[i], s);
    }
    assert forall|agent: int| 0 <= agent < tasks.len() implies (#[trigger] tasks[agent]).initial_state
        < ts.n_states() && walk_admissible(
        ts,
        tasks[agent].goal_state,
        differential_bounds(tasks[agent].goal_state, pivots, after),
    ) by {
        let goal = tasks[agent].goal_state;
        let old_bounds = differential_bounds(goal, pivots, before);
        let new_bounds = differential_bounds(goal, pivots, after);
        assert(walk_admissible(ts, goal, old_bounds));
        assert forall|state: State, cost: int| #[trigger] connected(ts, state, goal, cost) && cost
            <= u64::MAX implies new_bounds(state).is_some() && new_bounds(state).unwrap() <= cost by {
            lemma_differential_same(goal, pivots, after, before, state, count);
            assert(new_bounds(state) == old_bounds(state));
        }
    }
}

/// A plan that is the cheapest under a set of constraints costs no more
/// than a plan that is valid under a set that forbids no less.
pub proof fn lemma_cheaper<TS: TransitionSystem>(
    ts: &TS,
    fewer: &ConstraintSet,
    more: &ConstraintSet,
    task: Task,
    cheap: Solution<SippState>,
    plan: Solution<SippState>,
)
    requires
        cheapest(ts, fewer, task, cheap),
        forbids_less(fewer, more),
        lsipp_solves(ts, more, task, Seq::<Constraint>::empty(), plan),
    ensures
        cheap.costs@.last() <= plan.costs@.last(),
{
    lemma_relabel(ts, more, fewer, plan.states@, plan.costs@, plan.actions@);
    let wide = relabelled(fewer, plan.states@, plan.costs@);
    assert(plan_of_task(ts, fewer, task, Interval::whole(), wide, plan.costs@, plan.actions@));
}

/// A set that forbids an agent what some constraints forbid it forbids no
/// more than a set that forbids it what these and more constraints forbid
/// it.
pub proof fn lemma_covers_less(
    fewer: &ConstraintSet,
    more: &ConstraintSet,
    few: Set<Constraint>,
    many: Set<Constraint>,
    agent: usize,
)
    requires
        covers_set(fewer, few, agent),
        covers_set(more, many, agent),
        forall|c: Constraint| few.contains(c) ==> many.contains(c),
    ensures
        forbids_less(fewer, more),
{
    assert forall|s: State, t: int| #[trigger] blocked(fewer.state_bucket(s), t) implies blocked(
        more.state_bucket(s),
        t,
    ) by {
        let c = choose|c: Constraint| few.contains(c) && #[trigger] forbids_state(c, agent, s, t);
        assert(many.contains(c) && forbids_state(c, agent, s, t));
    }
    assert forall|f: State, g: State, t: int| #[trigger]
        blocked(fewer.action_bucket(f, g), t) implies blocked(more.action_bucket(f, g), t) by {
        let c = choose|c: Constraint| few.contains(c) && #[trigger] forbids_action(c, agent, f, g, t);
        assert(many.contains(c) && forbids_action(c, agent, f, g, t));
    }
}

/// Where no plan costs less than the plan of the same agent at a node, the
/// plans together cost no less than the node.
pub proof fn lemma_cost_sum_le(nodes: Seq<CbsNode>, id: usize, plans: Seq<Solution<SippState>>, n: nat)
    requires
        n <= plans.len(),
        n <= usize::MAX,
        forall|agent: usize|
            agent < n ==> (#[trigger] plan_of(nodes, id, agent)).is_some() && plan_of(
                nodes,
                id,
                agent,
            ).unwrap().costs@.last() <= plans[agent as int].costs@.last(),
    ensures
        cost_sum(nodes, id, n) <= plans_cost(plans, n),
    decreases n,
{
    if n > 0 {
        lemma_cost_sum_le(nodes, id, plans, (n - 1) as nat);
        assert(plan_of(nodes, id, (n - 1) as usize).unwrap().costs@.last() <= plans[n - 1].costs@.last());
    }
}

/// A node that holds the cheapest plans stays so when nodes are added to
/// the tree.
pub proof fn lemma_node_best_stable<TS: TransitionSystem>(
    ts: &TS,
    tasks: Seq<Task>,
    a: Seq<CbsNode>,
    b: Seq<CbsNode>,
    id: usize,
)
    requires
        node_best(ts, tasks, a, id),
        same_tree(a, b, id),
        forall|i: int| 0 <= i <= id ==> (#[trigger] a[i]).total_cost == b[i].total_cost,
    ensures
        node_best(ts, tasks, b, id),
{
    lemma_same_tree(a, b, id);
    assert forall|agent: usize| agent < tasks.len() implies #[trigger] plan_best(
        ts,
        tasks,
        b,
        id,
        agent,
    ) by {
        assert(plan_best(ts, tasks, a, id, agent));
        assert(plan_of(a, id, agent) == plan_of(b, id, agent));
        let set = choose|set: ConstraintSet| #[trigger]
            represents(&set, a, id, agent) && set.wf() && cheapest(
                ts,
                &set,
                tasks[agent as int],
                plan_of(a, id, agent).unwrap(),
            );
        assert(represents(&set, b, id, agent)) by {
            assert forall|c: Constraint| chain_has(a, id, c) == chain_has(b, id, c) by {}
        }
    }
    assert(a[id as int].parent == b[id as int].parent);
}

/// A node that holds the cheapest plan of every agent costs no more than
/// any plans, one for each agent, that do the tasks of the agents under the
/// constraints of the node.
pub proof fn lemma_node_cost_least<TS: TransitionSystem>(
    ts: &TS,
    tasks: Seq<Task>,
    nodes: Seq<CbsNode>,
    id: usize,
    plans: Seq<Solution<SippState>>,
)
    requires
        tasks.len() <= usize::MAX,
        plans.len() == tasks.len(),
        node_ok(ts, tasks, nodes, id),
        node_best(ts, tasks, nodes, id),
        forall|agent: usize|
            agent < tasks.len() ==> #[trigger] does_task(ts, tasks, nodes, id, agent, plans[agent as int]),
    ensures
        nodes[id as int].total_cost <= plans_cost(plans, tasks.len()),
{
    assert forall|agent: usize| agent < tasks.len() implies (#[trigger] plan_of(nodes, id, agent)).is_some()
        && plan_of(nodes, id, agent).unwrap().costs@.last() <= plans[agent as int].costs@.last() by {
        assert(plan_ok(ts, tasks, nodes, id, agent));
        assert(plan_best(ts, tasks, nodes, id, agent));
        assert(does_task(ts, tasks, nodes, id, agent, plans[agent as int]));
        let cheap = choose|set: ConstraintSet| #[trigger]
            represents(&set, nodes, id, agent) && set.wf() && cheapest(
                ts,
                &set,
                tasks[agent as int],
                plan_of(nodes, id, agent).unwrap(),
            );
        let other = choose|set: ConstraintSet| #[trigger]
            represents(&set, nodes, id, agent) && set.wf() && lsipp_solves(
                ts,
                &set,
                tasks[agent as int],
                Seq::<Constraint>::empty(),
                plans[agent as int],
            );
        lemma_represents_covers(&cheap, nodes, id, agent);
        lemma_represents_covers(&other, nodes, id, agent);
        lemma_covers_less(
            &cheap,
            &other,
            under(nodes, Some(id), None),
            under(nodes, Some(id), None),
            agent,
        );
        lemma_cheaper(
            ts,
            &cheap,
            &other,
            tasks[agent as int],
            plan_of(nodes, id, agent).unwrap(),
            plans[agent as int],
        );
    }
    lemma_cost_sum_le(nodes, id, plans, tasks.len());
}

/// A node that holds the cheapest plan of every agent costs no more than a
/// node, of this tree or another, whose constraints are the same.
pub proof fn lemma_node_cost_le<TS: TransitionSystem>(
    ts: &TS,
    tasks: Seq<Task>,
    a: Seq<CbsNode>,
    ia: usize,
    b: Seq<CbsNode>,
    ib: usize,
)
    requires
        tasks.len() <= usize::MAX,
        node_ok(ts, tasks, a, ia),
        node_best(ts, tasks, a, ia),
        node_ok(ts, tasks, b, ib),
        forall|c: Constraint| chain_has(a, ia, c) <==> chain_has(b, ib, c),
    ensures
        a[ia as int].total_cost <= b[ib as int].total_cost,
{
    let n = tasks.len();
    let plans = Seq::new(n, |agent: int| plan_of(b, ib, agent as usize).unwrap());
    assert forall|agent: usize| agent < n implies #[trigger] does_task(
        ts,
        tasks,
        a,
        ia,
        agent,
        plans[agent as int],
    ) by {
        assert(plan_ok(ts, tasks, b, ib, agent));
        let set = choose|set: ConstraintSet| #[trigger]
            represents(&set, b, ib, agent) && set.wf() && lsipp_solves(
                ts,
                &set,
                tasks[agent as int],
                Seq::<Constraint>::empty(),
                plan_of(b, ib, agent).unwrap(),
            );
        assert(represents(&set, a, ia, agent));
    }
    lemma_node_cost_least(ts, tasks, a, ia, plans);
    assert forall|agent: usize| agent < n implies (#[trigger] plan_of(b, ib, agent)).is_some() && plan_of(
        b,
        ib,
        agent,
    ).unwrap().costs@ == plans[agent as int].costs@ by {
        assert(plan_ok(ts, tasks, b, ib, agent));
    }
    lemma_cost_sum_plans(b, ib, plans, n);
}

/// Two nodes with the same constraints, each with the cheapest plan of every
/// agent, cost the same, whatever trees they stand in: a search that is
/// started over finds the same cost under the same constraints.
pub proof fn lemma_node_cost_same<TS: TransitionSystem>(
    ts: &TS,
    tasks: Seq<Task>,
    a: Seq<CbsNode>,
    ia: usize,
    b: Seq<CbsNode>,
    ib: usize,
)
    requires
        tasks.len() <= usize::MAX,
        node_ok(ts, tasks, a, ia),
        node_best(ts, tasks, a, ia),
        node_ok(ts, tasks, b, ib),
        node_best(ts, tasks, b, ib),
        forall|c: Constraint| chain_has(a, ia, c) <==> chain_has(b, ib, c),
    ensures
        a[ia as int].total_cost == b[ib as int].total_cost,
{
    lemma_node_cost_le(ts, tasks, a, ia, b, ib);
    lemma_node_cost_le(ts, tasks, b, ib, a, ia);
}

/// A root that holds the cheapest plan of every agent costs no more than
/// any plans, one for each agent, that do the tasks of the agents under no
/// constraints: a root without conflicts is the best of all plans that are
/// free of collisions.
pub proof fn lemma_root_cost_least<TS: TransitionSystem>(
    ts: &TS,
    tasks: Seq<Task>,
    nodes: Seq<CbsNode>,
    free: &ConstraintSet,
    plans: Seq<Solution<SippState>>,
)
    requires
        tasks.len() <= usize::MAX,
        plans.len() == tasks.len(),
        node_ok(ts, tasks, nodes, 0),
        node_best(ts, tasks, nodes, 0),
        nodes[0].constraint.is_none(),
        unconstrained(free),
        free.wf(),
        forall|agent: int|
            0 <= agent < tasks.len() ==> lsipp_solves(
                ts,
                free,
                tasks[agent],
                Seq::<Constraint>::empty(),
                #[trigger] plans[agent],
            ),
    ensures
        nodes[0].total_cost <= plans_cost(plans, tasks.len()),
{
    assert forall|agent: usize| agent < tasks.len() implies #[trigger] does_task(
        ts,
        tasks,
        nodes,
        0,
        agent,
        plans[agent as int],
    ) by {
        assert forall|c: Constraint| !chain_has(nodes, 0, c) by {}
        assert(represents(free, nodes, 0, agent));
        assert(lsipp_solves(ts, free, tasks[agent as int], Seq::<Constraint>::empty(), plans[agent as int]));
    }
    lemma_node_cost_least(ts, tasks, nodes, 0, plans);
}

} // verus!
