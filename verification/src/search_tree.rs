//! The tree that a safe-interval search grows, and the tables that it
//! keeps.

use vstd::prelude::*;
use crate::constraint::{blocked, ConstraintSet};
use crate::intervals::covers;
use crate::sipp::{maximal_safe_interval, step_ok, stop_ok, SippState, SippTask};
use crate::time::{Interval, Time};
use crate::transition::{Action, TransitionSystem};
use crate::weight::row_weight;

verus! {

/// A node of the search tree: a state that the agent reaches, when it does,
/// and from where.
#[derive(Clone, Copy)]
pub(crate) struct SippNode {
    pub(crate) state: SippState,
    pub(crate) slot: usize,
    pub(crate) cost: Time,
    pub(crate) parent: Option<(Action, usize)>,
}

pub(crate) open spec fn table_weight(table: Seq<Vec<Option<Time>>>) -> nat
    decreases table.len(),
{
    if table.len() == 0 {
        0
    } else {
        table_weight(table.drop_last()) + row_weight(table.last()@)
    }
}

pub(crate) proof fn lemma_table_update(table: Seq<Vec<Option<Time>>>, s: int, row: Vec<Option<Time>>)
    requires
        0 <= s < table.len(),
    ensures
        table_weight(table.update(s, row)) + row_weight(table[s]@) == table_weight(table)
            + row_weight(row@),
    decreases table.len(),
{
    if s == table.len() - 1 {
        assert(table.update(s, row).drop_last() =~= table.drop_last());
    } else {
        lemma_table_update(table.drop_last(), s, row);
        assert(table.update(s, row).drop_last() =~= table.drop_last().update(s, row));
    }
}

/// The path of tree nodes from a root to the node `i`.
pub(crate) open spec fn chain(nodes: Seq<SippNode>, i: usize) -> Seq<usize>
    decreases i,
{
    match nodes[i as int].parent {
        Some((_, p)) => if p < i {
            chain(nodes, p).push(i)
        } else {
            seq![i]
        },
        None => seq![i],
    }
}

pub(crate) open spec fn tables_ok<TS: TransitionSystem>(
    ts: &TS,
    constraints: &ConstraintSet,
    safe: Seq<Vec<Interval>>,
    distance: Seq<Vec<Option<Time>>>,
) -> bool {
    &&& safe.len() == ts.n_states()
    &&& distance.len() == ts.n_states()
    &&& forall|s: int| 0 <= s < safe.len() ==> (#[trigger] distance[s]).len() == safe[s].len()
    &&& forall|s: int, j: int|
        0 <= s < safe.len() && 0 <= j < safe[s].len() ==> maximal_safe_interval(
            constraints,
            s as usize,
            #[trigger] safe[s][j],
        )
    &&& forall|s: int, t: int|
        0 <= s < safe.len() && 0 <= t <= u64::MAX && !blocked(constraints.state_bucket(s as usize), t)
            ==> #[trigger] covers(safe[s]@, t)
}

pub(crate) open spec fn node_ok<TS: TransitionSystem>(
    ts: &TS,
    constraints: &ConstraintSet,
    task: &SippTask,
    safe: Seq<Vec<Interval>>,
    nodes: Seq<SippNode>,
    i: int,
) -> bool {
    let n = nodes[i];
    &&& stop_ok(constraints, n.state, n.cost)
    &&& n.state.internal_state < safe.len()
    &&& n.slot < safe[n.state.internal_state as int].len()
    &&& safe[n.state.internal_state as int][n.slot as int] == n.state.safe_interval
    &&& match n.parent {
        None => task.starts_at(n.state, n.cost),
        Some((a, p)) => p < i && step_ok(
            ts,
            constraints,
            nodes[p as int].state,
            nodes[p as int].cost,
            a,
            n.state,
            n.cost,
        ),
    }
}

pub(crate) open spec fn nodes_ok<TS: TransitionSystem>(
    ts: &TS,
    constraints: &ConstraintSet,
    task: &SippTask,
    safe: Seq<Vec<Interval>>,
    nodes: Seq<SippNode>,
) -> bool {
    forall|i: int| 0 <= i < nodes.len() ==> node_ok(ts, constraints, task, safe, nodes, i)
}

pub(crate) proof fn lemma_chain<TS: TransitionSystem>(
    ts: &TS,
    constraints: &ConstraintSet,
    task: &SippTask,
    safe: Seq<Vec<Interval>>,
    nodes: Seq<SippNode>,
    i: usize,
)
    requires
        nodes_ok(ts, constraints, task, safe, nodes),
        i < nodes.len(),
    ensures
        chain(nodes, i).len() >= 1,
        chain(nodes, i).last() == i,
        nodes[chain(nodes, i)[0] as int].parent.is_none(),
        forall|q: int| 0 <= q < chain(nodes, i).len() ==> (#[trigger] chain(nodes, i)[q]) < nodes.len(),
        forall|q: int|
            1 <= q < chain(nodes, i).len() ==> {
                let n = nodes[(#[trigger] chain(nodes, i)[q]) as int];
                n.parent.is_some() && n.parent.unwrap().1 == chain(nodes, i)[q - 1]
            },
    decreases i,
{
    assert(node_ok(ts, constraints, task, safe, nodes, i as int));
    match nodes[i as int].parent {
        Some((_, p)) => {
            lemma_chain(ts, constraints, task, safe, nodes, p);
            let c = chain(nodes, p);
            assert(chain(nodes, i) == c.push(i));
        },
        None => {},
    }
}

} // verus!
