//! A transition system given by an explicit graph.

use vstd::prelude::*;
use crate::time::Duration;
use crate::transition::{Action, State, TransitionSystem};

verus! {

/// One directed edge of a graph.
#[derive(Debug, Clone, Copy, PartialEq, Eq, Structural)]
pub struct Edge {
    pub from: usize,
    pub to: usize,
    pub cost: Duration,
}

/// A directed graph with a cost on each edge. Nodes and edges are numbered
/// in the order in which they were added.
pub struct Graph {
    edges: Vec<Edge>,
    outgoing: Vec<Vec<usize>>,
    incoming: Vec<Vec<usize>>,
}

impl Graph {
    /// Every edge joins two nodes of the graph and is listed at both of them.
    pub closed spec fn wf(&self) -> bool {
        &&& self.outgoing.len() == self.incoming.len()
        &&& forall|e: int|
            0 <= e < self.edges.len() ==> (#[trigger] self.edges[e]).from < self.outgoing.len()
                && self.edges[e].to < self.outgoing.len()
        &&& forall|v: int, k: int|
            0 <= v < self.outgoing.len() && 0 <= k < self.outgoing[v].len() ==> (
            #[trigger] self.outgoing[v][k]) < self.edges.len() && self.edges[self.outgoing[v][k] as int].from
                == v
        &&& forall|v: int, k: int|
            0 <= v < self.incoming.len() && 0 <= k < self.incoming[v].len() ==> (
            #[trigger] self.incoming[v][k]) < self.edges.len() && self.edges[self.incoming[v][k] as int].to
                == v
        &&& forall|e: int|
            0 <= e < self.edges.len() ==> (#[trigger] self.outgoing[self.edges[e].from as int])@.contains(
                e as usize,
            )
        &&& forall|e: int|
            0 <= e < self.edges.len() ==> (#[trigger] self.incoming[self.edges[e].to as int])@.contains(
                e as usize,
            )
    }

    /// The number of nodes.
    pub closed spec fn n_nodes(&self) -> nat {
        self.outgoing.len() as nat
    }

    /// The edges, in the order in which they were added.
    pub closed spec fn edge_list(&self) -> Seq<Edge> {
        self.edges@
    }

    /// The numbers of the edges that leave `node`, in the order in which they
    /// were added.
    pub closed spec fn edges_from(&self, node: usize) -> Seq<usize> {
        if node < self.outgoing.len() {
            self.outgoing[node as int]@
        } else {
            Seq::empty()
        }
    }

    /// The numbers of the edges that arrive at `node`, in the order in which
    /// they were added.
    pub closed spec fn edges_to(&self, node: usize) -> Seq<usize> {
        if node < self.incoming.len() {
            self.incoming[node as int]@
        } else {
            Seq::empty()
        }
    }

    /// A graph without nodes.
    pub fn new() -> (g: Graph)
        ensures
            g.wf(),
            g.n_nodes() == 0,
            g.edge_list() == Seq::<Edge>::empty(),
    {
        Graph { edges: Vec::new(), outgoing: Vec::new(), incoming: Vec::new() }
    }

    pub fn num_nodes(&self) -> (n: usize)
        ensures
            n == self.n_nodes(),
    {
        self.outgoing.len()
    }

    pub fn num_edges(&self) -> (n: usize)
        ensures
            n == self.edge_list().len(),
    {
        self.edges.len()
    }

    /// Adds a node without edges and returns its number.
    pub fn add_node(&mut self) -> (id: usize)
        requires
            old(self).wf(),
        ensures
            final(self).wf(),
            id == old(self).n_nodes(),
            final(self).n_nodes() == old(self).n_nodes() + 1,
            final(self).edge_list() == old(self).edge_list(),
            final(self).edges_from(id) == Seq::<usize>::empty(),
            final(self).edges_to(id) == Seq::<usize>::empty(),
            forall|v: usize|
                v != id ==> final(self).edges_from(v) == old(self).edges_from(v)
                    && final(self).edges_to(v) == old(self).edges_to(v),
    {
        let id: usize = self.outgoing.len();
        self.outgoing.push(Vec::new());
        self.incoming.push(Vec::new());
        id
    }

    /// Adds an edge from `from` to `to` and returns its number.
    pub fn add_edge(&mut self, from: usize, to: usize, cost: Duration) -> (id: usize)
        requires
            old(self).wf(),
            from < old(self).n_nodes(),
            to < old(self).n_nodes(),
        ensures
            final(self).wf(),
            id == old(self).edge_list().len(),
            final(self).n_nodes() == old(self).n_nodes(),
            final(self).edge_list() == old(self).edge_list().push(Edge { from, to, cost }),
            final(self).edges_from(from) == old(self).edges_from(from).push(id),
            final(self).edges_to(to) == old(self).edges_to(to).push(id),
            forall|v: usize| v != from ==> final(self).edges_from(v) == old(self).edges_from(v),
            forall|v: usize| v != to ==> final(self).edges_to(v) == old(self).edges_to(v),
    {
        let id: usize = self.edges.len();
        self.edges.push(Edge { from, to, cost });
        self.outgoing[from].push(id);
        self.incoming[to].push(id);
        proof {
            assert(self.outgoing[from as int]@.last() == id);
            assert(self.incoming[to as int]@.last() == id);
            assert forall|e: int| 0 <= e < self.edges.len() implies (
            #[trigger] self.outgoing[self.edges[e].from as int])@.contains(e as usize) by {
                if e < id {
                    let v = old(self).edges[e].from as int;
                    let k = old(self).outgoing[v]@.index_of(e as usize);
                    assert(self.outgoing[v]@[k] == e as usize);
                }
            }
            assert forall|e: int| 0 <= e < self.edges.len() implies (
            #[trigger] self.incoming[self.edges[e].to as int])@.contains(e as usize) by {
                if e < id {
                    let v = old(self).edges[e].to as int;
                    let k = old(self).incoming[v]@.index_of(e as usize);
                    assert(self.incoming[v]@[k] == e as usize);
                }
            }
        }
        id
    }

    /// The edge with the number `id`.
    pub fn get_edge(&self, id: usize) -> (e: Edge)
        requires
            id < self.edge_list().len(),
        ensures
            e == self.edge_list()[id as int],
    {
        self.edges[id]
    }
}

/// The transition system of an agent that walks along the edges of a graph:
/// its states are the nodes, its actions the edges.
pub struct SimpleWorld {
    graph: Graph,
}

impl SimpleWorld {
    pub fn new(graph: Graph) -> (w: SimpleWorld)
        requires
            graph.wf(),
        ensures
            w.wf(),
            w.graph() == graph,
    {
        SimpleWorld { graph }
    }

    /// The graph that the agent walks on.
    pub closed spec fn graph(&self) -> Graph {
        self.graph
    }
}

impl TransitionSystem for SimpleWorld {
    open spec fn wf(&self) -> bool {
        self.graph().wf()
    }

    open spec fn n_states(&self) -> nat {
        self.graph().n_nodes()
    }

    open spec fn actions(&self, state: State) -> Seq<Action> {
        self.graph().edges_from(state)
    }

    open spec fn target(&self, state: State, action: Action) -> State {
        self.graph().edge_list()[action as int].to
    }

    open spec fn cost(&self, state: State, action: Action) -> Duration {
        self.graph().edge_list()[action as int].cost
    }

    open spec fn reverse_actions(&self, state: State) -> Seq<Action> {
        self.graph().edges_to(state)
    }

    open spec fn source(&self, state: State, action: Action) -> State {
        self.graph().edge_list()[action as int].from
    }

    proof fn lemma_reverse(&self, state: State, action: Action) {
        let k = self.graph.outgoing[state as int]@.index_of(action);
        assert(self.graph.outgoing[state as int][k] == action);
        assert(self.graph.edges[action as int].from == state);
    }

    fn num_states(&self) -> (n: usize) {
        self.graph.num_nodes()
    }

    fn actions_from(&self, state: State) -> (r: Vec<Action>) {
        self.graph.outgoing[state].clone()
    }

    fn transition(&self, state: State, action: &Action) -> (r: State) {
        self.graph.edges[*action].to
    }

    fn transition_cost(&self, state: State, action: &Action) -> (r: Duration) {
        self.graph.edges[*action].cost
    }

    fn reverse_actions_from(&self, state: State) -> (r: Vec<Action>) {
        self.graph.incoming[state].clone()
    }

    fn reverse_transition(&self, state: State, action: &Action) -> (r: State) {
        self.graph.edges[*action].from
    }

    fn reverse_transition_cost(&self, state: State, action: &Action) -> (r: Duration) {
        self.graph.edges[*action].cost
    }
}

} // verus!
