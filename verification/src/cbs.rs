//! Conflict-based search: the best-first search over the tree of constraint
//! sets, whose every node holds one plan for each agent.

use vstd::prelude::*;
use crate::collision::{
    collides,
    deep,
    detect_all,
    lemma_match_same_members,
    lemma_match_same_moves,
    lemma_no_conflicts,
    plan_move,
    plan_moves,
    plans_collide,
    get_moves,
    reports,
    reports_any,
    resolving,
    resolving_constraint,
    same_moves,
    sort_conflicts,
};
use crate::conflict::{Conflict, ConflictType};
use crate::constraint::{blocked, Constraint, ConstraintSet, LandmarkSet};
use crate::lsipp::{lsipp_solves, stranded, LSippConfig, SafeIntervalPathPlanningWithLandmarks};
use crate::plans::{lemma_valid_plan_connected, lemma_walk_admissible, walk_admissible};
use crate::search::{differential_bounds, Heuristic, Solution};
use crate::sipp::SippState;
use crate::time::{Duration, Interval, Time};
use crate::transition::{Move, State, Task, TransitionSystem};
use crate::tree::{
    all_moves,
    bounds_fit,
    bounds_ok,
    chain_has,
    cheapest,
    child_of,
    copy_plan,
    covers_set,
    does_task,
    ends_after,
    gives_way_in_time,
    kind_ok,
    kinds_ok,
    left_stranded,
    lemma_bounds_follow,
    lemma_cheapest_late,
    lemma_kinds_ok_stable,
    lemma_stranded_late,
    loses_time,
    lemma_conflict_agents,
    lemma_cheaper,
    lemma_cost_sum_le,
    lemma_cost_sum_plans,
    lemma_covers_added,
    lemma_covers_less,
    lemma_covers_other,
    lemma_covers_represents,
    lemma_node_best_stable,
    lemma_node_ok_stable,
    lemma_represents_covers,
    lemma_same_tree,
    node_before,
    node_best,
    node_ok,
    plan_best,
    plan_end,
    plan_of,
    plan_ok,
    plans_cost,
    prospect_best,
    prospect_ok,
    represents,
    settled,
    side,
    under,
};

verus! {

/// What a search for all agents has to do.
pub struct CbsConfig<H: Heuristic> {
    tasks: Vec<Task>,
    n_agents: usize,
    pivots: Vec<State>,
    heuristic_to_pivots: Vec<H>,
    precision: Duration,
}

impl<H: Heuristic> CbsConfig<H> {
    /// The tasks, one for each agent.
    pub closed spec fn tasks(&self) -> Seq<Task> {
        self.tasks@
    }

    /// The number of agents.
    pub closed spec fn n_agents(&self) -> nat {
        self.n_agents as nat
    }

    /// The pivots of the differential heuristic.
    pub closed spec fn pivots(&self) -> Seq<State> {
        self.pivots@
    }

    /// The heuristics to the pivots, one for each.
    pub closed spec fn heuristics(&self) -> Seq<H> {
        self.heuristic_to_pivots@
    }

    /// By how much the interval of a state constraint reaches around the
    /// time of a conflict.
    pub closed spec fn precision(&self) -> Duration {
        self.precision
    }

    /// There is one task for each agent, and every heuristic can be asked.
    pub closed spec fn wf(&self) -> bool {
        &&& self.n_agents == self.tasks@.len()
        &&& forall|i: int|
            0 <= i < self.heuristic_to_pivots@.len() ==> (#[trigger] self.heuristic_to_pivots@[i]).wf()
    }

    pub fn new(tasks: Vec<Task>, pivots: Vec<State>, heuristic_to_pivots: Vec<H>, precision: Duration) -> (r:
        Self)
        requires
            forall|i: int| 0 <= i < heuristic_to_pivots@.len() ==> (#[trigger] heuristic_to_pivots@[i]).wf(),
        ensures
            r.wf(),
            r.tasks() == tasks@,
            r.n_agents() == tasks@.len(),
            r.pivots() == pivots@,
            r.heuristics() == heuristic_to_pivots@,
            r.precision() == precision,
    {
        let n_agents: usize = tasks.len();
        CbsConfig { tasks, n_agents, pivots, heuristic_to_pivots, precision }
    }

    /// The number of agents.
    pub fn agents(&self) -> (n: usize)
        ensures
            n == self.n_agents(),
    {
        self.n_agents
    }

    /// The task of `agent`.
    pub fn task(&self, agent: usize) -> (t: Task)
        requires
            agent < self.tasks().len(),
        ensures
            t == self.tasks()[agent as int],
    {
        self.tasks[agent]
    }
}

/// A node of the constraint tree. It adds one constraint to those of its
/// parent, holds the plans that were made anew under it, and the conflicts
/// between the plans of all agents, in the order in which they are to be
/// resolved.
pub struct CbsNode {
    pub constraint: Option<Constraint>,
    pub parent: Option<usize>,
    pub solutions: Vec<Option<Solution<SippState>>>,
    pub conflicts: Vec<Conflict>,
    pub total_cost: u128,
}

/// The engine of the search for all agents. Its nodes are numbered in the
/// order in which they were made; a parent comes before its children.
pub struct ConflictBasedSearch<'a, TS: TransitionSystem> {
    transition_system: &'a TS,
    lsipp: SafeIntervalPathPlanningWithLandmarks<'a, TS>,
    tasks: Vec<Task>,
    nodes: Vec<CbsNode>,
    open: Vec<usize>,
    trusted: Ghost<bool>,
    floor: Ghost<int>,
}

impl<'a, TS: TransitionSystem> ConflictBasedSearch<'a, TS> {
    /// Whether the bounds of the heuristics have fitted ever since the
    /// search was started, so that every plan is the cheapest.
    pub closed spec fn trusted(&self) -> bool {
        self.trusted@
    }

    /// The cost of the node that was taken last, or zero before any was.
    pub closed spec fn floor(&self) -> int {
        self.floor@
    }

    /// The transition system that the agents move in.
    pub closed spec fn transition_system(&self) -> &'a TS {
        self.transition_system
    }

    /// The tasks that the tree was made for.
    pub closed spec fn tasks(&self) -> Seq<Task> {
        self.tasks@
    }

    /// The nodes of the constraint tree.
    pub closed spec fn nodes(&self) -> Seq<CbsNode> {
        self.nodes@
    }

    /// The numbers of the nodes that wait to be taken.
    pub closed spec fn open(&self) -> Seq<usize> {
        self.open@
    }

    /// Every node is what a node of the constraint tree has to be, and the
    /// nodes that wait are nodes of the tree, each of them once.
    pub closed spec fn inv(&self) -> bool {
        &&& self.transition_system.wf()
        &&& self.lsipp.transition_system() == self.transition_system
        &&& forall|id: usize|
            id < self.nodes@.len() ==> #[trigger] node_ok(
                self.transition_system,
                self.tasks@,
                self.nodes@,
                id,
            )
        &&& forall|q: int| 0 <= q < self.open@.len() ==> (#[trigger] self.open@[q]) < self.nodes@.len()
        &&& self.open@.no_duplicates()
        &&& self.trusted@ ==> forall|id: usize|
            id < self.nodes@.len() ==> #[trigger] node_best(
                self.transition_system,
                self.tasks@,
                self.nodes@,
                id,
            )
        &&& self.trusted@ ==> forall|id: usize|
            id < self.nodes@.len() ==> #[trigger] kinds_ok(
                self.transition_system,
                self.tasks@,
                self.nodes@,
                id,
            )
        &&& self.trusted@ ==> forall|q: int|
            0 <= q < self.open@.len() ==> self.nodes@[(#[trigger] self.open@[q]) as int].total_cost
                >= self.floor@
    }

    /// In a well-formed engine every node is what a node of the constraint
    /// tree has to be; where the bounds have fitted, it holds the cheapest
    /// plan of every agent, costs no less than its parent, and the kinds of
    /// its conflicts say no more than holds.
    pub proof fn lemma_inv(&self, id: usize)
        requires
            self.inv(),
            id < self.nodes().len(),
        ensures
            node_ok(self.transition_system(), self.tasks(), self.nodes(), id),
            self.trusted() ==> node_best(self.transition_system(), self.tasks(), self.nodes(), id),
            self.trusted() ==> kinds_ok(self.transition_system(), self.tasks(), self.nodes(), id),
    {
    }

    pub fn new(transition_system: &'a TS) -> (r: Self)
        requires
            transition_system.wf(),
        ensures
            r.inv(),
            r.transition_system() == transition_system,
            r.nodes().len() == 0,
            r.open().len() == 0,
    {
        ConflictBasedSearch {
            transition_system,
            lsipp: SafeIntervalPathPlanningWithLandmarks::new(transition_system),
            tasks: Vec::new(),
            nodes: Vec::new(),
            open: Vec::new(),
            trusted: Ghost(false),
            floor: Ghost(0),
        }
    }

    /// Plans the path of `agent` under the constraints of `set`.
    fn plan_agent<H: Heuristic>(&mut self, config: &mut CbsConfig<H>, set: &ConstraintSet, agent: usize) -> (r:
        Option<Solution<SippState>>)
        requires
            old(self).inv(),
            old(config).wf(),
            old(config).tasks@ == old(self).tasks@,
            old(self).trusted@ ==> bounds_fit(
                old(self).transition_system,
                old(self).tasks@,
                old(config).pivots@,
                old(config).heuristic_to_pivots@,
            ),
            set.wf(),
            agent < old(self).tasks@.len(),
        ensures
            final(self).inv(),
            final(config).wf(),
            final(config).tasks == old(config).tasks,
            final(config).n_agents == old(config).n_agents,
            final(config).pivots == old(config).pivots,
            final(config).precision == old(config).precision,
            final(self).trusted@ ==> bounds_fit(
                final(self).transition_system,
                final(self).tasks@,
                final(config).pivots@,
                final(config).heuristic_to_pivots@,
            ),
            final(self).transition_system == old(self).transition_system,
            final(self).tasks == old(self).tasks,
            final(self).trusted == old(self).trusted,
            final(self).floor == old(self).floor,
            final(self).nodes == old(self).nodes,
            final(self).open == old(self).open,
            match r {
                Some(plan) => lsipp_solves(
                    final(self).transition_system,
                    set,
                    final(self).tasks@[agent as int],
                    Seq::<Constraint>::empty(),
                    plan,
                ) && (final(self).trusted@ ==> cheapest(
                    final(self).transition_system,
                    set,
                    final(self).tasks@[agent as int],
                    plan,
                )),
                None => final(self).trusted@ ==> stranded(
                    final(self).transition_system,
                    set,
                    final(self).tasks@[agent as int],
                ),
            },
    {
        let ghost h0 = config.heuristic_to_pivots@;
        let ghost ts = self.transition_system;
        let mut heuristics: Vec<H> = Vec::new();
        core::mem::swap(&mut config.heuristic_to_pivots, &mut heuristics);
        let mut lsipp_config = LSippConfig::new_with_pivots(
            config.tasks[agent],
            set,
            Vec::new(),
            config.pivots.clone(),
            heuristics,
            config.precision,
        );
        proof {
            assert forall|i: int| 0 <= i < lsipp_config.heuristics().len() implies (
            #[trigger] lsipp_config.heuristics()[i]).wf() by {
                assert(old(config).heuristic_to_pivots@[i].wf());
            }
        }
        let r = self.lsipp.solve(&mut lsipp_config);
        let ghost given = lsipp_config.heuristics();
        let mut heuristics = lsipp_config.into_heuristics();
        proof {
            assert forall|i: int| 0 <= i < heuristics@.len() implies (#[trigger] heuristics@[i]).wf() by {
                assert(given[i].wf());
            }
            if self.trusted@ {
                let task = self.tasks@[agent as int];
                lemma_bounds_follow(ts, self.tasks@, config.pivots@, h0, given);
                assert(walk_admissible(
                    ts,
                    task.goal_state,
                    differential_bounds(task.goal_state, config.pivots@, h0),
                ));
                lemma_walk_admissible(
                    ts,
                    set,
                    task,
                    Interval::whole(),
                    differential_bounds(task.goal_state, config.pivots@, h0),
                );
            }
        }
        core::mem::swap(&mut config.heuristic_to_pivots, &mut heuristics);
        r
    }

    /// The constraints on `agent` at a node that is to be made under
    /// `parent` with the constraint `delta`.
    fn constraints_under(&self, parent: Option<usize>, delta: Option<Constraint>, agent: usize) -> (set:
        ConstraintSet)
        requires
            self.inv(),
            match parent {
                Some(p) => p < self.nodes@.len(),
                None => true,
            },
            match delta {
                Some(c) => c.wf(),
                None => true,
            },
        ensures
            set.wf(),
            covers_set(&set, under(self.nodes@, parent, delta), agent),
    {
        let mut set = match parent {
            Some(p) => {
                let (set, _) = self.get_constraints(p, agent);
                proof {
                    lemma_represents_covers(&set, self.nodes@, p, agent);
                }
                set
            },
            None => {
                let set = ConstraintSet::new();
                proof {
                    assert(covers_set(&set, under(self.nodes@, None, None), agent)) by {
                        assert forall|s: State, t: int| !#[trigger] blocked(set.state_bucket(s), t) by {
                            assert(set.state_bucket(s).len() == 0);
                        }
                        assert forall|f: State, g: State, t: int| !#[trigger] blocked(
                            set.action_bucket(f, g),
                            t,
                        ) by {
                            assert(set.action_bucket(f, g).len() == 0);
                        }
                    }
                }
                set
            },
        };
        let ghost above = under(self.nodes@, parent, None);
        match delta {
            Some(c) => {
                if c.agent == agent {
                    let ghost before = set;
                    set.add(c);
                    proof {
                        lemma_covers_added(&before, &set, above, c, agent);
                    }
                } else {
                    proof {
                        lemma_covers_other(&set, above, c, agent);
                    }
                }
                proof {
                    assert(above.insert(c) =~= under(self.nodes@, parent, delta));
                }
            },
            None => {},
        }
        set
    }

    /// Whether the agent of `mine` loses time, or has no path left, when it
    /// may not make this move into the conflict with `other`: plans the
    /// agent anew under the constraint that keeps it out of the conflict and
    /// holds the time at which the new path ends against the time at which
    /// its plan ends now. An agent that is none of the agents, or has no
    /// plan, loses no time. Where the answer is no, the agent has a path
    /// that ends no later than its plan; where it is yes and the bounds of
    /// the heuristics fit, it has none.
    fn probe<H: Heuristic>(
        &mut self,
        config: &mut CbsConfig<H>,
        parent: Option<usize>,
        delta: Option<Constraint>,
        plans: &Vec<Solution<SippState>>,
        mine: &Move,
        other: &Move,
    ) -> (r: bool)
        requires
            old(self).inv(),
            old(config).wf(),
            old(config).tasks@ == old(self).tasks@,
            old(self).trusted@ ==> bounds_fit(
                old(self).transition_system,
                old(self).tasks@,
                old(config).pivots@,
                old(config).heuristic_to_pivots@,
            ),
            match parent {
                Some(p) => p < old(self).nodes@.len(),
                None => true,
            },
            match delta {
                Some(c) => c.wf(),
                None => true,
            },
            old(self).trusted@ ==> forall|a: usize|
                a < old(self).tasks@.len() && a < plans@.len() ==> #[trigger] prospect_best(
                    old(self).transition_system,
                    old(self).tasks@,
                    under(old(self).nodes@, parent, delta),
                    a,
                    plans@[a as int],
                ),
        ensures
            final(self).inv(),
            final(config).wf(),
            final(config).tasks == old(config).tasks,
            final(config).n_agents == old(config).n_agents,
            final(config).pivots == old(config).pivots,
            final(config).precision == old(config).precision,
            final(self).trusted@ ==> bounds_fit(
                final(self).transition_system,
                final(self).tasks@,
                final(config).pivots@,
                final(config).heuristic_to_pivots@,
            ),
            final(self).transition_system == old(self).transition_system,
            final(self).tasks == old(self).tasks,
            final(self).trusted == old(self).trusted,
            final(self).floor == old(self).floor,
            final(self).nodes == old(self).nodes,
            final(self).open == old(self).open,
            r ==> mine.agent < old(self).tasks@.len() && mine.agent < plans@.len()
                && plans@[mine.agent as int].costs@.len() > 0,
            r && final(self).trusted@ ==> loses_time(
                old(self).transition_system,
                old(self).tasks@,
                under(old(self).nodes@, parent, delta),
                *mine,
                *other,
                old(config).precision,
                plans@[mine.agent as int].costs@.last(),
            ),
            !r && mine.agent < old(self).tasks@.len() && mine.agent < plans@.len()
                && plans@[mine.agent as int].costs@.len() > 0 ==> gives_way_in_time(
                old(self).transition_system,
                old(self).tasks@,
                under(old(self).nodes@, parent, delta),
                *mine,
                *other,
                old(config).precision,
                plans@[mine.agent as int].costs@.last(),
            ),
    {
        let agent: usize = mine.agent;
        if agent >= self.tasks.len() || agent >= plans.len() || plans[agent].costs.len() == 0 {
            return false;
        }
        let ghost ts = self.transition_system;
        let ghost tasks = self.tasks@;
        let ghost visited = under(self.nodes@, parent, delta);
        let mut set = self.constraints_under(parent, delta, agent);
        let ghost above = set;
        let c = resolving_constraint(mine, other, config.precision);
        set.add(c);
        proof {
            lemma_covers_added(&above, &set, visited, c, agent);
        }
        let now: Time = plans[agent].costs[plans[agent].costs.len() - 1];
        match self.plan_agent(config, &set, agent) {
            Some(plan) => {
                let late: bool = plan.costs.len() > 0 && plan.costs[plan.costs.len() - 1] > now;
                proof {
                    if late && self.trusted@ {
                        lemma_cheapest_late(ts, &set, tasks[agent as int], plan, now);
                        assert(covers_set(&set, visited.insert(resolving(*mine, *other, config.precision)), agent)
                            && set.wf() && ends_after(ts, &set, tasks[agent as int], now));
                    }
                    if !late {
                        assert(lsipp_solves(ts, &set, tasks[agent as int], Seq::<Constraint>::empty(), plan)
                            && covers_set(
                            &set,
                            visited.insert(resolving(*mine, *other, config.precision)),
                            agent,
                        ) && set.wf() && plan.costs@.last() <= now);
                    }
                }
                late
            },
            None => {
                proof {
                    if self.trusted@ {
                        assert(prospect_best(ts, tasks, visited, agent, plans@[agent as int]));
                        let fewer = choose|fewer: ConstraintSet| #[trigger]
                            covers_set(&fewer, visited, agent) && fewer.wf() && cheapest(
                                ts,
                                &fewer,
                                tasks[agent as int],
                                plans@[agent as int],
                            );
                        lemma_covers_less(&fewer, &set, visited, visited.insert(c), agent);
                        lemma_stranded_late(ts, &fewer, &set, tasks[agent as int], plans@[agent as int]);
                        assert(covers_set(&set, visited.insert(resolving(*mine, *other, config.precision)), agent)
                            && set.wf() && ends_after(ts, &set, tasks[agent as int], now));
                    }
                }
                true
            },
        }
    }

    /// Gives each conflict its kind: cardinal where either agent loses time
    /// when it gives way, semi-cardinal where one of them does, and
    /// non-cardinal where neither does.
    fn classify<H: Heuristic>(
        &mut self,
        config: &mut CbsConfig<H>,
        parent: Option<usize>,
        delta: Option<Constraint>,
        plans: &Vec<Solution<SippState>>,
        conflicts: &mut Vec<Conflict>,
    )
        requires
            old(self).inv(),
            old(config).wf(),
            old(config).tasks@ == old(self).tasks@,
            old(self).trusted@ ==> bounds_fit(
                old(self).transition_system,
                old(self).tasks@,
                old(config).pivots@,
                old(config).heuristic_to_pivots@,
            ),
            match parent {
                Some(p) => p < old(self).nodes@.len(),
                None => true,
            },
            match delta {
                Some(c) => c.wf(),
                None => true,
            },
            old(self).trusted@ ==> forall|a: usize|
                a < old(self).tasks@.len() && a < plans@.len() ==> #[trigger] prospect_best(
                    old(self).transition_system,
                    old(self).tasks@,
                    under(old(self).nodes@, parent, delta),
                    a,
                    plans@[a as int],
                ),
        ensures
            final(self).inv(),
            final(config).wf(),
            final(config).tasks == old(config).tasks,
            final(config).n_agents == old(config).n_agents,
            final(config).pivots == old(config).pivots,
            final(config).precision == old(config).precision,
            final(self).trusted@ ==> bounds_fit(
                final(self).transition_system,
                final(self).tasks@,
                final(config).pivots@,
                final(config).heuristic_to_pivots@,
            ),
            final(self).transition_system == old(self).transition_system,
            final(self).tasks == old(self).tasks,
            final(self).trusted == old(self).trusted,
            final(self).floor == old(self).floor,
            final(self).nodes == old(self).nodes,
            final(self).open == old(self).open,
            same_moves(old(conflicts)@, final(conflicts)@),
            forall|q: int|
                0 <= q < final(conflicts)@.len() ==> (#[trigger] final(conflicts)@[q]).type_
                    != ConflictType::Frozen,
            final(self).trusted@ ==> forall|q: int|
                0 <= q < final(conflicts)@.len() ==> kind_ok(
                    old(self).transition_system,
                    old(self).tasks@,
                    under(old(self).nodes@, parent, delta),
                    #[trigger] final(conflicts)@[q],
                    plans@[final(conflicts)@[q].first().agent as int].costs@.last(),
                    plans@[final(conflicts)@[q].second().agent as int].costs@.last(),
                ),
    {
        let ghost ts = self.transition_system;
        let ghost tasks = self.tasks@;
        let ghost visited = under(self.nodes@, parent, delta);
        let mut q: usize = 0;
        while q < conflicts.len()
            invariant
                q <= conflicts.len(),
                ts == self.transition_system,
                tasks == self.tasks@,
                visited == under(self.nodes@, parent, delta),
                self.trusted@ ==> forall|a: usize|
                    a < tasks.len() && a < plans@.len() ==> #[trigger] prospect_best(
                        ts,
                        tasks,
                        visited,
                        a,
                        plans@[a as int],
                    ),
                self.trusted@ ==> forall|p: int|
                    0 <= p < q ==> kind_ok(
                        ts,
                        tasks,
                        visited,
                        #[trigger] conflicts@[p],
                        plans@[conflicts@[p].first().agent as int].costs@.last(),
                        plans@[conflicts@[p].second().agent as int].costs@.last(),
                    ),
                self.inv(),
                config.wf(),
                config.tasks@ == self.tasks@,
                match parent {
                    Some(p) => p < self.nodes@.len(),
                    None => true,
                },
                match delta {
                    Some(c) => c.wf(),
                    None => true,
                },
                config.tasks == old(config).tasks,
                config.n_agents == old(config).n_agents,
                config.pivots == old(config).pivots,
                config.precision == old(config).precision,
                self.trusted@ ==> bounds_fit(
                    self.transition_system,
                    self.tasks@,
                    config.pivots@,
                    config.heuristic_to_pivots@,
                ),
                self.transition_system == old(self).transition_system,
                self.tasks == old(self).tasks,
                self.trusted == old(self).trusted,
                self.floor == old(self).floor,
                self.nodes == old(self).nodes,
                self.open == old(self).open,
                same_moves(old(conflicts)@, conflicts@),
                forall|p: int|
                    0 <= p < q ==> (#[trigger] conflicts@[p]).type_ != ConflictType::Frozen,
            decreases conflicts.len() - q,
        {
            let first: Move = conflicts[q].first_move();
            let second: Move = conflicts[q].second_move();
            let one: bool = self.probe(config, parent, delta, plans, &first, &second);
            let other: bool = self.probe(config, parent, delta, plans, &second, &first);
            let kind = if one && other {
                ConflictType::Cardinal
            } else if one || other {
                ConflictType::SemiCardinal
            } else {
                ConflictType::NonCardinal
            };
            let ghost before = conflicts@;
            conflicts.set(q, Conflict::between(first, second, kind));
            proof {
                if self.trusted@ {
                    assert forall|p: int| 0 <= p < q + 1 implies kind_ok(
                        ts,
                        tasks,
                        visited,
                        #[trigger] conflicts@[p],
                        plans@[conflicts@[p].first().agent as int].costs@.last(),
                        plans@[conflicts@[p].second().agent as int].costs@.last(),
                    ) by {
                        if p < q {
                            assert(conflicts@[p] == before[p]);
                        }
                    }
                }
            }
            q += 1;
        }
    }

    /// The sum of the times at which the plans end.
    fn total_cost(plans: &Vec<Solution<SippState>>) -> (total: u128)
        requires
            forall|a: int| 0 <= a < plans@.len() ==> (#[trigger] plans@[a]).costs@.len() > 0,
        ensures
            total == plans_cost(plans@, plans@.len()),
    {
        let mut total: u128 = 0;
        let mut a: usize = 0;
        while a < plans.len()
            invariant
                a <= plans.len(),
                forall|b: int| 0 <= b < plans@.len() ==> (#[trigger] plans@[b]).costs@.len() > 0,
                total == plans_cost(plans@, a as nat),
                total <= a * 0xFFFF_FFFF_FFFF_FFFF,
            decreases plans.len() - a,
        {
            let last: Time = plans[a].costs[plans[a].costs.len() - 1];
            proof {
                assert(a * 0xFFFF_FFFF_FFFF_FFFF + 0xFFFF_FFFF_FFFF_FFFF <= 0xFFFF_FFFF_FFFF_FFFF
                    * 0x1_0000_0000_0000_0000) by (nonlinear_arith)
                    requires
                        a < 0x1_0000_0000_0000_0000,
                ;
                assert((a + 1) * 0xFFFF_FFFF_FFFF_FFFF == a * 0xFFFF_FFFF_FFFF_FFFF
                    + 0xFFFF_FFFF_FFFF_FFFF) by (nonlinear_arith);
            }
            total = total + last as u128;
            a += 1;
        }
        total
    }

    /// Makes the node under `parent` that adds the constraint `delta`, or
    /// the root where there is no parent: plans the agent that the
    /// constraint is on, or every agent at the root, finds the conflicts
    /// between the plans of all agents and puts the node into the tree.
    /// There is no such node where an agent is left without a path.
    fn make_node<H: Heuristic>(
        &mut self,
        config: &mut CbsConfig<H>,
        parent: Option<usize>,
        delta: Option<Constraint>,
    ) -> (r: Option<usize>)
        requires
            old(self).inv(),
            old(config).wf(),
            old(config).tasks@ == old(self).tasks@,
            old(self).trusted@ ==> bounds_fit(
                old(self).transition_system,
                old(self).tasks@,
                old(config).pivots@,
                old(config).heuristic_to_pivots@,
            ),
            match parent {
                Some(p) => p < old(self).nodes@.len() && delta.is_some() && delta.unwrap().wf()
                    && delta.unwrap().agent < old(self).tasks@.len(),
                None => delta.is_none(),
            },
        ensures
            final(self).inv(),
            final(config).wf(),
            final(config).tasks == old(config).tasks,
            final(config).n_agents == old(config).n_agents,
            final(config).pivots == old(config).pivots,
            final(config).precision == old(config).precision,
            final(self).trusted@ ==> bounds_fit(
                final(self).transition_system,
                final(self).tasks@,
                final(config).pivots@,
                final(config).heuristic_to_pivots@,
            ),
            final(self).transition_system == old(self).transition_system,
            final(self).tasks == old(self).tasks,
            final(self).trusted == old(self).trusted,
            final(self).floor == old(self).floor,
            final(self).open == old(self).open,
            match r {
                Some(id) => {
                    &&& id == old(self).nodes@.len()
                    &&& final(self).nodes@.len() == id + 1
                    &&& final(self).nodes@[id as int].parent == parent
                    &&& final(self).nodes@[id as int].constraint == delta
                },
                None => final(self).nodes@.len() == old(self).nodes@.len() && (final(self).trusted@
                    ==> exists|agent: usize|
                    agent < old(self).tasks@.len() && (delta.is_some() ==> agent == delta.unwrap().agent)
                        && #[trigger] left_stranded(
                        old(self).transition_system,
                        old(self).tasks@,
                        under(old(self).nodes@, parent, delta),
                        agent,
                    )),
            },
            forall|i: int|
                0 <= i < old(self).nodes@.len() ==> (#[trigger] final(self).nodes@[i]) == old(self).nodes@[i],
    {
        let n: usize = self.tasks.len();
        let ghost ts = self.transition_system;
        let ghost tasks = self.tasks@;
        let ghost nodes0 = self.nodes@;
        let ghost visited = under(nodes0, parent, delta);
        let mut plans: Vec<Solution<SippState>> = Vec::new();
        let mut own: Vec<Option<Solution<SippState>>> = Vec::new();
        let changed: Option<usize> = match delta {
            Some(c) => Some(c.agent),
            None => None,
        };
        let mut agent: usize = 0;
        while agent < n
            invariant
                agent <= n,
                n == self.tasks@.len(),
                ts == self.transition_system,
                tasks == self.tasks@,
                nodes0 == self.nodes@,
                visited == under(nodes0, parent, delta),
                self.inv(),
                config.wf(),
                config.tasks@ == self.tasks@,
                match parent {
                    Some(p) => p < self.nodes@.len() && delta.is_some() && delta.unwrap().wf()
                        && delta.unwrap().agent < self.tasks@.len(),
                    None => delta.is_none(),
                },
                changed == (match delta {
                    Some(c) => Some(c.agent),
                    None => None,
                }),
                config.tasks == old(config).tasks,
                config.n_agents == old(config).n_agents,
                config.pivots == old(config).pivots,
                config.precision == old(config).precision,
                self.trusted@ ==> bounds_fit(
                    self.transition_system,
                    self.tasks@,
                    config.pivots@,
                    config.heuristic_to_pivots@,
                ),
                self.transition_system == old(self).transition_system,
                self.tasks == old(self).tasks,
                self.trusted == old(self).trusted,
                self.floor == old(self).floor,
                self.nodes == old(self).nodes,
                self.open == old(self).open,
                plans@.len() == agent,
                own@.len() == agent,
                forall|a: usize| a < agent ==> #[trigger] prospect_ok(ts, tasks, visited, a, plans@[a as int]),
                self.trusted@ ==> forall|a: usize|
                    a < agent ==> #[trigger] prospect_best(ts, tasks, visited, a, plans@[a as int]),
                self.trusted@ && parent.is_some() ==> forall|a: usize|
                    a < agent ==> (#[trigger] plan_of(nodes0, parent.unwrap(), a)).is_some() && plan_of(
                        nodes0,
                        parent.unwrap(),
                        a,
                    ).unwrap().costs@.last() <= plans@[a as int].costs@.last(),
                forall|a: int|
                    0 <= a < agent ==> match #[trigger] own@[a] {
                        Some(plan) => plan.states@ == plans@[a].states@ && plan.costs@ == plans@[a].costs@
                            && plan.actions@ == plans@[a].actions@,
                        None => parent.is_some() && plan_of(nodes0, parent.unwrap(), a as usize).is_some()
                            && plan_of(nodes0, parent.unwrap(), a as usize).unwrap().states@
                            == plans@[a].states@ && plan_of(
                            nodes0,
                            parent.unwrap(),
                            a as usize,
                        ).unwrap().costs@ == plans@[a].costs@ && plan_of(
                            nodes0,
                            parent.unwrap(),
                            a as usize,
                        ).unwrap().actions@ == plans@[a].actions@,
                    },
            decreases n - agent,
        {
            let anew: bool = match changed {
                Some(a) => a == agent,
                None => true,
            };
            if anew {
                let set = self.constraints_under(parent, delta, agent);
                match self.plan_agent(config, &set, agent) {
                    Some(plan) => {
                        own.push(Some(copy_plan(&plan)));
                        proof {
                            assert(covers_set(&set, visited, agent) && set.wf() && lsipp_solves(
                                ts,
                                &set,
                                tasks[agent as int],
                                Seq::<Constraint>::empty(),
                                plan,
                            ));
                            if self.trusted@ {
                                assert(covers_set(&set, visited, agent) && set.wf() && cheapest(
                                    ts,
                                    &set,
                                    tasks[agent as int],
                                    plan,
                                ));
                                if parent.is_some() {
                                    let p = parent.unwrap();
                                    assert(node_ok(ts, tasks, nodes0, p));
                                    assert(plan_ok(ts, tasks, nodes0, p, agent));
                                    assert(node_best(ts, tasks, nodes0, p));
                                    assert(plan_best(ts, tasks, nodes0, p, agent));
                                    let above = choose|above: ConstraintSet| #[trigger]
                                        represents(&above, nodes0, p, agent) && above.wf() && cheapest(
                                            ts,
                                            &above,
                                            tasks[agent as int],
                                            plan_of(nodes0, p, agent).unwrap(),
                                        );
                                    lemma_represents_covers(&above, nodes0, p, agent);
                                    lemma_covers_less(
                                        &above,
                                        &set,
                                        under(nodes0, Some(p), None),
                                        visited,
                                        agent,
                                    );
                                    lemma_cheaper(
                                        ts,
                                        &above,
                                        &set,
                                        tasks[agent as int],
                                        plan_of(nodes0, p, agent).unwrap(),
                                        plan,
                                    );
                                }
                            }
                        }
                        plans.push(plan);
                    },
                    None => {
                        proof {
                            if self.trusted@ {
                                assert(covers_set(&set, visited, agent) && set.wf() && stranded(
                                    ts,
                                    &set,
                                    tasks[agent as int],
                                ));
                                assert(left_stranded(ts, tasks, visited, agent));
                            }
                        }
                        return None;
                    },
                }
            } else {
                let above: usize = match parent {
                    Some(p) => p,
                    None => 0,
                };
                let plan = self.get_plan(above, agent);
                proof {
                    let c = delta.unwrap();
                    assert(node_ok(ts, tasks, nodes0, above));
                    assert(plan_ok(ts, tasks, nodes0, above, agent));
                    let set = choose|set: ConstraintSet| #[trigger]
                        represents(&set, nodes0, above, agent) && set.wf() && lsipp_solves(
                            ts,
                            &set,
                            tasks[agent as int],
                            Seq::<Constraint>::empty(),
                            plan_of(nodes0, above, agent).unwrap(),
                        );
                    lemma_represents_covers(&set, nodes0, above, agent);
                    lemma_covers_other(&set, under(nodes0, Some(above), None), c, agent);
                    assert(under(nodes0, Some(above), None).insert(c) =~= visited);
                    assert(covers_set(&set, visited, agent) && set.wf() && lsipp_solves(
                        ts,
                        &set,
                        tasks[agent as int],
                        Seq::<Constraint>::empty(),
                        plan,
                    ));
                    if self.trusted@ {
                        assert(node_best(ts, tasks, nodes0, above));
                        assert(plan_best(ts, tasks, nodes0, above, agent));
                        let best = choose|best: ConstraintSet| #[trigger]
                            represents(&best, nodes0, above, agent) && best.wf() && cheapest(
                                ts,
                                &best,
                                tasks[agent as int],
                                plan_of(nodes0, above, agent).unwrap(),
                            );
                        lemma_represents_covers(&best, nodes0, above, agent);
                        lemma_covers_other(&best, under(nodes0, Some(above), None), c, agent);
                        assert(covers_set(&best, visited, agent) && best.wf() && cheapest(
                            ts,
                            &best,
                            tasks[agent as int],
                            plan,
                        ));
                    }
                }
                own.push(None);
                plans.push(plan);
            }
            agent += 1;
        }
        let mut moves: Vec<Vec<Move>> = Vec::new();
        let mut a: usize = 0;
        while a < n
            invariant
                a <= n,
                n == plans@.len(),
                n == tasks.len(),
                ts == self.transition_system,
                ts.wf(),
                moves@.len() == a,
                forall|b: usize| b < n ==> #[trigger] prospect_ok(ts, tasks, visited, b, plans@[b as int]),
                forall|b: int| 0 <= b < a ==> (#[trigger] moves@[b])@ == plan_moves(ts, b as usize, plans@[b]),
            decreases n - a,
        {
            proof {
                assert(prospect_ok(ts, tasks, visited, a, plans@[a as int]));
                let set = choose|set: ConstraintSet| #[trigger]
                    covers_set(&set, visited, a) && set.wf() && lsipp_solves(
                        ts,
                        &set,
                        tasks[a as int],
                        Seq::<Constraint>::empty(),
                        plans@[a as int],
                    );
                lemma_valid_plan_connected(
                    ts,
                    &set,
                    plans@[a as int].states@,
                    plans@[a as int].costs@,
                    plans@[a as int].actions@,
                );
            }
            let list = get_moves(self.transition_system, a, &plans[a]);
            moves.push(list);
            a += 1;
        }
        let mut found = detect_all(&moves);
        let ghost detected = found@;
        self.classify(config, parent, delta, &plans, &mut found);
        let conflicts = sort_conflicts(&found);
        proof {
            assert forall|b: int| 0 <= b < plans@.len() implies (#[trigger] plans@[b]).costs@.len() > 0 by {
                assert(prospect_ok(ts, tasks, visited, b as usize, plans@[b]));
            }
        }
        let total_cost: u128 = Self::total_cost(&plans);
        let id: usize = self.nodes.len();
        let node = CbsNode { constraint: delta, parent, solutions: own, conflicts, total_cost };
        self.nodes.push(node);
        proof {
            let nodes1 = self.nodes@;
            assert forall|i: usize| i < id implies #[trigger] node_ok(ts, tasks, nodes1, i) by {
                assert(node_ok(ts, tasks, nodes0, i));
                assert forall|x: int| 0 <= x <= i implies (#[trigger] nodes0[x]).parent == nodes1[x].parent
                    && nodes0[x].constraint == nodes1[x].constraint && nodes0[x].solutions
                    == nodes1[x].solutions by {}
                lemma_node_ok_stable(ts, tasks, nodes0, nodes1, i);
            }
            // The constraints of the new node are those it was planned under.
            assert forall|c: Constraint| visited.contains(c) <==> chain_has(nodes1, id, c) by {
                match parent {
                    Some(p) => {
                        assert forall|x: int| 0 <= x <= p implies (#[trigger] nodes0[x]).parent
                            == nodes1[x].parent && nodes0[x].constraint == nodes1[x].constraint
                            && nodes0[x].solutions == nodes1[x].solutions by {}
                        lemma_same_tree(nodes0, nodes1, p);
                        assert(chain_has(nodes1, id, c) == (delta == Some(c) || chain_has(nodes1, p, c)));
                        assert(chain_has(nodes0, p, c) == chain_has(nodes1, p, c));
                    },
                    None => {
                        assert(chain_has(nodes1, id, c) == (delta == Some(c)));
                    },
                }
            }
            // The plans of the new node are the plans that were put together.
            assert forall|b: usize| b < n implies (#[trigger] plan_of(nodes1, id, b)).is_some()
                && plan_of(nodes1, id, b).unwrap().states@ == plans@[b as int].states@ && plan_of(
                nodes1,
                id,
                b,
            ).unwrap().costs@ == plans@[b as int].costs@ && plan_of(nodes1, id, b).unwrap().actions@
                == plans@[b as int].actions@ by {
                match own@[b as int] {
                    Some(plan) => {
                        assert(plan_of(nodes1, id, b) == Some(plan));
                    },
                    None => {
                        let p = parent.unwrap();
                        assert forall|x: int| 0 <= x <= p implies (#[trigger] nodes0[x]).parent
                            == nodes1[x].parent && nodes0[x].constraint == nodes1[x].constraint
                            && nodes0[x].solutions == nodes1[x].solutions by {}
                        lemma_same_tree(nodes0, nodes1, p);
                        assert(plan_of(nodes1, id, b) == plan_of(nodes1, p, b));
                        assert(plan_of(nodes0, p, b) == plan_of(nodes1, p, b));
                    },
                }
            }
            assert forall|b: usize| b < tasks.len() implies #[trigger] plan_ok(ts, tasks, nodes1, id, b) by {
                assert(prospect_ok(ts, tasks, visited, b, plans@[b as int]));
                let set = choose|set: ConstraintSet| #[trigger]
                    covers_set(&set, visited, b) && set.wf() && lsipp_solves(
                        ts,
                        &set,
                        tasks[b as int],
                        Seq::<Constraint>::empty(),
                        plans@[b as int],
                    );
                lemma_covers_represents(&set, visited, nodes1, id, b);
                assert(plan_of(nodes1, id, b).is_some());
                assert(lsipp_solves(
                    ts,
                    &set,
                    tasks[b as int],
                    Seq::<Constraint>::empty(),
                    plan_of(nodes1, id, b).unwrap(),
                ));
            }
            let all = all_moves(ts, nodes1, id, tasks.len());
            assert(all =~= deep(moves@)) by {
                assert forall|b: int| 0 <= b < n implies all[b] == deep(moves@)[b] by {
                    let plan = plan_of(nodes1, id, b as usize).unwrap();
                    assert(plan_of(nodes1, id, b as usize).is_some());
                    assert(plan_moves(ts, b as usize, plan) =~= plan_moves(ts, b as usize, plans@[b]));
                }
            }
            lemma_match_same_moves(detected, found@, all);
            lemma_match_same_members(found@, conflicts@, all);
            lemma_cost_sum_plans(nodes1, id, plans@, n as nat);
            if self.trusted@ {
                assert forall|i: usize| i < id implies #[trigger] node_best(ts, tasks, nodes1, i) by {
                    assert(node_best(ts, tasks, nodes0, i));
                    assert forall|x: int| 0 <= x <= i implies (#[trigger] nodes0[x]).parent
                        == nodes1[x].parent && nodes0[x].constraint == nodes1[x].constraint
                        && nodes0[x].solutions == nodes1[x].solutions by {}
                    lemma_node_best_stable(ts, tasks, nodes0, nodes1, i);
                }
                assert forall|b: usize| b < tasks.len() implies #[trigger] plan_best(
                    ts,
                    tasks,
                    nodes1,
                    id,
                    b,
                ) by {
                    assert(prospect_best(ts, tasks, visited, b, plans@[b as int]));
                    let set = choose|set: ConstraintSet| #[trigger]
                        covers_set(&set, visited, b) && set.wf() && cheapest(
                            ts,
                            &set,
                            tasks[b as int],
                            plans@[b as int],
                        );
                    lemma_covers_represents(&set, visited, nodes1, id, b);
                    assert(plan_of(nodes1, id, b).is_some());
                    assert(cheapest(ts, &set, tasks[b as int], plan_of(nodes1, id, b).unwrap()));
                }
                match parent {
                    Some(p) => {
                        assert(node_ok(ts, tasks, nodes0, p));
                        lemma_cost_sum_le(nodes0, p, plans@, n as nat);
                        assert(nodes1[p as int] == nodes0[p as int]);
                    },
                    None => {},
                }
                assert(node_best(ts, tasks, nodes1, id));
                assert forall|i: usize| i < id implies #[trigger] kinds_ok(ts, tasks, nodes1, i) by {
                    assert(kinds_ok(ts, tasks, nodes0, i));
                    assert forall|x: int| 0 <= x <= i implies (#[trigger] nodes0[x]) == nodes1[x] by {}
                    lemma_kinds_ok_stable(ts, tasks, nodes0, nodes1, i);
                }
                assert(kinds_ok(ts, tasks, nodes1, id)) by {
                    assert(visited =~= under(nodes1, Some(id), None));
                    assert forall|q: int| 0 <= q < conflicts@.len() implies kind_ok(
                        ts,
                        tasks,
                        under(nodes1, Some(id), None),
                        #[trigger] conflicts@[q],
                        plan_end(nodes1, id, conflicts@[q].first().agent),
                        plan_end(nodes1, id, conflicts@[q].second().agent),
                    ) by {
                        let conflict = conflicts@[q];
                        assert(found@.contains(conflict));
                        let p = choose|p: int| 0 <= p < found@.len() && found@[p] == conflict;
                        assert(kind_ok(
                            ts,
                            tasks,
                            visited,
                            found@[p],
                            plans@[found@[p].first().agent as int].costs@.last(),
                            plans@[found@[p].second().agent as int].costs@.last(),
                        ));
                        assert(reports_any(conflict, all));
                        let (i, j) = choose|i: int, j: int|
                            0 <= i < j < all.len() && #[trigger] reports(conflict, all[i], all[j]);
                        let (k, l) = choose|k: int, l: int|
                            0 <= k < all[i].len() && 0 <= l < all[j].len() && #[trigger] collides(
                                all[i],
                                k,
                                all[j],
                                l,
                            ) && conflict.first() == all[i][k] && conflict.second() == all[j][l];
                        assert(all[i][k] == plan_move(ts, i as usize, plan_of(nodes1, id, i as usize).unwrap(), k));
                        assert(all[j][l] == plan_move(ts, j as usize, plan_of(nodes1, id, j as usize).unwrap(), l));
                        assert(plan_of(nodes1, id, i as usize).unwrap().costs@ == plans@[i].costs@);
                        assert(plan_of(nodes1, id, j as usize).unwrap().costs@ == plans@[j].costs@);
                    }
                }
                assert forall|q: int| 0 <= q < self.open@.len() implies self.nodes@[(
                #[trigger] self.open@[q]) as int].total_cost >= self.floor@ by {
                    assert(nodes1[self.open@[q] as int] == nodes0[self.open@[q] as int]);
                }
            }
        }
        Some(id)
    }

    /// Takes out of the queue a node that no other waiting node comes
    /// before.
    fn pop_best(&mut self) -> (r: Option<usize>)
        requires
            old(self).inv(),
        ensures
            final(self).inv(),
            final(self).transition_system == old(self).transition_system,
            final(self).tasks == old(self).tasks,
            final(self).trusted == old(self).trusted,
            final(self).floor == old(self).floor,
            final(self).nodes == old(self).nodes,
            match r {
                Some(id) => {
                    &&& id < final(self).nodes@.len()
                    &&& old(self).open@.contains(id)
                    &&& final(self).open@.len() + 1 == old(self).open@.len()
                    &&& forall|q: int|
                        0 <= q < old(self).open@.len() ==> !node_before(
                            final(self).nodes@[(#[trigger] old(self).open@[q]) as int],
                            final(self).nodes@[id as int],
                        )
                    &&& forall|q: int|
                        0 <= q < final(self).open@.len() ==> old(self).open@.contains(
                            #[trigger] final(self).open@[q],
                        )
                    &&& forall|x: usize|
                        #[trigger] final(self).open@.contains(x) <==> old(self).open@.contains(x) && x != id
                },
                None => old(self).open@.len() == 0 && final(self).open@.len() == 0,
            },
    {
        if self.open.len() == 0 {
            return None;
        }
        let mut best: usize = 0;
        let mut q: usize = 1;
        while q < self.open.len()
            invariant
                1 <= q <= self.open.len(),
                best < q,
                self.inv(),
                self.open == old(self).open,
                self.nodes == old(self).nodes,
                self.tasks == old(self).tasks,
                self.trusted == old(self).trusted,
                self.floor == old(self).floor,
                self.transition_system == old(self).transition_system,
                forall|p: int|
                    0 <= p < q ==> !node_before(
                        self.nodes@[(#[trigger] self.open@[p]) as int],
                        self.nodes@[self.open@[best as int] as int],
                    ),
            decreases self.open.len() - q,
        {
            let candidate = &self.nodes[self.open[q]];
            let leader = &self.nodes[self.open[best]];
            let better: bool = candidate.total_cost < leader.total_cost || (candidate.total_cost
                == leader.total_cost && (candidate.conflicts.len() < leader.conflicts.len() || (
            candidate.conflicts.len() == leader.conflicts.len() && candidate.conflicts.len() > 0
                && candidate.conflicts[0].type_.rank_of() > leader.conflicts[0].type_.rank_of())));
            if better {
                best = q;
            }
            q += 1;
        }
        let id: usize = self.open.remove(best);
        proof {
            assert(old(self).open@[best as int] == id);
            assert forall|p: int| 0 <= p < self.open@.len() implies (#[trigger] self.open@[p])
                < self.nodes@.len() && old(self).open@.contains(self.open@[p]) && (self.trusted@
                ==> self.nodes@[self.open@[p] as int].total_cost >= self.floor@) by {
                if p < best {
                    assert(self.open@[p] == old(self).open@[p]);
                } else {
                    assert(self.open@[p] == old(self).open@[p + 1]);
                }
            }
            assert(self.open@ == old(self).open@.remove(best as int));
            assert forall|x: usize| #[trigger] self.open@.contains(x) <==> old(self).open@.contains(x) && x
                != id by {
                if self.open@.contains(x) {
                    let p = choose|p: int| 0 <= p < self.open@.len() && self.open@[p] == x;
                    if p < best {
                        assert(old(self).open@[p] == x);
                    } else {
                        assert(old(self).open@[p + 1] == x);
                    }
                }
                if old(self).open@.contains(x) && x != id {
                    let p = choose|p: int| 0 <= p < old(self).open@.len() && old(self).open@[p] == x;
                    if p < best {
                        assert(self.open@[p] == x);
                    } else {
                        assert(self.open@[p - 1] == x);
                    }
                }
            }
            assert forall|a: int, b: int| 0 <= a < self.open@.len() && 0 <= b < self.open@.len() && a
                != b implies self.open@[a] != self.open@[b] by {
                let oa = if a < best { a } else { a + 1 };
                let ob = if b < best { b } else { b + 1 };
                assert(self.open@[a] == old(self).open@[oa]);
                assert(self.open@[b] == old(self).open@[ob]);
            }
        }
        Some(id)
    }

    /// Starts the search over: forgets the tree, makes the root, in which
    /// every agent goes its own best way, and puts it into the queue. The
    /// queue stays empty where one of the agents has no path at all; where
    /// the bounds of the heuristics fit, it stays empty in no other case.
    pub fn init<H: Heuristic>(&mut self, config: &mut CbsConfig<H>)
        requires
            old(self).inv(),
            old(config).wf(),
        ensures
            final(self).inv(),
            final(config).wf(),
            final(config).tasks() == old(config).tasks(),
            final(config).n_agents() == old(config).n_agents(),
            final(config).pivots() == old(config).pivots(),
            final(config).precision() == old(config).precision(),
            final(self).transition_system() == old(self).transition_system(),
            final(self).tasks() == old(config).tasks(),
            final(self).nodes().len() <= 1,
            final(self).open().len() == final(self).nodes().len(),
            final(self).nodes().len() == 1 ==> final(self).open()[0] == 0 && final(self).nodes()[0].parent.is_none()
                && final(self).nodes()[0].constraint.is_none(),
            final(self).trusted() == bounds_ok(old(self).transition_system(), old(config)),
            final(self).trusted() ==> bounds_ok(final(self).transition_system(), final(config)),
            final(self).floor() == 0,
            final(self).trusted() && final(self).nodes().len() == 0 ==> exists|agent: usize|
                agent < old(config).tasks().len() && #[trigger] left_stranded(
                    old(self).transition_system(),
                    old(config).tasks(),
                    under(Seq::<CbsNode>::empty(), None, None),
                    agent,
                ),
    {
        self.nodes.clear();
        self.open.clear();
        self.tasks = config.tasks.clone();
        let ghost fit = bounds_fit(
            self.transition_system,
            config.tasks@,
            config.pivots@,
            config.heuristic_to_pivots@,
        );
        self.trusted = Ghost(fit);
        self.floor = Ghost(0);
        let ghost ts = self.transition_system;
        let ghost tasks = self.tasks@;
        proof {
            assert(self.nodes@ =~= Seq::<CbsNode>::empty());
        }
        match self.make_node(config, None, None) {
            Some(root) => {
                self.push_open(root);
            },
            None => {
                proof {
                    if self.trusted@ {
                        let visited = under(Seq::<CbsNode>::empty(), None, None);
                        let agent = choose|agent: usize|
                            agent < tasks.len() && #[trigger] left_stranded(ts, tasks, visited, agent);
                        assert(agent < old(config).tasks().len() && left_stranded(
                            old(self).transition_system(),
                            old(config).tasks(),
                            visited,
                            agent,
                        ));
                    }
                }
            },
        }
    }

    /// Takes the best node out of the queue and returns its number, or
    /// `None` where the queue is empty. Where the node has conflicts, its
    /// children are made and put into the queue: for the conflict to resolve
    /// first, one child for either agent, with the constraint that keeps the
    /// agent out of the conflict; a child whose agent is left without a path
    /// is not made. Where the bounds of the heuristics fit, the node costs no
    /// less than the node that was taken before it, and no child is missing
    /// but one whose agent is left without a path.
    pub fn solve_iter<H: Heuristic>(&mut self, config: &mut CbsConfig<H>) -> (r: Option<usize>)
        requires
            old(self).inv(),
            old(config).wf(),
            old(config).tasks() == old(self).tasks(),
        ensures
            final(self).inv(),
            final(config).wf(),
            final(config).tasks() == old(config).tasks(),
            final(config).n_agents() == old(config).n_agents(),
            final(config).pivots() == old(config).pivots(),
            final(config).precision() == old(config).precision(),
            final(self).transition_system() == old(self).transition_system(),
            final(self).tasks() == old(self).tasks(),
            final(self).nodes().len() >= old(self).nodes().len(),
            forall|i: int|
                0 <= i < old(self).nodes().len() ==> (#[trigger] final(self).nodes()[i]) == old(self).nodes()[i],
            match r {
                Some(id) => {
                    &&& id < old(self).nodes().len()
                    &&& old(self).open().contains(id)
                    &&& forall|q: int|
                        0 <= q < old(self).open().len() ==> !node_before(
                            old(self).nodes()[(#[trigger] old(self).open()[q]) as int],
                            old(self).nodes()[id as int],
                        )
                    &&& final(self).nodes().len() <= old(self).nodes().len() + 2
                    &&& forall|k: int|
                        old(self).nodes().len() <= k < final(self).nodes().len() ==> old(self).nodes()[id as int].conflicts@.len() > 0 && child_of(
                            #[trigger] final(self).nodes()[k],
                            id,
                            old(self).nodes()[id as int].conflicts@[0],
                            old(config).precision(),
                        )
                    &&& final(self).nodes().len() == old(self).nodes().len() + 2 ==> final(self).nodes()[old(self).nodes().len() as int].constraint == Some(
                        side(old(self).nodes()[id as int].conflicts@[0], 0, old(config).precision()),
                    ) && final(self).nodes()[(old(self).nodes().len() + 1) as int].constraint == Some(
                        side(old(self).nodes()[id as int].conflicts@[0], 1, old(config).precision()),
                    )
                    &&& forall|x: usize|
                        #[trigger] final(self).open().contains(x) <==> (old(self).open().contains(x) && x
                            != id) || old(self).nodes().len() <= x < final(self).nodes().len()
                },
                None => old(self).open().len() == 0 && final(self).open().len() == 0
                    && final(self).nodes().len() == old(self).nodes().len(),
            },
            final(self).trusted() == (old(self).trusted() && bounds_ok(
                old(self).transition_system(),
                old(config),
            )),
            final(self).trusted() ==> bounds_ok(final(self).transition_system(), final(config)),
            final(self).trusted() ==> match r {
                Some(id) => {
                    let node = old(self).nodes()[id as int];
                    &&& old(self).floor() <= node.total_cost
                    &&& final(self).floor() == node.total_cost
                    &&& node.conflicts@.len() > 0 && node.conflicts@[0].type_.rank() != 0 ==> settled(
                        old(self).transition_system(),
                        old(self).tasks(),
                        old(self).nodes(),
                        final(self).nodes(),
                        id,
                        side(node.conflicts@[0], 0, old(config).precision()),
                    ) && settled(
                        old(self).transition_system(),
                        old(self).tasks(),
                        old(self).nodes(),
                        final(self).nodes(),
                        id,
                        side(node.conflicts@[0], 1, old(config).precision()),
                    )
                },
                None => final(self).floor() == old(self).floor(),
            },
    {
        let ghost fit = self.trusted@ && bounds_fit(
            self.transition_system,
            self.tasks@,
            config.pivots@,
            config.heuristic_to_pivots@,
        );
        self.trusted = Ghost(fit);
        let id: usize = match self.pop_best() {
            Some(id) => id,
            None => {
                return None;
            },
        };
        let ghost popped = self.nodes@[id as int].total_cost as int;
        proof {
            if self.trusted@ {
                assert(old(self).open@.contains(id));
                let k = choose|k: int| 0 <= k < old(self).open@.len() && old(self).open@[k] == id;
                assert(old(self).nodes@[old(self).open@[k] as int].total_cost >= old(self).floor@);
            }
        }
        self.floor = Ghost(popped);
        proof {
            if self.trusted@ {
                assert forall|q: int| 0 <= q < self.open@.len() implies self.nodes@[(
                #[trigger] self.open@[q]) as int].total_cost >= self.floor@ by {
                    assert(old(self).open@.contains(self.open@[q]));
                    let k = choose|k: int|
                        0 <= k < old(self).open@.len() && old(self).open@[k] == self.open@[q];
                    assert(!node_before(
                        self.nodes@[old(self).open@[k] as int],
                        self.nodes@[id as int],
                    ));
                }
            }
        }
        let ghost nodes0 = self.nodes@;
        let ghost open0 = self.open@;
        if self.nodes[id].conflicts.len() > 0 {
            let conflict: Conflict = self.nodes[id].conflicts[0];
            if conflict.type_.rank_of() != 0 {
                let first: Move = conflict.first_move();
                let second: Move = conflict.second_move();
                let one = resolving_constraint(&first, &second, config.precision);
                proof {
                    lemma_conflict_agents(self.transition_system, self.tasks@, self.nodes@, id, 0);
                }
                match self.make_node(config, Some(id), Some(one)) {
                    Some(child) => {
                        proof {
                            if self.trusted@ {
                                assert(node_best(
                                    self.transition_system,
                                    self.tasks@,
                                    self.nodes@,
                                    child,
                                ));
                            }
                            if self.open@.contains(child) {
                                let q = choose|q: int| 0 <= q < self.open@.len() && self.open@[q] == child;
                                assert(open0[q] < nodes0.len());
                            }
                        }
                        self.push_open(child);
                        proof {
                            assert forall|x: usize| #[trigger]
                                self.open@.contains(x) <==> open0.contains(x) || x == child by {
                                vstd::seq_lib::lemma_seq_contains_after_push(open0, child, x);
                            }
                            assert(self.nodes@[child as int].constraint == Some(one));
                        }
                    },
                    None => {},
                }
                let ghost nodes1 = self.nodes@;
                proof {
                    if self.trusted@ {
                        assert(settled(self.transition_system, self.tasks@, nodes0, nodes1, id, one));
                    }
                }
                let ghost open1 = self.open@;
                let other = resolving_constraint(&second, &first, config.precision);
                match self.make_node(config, Some(id), Some(other)) {
                    Some(child) => {
                        proof {
                            if self.trusted@ {
                                assert(node_best(
                                    self.transition_system,
                                    self.tasks@,
                                    self.nodes@,
                                    child,
                                ));
                            }
                            if self.open@.contains(child) {
                                let q = choose|q: int| 0 <= q < self.open@.len() && self.open@[q] == child;
                                assert(open1[q] < nodes1.len());
                            }
                        }
                        self.push_open(child);
                        proof {
                            assert forall|x: usize| #[trigger]
                                self.open@.contains(x) <==> open1.contains(x) || x == child by {
                                vstd::seq_lib::lemma_seq_contains_after_push(open1, child, x);
                            }
                            assert(self.nodes@[child as int].constraint == Some(other));
                        }
                    },
                    None => {},
                }
                proof {
                    if self.trusted@ {
                        let ts = self.transition_system;
                        if nodes1.len() > nodes0.len() {
                            assert(self.nodes@[nodes0.len() as int] == nodes1[nodes0.len() as int]);
                        }
                        assert(settled(ts, self.tasks@, nodes0, self.nodes@, id, one));
                        assert(under(nodes1, Some(id), Some(other)) =~= under(nodes0, Some(id), Some(other))) by {
                            lemma_same_tree(nodes0, nodes1, id);
                        }
                        assert(settled(ts, self.tasks@, nodes0, self.nodes@, id, other));
                    }
                }
                proof {
                    assert forall|x: usize| #[trigger]
                        self.open@.contains(x) <==> open0.contains(x) || nodes0.len() <= x
                            < self.nodes@.len() by {
                        if open0.contains(x) {
                            let q = choose|q: int| 0 <= q < open0.len() && open0[q] == x;
                            assert(open0[q] < nodes0.len());
                        }
                    }
                }
            }
        }
        proof {
            assert forall|x: usize| open0.contains(x) implies x < nodes0.len() by {
                let q = choose|q: int| 0 <= q < open0.len() && open0[q] == x;
                assert(open0[q] < nodes0.len());
            }
        }
        Some(id)
    }

    /// Puts the node `id` into the queue.
    fn push_open(&mut self, id: usize)
        requires
            old(self).inv(),
            id < old(self).nodes@.len(),
            !old(self).open@.contains(id),
            old(self).trusted@ ==> old(self).nodes@[id as int].total_cost >= old(self).floor@,
        ensures
            final(self).inv(),
            final(self).transition_system == old(self).transition_system,
            final(self).tasks == old(self).tasks,
            final(self).trusted == old(self).trusted,
            final(self).floor == old(self).floor,
            final(self).nodes == old(self).nodes,
            final(self).open@ == old(self).open@.push(id),
    {
        self.open.push(id);
        proof {
            assert forall|q: int| 0 <= q < self.open@.len() implies (#[trigger] self.open@[q])
                < self.nodes@.len() && (self.trusted@ ==> self.nodes@[self.open@[q] as int].total_cost
                >= self.floor@) by {
                if q < old(self).open@.len() {
                    assert(self.open@[q] == old(self).open@[q]);
                }
            }
            assert forall|a: int, b: int| 0 <= a < self.open@.len() && 0 <= b < self.open@.len() && a
                != b implies self.open@[a] != self.open@[b] by {
                if a < old(self).open@.len() {
                    assert(self.open@[a] == old(self).open@[a]);
                }
                if b < old(self).open@.len() {
                    assert(self.open@[b] == old(self).open@[b]);
                }
            }
        }
    }

    /// The node with the number `id`.
    pub fn node(&self, id: usize) -> (r: &CbsNode)
        requires
            id < self.nodes().len(),
        ensures
            *r == self.nodes()[id as int],
    {
        &self.nodes[id]
    }

    /// The number of nodes of the tree.
    pub fn num_nodes(&self) -> (n: usize)
        ensures
            n == self.nodes().len(),
    {
        self.nodes.len()
    }

    /// The constraints on `agent` at the node `id`: those of the node and of
    /// the nodes above it. The tree holds no landmarks.
    pub fn get_constraints(&self, id: usize, agent: usize) -> (r: (ConstraintSet, LandmarkSet))
        requires
            self.inv(),
            id < self.nodes().len(),
        ensures
            r.0.wf(),
            represents(&r.0, self.nodes(), id, agent),
            r.1@.len() == 0,
    {
        let mut set = ConstraintSet::new();
        let mut current: usize = id;
        let ghost mut visited: Set<Constraint> = Set::empty();
        proof {
            assert(covers_set(&set, visited, agent)) by {
                assert forall|s: State, t: int| !#[trigger] blocked(set.state_bucket(s), t) by {
                    assert(set.state_bucket(s).len() == 0);
                }
                assert forall|f: State, g: State, t: int| !#[trigger] blocked(
                    set.action_bucket(f, g),
                    t,
                ) by {
                    assert(set.action_bucket(f, g).len() == 0);
                }
            }
        }
        loop
            invariant
                current <= id,
                id < self.nodes@.len(),
                self.inv(),
                set.wf(),
                covers_set(&set, visited, agent),
                forall|c: Constraint|
                    chain_has(self.nodes@, id, c) <==> visited.contains(c) || chain_has(
                        self.nodes@,
                        current,
                        c,
                    ),
            ensures
                set.wf(),
                covers_set(&set, visited, agent),
                forall|c: Constraint| visited.contains(c) <==> chain_has(self.nodes@, id, c),
            decreases current,
        {
            proof {
                assert(node_ok(self.transition_system, self.tasks@, self.nodes@, current));
            }
            let ghost seen = visited;
            match self.nodes[current].constraint {
                Some(c) => {
                    if c.agent == agent {
                        let ghost before = set;
                        set.add(c);
                        proof {
                            lemma_covers_added(&before, &set, seen, c, agent);
                        }
                    } else {
                        proof {
                            lemma_covers_other(&set, seen, c, agent);
                        }
                    }
                    proof {
                        visited = seen.insert(c);
                    }
                },
                None => {},
            }
            match self.nodes[current].parent {
                Some(parent) => {
                    proof {
                        let own = self.nodes@[current as int].constraint;
                        assert(own.is_some() ==> visited == seen.insert(own.unwrap()));
                        assert(own.is_none() ==> visited == seen);
                        assert forall|c: Constraint|
                            chain_has(self.nodes@, id, c) <==> visited.contains(c) || chain_has(
                                self.nodes@,
                                parent,
                                c,
                            ) by {
                            assert(chain_has(self.nodes@, id, c) <==> seen.contains(c) || chain_has(
                                self.nodes@,
                                current,
                                c,
                            ));
                            assert(chain_has(self.nodes@, current, c) == (own == Some(c) || chain_has(
                                self.nodes@,
                                parent,
                                c,
                            )));
                        }
                    }
                    current = parent;
                },
                None => {
                    proof {
                        let own = self.nodes@[current as int].constraint;
                        assert(own.is_some() ==> visited == seen.insert(own.unwrap()));
                        assert(own.is_none() ==> visited == seen);
                        assert forall|c: Constraint| visited.contains(c) <==> chain_has(
                            self.nodes@,
                            id,
                            c,
                        ) by {
                            assert(chain_has(self.nodes@, id, c) <==> seen.contains(c) || chain_has(
                                self.nodes@,
                                current,
                                c,
                            ));
                            assert(chain_has(self.nodes@, current, c) == (own == Some(c)));
                        }
                    }
                    break ;
                },
            }
        }
        proof {
            lemma_covers_represents(&set, visited, self.nodes@, id, agent);
        }
        (set, Vec::new())
    }

    /// The plan of `agent` at the node `id`.
    fn get_plan(&self, id: usize, agent: usize) -> (r: Solution<SippState>)
        requires
            self.inv(),
            id < self.nodes@.len(),
            agent < self.tasks@.len(),
        ensures
            plan_of(self.nodes@, id, agent).is_some(),
            r.states@ == plan_of(self.nodes@, id, agent).unwrap().states@,
            r.costs@ == plan_of(self.nodes@, id, agent).unwrap().costs@,
            r.actions@ == plan_of(self.nodes@, id, agent).unwrap().actions@,
    {
        let mut current: usize = id;
        proof {
            assert(node_ok(self.transition_system, self.tasks@, self.nodes@, id));
            assert(plan_ok(self.transition_system, self.tasks@, self.nodes@, id, agent));
        }
        loop
            invariant
                current <= id,
                id < self.nodes@.len(),
                self.inv(),
                plan_of(self.nodes@, id, agent).is_some(),
                plan_of(self.nodes@, id, agent) == plan_of(self.nodes@, current, agent),
            decreases current,
        {
            let node = &self.nodes[current];
            if agent < node.solutions.len() {
                match &node.solutions[agent] {
                    Some(plan) => {
                        return copy_plan(plan);
                    },
                    None => {},
                }
            }
            match node.parent {
                Some(parent) => {
                    proof {
                        assert(node_ok(self.transition_system, self.tasks@, self.nodes@, current));
                        assert(plan_of(self.nodes@, current, agent) == plan_of(
                            self.nodes@,
                            parent,
                            agent,
                        ));
                    }
                    current = parent;
                },
                None => {
                    proof {
                        assert(plan_of(self.nodes@, current, agent).is_none());
                    }
                    return Solution::default();
                },
            }
        }
    }

    /// The plans of the agents at the node `id`, one for each of the first
    /// `n_agents` agents. Each does the agent's task under the constraints on
    /// the agent; where the node has no conflicts, no move of any of them
    /// collides with a move of another.
    pub fn get_solutions(&self, id: usize, n_agents: usize) -> (r: Vec<Solution<SippState>>)
        requires
            self.inv(),
            id < self.nodes().len(),
            n_agents <= self.tasks().len(),
        ensures
            r@.len() == n_agents,
            forall|agent: usize|
                agent < n_agents ==> {
                    let plan = #[trigger] plan_of(self.nodes(), id, agent);
                    &&& plan.is_some()
                    &&& r@[agent as int].states@ == plan.unwrap().states@
                    &&& r@[agent as int].costs@ == plan.unwrap().costs@
                    &&& r@[agent as int].actions@ == plan.unwrap().actions@
                },
            forall|agent: usize|
                agent < n_agents ==> #[trigger] does_task(
                    self.transition_system(),
                    self.tasks(),
                    self.nodes(),
                    id,
                    agent,
                    r@[agent as int],
                ),
            self.nodes()[id as int].conflicts@.len() == 0 ==> forall|i: int, j: int|
                0 <= i < j < n_agents ==> !#[trigger] plans_collide(
                    plan_moves(self.transition_system(), i as usize, r@[i]),
                    plan_moves(self.transition_system(), j as usize, r@[j]),
                ),
    {
        let mut plans: Vec<Solution<SippState>> = Vec::new();
        let mut agent: usize = 0;
        while agent < n_agents
            invariant
                agent <= n_agents,
                n_agents <= self.tasks@.len(),
                id < self.nodes@.len(),
                self.inv(),
                plans@.len() == agent,
                forall|a: usize|
                    a < agent ==> {
                        let plan = #[trigger] plan_of(self.nodes@, id, a);
                        &&& plan.is_some()
                        &&& plans@[a as int].states@ == plan.unwrap().states@
                        &&& plans@[a as int].costs@ == plan.unwrap().costs@
                        &&& plans@[a as int].actions@ == plan.unwrap().actions@
                    },
            decreases n_agents - agent,
        {
            let plan = self.get_plan(id, agent);
            plans.push(plan);
            agent += 1;
        }
        proof {
            let ts = self.transition_system;
            assert(node_ok(ts, self.tasks@, self.nodes@, id));
            assert forall|a: usize| a < n_agents implies #[trigger] does_task(
                ts,
                self.tasks@,
                self.nodes@,
                id,
                a,
                plans@[a as int],
            ) by {
                assert(plan_ok(ts, self.tasks@, self.nodes@, id, a));
                let set = choose|set: ConstraintSet| #[trigger]
                    represents(&set, self.nodes@, id, a) && set.wf() && lsipp_solves(
                        ts,
                        &set,
                        self.tasks@[a as int],
                        Seq::<Constraint>::empty(),
                        plan_of(self.nodes@, id, a).unwrap(),
                    );
                assert(plan_of(self.nodes@, id, a).is_some());
                assert(represents(&set, self.nodes@, id, a) && set.wf() && lsipp_solves(
                    ts,
                    &set,
                    self.tasks@[a as int],
                    Seq::<Constraint>::empty(),
                    plans@[a as int],
                ));
            }
            if self.nodes@[id as int].conflicts@.len() == 0 {
                let all = all_moves(ts, self.nodes@, id, self.tasks@.len());
                lemma_no_conflicts(self.nodes@[id as int].conflicts@, all);
                assert forall|i: int, j: int| 0 <= i < j < n_agents implies !#[trigger] plans_collide(
                    plan_moves(ts, i as usize, plans@[i]),
                    plan_moves(ts, j as usize, plans@[j]),
                ) by {
                    assert(plan_of(self.nodes@, id, i as usize).is_some());
                    assert(plan_of(self.nodes@, id, j as usize).is_some());
                    assert(plan_moves(ts, i as usize, plans@[i]) =~= all[i]);
                    assert(plan_moves(ts, j as usize, plans@[j]) =~= all[j]);
                    assert(!plans_collide(all[i], all[j]));
                }
            }
        }
        plans
    }
}

} // verus!
