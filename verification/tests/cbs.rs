use cbs::{
    CbsConfig, ConflictBasedSearch, ConflictType, Graph, ReverseResumableAStar, SimpleHeuristic,
    SimpleWorld, Task,
};

fn grid(size: usize) -> Graph {
    let mut graph = Graph::new();
    for _ in 0..size * size {
        graph.add_node();
    }
    for x in 0..size {
        for y in 0..size {
            let node_id = x + y * size;
            if x > 0 {
                graph.add_edge(node_id, x - 1 + y * size, 1);
            }
            if y > 0 {
                graph.add_edge(node_id, x + (y - 1) * size, 1);
            }
            if x < size - 1 {
                graph.add_edge(node_id, x + 1 + y * size, 1);
            }
            if y < size - 1 {
                graph.add_edge(node_id, x + (y + 1) * size, 1);
            }
        }
    }
    graph
}

fn config_for<'a>(
    world: &'a SimpleWorld,
    tasks: &[(usize, usize)],
    precision: u64,
) -> CbsConfig<ReverseResumableAStar<'a, SimpleWorld, SimpleHeuristic>> {
    let tasks: Vec<Task> = tasks.iter().map(|(from, to)| Task::new(*from, *to, 0)).collect();
    let pivots: Vec<usize> = tasks.iter().map(|t| t.goal_state).collect();
    let heuristics = tasks
        .iter()
        .map(|t| ReverseResumableAStar::new(world, *t, SimpleHeuristic::new(world, *t)))
        .collect();
    CbsConfig::new(tasks, pivots, heuristics, precision)
}

/// Runs the search until a node without conflicts comes, for at most `limit`
/// nodes.
fn first_solution<'a>(
    cbs: &mut ConflictBasedSearch<'a, SimpleWorld>,
    config: &mut CbsConfig<ReverseResumableAStar<'a, SimpleWorld, SimpleHeuristic>>,
    limit: usize,
) -> Option<usize> {
    for _ in 0..limit {
        match cbs.solve_iter(config) {
            Some(id) => {
                if cbs.node(id).conflicts.is_empty() {
                    return Some(id);
                }
            }
            None => return None,
        }
    }
    None
}

#[test]
fn cbs_single_agent_on_open_grid() {
    let world = SimpleWorld::new(grid(10));
    let mut config = config_for(&world, &[(0, 99)], 0);
    let mut cbs = ConflictBasedSearch::new(&world);
    cbs.init(&mut config);
    let id = cbs.solve_iter(&mut config).unwrap();
    assert!(cbs.node(id).conflicts.is_empty());
    assert_eq!(cbs.node(id).total_cost, 18);
    let solutions = cbs.get_solutions(id, 1);
    assert_eq!(*solutions[0].costs.last().unwrap(), 18);
    assert_eq!(solutions[0].states.len(), 19);
    assert!(cbs.solve_iter(&mut config).is_none());
}

#[test]
fn cbs_head_on_agents_on_open_grid() {
    let world = SimpleWorld::new(grid(10));
    let mut config = config_for(&world, &[(0, 4), (4, 0)], 0);
    let mut cbs = ConflictBasedSearch::new(&world);
    cbs.init(&mut config);
    let root = cbs.solve_iter(&mut config).unwrap();
    assert_eq!(cbs.node(root).total_cost, 8);
    assert!(!cbs.node(root).conflicts.is_empty());
    // The agents meet in the middle; the one that waits a tick for the other
    // then swaps states with it. The constraint against a swap forbids the
    // one tick at which the agent left, at which it may leave all the same:
    // the children of such a node are the node again, and no node without
    // conflicts comes.
    let mut taken = 1;
    while taken < 400 {
        let id = cbs.solve_iter(&mut config).unwrap();
        assert!(!cbs.node(id).conflicts.is_empty());
        assert_eq!(cbs.node(id).total_cost, 9);
        taken += 1;
    }
}

#[test]
fn cbs_three_agents_on_open_grid() {
    let world = SimpleWorld::new(grid(10));
    let mut config = config_for(&world, &[(0, 9), (9, 0), (1, 8)], 0);
    let mut cbs = ConflictBasedSearch::new(&world);
    cbs.init(&mut config);
    let root = cbs.solve_iter(&mut config).unwrap();
    assert_eq!(cbs.node(root).total_cost, 25);
    let costs: Vec<u64> =
        cbs.get_solutions(root, 3).iter().map(|s| *s.costs.last().unwrap()).collect();
    assert_eq!(costs, vec![9, 9, 7]);
    assert!(!cbs.node(root).conflicts.is_empty());
    // Every node that is taken costs the sum of its plans, no less than the
    // one before it.
    let mut last = 25;
    for _ in 0..20 {
        let id = cbs.solve_iter(&mut config).unwrap();
        let plans = cbs.get_solutions(id, 3);
        let total: u128 = plans.iter().map(|p| *p.costs.last().unwrap() as u128).sum();
        assert_eq!(cbs.node(id).total_cost, total);
        assert!(total >= last);
        last = total;
    }
}

#[test]
fn cbs_crossing_paths_are_a_cardinal_conflict() {
    // A cross: 0 - 2 - 1 from west to east, 3 - 2 - 4 from north to south.
    let mut graph = Graph::new();
    for _ in 0..5 {
        graph.add_node();
    }
    for (a, b) in [(0, 2), (2, 1), (3, 2), (2, 4)] {
        graph.add_edge(a, b, 1);
        graph.add_edge(b, a, 1);
    }
    let world = SimpleWorld::new(graph);
    let mut config = config_for(&world, &[(0, 1), (3, 4)], 0);
    let mut cbs = ConflictBasedSearch::new(&world);
    cbs.init(&mut config);
    let root = cbs.solve_iter(&mut config).unwrap();
    assert_eq!(cbs.node(root).total_cost, 4);
    assert!(!cbs.node(root).conflicts.is_empty());
    assert_eq!(cbs.node(root).conflicts[0].type_, ConflictType::Cardinal);
    // Two children, each with one more tick for one of the agents.
    assert_eq!(cbs.num_nodes(), 3);
    assert_eq!(cbs.node(1).total_cost, 5);
    assert_eq!(cbs.node(2).total_cost, 5);
    assert_eq!(cbs.node(1).parent, Some(root));
    assert_eq!(cbs.node(2).parent, Some(root));
    let first = cbs.get_solutions(1, 2);
    assert_eq!(*first[0].costs.last().unwrap(), 3);
    assert_eq!(*first[1].costs.last().unwrap(), 2);
    let second = cbs.get_solutions(2, 2);
    assert_eq!(*second[0].costs.last().unwrap(), 2);
    assert_eq!(*second[1].costs.last().unwrap(), 3);
}

fn corridor(n: usize) -> Graph {
    let mut graph = Graph::new();
    for _ in 0..n {
        graph.add_node();
    }
    for i in 0..n - 1 {
        graph.add_edge(i, i + 1, 1);
        graph.add_edge(i + 1, i, 1);
    }
    graph
}

#[test]
fn cbs_swap_in_a_corridor_is_an_edge_conflict() {
    let world = SimpleWorld::new(corridor(2));
    let mut config = config_for(&world, &[(0, 1), (1, 0)], 0);
    let mut cbs = ConflictBasedSearch::new(&world);
    cbs.init(&mut config);
    let root = cbs.solve_iter(&mut config).unwrap();
    assert_eq!(root, 0);
    let conflicts = &cbs.node(root).conflicts;
    assert!(!conflicts.is_empty());
    let swap = conflicts
        .iter()
        .find(|c| c.first_move().action.is_some() && c.second_move().action.is_some())
        .unwrap();
    assert_eq!(swap.first_move().from, 0);
    assert_eq!(swap.first_move().to, 1);
    assert_eq!(swap.second_move().from, 1);
    assert_eq!(swap.second_move().to, 0);
    assert_eq!(swap.first_move().interval, cbs::Interval::new(0, 1));
    // The children forbid one of the agents to leave at the tick at which
    // it left. At the end of what is forbidden an agent may leave: nobody
    // is delayed.
    assert_eq!(cbs.num_nodes(), 3);
    for child in 1..cbs.num_nodes() {
        assert_eq!(cbs.node(child).parent, Some(root));
        assert_eq!(cbs.node(child).total_cost, cbs.node(root).total_cost);
        let constraint = cbs.node(child).constraint.unwrap();
        let (set, landmarks) = cbs.get_constraints(child, constraint.agent);
        assert!(landmarks.is_empty());
        let other = 1 - constraint.agent;
        let (none, _) = cbs.get_constraints(child, other);
        match constraint.type_ {
            cbs::ConstraintType::Action => {
                let bucket = set
                    .get_action_constraints(&constraint.state, &constraint.next.unwrap())
                    .unwrap();
                assert_eq!(bucket.len(), 1);
                assert_eq!(bucket[0].interval, constraint.interval);
                assert!(none
                    .get_action_constraints(&constraint.state, &constraint.next.unwrap())
                    .is_none());
            }
            cbs::ConstraintType::State => {
                let bucket = set.get_state_constraints(&constraint.state).unwrap();
                assert_eq!(bucket.len(), 1);
                assert!(none.get_state_constraints(&constraint.state).is_none());
            }
        }
    }
}

#[test]
fn cbs_swap_without_detour_never_yields_a_plan() {
    let world = SimpleWorld::new(corridor(2));
    let mut config = config_for(&world, &[(0, 1), (1, 0)], 0);
    let mut cbs = ConflictBasedSearch::new(&world);
    cbs.init(&mut config);
    assert!(first_solution(&mut cbs, &mut config, 200).is_none());
}

#[test]
fn cbs_swap_without_detour_is_never_resolved() {
    // Whatever the margin, the constraint against a swap is one tick long.
    let world = SimpleWorld::new(corridor(2));
    let mut config = config_for(&world, &[(0, 1), (1, 0)], u64::MAX);
    let mut cbs = ConflictBasedSearch::new(&world);
    cbs.init(&mut config);
    for _ in 0..300 {
        let id = cbs.solve_iter(&mut config).unwrap();
        assert!(!cbs.node(id).conflicts.is_empty());
        assert_eq!(cbs.node(id).total_cost, 2);
    }
}

#[test]
fn cbs_agent_without_path_leaves_the_queue_empty() {
    let mut graph = Graph::new();
    graph.add_node();
    graph.add_node();
    let world = SimpleWorld::new(graph);
    let mut config = config_for(&world, &[(0, 1)], 0);
    let mut cbs = ConflictBasedSearch::new(&world);
    cbs.init(&mut config);
    assert_eq!(cbs.num_nodes(), 0);
    assert!(cbs.solve_iter(&mut config).is_none());
}

#[test]
fn cbs_takes_nodes_by_increasing_cost() {
    let world = SimpleWorld::new(grid(4));
    let mut config = config_for(&world, &[(0, 3), (3, 0), (1, 13)], 0);
    let mut cbs = ConflictBasedSearch::new(&world);
    cbs.init(&mut config);
    let mut last = 0;
    for _ in 0..60 {
        match cbs.solve_iter(&mut config) {
            Some(id) => {
                let cost = cbs.node(id).total_cost;
                assert!(cost >= last);
                last = cost;
            }
            None => break,
        }
    }
    assert!(last > 0);
}

#[test]
fn cbs_started_over_finds_the_same_cost() {
    // One agent goes along the second row, the other down the second
    // column: they meet where the two cross.
    let world = SimpleWorld::new(grid(5));
    let mut config = config_for(&world, &[(5, 9), (1, 21)], 0);
    let mut cbs = ConflictBasedSearch::new(&world);
    cbs.init(&mut config);
    let first = first_solution(&mut cbs, &mut config, 10_000).unwrap();
    let cost = cbs.node(first).total_cost;
    let plans: Vec<Vec<u64>> = cbs.get_solutions(first, 2).iter().map(|s| s.costs.clone()).collect();
    cbs.init(&mut config);
    assert_eq!(cbs.num_nodes(), 1);
    let again = first_solution(&mut cbs, &mut config, 10_000).unwrap();
    assert_eq!(cbs.node(again).total_cost, cost);
    let plans_again: Vec<Vec<u64>> =
        cbs.get_solutions(again, 2).iter().map(|s| s.costs.clone()).collect();
    assert_eq!(plans, plans_again);
    assert_eq!(cost, 9);
}

#[test]
fn cbs_plans_without_conflicts_do_not_collide() {
    // Two agents along rows, two down columns: each meets two others.
    let world = SimpleWorld::new(grid(4));
    let mut config = config_for(&world, &[(4, 7), (1, 13), (8, 11), (2, 14)], 0);
    let mut cbs = ConflictBasedSearch::new(&world);
    cbs.init(&mut config);
    let id = first_solution(&mut cbs, &mut config, 2_000).unwrap();
    let plans = cbs.get_solutions(id, 4);
    let moves: Vec<Vec<cbs::Move>> = plans
        .iter()
        .enumerate()
        .map(|(agent, plan)| cbs::collision::get_moves(&world, agent, plan))
        .collect();
    assert!(cbs::collision::detect_all(&moves).is_empty());
    // No two agents are in one state at one time.
    for t in 0..40u64 {
        let mut places = vec![];
        for plan in plans.iter() {
            let mut at = plan.states[0].internal_state;
            for (i, cost) in plan.costs.iter().enumerate() {
                if *cost <= t {
                    at = plan.states[i].internal_state;
                }
            }
            places.push(at);
        }
        for i in 0..places.len() {
            for j in i + 1..places.len() {
                assert_ne!(places[i], places[j], "at {}", t);
            }
        }
    }
    let total: u128 = plans.iter().map(|p| *p.costs.last().unwrap() as u128).sum();
    assert_eq!(cbs.node(id).total_cost, total);
    assert_eq!(config.agents(), 4);
    assert_eq!(config.task(2), Task::new(8, 11, 0));
}

#[test]
fn cbs_precision_widens_what_a_conflict_forbids() {
    // Three arms meet in node 0: one to node 1, one to node 2, and a chain
    // over 3, 4, 5, 6 to 7. The first agent wants to rest in 0, which the
    // second has to pass on its way from 7 to 2, at the time 5.
    let mut graph = Graph::new();
    for _ in 0..8 {
        graph.add_node();
    }
    for (a, b) in [(0, 1), (0, 2), (0, 3), (3, 4), (4, 5), (5, 6), (6, 7)] {
        graph.add_edge(a, b, 1);
        graph.add_edge(b, a, 1);
    }
    let world = SimpleWorld::new(graph);

    // With no margin the first agent comes in right behind the second.
    let mut config = config_for(&world, &[(1, 0), (7, 2)], 0);
    let mut cbs = ConflictBasedSearch::new(&world);
    cbs.init(&mut config);
    let id = first_solution(&mut cbs, &mut config, 100_000).unwrap();
    let solutions = cbs.get_solutions(id, 2);
    assert_eq!(*solutions[0].costs.last().unwrap(), 6);
    assert_eq!(*solutions[1].costs.last().unwrap(), 6);
    assert_eq!(cbs.node(id).total_cost, 12);

    // With a margin of one tick the time right behind the second agent is
    // forbidden too, and the first agent comes in one tick later.
    let mut config = config_for(&world, &[(1, 0), (7, 2)], 1);
    let mut cbs = ConflictBasedSearch::new(&world);
    cbs.init(&mut config);
    let id = first_solution(&mut cbs, &mut config, 100_000).unwrap();
    let solutions = cbs.get_solutions(id, 2);
    assert_eq!(*solutions[0].costs.last().unwrap(), 7);
    assert_eq!(*solutions[1].costs.last().unwrap(), 6);
    assert_eq!(cbs.node(id).total_cost, 13);
}

#[test]
fn cbs_children_keep_either_agent_out_of_the_first_conflict() {
    let world = SimpleWorld::new(grid(10));
    let mut config = config_for(&world, &[(0, 4), (4, 0)], 1);
    let mut cbs = ConflictBasedSearch::new(&world);
    cbs.init(&mut config);
    assert_eq!(cbs.num_nodes(), 1);
    let root = cbs.solve_iter(&mut config).unwrap();
    let first = cbs.node(root).conflicts[0].first_move();
    let second = cbs.node(root).conflicts[0].second_move();
    assert!(first.agent < second.agent);
    // On the open grid either agent finds a way around.
    assert_eq!(cbs.num_nodes(), 3);
    let sides = [
        cbs::collision::resolving_constraint(&first, &second, 1),
        cbs::collision::resolving_constraint(&second, &first, 1),
    ];
    for (k, side) in sides.iter().enumerate() {
        let child = cbs.node(1 + k);
        assert_eq!(child.parent, Some(root));
        let constraint = child.constraint.unwrap();
        assert_eq!(constraint.agent, side.agent);
        assert_eq!(constraint.state, side.state);
        assert_eq!(constraint.next, side.next);
        assert_eq!(constraint.interval, side.interval);
        assert_eq!(constraint.type_, side.type_);
    }
    assert_eq!(sides[0].agent, first.agent);
    assert_eq!(sides[1].agent, second.agent);
}
