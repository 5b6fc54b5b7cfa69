use cbs::{
    Constraint, ConstraintSet, GeneralizedSippConfig, Graph, Interval, ReverseResumableAStar,
    SafeIntervalPathPlanning, SearchNode, SimpleHeuristic, SimpleWorld, SippConfig, SippState,
    SippTask, Task,
};

fn sipp_grid(size: usize, cost: u64) -> Graph {
    let mut graph = Graph::new();
    for _x in 0..size {
        for _y in 0..size {
            graph.add_node();
        }
    }
    for x in 0..size {
        for y in 0..size {
            let node_id = x + y * size;
            if x > 0 {
                graph.add_edge(node_id, x - 1 + y * size, cost);
            }
            if y > 0 {
                graph.add_edge(node_id, x + (y - 1) * size, cost);
            }
            if x < size - 1 {
                graph.add_edge(node_id, x + 1 + y * size, cost);
            }
            if y < size - 1 {
                graph.add_edge(node_id, x + (y + 1) * size, cost);
            }
        }
    }
    graph
}

#[test]
fn sipp_test_simple() {
    let size = 10;
    let graph = sipp_grid(size, 1000);
    let transition_system = SimpleWorld::new(graph);
    let initial_time = 0u64;
    let constraints = ConstraintSet::default();
    let mut solver = SafeIntervalPathPlanning::new(&transition_system);

    for x in 0..size {
        for y in 0..size {
            let task = Task::new(x + size * y, size * size - 1, initial_time);
            let mut config = SippConfig::new(
                task,
                Default::default(),
                &constraints,
                ReverseResumableAStar::new(
                    &transition_system,
                    task,
                    SimpleHeuristic::new(&transition_system, task),
                ),
            );
            assert_eq!(
                *solver.solve(&mut config).unwrap().costs.last().unwrap(),
                initial_time + (((size - x - 1) + (size - y - 1)) * 1000) as u64
            );
        }
    }
}

#[test]
fn sipp_waits_for_a_state_to_become_free() {
    // A corridor 0 - 1 - 2; state 1 is forbidden during [0, 5].
    let mut graph = Graph::new();
    for _ in 0..3 {
        graph.add_node();
    }
    graph.add_edge(0, 1, 1);
    graph.add_edge(1, 0, 1);
    graph.add_edge(1, 2, 1);
    graph.add_edge(2, 1, 1);
    let world = SimpleWorld::new(graph);
    let mut constraints = ConstraintSet::default();
    constraints.add(Constraint::new_state_constraint(0, 1, Interval::new(0, 5)));
    let task = Task::new(0, 2, 0);
    let mut solver = SafeIntervalPathPlanning::new(&world);
    let mut config = SippConfig::new(
        task,
        Interval::default(),
        &constraints,
        ReverseResumableAStar::new(&world, task, SimpleHeuristic::new(&world, task.reverse())),
    );
    let solution = solver.solve(&mut config).unwrap();
    assert_eq!(solution.costs, vec![0, 6, 7]);
    assert_eq!(solution.actions, vec![0, 2]);
    assert_eq!(solution.states.len(), 3);
    assert_eq!(solution.states[1].safe_interval, Interval::new(6, u64::MAX));
    assert_eq!(solution.states[0].safe_interval, Interval::default());
}

#[test]
fn sipp_leaves_after_a_forbidden_departure() {
    // The edge 0 -> 1 may not be taken during [0, 3]: the agent leaves at
    // the end of the interval.
    let mut graph = Graph::new();
    for _ in 0..2 {
        graph.add_node();
    }
    graph.add_edge(0, 1, 2);
    let world = SimpleWorld::new(graph);
    let mut constraints = ConstraintSet::default();
    constraints.add(Constraint::new_action_constraint(0, 0, 1, Interval::new(0, 3)));
    let task = Task::new(0, 1, 0);
    let mut solver = SafeIntervalPathPlanning::new(&world);
    let mut config = SippConfig::new(
        task,
        Interval::default(),
        &constraints,
        ReverseResumableAStar::new(&world, task, SimpleHeuristic::new(&world, task.reverse())),
    );
    let solution = solver.solve(&mut config).unwrap();
    assert_eq!(solution.costs, vec![0, 5]);
}

#[test]
fn sipp_start_in_unsafe_state_has_no_solution() {
    let graph = sipp_grid(3, 1);
    let world = SimpleWorld::new(graph);
    let mut constraints = ConstraintSet::default();
    constraints.add(Constraint::new_state_constraint(0, 0, Interval::default()));
    let task = Task::new(0, 8, 0);
    let mut solver = SafeIntervalPathPlanning::new(&world);
    let mut config = SippConfig::new(
        task,
        Interval::default(),
        &constraints,
        ReverseResumableAStar::new(&world, task, SimpleHeuristic::new(&world, task.reverse())),
    );
    assert!(solver.solve(&mut config).is_none());
    assert_eq!(solver.get_stats().searches, 0);
}

#[test]
fn sipp_generalized_reaches_every_safe_interval_of_the_goal() {
    // A corridor 0 - 1 - 2; the goal 2 is forbidden during [5, 9].
    let mut graph = Graph::new();
    for _ in 0..3 {
        graph.add_node();
    }
    graph.add_edge(0, 1, 1);
    graph.add_edge(1, 0, 1);
    graph.add_edge(1, 2, 1);
    graph.add_edge(2, 1, 1);
    let world = SimpleWorld::new(graph);
    let mut constraints = ConstraintSet::default();
    constraints.add(Constraint::new_state_constraint(0, 2, Interval::new(5, 9)));
    let task = Task::new(0, 2, 0);
    let solver = SafeIntervalPathPlanning::new(&world);
    let config = SippConfig::new(
        task,
        Interval::default(),
        &constraints,
        ReverseResumableAStar::new(&world, task, SimpleHeuristic::new(&world, task.reverse())),
    );
    let mut generalized = match solver.to_generalized(config, false) {
        Ok(g) => g,
        Err(_) => panic!("the start is free"),
    };
    let mut solver = solver;
    let solutions = solver.solve_generalized(&mut generalized);
    // One path for each safe interval of the goal, the earlier one first.
    let ends: Vec<(u64, Interval)> = solutions
        .iter()
        .map(|s| (*s.costs.last().unwrap(), s.states.last().unwrap().safe_interval))
        .collect();
    assert_eq!(
        ends,
        vec![(2, Interval::new(0, 4)), (10, Interval::new(10, u64::MAX))]
    );
    assert_eq!(solver.get_stats().searches, 1);
}

#[test]
fn sipp_generalized_starts_from_the_best_of_its_starts() {
    let world = SimpleWorld::new(sipp_grid(4, 1));
    let constraints = ConstraintSet::default();
    let whole = Interval::default();
    let task = Task::new(0, 15, 0);
    let sipp_task = SippTask::new(
        vec![10, 3, 0],
        vec![
            SippState { safe_interval: whole, internal_state: 15 - 1 },
            SippState { safe_interval: whole, internal_state: 0 },
            // No safe interval of the state: left out.
            SippState { safe_interval: Interval::new(0, 5), internal_state: 11 },
        ],
        SippState { safe_interval: whole, internal_state: 15 },
        task,
    );
    let mut config = GeneralizedSippConfig::new(
        sipp_task,
        &constraints,
        ReverseResumableAStar::new(&world, task, SimpleHeuristic::new(&world, task.reverse())),
        true,
    );
    let mut solver = SafeIntervalPathPlanning::new(&world);
    let solutions = solver.solve_generalized(&mut config);
    assert_eq!(solutions.len(), 1);
    // From 0 at 3 it takes 6 steps; from 14 at 10 one step.
    assert_eq!(*solutions[0].costs.last().unwrap(), 9);
    assert_eq!(solutions[0].states[0].internal_state, 0);
    assert_eq!(solutions[0].costs[0], 3);
}

#[test]
fn sipp_to_generalized_gives_the_configuration_back_where_the_start_is_unsafe() {
    let world = SimpleWorld::new(sipp_grid(2, 1));
    let mut constraints = ConstraintSet::default();
    constraints.add(Constraint::new_state_constraint(0, 0, Interval::new(0, 3)));
    let task = Task::new(0, 3, 2);
    let solver = SafeIntervalPathPlanning::new(&world);
    let config = SippConfig::new(
        task,
        Interval::default(),
        &constraints,
        ReverseResumableAStar::new(&world, task, SimpleHeuristic::new(&world, task.reverse())),
    );
    let config = match solver.to_generalized(config, true) {
        Ok(_) => panic!("the start is forbidden"),
        Err(c) => c,
    };
    let _heuristic = config.into_heuristic();
    // Four ticks later the start is free.
    let task = Task::new(0, 3, 4);
    let config = SippConfig::new(
        task,
        Interval::default(),
        &constraints,
        ReverseResumableAStar::new(&world, task, SimpleHeuristic::new(&world, task.reverse())),
    );
    assert!(solver.to_generalized(config, true).is_ok());
}

#[test]
fn sipp_goal_counts_only_within_its_interval() {
    let whole = Interval::default();
    let task = SippTask::new(
        vec![0],
        vec![SippState { safe_interval: whole, internal_state: 0 }],
        SippState { safe_interval: Interval::new(5, 9), internal_state: 3 },
        Task::new(0, 3, 0),
    );
    let at = |state: usize, cost: u64| SearchNode {
        state: SippState { safe_interval: whole, internal_state: state },
        cost,
        heuristic: 0,
    };
    assert!(task.is_goal(&at(3, 5)));
    assert!(task.is_goal(&at(3, 9)));
    assert!(!task.is_goal(&at(3, 4)));
    assert!(!task.is_goal(&at(3, 10)));
    assert!(!task.is_goal(&at(2, 7)));
}
