use cbs::{
    Constraint, ConstraintSet, Graph, Interval, LSippConfig, ReverseResumableAStar,
    SafeIntervalPathPlanningWithLandmarks, SimpleHeuristic, SimpleWorld, Task,
};

fn simple_graph(size: usize) -> Graph {
    let mut graph = Graph::new();
    for _x in 0..size {
        for _y in 0..size {
            graph.add_node();
        }
    }
    for x in 0..size {
        for y in 0..size {
            let node_id = x + y * size;
            if x > 0 {
                graph.add_edge(node_id, x - 1 + y * size, 1);
            }
            if y > 0 {
                graph.add_edge(node_id, x + (y - 1) * size, 1);
            }
            if x < size - 1 {
                graph.add_edge(node_id, x + 1 + y * size, 1);
            }
            if y < size - 1 {
                graph.add_edge(node_id, x + (y + 1) * size, 1);
            }
        }
    }
    graph
}

#[test]
fn lsipp_test_simple() {
    let size = 10;
    let graph = simple_graph(size);
    let transition_system = SimpleWorld::new(graph);
    let constraints = ConstraintSet::default();
    let mut solver = SafeIntervalPathPlanningWithLandmarks::new(&transition_system);

    for x in 0..size {
        for y in 0..size {
            let task = Task::new(x + size * y, size * size - 1, 0);
            let mut config = LSippConfig::new(
                task,
                &constraints,
                Default::default(),
                ReverseResumableAStar::new(
                    &transition_system,
                    task,
                    SimpleHeuristic::new(&transition_system, task.reverse()),
                ),
                1,
            );
            let before = solver.get_stats();
            let solution = solver.solve(&mut config).unwrap();
            let after = solver.get_stats();
            assert_eq!(
                *solution.costs.last().unwrap(),
                ((size - x - 1) + (size - y - 1)) as u64
            );
            assert_eq!(after.searches, before.searches + 1);
            assert_eq!(after.sipp_stats.searches, before.sipp_stats.searches + 1);
        }
    }
}

#[test]
fn test_with_landmarks() {
    let size = 10;
    let graph = simple_graph(size);
    let transition_system = SimpleWorld::new(graph);
    let constraints = ConstraintSet::default();
    let mut solver = SafeIntervalPathPlanningWithLandmarks::new(&transition_system);

    let task = Task::new(0, size * size - 1, 0);
    let mut config = LSippConfig::new(
        task,
        &constraints,
        vec![
            Constraint::new_state_constraint(0, size - 1, Interval::default()),
            Constraint::new_state_constraint(0, size * (size - 1), Interval::default()),
        ],
        ReverseResumableAStar::new(
            &transition_system,
            task,
            SimpleHeuristic::new(&transition_system, task.reverse()),
        ),
        1,
    );
    let before = solver.get_stats();
    let solution = solver.solve(&mut config).unwrap();
    let after = solver.get_stats();
    assert_eq!(*solution.costs.last().unwrap(), (4 * (size - 1)) as u64);
    assert_eq!(after.searches, before.searches + 1);
    assert_eq!(after.sipp_stats.searches, before.sipp_stats.searches + 3);
}

#[test]
fn lsipp_landmark_outside_any_reachable_interval() {
    // The landmark must be visited before the agent can get there.
    let size = 10;
    let graph = simple_graph(size);
    let world = SimpleWorld::new(graph);
    let constraints = ConstraintSet::default();
    let mut solver = SafeIntervalPathPlanningWithLandmarks::new(&world);
    let task = Task::new(0, size * size - 1, 0);
    let mut config = LSippConfig::new(
        task,
        &constraints,
        vec![Constraint::new_state_constraint(0, size - 1, Interval::new(0, 5))],
        ReverseResumableAStar::new(&world, task, SimpleHeuristic::new(&world, task.reverse())),
        1,
    );
    assert!(solver.solve(&mut config).is_none());
}

#[test]
fn lsipp_start_in_perpetually_unsafe_state() {
    let size = 4;
    let graph = simple_graph(size);
    let world = SimpleWorld::new(graph);
    let mut constraints = ConstraintSet::default();
    constraints.add(Constraint::new_state_constraint(0, 0, Interval::default()));
    let mut solver = SafeIntervalPathPlanningWithLandmarks::new(&world);
    let task = Task::new(0, size * size - 1, 0);
    let mut config = LSippConfig::new(
        task,
        &constraints,
        vec![],
        ReverseResumableAStar::new(&world, task, SimpleHeuristic::new(&world, task.reverse())),
        1,
    );
    assert!(solver.solve(&mut config).is_none());
    let mut config = LSippConfig::new(
        task,
        &constraints,
        vec![Constraint::new_state_constraint(0, 5, Interval::default())],
        config.into_heuristics().pop().unwrap(),
        1,
    );
    assert!(solver.solve(&mut config).is_none());
}

#[test]
fn lsipp_goal_must_stay_free_for_good() {
    // The goal is forbidden later on: the agent cannot stay there.
    let size = 3;
    let graph = simple_graph(size);
    let world = SimpleWorld::new(graph);
    let mut constraints = ConstraintSet::default();
    constraints.add(Constraint::new_state_constraint(0, 8, Interval::new(100, u64::MAX)));
    let mut solver = SafeIntervalPathPlanningWithLandmarks::new(&world);
    let task = Task::new(0, 8, 0);
    let mut config = LSippConfig::new(
        task,
        &constraints,
        vec![],
        ReverseResumableAStar::new(&world, task, SimpleHeuristic::new(&world, task.reverse())),
        1,
    );
    assert!(solver.solve(&mut config).is_none());
}

#[test]
fn lsipp_gives_the_same_cost_on_every_run() {
    let size = 6;
    let graph = simple_graph(size);
    let world = SimpleWorld::new(graph);
    let mut constraints = ConstraintSet::default();
    constraints.add(Constraint::new_state_constraint(0, 1, Interval::new(0, 7)));
    constraints.add(Constraint::new_state_constraint(0, 6, Interval::new(2, 3)));
    constraints.add(Constraint::new_action_constraint(0, 6, 12, Interval::new(4, 9)));
    let task = Task::new(0, size * size - 1, 0);
    let mut costs = vec![];
    let mut solver = SafeIntervalPathPlanningWithLandmarks::new(&world);
    for _ in 0..3 {
        let mut config = LSippConfig::new(
            task,
            &constraints,
            vec![Constraint::new_state_constraint(0, 12, Interval::new(0, 50))],
            ReverseResumableAStar::new(&world, task, SimpleHeuristic::new(&world, task.reverse())),
            1,
        );
        let solution = solver.solve(&mut config).unwrap();
        costs.push(solution.costs.clone());
    }
    assert_eq!(costs[0], costs[1]);
    assert_eq!(costs[1], costs[2]);
}

#[test]
fn lsipp_without_constraints_costs_the_shortest_path() {
    // A ring of six nodes with one long edge.
    let mut graph = Graph::new();
    for _ in 0..6 {
        graph.add_node();
    }
    for (a, b, cost) in [(0, 1, 2), (1, 2, 2), (2, 3, 2), (3, 4, 2), (4, 5, 2), (5, 0, 7)] {
        graph.add_edge(a, b, cost);
        graph.add_edge(b, a, cost);
    }
    let world = SimpleWorld::new(graph);
    let constraints = ConstraintSet::default();
    let mut solver = SafeIntervalPathPlanningWithLandmarks::new(&world);
    let expected = [0u64, 2, 4, 6, 8, 7];
    for goal in 0..6 {
        let task = Task::new(0, goal, 5);
        let mut config = LSippConfig::new(
            task,
            &constraints,
            vec![],
            ReverseResumableAStar::new(&world, task, SimpleHeuristic::new(&world, task.reverse())),
            1,
        );
        let solution = solver.solve(&mut config).unwrap();
        assert_eq!(*solution.costs.last().unwrap(), 5 + expected[goal]);
        assert_eq!(solution.costs[0], 5);
    }
}

#[test]
fn lsipp_visits_the_landmarks_in_their_intervals() {
    let size = 5;
    let graph = simple_graph(size);
    let world = SimpleWorld::new(graph);
    let constraints = ConstraintSet::default();
    let mut solver = SafeIntervalPathPlanningWithLandmarks::new(&world);
    let task = Task::new(0, 24, 0);
    // To arrive in 4 by 10, then in 20.
    let landmarks = vec![
        Constraint::new_state_constraint(0, 4, Interval::new(0, 10)),
        Constraint::new_state_constraint(0, 20, Interval::default()),
    ];
    let mut config = LSippConfig::new(
        task,
        &constraints,
        landmarks,
        ReverseResumableAStar::new(&world, task, SimpleHeuristic::new(&world, task.reverse())),
        1,
    );
    let solution = solver.solve(&mut config).unwrap();
    let visit = |state: usize, from: u64| {
        solution
            .states
            .iter()
            .zip(solution.costs.iter())
            .position(|(s, c)| s.internal_state == state && *c >= from)
    };
    let first = visit(4, 0).unwrap();
    assert!(solution.costs[first] <= 10);
    let second = visit(20, solution.costs[first]).unwrap();
    assert!(second >= first);
    assert_eq!(solution.states.last().unwrap().internal_state, 24);
    // 4 steps to 4, 8 more to 20, 4 more to 24.
    assert_eq!(*solution.costs.last().unwrap(), 16);
    assert_eq!(solution.states.len(), solution.actions.len() + 1);
    assert_eq!(solution.states.len(), solution.costs.len());
}

#[test]
fn lsipp_config_with_pivots_keeps_what_it_is_given() {
    let size = 3;
    let graph = simple_graph(size);
    let world = SimpleWorld::new(graph);
    let constraints = ConstraintSet::default();
    let task = Task::new(0, 8, 0);
    let other = Task::new(0, 2, 0);
    let mut config = LSippConfig::new_with_pivots(
        task,
        &constraints,
        vec![],
        vec![8, 2],
        vec![
            ReverseResumableAStar::new(&world, task, SimpleHeuristic::new(&world, task.reverse())),
            ReverseResumableAStar::new(&world, other, SimpleHeuristic::new(&world, other.reverse())),
        ],
        1,
    );
    let mut solver = SafeIntervalPathPlanningWithLandmarks::new(&world);
    let solution = solver.solve(&mut config).unwrap();
    assert_eq!(*solution.costs.last().unwrap(), 4);
    assert_eq!(config.into_heuristics().len(), 2);
    let mut stats = solver.get_stats();
    assert_eq!(stats.searches, 1);
    assert_eq!(stats.sipp_stats.searches, 1);
    stats.add_assign(solver.get_stats());
    assert_eq!(stats.searches, 2);
    assert_eq!(stats.sipp_stats.searches, 2);
}

#[test]
fn lsipp_landmark_counts_at_the_time_of_arrival() {
    // The agent arrives in 4 at the time 4, before the landmark's interval
    // begins: the landmark is not reached.
    let size = 5;
    let graph = simple_graph(size);
    let world = SimpleWorld::new(graph);
    let constraints = ConstraintSet::default();
    let mut solver = SafeIntervalPathPlanningWithLandmarks::new(&world);
    let task = Task::new(0, 24, 0);
    let mut config = LSippConfig::new(
        task,
        &constraints,
        vec![Constraint::new_state_constraint(0, 4, Interval::new(10, 20))],
        ReverseResumableAStar::new(&world, task, SimpleHeuristic::new(&world, task.reverse())),
        1,
    );
    assert!(solver.solve(&mut config).is_none());
    // A state constraint that keeps the agent out of 4 until 9 makes it
    // arrive at 10.
    let mut constraints = ConstraintSet::default();
    constraints.add(Constraint::new_state_constraint(0, 4, Interval::new(0, 9)));
    let mut config = LSippConfig::new(
        task,
        &constraints,
        vec![Constraint::new_state_constraint(0, 4, Interval::new(10, 20))],
        config.into_heuristics().pop().unwrap(),
        1,
    );
    let solution = solver.solve(&mut config).unwrap();
    assert_eq!(*solution.costs.last().unwrap(), 14);
}

#[test]
fn lsipp_takes_the_best_way_through_a_landmark() {
    // A ring of six nodes with one long edge, from 5 to 0.
    let mut graph = Graph::new();
    for _ in 0..6 {
        graph.add_node();
    }
    for (a, b, cost) in [(0, 1, 2), (1, 2, 2), (2, 3, 2), (3, 4, 2), (4, 5, 2), (5, 0, 7)] {
        graph.add_edge(a, b, cost);
        graph.add_edge(b, a, cost);
    }
    let world = SimpleWorld::new(graph);
    let task = Task::new(0, 3, 0);
    let mut solver = SafeIntervalPathPlanningWithLandmarks::new(&world);

    // Over the long edge to 5, then back to 3.
    let free = ConstraintSet::default();
    let mut config = LSippConfig::new(
        task,
        &free,
        vec![Constraint::new_state_constraint(0, 5, Interval::default())],
        ReverseResumableAStar::new(&world, task, SimpleHeuristic::new(&world, task.reverse())),
        1,
    );
    let solution = solver.solve(&mut config).unwrap();
    assert_eq!(*solution.costs.last().unwrap(), 11);

    // With 5 taken from 7 to 8 the agent leaves 0 two ticks later: this is
    // still sooner than the way round, which is in 5 at 10.
    let mut taken = ConstraintSet::default();
    taken.add(Constraint::new_state_constraint(0, 5, Interval::new(7, 8)));
    let mut config = LSippConfig::new(
        task,
        &taken,
        vec![Constraint::new_state_constraint(0, 5, Interval::default())],
        ReverseResumableAStar::new(&world, task, SimpleHeuristic::new(&world, task.reverse())),
        1,
    );
    let solution = solver.solve(&mut config).unwrap();
    assert_eq!(*solution.costs.last().unwrap(), 13);
    assert_eq!(solution.states.last().unwrap().internal_state, 3);
    assert!(solution
        .states
        .iter()
        .zip(solution.costs.iter())
        .any(|(s, c)| s.internal_state == 5 && *c == 9));
}

#[test]
fn lsipp_landmark_interval_that_begins_later_is_reached_where_the_state_becomes_free() {
    // A corridor of three nodes. The landmark 1 is to be visited from 10 on,
    // and is forbidden up to 9: the safe interval in which the agent visits
    // it begins with the interval of the landmark.
    let mut graph = Graph::new();
    for _ in 0..3 {
        graph.add_node();
    }
    for (a, b) in [(0, 1), (1, 2)] {
        graph.add_edge(a, b, 1);
        graph.add_edge(b, a, 1);
    }
    let world = SimpleWorld::new(graph);
    let mut constraints = ConstraintSet::default();
    constraints.add(Constraint::new_state_constraint(0, 1, Interval::new(0, 9)));
    let task = Task::new(0, 2, 0);
    let mut solver = SafeIntervalPathPlanningWithLandmarks::new(&world);
    let mut config = LSippConfig::new(
        task,
        &constraints,
        vec![Constraint::new_state_constraint(0, 1, Interval::new(10, 20))],
        ReverseResumableAStar::new(&world, task, SimpleHeuristic::new(&world, task.reverse())),
        1,
    );
    let before = solver.get_stats();
    let solution = solver.solve(&mut config).unwrap();
    let after = solver.get_stats();
    assert_eq!(solution.costs, vec![0, 10, 11]);
    assert_eq!(after.sipp_stats.searches, before.sipp_stats.searches + 2);
}

#[test]
fn lsipp_does_not_search_to_the_first_landmark_from_a_forbidden_start() {
    let size = 4;
    let graph = simple_graph(size);
    let world = SimpleWorld::new(graph);
    let mut constraints = ConstraintSet::default();
    constraints.add(Constraint::new_state_constraint(0, 0, Interval::new(0, 3)));
    let task = Task::new(0, 15, 0);
    let mut solver = SafeIntervalPathPlanningWithLandmarks::new(&world);
    let mut config = LSippConfig::new(
        task,
        &constraints,
        vec![
            Constraint::new_state_constraint(0, 3, Interval::default()),
            Constraint::new_state_constraint(0, 12, Interval::default()),
        ],
        ReverseResumableAStar::new(&world, task, SimpleHeuristic::new(&world, task.reverse())),
        1,
    );
    let before = solver.get_stats();
    assert!(solver.solve(&mut config).is_none());
    let after = solver.get_stats();
    assert_eq!(after.searches, before.searches + 1);
    // One search between the landmarks and one to the goal, none to the
    // first landmark.
    assert_eq!(after.sipp_stats.searches, before.sipp_stats.searches + 2);
}
