use cbs::queue::PriorityQueue;
use cbs::search::combine_bound;
use cbs::{
    DifferentialHeuristic, Graph, Heuristic, ReverseResumableAStar, SearchNode, SimpleHeuristic,
    SimpleWorld, SippState, Solution, Task, TransitionSystem,
};

fn line(n: usize, cost: u64) -> Graph {
    let mut graph = Graph::new();
    for _ in 0..n {
        graph.add_node();
    }
    for i in 0..n - 1 {
        graph.add_edge(i, i + 1, cost);
        graph.add_edge(i + 1, i, cost);
    }
    graph
}

#[test]
fn solution_default_is_empty() {
    let s: Solution<SippState> = Solution::default();
    assert!(s.states.is_empty());
    assert!(s.costs.is_empty());
    assert!(s.actions.is_empty());
}

#[test]
fn search_nodes_are_ordered_by_sum_then_by_larger_cost() {
    let a = SearchNode { state: 0usize, cost: 3, heuristic: 4 };
    let b = SearchNode { state: 1usize, cost: 5, heuristic: 2 };
    let c = SearchNode { state: 2usize, cost: 1, heuristic: 7 };
    assert!(a == b);
    assert!(a != c);
    assert!(b < a);
    assert!(a > b);
    assert!(a < c);
    assert!(b < c);
    assert!(b.precedes_exec(&a));
    assert!(!a.precedes_exec(&b));
    assert_eq!(a.f_value(), 7);
    let big = SearchNode { state: 0usize, cost: u64::MAX, heuristic: u64::MAX };
    assert_eq!(big.f_value(), 2 * (u64::MAX as u128));
    assert!(a < big);
}

#[test]
fn queue_gives_nodes_in_their_order() {
    let mut queue: PriorityQueue<usize> = PriorityQueue::new();
    assert!(queue.pop().is_none());
    let entries = [(5u64, 5u64), (1, 2), (9, 0), (2, 1), (0, 3), (4, 4), (7, 3), (3, 0)];
    for (i, (cost, heuristic)) in entries.iter().enumerate() {
        queue.push(SearchNode { state: i, cost: *cost, heuristic: *heuristic });
    }
    assert_eq!(queue.len(), 8);
    let mut order = vec![];
    while let Some(node) = queue.pop() {
        order.push((node.cost + node.heuristic, node.cost, node.state));
    }
    assert_eq!(
        order,
        vec![
            (3, 3, 7),
            (3, 2, 3),
            (3, 1, 1),
            (3, 0, 4),
            (8, 4, 5),
            (9, 9, 2),
            (10, 7, 6),
            (10, 5, 0)
        ]
    );
    assert_eq!(queue.len(), 0);
    queue.push(SearchNode { state: 0, cost: 1, heuristic: 1 });
    queue.clear();
    assert!(queue.pop().is_none());
}

#[test]
fn combine_bound_takes_the_greater() {
    assert_eq!(combine_bound(3, true, Some(5), None), 5);
    assert_eq!(combine_bound(7, true, Some(5), None), 7);
    assert_eq!(combine_bound(3, true, None, Some(9)), 3);
    assert_eq!(combine_bound(0, false, Some(5), Some(9)), 4);
    assert_eq!(combine_bound(0, false, Some(9), Some(5)), 4);
    assert_eq!(combine_bound(6, false, Some(9), Some(5)), 6);
    assert_eq!(combine_bound(2, false, Some(9), None), 2);
    assert_eq!(combine_bound(2, false, None, Some(9)), 2);
}

#[test]
fn simple_heuristic_is_zero() {
    let world = SimpleWorld::new(line(3, 1));
    let mut h = SimpleHeuristic::new(&world, Task::new(0, 2, 0));
    assert_eq!(h.get_heuristic(0), Some(0));
    assert_eq!(h.get_heuristic(17), Some(0));
}

#[test]
fn reverse_search_gives_the_distance_to_the_goal() {
    let world = SimpleWorld::new(line(6, 3));
    let task = Task::new(0, 4, 0);
    let mut rra = ReverseResumableAStar::new(&world, task, SimpleHeuristic::new(&world, task.reverse()));
    assert_eq!(rra.get_heuristic(4), Some(0));
    assert_eq!(rra.get_heuristic(2), Some(6));
    // What is closed stays as it is.
    assert_eq!(rra.get_heuristic(3), Some(3));
    assert_eq!(rra.get_heuristic(2), Some(6));
    assert_eq!(rra.get_heuristic(5), Some(3));
    assert_eq!(rra.get_heuristic(0), Some(12));
    // No such state.
    assert_eq!(rra.get_heuristic(6), None);
}

#[test]
fn reverse_search_finds_no_way_against_one_way_edges() {
    let mut graph = Graph::new();
    for _ in 0..3 {
        graph.add_node();
    }
    graph.add_edge(0, 1, 1);
    graph.add_edge(2, 1, 5);
    let world = SimpleWorld::new(graph);
    let task = Task::new(0, 1, 0);
    let mut rra = ReverseResumableAStar::new(&world, task, SimpleHeuristic::new(&world, task.reverse()));
    assert_eq!(rra.get_heuristic(0), Some(1));
    assert_eq!(rra.get_heuristic(2), Some(5));
    let back = Task::new(1, 0, 0);
    let mut rra = ReverseResumableAStar::new(&world, back, SimpleHeuristic::new(&world, back.reverse()));
    assert_eq!(rra.get_heuristic(1), None);
    assert_eq!(rra.get_heuristic(0), Some(0));
}

#[test]
fn differential_heuristic_of_the_goal_pivot_is_the_distance() {
    let world = SimpleWorld::new(line(10, 1));
    let task = Task::new(0, 7, 0);
    let rra = ReverseResumableAStar::new(&world, task, SimpleHeuristic::new(&world, task.reverse()));
    let mut h = DifferentialHeuristic::new(task, vec![7], vec![rra]);
    assert_eq!(h.get_heuristic(0), Some(7));
    assert_eq!(h.get_heuristic(9), Some(2));
    assert_eq!(h.get_heuristic(7), Some(0));
    let (pivots, heuristics) = h.into_parts();
    assert_eq!(pivots, vec![7]);
    assert_eq!(heuristics.len(), 1);
}

#[test]
fn differential_heuristic_of_another_pivot_is_the_difference() {
    let world = SimpleWorld::new(line(10, 1));
    // The pivot is the state 9; the task goes to 4.
    let to_pivot = Task::new(0, 9, 0);
    let rra = ReverseResumableAStar::new(
        &world,
        to_pivot,
        SimpleHeuristic::new(&world, to_pivot.reverse()),
    );
    let task = Task::new(0, 4, 0);
    let mut h = DifferentialHeuristic::new(task, vec![9], vec![rra]);
    // |d(0, 9) - d(4, 9)| = |9 - 5| = 4, |d(6, 9) - d(4, 9)| = |3 - 5| = 2.
    assert_eq!(h.get_heuristic(0), Some(4));
    assert_eq!(h.get_heuristic(6), Some(2));
    assert_eq!(h.get_heuristic(4), Some(0));
}

#[test]
fn differential_heuristic_takes_the_greatest_bound() {
    let world = SimpleWorld::new(line(10, 1));
    let task = Task::new(0, 4, 0);
    let a = Task::new(0, 9, 0);
    let b = Task::new(0, 4, 0);
    let heuristics = vec![
        ReverseResumableAStar::new(&world, a, SimpleHeuristic::new(&world, a.reverse())),
        ReverseResumableAStar::new(&world, b, SimpleHeuristic::new(&world, b.reverse())),
    ];
    let mut h = DifferentialHeuristic::new(task, vec![9, 4], heuristics);
    assert_eq!(h.get_heuristic(8), Some(4));
    assert_eq!(h.get_heuristic(0), Some(4));
    // Without pivots the bound is zero.
    let none: Vec<SimpleHeuristic> = vec![];
    let mut h = DifferentialHeuristic::new(task, vec![], none);
    assert_eq!(h.get_heuristic(8), Some(0));
}

#[test]
fn graph_numbers_nodes_and_edges_as_they_come() {
    let mut graph = Graph::new();
    assert_eq!(graph.num_nodes(), 0);
    assert_eq!(graph.add_node(), 0);
    assert_eq!(graph.add_node(), 1);
    assert_eq!(graph.add_node(), 2);
    assert_eq!(graph.add_edge(0, 1, 4), 0);
    assert_eq!(graph.add_edge(1, 2, 5), 1);
    assert_eq!(graph.add_edge(0, 2, 9), 2);
    assert_eq!(graph.num_nodes(), 3);
    assert_eq!(graph.num_edges(), 3);
    let e = graph.get_edge(1);
    assert_eq!((e.from, e.to, e.cost), (1, 2, 5));
    let world = SimpleWorld::new(graph);
    assert_eq!(world.num_states(), 3);
    assert_eq!(world.actions_from(0), vec![0, 2]);
    assert_eq!(world.actions_from(2), Vec::<usize>::new());
    assert_eq!(world.transition(0, &2), 2);
    assert_eq!(world.transition_cost(0, &2), 9);
    assert_eq!(world.reverse_actions_from(2), vec![1, 2]);
    assert_eq!(world.reverse_transition(2, &1), 1);
    assert_eq!(world.reverse_transition_cost(2, &1), 5);
}

#[test]
fn task_knows_its_goal_and_its_reverse() {
    let task = Task::new(3, 8, 11);
    assert!(task.is_goal_state(8));
    assert!(!task.is_goal_state(3));
    let back = task.reverse();
    assert_eq!((back.initial_state, back.goal_state, back.initial_cost), (8, 3, 11));
}

#[test]
fn differential_heuristic_has_no_bound_where_the_goal_is_out_of_reach() {
    // Two nodes without an edge between them.
    let mut graph = Graph::new();
    graph.add_node();
    graph.add_node();
    let world = SimpleWorld::new(graph);
    let task = Task::new(0, 1, 0);
    let rra = ReverseResumableAStar::new(&world, task, SimpleHeuristic::new(&world, task.reverse()));
    let mut h = DifferentialHeuristic::new(task, vec![1], vec![rra]);
    assert_eq!(h.get_heuristic(0), None);
    assert_eq!(h.get_heuristic(1), Some(0));
}

#[test]
fn differential_heuristic_follows_the_pivot_that_is_the_goal() {
    // One-way edges: from 0 to the goal 1 and to the pivot 2 in one tick,
    // from the goal to the pivot in ten.
    let mut graph = Graph::new();
    for _ in 0..3 {
        graph.add_node();
    }
    graph.add_edge(0, 1, 1);
    graph.add_edge(0, 2, 1);
    graph.add_edge(1, 2, 10);
    let world = SimpleWorld::new(graph);
    let task = Task::new(0, 1, 0);
    let to_pivot = Task::new(0, 2, 0);
    let heuristics = vec![
        ReverseResumableAStar::new(&world, task, SimpleHeuristic::new(&world, task.reverse())),
        ReverseResumableAStar::new(&world, to_pivot, SimpleHeuristic::new(&world, to_pivot.reverse())),
    ];
    let mut h = DifferentialHeuristic::new(task, vec![1, 2], heuristics);
    assert_eq!(h.get_heuristic(0), Some(1));
    // Without a pivot that is the goal the difference counts.
    let other = vec![
        ReverseResumableAStar::new(&world, to_pivot, SimpleHeuristic::new(&world, to_pivot.reverse())),
    ];
    let mut h = DifferentialHeuristic::new(task, vec![2], other);
    assert_eq!(h.get_heuristic(0), Some(9));
}
