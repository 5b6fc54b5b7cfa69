use cbs::collision::{detect_all, detect_pair, get_moves, resolving_constraint, sort_conflicts};
use cbs::{
    Conflict, ConflictType, ConstraintType, Graph, Interval, Move, SimpleWorld, SippState, Solution,
};

fn step(agent: usize, from: usize, to: usize, start: u64, end: u64) -> Move {
    Move::new(agent, from, to, Some(from * 100 + to), Interval::new(start, end))
}

fn stay(agent: usize, at: usize, time: u64) -> Move {
    Move::new(agent, at, at, None, Interval::new(time, time))
}

#[test]
fn conflict_types_come_in_the_order_of_their_urgency() {
    assert!(ConflictType::Frozen < ConflictType::Cardinal);
    assert!(ConflictType::Cardinal < ConflictType::SemiCardinal);
    assert!(ConflictType::SemiCardinal < ConflictType::NonCardinal);
    assert_eq!(ConflictType::Frozen.rank_of(), 0);
    assert_eq!(ConflictType::NonCardinal.rank_of(), 3);
}

#[test]
fn conflict_holds_its_two_moves_in_their_order() {
    let a = step(0, 1, 2, 5, 6);
    let b = step(1, 2, 1, 4, 7);
    let c = Conflict::new(tuple::T2(a, b), ConflictType::Cardinal);
    assert_eq!(c.moves.0, a);
    assert_eq!(c.moves.1, b);
    assert_eq!(c.first_move(), a);
    assert_eq!(c.second_move(), b);
    assert_eq!(c.earliest_start(), 4);
    let d = Conflict::between(b, a, ConflictType::NonCardinal);
    assert_eq!(d.moves.0, b);
    assert_eq!(d.moves.1, a);
    assert_eq!(d.first_move(), b);
    assert_eq!(d.second_move(), a);
    let e = d.duplicate();
    assert_eq!(e.first_move(), b);
    assert_eq!(e.second_move(), a);
    assert_eq!(e.type_, ConflictType::NonCardinal);
}

#[test]
fn conflicts_are_ordered_by_type_then_by_time() {
    let early = Conflict::between(step(0, 1, 2, 1, 2), step(1, 2, 1, 1, 2), ConflictType::NonCardinal);
    let late = Conflict::between(step(0, 1, 2, 8, 9), step(1, 2, 1, 7, 9), ConflictType::Cardinal);
    let later = Conflict::between(step(0, 1, 2, 9, 10), step(1, 2, 1, 9, 10), ConflictType::Cardinal);
    let same = Conflict::between(step(2, 5, 6, 7, 8), step(3, 6, 5, 20, 21), ConflictType::Cardinal);
    assert!(late < early);
    assert!(late < later);
    assert!(later > late);
    assert!(late == same);
    assert!(late != later);
    assert_eq!(late.partial_cmp(&same), Some(std::cmp::Ordering::Equal));
    let sorted = sort_conflicts(&vec![early, later, late]);
    let keys: Vec<(ConflictType, u64)> = sorted.iter().map(|c| (c.type_, c.earliest_start())).collect();
    assert_eq!(
        keys,
        vec![
            (ConflictType::Cardinal, 7),
            (ConflictType::Cardinal, 9),
            (ConflictType::NonCardinal, 1)
        ]
    );
}

#[test]
fn moves_of_a_plan_begin_with_the_initial_state() {
    let mut graph = Graph::new();
    for _ in 0..3 {
        graph.add_node();
    }
    graph.add_edge(0, 1, 2);
    graph.add_edge(1, 2, 3);
    let world = SimpleWorld::new(graph);
    let whole = Interval::default();
    let plan = Solution {
        states: vec![
            SippState { safe_interval: whole, internal_state: 0 },
            SippState { safe_interval: whole, internal_state: 1 },
            SippState { safe_interval: whole, internal_state: 2 },
        ],
        costs: vec![4, 6, 12],
        actions: vec![0, 1],
    };
    let moves = get_moves(&world, 7, &plan);
    assert_eq!(
        moves,
        vec![
            Move::new(7, 0, 0, None, Interval::new(4, 4)),
            Move::new(7, 0, 1, Some(0), Interval::new(4, 6)),
            // The agent has waited in 1 from 6 to 9.
            Move::new(7, 1, 2, Some(1), Interval::new(9, 12)),
        ]
    );
}

#[test]
fn agents_that_swap_states_collide() {
    let a = vec![stay(0, 1, 0), step(0, 1, 2, 0, 1)];
    let b = vec![stay(1, 2, 0), step(1, 2, 1, 0, 1)];
    let mut found = vec![];
    detect_pair(&a, &b, &mut found);
    assert_eq!(found.len(), 1);
    assert_eq!(found[0].first_move(), a[1]);
    assert_eq!(found[0].second_move(), b[1]);
    assert_eq!(found[0].type_, ConflictType::NonCardinal);
}

#[test]
fn agents_that_meet_in_a_state_collide() {
    // The one arrives in 5 at 3 and stays; the other passes through 5 at 7.
    let a = vec![stay(0, 4, 0), step(0, 4, 5, 2, 3)];
    let b = vec![stay(1, 6, 0), step(1, 6, 5, 6, 7), step(1, 5, 8, 7, 8)];
    let mut found = vec![];
    detect_pair(&a, &b, &mut found);
    assert_eq!(found.len(), 1);
    assert_eq!(found[0].first_move(), a[1]);
    assert_eq!(found[0].second_move(), b[1]);
}

#[test]
fn agents_that_pass_one_after_the_other_do_not_collide() {
    // The one leaves 5 at 4; the other arrives there at 5.
    let a = vec![stay(0, 4, 0), step(0, 4, 5, 2, 3), step(0, 5, 9, 4, 5)];
    let b = vec![stay(1, 6, 0), step(1, 6, 5, 4, 5), step(1, 5, 8, 5, 6)];
    let mut found = vec![];
    detect_pair(&a, &b, &mut found);
    assert!(found.is_empty());
    assert!(detect_all(&vec![a, b]).is_empty());
}

#[test]
fn an_agent_that_waits_in_its_initial_state_is_in_the_way() {
    let a = vec![stay(0, 5, 0), step(0, 5, 9, 10, 11)];
    let b = vec![stay(1, 6, 0), step(1, 6, 5, 3, 4), step(1, 5, 8, 4, 5)];
    let mut found = vec![];
    detect_pair(&a, &b, &mut found);
    assert_eq!(found.len(), 1);
    assert_eq!(found[0].first_move(), a[0]);
    assert_eq!(found[0].second_move(), b[1]);
}

#[test]
fn all_pairs_of_agents_are_looked_at() {
    let a = vec![stay(0, 1, 0), step(0, 1, 2, 0, 1)];
    let b = vec![stay(1, 7, 0)];
    let c = vec![stay(2, 2, 0), step(2, 2, 1, 0, 1)];
    let found = detect_all(&vec![a.clone(), b, c.clone()]);
    assert_eq!(found.len(), 1);
    assert_eq!(found[0].first_move(), a[1]);
    assert_eq!(found[0].second_move(), c[1]);
}

#[test]
fn a_swap_is_resolved_by_an_action_constraint() {
    let mine = step(3, 1, 2, 5, 6);
    let other = step(4, 2, 1, 6, 7);
    let c = resolving_constraint(&mine, &other, 2);
    assert_eq!(c.agent, 3);
    assert_eq!(c.type_, ConstraintType::Action);
    assert_eq!(c.state, 1);
    assert_eq!(c.next, Some(2));
    assert_eq!(c.interval, Interval::new(5, 5));
}

#[test]
fn a_meeting_is_resolved_by_a_state_constraint() {
    let mine = step(3, 1, 2, 5, 6);
    let other = step(4, 7, 2, 1, 2);
    let c = resolving_constraint(&mine, &other, 2);
    assert_eq!(c.agent, 3);
    assert_eq!(c.type_, ConstraintType::State);
    assert_eq!(c.state, 2);
    assert_eq!(c.next, None);
    assert_eq!(c.interval, Interval::new(4, 8));
    let c = resolving_constraint(&mine, &other, 10);
    assert_eq!(c.interval, Interval::new(0, 16));
    let c = resolving_constraint(&step(3, 1, 2, 5, u64::MAX - 1), &other, 10);
    assert_eq!(c.interval, Interval::new(u64::MAX - 11, u64::MAX));
    let c = resolving_constraint(&mine, &other, 0);
    assert_eq!(c.interval, Interval::new(6, 6));
}
