//! The moves that a plan is made of, the collisions between the moves of
//! two agents, and the conflicts that stand for them.

use vstd::prelude::*;
use crate::conflict::{Conflict, ConflictType};
use crate::constraint::{Constraint, ConstraintType};
use crate::plans::connected_plan;
use crate::search::Solution;
use crate::sipp::SippState;
use crate::time::{Duration, Interval, Time};
use crate::transition::{Action, Move, State, TransitionSystem};

verus! {

/// The move with the number `k` of the plan of `agent`. The first move puts
/// the agent into its initial state; each further move takes one action.
pub open spec fn plan_move<TS: TransitionSystem>(
    ts: &TS,
    agent: usize,
    plan: Solution<SippState>,
    k: int,
) -> Move {
    if k == 0 {
        Move {
            agent,
            from: plan.states@[0].internal_state,
            to: plan.states@[0].internal_state,
            action: None,
            interval: Interval { start: plan.costs@[0], end: plan.costs@[0] },
        }
    } else {
        Move {
            agent,
            from: plan.states@[k - 1].internal_state,
            to: plan.states@[k].internal_state,
            action: Some(plan.actions@[k - 1]),
            interval: Interval {
                start: (plan.costs@[k] - ts.cost(
                    plan.states@[k - 1].internal_state,
                    plan.actions@[k - 1],
                )) as u64,
                end: plan.costs@[k],
            },
        }
    }
}

/// The moves of the plan of `agent`, one for each state of the plan.
pub open spec fn plan_moves<TS: TransitionSystem>(ts: &TS, agent: usize, plan: Solution<SippState>) -> Seq<
    Move,
> {
    Seq::new(plan.states@.len(), |k: int| plan_move(ts, agent, plan, k))
}

/// The time until which the agent stays where the move `k` has taken it:
/// the time at which the next move begins, or the end of time after the last
/// move.
pub open spec fn stays_until(moves: Seq<Move>, k: int) -> int {
    if k + 1 < moves.len() {
        moves[k + 1].interval.start as int
    } else {
        u64::MAX as int
    }
}

/// Whether the two moves take their agents along the same edge in opposite
/// directions at overlapping times.
pub open spec fn swap(a: Move, b: Move) -> bool {
    &&& a.action.is_some()
    &&& b.action.is_some()
    &&& a.from == b.to
    &&& a.to == b.from
    &&& a.interval.start <= b.interval.end
    &&& b.interval.start <= a.interval.end
}

/// Whether the two moves take their agents to the same state, where the one
/// still is when the other arrives.
pub open spec fn meet(a: Move, a_until: int, b: Move, b_until: int) -> bool {
    &&& a.to == b.to
    &&& a.interval.end <= b_until
    &&& b.interval.end <= a_until
}

/// Whether the move `k` of the one agent collides with the move `l` of the
/// other.
pub open spec fn collides(a: Seq<Move>, k: int, b: Seq<Move>, l: int) -> bool {
    swap(a[k], b[l]) || meet(a[k], stays_until(a, k), b[l], stays_until(b, l))
}

/// Whether some move of the one agent collides with some move of the other.
pub open spec fn plans_collide(a: Seq<Move>, b: Seq<Move>) -> bool {
    exists|k: int, l: int| 0 <= k < a.len() && 0 <= l < b.len() && #[trigger] collides(a, k, b, l)
}

/// Whether `conflict` is between two colliding moves of the two agents.
pub open spec fn reports(conflict: Conflict, a: Seq<Move>, b: Seq<Move>) -> bool {
    exists|k: int, l: int|
        0 <= k < a.len() && 0 <= l < b.len() && #[trigger] collides(a, k, b, l) && conflict.first()
            == a[k] && conflict.second() == b[l]
}

/// Whether one of the conflicts is between the moves `x` and `y`.
pub open spec fn reported(conflicts: Seq<Conflict>, x: Move, y: Move) -> bool {
    exists|q: int|
        0 <= q < conflicts.len() && (#[trigger] conflicts[q]).first() == x && conflicts[q].second()
            == y
}

/// The moves of the plan of `agent`.
pub fn get_moves<TS: TransitionSystem>(ts: &TS, agent: usize, plan: &Solution<SippState>) -> (r: Vec<
    Move,
>)
    requires
        ts.wf(),
        connected_plan(ts, plan.states@, plan.costs@, plan.actions@),
    ensures
        r@ == plan_moves(ts, agent, *plan),
{
    let mut moves: Vec<Move> = Vec::new();
    let start: State = plan.states[0].internal_state;
    let time: Time = plan.costs[0];
    moves.push(
        Move { agent, from: start, to: start, action: None, interval: Interval { start: time, end: time } },
    );
    let mut k: usize = 1;
    while k < plan.states.len()
        invariant
            1 <= k <= plan.states.len(),
            ts.wf(),
            connected_plan(ts, plan.states@, plan.costs@, plan.actions@),
            moves.len() == k,
            forall|q: int| 0 <= q < k ==> (#[trigger] moves[q]) == plan_move(ts, agent, *plan, q),
        decreases plan.states.len() - k,
    {
        let from: State = plan.states[k - 1].internal_state;
        let action: Action = plan.actions[k - 1];
        proof {
            assert(ts.actions(from).contains(plan.actions@[k - 1]));
        }
        let cost: Duration = ts.transition_cost(from, &action);
        moves.push(
            Move {
                agent,
                from,
                to: plan.states[k].internal_state,
                action: Some(action),
                interval: Interval { start: plan.costs[k] - cost, end: plan.costs[k] },
            },
        );
        k += 1;
    }
    proof {
        assert(moves@ =~= plan_moves(ts, agent, *plan));
    }
    moves
}

/// Finds the collisions between the moves of two agents and adds a conflict
/// for each to `found`.
pub fn detect_pair(a: &Vec<Move>, b: &Vec<Move>, found: &mut Vec<Conflict>)
    ensures
        final(found)@.len() >= old(found)@.len(),
        forall|q: int| 0 <= q < old(found)@.len() ==> (#[trigger] final(found)@[q]) == old(found)@[q],
        forall|q: int|
            old(found)@.len() <= q < final(found)@.len() ==> reports(#[trigger] final(found)@[q], a@, b@),
        forall|k: int, l: int|
            0 <= k < a@.len() && 0 <= l < b@.len() && #[trigger] collides(a@, k, b@, l) ==> reported(
                final(found)@,
                a@[k],
                b@[l],
            ),
        plans_collide(a@, b@) <==> final(found)@.len() > old(found)@.len(),
{
    let mut k: usize = 0;
    while k < a.len()
        invariant
            k <= a.len(),
            found@.len() >= old(found)@.len(),
            forall|q: int| 0 <= q < old(found)@.len() ==> (#[trigger] found@[q]) == old(found)@[q],
            forall|q: int| old(found)@.len() <= q < found@.len() ==> reports(#[trigger] found@[q], a@, b@),
            forall|i: int, l: int|
                0 <= i < k && 0 <= l < b@.len() && #[trigger] collides(a@, i, b@, l) ==> reported(
                    found@,
                    a@[i],
                    b@[l],
                ) && found@.len() > old(found)@.len(),
        decreases a.len() - k,
    {
        let x: Move = a[k];
        let x_until: Time = if k + 1 < a.len() {
            a[k + 1].interval.start
        } else {
            u64::MAX
        };
        let mut l: usize = 0;
        while l < b.len()
            invariant
                l <= b.len(),
                k < a.len(),
                x == a@[k as int],
                x_until == stays_until(a@, k as int),
                found@.len() >= old(found)@.len(),
                forall|q: int| 0 <= q < old(found)@.len() ==> (#[trigger] found@[q]) == old(found)@[q],
                forall|q: int|
                    old(found)@.len() <= q < found@.len() ==> reports(#[trigger] found@[q], a@, b@),
                forall|i: int, j: int|
                    0 <= i < k && 0 <= j < b@.len() && #[trigger] collides(a@, i, b@, j) ==> reported(
                        found@,
                        a@[i],
                        b@[j],
                    ) && found@.len() > old(found)@.len(),
                forall|j: int|
                    0 <= j < l && #[trigger] collides(a@, k as int, b@, j) ==> reported(
                        found@,
                        a@[k as int],
                        b@[j],
                    ) && found@.len() > old(found)@.len(),
            decreases b.len() - l,
        {
            let y: Move = b[l];
            let y_until: Time = if l + 1 < b.len() {
                b[l + 1].interval.start
            } else {
                u64::MAX
            };
            let swapping: bool = x.action.is_some() && y.action.is_some() && x.from == y.to && x.to
                == y.from && x.interval.start <= y.interval.end && y.interval.start <= x.interval.end;
            let meeting: bool = x.to == y.to && x.interval.end <= y_until && y.interval.end <= x_until;
            if swapping || meeting {
                let ghost before = found@;
                let conflict = Conflict::between(x, y, ConflictType::NonCardinal);
                found.push(conflict);
                proof {
                    assert(collides(a@, k as int, b@, l as int));
                    assert(reports(conflict, a@, b@));
                    assert(found@[before.len() as int] == conflict);
                    assert forall|i: int, j: int|
                        0 <= i < k && 0 <= j < b@.len() && #[trigger] collides(
                            a@,
                            i,
                            b@,
                            j,
                        ) implies reported(found@, a@[i], b@[j]) by {
                        assert(reported(before, a@[i], b@[j]));
                        let q = choose|q: int|
                            0 <= q < before.len() && (#[trigger] before[q]).first() == a@[i]
                                && before[q].second() == b@[j];
                        assert(found@[q] == before[q]);
                    }
                    assert forall|j: int|
                        0 <= j < l + 1 && #[trigger] collides(a@, k as int, b@, j) implies reported(
                        found@,
                        a@[k as int],
                        b@[j],
                    ) by {
                        if j < l {
                            assert(reported(before, a@[k as int], b@[j]));
                            let q = choose|q: int|
                                0 <= q < before.len() && (#[trigger] before[q]).first() == a@[k as int]
                                    && before[q].second() == b@[j];
                            assert(found@[q] == before[q]);
                        }
                    }
                }
            }
            l += 1;
        }
        k += 1;
    }
    proof {
        if plans_collide(a@, b@) {
            let (k, l) = choose|k: int, l: int|
                0 <= k < a@.len() && 0 <= l < b@.len() && #[trigger] collides(a@, k, b@, l);
            assert(reported(found@, a@[k], b@[l]));
        }
        if found@.len() > old(found)@.len() {
            assert(reports(found@[old(found)@.len() as int], a@, b@));
        }
    }
}

/// Whether `conflict` is between colliding moves of two of the agents.
pub open spec fn reports_any(conflict: Conflict, moves: Seq<Seq<Move>>) -> bool {
    exists|i: int, j: int| 0 <= i < j < moves.len() && #[trigger] reports(conflict, moves[i], moves[j])
}

/// Whether the conflicts are those between the moves of the agents: each is
/// between two colliding moves, and each collision has its conflict.
pub open spec fn conflicts_match(conflicts: Seq<Conflict>, moves: Seq<Seq<Move>>) -> bool {
    &&& forall|q: int| 0 <= q < conflicts.len() ==> reports_any(#[trigger] conflicts[q], moves)
    &&& forall|i: int, j: int, k: int, l: int|
        0 <= i < j < moves.len() && 0 <= k < moves[i].len() && 0 <= l < moves[j].len()
            && #[trigger] collides(moves[i], k, moves[j], l) ==> reported(
            conflicts,
            moves[i][k],
            moves[j][l],
        )
}

/// Whether no move of any agent collides with a move of another.
pub open spec fn collision_free(moves: Seq<Seq<Move>>) -> bool {
    forall|i: int, j: int| 0 <= i < j < moves.len() ==> !#[trigger] plans_collide(moves[i], moves[j])
}

/// The moves are free of collisions if and only if there is no conflict
/// between them.
pub proof fn lemma_no_conflicts(conflicts: Seq<Conflict>, moves: Seq<Seq<Move>>)
    requires
        conflicts_match(conflicts, moves),
    ensures
        conflicts.len() == 0 <==> collision_free(moves),
{
    if conflicts.len() == 0 {
        assert forall|i: int, j: int| 0 <= i < j < moves.len() implies !#[trigger] plans_collide(
            moves[i],
            moves[j],
        ) by {
            if plans_collide(moves[i], moves[j]) {
                let (k, l) = choose|k: int, l: int|
                    0 <= k < moves[i].len() && 0 <= l < moves[j].len() && #[trigger] collides(
                        moves[i],
                        k,
                        moves[j],
                        l,
                    );
                assert(reported(conflicts, moves[i][k], moves[j][l]));
            }
        }
    } else {
        assert(reports_any(conflicts[0], moves));
        let (i, j) = choose|i: int, j: int|
            0 <= i < j < moves.len() && #[trigger] reports(conflicts[0], moves[i], moves[j]);
        assert(plans_collide(moves[i], moves[j]));
    }
}

/// Whether the two lists hold conflicts between the same moves, one for
/// one.
pub open spec fn same_moves(a: Seq<Conflict>, b: Seq<Conflict>) -> bool {
    &&& a.len() == b.len()
    &&& forall|q: int|
        0 <= q < a.len() ==> (#[trigger] a[q]).first() == b[q].first() && a[q].second() == b[q].second()
}

/// Whether the two lists hold the same conflicts, in whatever order.
pub open spec fn same_members(a: Seq<Conflict>, b: Seq<Conflict>) -> bool {
    &&& a.len() == b.len()
    &&& forall|q: int| 0 <= q < a.len() ==> b.contains(#[trigger] a[q])
    &&& forall|q: int| 0 <= q < b.len() ==> a.contains(#[trigger] b[q])
}

/// What a list of conflicts matches, a list of conflicts between the same
/// moves matches too.
pub proof fn lemma_match_same_moves(a: Seq<Conflict>, b: Seq<Conflict>, moves: Seq<Seq<Move>>)
    requires
        conflicts_match(a, moves),
        same_moves(a, b),
    ensures
        conflicts_match(b, moves),
{
    assert forall|q: int| 0 <= q < b.len() implies reports_any(#[trigger] b[q], moves) by {
        assert(reports_any(a[q], moves));
        let (i, j) = choose|i: int, j: int|
            0 <= i < j < moves.len() && #[trigger] reports(a[q], moves[i], moves[j]);
        assert(reports(b[q], moves[i], moves[j]));
    }
    assert forall|i: int, j: int, k: int, l: int|
        0 <= i < j < moves.len() && 0 <= k < moves[i].len() && 0 <= l < moves[j].len()
            && #[trigger] collides(moves[i], k, moves[j], l) implies reported(
        b,
        moves[i][k],
        moves[j][l],
    ) by {
        assert(reported(a, moves[i][k], moves[j][l]));
        let q = choose|q: int|
            0 <= q < a.len() && (#[trigger] a[q]).first() == moves[i][k] && a[q].second()
                == moves[j][l];
        assert(b[q].first() == moves[i][k]);
    }
}

/// What a list of conflicts matches, a list of the same conflicts in
/// another order matches too.
pub proof fn lemma_match_same_members(a: Seq<Conflict>, b: Seq<Conflict>, moves: Seq<Seq<Move>>)
    requires
        conflicts_match(a, moves),
        same_members(a, b),
    ensures
        conflicts_match(b, moves),
{
    assert forall|q: int| 0 <= q < b.len() implies reports_any(#[trigger] b[q], moves) by {
        assert(a.contains(b[q]));
        let p = choose|p: int| 0 <= p < a.len() && a[p] == b[q];
        assert(reports_any(a[p], moves));
    }
    assert forall|i: int, j: int, k: int, l: int|
        0 <= i < j < moves.len() && 0 <= k < moves[i].len() && 0 <= l < moves[j].len()
            && #[trigger] collides(moves[i], k, moves[j], l) implies reported(
        b,
        moves[i][k],
        moves[j][l],
    ) by {
        assert(reported(a, moves[i][k], moves[j][l]));
        let q = choose|q: int|
            0 <= q < a.len() && (#[trigger] a[q]).first() == moves[i][k] && a[q].second()
                == moves[j][l];
        assert(b.contains(a[q]));
        let p = choose|p: int| 0 <= p < b.len() && b[p] == a[q];
        assert(b[p].first() == moves[i][k]);
    }
}

/// The moves that the vectors hold.
pub open spec fn deep(moves: Seq<Vec<Move>>) -> Seq<Seq<Move>> {
    Seq::new(moves.len(), |i: int| moves[i]@)
}

/// The conflicts between the moves of all agents, each of the last kind.
pub fn detect_all(moves: &Vec<Vec<Move>>) -> (found: Vec<Conflict>)
    ensures
        conflicts_match(found@, deep(moves@)),
{
    let mut found: Vec<Conflict> = Vec::new();
    let ghost all = deep(moves@);
    let n: usize = moves.len();
    let mut i: usize = 0;
    while i < n
        invariant
            i <= n,
            n == moves@.len(),
            all == deep(moves@),
            forall|q: int| 0 <= q < found@.len() ==> reports_any(#[trigger] found@[q], all),
            forall|a: int, b: int, k: int, l: int|
                0 <= a < i && a < b < n && 0 <= k < all[a].len() && 0 <= l < all[b].len()
                    && #[trigger] collides(all[a], k, all[b], l) ==> reported(
                    found@,
                    all[a][k],
                    all[b][l],
                ),
        decreases n - i,
    {
        let mut j: usize = i + 1;
        while j < n
            invariant
                i < j <= n,
                n == moves@.len(),
                all == deep(moves@),
                forall|q: int| 0 <= q < found@.len() ==> reports_any(#[trigger] found@[q], all),
                forall|a: int, b: int, k: int, l: int|
                    0 <= a < i && a < b < n && 0 <= k < all[a].len() && 0 <= l < all[b].len()
                        && #[trigger] collides(all[a], k, all[b], l) ==> reported(
                        found@,
                        all[a][k],
                        all[b][l],
                    ),
                forall|b: int, k: int, l: int|
                    i < b < j && 0 <= k < all[i as int].len() && 0 <= l < all[b].len()
                        && #[trigger] collides(all[i as int], k, all[b], l) ==> reported(
                        found@,
                        all[i as int][k],
                        all[b][l],
                    ),
            decreases n - j,
        {
            let ghost before = found@;
            detect_pair(&moves[i], &moves[j], &mut found);
            proof {
                assert(all[i as int] == moves@[i as int]@);
                assert(all[j as int] == moves@[j as int]@);
                assert forall|q: int| 0 <= q < found@.len() implies reports_any(
                    #[trigger] found@[q],
                    all,
                ) by {
                    if q < before.len() {
                        assert(found@[q] == before[q]);
                        assert(reports_any(before[q], all));
                    } else {
                        assert(reports(found@[q], all[i as int], all[j as int]));
                    }
                }
                assert forall|x: Move, y: Move| reported(before, x, y) implies reported(found@, x, y) by {
                    let q = choose|q: int|
                        0 <= q < before.len() && (#[trigger] before[q]).first() == x && before[q].second()
                            == y;
                    assert(found@[q] == before[q]);
                }
            }
            j += 1;
        }
        i += 1;
    }
    found
}

/// The same conflicts, in the order in which they are to be resolved.
pub fn sort_conflicts(conflicts: &Vec<Conflict>) -> (sorted: Vec<Conflict>)
    ensures
        same_members(conflicts@, sorted@),
        forall|i: int, j: int|
            #![trigger sorted@[i], sorted@[j]]
            0 <= i < j < sorted@.len() ==> !sorted@[j].precedes(&sorted@[i]),
{
    let mut sorted: Vec<Conflict> = Vec::new();
    let mut q: usize = 0;
    while q < conflicts.len()
        invariant
            q <= conflicts.len(),
            sorted@.len() == q,
            forall|p: int| 0 <= p < q ==> sorted@.contains(#[trigger] conflicts@[p]),
            forall|p: int| 0 <= p < sorted@.len() ==> conflicts@.contains(#[trigger] sorted@[p]),
            forall|i: int, j: int|
                #![trigger sorted@[i], sorted@[j]]
                0 <= i < j < sorted@.len() ==> !sorted@[j].precedes(&sorted@[i]),
        decreases conflicts.len() - q,
    {
        let conflict: Conflict = conflicts[q];
        let rank: u8 = conflict.type_.rank_of();
        let time: u64 = conflict.earliest_start();
        let mut at: usize = 0;
        while at < sorted.len() && (sorted[at].type_.rank_of() < rank || (sorted[at].type_.rank_of()
            == rank && sorted[at].earliest_start() <= time))
            invariant
                at <= sorted.len(),
                rank == conflict.type_.rank(),
                time == conflict.time(),
                forall|p: int| 0 <= p < at ==> !conflict.precedes(&#[trigger] sorted@[p]),
            decreases sorted.len() - at,
        {
            at += 1;
        }
        let ghost before = sorted@;
        sorted.insert(at, conflict);
        proof {
            assert(sorted@[at as int] == conflict);
            assert forall|p: int| 0 <= p < q + 1 implies sorted@.contains(
                #[trigger] conflicts@[p],
            ) by {
                if p < q {
                    assert(before.contains(conflicts@[p]));
                    let w = choose|w: int| 0 <= w < before.len() && before[w] == conflicts@[p];
                    if w < at {
                        assert(sorted@[w] == before[w]);
                    } else {
                        assert(sorted@[w + 1] == before[w]);
                    }
                }
            }
            assert forall|p: int| 0 <= p < sorted@.len() implies conflicts@.contains(
                #[trigger] sorted@[p],
            ) by {
                if p < at {
                    assert(sorted@[p] == before[p]);
                } else if p > at {
                    assert(sorted@[p] == before[p - 1]);
                }
            }
            assert forall|i: int, j: int|
                #![trigger sorted@[i], sorted@[j]]
                0 <= i < j < sorted@.len() implies !sorted@[j].precedes(&sorted@[i]) by {
                if j < at {
                    assert(!before[j].precedes(&before[i]));
                } else if j == at {
                } else if i < at {
                    assert(!before[j - 1].precedes(&before[i]));
                } else if i == at {
                    if at < before.len() {
                        assert(!before[j - 1].precedes(&before[at as int]));
                    }
                } else {
                    assert(!before[j - 1].precedes(&before[i - 1]));
                }
            }
        }
        q += 1;
    }
    sorted
}

/// The constraint that keeps the agent of `mine` from making this move
/// into the conflict with `other`: where the two moves swap states, it may
/// not leave at that time; else it may not arrive at that time, give or take
/// `precision`.
pub open spec fn resolving(mine: Move, other: Move, precision: Duration) -> Constraint {
    if swap(mine, other) {
        Constraint {
            agent: mine.agent,
            state: mine.from,
            next: Some(mine.to),
            interval: Interval { start: mine.interval.start, end: mine.interval.start },
            type_: ConstraintType::Action,
        }
    } else {
        Constraint {
            agent: mine.agent,
            state: mine.to,
            next: None,
            interval: Interval {
                start: if mine.interval.end >= precision {
                    (mine.interval.end - precision) as u64
                } else {
                    0
                },
                end: if mine.interval.end + precision <= u64::MAX {
                    (mine.interval.end + precision) as u64
                } else {
                    u64::MAX
                },
            },
            type_: ConstraintType::State,
        }
    }
}

/// Makes the constraint that keeps the agent of `mine` out of the conflict
/// with `other`.
pub fn resolving_constraint(mine: &Move, other: &Move, precision: Duration) -> (c: Constraint)
    ensures
        c.wf(),
        c == resolving(*mine, *other, precision),
{
    let swapping: bool = mine.action.is_some() && other.action.is_some() && mine.from == other.to
        && mine.to == other.from && mine.interval.start <= other.interval.end && other.interval.start
        <= mine.interval.end;
    if swapping {
        Constraint::new_action_constraint(
            mine.agent,
            mine.from,
            mine.to,
            Interval::new(mine.interval.start, mine.interval.start),
        )
    } else {
        let start: Time = if mine.interval.end >= precision {
            mine.interval.end - precision
        } else {
            0
        };
        let end: Time = if precision <= u64::MAX - mine.interval.end {
            mine.interval.end + precision
        } else {
            u64::MAX
        };
        Constraint::new_state_constraint(mine.agent, mine.to, Interval::new(start, end))
    }
}

} // verus!
