//! Conflicts: pairs of moves of two agents that cannot both be made.

use vstd::prelude::*;
use std::cmp::Ordering;
use tuple::A2;
use crate::transition::Move;

verus! {

/// `tuple::T2`, the pair of the crate `tuple`. What a pair of moves holds is
/// known through `pair_items` alone.
#[verifier::external_type_specification]
#[verifier::external_body]
#[verifier::reject_recursive_types(A)]
#[verifier::reject_recursive_types(B)]
pub struct ExT2<A, B>(tuple::T2<A, B>);

/// The two moves that a pair holds, the first one first.
pub uninterp spec fn pair_items(pair: A2<Move>) -> Seq<Move>;

/// The constructor of `tuple::T2`: the pair holds its two arguments, in
/// their order.
#[verifier::external_body]
fn pair_new(first: Move, second: Move) -> (pair: A2<Move>)
    ensures
        pair_items(pair).len() == 2,
        pair_items(pair)[0] == first,
        pair_items(pair)[1] == second,
{
    tuple::T2(first, second)
}

/// The first field of a `tuple::T2`.
#[verifier::external_body]
fn pair_first(pair: &A2<Move>) -> (first: Move)
    ensures
        first == pair_items(*pair)[0],
{
    pair.0
}

/// The second field of a `tuple::T2`.
#[verifier::external_body]
fn pair_second(pair: &A2<Move>) -> (second: Move)
    ensures
        second == pair_items(*pair)[1],
{
    pair.1
}

/// How much a conflict weighs on the agents. The kinds come in the order in
/// which conflicts are resolved, the most pressing first.
#[derive(Debug, PartialEq, Eq, PartialOrd, Ord, Clone, Copy, Structural)]
pub enum ConflictType {
    /// One of the agents cannot change its path.
    Frozen,
    /// Both agents lose time whoever gives way.
    Cardinal,
    /// One of the agents loses time when it gives way.
    SemiCardinal,
    /// Either agent can give way without losing time.
    NonCardinal,
}

impl ConflictType {
    /// The place of the kind in the order of kinds.
    pub open spec fn rank(self) -> int {
        match self {
            ConflictType::Frozen => 0,
            ConflictType::Cardinal => 1,
            ConflictType::SemiCardinal => 2,
            ConflictType::NonCardinal => 3,
        }
    }

    /// The place of the kind in the order of kinds.
    pub fn rank_of(&self) -> (r: u8)
        ensures
            r == self.rank(),
    {
        match self {
            ConflictType::Frozen => 0,
            ConflictType::Cardinal => 1,
            ConflictType::SemiCardinal => 2,
            ConflictType::NonCardinal => 3,
        }
    }
}

/// A conflict between two moves, of two agents. Conflicts are ordered by
/// their kind, then by the earlier of the times at which the two moves
/// begin.
#[derive(Clone, Copy)]
pub struct Conflict {
    pub moves: A2<Move>,
    pub type_: ConflictType,
}

impl Conflict {
    /// The move of the first agent.
    pub open spec fn first(&self) -> Move {
        pair_items(self.moves)[0]
    }

    /// The move of the second agent.
    pub open spec fn second(&self) -> Move {
        pair_items(self.moves)[1]
    }

    /// The earlier of the times at which the two moves begin.
    pub open spec fn time(&self) -> int {
        if self.first().interval.start <= self.second().interval.start {
            self.first().interval.start as int
        } else {
            self.second().interval.start as int
        }
    }

    /// Whether the conflict is resolved before `other`.
    pub open spec fn precedes(&self, other: &Conflict) -> bool {
        self.type_.rank() < other.type_.rank() || (self.type_ == other.type_ && self.time()
            < other.time())
    }

    pub fn new(moves: A2<Move>, type_: ConflictType) -> (r: Conflict)
        ensures
            r.moves == moves,
            r.type_ == type_,
    {
        Conflict { moves, type_ }
    }

    /// The conflict between the two moves, of the kind `type_`.
    pub fn between(first: Move, second: Move, type_: ConflictType) -> (r: Conflict)
        ensures
            r.first() == first,
            r.second() == second,
            r.type_ == type_,
    {
        Conflict { moves: pair_new(first, second), type_ }
    }

    /// The move of the first agent.
    pub fn first_move(&self) -> (m: Move)
        ensures
            m == self.first(),
    {
        pair_first(&self.moves)
    }

    /// The move of the second agent.
    pub fn second_move(&self) -> (m: Move)
        ensures
            m == self.second(),
    {
        pair_second(&self.moves)
    }

    /// The earlier of the times at which the two moves begin.
    pub fn earliest_start(&self) -> (t: u64)
        ensures
            t == self.time(),
    {
        let a = pair_first(&self.moves);
        let b = pair_second(&self.moves);
        if a.interval.start <= b.interval.start {
            a.interval.start
        } else {
            b.interval.start
        }
    }

    /// The same conflict, once more.
    pub fn duplicate(&self) -> (r: Conflict)
        ensures
            r.first() == self.first(),
            r.second() == self.second(),
            r.type_ == self.type_,
    {
        Conflict::between(self.first_move(), self.second_move(), self.type_)
    }
}

impl PartialEq for Conflict {
    fn eq(&self, other: &Conflict) -> (r: bool) {
        self.type_.rank_of() == other.type_.rank_of() && self.earliest_start()
            == other.earliest_start()
    }
}

impl vstd::std_specs::cmp::PartialEqSpecImpl for Conflict {
    open spec fn obeys_eq_spec() -> bool {
        true
    }

    open spec fn eq_spec(&self, other: &Conflict) -> bool {
        self.type_ == other.type_ && self.time() == other.time()
    }
}

impl PartialOrd for Conflict {
    fn partial_cmp(&self, other: &Conflict) -> (r: Option<Ordering>) {
        let a: u8 = self.type_.rank_of();
        let b: u8 = other.type_.rank_of();
        if a == b {
            let s: u64 = self.earliest_start();
            let t: u64 = other.earliest_start();
            if s < t {
                Some(Ordering::Less)
            } else if s > t {
                Some(Ordering::Greater)
            } else {
                Some(Ordering::Equal)
            }
        } else if a < b {
            Some(Ordering::Less)
        } else {
            Some(Ordering::Greater)
        }
    }
}

impl vstd::std_specs::cmp::PartialOrdSpecImpl for Conflict {
    open spec fn obeys_partial_cmp_spec() -> bool {
        true
    }

    open spec fn partial_cmp_spec(&self, other: &Conflict) -> Option<Ordering> {
        if self.precedes(other) {
            Some(Ordering::Less)
        } else if other.precedes(self) {
            Some(Ordering::Greater)
        } else {
            Some(Ordering::Equal)
        }
    }
}

} // verus!
