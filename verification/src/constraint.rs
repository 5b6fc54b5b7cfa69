//! Constraints on one agent: intervals during which it may not be in a state
//! or may not leave along an edge, and landmarks that it has to visit.

use vstd::prelude::*;
use std::cmp::Ordering;
use std::collections::HashMap;
use crate::time::Interval;
use crate::transition::State;

verus! {

broadcast use vstd::std_specs::hash::group_hash_axioms;

/// The kinds of constraint.
#[derive(Debug, PartialEq, Eq, Clone, Copy, Structural)]
pub enum ConstraintType {
    /// The agent may not be in the state during the interval.
    State,
    /// The agent may not leave the state for the next one during the
    /// interval.
    Action,
}

/// A constraint on one agent. As a landmark it is read the other way round:
/// the agent has to be in `state` at some time of `interval`.
#[derive(Debug, Clone, Copy)]
pub struct Constraint {
    pub agent: usize,
    pub state: State,
    pub next: Option<State>,
    pub interval: Interval,
    pub type_: ConstraintType,
}

/// The landmarks of one agent, in the order in which it has to visit them.
pub type LandmarkSet = Vec<Constraint>;

impl Constraint {
    /// An action constraint names the state that the forbidden edge leads to.
    pub open spec fn wf(self) -> bool {
        self.type_ == ConstraintType::Action ==> self.next.is_some()
    }

    pub fn new_state_constraint(agent: usize, state: State, interval: Interval) -> (r: Constraint)
        ensures
            r == (Constraint { agent, state, next: None, interval, type_: ConstraintType::State }),
    {
        Constraint { agent, state, next: None, interval, type_: ConstraintType::State }
    }

    pub fn new_action_constraint(agent: usize, state: State, next: State, interval: Interval) -> (r:
        Constraint)
        ensures
            r == (Constraint {
                agent,
                state,
                next: Some(next),
                interval,
                type_: ConstraintType::Action,
            }),
    {
        Constraint { agent, state, next: Some(next), interval, type_: ConstraintType::Action }
    }
}

/// Two constraints are equal where their intervals are.
impl PartialEq for Constraint {
    fn eq(&self, other: &Constraint) -> (r: bool) {
        self.interval.start == other.interval.start && self.interval.end == other.interval.end
    }
}

impl Eq for Constraint {

}

impl vstd::std_specs::cmp::PartialEqSpecImpl for Constraint {
    open spec fn obeys_eq_spec() -> bool {
        true
    }

    open spec fn eq_spec(&self, other: &Constraint) -> bool {
        self.interval == other.interval
    }
}

/// Constraints are ordered as their intervals are.
impl PartialOrd for Constraint {
    fn partial_cmp(&self, other: &Constraint) -> (r: Option<Ordering>) {
        if self.interval.precedes(&other.interval) {
            Some(Ordering::Less)
        } else if other.interval.precedes(&self.interval) {
            Some(Ordering::Greater)
        } else {
            Some(Ordering::Equal)
        }
    }
}

impl vstd::std_specs::cmp::PartialOrdSpecImpl for Constraint {
    open spec fn obeys_partial_cmp_spec() -> bool {
        true
    }

    open spec fn partial_cmp_spec(&self, other: &Constraint) -> Option<Ordering> {
        if self.interval.before(other.interval) {
            Some(Ordering::Less)
        } else if other.interval.before(self.interval) {
            Some(Ordering::Greater)
        } else {
            Some(Ordering::Equal)
        }
    }
}

/// Whether the constraints of `bucket` come in the strict order of their
/// intervals: by start, then by end, no interval twice.
pub open spec fn ordered(bucket: Seq<Constraint>) -> bool {
    forall|i: int, j: int|
        0 <= i < j < bucket.len() ==> (#[trigger] bucket[i]).interval.before(
            (#[trigger] bucket[j]).interval,
        )
}

/// Whether some constraint of `bucket` has the interval `interval`.
pub open spec fn has_interval(bucket: Seq<Constraint>, interval: Interval) -> bool {
    exists|i: int| 0 <= i < bucket.len() && (#[trigger] bucket[i]).interval == interval
}

/// Whether `t` lies in the interval of some constraint of `bucket`.
pub open spec fn blocked(bucket: Seq<Constraint>, t: int) -> bool {
    exists|i: int| 0 <= i < bucket.len() && (#[trigger] bucket[i]).interval.holds(t)
}

/// Whether `after` forbids what `before` forbids and the interval of
/// `constraint`, and nothing else.
pub open spec fn blocks_more(before: Seq<Constraint>, after: Seq<Constraint>, constraint: Constraint) -> bool {
    forall|t: int|
        #![trigger blocked(after, t)]
        #![trigger blocked(before, t)]
        blocked(after, t) <==> (blocked(before, t) || constraint.interval.holds(t))
}

/// A bucket that has taken `constraint` in forbids that much more.
pub proof fn lemma_insert_blocks(before: Seq<Constraint>, after: Seq<Constraint>, constraint: Constraint)
    requires
        has_interval(before, constraint.interval) ==> after == before,
        !has_interval(before, constraint.interval) ==> exists|k: int|
            0 <= k <= before.len() && after == #[trigger] before.insert(k, constraint),
    ensures
        blocks_more(before, after, constraint),
{
    if has_interval(before, constraint.interval) {
        let i = choose|i: int| 0 <= i < before.len() && (#[trigger] before[i]).interval == constraint.interval;
        assert forall|t: int| constraint.interval.holds(t) implies blocked(before, t) by {
            assert(before[i].interval.holds(t));
        }
    } else {
        let k = choose|k: int| 0 <= k <= before.len() && after == #[trigger] before.insert(k, constraint);
        assert forall|t: int|
            blocked(after, t) <==> (blocked(before, t) || constraint.interval.holds(t)) by {
            if blocked(after, t) {
                let i = choose|i: int| 0 <= i < after.len() && (#[trigger] after[i]).interval.holds(t);
                if i < k {
                    assert(before[i].interval.holds(t));
                } else if i > k {
                    assert(before[i - 1].interval.holds(t));
                }
            }
            if blocked(before, t) {
                let i = choose|i: int| 0 <= i < before.len() && (#[trigger] before[i]).interval.holds(t);
                if i < k {
                    assert(after[i].interval.holds(t));
                } else {
                    assert(after[i + 1].interval.holds(t));
                }
            }
            if constraint.interval.holds(t) {
                assert(after[k].interval.holds(t));
            }
        }
    }
}

/// Whether the constraints of the bucket keep the agent from leaving at the
/// time `t`: the forbidden times taken together, `t` lies in a forbidden
/// interval before its end. At the end of a forbidden interval the agent may
/// leave.
pub open spec fn barred(bucket: Seq<Constraint>, t: int) -> bool {
    blocked(bucket, t) && blocked(bucket, t + 1)
}

/// Whether two sets forbid the same times in every state and on every
/// edge.
pub open spec fn same_blocks(a: &ConstraintSet, b: &ConstraintSet) -> bool {
    &&& forall|s: State, t: int|
        #![trigger blocked(a.state_bucket(s), t)]
        #![trigger blocked(b.state_bucket(s), t)]
        blocked(a.state_bucket(s), t) == blocked(b.state_bucket(s), t)
    &&& forall|f: State, g: State, t: int|
        #![trigger blocked(a.action_bucket(f, g), t)]
        #![trigger blocked(b.action_bucket(f, g), t)]
        blocked(a.action_bucket(f, g), t) == blocked(b.action_bucket(f, g), t)
}

/// Whether `after` is `before` with `constraint` added: its bucket forbids
/// that much more, and every other bucket is as it was.
pub open spec fn added(before: &ConstraintSet, after: &ConstraintSet, constraint: Constraint) -> bool {
    match constraint.type_ {
        ConstraintType::State => {
            &&& blocks_more(
                before.state_bucket(constraint.state),
                after.state_bucket(constraint.state),
                constraint,
            )
            &&& forall|s: State|
                s != constraint.state ==> #[trigger] after.state_bucket(s) == before.state_bucket(s)
            &&& forall|f: State, g: State| #[trigger]
                after.action_bucket(f, g) == before.action_bucket(f, g)
        },
        ConstraintType::Action => {
            &&& blocks_more(
                before.action_bucket(constraint.state, constraint.next.unwrap()),
                after.action_bucket(constraint.state, constraint.next.unwrap()),
                constraint,
            )
            &&& forall|f: State, g: State|
                (f != constraint.state || g != constraint.next.unwrap())
                    ==> #[trigger] after.action_bucket(f, g) == before.action_bucket(f, g)
            &&& forall|s: State| #[trigger] after.state_bucket(s) == before.state_bucket(s)
        },
    }
}

/// Puts `constraint` into `bucket` at its place in the order of intervals.
/// The bucket stays as it is where it already holds a constraint with the
/// same interval.
pub fn insert_ordered(bucket: &mut Vec<Constraint>, constraint: Constraint)
    requires
        ordered(old(bucket)@),
    ensures
        ordered(final(bucket)@),
        has_interval(old(bucket)@, constraint.interval) ==> final(bucket)@ == old(bucket)@,
        !has_interval(old(bucket)@, constraint.interval) ==> exists|k: int|
            0 <= k <= old(bucket)@.len() && final(bucket)@ == #[trigger] old(bucket)@.insert(
                k,
                constraint,
            ),
{
    let mut k: usize = 0;
    while k < bucket.len() && bucket[k].interval.precedes(&constraint.interval)
        invariant
            k <= bucket.len(),
            *bucket == *old(bucket),
            forall|i: int| 0 <= i < k ==> (#[trigger] bucket[i]).interval.before(constraint.interval),
        decreases bucket.len() - k,
    {
        k += 1;
    }
    if k < bucket.len() && bucket[k].interval == constraint.interval {
        return ;
    }
    proof {
        assert forall|i: int| 0 <= i < bucket.len() implies (#[trigger] bucket[i]).interval
            != constraint.interval by {
            if i > k {
                assert(bucket[k as int].interval.before(bucket[i].interval));
            }
        }
    }
    bucket.insert(k, constraint);
    proof {
        assert forall|i: int, j: int| 0 <= i < j < bucket.len() implies (
        #[trigger] bucket[i]).interval.before((#[trigger] bucket[j]).interval) by {
            if i < k && j > k {
                assert(old(bucket)[i].interval.before(old(bucket)[j - 1].interval));
            } else if i == k && j > k + 1 {
                assert(old(bucket)[k as int].interval.before(old(bucket)[j - 1].interval));
            } else if i > k {
                assert(old(bucket)[i - 1].interval.before(old(bucket)[j - 1].interval));
            }
        }
    }
}

/// The constraints on one agent, each kind in buckets of its own: the state
/// constraints by state, the action constraints by the edge's two states.
/// Within a bucket the constraints come in the order of their intervals.
pub struct ConstraintSet {
    state_constraints: HashMap<State, Vec<Constraint>>,
    action_constraints: HashMap<State, HashMap<State, Vec<Constraint>>>,
}

impl ConstraintSet {
    /// The state constraints on `state`, in the order of their intervals.
    pub closed spec fn state_bucket(&self, state: State) -> Seq<Constraint> {
        if self.state_constraints@.contains_key(state) {
            self.state_constraints@[state]@
        } else {
            Seq::empty()
        }
    }

    /// The action constraints on the edge from `from` to `to`, in the order
    /// of their intervals.
    pub closed spec fn action_bucket(&self, from: State, to: State) -> Seq<Constraint> {
        if self.action_constraints@.contains_key(from) && self.action_constraints@[from]@.contains_key(
            to,
        ) {
            self.action_constraints@[from]@[to]@
        } else {
            Seq::empty()
        }
    }

    /// Every bucket is in order, and no bucket that is kept is empty.
    pub closed spec fn wf(&self) -> bool {
        &&& forall|s: State| #[trigger]
            self.state_constraints@.contains_key(s) ==> ordered(self.state_constraints@[s]@)
                && self.state_constraints@[s]@.len() > 0
        &&& forall|f: State, t: State|
            self.action_constraints@.contains_key(f) && #[trigger] self.action_constraints@[f]@.contains_key(
                t,
            ) ==> ordered(self.action_constraints@[f]@[t]@) && self.action_constraints@[f]@[t]@.len()
                > 0
    }

    /// In a well-formed set every bucket is in order.
    pub proof fn lemma_buckets_ordered(&self)
        requires
            self.wf(),
        ensures
            forall|s: State| ordered(#[trigger] self.state_bucket(s)),
            forall|f: State, t: State| ordered(#[trigger] self.action_bucket(f, t)),
    {
        assert forall|s: State| ordered(#[trigger] self.state_bucket(s)) by {
            if self.state_constraints@.contains_key(s) {
            }
        }
        assert forall|f: State, t: State| ordered(#[trigger] self.action_bucket(f, t)) by {
            if self.action_constraints@.contains_key(f) && self.action_constraints@[f]@.contains_key(
                t,
            ) {
            }
        }
    }

    /// The set without constraints.
    pub fn new() -> (r: ConstraintSet)
        ensures
            r.wf(),
            forall|s: State| (#[trigger] r.state_bucket(s)).len() == 0,
            forall|f: State, t: State| (#[trigger] r.action_bucket(f, t)).len() == 0,
    {
        ConstraintSet { state_constraints: HashMap::new(), action_constraints: HashMap::new() }
    }

    /// Adds `constraint` to the bucket that its kind and states name.
    pub fn add(&mut self, constraint: Constraint)
        requires
            old(self).wf(),
            constraint.wf(),
        ensures
            final(self).wf(),
            added(old(self), final(self), constraint),
            constraint.type_ == ConstraintType::State ==> {
                let before = old(self).state_bucket(constraint.state);
                let after = final(self).state_bucket(constraint.state);
                &&& has_interval(before, constraint.interval) ==> after == before
                &&& !has_interval(before, constraint.interval) ==> exists|k: int|
                    0 <= k <= before.len() && after == #[trigger] before.insert(k, constraint)
                &&& forall|s: State|
                    s != constraint.state ==> #[trigger] final(self).state_bucket(s) == old(self).state_bucket(s)
                &&& forall|f: State, t: State| #[trigger]
                    final(self).action_bucket(f, t) == old(self).action_bucket(f, t)
                &&& blocks_more(before, after, constraint)
            },
            constraint.type_ == ConstraintType::Action ==> {
                let before = old(self).action_bucket(constraint.state, constraint.next.unwrap());
                let after = final(self).action_bucket(constraint.state, constraint.next.unwrap());
                &&& has_interval(before, constraint.interval) ==> after == before
                &&& !has_interval(before, constraint.interval) ==> exists|k: int|
                    0 <= k <= before.len() && after == #[trigger] before.insert(k, constraint)
                &&& forall|f: State, t: State|
                    (f != constraint.state || t != constraint.next.unwrap()) ==> #[trigger] final(self).action_bucket(f, t) == old(self).action_bucket(f, t)
                &&& forall|s: State| #[trigger]
                    final(self).state_bucket(s) == old(self).state_bucket(s)
                &&& blocks_more(before, after, constraint)
            },
    {
        match constraint.type_ {
            ConstraintType::State => {
                let mut bucket = match self.state_constraints.remove(&constraint.state) {
                    Some(b) => b,
                    None => Vec::new(),
                };
                let ghost before = bucket@;
                insert_ordered(&mut bucket, constraint);
                proof {
                    lemma_insert_blocks(before, bucket@, constraint);
                }
                self.state_constraints.insert(constraint.state, bucket);
            },
            ConstraintType::Action => {
                let to = constraint.next.unwrap();
                let mut inner = match self.action_constraints.remove(&constraint.state) {
                    Some(m) => m,
                    None => HashMap::new(),
                };
                let mut bucket = match inner.remove(&to) {
                    Some(b) => b,
                    None => Vec::new(),
                };
                let ghost before = bucket@;
                insert_ordered(&mut bucket, constraint);
                proof {
                    lemma_insert_blocks(before, bucket@, constraint);
                }
                inner.insert(to, bucket);
                self.action_constraints.insert(constraint.state, inner);
            },
        }
    }

    /// The bucket of state constraints on `state`, if there is any.
    pub fn get_state_constraints(&self, state: &State) -> (r: Option<&Vec<Constraint>>)
        requires
            self.wf(),
        ensures
            match r {
                Some(bucket) => bucket@ == self.state_bucket(*state) && bucket@.len() > 0,
                None => self.state_bucket(*state).len() == 0,
            },
    {
        self.state_constraints.get(state)
    }

    /// The bucket of action constraints on the edge from `from` to `to`, if
    /// there is any.
    pub fn get_action_constraints(&self, from: &State, to: &State) -> (r: Option<&Vec<Constraint>>)
        requires
            self.wf(),
        ensures
            match r {
                Some(bucket) => bucket@ == self.action_bucket(*from, *to) && bucket@.len() > 0,
                None => self.action_bucket(*from, *to).len() == 0,
            },
    {
        match self.action_constraints.get(from) {
            Some(inner) => inner.get(to),
            None => None,
        }
    }
}

impl Default for ConstraintSet {
    fn default() -> (r: ConstraintSet)
        ensures
            r.wf(),
            forall|s: State| (#[trigger] r.state_bucket(s)).len() == 0,
            forall|f: State, t: State| (#[trigger] r.action_bucket(f, t)).len() == 0,
    {
        ConstraintSet::new()
    }
}

} // verus!
