//! Multi-agent path finding by conflict-based search over safe-interval
//! path planning, on a transition system whose states are addressed by index
//! and whose clock counts whole ticks.

pub mod cbs;
pub mod collision;
pub mod conflict;
pub mod constraint;
mod frontier;
pub mod graph;
pub mod intervals;
pub mod lsipp;
pub mod plans;
pub mod queue;
pub mod rra;
pub mod search;
mod search_tree;
pub mod sipp;
pub mod time;
pub mod transition;
pub mod tree;
pub mod weight;

pub use cbs::{CbsConfig, CbsNode, ConflictBasedSearch};
pub use conflict::{Conflict, ConflictType};
pub use constraint::{Constraint, ConstraintSet, ConstraintType, LandmarkSet};
pub use graph::{Edge, Graph, SimpleWorld};
pub use lsipp::{LSippConfig, LSippStats, SafeIntervalPathPlanningWithLandmarks};
pub use rra::{ReverseResumableAStar, SimpleHeuristic};
pub use search::{DifferentialHeuristic, Heuristic, SearchNode, Solution};
pub use sipp::{
    GeneralizedSippConfig, SafeIntervalPathPlanning, SippConfig, SippState, SippStats, SippTask,
};
pub use time::{Duration, Interval, LimitValues, Time};
pub use transition::{Action, Move, State, Task, TransitionSystem};
