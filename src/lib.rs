//! Replicated partition-to-node assignments for a sharded cluster, with a
//! rebalancing engine for adding and removing nodes.
use vstd::prelude::*;

mod engine;
mod names;
pub mod model;
mod table;
pub mod assign;
pub mod laws;

pub use model::{Node, Partition, Move, AssignError, Assignment};

verus! {

} // verus!
