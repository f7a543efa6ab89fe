//! Exhaustive enumeration of a dice race's game tree: the engine seeds a
//! bounded work queue with independent subtrees, enumerates every reachable
//! position out to a depth budget, and tallies round-terminal and
//! game-terminal outcome signatures.
use vstd::prelude::*;

pub mod accumulators;
pub mod game;
pub mod calculate;
pub mod work_queue;

verus! {

pub use crate::game::MAX_ROLL;

} // verus!
