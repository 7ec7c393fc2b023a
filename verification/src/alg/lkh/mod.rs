//! Building blocks of the Lin-Kernighan heuristic.
use vstd::prelude::*;

mod types;
pub use types::KOpt;

pub mod moves;
pub use moves::{move_2_opt, move_3_opt, move_4_opt, Opt3Move, Opt4SeqMove};

verus! {

} // verus!
