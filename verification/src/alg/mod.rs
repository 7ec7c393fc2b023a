//! Algorithms on tours: k-opt moves and the choice of a construction method.
use vstd::prelude::*;

pub mod lkh;

pub mod solvers;

mod tour_gen;
pub use tour_gen::init_tour;

verus! {

/// How a tour is built: greedily, from each of the given start nodes.
#[derive(Clone, Debug, PartialEq, Eq, Hash)]
pub enum SolverKind {
    Greedy(Vec<usize>),
}

} // verus!
