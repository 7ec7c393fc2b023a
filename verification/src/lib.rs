//! Tour data structures for the travelling salesman problem, with verified
//! contracts: an array-backed tour and a two-level doubly-linked list.
use vstd::prelude::*;

pub mod alg;
pub mod data;
mod model;
pub use model::{RunConfig, RunConfigBuilder};
pub mod tour;
pub use data::{MatrixKind, MetricKind, NodeKind};

verus! {

} // verus!
