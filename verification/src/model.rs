//! How a run of a solver is configured.
use vstd::prelude::*;

use crate::alg::SolverKind;

verus! {

/// The settings of a run: how many candidate neighbours each node gets, and
/// how the tour is built.
#[derive(Clone, Debug, PartialEq, Eq, Hash)]
pub struct RunConfig {
    pub cands: usize,
    pub solver: SolverKind,
}

/// Builds a [`RunConfig`]; settings left open take their defaults.
#[derive(Debug)]
pub struct RunConfigBuilder {
    pub cands: Option<usize>,
    pub solver: Option<SolverKind>,
}

impl Default for RunConfigBuilder {
    fn default() -> (r: RunConfigBuilder)
        ensures
            r.cands is None,
            r.solver is None,
    {
        RunConfigBuilder { cands: None, solver: None }
    }
}

/// The default number of candidate neighbours.
pub const DEFAULT_CANDS: usize = 10;

impl RunConfigBuilder {
    /// A builder with no setting made.
    pub fn new() -> (r: RunConfigBuilder)
        ensures
            r.cands is None,
            r.solver is None,
    {
        RunConfigBuilder { cands: None, solver: None }
    }

    /// Sets the number of candidate neighbours.
    pub fn cands(self, cands: usize) -> (r: RunConfigBuilder)
        ensures
            r.cands == Some(cands),
            r.solver == self.solver,
    {
        RunConfigBuilder { cands: Some(cands), solver: self.solver }
    }

    /// Sets how the tour is built.
    pub fn solver(self, solver: SolverKind) -> (r: RunConfigBuilder)
        ensures
            r.cands == self.cands,
            r.solver == Some(solver),
    {
        RunConfigBuilder { cands: self.cands, solver: Some(solver) }
    }

    /// The configuration: 10 candidates unless set, and a greedy build from
    /// node 0 unless set.
    pub fn build(self) -> (r: RunConfig)
        ensures
            r.cands == match self.cands {
                Some(c) => c,
                None => DEFAULT_CANDS,
            },
            match self.solver {
                Some(s) => r.solver == s,
                None => match r.solver {
                    SolverKind::Greedy(v) => v@ == seq![0usize],
                },
            },
    {
        let cands = match self.cands {
            Some(c) => c,
            None => DEFAULT_CANDS,
        };
        let solver = match self.solver {
            Some(s) => s,
            None => SolverKind::Greedy(vec![0]),
        };
        RunConfig { cands, solver }
    }
}

} // verus!
