//! Statistics gathered while initializing the solver and during search.

use vstd::prelude::*;

verus! {

#[derive(Debug, Clone, PartialEq, Eq, Hash, Structural)]
/// Statistics of the search process.
pub struct SearchStatistics {
    /// Number of conflicts encountered.
    pub conflicts: u64,
    /// Number of search decisions left to the oracle solver.
    pub oracle_decisions: u64,
    /// Peak search depth.
    pub peak_depth: u32,
    /// Number of times a propagator was called.
    pub propagations: u64,
    /// Number of backtracks to the root level.
    pub restarts: u32,
    /// Number of decisions following the user-specified search heuristics.
    pub user_decisions: u64,
}

#[derive(Debug, Clone, Copy, PartialEq, Eq, Structural)]
/// Statistics related to the initialization of the solver.
pub struct InitStatistics {
    /// Number of (non-view) integer variables represented in the solver.
    pub int_vars: usize,
    /// Number of propagators in the solver.
    pub propagators: usize,
}

#[derive(Debug, Clone, Copy, Default, PartialEq, Eq, Structural)]
/// Statistics gathered while reading a FlatZinc instance.
pub struct FlatZincStatistics {
    /// Number of literal views extracted from the instance.
    pub extracted_views: u32,
    /// Number of variables removed by unification.
    pub vars_unified: u32,
}

impl SearchStatistics {
    /// Returns the number of conflicts encountered during the search.
    pub fn conflicts(&self) -> (r: u64)
        ensures
            r == self.conflicts,
    {
        self.conflicts
    }

    /// Return the number of search decisions that were left to the oracle
    /// solver.
    pub fn oracle_decisions(&self) -> (r: u64)
        ensures
            r == self.oracle_decisions,
    {
        self.oracle_decisions
    }

    /// Returns the peak depth of the search tree.
    pub fn peak_depth(&self) -> (r: u32)
        ensures
            r == self.peak_depth,
    {
        self.peak_depth
    }

    /// Returns the number of propagations performed by the constraint
    /// programming engine during the search.
    pub fn propagations(&self) -> (r: u64)
        ensures
            r == self.propagations,
    {
        self.propagations
    }

    /// Returns the number of times the search was restarted by the oracle
    /// solver.
    pub fn restarts(&self) -> (r: u32)
        ensures
            r == self.restarts,
    {
        self.restarts
    }

    /// Returns the number of search decisions that followed the
    /// user-specified search heuristics.
    pub fn user_decisions(&self) -> (r: u64)
        ensures
            r == self.user_decisions,
    {
        self.user_decisions
    }
}

impl Default for SearchStatistics {
    /// Statistics with all counters at zero.
    fn default() -> (r: Self)
        ensures
            r.conflicts == 0,
            r.oracle_decisions == 0,
            r.peak_depth == 0,
            r.propagations == 0,
            r.restarts == 0,
            r.user_decisions == 0,
    {
        SearchStatistics {
            conflicts: 0,
            oracle_decisions: 0,
            peak_depth: 0,
            propagations: 0,
            restarts: 0,
            user_decisions: 0,
        }
    }
}

impl InitStatistics {
    /// Number of integer variables present in the solver.
    pub fn int_vars(&self) -> (r: usize)
        ensures
            r == self.int_vars,
    {
        self.int_vars
    }

    /// Number of propagators present in the solver.
    pub fn propagators(&self) -> (r: usize)
        ensures
            r == self.propagators,
    {
        self.propagators
    }
}

impl FlatZincStatistics {
    /// Returns the number of views extracted from the FlatZinc instance.
    pub fn extracted_views(&self) -> (r: u32)
        ensures
            r == self.extracted_views,
    {
        self.extracted_views
    }

    /// Returns the number of variables removed by unification.
    pub fn unified_variables(&self) -> (r: u32)
        ensures
            r == self.vars_unified,
    {
        self.vars_unified
    }
}

} // verus!
