//! Configuration options for initializing and running the solver.

use vstd::prelude::*;

verus! {

/// The default maximum cardinality of the domain of an integer variable
/// before its order encoding is created lazily.
pub const DEFAULT_INT_EAGER_LIMIT: usize = 255;

#[derive(Clone, Debug, Hash, PartialEq, Eq, Structural)]
/// Configuration object for the reformulation process of creating a solver
/// from a model.
pub struct InitConfig {
    /// The maximum cardinality of the domain of an integer variable before
    /// its order encoding is created lazily.
    pub int_eager_limit: Option<usize>,
    /// Whether to enable restarts in the oracle solver.
    pub restart: bool,
    /// Whether to enable vivification in the oracle solver.
    pub vivification: bool,
}

#[derive(Debug, Clone, PartialEq, Eq, Hash, Structural)]
/// Error type for problems that are found to be unsatisfiable during the
/// construction of the solver, before any search takes place.
pub enum ReformulationError {
    /// The problem is trivially unsatisfiable.
    TrivialUnsatisfiable,
}

#[derive(Clone, Debug, PartialEq, Eq, Structural)]
/// Options that configure which of the oracle and the user branchers answers
/// a search decision request.
pub struct SolverConfiguration {
    /// Switch between the activity-based search heuristic and the
    /// user-specific search heuristic after each restart.
    ///
    /// This option is ignored if `vsids_only` is set.
    pub toggle_vsids: bool,
    /// Switch to the activity-based search heuristic after the given number
    /// of conflicts.
    ///
    /// This option is ignored if `toggle_vsids` or `vsids_only` is set.
    pub vsids_after: Option<u32>,
    /// Only use the activity-based search heuristic provided by the SAT
    /// solver, ignoring the user-specific search heuristic.
    pub vsids_only: bool,
}

impl InitConfig {
    /// Get the maximum cardinality of the domain of an integer variable
    /// before its order encoding is created lazily.
    pub fn int_eager_limit(&self) -> (r: usize)
        ensures
            r == match self.int_eager_limit {
                Some(l) => l,
                None => DEFAULT_INT_EAGER_LIMIT,
            },
    {
        match self.int_eager_limit {
            Some(l) => l,
            None => DEFAULT_INT_EAGER_LIMIT,
        }
    }

    /// Get whether to enable restarts in the oracle solver.
    pub fn restart(&self) -> (r: bool)
        ensures
            r == self.restart,
    {
        self.restart
    }

    /// Get whether to enable vivification in the oracle solver.
    pub fn vivification(&self) -> (r: bool)
        ensures
            r == self.vivification,
    {
        self.vivification
    }

    /// Change the maximum cardinality of the domain of an integer variable
    /// before its order encoding is created lazily.
    pub fn with_int_eager_limit(self, limit: usize) -> (r: Self)
        ensures
            r.int_eager_limit == Some(limit),
            r.restart == self.restart,
            r.vivification == self.vivification,
    {
        Self { int_eager_limit: Some(limit), ..self }
    }

    /// Change whether to enable restarts in the oracle solver.
    pub fn with_restart(self, restart: bool) -> (r: Self)
        ensures
            r.restart == restart,
            r.int_eager_limit == self.int_eager_limit,
            r.vivification == self.vivification,
    {
        Self { restart, ..self }
    }

    /// Change whether to enable vivification in the oracle solver.
    pub fn with_vivification(self, vivification: bool) -> (r: Self)
        ensures
            r.vivification == vivification,
            r.int_eager_limit == self.int_eager_limit,
            r.restart == self.restart,
    {
        Self { vivification, ..self }
    }
}

impl Default for InitConfig {
    /// The default configuration: no explicit eager limit, restarts and
    /// vivification disabled.
    fn default() -> (r: Self)
        ensures
            r.int_eager_limit is None,
            !r.restart,
            !r.vivification,
    {
        InitConfig { int_eager_limit: None, restart: false, vivification: false }
    }
}

impl Default for SolverConfiguration {
    /// The default configuration: user branchers answer decisions first.
    fn default() -> (r: Self)
        ensures
            !r.toggle_vsids,
            r.vsids_after is None,
            !r.vsids_only,
    {
        SolverConfiguration { toggle_vsids: false, vsids_after: None, vsids_only: false }
    }
}

} // verus!
