//! SAT solver data structures: literals, the assignment trail and the
//! two-watched-literal lists.
use vstd::prelude::*;

pub mod clause;
pub mod literal;
pub mod solver;
pub mod trail;
pub mod watch;

pub use clause::{Clause, ClauseDB};
pub use literal::Lit;
pub use solver::{CdclStep, Solver};
pub use trail::{DecisionLevel, Reason, Trail, TrailEntry};
pub use watch::WatchList;

verus! {

/// Index of a clause in the solver's clause database.
pub type ClauseId = usize;

/// Statistics of a SAT run.
#[derive(Debug, Clone, Copy, PartialEq, Eq, Structural)]
pub struct SolverStats {
    pub decisions: u64,
    pub propagations: u64,
    pub conflicts: u64,
    pub restarts: u64,
}

/// Statistics before any work: every counter zero.
pub open spec fn zero_sat_stats() -> SolverStats {
    SolverStats { decisions: 0, propagations: 0, conflicts: 0, restarts: 0 }
}

impl Default for SolverStats {
    fn default() -> (s: Self)
        ensures
            s == zero_sat_stats(),
    {
        SolverStats { decisions: 0, propagations: 0, conflicts: 0, restarts: 0 }
    }
}

} // verus!
