//! Linear programming: a dense rational simplex tableau and the two-phase
//! simplex method built on it, for programs of the form
//! `min c^T x  s.t.  A x (op) b,  x >= 0`.
pub mod tableau;
pub mod standard_form;
pub mod solver;

pub use tableau::Tableau;
pub use solver::{LpOutcome, LpSolver, solve_lp};
