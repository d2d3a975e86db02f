//! Input format parsers.
//!
//! Each sub-module handles a specific format:
//!   - `dimacs`    : CNF / DIMACS (SAT)
//!   - `smtlib`    : SMT-LIB (SMT)
//!   - `lp_format` : LP format (LP / MILP)
//!   - `cp_format` : CP format
//!   - `mps`       : MPS format (MILP)
//!   - `mzn`       : MiniZinc subset (CP)
use vstd::prelude::*;

pub mod text;
pub mod dimacs;
pub mod cp_format;
pub mod smtlib;
pub mod smt_meaning;
pub mod lp_format;
pub mod mps;
pub mod mzn;

verus! {

/// Common parse-result type used by all parsers.
pub type ParseResult<T> = Result<T, String>;

} // verus!
