//! dsuni — a modular constraint solver.
pub mod common;
pub mod linear;
pub mod lp;
pub mod parser;
pub mod cp;
pub mod sat;
pub mod smt;
