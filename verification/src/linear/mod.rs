//! Linear arithmetic core: exact rationals, linear expressions, constraints,
//! bounds, systems and their normalisation.
pub mod rational;
pub mod ops;
pub mod order;

pub use rational::Rational;
pub use crate::common::Var;
pub mod expr;
pub use expr::{LinearTerm, LinearExpr};
pub mod expr_ops;
pub mod display;
pub mod bound;
pub mod constraint;
pub use bound::{Bound, Domain};
pub use constraint::{CmpOp, LinearConstraint, Objective};
pub mod normalize;
pub use normalize::{normalize_constraint, normalize_constraints};
pub mod system;
pub use system::LinearSystem;
