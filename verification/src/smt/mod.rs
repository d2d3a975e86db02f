//! SMT: theory literals, formulas over them, the Boolean abstraction and
//! the congruence-closure theory of uninterpreted functions.
use vstd::prelude::*;

pub mod theory;
pub mod bool_abstraction;
pub mod uf;
pub mod lra;
pub mod cdclt;

pub use theory::{AtomKind, AtomRecord, TheoryAtom, TheoryCheckResult, TheoryPropagation, TheorySolver};
pub use bool_abstraction::BoolAbstraction;
pub use uf::{EqAtom, FuncTerm, UF};
pub use lra::{LraAtom, LRA};
pub use cdclt::{CdcltAction, SatOutcome, TClause, atom_values, blocking_clause, cdclt_round};

verus! {

/// A theory literal (atom ± sign).
#[derive(Debug, Clone, Copy, PartialEq, Eq, Structural, Hash)]
pub struct TheoryLit {
    pub atom_id: usize,
    pub sign: bool,
}

impl TheoryLit {
    pub fn new(atom_id: usize, sign: bool) -> (l: Self)
        ensures
            l.atom_id == atom_id,
            l.sign == sign,
    {
        TheoryLit { atom_id, sign }
    }

    /// The literal of the same atom with the opposite sign.
    pub fn negate(&self) -> (l: Self)
        ensures
            l.atom_id == self.atom_id,
            l.sign == !self.sign,
    {
        TheoryLit { atom_id: self.atom_id, sign: !self.sign }
    }
}

/// An SMT formula: its atoms and a set of clauses over theory literals.
#[derive(Debug, Clone)]
pub struct Formula {
    pub atoms: Vec<AtomRecord>,
    pub clauses: Vec<Vec<TheoryLit>>,
}

impl Formula {
    /// The empty formula.
    pub fn new() -> (f: Self)
        ensures
            f.atoms@.len() == 0,
            f.clauses@.len() == 0,
    {
        Formula { atoms: Vec::new(), clauses: Vec::new() }
    }
}

} // verus!
