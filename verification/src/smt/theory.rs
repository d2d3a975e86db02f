//! Theory atoms and the results theory solvers report.
use vstd::prelude::*;
use crate::smt::TheoryLit;
use crate::parser::text::{push_decimal, decimal};

verus! {

/// The result of a theory check.
#[derive(Debug, Clone, Copy, PartialEq, Eq, Structural)]
pub enum TheoryCheckResult {
    /// The current assignment is consistent with the theory.
    Consistent,
    /// The current assignment is inconsistent.
    Conflict,
    /// Unknown (incomplete theory).
    Unknown,
}

/// A theory propagation: implication from the theory solver.
#[derive(Debug, Clone)]
pub struct TheoryPropagation {
    pub lit: TheoryLit,
    pub explanation: Vec<TheoryLit>,
}

/// The interface every theory solver offers (lazy SMT, CDCL(T)):
/// `assert_lit` assigns a theory literal, `check` checks consistency of the
/// current assignment, `propagate` returns implied literals, the `explain_*`
/// methods give reasons, and `push`/`pop` open and close assertion scopes.
pub trait TheorySolver {
    /// The solver's internal invariant.
    spec fn inv(&self) -> bool;

    /// Whether a scope is open, so that `pop` can close it.
    spec fn can_pop(&self) -> bool;

    /// Push a new assertion scope.
    fn push(&mut self)
        requires
            old(self).inv(),
        ensures
            final(self).inv(),
    ;

    /// Pop the last scope.
    fn pop(&mut self)
        requires
            old(self).inv(),
            old(self).can_pop(),
        ensures
            final(self).inv(),
    ;

    /// Assert a theory literal. Returns true if consistent.
    fn assert_lit(&mut self, lit: TheoryLit) -> (ok: bool)
        requires
            old(self).inv(),
        ensures
            final(self).inv(),
    ;

    /// Check consistency of the current assignment.
    fn check(&self) -> (r: TheoryCheckResult)
        requires
            self.inv(),
    ;

    /// Propagate: return literals that are implied by the current assignment.
    fn propagate(&self) -> (v: Vec<TheoryLit>)
        requires
            self.inv(),
    ;

    /// Explain a conflict: the theory literals causing it.
    fn explain_conflict(&self) -> (v: Vec<TheoryLit>)
        requires
            self.inv(),
    ;

    /// Explain a propagation.
    fn explain_propagation(&self, lit: TheoryLit) -> (v: Vec<TheoryLit>)
        requires
            self.inv(),
    ;

    /// Set the list of theory atoms (with their labels).
    fn set_atoms(&mut self, atoms: &[AtomRecord])
        requires
            old(self).inv(),
        ensures
            final(self).inv(),
    ;

    /// Reset the solver.
    fn reset(&mut self)
        requires
            old(self).inv(),
        ensures
            final(self).inv(),
    ;
}

/// A theory atom: a basic formula in a theory (e.g. `x = y`).
pub trait TheoryAtom {
    /// Unique identifier for this atom.
    fn id(&self) -> usize;
    /// A human-readable label.
    fn label(&self) -> String;
}

/// The two kinds of parsed atoms: an equality or a disequality of two terms.
#[derive(Debug, Clone)]
pub enum AtomKind {
    Eq { lhs: String, rhs: String },
    Neq { lhs: String, rhs: String },
}

/// A theory atom read from SMT-LIB: its id and its kind.
#[derive(Debug, Clone)]
pub struct AtomRecord {
    pub id: usize,
    pub kind: AtomKind,
}

/// The label `lhs = rhs` or `lhs ≠ rhs`.
pub open spec fn atom_label(a: AtomRecord) -> Seq<char> {
    match a.kind {
        AtomKind::Eq { lhs, rhs } => lhs@ + " = "@ + rhs@,
        AtomKind::Neq { lhs, rhs } => lhs@ + " ≠ "@ + rhs@,
    }
}

impl TheoryAtom for AtomRecord {
    fn id(&self) -> (r: usize)
        ensures
            r == self.id,
    {
        self.id
    }

    fn label(&self) -> (s: String)
        ensures
            s@ == atom_label(*self),
    {
        match &self.kind {
            AtomKind::Eq { lhs, rhs } => {
                let mut s = lhs.clone();
                s.append(" = ");
                s.append(rhs.as_str());
                s
            },
            AtomKind::Neq { lhs, rhs } => {
                let mut s = lhs.clone();
                s.append(" ≠ ");
                s.append(rhs.as_str());
                s
            },
        }
    }
}

impl AtomRecord {
    /// The label `lhs = rhs` or `lhs ≠ rhs`.
    pub fn text(&self) -> (s: String)
        ensures
            s@ == atom_label(*self),
    {
        match &self.kind {
            AtomKind::Eq { lhs, rhs } => {
                let mut s = lhs.clone();
                s.append(" = ");
                s.append(rhs.as_str());
                s
            },
            AtomKind::Neq { lhs, rhs } => {
                let mut s = lhs.clone();
                s.append(" ≠ ");
                s.append(rhs.as_str());
                s
            },
        }
    }
}

/// `t<n>`.
pub open spec fn term_name(n: nat) -> Seq<char> {
    seq!['t'] + decimal(n)
}

/// `t<n>` as a string.
pub fn term_name_string(n: usize) -> (s: String)
    ensures
        s@ == term_name(n as nat),
{
    let mut s = String::from_str("t");
    proof {
        reveal_strlit("t");
    }
    push_decimal(&mut s, n as u128);
    assert(s@ =~= term_name(n as nat));
    s
}

} // verus!
