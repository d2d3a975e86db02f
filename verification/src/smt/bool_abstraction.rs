//! The Boolean abstraction: theory atoms as SAT variables.
use vstd::prelude::*;
use crate::sat::Lit;
use crate::smt::TheoryLit;

verus! {

/// Maps theory atoms to SAT variables: atom `i` is SAT variable `i`, and the
/// theory literal `(i, sign)` is the SAT literal of variable `i` with that sign.
#[derive(Debug, Clone)]
pub struct BoolAbstraction<A> {
    /// The registered atoms, by id.
    atoms: Vec<A>,
}

/// The SAT literal of a theory literal.
pub open spec fn sat_of(t: TheoryLit) -> Lit {
    Lit { var: t.atom_id, sign: t.sign }
}

/// The theory literal of a SAT literal.
pub open spec fn theory_of(l: Lit) -> TheoryLit {
    TheoryLit { atom_id: l.var, sign: l.sign }
}

/// Going to the SAT side and back gives the literal back, both ways.
pub proof fn lemma_abstraction_roundtrip(t: TheoryLit, l: Lit)
    ensures
        theory_of(sat_of(t)) == t,
        sat_of(theory_of(l)) == l,
{
}

impl<A> BoolAbstraction<A> {
    /// The registered atoms, by id.
    pub closed spec fn spec_atoms(&self) -> Seq<A> {
        self.atoms@
    }

    pub fn new() -> (b: Self)
        ensures
            b.spec_atoms().len() == 0,
    {
        BoolAbstraction { atoms: Vec::new() }
    }

    /// Register a theory atom and return its id.
    pub fn register_atom(&mut self, atom: A) -> (id: usize)
        ensures
            id == old(self).spec_atoms().len(),
            final(self).spec_atoms() == old(self).spec_atoms().push(atom),
    {
        let id = self.atoms.len();
        self.atoms.push(atom);
        id
    }

    /// The number of atoms registered.
    pub fn num_atoms(&self) -> (n: usize)
        ensures
            n == self.spec_atoms().len(),
    {
        self.atoms.len()
    }

    /// Convert a theory literal to a SAT literal.
    pub fn to_sat_lit(&self, tlit: TheoryLit) -> (l: Lit)
        ensures
            l == sat_of(tlit),
    {
        if tlit.sign {
            Lit::positive(tlit.atom_id)
        } else {
            Lit::negative(tlit.atom_id)
        }
    }

    /// Convert a SAT literal back to a theory literal.
    pub fn to_theory_lit(&self, sat_lit: Lit) -> (t: TheoryLit)
        ensures
            t == theory_of(sat_lit),
    {
        TheoryLit { atom_id: sat_lit.var, sign: sat_lit.sign }
    }

    /// The atom with the given id.
    pub fn get_atom(&self, id: usize) -> (a: &A)
        requires
            id < self.spec_atoms().len(),
        ensures
            *a == self.spec_atoms()[id as int],
    {
        &self.atoms[id]
    }

    /// All atoms, by id.
    pub fn atoms(&self) -> (s: &[A])
        ensures
            s@ == self.spec_atoms(),
    {
        self.atoms.as_slice()
    }
}

impl<A> Default for BoolAbstraction<A> {
    fn default() -> (b: Self)
        ensures
            b.spec_atoms().len() == 0,
    {
        Self::new()
    }
}

} // verus!
