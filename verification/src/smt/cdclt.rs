//! The Boolean side of CDCL(T): theory clauses as SAT clauses, the clause
//! that blocks a theory-inconsistent Boolean model, and the decision taken
//! after each round of SAT search and theory checks.
use vstd::prelude::*;
use crate::sat::literal::Lit;
use crate::smt::{TheoryCheckResult, TheoryLit};

verus! {

/// A clause in the SMT formula: a disjunction of theory literals.
#[derive(Debug)]
pub struct TClause {
    pub lits: Vec<TheoryLit>,
}

/// The SAT literal of a theory literal: atom `i` is SAT variable `i`.
pub open spec fn sat_lit_of(l: TheoryLit) -> Lit {
    Lit { var: l.atom_id, sign: l.sign }
}

/// The clause that excludes the assigned part of `a`: for each assigned
/// atom, in atom order, the literal of the opposite value.
pub open spec fn blocking_spec(a: Seq<Option<bool>>) -> Seq<Lit>
    decreases a.len(),
{
    if a.len() == 0 {
        Seq::empty()
    } else {
        let rest = blocking_spec(a.drop_last());
        match a.last() {
            Some(b) => rest.push(Lit { var: (a.len() - 1) as usize, sign: !b }),
            None => rest,
        }
    }
}

impl TClause {
    /// The clause over SAT literals.
    pub fn to_sat_lits(&self) -> (v: Vec<Lit>)
        ensures
            v@ == self.lits@.map_values(|l: TheoryLit| sat_lit_of(l)),
    {
        let mut v: Vec<Lit> = Vec::new();
        let mut i: usize = 0;
        while i < self.lits.len()
            invariant
                i <= self.lits@.len(),
                v@ == self.lits@.take(i as int).map_values(|l: TheoryLit| sat_lit_of(l)),
            decreases self.lits@.len() - i,
        {
            let tl = self.lits[i];
            v.push(Lit::new(tl.atom_id, tl.sign));
            i = i + 1;
            assert(v@ =~= self.lits@.take(i as int).map_values(|l: TheoryLit| sat_lit_of(l)));
        }
        assert(self.lits@.take(i as int) =~= self.lits@);
        v
    }
}

/// The clause that excludes the assigned part of a Boolean model of the
/// atoms, so that the SAT search looks for another one.
pub fn blocking_clause(assignment: &[Option<bool>]) -> (v: Vec<Lit>)
    ensures
        v@ == blocking_spec(assignment@),
{
    let mut v: Vec<Lit> = Vec::new();
    let mut i: usize = 0;
    while i < assignment.len()
        invariant
            i <= assignment@.len(),
            v@ == blocking_spec(assignment@.take(i as int)),
        decreases assignment@.len() - i,
    {
        assert(assignment@.take(i + 1).drop_last() =~= assignment@.take(i as int));
        assert(assignment@.take(i + 1).last() == assignment@[i as int]);
        match assignment[i] {
            Some(b) => v.push(Lit::new(i, !b)),
            None => {},
        }
        i = i + 1;
    }
    assert(assignment@.take(i as int) =~= assignment@);
    v
}


/// What the SAT search answered on the Boolean abstraction.
#[derive(Debug)]
pub enum SatOutcome {
    /// A model: one value per SAT variable.
    Sat(Vec<bool>),
    /// No model.
    Unsat,
}

/// What to do after a round of SAT search and theory checks.
#[derive(Debug)]
pub enum CdcltAction {
    /// Every theory accepts the model: the values of the atoms.
    Sat(Vec<Option<bool>>),
    /// A theory refutes the model: add this clause and search again.
    Block(Vec<Lit>),
    /// No theory refutes the model but some cannot decide: search again.
    Retry,
    /// The Boolean abstraction has no model.
    Unsat,
}

/// The value of each of `num_atoms` atoms in the SAT model `m` (atom `i` is
/// SAT variable `i`; an atom beyond the model's variables has no value).
pub open spec fn atom_values_spec(m: Seq<bool>, num_atoms: nat) -> Seq<Option<bool>> {
    Seq::new(num_atoms, |i: int| if i < m.len() { Some(m[i]) } else { None })
}

/// The values of the atoms in a SAT model.
pub fn atom_values(m: &Vec<bool>, num_atoms: usize) -> (v: Vec<Option<bool>>)
    ensures
        v@ == atom_values_spec(m@, num_atoms as nat),
{
    let mut v: Vec<Option<bool>> = Vec::new();
    let mut i: usize = 0;
    while i < num_atoms
        invariant
            i <= num_atoms,
            v@ == atom_values_spec(m@, i as nat),
        decreases num_atoms - i,
    {
        if i < m.len() {
            v.push(Some(m[i]));
        } else {
            v.push(None);
        }
        i = i + 1;
        assert(v@ =~= atom_values_spec(m@, i as nat));
    }
    v
}

/// Decide after a round: the SAT answer `sat` on the abstraction of a formula
/// with `num_atoms` atoms, and the verdicts of the theory checks on its model
/// (in order, up to the first conflict). `Unsat` exactly when the SAT search
/// found no model; with a model, `Sat` when every verdict is `Consistent`,
/// `Block` with the blocking clause of the model when some verdict is
/// `Conflict`, and `Retry` otherwise.
pub fn cdclt_round(sat: &SatOutcome, num_atoms: usize, verdicts: &Vec<TheoryCheckResult>) -> (r: CdcltAction)
    ensures
        (r is Unsat) == (*sat is Unsat),
        r matches CdcltAction::Sat(a) ==> (sat matches SatOutcome::Sat(m) && a@ == atom_values_spec(m@, num_atoms as nat))
            && forall|i: int| 0 <= i < verdicts@.len() ==> #[trigger] verdicts@[i] == TheoryCheckResult::Consistent,
        r matches CdcltAction::Block(c) ==> (sat matches SatOutcome::Sat(m) && c@ == blocking_spec(
            atom_values_spec(m@, num_atoms as nat),
        )) && exists|i: int| 0 <= i < verdicts@.len() && #[trigger] verdicts@[i] == TheoryCheckResult::Conflict,
        r is Retry ==> *sat is Sat && (forall|i: int|
            0 <= i < verdicts@.len() ==> #[trigger] verdicts@[i] != TheoryCheckResult::Conflict) && exists|i: int|
            0 <= i < verdicts@.len() && #[trigger] verdicts@[i] != TheoryCheckResult::Consistent,
        *sat is Sat ==> ((r is Sat) == forall|i: int|
            0 <= i < verdicts@.len() ==> #[trigger] verdicts@[i] == TheoryCheckResult::Consistent),
{
    match sat {
        SatOutcome::Unsat => CdcltAction::Unsat,
        SatOutcome::Sat(m) => {
            let mut all_consistent = true;
            let mut i: usize = 0;
            while i < verdicts.len()
                invariant
                    *sat == SatOutcome::Sat(*m),
                    i <= verdicts@.len(),
                    all_consistent == forall|k: int| 0 <= k < i ==> #[trigger] verdicts@[k] == TheoryCheckResult::Consistent,
                    forall|k: int| 0 <= k < i ==> #[trigger] verdicts@[k] != TheoryCheckResult::Conflict,
                decreases verdicts@.len() - i,
            {
                let v = verdicts[i];
                if v == TheoryCheckResult::Conflict {
                    let a = atom_values(m, num_atoms);
                    assert(verdicts@[i as int] == TheoryCheckResult::Conflict);
                    return CdcltAction::Block(blocking_clause(a.as_slice()));
                }
                if v != TheoryCheckResult::Consistent {
                    all_consistent = false;
                }
                i = i + 1;
            }
            if all_consistent {
                CdcltAction::Sat(atom_values(m, num_atoms))
            } else {
                CdcltAction::Retry
            }
        },
    }
}

} // verus!
