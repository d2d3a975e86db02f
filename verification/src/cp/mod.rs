//! CP solver — constraint propagation with backtracking search.
//!
//! Architecture:
//!   Variable domains → Propagation queue → Fixed point
//!     → Backtracking search (variable/value selection)
//!     → Propagate again → Solution / Failure
use vstd::prelude::*;
use crate::common::Config;

pub mod dom;
pub mod propagator;
pub mod search;
pub mod soundness;
pub mod solution;
pub use dom::IntDomain;
pub use propagator::{PropResult, Propagator};
pub use search::{CpOutcome, CpSolver};

verus! {

/// A relation between a linear sum and its right-hand side.
#[derive(Debug, Clone, Copy, PartialEq, Eq, Structural)]
pub enum CmpRel {
    Le,
    Eq,
    Ge,
}

/// A CP constraint.
#[derive(Debug, Clone)]
pub enum CpConstraint {
    /// `x = y`
    Eq(usize, usize),
    /// `x ≠ y`
    Neq(usize, usize),
    /// `x < y`
    Lt(usize, usize),
    /// `x ≤ y + c`
    Le(usize, usize, i64),
    /// `Σ a_i x_i (≤ | = | ≥) b`
    Linear(Vec<(i64, usize)>, i64, CmpRel),
    /// all `x[i] ≠ x[j]` for `i ≠ j`
    AllDifferent(Vec<usize>),
}

/// A CP constraint as a mathematical value.
pub enum ConstraintView {
    Eq(usize, usize),
    Neq(usize, usize),
    Lt(usize, usize),
    Le(usize, usize, i64),
    Linear(Seq<(i64, usize)>, i64, CmpRel),
    AllDifferent(Seq<usize>),
}

impl View for CpConstraint {
    type V = ConstraintView;

    open spec fn view(&self) -> ConstraintView {
        match *self {
            CpConstraint::Eq(a, b) => ConstraintView::Eq(a, b),
            CpConstraint::Neq(a, b) => ConstraintView::Neq(a, b),
            CpConstraint::Lt(a, b) => ConstraintView::Lt(a, b),
            CpConstraint::Le(a, b, c) => ConstraintView::Le(a, b, c),
            CpConstraint::Linear(t, b, r) => ConstraintView::Linear(t@, b, r),
            CpConstraint::AllDifferent(v) => ConstraintView::AllDifferent(v@),
        }
    }
}

/// A CP problem definition: named variables with inclusive ranges, and constraints.
#[derive(Debug, Clone)]
pub struct CpProblem {
    pub var_domains: Vec<(String, (i64, i64))>,
    pub constraints: Vec<CpConstraint>,
}

/// Every constraint names variables below `n`.
pub open spec fn constraint_vars_below(c: CpConstraint, n: int) -> bool {
    match c {
        CpConstraint::Eq(a, b) => a < n && b < n,
        CpConstraint::Neq(a, b) => a < n && b < n,
        CpConstraint::Lt(a, b) => a < n && b < n,
        CpConstraint::Le(a, b, _) => a < n && b < n,
        CpConstraint::Linear(t, _, _) => forall|k: int| 0 <= k < t@.len() ==> (#[trigger] t@[k]).1 < n,
        CpConstraint::AllDifferent(v) => forall|k: int| 0 <= k < v@.len() ==> #[trigger] v@[k] < n,
    }
}

/// The problems the solver accepts: constraints name declared variables,
/// and no range spans all of `i64`.
pub open spec fn cp_problem_ok(p: CpProblem) -> bool {
    &&& forall|k: int| 0 <= k < p.constraints@.len()
        ==> constraint_vars_below(#[trigger] p.constraints@[k], p.var_domains@.len() as int)
    &&& forall|i: int| 0 <= i < p.var_domains@.len()
        ==> dom::interval_size((#[trigger] p.var_domains@[i]).1.0 as int, p.var_domains@[i].1.1 as int) <= u64::MAX
}

/// The ranges of a problem's variables.
pub open spec fn problem_domains(p: CpProblem) -> Seq<(i64, i64)> {
    p.var_domains@.map_values(|d: (String, (i64, i64))| d.1)
}

/// Solve a CP problem.
pub fn solve_cp(problem: &CpProblem, config: &Config) -> (r: CpOutcome)
    requires
        cp_problem_ok(*problem),
    ensures
        r matches CpOutcome::Sat(m) ==> exists|ps: Seq<Propagator>| {
            &&& ps.len() == problem.constraints@.len()
            &&& (forall|k: int| 0 <= k < ps.len() ==> search::prop_for(#[trigger] ps[k], problem.constraints@[k]))
            &&& #[trigger] search::solution_found(ps, problem_domains(*problem), m@)
        },
        exists|ps: Seq<Propagator>| {
            &&& ps.len() == problem.constraints@.len()
            &&& (forall|k: int| 0 <= k < ps.len() ==> search::prop_for(#[trigger] ps[k], problem.constraints@[k]))
            &&& (r is Unsat <==> #[trigger] search::search_spec(ps, problem_domains(*problem)) is None)
            &&& (r matches CpOutcome::Sat(m) ==> search::search_spec(ps, problem_domains(*problem)) == Some(m@))
            &&& (r is Unsat && search::linear_distinct(ps) && search::sizes_fit(problem_domains(*problem))
                ==> forall|a: Seq<int>| !(#[trigger] soundness::within(problem_domains(*problem), a) && search::meets_all(ps, a)))
        },
        r matches CpOutcome::Sat(m) ==> forall|k: int|
            0 <= k < problem.constraints@.len() && solution::decided(problem.constraints@[k], solution::model_values(m@))
                ==> solution::constraint_holds(#[trigger] problem.constraints@[k], solution::model_values(m@)),
{
    let mut solver = CpSolver::new();
    solver.load(problem);
    proof {
        let ps = solver.spec_propagators();
        assert forall|k: int| 0 <= k < ps.len() implies propagator::vars_below(#[trigger] ps[k], solver.spec_domains().len() as int) by {
            assert(search::prop_for(ps[k], problem.constraints@[k]));
            assert(constraint_vars_below(problem.constraints@[k], problem.var_domains@.len() as int));
        }
        assert forall|i: int| 0 <= i < solver.spec_domains().len() implies dom::interval_size(
            (#[trigger] solver.spec_domains()[i]).0 as int, solver.spec_domains()[i].1 as int) <= u64::MAX by {
            assert(solver.spec_domains()[i] == problem.var_domains@[i].1);
        }
    }
    let ghost ps = solver.spec_propagators();
    let ghost ds = solver.spec_domains();
    assert(ds == problem_domains(*problem));
    let r = solver.solve();
    proof {
        assert(search::search_spec(ps, problem_domains(*problem)) == search::search_spec(ps, ds));
        if let CpOutcome::Sat(m) = &r {
            let f = choose|f: Seq<(i64, i64)>| {
                &&& #[trigger] propagator::seq_narrower(ds, f)
                &&& search::all_fixed(f)
                &&& search::at_fixpoint(ps, f)
                &&& m@ == search::model_of(f)
            };
            let vals = solution::model_values(m@);
            assert(vals =~= solution::values_of(f));
            assert forall|k: int|
                0 <= k < problem.constraints@.len() && solution::decided(problem.constraints@[k], vals)
                    implies solution::constraint_holds(#[trigger] problem.constraints@[k], vals) by {
                assert(search::prop_for(ps[k], problem.constraints@[k]));
                assert(propagator::vars_below(ps[k], ds.len() as int));
                assert(propagator::propagate_spec(ps[k], f) == Some(f));
                solution::lemma_fixpoint_satisfies(ps[k], problem.constraints@[k], f);
            }
        }
    }
    r
}

} // verus!
