use dsuni::common::{Sort, SolverStats, UnknownReason, Var};
use dsuni::linear::{Bound, Domain, LinearConstraint, LinearExpr, Objective, Rational};
use dsuni::sat::Lit;
use dsuni::smt::{blocking_clause, TClause, TheoryLit};

#[test]
fn literal_text_is_one_indexed() {
    assert_eq!(Lit::positive(4).to_string(), "x5");
    assert_eq!(Lit::negative(0).to_string(), "~x1");
}

#[test]
fn sort_and_reason_text() {
    assert_eq!(Sort::Bool.to_string(), "Bool");
    assert_eq!(Sort::Real.to_string(), "Real");
    assert_eq!(UnknownReason::ResourceLimit.to_string(), "resource limit");
    assert_eq!(UnknownReason::InternalReason("gone".to_string()).to_string(), "internal: gone");
}

#[test]
fn stats_report() {
    let mut s = SolverStats::new();
    assert_eq!(
        s.to_string(),
        "  elapsed: 0 ms\n  decisions: 0\n  propagations: 0\n  conflicts: 0\n  restarts: 0\n  nodes: 0\n  simplex iterations: 0\n"
    );
    s.decisions = 12;
    s.memory_mb = Some(3);
    let text = s.to_string();
    assert!(text.contains("  decisions: 12\n"));
    assert!(text.ends_with("  memory: 3 MB\n"));
}

#[test]
fn bound_text_forms() {
    assert_eq!(Bound::free().to_string(), "free");
    assert_eq!(Bound::lower(Rational::zero()).to_string(), ">=0");
    assert_eq!(Bound::upper(Rational::new(-3, 2)).to_string(), "<=-3/2");
    assert_eq!(Bound::fixed(Rational::one()).to_string(), "=1");
    assert_eq!(Bound::new(Some(Rational::zero()), Some(Rational::new(1, 2))).to_string(), "[0, 1/2]");
}

#[test]
fn domain_text_form() {
    let d = Domain::integer(Var::new(3)).with_bound(Bound::lower(Rational::zero()));
    assert_eq!(d.to_string(), "x3::Int [>=0]");
    assert_eq!(Domain::real_var(Var::new(0)).to_string(), "x0::Real [free]");
}

#[test]
fn constraint_and_objective_text() {
    let e = LinearExpr::from_var(Var::new(0));
    let c = LinearConstraint::le(e.clone());
    assert_eq!(c.to_string(), "x0 <= 0");
    let mut named = LinearConstraint::ge(e.clone());
    named.name = Some("c1".to_string());
    assert_eq!(named.to_string(), "c1: x0 >= 0");
    assert_eq!(Objective::Minimise(e).to_string(), "minimise x0");
    assert_eq!(Objective::Feasibility.to_string(), "feasibility");
}

#[test]
fn theory_clause_as_sat_clause() {
    let tc = TClause { lits: vec![TheoryLit::new(2, true), TheoryLit::new(0, false)] };
    let lits = tc.to_sat_lits();
    assert_eq!(lits, vec![Lit::positive(2), Lit::negative(0)]);
}

#[test]
fn blocking_clause_flips_assigned_atoms() {
    let b = blocking_clause(&[Some(true), None, Some(false)]);
    assert_eq!(b, vec![Lit::negative(0), Lit::positive(2)]);
    assert!(blocking_clause(&[None, None]).is_empty());
}
