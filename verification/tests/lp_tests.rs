use dsuni::common::Config;
use dsuni::linear::{LinearConstraint, LinearExpr, LinearSystem, Objective, Rational};
use dsuni::lp::{solve_lp, LpOutcome, LpSolver, Tableau};
use dsuni::lp::standard_form::build_initial_tableau;

#[test]
fn test_new_tableau() {
    let t = Tableau::new(2, 3);
    assert_eq!(t.num_struct, 2);
    assert_eq!(t.num_constraints, 3);
    assert_eq!(t.num_cols, 2 + 3 + 1);
    assert_eq!(t.num_rows(), 4);
}

#[test]
fn tableau_mutable_cells_and_rows() {
    let mut t = Tableau::new(2, 1);
    *t.get_mut(1, 0) = Rational::new(3, 4);
    assert_eq!(t.get(1, 0), &Rational::new(3, 4));
    t.row_mut(1)[1] = Rational::new(-1, 1);
    assert_eq!(t.get(1, 1), &Rational::new(-1, 1));
    assert_eq!(t.row(1)[0], Rational::new(3, 4));
}

#[test]
fn test_set_basic() {
    let mut t = Tableau::new(3, 2);
    t.set_basic(1, 3);
    t.set_basic(2, 4);
    assert_eq!(t.basic[1], Some(3));
    assert_eq!(t.basic[2], Some(4));
}

#[test]
fn test_pivot_identity() {
    let mut t = Tableau::new(2, 1);
    // Row 1 (constraint 0): x0 + slack = 5
    t.set_coeff(0, 0, Rational::new(1, 1));
    t.set_coeff(0, 1, Rational::new(1, 1));
    t.set_rhs(0, Rational::new(5, 1));
    t.set_basic(1, 1);
    t.set_obj_coeff(0, Rational::new(1, 1));
    assert_eq!(t.get(1, 0), &Rational::new(1, 1));
    assert_eq!(t.get(1, 1), &Rational::new(1, 1));
    assert_eq!(t.rhs(1), &Rational::new(5, 1));
    t.pivot(1, 0);
    assert_eq!(t.get(0, 0), &Rational::zero());
    assert_eq!(t.basic[1], Some(0));
}

#[test]
fn test_find_entering() {
    let mut t = Tableau::new(2, 1);
    t.set_obj_coeff(0, Rational::new(3, 1));
    t.set_obj_coeff(1, Rational::new(1, 1));
    let entering = t.find_entering();
    assert_eq!(entering, Some(0));
}

#[test]
fn test_find_entering_no_candidate() {
    let t = Tableau::new(2, 1);
    assert_eq!(t.find_entering(), None);
}

#[test]
fn test_find_entering_negative_optimal() {
    let mut t = Tableau::new(2, 1);
    t.set_obj_coeff(0, Rational::new(-3, 1));
    assert_eq!(t.find_entering(), None);
}

#[test]
fn test_find_leaving() {
    let mut t = Tableau::new(2, 2);
    t.set_basic(1, 2);
    t.set_basic(2, 3);
    t.set_coeff(0, 0, Rational::new(2, 1));
    t.set_coeff(0, 1, Rational::new(1, 1));
    t.set_rhs(0, Rational::new(10, 1));
    t.set_coeff(1, 0, Rational::new(1, 1));
    t.set_coeff(1, 1, Rational::new(3, 1));
    t.set_rhs(1, Rational::new(12, 1));
    let leaving = t.find_leaving(0);
    assert_eq!(leaving, Some((1, 2)));
}

#[test]
fn test_objective_value() {
    let t = Tableau::new(2, 1);
    assert_eq!(t.objective_value(), Rational::zero());
}

#[test]
fn entering_ties_pick_first_column() {
    let mut t = Tableau::new(3, 1);
    t.set_obj_coeff(0, Rational::new(1, 1));
    t.set_obj_coeff(1, Rational::new(2, 1));
    t.set_obj_coeff(2, Rational::new(2, 1));
    assert_eq!(t.find_entering(), Some(1));
}

#[test]
fn pivot_makes_unit_column() {
    let mut t = Tableau::new(2, 2);
    t.set_coeff(0, 0, Rational::new(2, 1));
    t.set_coeff(0, 1, Rational::new(1, 1));
    t.set_rhs(0, Rational::new(4, 1));
    t.set_coeff(1, 0, Rational::new(1, 1));
    t.set_coeff(1, 1, Rational::new(3, 1));
    t.set_rhs(1, Rational::new(6, 1));
    t.set_obj_coeff(0, Rational::new(1, 1));
    assert!(t.can_pivot(1, 0));
    assert!(t.try_pivot(1, 0));
    assert_eq!(t.get(1, 0), &Rational::one());
    assert_eq!(t.get(2, 0), &Rational::zero());
    assert_eq!(t.get(0, 0), &Rational::zero());
    assert_eq!(t.rhs(1), &Rational::new(2, 1));
    assert_eq!(t.rhs(2), &Rational::new(4, 1));
    assert_eq!(t.get(2, 1), &Rational::new(5, 2));
    assert_eq!(t.variable_value(0), Rational::new(2, 1));
    assert_eq!(t.variable_value(1), Rational::zero());
    // A zero pivot entry is refused and leaves the tableau unchanged.
    assert!(!t.try_pivot(1, 2));
    assert_eq!(t.get(1, 0), &Rational::one());
}

#[test]
fn test_simple_lp() {
    // min -x0 s.t. x0 <= 5, x0 >= 0 → optimal = -5 at x0 = 5
    let mut sys = LinearSystem::new();
    let x = sys.new_var();
    sys.add_constraint(LinearConstraint::le(LinearExpr::from_var(x) - LinearExpr::from(5i64)));
    sys.set_objective(Objective::Minimise(LinearExpr::from_var(x) * Rational::neg_one()));
    let mut solver = LpSolver::new(Config::default());
    solver.load(&sys);
    match solver.solve() {
        LpOutcome::Optimal(model, obj) => {
            assert_eq!(obj, Rational::new(-5, 1));
            assert!(model.iter().any(|(v, _)| *v == x));
        }
        other => panic!("Expected optimal, got {:?}", other),
    }
}

#[test]
fn test_infeasible() {
    // x0 <= 0, x0 >= 5
    let mut sys = LinearSystem::new();
    let x = sys.new_var();
    sys.add_constraint(LinearConstraint::le(LinearExpr::from_var(x)));
    sys.add_constraint(LinearConstraint::ge(LinearExpr::from_var(x) - LinearExpr::from(5i64)));
    let mut solver = LpSolver::new(Config::default());
    solver.load(&sys);
    assert_eq!(solver.solve(), LpOutcome::Infeasible);
}

#[test]
fn lp_maximisation_two_vars() {
    // max 3x0 + 2x1 s.t. x0 + x1 <= 4, x0 + 3x1 <= 6 → 12 at (4, 0)
    let mut sys = LinearSystem::new();
    let x0 = sys.new_var();
    let x1 = sys.new_var();
    sys.add_constraint(LinearConstraint::le(
        LinearExpr::from_var(x0) + LinearExpr::from_var(x1) - LinearExpr::from(4i64),
    ));
    sys.add_constraint(LinearConstraint::le(
        LinearExpr::from_var(x0) + LinearExpr::from_var(x1) * Rational::new(3, 1) - LinearExpr::from(6i64),
    ));
    sys.set_objective(Objective::Maximise(
        LinearExpr::from_var(x0) * Rational::new(3, 1) + LinearExpr::from_var(x1) * Rational::new(2, 1),
    ));
    match solve_lp(&sys, &Config::default()) {
        LpOutcome::Optimal(model, obj) => {
            assert_eq!(obj, Rational::new(12, 1));
            assert_eq!(model, vec![(x0, Rational::new(4, 1)), (x1, Rational::zero())]);
        }
        other => panic!("Expected optimal, got {:?}", other),
    }
}

#[test]
fn lp_unbounded() {
    // min -x0 s.t. x0 >= 1
    let mut sys = LinearSystem::new();
    let x = sys.new_var();
    sys.add_constraint(LinearConstraint::ge(LinearExpr::from_var(x) - LinearExpr::from(1i64)));
    sys.set_objective(Objective::Minimise(LinearExpr::from_var(x) * Rational::neg_one()));
    assert_eq!(solve_lp(&sys, &Config::default()), LpOutcome::Unbounded);
}

#[test]
fn lp_fractional_optimum() {
    // max x0 s.t. 2*x0 <= 3 → x0 = 3/2
    let mut sys = LinearSystem::new();
    let x = sys.new_var();
    sys.add_constraint(LinearConstraint::le(LinearExpr::from_var(x) * Rational::new(2, 1) - LinearExpr::from(3i64)));
    sys.set_objective(Objective::Maximise(LinearExpr::from_var(x)));
    match solve_lp(&sys, &Config::default()) {
        LpOutcome::Optimal(model, obj) => {
            assert_eq!(obj, Rational::new(3, 2));
            assert_eq!(model, vec![(x, Rational::new(3, 2))]);
        }
        other => panic!("Expected optimal, got {:?}", other),
    }
}

#[test]
fn lp_equality_row_optimum() {
    // min x0 s.t. 2*x0 = 3: the artificial column, out of the basis after
    // phase I, stays out, and the optimum is x0 = 3/2.
    let mut sys = LinearSystem::new();
    let x = sys.new_var();
    sys.add_constraint(LinearConstraint::eq(LinearExpr::from_var(x) * Rational::new(2, 1) - LinearExpr::from(3i64)));
    sys.set_objective(Objective::Minimise(LinearExpr::from_var(x)));
    match solve_lp(&sys, &Config::default()) {
        LpOutcome::Optimal(model, obj) => {
            assert_eq!(obj, Rational::new(3, 2));
            assert_eq!(model, vec![(x, Rational::new(3, 2))]);
        }
        other => panic!("Expected optimal, got {:?}", other),
    }
}

#[test]
fn lp_minimisation_objective_constant() {
    // min x0 + 5 s.t. x0 >= 1 → 6 at x0 = 1
    let mut sys = LinearSystem::new();
    let x = sys.new_var();
    sys.add_constraint(LinearConstraint::ge(LinearExpr::from_var(x) - LinearExpr::from(1i64)));
    sys.set_objective(Objective::Minimise(LinearExpr::from_var(x) + LinearExpr::from(5i64)));
    match solve_lp(&sys, &Config::default()) {
        LpOutcome::Optimal(model, obj) => {
            assert_eq!(obj, Rational::new(6, 1));
            assert_eq!(model, vec![(x, Rational::new(1, 1))]);
        }
        other => panic!("Expected optimal, got {:?}", other),
    }
}

#[test]
fn lp_maximisation_objective_constant() {
    // max 5 - x0 s.t. x0 >= 1 → 4 at x0 = 1
    let mut sys = LinearSystem::new();
    let x = sys.new_var();
    sys.add_constraint(LinearConstraint::ge(LinearExpr::from_var(x) - LinearExpr::from(1i64)));
    sys.set_objective(Objective::Maximise(LinearExpr::from(5i64) - LinearExpr::from_var(x)));
    match solve_lp(&sys, &Config::default()) {
        LpOutcome::Optimal(model, obj) => {
            assert_eq!(obj, Rational::new(4, 1));
            assert_eq!(model, vec![(x, Rational::new(1, 1))]);
        }
        other => panic!("Expected optimal, got {:?}", other),
    }
}

#[test]
fn lp_negated_le_row_is_feasible() {
    // min x0 s.t. 2 - x0 <= 0 → 2 at x0 = 2
    let mut sys = LinearSystem::new();
    let x = sys.new_var();
    sys.add_constraint(LinearConstraint::le(LinearExpr::from(2i64) - LinearExpr::from_var(x)));
    sys.set_objective(Objective::Minimise(LinearExpr::from_var(x)));
    match solve_lp(&sys, &Config::default()) {
        LpOutcome::Optimal(model, obj) => {
            assert_eq!(obj, Rational::new(2, 1));
            assert_eq!(model, vec![(x, Rational::new(2, 1))]);
        }
        other => panic!("Expected optimal, got {:?}", other),
    }
}

#[test]
fn initial_tableau_gives_every_row_a_basic_column() {
    let mut sys = LinearSystem::new();
    let x = sys.new_var();
    sys.add_constraint(LinearConstraint::le(LinearExpr::from(2i64) - LinearExpr::from_var(x)));
    let (t, map, art) = build_initial_tableau(&sys).unwrap();
    // x0, the slack (-1 after the row is negated) and the artificial (+1).
    assert_eq!(t.num_struct, 3);
    assert_eq!(art, vec![2]);
    assert_eq!(t.basic[1], Some(2));
    assert_eq!(t.get(1, 0), &Rational::new(1, 1));
    assert_eq!(t.get(1, 1), &Rational::new(-1, 1));
    assert_eq!(t.get(1, 2), &Rational::new(1, 1));
    assert_eq!(t.rhs(1), &Rational::new(2, 1));
    assert_eq!(map.len(), 3);
}

#[test]
fn lp_without_system_is_unknown() {
    let mut solver = LpSolver::new(Config::default());
    match solver.solve() {
        LpOutcome::Unknown(dsuni::common::UnknownReason::InternalReason(m)) => assert_eq!(m, "no system loaded"),
        other => panic!("Expected unknown, got {:?}", other),
    }
}

#[test]
fn lp_variable_out_of_range_is_unknown() {
    let mut sys = LinearSystem::new();
    let _x = sys.new_var();
    sys.add_constraint(LinearConstraint::le(LinearExpr::from_var(dsuni::common::Var::new(40))));
    match solve_lp(&sys, &Config::default()) {
        LpOutcome::Unknown(dsuni::common::UnknownReason::InternalReason(_)) => {}
        other => panic!("Expected unknown, got {:?}", other),
    }
}
