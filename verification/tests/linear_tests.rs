use dsuni::common::Var;
use dsuni::linear::rational::gcd;
use dsuni::linear::{
    normalize_constraint, Bound, CmpOp, Domain, LinearConstraint, LinearExpr, LinearSystem, LinearTerm, Objective,
    Rational,
};

// ── rationals ─────────────────────────────────────────────────────────

#[test]
fn test_basic_construction() {
    let r = Rational::new(3, 4);
    assert_eq!(r.num(), 3);
    assert_eq!(r.den(), 4);
}

#[test]
fn test_normalization() {
    let r = Rational::new(6, 8);
    assert_eq!(r.num(), 3);
    assert_eq!(r.den(), 4);
}

#[test]
fn test_negative_denominator() {
    let r = Rational::new(3, -4);
    assert_eq!(r.num(), -3);
    assert_eq!(r.den(), 4);
}

#[test]
fn test_zero() {
    assert!(Rational::zero().is_zero());
    assert_eq!(Rational::zero().num(), 0);
    assert_eq!(Rational::zero().den(), 1);
}

#[test]
fn test_one() {
    assert!(Rational::one().is_one());
    assert_eq!(Rational::new(5, 5), Rational::one());
}

#[test]
fn rational_test_addition() {
    let a = Rational::new(1, 2);
    let b = Rational::new(1, 3);
    assert_eq!(a + b, Rational::new(5, 6));
}

#[test]
fn test_subtraction() {
    let a = Rational::new(3, 4);
    let b = Rational::new(1, 4);
    assert_eq!(a - b, Rational::new(1, 2));
}

#[test]
fn test_multiplication() {
    let a = Rational::new(2, 3);
    let b = Rational::new(3, 4);
    assert_eq!(a * b, Rational::new(1, 2));
}

#[test]
fn test_division() {
    let a = Rational::new(2, 3);
    let b = Rational::new(3, 4);
    assert_eq!(a / b, Rational::new(8, 9));
}

#[test]
fn rational_test_negation() {
    let r = Rational::new(3, 5);
    assert_eq!(-r, Rational::new(-3, 5));
}

#[test]
fn test_compound_assign() {
    // The library offers `+` and `*` (with their overflow preconditions)
    // rather than `+=` and `*=`: the same updates, written out.
    let mut r = Rational::new(1, 2);
    r = r + Rational::new(1, 3);
    assert_eq!(r, Rational::new(5, 6));
    r = r * Rational::new(2, 1);
    assert_eq!(r, Rational::new(5, 3));
}

#[test]
fn test_abs() {
    assert_eq!(Rational::new(-3, 4).abs(), Rational::new(3, 4));
}

#[test]
fn test_comparison() {
    assert!(Rational::new(1, 3) < Rational::new(1, 2));
    assert!(Rational::new(5, 2) > Rational::new(2, 1));
    assert_eq!(Rational::new(2, 4), Rational::new(3, 6));
}

#[test]
fn test_from_integer() {
    assert_eq!(Rational::from(5), Rational::new(5, 1));
    assert_eq!(Rational::from(-3i32), Rational::new(-3, 1));
}

#[test]
fn test_gcd() {
    assert_eq!(gcd(12, 8), 4);
    assert_eq!(gcd(7, 3), 1);
    assert_eq!(gcd(0, 5), 5);
}

#[test]
fn rational_checked_ops() {
    let big = Rational::new(i64::MAX, 1);
    assert_eq!(big.checked_add(Rational::one()), None);
    assert_eq!(Rational::new(1, 2).checked_add(Rational::new(1, 2)), Some(Rational::one()));
    assert_eq!(Rational::new(1, 2).checked_div(Rational::zero()), None);
    assert_eq!(Rational::new(i64::MIN, 1).checked_neg(), None);
    assert_eq!(Rational::new(2, 3).checked_mul(Rational::new(3, 2)), Some(Rational::one()));
    assert_eq!(Rational::new(2, 3).checked_sub(Rational::new(2, 3)), Some(Rational::zero()));
}

#[test]
fn rational_order_is_exact() {
    // 1/3 < 1/2 < 2/3, compared without rounding.
    let a = Rational::new(1, 3);
    let b = Rational::new(1, 2);
    let c = Rational::new(2, 3);
    assert!(a.less_than(&b));
    assert!(b.less_than(&c));
    assert!(a.less_than(&c));
    assert_eq!(a.compare(&a), 0);
    assert_eq!(c.compare(&a), 1);
    assert_eq!(a.max_of(c), c);
    assert_eq!(a.min_of(c), a);
}

#[test]
fn rational_text() {
    assert_eq!(Rational::new(5, 1).to_string(), "5");
    assert_eq!(Rational::new(-3, 4).to_string(), "-3/4");
    assert_eq!(Var::new(12).to_string(), "x12");
}

// ── expressions ───────────────────────────────────────────────────────

#[test]
fn test_constant() {
    let e = LinearExpr::constant(Rational::new(5, 1));
    assert!(e.is_constant());
    assert_eq!(e.to_string(), "5");
}

#[test]
fn test_from_var() {
    let e = LinearExpr::from_var(Var::new(0));
    assert_eq!(e.num_terms(), 1);
    assert_eq!(e.to_string(), "x0");
}

#[test]
fn test_eval() {
    let mut e = LinearExpr::from_var(Var::new(0));
    e.constant = Rational::new(1, 1);
    let val = e.eval(|v| if v == Var::new(0) { Rational::new(3, 1) } else { Rational::zero() });
    assert_eq!(val, Rational::new(4, 1));
}

#[test]
fn expr_test_negation() {
    let e = LinearExpr::from_var(Var::new(0));
    let ne = e.neg();
    assert_eq!(ne.coeff(Var::new(0)), Rational::neg_one());
}

#[test]
fn expr_test_addition() {
    let a = LinearExpr::from_var(Var::new(0));
    let b = LinearExpr::from_var(Var::new(1));
    let c = a + b;
    assert_eq!(c.num_terms(), 2);
}

#[test]
fn test_merge_same_var() {
    let a = LinearExpr::from_term(LinearTerm::new(Rational::new(2, 1), Var::new(0)));
    let b = LinearExpr::from_term(LinearTerm::new(Rational::new(3, 1), Var::new(0)));
    let c = a + b;
    assert_eq!(c.num_terms(), 1);
    assert_eq!(c.coeff(Var::new(0)), Rational::new(5, 1));
}

#[test]
fn test_scalar_mul() {
    let e = LinearExpr::from_var(Var::new(0)) * Rational::new(3, 1);
    assert_eq!(e.coeff(Var::new(0)), Rational::new(3, 1));
}

#[test]
fn test_zero_coeff_pruned() {
    let e = LinearExpr::from_term(LinearTerm::new(Rational::zero(), Var::new(0)));
    assert!(e.is_constant());
}

#[test]
fn test_vars() {
    let e = LinearExpr::from_var(Var::new(5)) + LinearExpr::from_var(Var::new(2));
    assert_eq!(e.vars(), vec![Var::new(2), Var::new(5)]);
}

#[test]
fn expr_text_forms() {
    let e = LinearExpr::constant(Rational::new(1, 1))
        + LinearExpr::from_var(Var::new(0))
        + LinearExpr::from_var(Var::new(1)) * Rational::neg_one()
        + LinearExpr::from_var(Var::new(2)) * Rational::new(2, 1);
    assert_eq!(e.to_string(), "1 + x0 + -x1 + 2*x2");
    assert_eq!(LinearExpr::zero().to_string(), "0");
}

#[test]
fn expr_negation_twice_is_identity() {
    let e = LinearExpr::from_var(Var::new(3)) * Rational::new(2, 5) + LinearExpr::from(Rational::new(7, 2));
    let back = e.neg().neg();
    assert_eq!(back, e);
}

#[test]
fn expr_negation_negates_the_value() {
    let e = LinearExpr::from_var(Var::new(0)) * Rational::new(2, 3)
        + LinearExpr::from_var(Var::new(1)) * Rational::new(-5, 4)
        + LinearExpr::from(Rational::new(1, 6));
    let point = |v: Var| if v == Var::new(0) { Rational::new(3, 7) } else { Rational::new(-2, 5) };
    let value = e.eval(point);
    let negated = e.neg().eval(point);
    // 2/3 * 3/7 - 5/4 * (-2/5) + 1/6 = 2/7 + 1/2 + 1/6 = 20/21
    assert_eq!(value, Rational::new(20, 21));
    assert_eq!(negated, Rational::new(-20, 21));
}

#[test]
fn rational_recip_round_trip_and_lowest_terms() {
    let r = Rational::new(-6, 4);
    assert_eq!((r.num(), r.den()), (-3, 2));
    let inv = r.recip();
    assert_eq!((inv.num(), inv.den()), (-2, 3));
    assert_eq!(inv.recip(), r);
    let s = Rational::new(14, -21);
    assert_eq!((s.num(), s.den()), (-2, 3));
}

#[test]
fn rational_equal_exactly_when_cross_products_agree() {
    assert_eq!(Rational::new(6, 8), Rational::new(3, 4));
    assert_eq!((Rational::new(6, 8).num(), Rational::new(6, 8).den()), (3, 4));
    assert_eq!((Rational::new(3, -4).num(), Rational::new(3, -4).den()), (-3, 4));
    assert_eq!(Rational::new(-10, -15), Rational::new(2, 3));
    assert_ne!(Rational::new(1, 2), Rational::new(2, 3));
    assert_eq!(Rational::new(0, 5), Rational::new(0, -7));
}

#[test]
fn rational_arithmetic_is_exact() {
    let a = Rational::new(3, 4);
    let b = Rational::new(-5, 6);
    assert_eq!(a + b, Rational::new(-1, 12));
    assert_eq!(a - b, Rational::new(19, 12));
    assert_eq!(a * b, Rational::new(-5, 8));
    assert_eq!(a / b, Rational::new(-9, 10));
    assert_eq!(-b, Rational::new(5, 6));
}

// ── bounds and domains ────────────────────────────────────────────────

#[test]
fn test_free_bound() {
    let b = Bound::free();
    assert!(b.contains(Rational::new(100, 1)));
    assert!(b.contains(Rational::new(-100, 1)));
}

#[test]
fn test_lower_bound() {
    let b = Bound::lower(Rational::new(0, 1));
    assert!(b.contains(Rational::new(5, 1)));
    assert!(b.contains(Rational::zero()));
    assert!(!b.contains(Rational::new(-1, 1)));
}

#[test]
fn test_upper_bound() {
    let b = Bound::upper(Rational::new(10, 1));
    assert!(b.contains(Rational::new(5, 1)));
    assert!(!b.contains(Rational::new(11, 1)));
}

#[test]
fn test_fixed_bound() {
    let b = Bound::fixed(Rational::new(5, 1));
    assert!(b.is_fixed());
    assert!(b.contains(Rational::new(5, 1)));
    assert!(!b.contains(Rational::new(4, 1)));
}

#[test]
fn test_intersect() {
    let a = Bound::new(Some(Rational::new(0, 1)), Some(Rational::new(10, 1)));
    let b = Bound::new(Some(Rational::new(5, 1)), Some(Rational::new(15, 1)));
    let c = a.intersect(&b).unwrap();
    assert_eq!(c.lower, Some(Rational::new(5, 1)));
    assert_eq!(c.upper, Some(Rational::new(10, 1)));
}

#[test]
fn test_intersect_infeasible() {
    let a = Bound::new(Some(Rational::new(0, 1)), Some(Rational::new(5, 1)));
    let b = Bound::new(Some(Rational::new(10, 1)), Some(Rational::new(15, 1)));
    assert!(a.intersect(&b).is_none());
}

#[test]
fn bound_intersection_contains_exactly_common_values() {
    let a = Bound::new(Some(Rational::new(0, 1)), Some(Rational::new(10, 1)));
    let b = Bound::new(Some(Rational::new(5, 1)), None);
    let c = a.intersect(&b).unwrap();
    for v in [-1i64, 0, 4, 5, 7, 10, 11] {
        let r = Rational::new(v, 1);
        assert_eq!(c.contains(r), a.contains(r) && b.contains(r));
    }
}

#[test]
fn test_domain() {
    let d = Domain::integer(Var::new(0)).with_bound(Bound::new(Some(Rational::zero()), Some(Rational::new(10, 1))));
    assert!(d.is_integer);
    assert!(d.bound.contains(Rational::new(5, 1)));
}

// ── constraints ───────────────────────────────────────────────────────

#[test]
fn test_eq_constraint() {
    let c = LinearConstraint::eq(LinearExpr::from_var(Var::new(0)));
    assert_eq!(c.op, CmpOp::Eq);
}

#[test]
fn test_le_constraint() {
    let c = LinearConstraint::le(LinearExpr::from_var(Var::new(0)));
    assert_eq!(c.op, CmpOp::Le);
}

#[test]
fn test_ge_to_le() {
    let c = LinearConstraint::ge(LinearExpr::from_var(Var::new(0)));
    let le = c.to_le();
    assert_eq!(le.op, CmpOp::Le);
    // x0 >= 0 → -x0 <= 0
    assert_eq!(le.expr.coeff(Var::new(0)), Rational::neg_one());
}

#[test]
fn test_check_eq() {
    let c = LinearConstraint::eq(LinearExpr::constant(Rational::zero()));
    assert!(c.check(|_| Rational::zero()));
}

#[test]
fn test_check_le() {
    let c = LinearConstraint::le(LinearExpr::constant(Rational::new(-3, 1)));
    assert!(c.check(|_| Rational::zero()));
}

#[test]
fn test_check_ge_false() {
    let c = LinearConstraint::ge(LinearExpr::constant(Rational::new(-1, 1)));
    // -1 >= 0 is false
    assert!(!c.check(|_| Rational::zero()));
}

#[test]
fn to_le_keeps_satisfaction() {
    let c = LinearConstraint::ge(LinearExpr::from_var(Var::new(0)) - LinearExpr::from(2i64));
    let le = c.to_le();
    for v in [0i64, 1, 2, 3, 9] {
        let at = |_: Var| Rational::new(v, 1);
        assert_eq!(c.check(at), le.check(at));
    }
}

#[test]
fn cmp_op_flip_twice() {
    assert_eq!(CmpOp::Le.flip(), CmpOp::Ge);
    assert_eq!(CmpOp::Le.flip().flip(), CmpOp::Le);
    assert_eq!(CmpOp::Eq.flip(), CmpOp::Eq);
}

#[test]
fn test_objective() {
    let obj = Objective::Minimise(LinearExpr::from_var(Var::new(0)));
    assert!(!obj.is_feasibility());
    assert!(obj.expr().is_some());

    assert!(Objective::Feasibility.is_feasibility());
}

// ── normalisation ─────────────────────────────────────────────────────

#[test]
fn test_le_stays_le() {
    let c = LinearConstraint::le(LinearExpr::from_var(Var::new(0)) - LinearExpr::from(5i64));
    let nc = normalize_constraint(&c);
    assert_eq!(nc.op, CmpOp::Le);
}

#[test]
fn test_ge_becomes_le() {
    let c = LinearConstraint::ge(LinearExpr::from_var(Var::new(0)) - LinearExpr::from(3i64));
    let nc = normalize_constraint(&c);
    assert_eq!(nc.op, CmpOp::Le);
    // x0 - 3 >= 0 becomes -x0 + 3 <= 0
    assert_eq!(nc.expr.coeff(Var::new(0)), Rational::neg_one());
    assert_eq!(nc.expr.constant, Rational::new(3, 1));
}

#[test]
fn test_constant_folding() {
    let c = LinearConstraint::le(LinearExpr::from_var(Var::new(0)) + LinearExpr::from_var(Var::new(0)));
    let nc = normalize_constraint(&c);
    assert_eq!(nc.expr.num_terms(), 1);
    assert_eq!(nc.expr.coeff(Var::new(0)), Rational::new(2, 1));
}

#[test]
fn test_coeff_reduction() {
    // 2*x0 + 4*x1 - 2 <= 0  →  x0 + 2*x1 - 1 <= 0
    let mut expr = LinearExpr::from_var(Var::new(0)) * Rational::new(2, 1);
    expr = expr + LinearExpr::from_var(Var::new(1)) * Rational::new(4, 1);
    expr = expr - LinearExpr::from(2i64);
    let c = LinearConstraint::le(expr);
    let nc = normalize_constraint(&c);
    assert_eq!(nc.expr.coeff(Var::new(0)), Rational::one());
    assert_eq!(nc.expr.coeff(Var::new(1)), Rational::new(2, 1));
    assert_eq!(nc.expr.constant, Rational::neg_one());
}

#[test]
fn test_eq_normalize() {
    let c = LinearConstraint::eq(LinearExpr::from_var(Var::new(0)) * Rational::new(3, 1) + LinearExpr::from(6i64));
    let nc = normalize_constraint(&c);
    assert_eq!(nc.op, CmpOp::Eq);
    assert_eq!(nc.expr.coeff(Var::new(0)), Rational::one());
    assert_eq!(nc.expr.constant, Rational::new(2, 1));
}

#[test]
fn normalize_is_idempotent_on_example() {
    let c = LinearConstraint::ge(LinearExpr::from_var(Var::new(1)) * Rational::new(4, 1) - LinearExpr::from(8i64));
    let once = normalize_constraint(&c);
    let twice = normalize_constraint(&once);
    assert_eq!(twice.op, once.op);
    assert_eq!(twice.expr, once.expr);
}

// ── systems ───────────────────────────────────────────────────────────

#[test]
fn test_empty_system() {
    let sys = LinearSystem::new();
    assert_eq!(sys.num_vars(), 0);
    assert_eq!(sys.num_constraints(), 0);
    assert!(sys.objective().is_feasibility());
}

#[test]
fn test_new_var() {
    let mut sys = LinearSystem::new();
    let v = sys.new_var();
    assert_eq!(v, Var::new(0));
    assert_eq!(sys.num_vars(), 1);
    let d = sys.domain(v).unwrap();
    assert!(!d.is_integer);
}

#[test]
fn test_new_int_var() {
    let mut sys = LinearSystem::new();
    let v = sys.new_int_var();
    assert!(sys.is_integer(v));
}

#[test]
fn test_add_constraint() {
    let mut sys = LinearSystem::new();
    let c = LinearConstraint::le(LinearExpr::from(Rational::new(5, 1)));
    sys.add_constraint(c);
    assert_eq!(sys.num_constraints(), 1);
}

#[test]
fn test_set_objective() {
    let mut sys = LinearSystem::new();
    let v = sys.new_var();
    sys.set_objective(Objective::Minimise(LinearExpr::from_var(v)));
    assert!(!sys.objective().is_feasibility());
}

#[test]
fn test_set_bound() {
    let mut sys = LinearSystem::new();
    let v = sys.new_var();
    sys.set_bound(v, Bound::new(Some(Rational::zero()), Some(Rational::new(10, 1))));
    let d = sys.domain(v).unwrap();
    assert_eq!(d.bound.lower, Some(Rational::zero()));
    assert_eq!(d.bound.upper, Some(Rational::new(10, 1)));
}

#[test]
fn system_check_solution() {
    let mut sys = LinearSystem::new();
    let x = sys.new_var();
    sys.set_bound(x, Bound::new(Some(Rational::zero()), Some(Rational::new(4, 1))));
    sys.add_constraint(LinearConstraint::le(LinearExpr::from_var(x) - LinearExpr::from(3i64)));
    assert!(sys.check_solution(|_| Rational::new(2, 1)));
    assert!(!sys.check_solution(|_| Rational::new(7, 2)));
    assert!(!sys.check_solution(|_| Rational::new(-1, 1)));
    sys.clear();
    assert_eq!(sys.num_vars(), 0);
}
