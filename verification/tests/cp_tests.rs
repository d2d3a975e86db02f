use dsuni::common::Config;
use dsuni::cp::{solve_cp, CmpRel, CpConstraint, CpOutcome, CpProblem, CpSolver, IntDomain, PropResult, Propagator};

#[test]
fn test_new_domain() {
    let d = IntDomain::new(0, 10);
    assert_eq!(d.min(), 0);
    assert_eq!(d.max(), 10);
}

#[test]
fn test_single() {
    let d = IntDomain::single(5);
    assert!(d.is_fixed());
    assert_eq!(d.value(), Some(5));
}

#[test]
fn test_prune_lb() {
    let mut d = IntDomain::new(0, 10);
    assert!(d.prune_lb(3));
    assert_eq!(d.min(), 3);
}

#[test]
fn test_prune_ub() {
    let mut d = IntDomain::new(0, 10);
    assert!(d.prune_ub(7));
    assert_eq!(d.max(), 7);
}

#[test]
fn test_prune_noop_still_valid() {
    let mut d = IntDomain::new(5, 10);
    assert!(d.prune_lb(3));
    assert!(d.prune_ub(15));
}

#[test]
fn domain_remove_and_size() {
    let mut d = IntDomain::new(2, 5);
    assert_eq!(d.size(), 4);
    assert!(d.remove(2));
    assert_eq!((d.min(), d.max()), (3, 5));
    assert!(d.remove(4));
    assert_eq!((d.min(), d.max()), (3, 5));
    assert!(d.remove(5));
    assert_eq!((d.min(), d.max()), (3, 4));
    let mut s = IntDomain::single(1);
    assert!(!s.remove(1));
    assert!(s.is_empty());
    assert_eq!(s.size(), 0);
    assert!(!IntDomain::new(0, 3).contains(4));
}

#[test]
fn test_eq_fixed() {
    let mut dom = vec![IntDomain::new(0, 10), IntDomain::new(0, 10)];
    let p = Propagator::Eq(0, 1);
    dom[0] = IntDomain::single(5);
    let r = p.propagate(&mut dom);
    assert_eq!(r, PropResult::Success);
    assert_eq!(dom[1].value(), Some(5));
}

#[test]
fn test_neq_conflict() {
    let mut dom = vec![IntDomain::single(3), IntDomain::single(3)];
    let p = Propagator::Neq(0, 1);
    let r = p.propagate(&mut dom);
    assert_eq!(r, PropResult::Failure);
}

#[test]
fn test_all_diff_endpoint() {
    let mut dom = vec![IntDomain::single(0), IntDomain::new(0, 10), IntDomain::new(0, 10)];
    let p = Propagator::AllDifferent(vec![0, 1, 2]);
    let r = p.propagate(&mut dom);
    assert_eq!(r, PropResult::Success);
    assert!(!dom[1].contains(0));
    assert!(!dom[2].contains(0));
}

#[test]
fn lt_and_le_propagation() {
    // x < y keeps x below max(y) and y above min(x): with x in [0, 3] and
    // y in [5, 9] nothing changes.
    let mut dom = vec![IntDomain::new(0, 3), IntDomain::new(5, 9)];
    assert_eq!(Propagator::Lt(0, 1).propagate(&mut dom), PropResult::Success);
    assert_eq!((dom[0].min(), dom[0].max()), (0, 3));
    assert_eq!((dom[1].min(), dom[1].max()), (5, 9));
    // x in [0, 5], y in [0, 10]: x < y has solutions; y loses 0.
    let mut dom = vec![IntDomain::new(0, 5), IntDomain::new(0, 10)];
    assert_eq!(Propagator::Lt(0, 1).propagate(&mut dom), PropResult::Success);
    assert_eq!((dom[0].min(), dom[0].max()), (0, 5));
    assert_eq!((dom[1].min(), dom[1].max()), (1, 10));
    // x in [5, 9], y in [0, 5]: x < y cannot hold.
    let mut dom = vec![IntDomain::new(5, 9), IntDomain::new(0, 5)];
    assert_eq!(Propagator::Lt(0, 1).propagate(&mut dom), PropResult::Failure);
    let mut dom = vec![IntDomain::new(5, 10), IntDomain::new(0, 3)];
    // x <= y + 1 → x <= 4, which empties x.
    assert_eq!(Propagator::Le(0, 1, 1).propagate(&mut dom), PropResult::Failure);
    let mut dom = vec![IntDomain::new(i64::MIN, 0), IntDomain::new(i64::MIN, 5)];
    // y rises above x's minimum.
    assert_eq!(Propagator::Lt(0, 1).propagate(&mut dom), PropResult::Success);
    assert_eq!((dom[1].min(), dom[1].max()), (i64::MIN + 1, 5));
}

#[test]
fn cp_lt_problem_is_satisfiable() {
    let problem = CpProblem {
        var_domains: vec![("x".into(), (0, 5)), ("y".into(), (0, 10))],
        constraints: vec![CpConstraint::Lt(0, 1)],
    };
    let mut solver = CpSolver::new();
    solver.load(&problem);
    match solver.solve() {
        CpOutcome::Sat(values) => assert!(values[0].1 < values[1].1),
        other => panic!("Expected SAT, got {:?}", other),
    }
}

#[test]
fn linear_propagation() {
    // 2x + 3y = 12 with x, y in [0, 10] → x <= 6, y <= 4
    let mut dom = vec![IntDomain::new(0, 10), IntDomain::new(0, 10)];
    let p = Propagator::Linear(vec![(2, 0), (3, 1)], 12, CmpRel::Eq);
    assert_eq!(p.propagate(&mut dom), PropResult::Success);
    assert_eq!((dom[0].min(), dom[0].max()), (0, 6));
    assert_eq!((dom[1].min(), dom[1].max()), (0, 4));
    // -x <= -3 → x >= 3
    let mut dom = vec![IntDomain::new(0, 10)];
    let p = Propagator::Linear(vec![(-1, 0)], -3, CmpRel::Le);
    assert_eq!(p.propagate(&mut dom), PropResult::Success);
    assert_eq!(dom[0].min(), 3);
    // x + y >= 25 with both at most 10 fails.
    let mut dom = vec![IntDomain::new(0, 10), IntDomain::new(0, 10)];
    let p = Propagator::Linear(vec![(1, 0), (1, 1)], 25, CmpRel::Ge);
    assert_eq!(p.propagate(&mut dom), PropResult::Failure);
    assert_eq!(p.variables(), vec![0, 1]);
}

#[test]
fn test_simple_eq() {
    let problem = CpProblem {
        var_domains: vec![("x".into(), (0, 10)), ("y".into(), (0, 10))],
        constraints: vec![CpConstraint::Eq(0, 1)],
    };
    let mut solver = CpSolver::new();
    solver.load(&problem);
    let result = solver.solve();
    assert!(matches!(result, CpOutcome::Sat(_)), "Expected SAT, got {:?}", result);
}

#[test]
fn test_unsat() {
    let problem = CpProblem { var_domains: vec![("x".into(), (0, 5))], constraints: vec![CpConstraint::Lt(0, 0)] };
    let mut solver = CpSolver::new();
    solver.load(&problem);
    let result = solver.solve();
    assert!(matches!(result, CpOutcome::Unsat), "Expected UNSAT, got {:?}", result);
}

#[test]
fn cp_all_different_solution() {
    let problem = CpProblem {
        var_domains: vec![("a".into(), (1, 1)), ("b".into(), (1, 2)), ("c".into(), (1, 3))],
        constraints: vec![CpConstraint::AllDifferent(vec![0, 1, 2])],
    };
    match solve_cp(&problem, &Config::default()) {
        CpOutcome::Sat(m) => {
            let vals: Vec<i64> = m.iter().map(|(_, v)| *v).collect();
            assert_eq!(vals, vec![1, 2, 3]);
        }
        other => panic!("expected a solution, got {:?}", other),
    }
}

#[test]
fn cp_search_first_solution_in_value_order() {
    let problem = CpProblem {
        var_domains: vec![("x".into(), (0, 4)), ("y".into(), (0, 4))],
        constraints: vec![CpConstraint::Neq(0, 1), CpConstraint::Linear(vec![(1, 0), (1, 1)], 4, CmpRel::Eq)],
    };
    let mut solver = CpSolver::new();
    solver.load(&problem);
    assert!(solver.is_consistent());
    match solver.solve() {
        CpOutcome::Sat(m) => {
            let vals: Vec<i64> = m.iter().map(|(_, v)| *v).collect();
            assert_eq!(vals, vec![0, 4]);
        }
        other => panic!("expected a solution, got {:?}", other),
    }
}

#[test]
fn cp_inconsistent_problem_detected() {
    let problem = CpProblem { var_domains: vec![("x".into(), (0, 1))], constraints: vec![CpConstraint::Eq(0, 3)] };
    let mut solver = CpSolver::new();
    solver.load(&problem);
    assert!(!solver.is_consistent());
}
