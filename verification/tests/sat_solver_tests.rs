use dsuni::common::Config;
use dsuni::sat::{CdclStep, Clause, ClauseDB, Lit, Reason, Solver};

#[test]
fn test_clause_new() {
    let c = Clause::new(vec![Lit::positive(0), Lit::negative(1)]);
    assert_eq!(c.len(), 2);
    assert!(!c.is_learned);
}

#[test]
fn test_clause_learned() {
    let c = Clause::learned(vec![Lit::positive(0)]);
    assert!(c.is_learned);
    assert!(c.is_unit());
}

#[test]
fn test_clause_db_alloc_and_get() {
    let mut db = ClauseDB::new();
    let id = db.alloc_clause(Clause::new(vec![Lit::positive(0)]));
    assert_eq!(db.get(id).len(), 1);
}

#[test]
fn test_clause_db_active_count() {
    let mut db = ClauseDB::new();
    db.alloc_clause(Clause::new(vec![]));
    db.alloc_clause(Clause::new(vec![]));
    assert_eq!(db.active_count(), 2);
    db.get_mut(1).delete();
    assert_eq!(db.active_count(), 1);
}

#[test]
fn test_clause_delete_and_compact() {
    let mut db = ClauseDB::new();
    let id0 = db.alloc_clause(Clause::new(vec![Lit::positive(0)]));
    let id1 = db.alloc_clause(Clause::new(vec![Lit::positive(1)]));
    let id2 = db.alloc_clause(Clause::new(vec![Lit::positive(2)]));
    db.get_mut(id1).delete();

    let mapping = db.compact();
    assert_eq!(db.active_count(), 2);
    assert_eq!(mapping[id0], Some(0));
    assert_eq!(mapping[id1], None); // deleted
    assert_eq!(mapping[id2], Some(1));
}

#[test]
fn test_new_solver() {
    let solver = Solver::new(Config::default());
    assert_eq!(solver.var_count(), 0);
}

#[test]
fn test_add_clause_extends_vars() {
    let mut solver = Solver::new(Config::default());
    solver.add_clause(&[Lit::positive(0), Lit::negative(1)]);
    assert_eq!(solver.var_count(), 2);
    assert!(solver.assignment().len() >= 2);
}

#[test]
fn test_lit_assigned() {
    let mut solver = Solver::new(Config::default());
    // A binary clause (not unit), so nothing is assigned on its own.
    solver.add_clause(&[Lit::positive(0), Lit::positive(1)]);
    assert!(!solver.is_assigned(0));
    solver.assign_lit(Lit::positive(0), Reason::Propagation(0));
    assert!(solver.lit_true(Lit::positive(0)));
    assert!(solver.lit_false(Lit::negative(0)));
    assert!(!solver.is_assigned(1));
}

#[test]
fn empty_clause_is_detected() {
    let mut solver = Solver::new(Config::default());
    assert!(!solver.has_empty_clause());
    solver.add_clause(&[]);
    assert!(solver.has_empty_clause());
}

#[test]
fn contradicting_units_record_an_empty_clause() {
    let mut solver = Solver::new(Config::default());
    solver.add_clause(&[Lit::positive(0)]);
    assert_eq!(solver.lit_value(Lit::positive(0)), Some(true));
    assert!(!solver.has_empty_clause());
    // The same unit again changes nothing.
    solver.add_clause(&[Lit::positive(0)]);
    assert!(!solver.has_empty_clause());
    solver.add_clause(&[Lit::negative(0)]);
    assert!(solver.has_empty_clause());
}

#[test]
fn iter_active_skips_deleted() {
    let mut db = ClauseDB::new();
    db.alloc_clause(Clause::new(vec![Lit::positive(0)]));
    db.alloc_clause(Clause::new(vec![Lit::positive(1)]));
    db.alloc_clause(Clause::new(vec![Lit::positive(2), Lit::negative(3)]));
    db.get_mut(1).delete();
    let active = db.iter_active();
    assert_eq!(active.len(), 2);
    assert_eq!(active[0].0, 0);
    assert_eq!(active[1].0, 2);
    assert_eq!(active[1].1.len(), 2);
    assert!(!db.is_empty());
    assert_eq!(db.len(), 3);
}

#[test]
fn propagate_without_conflict() {
    let mut solver = Solver::new(Config::default());
    solver.add_clause(&[Lit::positive(0), Lit::positive(1)]);
    solver.add_clause(&[Lit::negative(0), Lit::positive(1)]);
    assert_eq!(solver.propagate(), None);
    solver.decide(1);
    assert_eq!(solver.decision_level(), 1);
    assert_eq!(solver.propagate(), None);
    assert!(!solver.all_assigned());
}

#[test]
fn propagation_forces_unit_literals() {
    // ¬x0 ∨ x1: deciding x0 forces x1.
    let mut solver = Solver::new(Config::default());
    solver.add_clause(&[Lit::negative(0), Lit::positive(1)]);
    solver.decide(0);
    assert_eq!(solver.propagate(), None);
    assert!(solver.lit_true(Lit::positive(1)));
    // ¬x2 ∨ ¬x3 ∨ x4: the watch moves to x4 after x2, and x3 forces x4.
    let mut solver = Solver::new(Config::default());
    solver.add_clause(&[Lit::negative(2), Lit::negative(3), Lit::positive(4)]);
    solver.decide(2);
    assert_eq!(solver.propagate(), None);
    assert!(!solver.is_assigned(4));
    solver.decide(3);
    assert_eq!(solver.propagate(), None);
    assert!(solver.lit_true(Lit::positive(4)));
}

#[test]
fn growing_the_variables_keeps_watches() {
    // (x0 ∨ x1), ¬x0, ¬x1, then x5: the clause over x0 and x1 is still
    // watched after the variable count grows, so propagation finds it false.
    let mut solver = Solver::new(Config::default());
    solver.add_clause(&[Lit::positive(0), Lit::positive(1)]);
    solver.add_clause(&[Lit::negative(0)]);
    solver.add_clause(&[Lit::negative(1)]);
    solver.add_clause(&[Lit::positive(5)]);
    assert_eq!(solver.var_count(), 6);
    assert_eq!(solver.propagate(), Some(0));
}

#[test]
fn analysis_learns_and_backtracks() {
    // (x0 ∨ x1) and (x0 ∨ ¬x1): deciding ¬x0 would conflict, but this
    // solver always decides positively, so build the conflict by hand.
    let mut solver = Solver::new(Config::default());
    solver.add_clause(&[Lit::positive(0), Lit::positive(1)]);
    solver.add_clause(&[Lit::negative(0), Lit::negative(1)]);
    solver.decide(0);
    // x0 true makes the second clause need ¬x1; assign x1 true at level 2 to clash.
    solver.decide(1);
    assert_eq!(solver.decision_level(), 2);
    let conflict = solver.propagate();
    assert_eq!(conflict, Some(1));
    let bumped = solver.analyze_and_learn(1);
    assert_eq!(bumped[0], Lit::negative(0));
    assert_eq!(bumped[1], Lit::negative(1));
    // The learned clause asserts ¬x1 after going back to level 1.
    assert_eq!(solver.decision_level(), 1);
    assert!(solver.lit_true(Lit::negative(1)));
    assert!(solver.lit_true(Lit::positive(0)));
    assert_eq!(solver.stats().conflicts, 1);
    assert_eq!(solver.stats().decisions, 2);
}

#[test]
fn dimacs_unit_contradiction_is_unsatisfiable() {
    // "p cnf 1 2 / 1 0 / -1 0": the second unit contradicts the first.
    let problem = dsuni::parser::dimacs::DimacsParser::new().parse("p cnf 1 2\n1 0\n-1 0\n").unwrap();
    let mut solver = Solver::new(Config::default());
    for clause in &problem.clauses {
        let lits: Vec<Lit> = clause.iter().map(|&d| Lit::from_dimacs(d)).collect();
        solver.add_clause(&lits);
    }
    assert!(solver.has_empty_clause());
}

#[test]
fn trail_literals_are_true() {
    let mut solver = Solver::new(Config::default());
    solver.add_clause(&[Lit::positive(2)]);
    solver.add_clause(&[Lit::negative(0), Lit::positive(1)]);
    solver.decide(0);
    assert_eq!(solver.var_count(), 3);
    assert_eq!(solver.assignment()[2], Some(true));
    assert_eq!(solver.assignment()[0], Some(true));
    assert_eq!(solver.assignment()[1], None);
    assert_eq!(solver.lit_value(Lit::negative(0)), Some(false));
    assert_eq!(solver.stats().decisions, 1);
}

/// Run the CDCL steps to the end, deciding the lowest free variable.
fn run_cdcl(solver: &mut Solver) -> Option<Vec<bool>> {
    loop {
        match solver.cdcl_step() {
            CdclStep::Sat(m) => return Some(m),
            CdclStep::Unsat => return None,
            CdclStep::Learned(_) => {}
            CdclStep::Decide => {
                let v = (0..solver.var_count()).find(|&v| !solver.is_assigned(v)).unwrap();
                solver.decide(v);
            }
        }
    }
}

fn satisfies(m: &[bool], clauses: &[Vec<Lit>]) -> bool {
    clauses.iter().all(|c| c.iter().any(|l| m[l.var] == l.sign))
}

#[test]
fn test_unsat_empty_clause() {
    let mut solver = Solver::new(Config::default());
    solver.add_clause(&[]); // empty clause = UNSAT
    assert!(run_cdcl(&mut solver).is_none());
}

#[test]
fn cdcl_finds_a_model() {
    let clauses = vec![
        vec![Lit::positive(0), Lit::positive(1)],
        vec![Lit::negative(0), Lit::positive(2)],
        vec![Lit::negative(1), Lit::negative(2)],
        vec![Lit::negative(2), Lit::positive(3)],
    ];
    let mut solver = Solver::new(Config::default());
    for c in &clauses {
        solver.add_clause(c);
    }
    let m = run_cdcl(&mut solver).expect("satisfiable");
    assert_eq!(m.len(), 4);
    assert!(satisfies(&m, &clauses));
}

#[test]
fn cdcl_proves_unsat_after_learning() {
    // Every assignment of x0, x1 falsifies one of the four clauses.
    let mut solver = Solver::new(Config::default());
    solver.add_clause(&[Lit::positive(0), Lit::positive(1)]);
    solver.add_clause(&[Lit::positive(0), Lit::negative(1)]);
    solver.add_clause(&[Lit::negative(0), Lit::positive(1)]);
    solver.add_clause(&[Lit::negative(0), Lit::negative(1)]);
    assert!(run_cdcl(&mut solver).is_none());
    assert!(solver.stats().conflicts >= 1);
}

#[test]
fn cdcl_pigeonhole_three_into_two_is_unsat() {
    // p(i, h): pigeon i in hole h, variable 2 * i + h.
    let p = |i: usize, h: usize| 2 * i + h;
    let mut solver = Solver::new(Config::default());
    for i in 0..3 {
        solver.add_clause(&[Lit::positive(p(i, 0)), Lit::positive(p(i, 1))]);
    }
    for h in 0..2 {
        for i in 0..3 {
            for j in (i + 1)..3 {
                solver.add_clause(&[Lit::negative(p(i, h)), Lit::negative(p(j, h))]);
            }
        }
    }
    assert!(run_cdcl(&mut solver).is_none());
}

#[test]
fn first_uip_clause_asserts_one_literal() {
    // x0 decided, then x1 decided; (¬x0 ∨ ¬x1 ∨ x2) forces x2 and
    // (¬x1 ∨ ¬x2) conflicts: the 1UIP is x1, the learned clause ¬x1 ∨ ¬x0.
    let mut solver = Solver::new(Config::default());
    solver.add_clause(&[Lit::negative(0), Lit::negative(1), Lit::positive(2)]);
    solver.add_clause(&[Lit::negative(1), Lit::negative(2)]);
    solver.decide(0);
    assert_eq!(solver.propagate(), None);
    solver.decide(1);
    let c = solver.propagate().expect("conflict");
    let bumped = solver.analyze_and_learn(c);
    assert!(!bumped.is_empty());
    assert_eq!(solver.decision_level(), 1);
    assert!(solver.lit_true(Lit::negative(1)));
    assert!(solver.is_assigned(2) == false);
}
