use dsuni::common::{Config, Var};
use dsuni::linear::{CmpOp, LinearExpr, Rational};
use dsuni::parser::smtlib::{tokenize, SmtLibParser};
use dsuni::sat::{CdclStep, Lit, Solver};
use dsuni::smt::{
    cdclt_round, AtomKind, AtomRecord, CdcltAction, EqAtom, Formula, LraAtom, SatOutcome, TClause, TheoryAtom,
    TheoryCheckResult, TheoryLit, TheorySolver, LRA, UF,
};

#[test]
fn test_tokenize_simple() {
    let tokens = tokenize("(set-logic QF_UF)").unwrap();
    assert_eq!(tokens, vec!["(", "set-logic", "QF_UF", ")"]);
}

#[test]
fn test_parse_declare_const() {
    let input = "(set-logic QF_UF)\n(declare-const a Bool)\n(check-sat)\n";
    let mut parser = SmtLibParser::new();
    let formula = parser.parse(input).unwrap();
    assert_eq!(formula.atoms.len(), 0);
}

#[test]
fn test_assert_equality() {
    let input = "(set-logic QF_UF)\n(declare-const a Bool)\n(declare-const b Bool)\n(assert (= a b))\n(check-sat)\n";
    let mut parser = SmtLibParser::new();
    let formula = parser.parse(input).unwrap();
    assert_eq!(formula.atoms.len(), 1);
    assert_eq!(formula.clauses.len(), 1);
}

#[test]
fn test_assert_not_equality() {
    let input = "(set-logic QF_UF)\n(declare-const a Bool)\n(declare-const b Bool)\n(assert (not (= a b)))\n(check-sat)\n";
    let mut parser = SmtLibParser::new();
    let formula = parser.parse(input).unwrap();
    assert_eq!(formula.atoms.len(), 1);
    assert_eq!(formula.clauses.len(), 1);
}

#[test]
fn test_assert_and() {
    let input = "(set-logic QF_UF)\n(declare-const a Bool)\n(declare-const b Bool)\n(declare-const c Bool)\n(assert (and (= a b) (= a c)))\n(check-sat)\n";
    let mut parser = SmtLibParser::new();
    let formula = parser.parse(input).unwrap();
    // Two atoms: (a=b) and (a=c)
    assert_eq!(formula.atoms.len(), 2);
    // Two unit clauses
    assert_eq!(formula.clauses.len(), 2);
}

#[test]
fn test_assert_or() {
    let input = "(set-logic QF_UF)\n(declare-const a Bool)\n(declare-const b Bool)\n(assert (or (= a b) (= a b)))\n(check-sat)\n";
    let mut parser = SmtLibParser::new();
    let formula = parser.parse(input).unwrap();
    assert_eq!(formula.atoms.len(), 1);
    assert!(formula.clauses.len() >= 1);
}

#[test]
fn smt_tokenize_comments_and_strings() {
    let tokens = tokenize("(a ; note\n b\"c)").unwrap();
    assert_eq!(tokens, vec!["(", "a", "b", "\"c", ")"]);
}

#[test]
fn smt_or_clause_collects_literals() {
    let input = "(assert (or (= a b) (not (= b c))))";
    let mut parser = SmtLibParser::new();
    let f = parser.parse(input).unwrap();
    assert_eq!(f.atoms.len(), 2);
    assert_eq!(f.clauses, vec![vec![TheoryLit::new(0, true), TheoryLit::new(1, false)]]);
}

#[test]
fn smt_equal_atoms_are_shared_in_either_order() {
    let input = "(assert (= a b))\n(assert (not (= b a)))";
    let mut parser = SmtLibParser::new();
    let f = parser.parse(input).unwrap();
    assert_eq!(f.atoms.len(), 1);
    assert_eq!(f.clauses, vec![vec![TheoryLit::new(0, true)], vec![TheoryLit::new(0, false)]]);
}

#[test]
fn smt_or_with_true_adds_no_clause() {
    let mut parser = SmtLibParser::new();
    let f = parser.parse("(assert (or (= a b) true))").unwrap();
    assert_eq!(f.atoms.len(), 1);
    assert_eq!(f.clauses.len(), 0);
}

#[test]
fn smt_false_asserts_empty_clause() {
    let mut parser = SmtLibParser::new();
    let f = parser.parse("(assert false)").unwrap();
    assert_eq!(f.clauses, vec![Vec::<TheoryLit>::new()]);
}

#[test]
fn smt_bare_symbol_and_application_atoms() {
    let mut parser = SmtLibParser::new();
    let f = parser.parse("(assert p)\n(assert (not (f x y)))").unwrap();
    assert_eq!(f.atoms.len(), 2);
    assert_eq!(f.atoms[0].text(), "p = true");
    assert_eq!(f.atoms[1].text(), "(f x y) = true");
    assert_eq!(f.clauses, vec![vec![TheoryLit::new(0, true)], vec![TheoryLit::new(1, false)]]);
}

#[test]
fn smt_declared_symbol_has_one_atom() {
    let mut parser = SmtLibParser::new();
    let f = parser.parse("(declare-const a Bool)\n(assert a)\n(assert (not a))\n").unwrap();
    assert_eq!(f.atoms.len(), 1);
    assert_eq!(f.clauses, vec![vec![TheoryLit::new(0, true)], vec![TheoryLit::new(0, false)]]);
}

#[test]
fn smt_implication_uses_auxiliary_atom() {
    let mut parser = SmtLibParser::new();
    let f = parser.parse("(assert (=> p (= a b)))").unwrap();
    // `_t0 = true` stands for `(not p)`: `_t0` implies `p` is false.
    assert_eq!(f.atoms[0].text(), "_t0 = true");
    assert_eq!(f.atoms[1].text(), "p = true");
    assert_eq!(f.atoms[2].text(), "a = b");
    assert_eq!(
        f.clauses,
        vec![
            vec![TheoryLit::new(0, false), TheoryLit::new(1, false)],
            vec![TheoryLit::new(0, true), TheoryLit::new(2, true)],
        ]
    );
}

#[test]
fn smt_tseitin_disjunct_is_implied_not_asserted() {
    let mut parser = SmtLibParser::new();
    let f = parser.parse("(assert (or (and (= a b) (= c d)) (= e f)))").unwrap();
    assert_eq!(f.atoms[0].text(), "_t0 = true");
    assert_eq!(f.atoms[1].text(), "a = b");
    assert_eq!(f.atoms[2].text(), "c = d");
    assert_eq!(f.atoms[3].text(), "e = f");
    assert_eq!(
        f.clauses,
        vec![
            vec![TheoryLit::new(0, false), TheoryLit::new(1, true)],
            vec![TheoryLit::new(0, false), TheoryLit::new(2, true)],
            vec![TheoryLit::new(0, true), TheoryLit::new(3, true)],
        ]
    );
}

#[test]
fn smt_negated_conjunction_is_a_disjunction() {
    let mut parser = SmtLibParser::new();
    let f = parser.parse("(assert (not (and (= a b) (= c d))))").unwrap();
    assert_eq!(f.atoms.len(), 2);
    assert_eq!(f.clauses, vec![vec![TheoryLit::new(0, false), TheoryLit::new(1, false)]]);
}

#[test]
fn smt_implication_from_conjunction() {
    let mut parser = SmtLibParser::new();
    let f = parser.parse("(assert (=> (and (= a b) (= c d)) (= e f)))").unwrap();
    assert_eq!(f.atoms[0].text(), "_t0 = true");
    assert_eq!(
        f.clauses,
        vec![
            vec![TheoryLit::new(0, false), TheoryLit::new(1, false), TheoryLit::new(2, false)],
            vec![TheoryLit::new(0, true), TheoryLit::new(3, true)],
        ]
    );
}

#[test]
fn smt_disjunction_of_false_is_empty_clause() {
    let mut parser = SmtLibParser::new();
    let f = parser.parse("(assert (or false false))").unwrap();
    assert_eq!(f.clauses, vec![Vec::<TheoryLit>::new()]);
}

#[test]
fn smt_tokenize_newline_ends_token() {
    let tokens = tokenize("(assert a\nb)").unwrap();
    assert_eq!(tokens, vec!["(", "assert", "a", "b", ")"]);
}

#[test]
fn smt_errors() {
    let mut p = SmtLibParser::new();
    assert_eq!(p.parse("(foo)").err().unwrap(), "unknown command: foo");
    let mut p = SmtLibParser::new();
    assert_eq!(p.parse("(assert (= a b)").err().unwrap(), "unclosed parenthesis");
    let mut p = SmtLibParser::new();
    assert_eq!(p.parse(")").err().unwrap(), "unexpected ')");
    let mut p = SmtLibParser::new();
    assert_eq!(p.parse("x").err().unwrap(), "expected list at top level");
    let mut p = SmtLibParser::new();
    assert_eq!(p.parse("(declare-fun f Bool Bool)").err().unwrap(), "declare-fun: expected sort list");
    let mut p = SmtLibParser::new();
    assert_eq!(p.parse("(assert)").err().unwrap(), "assert: too few args");
    let mut p = SmtLibParser::new();
    assert_eq!(p.parse("(assert (= a))").err().unwrap(), "=: too few args");
}

#[test]
fn smt_state_accumulates_across_parses() {
    let mut p = SmtLibParser::new();
    p.parse("(assert (= a b))").unwrap();
    let f = p.parse("(assert (= c d))").unwrap();
    assert_eq!(f.atoms.len(), 2);
    assert_eq!(f.clauses.len(), 2);
}

#[test]
fn test_union_find() {
    let mut uf = UF::new();
    let a = uf.new_const();
    let b = uf.new_const();
    let c = uf.new_const();
    assert_ne!(uf.find(a), uf.find(b));
    uf.union(a, b);
    assert_eq!(uf.find(a), uf.find(b));
    uf.union(b, c);
    assert_eq!(uf.find(a), uf.find(c));
}

#[test]
fn test_congruence() {
    let mut uf = UF::new();
    let a = uf.new_const();
    let b = uf.new_const();
    // f(a) and f(b)
    let fa = uf.new_app("f", vec![a]);
    let fb = uf.new_app("f", vec![b]);
    assert_ne!(uf.find(fa), uf.find(fb));
    // a = b → f(a) = f(b)
    uf.union(a, b);
    uf.propagate_congruence();
    assert_eq!(uf.find(fa), uf.find(fb));
}

#[test]
fn uf_union_keeps_higher_rank_root() {
    let mut uf = UF::new();
    let a = uf.new_const();
    let b = uf.new_const();
    let c = uf.new_const();
    uf.union(a, b); // tie: a stays the root and gains rank
    assert_eq!(uf.find(b), a);
    uf.union(c, b); // c has the lower rank, so it joins a's class
    assert_eq!(uf.find(c), a);
}

#[test]
fn uf_congruence_is_transitive_through_nesting() {
    let mut uf = UF::new();
    let a = uf.new_const();
    let b = uf.new_const();
    let fa = uf.new_app("f", vec![a]);
    let fb = uf.new_app("f", vec![b]);
    let gfa = uf.new_app("g", vec![fa, a]);
    let gfb = uf.new_app("g", vec![fb, b]);
    let ga = uf.new_app("g", vec![a]);
    uf.union(a, b);
    uf.propagate_congruence();
    assert_eq!(uf.find(gfa), uf.find(gfb));
    assert_ne!(uf.find(ga), uf.find(gfa));
}

#[test]
fn uf_different_functions_stay_apart() {
    let mut uf = UF::new();
    let a = uf.new_const();
    let fa = uf.new_app("f", vec![a]);
    let ha = uf.new_app("h", vec![a]);
    uf.propagate_congruence();
    assert_ne!(uf.find(fa), uf.find(ha));
}

fn eq_atom(id: usize, lhs: &str, rhs: &str) -> AtomRecord {
    AtomRecord { id, kind: AtomKind::Eq { lhs: lhs.to_string(), rhs: rhs.to_string() } }
}

#[test]
fn uf_theory_check_finds_conflict() {
    let mut uf = UF::new();
    uf.set_atoms(&[eq_atom(0, "c0", "c1"), eq_atom(1, "c1", "c2"), eq_atom(2, "c0", "c2")]);
    assert!(uf.assert_lit(TheoryLit::new(0, true)));
    uf.assert_lit(TheoryLit::new(1, true));
    assert_eq!(uf.check(), TheoryCheckResult::Consistent);
    uf.assert_lit(TheoryLit::new(2, false));
    assert_eq!(uf.check(), TheoryCheckResult::Conflict);
}

#[test]
fn uf_terms_are_shared_by_name() {
    let mut uf = UF::new();
    uf.set_atoms(&[eq_atom(0, "t0", "t1"), eq_atom(1, "t1", "t2"), eq_atom(2, "t0", "t2")]);
    uf.assert_lit(TheoryLit::new(0, true));
    uf.assert_lit(TheoryLit::new(1, true));
    uf.assert_lit(TheoryLit::new(2, false));
    assert_eq!(uf.check(), TheoryCheckResult::Conflict);
}

#[test]
fn uf_parsed_transitivity_conflict() {
    let mut parser = SmtLibParser::new();
    let f = parser.parse("(assert (= a b))\n(assert (= b c))\n(assert (not (= a c)))").unwrap();
    let mut uf = UF::new();
    uf.set_atoms(&f.atoms);
    for c in &f.clauses {
        uf.assert_lit(c[0]);
    }
    assert_eq!(uf.check(), TheoryCheckResult::Conflict);
}

#[test]
fn uf_theory_check_uses_congruence() {
    let mut uf = UF::new();
    // Terms: c0 = a, c1 = b; (f t0) and (f t1) are their applications.
    uf.set_atoms(&[eq_atom(0, "x", "y")]);
    let a = uf.find(0);
    let b = uf.find(1);
    let fa = uf.new_app("f", vec![a]);
    let fb = uf.new_app("f", vec![b]);
    uf.set_atoms(&[eq_atom(1, "(f t0)", "(f t1)")]);
    assert_eq!(uf.find(fa), fa);
    uf.assert_lit(TheoryLit::new(0, true));
    uf.assert_lit(TheoryLit::new(1, false));
    assert_eq!(uf.check(), TheoryCheckResult::Conflict);
    let _ = fb;
}

#[test]
fn uf_push_pop_restores_classes() {
    let mut uf = UF::new();
    uf.set_atoms(&[eq_atom(0, "p", "q")]);
    uf.push();
    uf.assert_lit(TheoryLit::new(0, true));
    assert_eq!(uf.find(0), uf.find(1));
    uf.pop();
    assert_ne!(uf.find(0), uf.find(1));
}

#[test]
fn uf_reset_forgets_terms() {
    let mut uf = UF::new();
    uf.set_atoms(&[eq_atom(0, "p", "q")]);
    uf.reset();
    // The atom's terms are gone: the literal is ignored.
    assert!(uf.assert_lit(TheoryLit::new(0, true)));
    assert_eq!(uf.check(), TheoryCheckResult::Consistent);
    assert!(uf.propagate().is_empty());
    assert!(uf.explain_conflict().is_empty());
}

#[test]
fn eq_atom_label() {
    let a = EqAtom { id: 3, lhs: 1, rhs: 2 };
    assert_eq!(a.id(), 3);
    assert_eq!(a.label(), "t1 = t2");
}

fn lra_atom(id: usize, coeff: i64, var: usize, constant: i64, op: CmpOp) -> LraAtom {
    let e = LinearExpr::from_var(Var::new(var)) * Rational::new(coeff, 1) + LinearExpr::constant(Rational::new(constant, 1));
    LraAtom { id, expr: e, op }
}

#[test]
fn lra_check_feasible_and_infeasible() {
    let mut lra = LRA::new();
    // x0 - 2 <= 0 and x0 - 3 >= 0
    assert_eq!(lra.register_atom(lra_atom(0, 1, 0, -2, CmpOp::Le)), 0);
    assert_eq!(lra.register_atom(lra_atom(1, 1, 0, -3, CmpOp::Ge)), 1);
    assert_eq!(lra.check(), TheoryCheckResult::Consistent);
    lra.assert_lit(TheoryLit::new(0, true));
    assert_eq!(lra.check(), TheoryCheckResult::Consistent);
    lra.push();
    lra.assert_lit(TheoryLit::new(1, true));
    assert_eq!(lra.check(), TheoryCheckResult::Conflict);
    assert_eq!(lra.explain_conflict(), vec![TheoryLit::new(0, true), TheoryLit::new(1, true)]);
    lra.pop();
    // Negated: x0 - 3 <= 0 is consistent with x0 <= 2.
    lra.assert_lit(TheoryLit::new(1, false));
    assert_eq!(lra.check(), TheoryCheckResult::Consistent);
}

#[test]
fn lra_negated_equality_is_no_equality() {
    let mut lra = LRA::new();
    // x0 - 1 = 0 negated (x0 ≠ 1) adds no row: beside x0 - 2 = 0 the rows
    // are consistent, and the disequality leaves the answer open.
    lra.register_atom(lra_atom(0, 1, 0, -1, CmpOp::Eq));
    lra.register_atom(lra_atom(1, 1, 0, -2, CmpOp::Eq));
    lra.assert_lit(TheoryLit::new(0, false));
    lra.assert_lit(TheoryLit::new(1, true));
    assert_eq!(lra.check(), TheoryCheckResult::Unknown);
    // With x0 - 3 >= 0 as well the rows themselves conflict.
    lra.register_atom(lra_atom(2, 1, 0, -3, CmpOp::Ge));
    lra.assert_lit(TheoryLit::new(2, true));
    assert_eq!(lra.check(), TheoryCheckResult::Conflict);
}

#[test]
fn lra_equality_asserted_and_denied_conflicts() {
    let mut lra = LRA::new();
    lra.register_atom(lra_atom(0, 1, 0, -1, CmpOp::Eq));
    lra.assert_lit(TheoryLit::new(0, true));
    assert_eq!(lra.check(), TheoryCheckResult::Consistent);
    lra.assert_lit(TheoryLit::new(0, false));
    assert_eq!(lra.check(), TheoryCheckResult::Conflict);
}

#[test]
fn lra_atom_label() {
    let a = lra_atom(0, 2, 1, 0, CmpOp::Ge);
    assert_eq!(a.id(), 0);
    assert_eq!(a.label(), "2*x1 >= 0");
}

/// Run the SAT search on a formula's clauses and apply the CDCL(T) decision
/// with no theory attached.
fn run_cdclt(formula: &Formula) -> CdcltAction {
    let mut solver = Solver::new(Config::default());
    for c in &formula.clauses {
        let tc = TClause { lits: c.clone() };
        solver.add_clause(&tc.to_sat_lits());
    }
    let sat = loop {
        match solver.cdcl_step() {
            CdclStep::Sat(m) => break SatOutcome::Sat(m),
            CdclStep::Unsat => break SatOutcome::Unsat,
            CdclStep::Learned(_) => {}
            CdclStep::Decide => {
                let v = (0..solver.var_count()).find(|&v| !solver.is_assigned(v)).unwrap();
                solver.decide(v);
            }
        }
    };
    cdclt_round(&sat, formula.atoms.len(), &Vec::new())
}

#[test]
fn test_empty_formula() {
    let formula = Formula::new();
    assert!(matches!(run_cdclt(&formula), CdcltAction::Sat(_)));
}

#[test]
fn test_simple_unsat() {
    // Two opposing unit clauses
    let mut formula = Formula::new();
    formula.clauses.push(vec![TheoryLit::new(0, true)]);
    formula.clauses.push(vec![TheoryLit::new(0, false)]);
    formula.atoms.push(eq_atom(0, "a", "b"));
    assert!(matches!(run_cdclt(&formula), CdcltAction::Unsat));
}

#[test]
fn cdclt_round_decisions() {
    let sat = SatOutcome::Sat(vec![true, false]);
    match cdclt_round(&sat, 3, &vec![TheoryCheckResult::Consistent]) {
        CdcltAction::Sat(a) => assert_eq!(a, vec![Some(true), Some(false), None]),
        other => panic!("{:?}", other),
    }
    match cdclt_round(&sat, 2, &vec![TheoryCheckResult::Consistent, TheoryCheckResult::Conflict]) {
        CdcltAction::Block(c) => assert_eq!(c, vec![Lit::new(0, false), Lit::new(1, true)]),
        other => panic!("{:?}", other),
    }
    assert!(matches!(cdclt_round(&sat, 2, &vec![TheoryCheckResult::Unknown]), CdcltAction::Retry));
    assert!(matches!(cdclt_round(&SatOutcome::Unsat, 2, &vec![]), CdcltAction::Unsat));
}

#[test]
fn lra_variables_range_over_all_reals() {
    let mut lra = LRA::new();
    // x0 + 1 <= 0: x0 = -1 satisfies it.
    lra.register_atom(lra_atom(0, 1, 0, 1, CmpOp::Le));
    // x5 - 3 >= 0 over a variable with a larger id.
    lra.register_atom(lra_atom(1, 1, 5, -3, CmpOp::Ge));
    lra.assert_lit(TheoryLit::new(0, true));
    assert_eq!(lra.check(), TheoryCheckResult::Consistent);
    lra.assert_lit(TheoryLit::new(1, true));
    assert_eq!(lra.check(), TheoryCheckResult::Consistent);
    // -x0 - 2 >= 0 and x0 + 1 >= 0 together ask x0 <= -2 and x0 >= -1.
    lra.register_atom(lra_atom(2, -1, 0, -2, CmpOp::Ge));
    lra.register_atom(lra_atom(3, 1, 0, 1, CmpOp::Ge));
    lra.assert_lit(TheoryLit::new(2, true));
    lra.assert_lit(TheoryLit::new(3, true));
    assert_eq!(lra.check(), TheoryCheckResult::Conflict);
}
