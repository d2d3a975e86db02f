use dsuni::cp::{CmpRel, CpConstraint};
use dsuni::parser::cp_format::CpFormatParser;
use dsuni::parser::dimacs::DimacsParser;

#[test]
fn test_simple_cnf() {
    let input = "c simple example\np cnf 3 2\n1 -2 0\n-1 3 0\n";
    let prob = DimacsParser::new().parse(input).unwrap();
    assert_eq!(prob.num_vars, 3);
    assert_eq!(prob.num_clauses, 2);
    assert_eq!(prob.clauses, vec![vec![1, -2], vec![-1, 3]]);
}

#[test]
fn test_unit_clause() {
    let input = "p cnf 1 1\n1 0\n";
    let prob = DimacsParser::new().parse(input).unwrap();
    assert_eq!(prob.clauses, vec![vec![1]]);
}

#[test]
fn test_empty_clause() {
    let input = "p cnf 1 1\n0\n";
    let prob = DimacsParser::new().parse(input).unwrap();
    assert_eq!(prob.clauses, vec![vec![]] as Vec<Vec<i32>>);
}

#[test]
fn test_multiline_clause() {
    let input = "p cnf 3 1\n1 2\n3 0\n";
    let prob = DimacsParser::new().parse(input).unwrap();
    assert_eq!(prob.clauses, vec![vec![1, 2, 3]]);
}

#[test]
fn test_data_before_header_error() {
    let result = DimacsParser::new().parse("1 0\n");
    assert!(result.is_err());
    assert!(result.err().unwrap().contains("before"));
}

#[test]
fn test_data_before_header() {
    let result = DimacsParser::new().parse("1 0\np cnf 1 1\n");
    assert!(result.is_err());
}

#[test]
fn dimacs_errors() {
    assert_eq!(DimacsParser::new().parse("").err().unwrap(), "missing 'p cnf' header");
    assert_eq!(
        DimacsParser::new().parse("p cnf 2\n").err().unwrap(),
        "line 1: invalid problem line, expected 'p cnf <vars> <clauses>'"
    );
    assert_eq!(DimacsParser::new().parse("p cnf x 1\n").err().unwrap(), "line 1: invalid variable count");
    assert_eq!(DimacsParser::new().parse("p cnf 1 -1\n").err().unwrap(), "line 1: invalid clause count");
    assert_eq!(DimacsParser::new().parse("c hi\np cnf 1 1\n1 a 0\n").err().unwrap(), "line 3: invalid literal 'a'");
    assert_eq!(
        DimacsParser::new().parse("p cnf 1 1\n1\np cnf 1 1\n").err().unwrap(),
        "line 3: clause before problem header not terminated"
    );
}

#[test]
fn dimacs_unterminated_last_clause_and_crlf() {
    let prob = DimacsParser::new().parse("p cnf 2 2\r\n1 0\r\n-2 +1").unwrap();
    assert_eq!(prob.clauses, vec![vec![1], vec![-2, 1]]);
    let prob = DimacsParser::new().parse("p cnf 1 1\n-2147483648 0").unwrap();
    assert_eq!(prob.clauses, vec![vec![i32::MIN]]);
}

#[test]
fn test_simple_cp_parse() {
    let input = "var x 0 10\nvar y 0 10\neq x y\n";
    let problem = CpFormatParser::new().parse(input).unwrap();
    assert_eq!(problem.var_domains.len(), 2);
    assert_eq!(problem.constraints.len(), 1);
}

#[test]
fn test_all_diff_parse() {
    let input = "var x 0 10\nvar y 0 10\nvar z 0 10\nallDiff x y z\n";
    let problem = CpFormatParser::new().parse(input).unwrap();
    assert_eq!(problem.constraints.len(), 1);
}

#[test]
fn cp_format_details() {
    let input = "# vars\nvar x -5 5\n// comment\nvar y 0 3\nle x y 2\nlt y x\nneq x y\nalldifferent y x\n";
    let p = CpFormatParser::new().parse(input).unwrap();
    assert_eq!(p.var_domains[0].0, "x");
    assert_eq!(p.var_domains[0].1, (-5, 5));
    assert_eq!(p.var_domains[1].1, (0, 3));
    assert_eq!(p.constraints.len(), 4);
    assert!(matches!(p.constraints[0], CpConstraint::Le(0, 1, 2)));
    assert!(matches!(p.constraints[1], CpConstraint::Lt(1, 0)));
    assert!(matches!(p.constraints[2], CpConstraint::Neq(0, 1)));
    match &p.constraints[3] {
        CpConstraint::AllDifferent(v) => assert_eq!(v, &vec![1, 0]),
        _ => panic!("expected all-different"),
    }
}

#[test]
fn cp_format_linear_reads_pairs_then_rhs_and_relation() {
    // Every pair before the last two words is read; then the right-hand side
    // and the relation follow.
    let p = CpFormatParser::new().parse("var x 0 10\nvar y 0 10\nlinear 1 x 1 y 5 le\n").unwrap();
    assert_eq!(p.constraints.len(), 1);
    match &p.constraints[0] {
        CpConstraint::Linear(terms, rhs, rel) => {
            assert_eq!(terms, &vec![(1, 0), (1, 1)]);
            assert_eq!(*rhs, 5);
            assert_eq!(*rel, CmpRel::Le);
        }
        _ => panic!("expected linear"),
    }
    let p = CpFormatParser::new().parse("var x 0 9\nlinear 2 x 12 ge\n").unwrap();
    match &p.constraints[0] {
        CpConstraint::Linear(terms, rhs, rel) => {
            assert_eq!(terms, &vec![(2, 0)]);
            assert_eq!(*rhs, 12);
            assert_eq!(*rel, CmpRel::Ge);
        }
        _ => panic!("expected linear"),
    }
    let e = CpFormatParser::new().parse("var x 0 9\nvar y 0 9\nlinear 2 x 3 12 le\n").err().unwrap();
    assert_eq!(e, "linear: expected le/eq/ge");
}

#[test]
fn cp_format_errors() {
    let parse = |s: &str| CpFormatParser::new().parse(s).err().unwrap();
    assert_eq!(parse("var x 0\n"), "line 1: var needs name, min, max");
    assert_eq!(parse("var x a 1\n"), "line 1: bad min");
    assert_eq!(parse("var x 0 b\n"), "line 1: bad max");
    assert_eq!(parse("eq x\n"), "eq needs 2 vars");
    assert_eq!(parse("var x 0 1\neq x z\n"), "line 2: unknown variable 'z'");
    assert_eq!(parse("foo\n"), "line 1: unknown keyword 'foo'");
    assert_eq!(parse("le a b\n"), "le needs 2 vars + c");
    assert_eq!(parse("allDiff x\n"), "allDiff needs ≥ 2 vars");
    assert_eq!(parse("linear 1 x 2\n"), "linear: need at least coeff var rhs rel");
}

#[test]
fn cp_format_redeclared_name_uses_latest() {
    let p = CpFormatParser::new().parse("var x 0 1\nvar x 2 3\nvar y 0 1\neq x y\n").unwrap();
    assert!(matches!(p.constraints[0], CpConstraint::Eq(1, 2)));
}
