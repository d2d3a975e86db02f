use dsuni::common::Var;
use dsuni::linear::{CmpOp, Objective, Rational};
use dsuni::parser::lp_format::LpFormatParser;
use dsuni::parser::mps::MpsParser;
use dsuni::parser::mzn::MznParser;

#[test]
fn test_simple_parse() {
    let input = "min -1*x0\nx0 <= 5\nx0 >= 0\n";
    let p = LpFormatParser::new().parse(input).unwrap();
    assert!(!p.system.objective().is_feasibility());
    assert_eq!(p.system.num_constraints(), 2);
    assert_eq!(p.system.num_vars(), 1);
}

#[test]
fn test_parse_with_comments() {
    let input = "# test\nc comment\nmin -x0\nx0 <= 10\nend\n";
    let p = LpFormatParser::new().parse(input).unwrap();
    assert_eq!(p.system.num_constraints(), 1);
}

#[test]
fn test_parse_two_vars() {
    let input = "max 3*x0 + 2*x1\nx0 + x1 <= 10\nx0 >= 0\nx1 >= 0\n";
    let p = LpFormatParser::new().parse(input).unwrap();
    assert_eq!(p.system.num_vars(), 2);
    assert_eq!(p.system.num_constraints(), 3);
}

#[test]
fn lp_constraint_moves_rhs_over() {
    let p = LpFormatParser::new().parse("2*x0 - x1 + 1 <= 7;\n").unwrap();
    let c = &p.system.constraints()[0];
    assert_eq!(c.op, CmpOp::Le);
    assert_eq!(c.expr.constant, Rational::new(-6, 1));
    assert_eq!(c.expr.coeff(Var::new(0)), Rational::new(2, 1));
    assert_eq!(c.expr.coeff(Var::new(1)), Rational::new(-1, 1));
}

#[test]
fn lp_decimals_and_quotients() {
    let p = LpFormatParser::new().parse("0.5*x0 + 1/3 = 2.25\n").unwrap();
    let c = &p.system.constraints()[0];
    assert_eq!(c.op, CmpOp::Eq);
    assert_eq!(c.expr.coeff(Var::new(0)), Rational::new(1, 2));
    // 1/3 rounds to 333333333 billionths; minus 2.25.
    assert_eq!(c.expr.constant, Rational::new(333333333 - 2250000000, 1000000000));
}

#[test]
fn lp_same_name_same_variable() {
    let p = LpFormatParser::new().parse("x0 + x0 >= 1\nx1 - x0 = 0\n").unwrap();
    assert_eq!(p.system.num_vars(), 2);
    assert_eq!(p.system.constraints()[0].expr.coeff(Var::new(0)), Rational::new(2, 1));
}

#[test]
fn lp_int_declarations_apply_to_objective_variables() {
    let p = LpFormatParser::new().parse("int x0\nmin x0 + x1\nx2 >= 1\nint x2\n").unwrap();
    assert!(p.system.is_integer(Var::new(0)));
    assert!(!p.system.is_integer(Var::new(1)));
    // x2 first appears in a constraint; its declaration still applies.
    assert!(p.system.is_integer(Var::new(2)));
}

#[test]
fn lp_int_declaration_before_constraints() {
    let p = LpFormatParser::new().parse("int x0\nx0 <= 5\nx0 >= 0\n").unwrap();
    assert_eq!(p.system.num_vars(), 1);
    assert!(p.system.is_integer(Var::new(0)));
    assert_eq!(p.system.num_constraints(), 2);
}

#[test]
fn lp_x_name_is_its_index() {
    let p = LpFormatParser::new().parse("x1 + x0 <= 3\n").unwrap();
    assert_eq!(p.system.num_vars(), 2);
    let e = &p.system.constraints()[0].expr;
    assert_eq!(e.coeff(Var::new(0)), Rational::new(1, 1));
    assert_eq!(e.coeff(Var::new(1)), Rational::new(1, 1));
    let p = LpFormatParser::new().parse("max x3\n").unwrap();
    assert_eq!(p.system.num_vars(), 4);
    match p.system.objective() {
        Objective::Maximise(e) => assert_eq!(e.coeff(Var::new(3)), Rational::new(1, 1)),
        _ => panic!("expected maximise"),
    }
}

#[test]
fn lp_numbers_with_exponents() {
    let p = LpFormatParser::new().parse("x0 <= 1e3\n").unwrap();
    assert_eq!(p.system.constraints()[0].expr.constant, Rational::new(-1000, 1));
    let p = LpFormatParser::new().parse("2.5E2*x0 >= 1.5e-1\n").unwrap();
    let e = &p.system.constraints()[0].expr;
    assert_eq!(e.coeff(Var::new(0)), Rational::new(250, 1));
    assert_eq!(e.constant, Rational::new(-3, 20));
    // Below a billionth the value rounds to zero.
    let p = LpFormatParser::new().parse("x0 <= 4e-10\n").unwrap();
    assert_eq!(p.system.constraints()[0].expr.constant, Rational::zero());
    let parser = LpFormatParser::new();
    assert_eq!(parser.parse("x0 <= 1e\n").err().unwrap(), "bad number: 1e");
    assert_eq!(parser.parse("x0 <= 1e5000\n").err().unwrap(), "bad number: 1e5000");
    assert_eq!(parser.parse("x0 <= e3\n").err().unwrap(), "bad number: e3");
}

#[test]
fn lp_errors() {
    let parser = LpFormatParser::new();
    assert_eq!(parser.parse("x0 <= abc\n").err().unwrap(), "bad number: abc");
    assert_eq!(parser.parse("min x0\nfoo bar\n").err().unwrap(), "line 2: bad syntax: foo bar");
    assert_eq!(parser.parse("a*x0 <= 1\n").err().unwrap(), "bad coeff in a*x0");
    assert_eq!(parser.parse("1/0 <= 1\n").err().unwrap(), "bad den in 1/0");
    assert_eq!(parser.parse("3.5.1 <= 1\n").err().unwrap(), "bad constant in 3.5.1");
}

#[test]
fn lp_lines_after_end_are_ignored() {
    let p = LpFormatParser::new().parse("x0 <= 1\nend\nthis is not read\n").unwrap();
    assert_eq!(p.system.num_constraints(), 1);
}

#[test]
fn placeholder_parsers_report_errors() {
    assert_eq!(MpsParser::new().parse("NAME").err().unwrap(), "MPS parser not yet implemented");
    assert_eq!(MznParser::new().parse("var int: x;").err().unwrap(), "MiniZinc parser not yet implemented");
}

#[test]
fn readme_lp_example_solves_to_minus_five() {
    let p = LpFormatParser::new().parse("min -1*x0\nx0 <= 5\nx0 >= 0\n").unwrap();
    match dsuni::lp::solve_lp(&p.system, &dsuni::common::Config::default()) {
        dsuni::lp::LpOutcome::Optimal(model, obj) => {
            assert_eq!(obj, Rational::new(-5, 1));
            assert_eq!(model, vec![(Var::new(0), Rational::new(5, 1))]);
        }
        other => panic!("{:?}", other),
    }
}
