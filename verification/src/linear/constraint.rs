//! Linear constraints and objectives.
use vstd::prelude::*;
use crate::common::Var;
use crate::linear::rational::{Rational, rat_neg};
use crate::linear::expr::{LinearExpr, copy_terms, negatable, negated_terms};
use crate::linear::expr_ops::{valuation, eval_ok, eval_terms, as_spec_fn, lemma_eval_neg};

verus! {

/// The relational operator of a linear constraint.
#[derive(Debug, Clone, Copy, PartialEq, Eq, Structural)]
pub enum CmpOp {
    /// Equality: `expr == 0`
    Eq,
    /// Less-or-equal: `expr <= 0`
    Le,
    /// Greater-or-equal: `expr >= 0`
    Ge,
}

/// `op` with the sides swapped (≤ and ≥ exchanged, = kept).
pub open spec fn flipped(op: CmpOp) -> CmpOp {
    match op {
        CmpOp::Eq => CmpOp::Eq,
        CmpOp::Le => CmpOp::Ge,
        CmpOp::Ge => CmpOp::Le,
    }
}

impl CmpOp {
    /// Flip the operator (swap ≤ and ≥, keep =).
    pub fn flip(&self) -> (r: Self)
        ensures
            r == flipped(*self),
    {
        match self {
            CmpOp::Eq => CmpOp::Eq,
            CmpOp::Le => CmpOp::Ge,
            CmpOp::Ge => CmpOp::Le,
        }
    }
}

/// A deep copy of an expression.
pub fn copy_expr(e: &LinearExpr) -> (r: LinearExpr)
    ensures
        r.constant == e.constant,
        r.terms@ == e.terms@,
{
    LinearExpr { constant: e.constant, terms: copy_terms(&e.terms) }
}

/// A copy of an optional name.
pub fn copy_name(n: &Option<String>) -> (r: Option<String>)
    ensures
        r is Some <==> n is Some,
        r is Some ==> r->0@ == n->0@,
{
    match n {
        Some(s) => Some(s.clone()),
        None => None,
    }
}

/// A linear constraint of the form `expr [≤|=|≥] 0`.
#[derive(Debug, Clone, PartialEq, Eq)]
pub struct LinearConstraint {
    pub expr: LinearExpr,
    pub op: CmpOp,
    /// Optional name / label.
    pub name: Option<String>,
}

/// Whether the value `val` of a constraint's expression satisfies `op`.
pub open spec fn op_holds(op: CmpOp, num: i64) -> bool {
    match op {
        CmpOp::Eq => num == 0,
        CmpOp::Le => num <= 0,
        CmpOp::Ge => num >= 0,
    }
}

/// The constraint's expression can be evaluated under `val`.
pub open spec fn check_ok(c: LinearConstraint, val: spec_fn(Var) -> Rational) -> bool {
    eval_ok(c.expr.terms@, c.expr.constant, val)
}

/// The constraint holds under `val`.
pub open spec fn satisfied(c: LinearConstraint, val: spec_fn(Var) -> Rational) -> bool {
    op_holds(c.op, eval_terms(c.expr.terms@, c.expr.constant, val).spec_num())
}

impl LinearConstraint {
    /// Create a constraint with the given expression and operator.
    pub fn new(expr: LinearExpr, op: CmpOp) -> (c: Self)
        ensures
            c.expr == expr,
            c.op == op,
            c.name is None,
    {
        LinearConstraint { expr, op, name: None }
    }

    /// Create a new equality constraint: `expr == 0`.
    pub fn eq(expr: LinearExpr) -> (c: Self)
        ensures
            c.expr == expr,
            c.op == CmpOp::Eq,
            c.name is None,
    {
        LinearConstraint { expr, op: CmpOp::Eq, name: None }
    }

    /// Create a new less-or-equal constraint: `expr <= 0`.
    pub fn le(expr: LinearExpr) -> (c: Self)
        ensures
            c.expr == expr,
            c.op == CmpOp::Le,
            c.name is None,
    {
        LinearConstraint { expr, op: CmpOp::Le, name: None }
    }

    /// Create a new greater-or-equal constraint: `expr >= 0`.
    pub fn ge(expr: LinearExpr) -> (c: Self)
        ensures
            c.expr == expr,
            c.op == CmpOp::Ge,
            c.name is None,
    {
        LinearConstraint { expr, op: CmpOp::Ge, name: None }
    }

    /// Re-express as `expr <= 0` by negating a `>=` constraint; `<=` and `=` are copied.
    pub fn to_le(&self) -> (c: Self)
        requires
            self.op == CmpOp::Ge ==> self.expr.constant.spec_num() != i64::MIN,
            self.op == CmpOp::Ge ==> negatable(self.expr.terms@),
        ensures
            c.op == (if self.op == CmpOp::Ge { CmpOp::Le } else { self.op }),
            self.op == CmpOp::Ge ==> c.expr.constant == rat_neg(self.expr.constant),
            self.op == CmpOp::Ge ==> c.expr.terms@ == negated_terms(self.expr.terms@),
            self.op != CmpOp::Ge ==> c.expr.constant == self.expr.constant,
            self.op != CmpOp::Ge ==> c.expr.terms@ == self.expr.terms@,
            c.name is Some <==> self.name is Some,
            c.name is Some ==> c.name->0@ == self.name->0@,
    {
        match self.op {
            CmpOp::Ge => LinearConstraint {
                expr: self.expr.neg(),
                op: CmpOp::Le,
                name: copy_name(&self.name),
            },
            _ => LinearConstraint {
                expr: copy_expr(&self.expr),
                op: self.op,
                name: copy_name(&self.name),
            },
        }
    }

    /// Set a name for this constraint.
    pub fn named(self, name: &str) -> (c: Self)
        ensures
            c.expr == self.expr,
            c.op == self.op,
            c.name is Some,
            c.name->0@ == name@,
    {
        let mut s = self;
        s.name = Some(name.to_owned());
        s
    }

    /// Evaluate whether an assignment satisfies this constraint.
    pub fn check<F: Fn(Var) -> Rational>(&self, get_value: F) -> (r: bool)
        requires
            valuation(get_value),
            check_ok(*self, as_spec_fn(get_value)),
        ensures
            r == satisfied(*self, as_spec_fn(get_value)),
    {
        let val = self.expr.eval(get_value);
        match self.op {
            CmpOp::Eq => val.is_zero(),
            CmpOp::Le => !val.is_positive(),
            CmpOp::Ge => !val.is_negative(),
        }
    }
}

/// Rewriting a constraint into `<=` form (as `to_le` does) keeps its
/// solutions: `d` holds at a point exactly when `c` does.
pub proof fn lemma_to_le_same_solutions(c: LinearConstraint, d: LinearConstraint, val: spec_fn(Var) -> Rational)
    requires
        c.op == CmpOp::Ge ==> c.expr.constant.spec_num() != i64::MIN,
        c.op == CmpOp::Ge ==> negatable(c.expr.terms@),
        d.op == (if c.op == CmpOp::Ge { CmpOp::Le } else { c.op }),
        c.op == CmpOp::Ge ==> d.expr.constant == rat_neg(c.expr.constant),
        c.op == CmpOp::Ge ==> d.expr.terms@ == negated_terms(c.expr.terms@),
        c.op != CmpOp::Ge ==> d.expr.constant == c.expr.constant,
        c.op != CmpOp::Ge ==> d.expr.terms@ == c.expr.terms@,
        check_ok(c, val),
        check_ok(d, val),
    ensures
        satisfied(d, val) <==> satisfied(c, val),
{
    if c.op == CmpOp::Ge {
        lemma_eval_neg(c.expr.terms@, c.expr.constant, val);
        let e = eval_terms(c.expr.terms@, c.expr.constant, val);
        let n = eval_terms(d.expr.terms@, d.expr.constant, val);
        Rational::lemma_den_positive(e);
        Rational::lemma_den_positive(n);
        let en = e.spec_num() as int;
        let ed = e.spec_den() as int;
        let nn = n.spec_num() as int;
        let nd = n.spec_den() as int;
        assert(nn <= 0 <==> en >= 0) by (nonlinear_arith)
            requires
                nn * ed == (-en) * nd,
                ed > 0,
                nd > 0,
        ;
    }
}

/// An objective function to be optimised.
#[derive(Debug, Clone, PartialEq, Eq)]
pub enum Objective {
    /// Minimise the given expression.
    Minimise(LinearExpr),
    /// Maximise the given expression.
    Maximise(LinearExpr),
    /// No objective (feasibility problem).
    Feasibility,
}

impl Objective {
    /// Is this a feasibility problem (no objective)?
    pub fn is_feasibility(&self) -> (r: bool)
        ensures
            r == (*self is Feasibility),
    {
        match self {
            Objective::Feasibility => true,
            _ => false,
        }
    }

    /// Return the objective expression, if any.
    pub fn expr(&self) -> (r: Option<&LinearExpr>)
        ensures
            match *self {
                Objective::Minimise(e) => r == Some(&e),
                Objective::Maximise(e) => r == Some(&e),
                Objective::Feasibility => r is None,
            },
    {
        match self {
            Objective::Minimise(e) => Some(e),
            Objective::Maximise(e) => Some(e),
            Objective::Feasibility => None,
        }
    }
}

} // verus!
