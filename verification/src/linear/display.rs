//! Text forms of rationals, variables and linear expressions.
use vstd::prelude::*;
use crate::common::Var;
use crate::linear::rational::Rational;
use crate::linear::expr::{LinearExpr, LinearTerm};
use crate::linear::bound::{Bound, Domain};
use crate::linear::constraint::{CmpOp, LinearConstraint, Objective};
use crate::parser::text::{decimal, push_decimal};

verus! {

/// An integer in decimal, with a leading `-` when negative.
pub open spec fn int_text(n: int) -> Seq<char> {
    if n < 0 {
        seq!['-'] + decimal((-n) as nat)
    } else {
        decimal(n as nat)
    }
}

/// `n` for an integer, `n/d` otherwise.
pub open spec fn rat_text(r: Rational) -> Seq<char> {
    if r.spec_den() == 1 {
        int_text(r.spec_num() as int)
    } else {
        int_text(r.spec_num() as int) + seq!['/'] + decimal(r.spec_den() as nat)
    }
}

/// `x<id>`.
pub open spec fn var_text(v: Var) -> Seq<char> {
    seq!['x'] + decimal(v.0 as nat)
}

/// `x`, `-x` or `c*x` for a term.
pub open spec fn term_text(t: LinearTerm) -> Seq<char> {
    if t.coefficient.spec_num() == 1 && t.coefficient.spec_den() == 1 {
        var_text(t.var)
    } else if t.coefficient.spec_num() == -1 && t.coefficient.spec_den() == 1 {
        seq!['-'] + var_text(t.var)
    } else {
        rat_text(t.coefficient) + seq!['*'] + var_text(t.var)
    }
}

/// The pieces of an expression: the constant (when non-zero, or when there
/// are no terms), then each term.
pub open spec fn expr_parts(e: LinearExpr) -> Seq<Seq<char>> {
    let head: Seq<Seq<char>> = if e.constant.spec_num() != 0 || e.terms@.len() == 0 {
        seq![rat_text(e.constant)]
    } else {
        seq![]
    };
    head + e.terms@.map_values(|t: LinearTerm| term_text(t))
}

/// The pieces joined by `sep`.
pub open spec fn join(parts: Seq<Seq<char>>, sep: Seq<char>) -> Seq<char>
    decreases parts.len(),
{
    if parts.len() == 0 {
        seq![]
    } else if parts.len() == 1 {
        parts[0]
    } else {
        join(parts.drop_last(), sep) + sep + parts.last()
    }
}

/// The text of an expression: its pieces joined by ` + `.
pub open spec fn expr_text(e: LinearExpr) -> Seq<char> {
    join(expr_parts(e), " + "@)
}

/// Append an `i64` in decimal.
fn push_int(out: &mut String, n: i64)
    ensures
        final(out)@ == old(out)@ + int_text(n as int),
{
    if n < 0 {
        out.append("-");
        proof {
            reveal_strlit("-");
        }
        let m: i128 = -(n as i128);
        push_decimal(out, m as u128);
        assert(final(out)@ =~= old(out)@ + int_text(n as int));
    } else {
        push_decimal(out, n as u128);
    }
}

/// Append a rational.
fn push_rat(out: &mut String, r: Rational)
    ensures
        final(out)@ == old(out)@ + rat_text(r),
{
    proof {
        Rational::lemma_den_positive(r);
        reveal_strlit("/");
    }
    push_int(out, r.num());
    if r.den() != 1 {
        out.append("/");
        push_decimal(out, r.den() as u128);
    }
    assert(final(out)@ =~= old(out)@ + rat_text(r));
}

/// Append a variable.
fn push_var(out: &mut String, v: Var)
    ensures
        final(out)@ == old(out)@ + var_text(v),
{
    proof {
        reveal_strlit("x");
    }
    out.append("x");
    push_decimal(out, v.0 as u128);
    assert(final(out)@ =~= old(out)@ + var_text(v));
}

/// Append a term.
fn push_term(out: &mut String, t: LinearTerm)
    ensures
        final(out)@ == old(out)@ + term_text(t),
{
    proof {
        reveal_strlit("-");
        reveal_strlit("*");
    }
    let c = t.coefficient;
    if c.num() == 1 && c.den() == 1 {
        push_var(out, t.var);
    } else if c.num() == -1 && c.den() == 1 {
        out.append("-");
        push_var(out, t.var);
    } else {
        push_rat(out, c);
        out.append("*");
        push_var(out, t.var);
    }
    assert(final(out)@ =~= old(out)@ + term_text(t));
}

impl Rational {
    /// `n` for an integer, `n/d` otherwise.
    pub fn to_string(&self) -> (s: String)
        ensures
            s@ == rat_text(*self),
    {
        let mut s = String::new();
        push_rat(&mut s, *self);
        assert(s@ =~= rat_text(*self));
        s
    }
}

impl Var {
    /// `x<id>`.
    pub fn to_string(&self) -> (s: String)
        ensures
            s@ == var_text(*self),
    {
        let mut s = String::new();
        push_var(&mut s, *self);
        assert(s@ =~= var_text(*self));
        s
    }
}

impl LinearExpr {
    /// The expression as text, e.g. `1 + x0 + -x1 + 2*x2`; `0` when it has
    /// no pieces.
    pub fn to_string(&self) -> (s: String)
        ensures
            s@ == (if expr_parts(*self).len() == 0 { "0"@ } else { expr_text(*self) }),
    {
        let ghost parts = expr_parts(*self);
        let mut s = String::new();
        let mut empty = true;
        let ghost mut count: int = 0;
        let head = !self.constant.is_zero() || self.terms.len() == 0;
        let ghost head_parts: Seq<Seq<char>> = if head { seq![rat_text(self.constant)] } else { seq![] };
        if head {
            push_rat(&mut s, self.constant);
            empty = false;
            proof {
                count = 1;
            }
        }
        assert(s@ =~= join(head_parts, " + "@));
        let mut i: usize = 0;
        while i < self.terms.len()
            invariant
                i <= self.terms@.len(),
                count == head_parts.len() + i,
                empty == (count == 0),
                parts == head_parts + self.terms@.map_values(|t: LinearTerm| term_text(t)),
                s@ == join(parts.take(count), " + "@),
                count <= parts.len(),
            decreases self.terms@.len() - i,
        {
            let ghost before = parts.take(count);
            if !empty {
                s.append(" + ");
                proof {
                    reveal_strlit(" + ");
                }
            }
            push_term(&mut s, self.terms[i]);
            proof {
                let after = parts.take(count + 1);
                assert(after.drop_last() =~= before);
                assert(after.last() == term_text(self.terms@[i as int]));
                if count == 0 {
                    assert(s@ =~= join(after, " + "@));
                } else {
                    assert(s@ =~= join(after, " + "@));
                }
            }
            proof {
                count = count + 1;
            }
            empty = false;
            i = i + 1;
        }
        assert(parts.take(count) =~= parts);
        if empty {
            proof {
                reveal_strlit("0");
            }
            return String::from_str("0");
        }
        s
    }
}


/// The text of an expression as `to_string` gives it.
pub open spec fn expr_string(e: LinearExpr) -> Seq<char> {
    if expr_parts(e).len() == 0 {
        "0"@
    } else {
        expr_text(e)
    }
}

/// `=`, `<=` or `>=`.
pub open spec fn op_text(op: CmpOp) -> Seq<char> {
    match op {
        CmpOp::Eq => "="@,
        CmpOp::Le => "<="@,
        CmpOp::Ge => ">="@,
    }
}

/// `expr op 0`, prefixed by `name: ` when the constraint has a name.
pub open spec fn constraint_text(c: LinearConstraint) -> Seq<char> {
    let body = expr_string(c.expr) + " "@ + op_text(c.op) + " 0"@;
    match c.name {
        Some(n) => n@ + ": "@ + body,
        None => body,
    }
}

/// `minimise e`, `maximise e` or `feasibility`.
pub open spec fn objective_text(o: Objective) -> Seq<char> {
    match o {
        Objective::Minimise(e) => "minimise "@ + expr_string(e),
        Objective::Maximise(e) => "maximise "@ + expr_string(e),
        Objective::Feasibility => "feasibility"@,
    }
}

/// `free`, `>=l`, `<=u`, `=v` or `[l, u]`.
pub open spec fn bound_text(b: Bound) -> Seq<char> {
    match (b.lower, b.upper) {
        (None, None) => "free"@,
        (Some(l), None) => ">="@ + rat_text(l),
        (None, Some(u)) => "<="@ + rat_text(u),
        (Some(l), Some(u)) => if l == u {
            "="@ + rat_text(l)
        } else {
            "["@ + rat_text(l) + ", "@ + rat_text(u) + "]"@
        },
    }
}

/// `x<id>::Int [bound]` or `x<id>::Real [bound]`.
pub open spec fn domain_text(d: Domain) -> Seq<char> {
    var_text(d.var) + "::"@ + (if d.is_integer { "Int"@ } else { "Real"@ }) + " ["@ + bound_text(d.bound) + "]"@
}

impl CmpOp {
    /// `=`, `<=` or `>=`.
    pub fn symbol(&self) -> (s: &'static str)
        ensures
            s@ == op_text(*self),
    {
        match self {
            CmpOp::Eq => "=",
            CmpOp::Le => "<=",
            CmpOp::Ge => ">=",
        }
    }
}

impl LinearConstraint {
    /// The constraint as text, e.g. `x0 + -5 <= 0` or `c1: x0 >= 0`.
    pub fn to_string(&self) -> (s: String)
        ensures
            s@ == constraint_text(*self),
    {
        let mut s = String::new();
        match &self.name {
            Some(n) => {
                s.append(n.as_str());
                s.append(": ");
            },
            None => {},
        }
        let e = self.expr.to_string();
        s.append(e.as_str());
        s.append(" ");
        s.append(self.op.symbol());
        s.append(" 0");
        assert(s@ =~= constraint_text(*self));
        s
    }
}

impl Objective {
    /// The objective as text.
    pub fn to_string(&self) -> (s: String)
        ensures
            s@ == objective_text(*self),
    {
        match self {
            Objective::Minimise(e) => {
                let mut s = String::from_str("minimise ");
                let t = e.to_string();
                s.append(t.as_str());
                s
            },
            Objective::Maximise(e) => {
                let mut s = String::from_str("maximise ");
                let t = e.to_string();
                s.append(t.as_str());
                s
            },
            Objective::Feasibility => String::from_str("feasibility"),
        }
    }
}

/// Append the text of a bound.
fn push_bound(out: &mut String, b: Bound)
    ensures
        final(out)@ == old(out)@ + bound_text(b),
{
    match (b.lower, b.upper) {
        (None, None) => out.append("free"),
        (Some(l), None) => {
            out.append(">=");
            push_rat(out, l);
        },
        (None, Some(u)) => {
            out.append("<=");
            push_rat(out, u);
        },
        (Some(l), Some(u)) => {
            if l == u {
                out.append("=");
                push_rat(out, l);
            } else {
                out.append("[");
                push_rat(out, l);
                out.append(", ");
                push_rat(out, u);
                out.append("]");
            }
        },
    }
    assert(final(out)@ =~= old(out)@ + bound_text(b));
}

impl Bound {
    /// The bound as text: `free`, `>=l`, `<=u`, `=v` or `[l, u]`.
    pub fn to_string(&self) -> (s: String)
        ensures
            s@ == bound_text(*self),
    {
        let mut s = String::new();
        push_bound(&mut s, *self);
        assert(s@ =~= bound_text(*self));
        s
    }
}

impl Domain {
    /// The domain as text, e.g. `x0::Int [>=0]`.
    pub fn to_string(&self) -> (s: String)
        ensures
            s@ == domain_text(*self),
    {
        let mut s = String::new();
        push_var(&mut s, self.var);
        s.append("::");
        if self.is_integer {
            s.append("Int");
        } else {
            s.append("Real");
        }
        s.append(" [");
        push_bound(&mut s, self.bound);
        s.append("]");
        assert(s@ =~= domain_text(*self));
        s
    }
}

} // verus!
