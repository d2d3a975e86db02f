//! Linear constraint normalisation.
//!
//! Transforms raw constraints into a canonical internal representation:
//!   1. Merge like terms and sort them by variable.
//!   2. Turn `>=` into `<=` by negation.
//!   3. Divide through by the GCD of the numerators when it divides all of them.
use vstd::prelude::*;
use crate::common::Var;
use crate::linear::rational::{Rational, abs_int, abs_u64, gcd_nat};
use crate::linear::expr::{
    LinearExpr, LinearTerm, copy_terms, coeffs_of, is_merge_of, is_normal, merge_ok, mentions,
    merge_terms, negatable, negated_terms, rat_is_zero, sum_ok, sum_seq,
};
use crate::linear::constraint::{CmpOp, LinearConstraint, copy_expr, copy_name};

verus! {

/// Absolute values of the non-zero numerators of the coefficients, in order.
pub open spec fn term_nums(s: Seq<LinearTerm>) -> Seq<nat>
    decreases s.len(),
{
    if s.len() == 0 {
        Seq::empty()
    } else {
        let p = term_nums(s.drop_last());
        let n = s.last().coefficient.spec_num();
        if n != 0 {
            p.push(abs_int(n as int))
        } else {
            p
        }
    }
}

/// Absolute values of the non-zero numerators: constant `k` first, then the terms.
pub open spec fn expr_nums(k: Rational, s: Seq<LinearTerm>) -> Seq<nat> {
    let c = k.spec_num();
    (if c != 0 {
        seq![abs_int(c as int)]
    } else {
        Seq::empty()
    }) + term_nums(s)
}

/// `gcd(gcd(v0, v1), v2) ...` over a non-empty sequence.
pub open spec fn gcd_fold(s: Seq<nat>) -> nat
    decreases s.len(),
{
    if s.len() == 0 {
        0
    } else if s.len() == 1 {
        s[0]
    } else {
        gcd_nat(gcd_fold(s.drop_last()), s.last())
    }
}

/// `x / g` for an integer `x` divisible by `g`, rounding toward zero.
pub open spec fn div_toward_zero(x: int, g: nat) -> int {
    if x < 0 {
        -((abs_int(x) / g) as int)
    } else {
        (abs_int(x) / g) as int
    }
}

/// `x` is a multiple of `g`.
pub open spec fn divides(g: nat, x: int) -> bool {
    abs_int(x) % g == 0
}

/// A coefficient divided by `g` when `g` divides its numerator.
pub open spec fn reduce_term(t: LinearTerm, g: nat) -> LinearTerm {
    if divides(g, t.coefficient.spec_num() as int) {
        LinearTerm {
            coefficient: Rational::spec_make(
                div_toward_zero(t.coefficient.spec_num() as int, g),
                t.coefficient.spec_den() as int,
            ),
            var: t.var,
        }
    } else {
        t
    }
}

/// The terms with every divisible coefficient divided by `g`.
pub open spec fn reduce_terms(s: Seq<LinearTerm>, g: nat) -> Seq<LinearTerm>
    decreases s.len(),
{
    if s.len() == 0 {
        s
    } else {
        reduce_terms(s.drop_last(), g).push(reduce_term(s.last(), g))
    }
}

/// Whether `try_reduce` divides through: at least two non-zero numerators,
/// a common divisor above one, and the constant divisible by it.
pub open spec fn reducible(k: Rational, s: Seq<LinearTerm>) -> bool {
    let vals = expr_nums(k, s);
    let g = gcd_fold(vals);
    &&& vals.len() >= 2
    &&& g > 1
    &&& divides(g, k.spec_num() as int)
}

/// `(rk, rs)` is what reducing the expression `(k, s)` gives: unchanged when it
/// is not reducible, otherwise the constant and every divisible coefficient
/// divided by the GCD, the terms then merged.
pub open spec fn reduced_to(rk: Rational, rs: Seq<LinearTerm>, k: Rational, s: Seq<LinearTerm>) -> bool {
    if reducible(k, s) {
        let g = gcd_fold(expr_nums(k, s));
        &&& rk == Rational::spec_make(div_toward_zero(k.spec_num() as int, g), k.spec_den() as int)
        &&& is_merge_of(rs, reduce_terms(s, g))
    } else {
        rk == k && rs == s
    }
}

/// The constant before reduction: negated for `>=`.
pub open spec fn oriented_constant(op: CmpOp, k: Rational) -> Rational {
    if op == CmpOp::Ge {
        crate::linear::rational::rat_neg(k)
    } else {
        k
    }
}

/// The terms before reduction: negated for `>=`.
pub open spec fn oriented_terms(op: CmpOp, s: Seq<LinearTerm>) -> Seq<LinearTerm> {
    if op == CmpOp::Ge {
        negated_terms(s)
    } else {
        s
    }
}

/// The numerators of `s` that can be negated and divided without leaving `i64`.
pub open spec fn nums_not_min(s: Seq<LinearTerm>) -> bool {
    forall|i: int| 0 <= i < s.len() ==> (#[trigger] s[i].coefficient).spec_num() != i64::MIN
}

/// Variables strictly increasing.
pub open spec fn increasing_vars(s: Seq<LinearTerm>) -> bool {
    forall|i: int, j: int| 0 <= i < j < s.len() ==> s[i].var.0 < s[j].var.0
}

proof fn lemma_increasing_single_coeff(s: Seq<LinearTerm>, v: Var)
    requires
        increasing_vars(s),
    ensures
        coeffs_of(s, v).len() <= 1,
    decreases s.len(),
{
    if s.len() > 0 {
        let p = s.drop_last();
        assert(increasing_vars(p));
        lemma_increasing_single_coeff(p, v);
        if s.last().var == v {
            assert(!mentions(p, v)) by {
                if mentions(p, v) {
                    let i = choose|i: int| 0 <= i < p.len() && p[i].var == v;
                    assert(s[i].var.0 < s[s.len() - 1].var.0);
                }
            }
            lemma_absent_empty(p, v);
        }
    }
}

proof fn lemma_absent_empty(s: Seq<LinearTerm>, v: Var)
    requires
        !mentions(s, v),
    ensures
        coeffs_of(s, v).len() == 0,
    decreases s.len(),
{
    if s.len() > 0 {
        let p = s.drop_last();
        assert(!mentions(p, v)) by {
            if mentions(p, v) {
                let i = choose|i: int| 0 <= i < p.len() && p[i].var == v;
                assert(s[i].var == v);
            }
        }
        lemma_absent_empty(p, v);
        assert(s[s.len() - 1].var != v);
    }
}

proof fn lemma_increasing_merge_ok(s: Seq<LinearTerm>)
    requires
        increasing_vars(s),
    ensures
        merge_ok(s),
{
    assert forall|v: Var| #[trigger] sum_ok(coeffs_of(s, v)) by {
        lemma_increasing_single_coeff(s, v);
    }
}

proof fn lemma_negated_vars(s: Seq<LinearTerm>)
    ensures
        forall|i: int| 0 <= i < negated_terms(s).len() ==> mentions(s, #[trigger] negated_terms(s)[i].var),
        negated_terms(s).len() <= s.len(),
    decreases s.len(),
{
    if s.len() > 0 {
        let p = s.drop_last();
        lemma_negated_vars(p);
        assert forall|i: int| 0 <= i < negated_terms(s).len() implies mentions(s, #[trigger] negated_terms(s)[i].var) by {
            if i < negated_terms(p).len() {
                assert(negated_terms(s)[i] == negated_terms(p)[i]);
                let k = choose|k: int| 0 <= k < p.len() && p[k].var == negated_terms(p)[i].var;
                assert(s[k] == p[k]);
            } else {
                assert(s[s.len() - 1].var == negated_terms(s)[i].var);
            }
        }
    }
}

proof fn lemma_negated_increasing(s: Seq<LinearTerm>)
    requires
        increasing_vars(s),
        nums_not_min(s),
    ensures
        increasing_vars(negated_terms(s)),
        nums_not_min(negated_terms(s)),
    decreases s.len(),
{
    if s.len() > 0 {
        let p = s.drop_last();
        assert(increasing_vars(p));
        assert(nums_not_min(p)) by {
            assert forall|i: int| 0 <= i < p.len() implies (#[trigger] p[i].coefficient).spec_num() != i64::MIN by {
                assert(s[i] == p[i]);
            }
        }
        lemma_negated_increasing(p);
        lemma_negated_vars(p);
        let q = negated_terms(p);
        let r = negated_terms(s);
        assert forall|i: int, j: int| 0 <= i < j < r.len() implies r[i].var.0 < r[j].var.0 by {
            if j >= q.len() {
                assert(r[i] == q[i]);
                let k = choose|k: int| 0 <= k < p.len() && p[k].var == q[i].var;
                assert(s[k] == p[k]);
                assert(s[k].var.0 < s[s.len() - 1].var.0);
            } else {
                assert(r[i] == q[i]);
                assert(r[j] == q[j]);
            }
        }
        Rational::lemma_den_positive(s.last().coefficient);
        Rational::lemma_make_parts(-(s.last().coefficient.spec_num() as int), s.last().coefficient.spec_den() as int);
        assert forall|i: int| 0 <= i < r.len() implies (#[trigger] r[i].coefficient).spec_num() != i64::MIN by {
            if i < q.len() {
                assert(r[i] == q[i]);
            } else {
                lemma_norm_not_min(-(s.last().coefficient.spec_num() as int), s.last().coefficient.spec_den() as int);
            }
        }
    }
}

proof fn lemma_norm_not_min(n: int, d: int)
    requires
        d > 0,
        d <= i64::MAX,
        -i64::MAX <= n <= i64::MAX,
    ensures
        Rational::spec_make(n, d).spec_num() != i64::MIN,
        Rational::spec_make(n, d).spec_num() == crate::linear::rational::norm_num(n, d),
{
    Rational::lemma_make_parts(n, d);
    crate::linear::rational::lemma_norm_facts(n, d);
}

proof fn lemma_merge_facts(r: Seq<LinearTerm>, s: Seq<LinearTerm>)
    requires
        is_merge_of(r, s),
        forall|v: Var| mentions(s, v) ==> (#[trigger] sum_seq(coeffs_of(s, v))).spec_num() != i64::MIN,
    ensures
        increasing_vars(r),
        nums_not_min(r),
        negatable(r),
{
    assert forall|i: int| 0 <= i < r.len() implies (#[trigger] r[i].coefficient).spec_num() != i64::MIN by {
        assert(mentions(s, r[i].var));
        assert(r[i].coefficient == sum_seq(coeffs_of(s, r[i].var)));
    }
}

fn gcd(a: u64, b: u64) -> (r: u64)
    ensures
        r == gcd_nat(a as nat, b as nat),
    decreases b,
{
    if b == 0 {
        a
    } else {
        gcd(b, a % b)
    }
}

proof fn lemma_gcd_le(a: nat, b: nat)
    ensures
        gcd_nat(a, b) <= (if a > b { a } else { b }),
        a > 0 ==> gcd_nat(a, b) > 0,
    decreases b,
{
    if b > 0 {
        let r = a % b;
        assert(r < b) by (nonlinear_arith)
            requires
                b > 0,
                r == a % b,
        ;
        lemma_gcd_le(b, r);
    }
}

proof fn lemma_gcd_fold_bound(s: Seq<nat>, m: nat)
    requires
        s.len() >= 1,
        forall|i: int| 0 <= i < s.len() ==> #[trigger] s[i] <= m,
    ensures
        gcd_fold(s) <= m,
    decreases s.len(),
{
    if s.len() > 1 {
        lemma_gcd_fold_bound(s.drop_last(), m);
        lemma_gcd_le(gcd_fold(s.drop_last()), s.last());
    }
}

proof fn lemma_term_nums_bound(s: Seq<LinearTerm>)
    requires
        nums_not_min(s),
    ensures
        forall|i: int| 0 <= i < term_nums(s).len() ==> #[trigger] term_nums(s)[i] <= i64::MAX,
    decreases s.len(),
{
    if s.len() > 0 {
        let p = s.drop_last();
        assert(nums_not_min(p)) by {
            assert forall|i: int| 0 <= i < p.len() implies (#[trigger] p[i].coefficient).spec_num() != i64::MIN by {
                assert(s[i] == p[i]);
            }
        }
        lemma_term_nums_bound(p);
        assert(s[s.len() - 1].coefficient.spec_num() != i64::MIN);
        let q = term_nums(p);
        assert forall|i: int| 0 <= i < term_nums(s).len() implies #[trigger] term_nums(s)[i] <= i64::MAX by {
            if i < q.len() {
                assert(term_nums(s)[i] == q[i]);
            }
        }
    }
}

/// Divide `x` by `g` when `g` divides it.
fn div_num(x: i64, g: u64) -> (r: i64)
    requires
        g >= 1,
        x != i64::MIN,
    ensures
        r == div_toward_zero(x as int, g as nat),
{
    let a = abs_u64(x);
    let q = a / g;
    assert(q <= a) by (nonlinear_arith)
        requires
            g >= 1,
            q == a / g,
    ;
    if x < 0 {
        -(q as i64)
    } else {
        q as i64
    }
}

/// Try to divide all coefficients and the constant by the GCD of their
/// numerators. Applies only when at least two numerators are non-zero, the
/// GCD exceeds one and divides the constant; coefficients it does not divide
/// are kept.
fn try_reduce(expr: &LinearExpr) -> (r: LinearExpr)
    requires
        increasing_vars(expr.terms@),
        nums_not_min(expr.terms@),
        expr.constant.spec_num() != i64::MIN,
    ensures
        reduced_to(r.constant, r.terms@, expr.constant, expr.terms@),
{
    let mut values: Vec<u64> = Vec::new();
    let c_num = abs_u64(expr.constant.num());
    if c_num > 0 {
        values.push(c_num);
    }
    let ghost c_part: Seq<nat> = if expr.constant.spec_num() != 0 {
        seq![abs_int(expr.constant.spec_num() as int)]
    } else {
        Seq::<nat>::empty()
    };
    assert(values@.map_values(|x: u64| x as nat) =~= c_part + term_nums(expr.terms@.take(0)));
    let mut i: usize = 0;
    while i < expr.terms.len()
        invariant
            i <= expr.terms.len(),
            values@.map_values(|x: u64| x as nat) == c_part + term_nums(expr.terms@.take(i as int)),
        decreases expr.terms.len() - i,
    {
        let t = expr.terms[i];
        assert(expr.terms@.take(i + 1).drop_last() =~= expr.terms@.take(i as int));
        let n = abs_u64(t.coefficient.num());
        let ghost before = values@;
        if n > 0 {
            values.push(n);
            assert(values@.map_values(|x: u64| x as nat) =~= before.map_values(|x: u64| x as nat).push(n as nat));
        }
        assert(values@.map_values(|x: u64| x as nat) =~= c_part + term_nums(expr.terms@.take(i + 1)));
        i = i + 1;
    }
    assert(expr.terms@.take(expr.terms.len() as int) =~= expr.terms@);
    let ghost vals = expr_nums(expr.constant, expr.terms@);
    assert(values@.map_values(|x: u64| x as nat) =~= vals);
    if values.len() < 2 {
        return copy_expr(expr);
    }
    let mut g: u64 = values[0];
    let mut j: usize = 1;
    proof {
        assert(vals.take(1) =~= seq![vals[0]]);
        assert(values@.map_values(|x: u64| x as nat)[0] == values@[0]);
    }
    while j < values.len()
        invariant
            1 <= j <= values.len(),
            values@.map_values(|x: u64| x as nat) == vals,
            g == gcd_fold(vals.take(j as int)),
        decreases values.len() - j,
    {
        assert(vals.take(j + 1).drop_last() =~= vals.take(j as int));
        assert(values@.map_values(|x: u64| x as nat)[j as int] == values@[j as int]);
        g = gcd(g, values[j]);
        j = j + 1;
    }
    assert(vals.take(values.len() as int) =~= vals);
    if g <= 1 {
        return copy_expr(expr);
    }
    proof {
        lemma_term_nums_bound(expr.terms@);
        assert forall|k: int| 0 <= k < vals.len() implies #[trigger] vals[k] <= i64::MAX by {
            if expr.constant.spec_num() != 0 && k == 0 {
            } else {
                let off = if expr.constant.spec_num() != 0 { 1int } else { 0int };
                assert(vals[k] == term_nums(expr.terms@)[k - off]);
            }
        }
        lemma_gcd_fold_bound(vals, i64::MAX as nat);
    }
    let cnum = expr.constant.num();
    if abs_u64(cnum) % g != 0 {
        return copy_expr(expr);
    }
    let new_constant = Rational::new(div_num(cnum, g), expr.constant.den());
    let mut new_terms: Vec<LinearTerm> = Vec::new();
    let mut k: usize = 0;
    while k < expr.terms.len()
        invariant
            k <= expr.terms.len(),
            g >= 2,
            nums_not_min(expr.terms@),
            new_terms@ == reduce_terms(expr.terms@.take(k as int), g as nat),
        decreases expr.terms.len() - k,
    {
        let t = expr.terms[k];
        assert(expr.terms@.take(k + 1).drop_last() =~= expr.terms@.take(k as int));
        let num = t.coefficient.num();
        let nt = if abs_u64(num) % g == 0 {
            LinearTerm::new(Rational::new(div_num(num, g), t.coefficient.den()), t.var)
        } else {
            t
        };
        new_terms.push(nt);
        k = k + 1;
    }
    assert(expr.terms@.take(expr.terms.len() as int) =~= expr.terms@);
    proof {
        lemma_reduce_increasing(expr.terms@, g as nat);
        lemma_increasing_merge_ok(new_terms@);
    }
    LinearExpr { constant: new_constant, terms: merge_terms(&new_terms) }
}

proof fn lemma_reduce_increasing(s: Seq<LinearTerm>, g: nat)
    requires
        increasing_vars(s),
    ensures
        increasing_vars(reduce_terms(s, g)),
        reduce_terms(s, g).len() == s.len(),
        forall|i: int| 0 <= i < s.len() ==> #[trigger] reduce_terms(s, g)[i] == reduce_term(s[i], g),
    decreases s.len(),
{
    if s.len() > 0 {
        let p = s.drop_last();
        assert(increasing_vars(p));
        lemma_reduce_increasing(p, g);
        let r = reduce_terms(s, g);
        assert forall|i: int| 0 <= i < s.len() implies #[trigger] r[i] == reduce_term(s[i], g) by {
            if i < p.len() {
                assert(s[i] == p[i]);
            }
        }
    }
}

/// The result of normalising: merged terms, `>=` turned into `<=`, then reduced.
pub open spec fn normalized_ok(c: LinearConstraint) -> bool {
    &&& merge_ok(c.expr.terms@)
    &&& forall|v: Var| mentions(c.expr.terms@, v) ==> (#[trigger] sum_seq(coeffs_of(c.expr.terms@, v))).spec_num() != i64::MIN
    &&& c.expr.constant.spec_num() != i64::MIN
}

/// Normalise a slice of constraints.
pub fn normalize_constraints(constraints: &[LinearConstraint]) -> (r: Vec<LinearConstraint>)
    requires
        forall|i: int| 0 <= i < constraints@.len() ==> normalized_ok(#[trigger] constraints@[i]),
    ensures
        r@.len() == constraints@.len(),
        forall|i: int| 0 <= i < r@.len() ==> normalized_from(#[trigger] r@[i], constraints@[i]),
{
    let mut r: Vec<LinearConstraint> = Vec::new();
    let mut i: usize = 0;
    while i < constraints.len()
        invariant
            i <= constraints@.len(),
            r@.len() == i,
            forall|k: int| 0 <= k < constraints@.len() ==> normalized_ok(#[trigger] constraints@[k]),
            forall|k: int| 0 <= k < i ==> normalized_from(#[trigger] r@[k], constraints@[k]),
        decreases constraints@.len() - i,
    {
        r.push(normalize_constraint(&constraints[i]));
        i = i + 1;
    }
    r
}

/// `r` is the normal form of `c` (see `normalize_constraint`).
pub open spec fn normalized_from(r: LinearConstraint, c: LinearConstraint) -> bool {
    &&& r.op == (if c.op == CmpOp::Ge { CmpOp::Le } else { c.op })
    &&& (r.name is Some <==> c.name is Some)
    &&& (r.name is Some ==> r.name->0@ == c.name->0@)
    &&& exists|m: Seq<LinearTerm>| {
        &&& is_merge_of(m, c.expr.terms@)
        &&& reduced_to(
            r.expr.constant,
            r.expr.terms@,
            oriented_constant(c.op, c.expr.constant),
            oriented_terms(c.op, m),
        )
    }
}

/// Normalise a single constraint:
///
/// - merges duplicate variable terms (sorted by variable, zero sums dropped),
/// - turns `expr >= 0` into `-expr <= 0`,
/// - divides through by the GCD of the numerators when it divides them all.
pub fn normalize_constraint(constraint: &LinearConstraint) -> (r: LinearConstraint)
    requires
        normalized_ok(*constraint),
    ensures
        normalized_from(r, *constraint),
{
    let mut expr = copy_expr(&constraint.expr);
    expr.normalise();
    proof {
        lemma_merge_facts(expr.terms@, constraint.expr.terms@);
    }
    let e2 = if constraint.op == CmpOp::Ge {
        let n = expr.neg();
        proof {
            Rational::lemma_den_positive(expr.constant);
            lemma_negated_increasing(expr.terms@);
            lemma_norm_not_min(-(expr.constant.spec_num() as int), expr.constant.spec_den() as int);
        }
        n
    } else {
        expr
    };
    let reduced = try_reduce(&e2);
    assert(is_merge_of(expr.terms@, constraint.expr.terms@));
    LinearConstraint {
        expr: reduced,
        op: if constraint.op == CmpOp::Ge { CmpOp::Le } else { constraint.op },
        name: copy_name(&constraint.name),
    }
}

} // verus!
