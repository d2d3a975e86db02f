//! Sparse linear expressions over rationals.
use vstd::prelude::*;
use crate::common::Var;
use crate::linear::rational::{
    Rational, add_ok, mul_ok, rat_add, rat_mul, rat_neg,
};

verus! {

/// A term in a linear expression: `coefficient * variable`.
#[derive(Debug, Clone, Copy, PartialEq, Eq, Structural)]
pub struct LinearTerm {
    pub coefficient: Rational,
    pub var: Var,
}

impl LinearTerm {
    pub fn new(coefficient: Rational, var: Var) -> (t: Self)
        ensures
            t.coefficient == coefficient,
            t.var == var,
    {
        LinearTerm { coefficient, var }
    }

    /// Evaluate this term given the variable value `x`.
    pub fn eval(&self, x: Rational) -> (r: Rational)
        requires
            mul_ok(self.coefficient, x),
        ensures
            r == rat_mul(self.coefficient, x),
    {
        self.coefficient.mul_exact(x)
    }

    /// Negate the coefficient.
    pub fn neg(&self) -> (t: Self)
        requires
            self.coefficient.spec_num() != i64::MIN,
        ensures
            t.coefficient == rat_neg(self.coefficient),
            t.var == self.var,
    {
        LinearTerm::new(self.coefficient.neg(), self.var)
    }
}

/// The rational zero as a spec value.
pub open spec fn rat_zero() -> Rational {
    Rational::spec_make(0, 1)
}

/// Is `r` zero?
pub open spec fn rat_is_zero(r: Rational) -> bool {
    r.spec_num() == 0
}

/// The terms of `s` whose coefficient is not zero, in order.
pub open spec fn nonzero_terms(s: Seq<LinearTerm>) -> Seq<LinearTerm>
    decreases s.len(),
{
    if s.len() == 0 {
        s
    } else {
        let p = nonzero_terms(s.drop_last());
        if rat_is_zero(s.last().coefficient) {
            p
        } else {
            p.push(s.last())
        }
    }
}

/// The coefficients that `s` gives to `v`, in order.
pub open spec fn coeffs_of(s: Seq<LinearTerm>, v: Var) -> Seq<Rational>
    decreases s.len(),
{
    if s.len() == 0 {
        Seq::empty()
    } else {
        let p = coeffs_of(s.drop_last(), v);
        if s.last().var == v {
            p.push(s.last().coefficient)
        } else {
            p
        }
    }
}

/// Left-to-right sum of a non-empty sequence (starting from its first element).
pub open spec fn sum_seq(s: Seq<Rational>) -> Rational
    decreases s.len(),
{
    if s.len() == 0 {
        rat_zero()
    } else if s.len() == 1 {
        s[0]
    } else {
        rat_add(sum_seq(s.drop_last()), s.last())
    }
}

/// Every partial sum of `s` can be formed without leaving `i64`.
pub open spec fn sum_ok(s: Seq<Rational>) -> bool
    decreases s.len(),
{
    if s.len() <= 1 {
        true
    } else {
        sum_ok(s.drop_last()) && add_ok(sum_seq(s.drop_last()), s.last())
    }
}

/// The terms of `s` merge without overflow: for each variable, every partial
/// sum of its coefficients (in order) can be formed.
pub open spec fn merge_ok(s: Seq<LinearTerm>) -> bool {
    forall|v: Var| #[trigger] sum_ok(coeffs_of(s, v))
}

/// `v` occurs in `s`.
pub open spec fn mentions(s: Seq<LinearTerm>, v: Var) -> bool {
    exists|i: int| 0 <= i < s.len() && s[i].var == v
}

/// Variables strictly increasing and no zero coefficient.
pub open spec fn is_normal(s: Seq<LinearTerm>) -> bool {
    &&& forall|i: int, j: int| 0 <= i < j < s.len() ==> s[i].var.0 < s[j].var.0
    &&& forall|i: int| 0 <= i < s.len() ==> !rat_is_zero(#[trigger] s[i].coefficient)
}

/// `r` is the merged form of `s`: sorted by variable, one term per variable
/// carrying the sum of that variable's coefficients, zero sums dropped.
pub open spec fn is_merge_of(r: Seq<LinearTerm>, s: Seq<LinearTerm>) -> bool {
    &&& is_normal(r)
    &&& forall|i: int| 0 <= i < r.len() ==> mentions(s, #[trigger] r[i].var)
    &&& forall|i: int| 0 <= i < r.len() ==> #[trigger] r[i].coefficient == sum_seq(coeffs_of(s, r[i].var))
    &&& forall|v: Var| mentions(s, v) && !rat_is_zero(sum_seq(coeffs_of(s, v))) ==> mentions(r, v)
}

/// `v`'s coefficient in a normal-form term list (zero when absent).
pub open spec fn coeff_in(s: Seq<LinearTerm>, v: Var) -> Rational
    decreases s.len(),
{
    if s.len() == 0 {
        rat_zero()
    } else if s[0].var == v {
        s[0].coefficient
    } else {
        coeff_in(s.drop_first(), v)
    }
}

/// The sequence scaled by `k`, zero products dropped.
pub open spec fn scaled_terms(s: Seq<LinearTerm>, k: Rational) -> Seq<LinearTerm>
    decreases s.len(),
{
    if s.len() == 0 {
        s
    } else {
        let p = scaled_terms(s.drop_last(), k);
        let c = rat_mul(s.last().coefficient, k);
        if rat_is_zero(c) {
            p
        } else {
            p.push(LinearTerm { coefficient: c, var: s.last().var })
        }
    }
}

/// The sequence with every coefficient negated, zero results dropped.
pub open spec fn negated_terms(s: Seq<LinearTerm>) -> Seq<LinearTerm>
    decreases s.len(),
{
    if s.len() == 0 {
        s
    } else {
        let p = negated_terms(s.drop_last());
        let c = rat_neg(s.last().coefficient);
        if rat_is_zero(c) {
            p
        } else {
            p.push(LinearTerm { coefficient: c, var: s.last().var })
        }
    }
}

/// Every coefficient can be negated.
pub open spec fn negatable(s: Seq<LinearTerm>) -> bool {
    forall|i: int| 0 <= i < s.len() ==> (#[trigger] s[i].coefficient).spec_num() != i64::MIN
}

/// Every coefficient can be multiplied by `k`.
pub open spec fn scalable(s: Seq<LinearTerm>, k: Rational) -> bool {
    forall|i: int| 0 <= i < s.len() ==> mul_ok(#[trigger] s[i].coefficient, k)
}

/// A sparse linear expression: `constant + sum(coefficient_i * variable_i)`.
///
/// Terms with coefficient zero are removed by the constructors that can
/// create them; `normalise` sorts by variable id and merges duplicates.
#[derive(Debug, Clone, PartialEq, Eq)]
pub struct LinearExpr {
    pub constant: Rational,
    pub terms: Vec<LinearTerm>,
}

/// Copy a vector of terms element by element.
pub fn copy_terms(v: &Vec<LinearTerm>) -> (r: Vec<LinearTerm>)
    ensures
        r@ == v@,
{
    let mut r: Vec<LinearTerm> = Vec::new();
    let mut i: usize = 0;
    while i < v.len()
        invariant
            i <= v.len(),
            r@ == v@.take(i as int),
        decreases v.len() - i,
    {
        r.push(v[i]);
        i = i + 1;
        assert(r@ =~= v@.take(i as int));
    }
    assert(v@.take(v.len() as int) =~= v@);
    r
}

/// Drop the terms with zero coefficient.
fn prune_zero(v: Vec<LinearTerm>) -> (r: Vec<LinearTerm>)
    ensures
        r@ == nonzero_terms(v@),
{
    let mut r: Vec<LinearTerm> = Vec::new();
    let mut i: usize = 0;
    while i < v.len()
        invariant
            i <= v.len(),
            r@ == nonzero_terms(v@.take(i as int)),
        decreases v.len() - i,
    {
        let t = v[i];
        assert(v@.take(i + 1).drop_last() =~= v@.take(i as int));
        if !t.coefficient.is_zero() {
            r.push(t);
        }
        i = i + 1;
    }
    assert(v@.take(v.len() as int) =~= v@);
    r
}

pub proof fn lemma_coeffs_take_step(s: Seq<LinearTerm>, i: int, v: Var)
    requires
        0 <= i < s.len(),
    ensures
        coeffs_of(s.take(i + 1), v) == (if s[i].var == v {
            coeffs_of(s.take(i), v).push(s[i].coefficient)
        } else {
            coeffs_of(s.take(i), v)
        }),
{
    assert(s.take(i + 1).drop_last() =~= s.take(i));
}

pub proof fn lemma_coeffs_absent(s: Seq<LinearTerm>, v: Var)
    requires
        !mentions(s, v),
    ensures
        coeffs_of(s, v).len() == 0,
    decreases s.len(),
{
    if s.len() > 0 {
        assert(!mentions(s.drop_last(), v)) by {
            if mentions(s.drop_last(), v) {
                let i = choose|i: int| 0 <= i < s.drop_last().len() && s.drop_last()[i].var == v;
                assert(s[i].var == v);
            }
        }
        lemma_coeffs_absent(s.drop_last(), v);
        assert(s.last().var != v) by {
            assert(s[s.len() - 1].var == s.last().var);
        }
    }
}

proof fn lemma_coeffs_present(s: Seq<LinearTerm>, v: Var)
    requires
        mentions(s, v),
    ensures
        coeffs_of(s, v).len() > 0,
    decreases s.len(),
{
    if s.last().var != v {
        let i = choose|i: int| 0 <= i < s.len() && s[i].var == v;
        assert(i < s.len() - 1);
        assert(s.drop_last()[i].var == v);
        lemma_coeffs_present(s.drop_last(), v);
    }
}

proof fn lemma_sum_ok_prefix(s: Seq<LinearTerm>, i: int, v: Var)
    requires
        0 <= i <= s.len(),
        sum_ok(coeffs_of(s, v)),
    ensures
        sum_ok(coeffs_of(s.take(i), v)),
    decreases s.len() - i,
{
    if i < s.len() {
        lemma_sum_ok_prefix(s, i + 1, v);
        lemma_coeffs_take_step(s, i, v);
        let c = coeffs_of(s.take(i), v);
        if s[i].var == v && c.len() > 0 {
            assert(c.push(s[i].coefficient).drop_last() =~= c);
        }
    } else {
        assert(s.take(i) =~= s);
    }
}

/// Sum of the coefficients of variable `b` in `s`, in order; `None` when `b` is absent.
fn sum_coeffs(s: &Vec<LinearTerm>, b: Var) -> (r: Option<Rational>)
    requires
        sum_ok(coeffs_of(s@, b)),
    ensures
        r == (if coeffs_of(s@, b).len() == 0 {
            None::<Rational>
        } else {
            Some(sum_seq(coeffs_of(s@, b)))
        }),
{
    let mut acc: Option<Rational> = None;
    let mut i: usize = 0;
    while i < s.len()
        invariant
            i <= s.len(),
            sum_ok(coeffs_of(s@, b)),
            acc == (if coeffs_of(s@.take(i as int), b).len() == 0 {
                None::<Rational>
            } else {
                Some(sum_seq(coeffs_of(s@.take(i as int), b)))
            }),
        decreases s.len() - i,
    {
        let t = s[i];
        proof {
            lemma_coeffs_take_step(s@, i as int, b);
            lemma_sum_ok_prefix(s@, i as int + 1, b);
        }
        if t.var == b {
            proof {
                let c = coeffs_of(s@.take(i as int), b);
                let c2 = c.push(t.coefficient);
                assert(c2.drop_last() =~= c);
            }
            match acc {
                None => {
                    acc = Some(t.coefficient);
                },
                Some(a) => {
                    acc = Some(a.add_exact(t.coefficient));
                },
            }
        }
        i = i + 1;
    }
    assert(s@.take(s.len() as int) =~= s@);
    acc
}

/// Smallest variable id at least `lo` among the terms, if any.
fn min_var_from(s: &Vec<LinearTerm>, lo: usize) -> (r: Option<usize>)
    ensures
        match r {
            None => forall|i: int| 0 <= i < s.len() ==> s@[i].var.0 < lo,
            Some(b) => {
                &&& b >= lo
                &&& mentions(s@, Var(b))
                &&& forall|i: int| 0 <= i < s.len() && s@[i].var.0 >= lo ==> b <= s@[i].var.0
            },
        },
{
    let mut best: Option<usize> = None;
    let mut i: usize = 0;
    while i < s.len()
        invariant
            i <= s.len(),
            match best {
                None => forall|k: int| 0 <= k < i ==> s@[k].var.0 < lo,
                Some(b) => {
                    &&& b >= lo
                    &&& mentions(s@, Var(b))
                    &&& forall|k: int| 0 <= k < i && s@[k].var.0 >= lo ==> b <= s@[k].var.0
                },
            },
        decreases s.len() - i,
    {
        let id = s[i].var.0;
        if id >= lo {
            match best {
                None => {
                    assert(s@[i as int].var == Var(id));
                    best = Some(id);
                },
                Some(b) => {
                    if id < b {
                        assert(s@[i as int].var == Var(id));
                        best = Some(id);
                    }
                },
            }
        }
        i = i + 1;
    }
    best
}

/// Merge the terms of `s`: sort by variable, sum the coefficients of each
/// variable in order, and drop the zero sums.
pub fn merge_terms(s: &Vec<LinearTerm>) -> (r: Vec<LinearTerm>)
    requires
        merge_ok(s@),
    ensures
        is_merge_of(r@, s@),
{
    let mut r: Vec<LinearTerm> = Vec::new();
    let mut lo: usize = 0;
    let mut done = false;
    while !done
        invariant
            merge_ok(s@),
            is_normal(r@),
            forall|i: int| 0 <= i < r.len() ==> mentions(s@, #[trigger] r@[i].var),
            forall|i: int| 0 <= i < r.len() ==> #[trigger] r@[i].coefficient == sum_seq(coeffs_of(s@, r@[i].var)),
            !done ==> forall|i: int| 0 <= i < r.len() ==> (#[trigger] r@[i].var).0 < lo,
            forall|v: Var| mentions(s@, v) && !rat_is_zero(sum_seq(coeffs_of(s@, v))) && (done || v.0 < lo)
                ==> mentions(r@, v),
        decreases (if done { 0int } else { 1int }) + (usize::MAX - lo),
    {
        match min_var_from(s, lo) {
            None => {
                assert forall|v: Var| mentions(s@, v) && !rat_is_zero(sum_seq(coeffs_of(s@, v))) implies mentions(r@, v) by {
                    let i = choose|i: int| 0 <= i < s@.len() && s@[i].var == v;
                    assert(s@[i].var.0 < lo);
                }
                done = true;
            },
            Some(b) => {
                assert(sum_ok(coeffs_of(s@, Var(b))));
                proof {
                    lemma_coeffs_present(s@, Var(b));
                }
                let total = sum_coeffs(s, Var(b));
                let sm = total.unwrap();
                let ghost old_r = r@;
                if !sm.is_zero() {
                    r.push(LinearTerm::new(sm, Var(b)));
                    assert(r@[r.len() - 1].var == Var(b));
                }
                assert forall|i: int| 0 <= i < r.len() implies mentions(s@, #[trigger] r@[i].var) by {
                    if i < old_r.len() {
                        assert(r@[i] == old_r[i]);
                    }
                }
                assert forall|i: int| 0 <= i < r.len() implies #[trigger] r@[i].coefficient == sum_seq(coeffs_of(s@, r@[i].var)) by {
                    if i < old_r.len() {
                        assert(r@[i] == old_r[i]);
                    }
                }
                assert forall|v: Var| mentions(s@, v) && !rat_is_zero(sum_seq(coeffs_of(s@, v))) && v.0 < b + 1 implies mentions(r@, v) by {
                    if v.0 < lo {
                        let k = choose|k: int| 0 <= k < old_r.len() && old_r[k].var == v;
                        assert(r@[k] == old_r[k]);
                    } else if v.0 == b {
                        assert(v == Var(b));
                        assert(r@[r.len() - 1].var == v);
                    } else {
                        let i = choose|i: int| 0 <= i < s@.len() && s@[i].var == v;
                        assert(b <= s@[i].var.0);
                    }
                }
                if b == usize::MAX {
                    assert forall|v: Var| mentions(s@, v) && !rat_is_zero(sum_seq(coeffs_of(s@, v))) implies mentions(r@, v) by {
                        assert(v.0 < b + 1);
                    }
                    done = true;
                } else {
                    lo = b + 1;
                }
            },
        }
    }
    r
}

impl LinearExpr {
    /// The zero expression.
    pub fn zero() -> (e: Self)
        ensures
            e.constant == rat_zero(),
            e.terms@.len() == 0,
    {
        LinearExpr { constant: Rational::zero(), terms: Vec::new() }
    }

    /// Create a constant expression.
    pub fn constant(value: Rational) -> (e: Self)
        ensures
            e.constant == value,
            e.terms@.len() == 0,
    {
        LinearExpr { constant: value, terms: Vec::new() }
    }

    /// Create an expression from a single variable with coefficient 1.
    pub fn from_var(var: Var) -> (e: Self)
        ensures
            e.constant == rat_zero(),
            e.terms@ == seq![LinearTerm { coefficient: Rational::spec_make(1, 1), var }],
    {
        let mut terms: Vec<LinearTerm> = Vec::new();
        terms.push(LinearTerm::new(Rational::one(), var));
        LinearExpr { constant: Rational::zero(), terms }
    }

    /// Create an expression from a single term (dropped when its coefficient is zero).
    pub fn from_term(term: LinearTerm) -> (e: Self)
        ensures
            e.constant == rat_zero(),
            e.terms@ == nonzero_terms(seq![term]),
    {
        let mut terms: Vec<LinearTerm> = Vec::new();
        terms.push(term);
        assert(terms@ == seq![term]);
        LinearExpr { constant: Rational::zero(), terms: prune_zero(terms) }
    }

    /// Number of terms (excluding the constant).
    pub fn num_terms(&self) -> (n: usize)
        ensures
            n == self.terms@.len(),
    {
        self.terms.len()
    }

    /// Whether this expression is constant (no variable terms).
    pub fn is_constant(&self) -> (b: bool)
        ensures
            b == (self.terms@.len() == 0),
    {
        self.terms.len() == 0
    }

    /// Collect all variables used in this expression, in term order.
    pub fn vars(&self) -> (vs: Vec<Var>)
        ensures
            vs@.len() == self.terms@.len(),
            forall|i: int| 0 <= i < vs@.len() ==> vs@[i] == self.terms@[i].var,
    {
        let mut vs: Vec<Var> = Vec::new();
        let mut i: usize = 0;
        while i < self.terms.len()
            invariant
                i <= self.terms.len(),
                vs@.len() == i,
                forall|k: int| 0 <= k < i ==> vs@[k] == self.terms@[k].var,
            decreases self.terms.len() - i,
        {
            vs.push(self.terms[i].var);
            i = i + 1;
        }
        vs
    }

    /// Return the coefficient of the first term on `var`, or zero.
    pub fn coeff(&self, var: Var) -> (c: Rational)
        ensures
            c == coeff_in(self.terms@, var),
    {
        let mut i: usize = 0;
        assert(self.terms@.skip(0) =~= self.terms@);
        while i < self.terms.len()
            invariant
                i <= self.terms.len(),
                coeff_in(self.terms@, var) == coeff_in(self.terms@.skip(i as int), var),
            decreases self.terms.len() - i,
        {
            assert(self.terms@.skip(i as int).drop_first() =~= self.terms@.skip(i + 1));
            if self.terms[i].var == var {
                return self.terms[i].coefficient;
            }
            i = i + 1;
        }
        Rational::zero()
    }

    /// Negate the expression (multiply all coefficients and constant by -1).
    pub fn neg(&self) -> (e: Self)
        requires
            self.constant.spec_num() != i64::MIN,
            negatable(self.terms@),
        ensures
            e.constant == rat_neg(self.constant),
            e.terms@ == negated_terms(self.terms@),
    {
        let mut r: Vec<LinearTerm> = Vec::new();
        let mut i: usize = 0;
        while i < self.terms.len()
            invariant
                i <= self.terms.len(),
                negatable(self.terms@),
                r@ == negated_terms(self.terms@.take(i as int)),
            decreases self.terms.len() - i,
        {
            let t = self.terms[i];
            assert(self.terms@.take(i + 1).drop_last() =~= self.terms@.take(i as int));
            let n = t.neg();
            if !n.coefficient.is_zero() {
                r.push(n);
            }
            i = i + 1;
        }
        assert(self.terms@.take(self.terms.len() as int) =~= self.terms@);
        LinearExpr { constant: self.constant.neg(), terms: r }
    }

    /// Normalise: sort terms by var id, merge duplicates, drop zero coefficients.
    pub fn normalise(&mut self)
        requires
            merge_ok(old(self).terms@),
        ensures
            final(self).constant == old(self).constant,
            old(self).terms@.len() == 0 ==> final(self).terms@.len() == 0,
            is_merge_of(final(self).terms@, old(self).terms@),
    {
        if self.terms.len() == 0 {
            proof {
                assert forall|v: Var| !mentions(self.terms@, v) by {}
            }
            return;
        }
        let merged = merge_terms(&self.terms);
        self.terms = merged;
    }

    /// Is this expression exactly zero?
    pub fn is_zero(&self) -> (b: bool)
        ensures
            b == (rat_is_zero(self.constant) && self.terms@.len() == 0),
    {
        self.constant.is_zero() && self.terms.len() == 0
    }

    /// `self + other`: constants added, terms concatenated and merged.
    pub fn add_expr(self, other: Self) -> (e: Self)
        requires
            add_ok(self.constant, other.constant),
            merge_ok(self.terms@ + other.terms@),
        ensures
            e.constant == rat_add(self.constant, other.constant),
            is_merge_of(e.terms@, self.terms@ + other.terms@),
    {
        let mut s = self;
        let mut o = other;
        s.constant = s.constant.add_exact(o.constant);
        s.terms.append(&mut o.terms);
        s.normalise();
        s
    }

    /// `self * k`: every coefficient and the constant scaled, zero terms dropped.
    pub fn scale(self, k: Rational) -> (e: Self)
        requires
            mul_ok(self.constant, k),
            scalable(self.terms@, k),
        ensures
            e.constant == rat_mul(self.constant, k),
            e.terms@ == scaled_terms(self.terms@, k),
    {
        let mut r: Vec<LinearTerm> = Vec::new();
        let mut i: usize = 0;
        while i < self.terms.len()
            invariant
                i <= self.terms.len(),
                scalable(self.terms@, k),
                r@ == scaled_terms(self.terms@.take(i as int), k),
            decreases self.terms.len() - i,
        {
            let t = self.terms[i];
            assert(self.terms@.take(i + 1).drop_last() =~= self.terms@.take(i as int));
            let c = t.coefficient.mul_exact(k);
            if !c.is_zero() {
                r.push(LinearTerm::new(c, t.var));
            }
            i = i + 1;
        }
        assert(self.terms@.take(self.terms.len() as int) =~= self.terms@);
        LinearExpr { constant: self.constant.mul_exact(k), terms: r }
    }
}

} // verus!
