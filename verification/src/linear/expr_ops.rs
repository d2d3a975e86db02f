//! Operators, conversions and evaluation for linear expressions.
use vstd::prelude::*;
use crate::common::Var;
use crate::linear::rational::{
    Rational, add_ok, mul_ok, rat_add, rat_mul, rat_neg, has_value, lemma_add_values, lemma_mul_value,
    lemma_mul_values, lemma_neg_value, lemma_value_transport, lemma_den_product_positive,
};
use crate::linear::expr::{
    LinearExpr, LinearTerm, is_merge_of, merge_ok, negated_terms, negatable, rat_is_zero, rat_zero, scalable,
    scaled_terms,
};

verus! {

/// The value a deterministic valuation gives to `v`.
pub open spec fn value_of<F: Fn(Var) -> Rational>(f: F, v: Var) -> Rational {
    choose|r: Rational| f.ensures((v,), r)
}

/// `f` can be called on every variable and always answers the same value.
pub open spec fn valuation<F: Fn(Var) -> Rational>(f: F) -> bool {
    &&& forall|v: Var| #[trigger] f.requires((v,))
    &&& forall|v: Var, r1: Rational, r2: Rational|
        #![trigger f.ensures((v,), r1), f.ensures((v,), r2)]
        f.ensures((v,), r1) && f.ensures((v,), r2) ==> r1 == r2
}

/// `c + Σ coefficient_i * val(var_i)`, summed left to right.
pub open spec fn eval_terms(s: Seq<LinearTerm>, c: Rational, val: spec_fn(Var) -> Rational) -> Rational
    decreases s.len(),
{
    if s.len() == 0 {
        c
    } else {
        rat_add(
            eval_terms(s.drop_last(), c, val),
            rat_mul(s.last().coefficient, val(s.last().var)),
        )
    }
}

/// Every product and partial sum of `eval_terms` stays within `i64`.
pub open spec fn eval_ok(s: Seq<LinearTerm>, c: Rational, val: spec_fn(Var) -> Rational) -> bool
    decreases s.len(),
{
    if s.len() == 0 {
        true
    } else {
        &&& eval_ok(s.drop_last(), c, val)
        &&& mul_ok(s.last().coefficient, val(s.last().var))
        &&& add_ok(
            eval_terms(s.drop_last(), c, val),
            rat_mul(s.last().coefficient, val(s.last().var)),
        )
    }
}

/// The valuation as a spec function.
pub open spec fn as_spec_fn<F: Fn(Var) -> Rational>(f: F) -> spec_fn(Var) -> Rational {
    |v: Var| value_of(f, v)
}

pub proof fn lemma_value_of<F: Fn(Var) -> Rational>(f: F, v: Var, r: Rational)
    requires
        valuation(f),
        f.ensures((v,), r),
    ensures
        value_of(f, v) == r,
{
    let c = value_of(f, v);
    assert(f.ensures((v,), c));
}

impl LinearExpr {
    /// Evaluate the expression given a variable-to-value mapping.
    pub fn eval<F: Fn(Var) -> Rational>(&self, get_value: F) -> (r: Rational)
        requires
            valuation(get_value),
            eval_ok(self.terms@, self.constant, as_spec_fn(get_value)),
        ensures
            r == eval_terms(self.terms@, self.constant, as_spec_fn(get_value)),
    {
        let ghost val = as_spec_fn(get_value);
        let mut sum = self.constant;
        let mut i: usize = 0;
        while i < self.terms.len()
            invariant
                i <= self.terms.len(),
                valuation(get_value),
                val == as_spec_fn(get_value),
                eval_ok(self.terms@, self.constant, val),
                sum == eval_terms(self.terms@.take(i as int), self.constant, val),
            decreases self.terms.len() - i,
        {
            let t = self.terms[i];
            let x = get_value(t.var);
            proof {
                lemma_value_of(get_value, t.var, x);
                assert(self.terms@.take(i + 1).drop_last() =~= self.terms@.take(i as int));
                lemma_eval_ok_prefix(self.terms@, self.constant, val, i + 1);
            }
            let p = t.coefficient.mul_exact(x);
            sum = sum.add_exact(p);
            i = i + 1;
        }
        assert(self.terms@.take(self.terms.len() as int) =~= self.terms@);
        sum
    }
}

proof fn lemma_eval_ok_prefix(s: Seq<LinearTerm>, c: Rational, val: spec_fn(Var) -> Rational, i: int)
    requires
        0 <= i <= s.len(),
        eval_ok(s, c, val),
    ensures
        eval_ok(s.take(i), c, val),
    decreases s.len() - i,
{
    if i < s.len() {
        lemma_eval_ok_prefix(s, c, val, i + 1);
        assert(s.take(i + 1).drop_last() =~= s.take(i));
    } else {
        assert(s.take(i) =~= s);
    }
}

/// Negating an expression negates its value: evaluated at any point where
/// both evaluations stay within `i64`, `-e` has exactly the value `-(e)`.
pub proof fn lemma_eval_neg(s: Seq<LinearTerm>, c: Rational, val: spec_fn(Var) -> Rational)
    requires
        c.spec_num() != i64::MIN,
        negatable(s),
        eval_ok(s, c, val),
        eval_ok(negated_terms(s), rat_neg(c), val),
    ensures
        has_value(
            eval_terms(negated_terms(s), rat_neg(c), val),
            -eval_terms(s, c, val).spec_num(),
            eval_terms(s, c, val).spec_den() as int,
        ),
    decreases s.len(),
{
    if s.len() == 0 {
        lemma_neg_value(c);
    } else {
        let s1 = s.drop_last();
        let a = s.last().coefficient;
        let x = val(s.last().var);
        let a2 = rat_neg(a);
        assert(negatable(s1)) by {
            assert forall|i: int| 0 <= i < s1.len() implies (#[trigger] s1[i].coefficient).spec_num() != i64::MIN by {
                assert(s1[i] == s[i]);
            }
        }
        assert(a.spec_num() != i64::MIN) by {
            assert(s[s.len() - 1] == s.last());
        }
        let ns1 = negated_terms(s1);
        if !rat_is_zero(a2) {
            assert(negated_terms(s).drop_last() == ns1);
        }
        lemma_eval_neg(s1, c, val);
        let e1 = eval_terms(s1, c, val);
        let e = eval_terms(s, c, val);
        let n1 = eval_terms(ns1, rat_neg(c), val);
        let n = eval_terms(negated_terms(s), rat_neg(c), val);
        Rational::lemma_den_positive(e1);
        Rational::lemma_den_positive(e);
        Rational::lemma_den_positive(a);
        Rational::lemma_den_positive(x);
        lemma_den_product_positive(a, x);
        let an = a.spec_num() as int;
        let ad = a.spec_den() as int;
        let xn = x.spec_num() as int;
        let xd = x.spec_den() as int;
        let d = ad * xd;
        let k = an * xn;
        lemma_mul_value(a, x);
        lemma_add_values(e1, rat_mul(a, x), e1.spec_num() as int, e1.spec_den() as int, k, d);
        let w = (e1.spec_den() as int) * d;
        assert(w > 0) by (nonlinear_arith)
            requires
                e1.spec_den() > 0,
                d > 0,
                w == (e1.spec_den() as int) * d,
        ;
        let kk = (e1.spec_num() as int) * d + k * (e1.spec_den() as int);
        if rat_is_zero(a2) {
            lemma_neg_value(a);
            Rational::lemma_den_positive(a2);
            assert(an == 0) by (nonlinear_arith)
                requires
                    a2.spec_num() == 0,
                    (a2.spec_num() as int) * ad == (-an) * (a2.spec_den() as int),
                    a2.spec_den() > 0,
            ;
            assert(k == 0) by (nonlinear_arith)
                requires
                    an == 0,
                    k == an * xn,
            ;
            assert((e.spec_num() as int) * (e1.spec_den() as int) == (e1.spec_num() as int) * (e.spec_den() as int)) by (nonlinear_arith)
                requires
                    (e.spec_num() as int) * w == kk * (e.spec_den() as int),
                    kk == (e1.spec_num() as int) * d + k * (e1.spec_den() as int),
                    k == 0,
                    w == (e1.spec_den() as int) * d,
                    d > 0,
            ;
            assert((-(e1.spec_num() as int)) * (e.spec_den() as int) == (-(e.spec_num() as int)) * (e1.spec_den() as int)) by (nonlinear_arith)
                requires
                    (e.spec_num() as int) * (e1.spec_den() as int) == (e1.spec_num() as int) * (e.spec_den() as int),
            ;
            lemma_value_transport(n, -(e1.spec_num() as int), e1.spec_den() as int, -(e.spec_num() as int), e.spec_den() as int);
        } else {
            lemma_neg_value(a);
            assert(has_value(x, xn, xd));
            lemma_mul_values(a2, x, -an, ad, xn, xd);
            lemma_add_values(n1, rat_mul(a2, x), -(e1.spec_num() as int), e1.spec_den() as int, (-an) * xn, d);
            assert((-(e1.spec_num() as int)) * d + ((-an) * xn) * (e1.spec_den() as int) == -kk) by (nonlinear_arith)
                requires
                    kk == (e1.spec_num() as int) * d + (an * xn) * (e1.spec_den() as int),
            ;
            assert((-kk) * (e.spec_den() as int) == (-(e.spec_num() as int)) * w) by (nonlinear_arith)
                requires
                    (e.spec_num() as int) * w == kk * (e.spec_den() as int),
            ;
            lemma_value_transport(n, -kk, w, -(e.spec_num() as int), e.spec_den() as int);
        }
    }
}

impl std::ops::Add for LinearExpr {
    type Output = Self;

    fn add(self, other: Self) -> (e: Self)
        ensures
            e.constant == rat_add(self.constant, other.constant),
            is_merge_of(e.terms@, self.terms@ + other.terms@),
    {
        self.add_expr(other)
    }
}

impl vstd::std_specs::ops::AddSpecImpl for LinearExpr {
    /// The sum is characterised by `add_expr`'s contract rather than a closed form.
    open spec fn obeys_add_spec() -> bool {
        false
    }

    open spec fn add_req(self, other: Self) -> bool {
        add_ok(self.constant, other.constant) && merge_ok(self.terms@ + other.terms@)
    }

    open spec fn add_spec(self, other: Self) -> Self {
        self
    }
}

impl std::ops::Sub for LinearExpr {
    type Output = Self;

    fn sub(self, other: Self) -> (e: Self)
        ensures
            e.constant == rat_add(self.constant, rat_neg(other.constant)),
            is_merge_of(e.terms@, self.terms@ + negated_terms(other.terms@)),
    {
        let n = other.neg();
        self.add_expr(n)
    }
}

impl vstd::std_specs::ops::SubSpecImpl for LinearExpr {
    /// The difference is characterised through `neg` and `add_expr`.
    open spec fn obeys_sub_spec() -> bool {
        false
    }

    open spec fn sub_req(self, other: Self) -> bool {
        &&& other.constant.spec_num() != i64::MIN
        &&& negatable(other.terms@)
        &&& add_ok(self.constant, rat_neg(other.constant))
        &&& merge_ok(self.terms@ + negated_terms(other.terms@))
    }

    open spec fn sub_spec(self, other: Self) -> Self {
        self
    }
}

impl std::ops::Mul<Rational> for LinearExpr {
    type Output = Self;

    fn mul(self, k: Rational) -> (e: Self)
        ensures
            e.constant == rat_mul(self.constant, k),
            e.terms@ == scaled_terms(self.terms@, k),
    {
        self.scale(k)
    }
}

impl vstd::std_specs::ops::MulSpecImpl<Rational> for LinearExpr {
    /// The product is characterised by `scale`'s contract.
    open spec fn obeys_mul_spec() -> bool {
        false
    }

    open spec fn mul_req(self, k: Rational) -> bool {
        mul_ok(self.constant, k) && scalable(self.terms@, k)
    }

    open spec fn mul_spec(self, k: Rational) -> Self {
        self
    }
}

impl std::ops::Neg for LinearExpr {
    type Output = Self;

    fn neg(self) -> (e: Self)
        ensures
            e.constant == rat_mul(self.constant, Rational::spec_make(-1, 1)),
            e.terms@ == scaled_terms(self.terms@, Rational::spec_make(-1, 1)),
    {
        self.scale(Rational::neg_one())
    }
}

impl vstd::std_specs::ops::NegSpecImpl for LinearExpr {
    /// Negation is characterised by `scale` with factor -1.
    open spec fn obeys_neg_spec() -> bool {
        false
    }

    open spec fn neg_req(self) -> bool {
        mul_ok(self.constant, Rational::spec_make(-1, 1))
            && scalable(self.terms@, Rational::spec_make(-1, 1))
    }

    open spec fn neg_spec(self) -> Self {
        self
    }
}

impl From<Rational> for LinearExpr {
    fn from(r: Rational) -> (e: Self)
        ensures
            e.constant == r,
            e.terms@.len() == 0,
    {
        LinearExpr::constant(r)
    }
}

impl From<i64> for LinearExpr {
    fn from(n: i64) -> (e: Self)
        ensures
            e.constant == Rational::spec_make(n as int, 1),
            e.terms@.len() == 0,
    {
        LinearExpr::constant(Rational::from_int(n))
    }
}

impl From<Var> for LinearExpr {
    fn from(v: Var) -> (e: Self)
        ensures
            e.constant == rat_zero(),
            e.terms@ == seq![LinearTerm { coefficient: Rational::spec_make(1, 1), var: v }],
    {
        LinearExpr::from_var(v)
    }
}

impl vstd::std_specs::convert::FromSpecImpl<Rational> for LinearExpr {
    /// The conversion is characterised by the constructor it calls.
    open spec fn obeys_from_spec() -> bool {
        false
    }

    open spec fn from_spec(x: Rational) -> Self {
        arbitrary()
    }
}

impl vstd::std_specs::convert::FromSpecImpl<i64> for LinearExpr {
    /// The conversion is characterised by the constructor it calls.
    open spec fn obeys_from_spec() -> bool {
        false
    }

    open spec fn from_spec(x: i64) -> Self {
        arbitrary()
    }
}

impl vstd::std_specs::convert::FromSpecImpl<Var> for LinearExpr {
    /// The conversion is characterised by the constructor it calls.
    open spec fn obeys_from_spec() -> bool {
        false
    }

    open spec fn from_spec(x: Var) -> Self {
        arbitrary()
    }
}

} // verus!
