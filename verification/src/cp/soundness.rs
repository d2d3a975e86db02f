//! Propagation keeps every solution: an assignment inside the domains that
//! meets a propagator's constraint stays inside the pruned domains, so a
//! propagator fails only when no such assignment exists.
use vstd::prelude::*;
use crate::cp::CmpRel;
use crate::cp::propagator::{
    Propagator, holds, fixed, prune_lo, prune_hi, remove_val, at_lo, at_hi, at_remove, eq_spec, neq_spec, lt_spec,
    le_spec, all_diff_inner, all_diff_from, floor_div, ceil_div, min_max_sum, sums_fit, linear_term, linear_from,
    vars_below, propagate_spec,
};

verus! {

/// The assignment `a`, one value per variable, lies in the domains `ds`.
pub open spec fn within(ds: Seq<(i64, i64)>, a: Seq<int>) -> bool {
    &&& a.len() == ds.len()
    &&& forall|i: int| 0 <= i < ds.len() ==> holds(#[trigger] ds[i], a[i])
}

/// `Σ terms[j].0 · a[terms[j].1]` over the terms `0..k`.
pub open spec fn lin_sum(a: Seq<int>, terms: Seq<(i64, usize)>, k: int) -> int
    decreases k,
{
    if k <= 0 {
        0
    } else {
        lin_sum(a, terms, k - 1) + terms[k - 1].0 * a[terms[k - 1].1 as int]
    }
}

/// The same sum over the terms `0..k` whose variable is not `v`.
pub open spec fn other_sum(a: Seq<int>, terms: Seq<(i64, usize)>, v: usize, k: int) -> int
    decreases k,
{
    if k <= 0 {
        0
    } else if terms[k - 1].1 == v {
        other_sum(a, terms, v, k - 1)
    } else {
        other_sum(a, terms, v, k - 1) + terms[k - 1].0 * a[terms[k - 1].1 as int]
    }
}

/// `s (rel) rhs`.
pub open spec fn rel_holds(s: int, rel: CmpRel, rhs: int) -> bool {
    match rel {
        CmpRel::Le => s <= rhs,
        CmpRel::Eq => s == rhs,
        CmpRel::Ge => s >= rhs,
    }
}

/// The assignment `a` meets the constraint of `p`.
pub open spec fn meets(p: Propagator, a: Seq<int>) -> bool {
    match p {
        Propagator::Eq(x, y) => a[x as int] == a[y as int],
        Propagator::Neq(x, y) => a[x as int] != a[y as int],
        Propagator::Lt(x, y) => a[x as int] < a[y as int],
        Propagator::Le(x, y, c) => a[x as int] <= a[y as int] + c,
        Propagator::Linear(t, rhs, rel) => rel_holds(lin_sum(a, t@, t@.len() as int), rel, rhs as int),
        Propagator::AllDifferent(v) => forall|i: int, j: int|
            0 <= i < v@.len() && 0 <= j < v@.len() && i != j ==> a[#[trigger] v@[i] as int] != a[#[trigger] v@[j] as int],
    }
}

/// No variable occurs in two terms.
pub open spec fn distinct_vars(terms: Seq<(i64, usize)>) -> bool {
    forall|i: int, j: int| 0 <= i < terms.len() && 0 <= j < terms.len() && i != j
        ==> (#[trigger] terms[i]).1 != (#[trigger] terms[j]).1
}

proof fn lemma_at_lo_keeps(st: Option<Seq<(i64, i64)>>, i: int, lb: int, a: Seq<int>)
    requires
        st matches Some(ds) && within(ds, a) && 0 <= i < ds.len() && a[i] >= lb,
    ensures
        at_lo(st, i, lb) matches Some(d2) && within(d2, a),
{
    let ds = st->0;
    assert(holds(ds[i], a[i]));
    let d2 = ds.update(i, prune_lo(ds[i], lb)->0);
    assert forall|k: int| 0 <= k < d2.len() implies holds(#[trigger] d2[k], a[k]) by {
        assert(holds(ds[k], a[k]));
    }
}

proof fn lemma_at_hi_keeps(st: Option<Seq<(i64, i64)>>, i: int, ub: int, a: Seq<int>)
    requires
        st matches Some(ds) && within(ds, a) && 0 <= i < ds.len() && a[i] <= ub,
    ensures
        at_hi(st, i, ub) matches Some(d2) && within(d2, a),
{
    let ds = st->0;
    assert(holds(ds[i], a[i]));
    let d2 = ds.update(i, prune_hi(ds[i], ub)->0);
    assert forall|k: int| 0 <= k < d2.len() implies holds(#[trigger] d2[k], a[k]) by {
        assert(holds(ds[k], a[k]));
    }
}

proof fn lemma_at_remove_keeps(st: Option<Seq<(i64, i64)>>, i: int, v: int, a: Seq<int>)
    requires
        st matches Some(ds) && within(ds, a) && 0 <= i < ds.len() && a[i] != v,
    ensures
        at_remove(st, i, v) matches Some(d2) && within(d2, a),
{
    let ds = st->0;
    assert(holds(ds[i], a[i]));
    let d2 = ds.update(i, remove_val(ds[i], v)->0);
    assert forall|k: int| 0 <= k < d2.len() implies holds(#[trigger] d2[k], a[k]) by {
        assert(holds(ds[k], a[k]));
    }
}

/// `b · x ≤ m` with `b > 0` bounds `x` by `⌊m / b⌋`.
proof fn lemma_floor_bound(b: int, x: int, m: int)
    requires
        b > 0,
        b * x <= m,
    ensures
        x <= floor_div(m, b),
        x <= m / b,
{
    let q = m / b;
    let r = m % b;
    vstd::arithmetic::div_mod::lemma_fundamental_div_mod(m, b);
    vstd::arithmetic::div_mod::lemma_mod_bound(m, b);
    if x > q {
        assert(b * x >= b * (q + 1)) by (nonlinear_arith)
            requires
                b > 0,
                x >= q + 1,
        ;
        assert(b * (q + 1) == b * q + b) by (nonlinear_arith);
    }
}

/// `b · x ≥ m` with `b > 0` bounds `x` from below by `⌈m / b⌉`.
proof fn lemma_ceil_bound(b: int, x: int, m: int)
    requires
        b > 0,
        b * x >= m,
    ensures
        x >= ceil_div(m, b),
{
    assert(b * (-x) == -(b * x)) by (nonlinear_arith);
    lemma_floor_bound(b, -x, -m);
}

/// `b · x ≤ m` with `b < 0` bounds `x` from below by `⌈m / b⌉`.
proof fn lemma_ceil_bound_neg(b: int, x: int, m: int)
    requires
        b < 0,
        b * x <= m,
    ensures
        x >= ceil_div(m, b),
{
    assert((-b) * (-x) == b * x) by (nonlinear_arith);
    lemma_floor_bound(-b, -x, m);
    assert(floor_div(-m, b) == m / (-b));
}

/// `b · x ≥ m` with `b < 0` bounds `x` by `⌊m / b⌋`.
proof fn lemma_floor_bound_neg(b: int, x: int, m: int)
    requires
        b < 0,
        b * x >= m,
    ensures
        x <= floor_div(m, b),
{
    assert((-b) * x == -(b * x)) by (nonlinear_arith);
    lemma_floor_bound(-b, x, -m);
}

/// The sum of the other terms lies between the bounds `min_max_sum` takes.
proof fn lemma_other_sum_bounds(ds: Seq<(i64, i64)>, terms: Seq<(i64, usize)>, v: usize, k: int, a: Seq<int>)
    requires
        within(ds, a),
        0 <= k <= terms.len(),
        forall|m: int| 0 <= m < terms.len() ==> (#[trigger] terms[m]).1 < ds.len(),
    ensures
        min_max_sum(ds, terms, v, k).0 <= other_sum(a, terms, v, k) <= min_max_sum(ds, terms, v, k).1,
    decreases k,
{
    if k > 0 {
        lemma_other_sum_bounds(ds, terms, v, k - 1, a);
        let (c, w) = terms[k - 1];
        if w != v {
            let wi = w as int;
            assert(terms[k - 1].1 < ds.len());
            assert(holds(ds[wi], a[wi]));
            let lo = ds[wi].0 as int;
            let hi = ds[wi].1 as int;
            let x = a[wi];
            let ci = c as int;
            if c > 0 {
                assert(ci * lo <= ci * x <= ci * hi) by (nonlinear_arith)
                    requires
                        ci > 0,
                        lo <= x <= hi,
                ;
            } else {
                assert(ci * hi <= ci * x <= ci * lo) by (nonlinear_arith)
                    requires
                        ci <= 0,
                        lo <= x <= hi,
                ;
            }
        }
    }
}

/// With distinct variables, the whole sum is term `idx` plus the others.
proof fn lemma_sum_split(a: Seq<int>, terms: Seq<(i64, usize)>, idx: int, k: int)
    requires
        distinct_vars(terms),
        0 <= idx < terms.len(),
        0 <= k <= terms.len(),
    ensures
        lin_sum(a, terms, k) == other_sum(a, terms, terms[idx].1, k)
            + (if idx < k { terms[idx].0 * a[terms[idx].1 as int] } else { 0 }),
    decreases k,
{
    if k > 0 {
        lemma_sum_split(a, terms, idx, k - 1);
        if k - 1 != idx {
            assert(terms[k - 1].1 != terms[idx].1);
        }
    }
}

/// One step of linear propagation keeps a solution.
proof fn lemma_linear_term_keeps(ds: Seq<(i64, i64)>, terms: Seq<(i64, usize)>, rhs: int, rel: CmpRel, k: int, a: Seq<int>)
    requires
        within(ds, a),
        distinct_vars(terms),
        0 <= k < terms.len(),
        forall|m: int| 0 <= m < terms.len() ==> (#[trigger] terms[m]).1 < ds.len(),
        rel_holds(lin_sum(a, terms, terms.len() as int), rel, rhs),
    ensures
        linear_term(ds, terms, rhs, rel, k) matches Some(d2) && within(d2, a),
{
    let (c, v) = terms[k];
    let vi = v as int;
    let n = terms.len() as int;
    assert(terms[k].1 < ds.len());
    let (min_sum, max_sum) = min_max_sum(ds, terms, v, n);
    if !sums_fit(ds, terms, v, n) || c == 0 {
        return;
    }
    lemma_other_sum_bounds(ds, terms, v, n, a);
    lemma_sum_split(a, terms, k, n);
    let o = other_sum(a, terms, v, n);
    let x = a[vi];
    let ci = c as int;
    let s = lin_sum(a, terms, n);
    assert(s == o + ci * x);
    match rel {
        CmpRel::Eq => {
            if c > 0 {
                lemma_ceil_bound(ci, x, rhs - max_sum);
                lemma_floor_bound(ci, x, rhs - min_sum);
                lemma_at_lo_keeps(Some(ds), vi, ceil_div(rhs - max_sum, ci), a);
                lemma_at_hi_keeps(at_lo(Some(ds), vi, ceil_div(rhs - max_sum, ci)), vi, floor_div(rhs - min_sum, ci), a);
            } else {
                lemma_ceil_bound_neg(ci, x, rhs - min_sum);
                lemma_floor_bound_neg(ci, x, rhs - max_sum);
                lemma_at_lo_keeps(Some(ds), vi, ceil_div(rhs - min_sum, ci), a);
                lemma_at_hi_keeps(at_lo(Some(ds), vi, ceil_div(rhs - min_sum, ci)), vi, floor_div(rhs - max_sum, ci), a);
            }
        },
        CmpRel::Le => {
            if c > 0 {
                lemma_floor_bound(ci, x, rhs - min_sum);
                lemma_at_hi_keeps(Some(ds), vi, floor_div(rhs - min_sum, ci), a);
            } else {
                lemma_ceil_bound_neg(ci, x, rhs - min_sum);
                lemma_at_lo_keeps(Some(ds), vi, ceil_div(rhs - min_sum, ci), a);
            }
        },
        CmpRel::Ge => {
            if c > 0 {
                lemma_ceil_bound(ci, x, rhs - max_sum);
                lemma_at_lo_keeps(Some(ds), vi, ceil_div(rhs - max_sum, ci), a);
            } else {
                lemma_floor_bound_neg(ci, x, rhs - max_sum);
                lemma_at_hi_keeps(Some(ds), vi, floor_div(rhs - max_sum, ci), a);
            }
        },
    }
}

/// Linear propagation over the terms `k..` keeps a solution.
proof fn lemma_linear_keeps(ds: Seq<(i64, i64)>, terms: Seq<(i64, usize)>, rhs: int, rel: CmpRel, k: int, a: Seq<int>)
    requires
        within(ds, a),
        distinct_vars(terms),
        forall|m: int| 0 <= m < terms.len() ==> (#[trigger] terms[m]).1 < ds.len(),
        rel_holds(lin_sum(a, terms, terms.len() as int), rel, rhs),
    ensures
        linear_from(ds, terms, rhs, rel, k) matches Some(d2) && within(d2, a),
    decreases terms.len() - k,
{
    if k >= terms.len() || k < 0 {
    } else {
        lemma_linear_term_keeps(ds, terms, rhs, rel, k, a);
        let d1 = linear_term(ds, terms, rhs, rel, k)->0;
        lemma_linear_keeps(d1, terms, rhs, rel, k + 1, a);
    }
}

/// Removing the value of the fixed variable `vars[i]` from the others keeps
/// a solution of all-different.
proof fn lemma_all_diff_inner_keeps(ds: Seq<(i64, i64)>, vars: Seq<usize>, i: int, v: int, j: int, a: Seq<int>)
    requires
        within(ds, a),
        0 <= i < vars.len(),
        v == a[vars[i] as int],
        forall|k: int| 0 <= k < vars.len() ==> #[trigger] vars[k] < ds.len(),
        forall|p: int, q: int| 0 <= p < vars.len() && 0 <= q < vars.len() && p != q
            ==> a[#[trigger] vars[p] as int] != a[#[trigger] vars[q] as int],
    ensures
        all_diff_inner(ds, vars, i, v, j) matches Some(d2) && within(d2, a),
    decreases vars.len() - j,
{
    if j >= vars.len() || j < 0 {
    } else if i != j && holds(ds[vars[j] as int], v) {
        assert(vars[j] < ds.len());
        assert(a[vars[j] as int] != a[vars[i] as int]);
        lemma_at_remove_keeps(Some(ds), vars[j] as int, v, a);
        let d1 = ds.update(vars[j] as int, remove_val(ds[vars[j] as int], v)->0);
        lemma_all_diff_inner_keeps(d1, vars, i, v, j + 1, a);
    } else {
        lemma_all_diff_inner_keeps(ds, vars, i, v, j + 1, a);
    }
}

/// All-different over the variables `vars[i..]` keeps a solution.
proof fn lemma_all_diff_keeps(ds: Seq<(i64, i64)>, vars: Seq<usize>, i: int, a: Seq<int>)
    requires
        within(ds, a),
        forall|k: int| 0 <= k < vars.len() ==> #[trigger] vars[k] < ds.len(),
        forall|p: int, q: int| 0 <= p < vars.len() && 0 <= q < vars.len() && p != q
            ==> a[#[trigger] vars[p] as int] != a[#[trigger] vars[q] as int],
    ensures
        all_diff_from(ds, vars, i) matches Some(d2) && within(d2, a),
    decreases vars.len() - i,
{
    if i >= vars.len() || i < 0 {
    } else if fixed(ds[vars[i] as int]) {
        assert(vars[i] < ds.len());
        assert(holds(ds[vars[i] as int], a[vars[i] as int]));
        lemma_all_diff_inner_keeps(ds, vars, i, ds[vars[i] as int].0 as int, 0, a);
        let d1 = all_diff_inner(ds, vars, i, ds[vars[i] as int].0 as int, 0)->0;
        lemma_all_diff_keeps(d1, vars, i + 1, a);
    } else {
        lemma_all_diff_keeps(ds, vars, i + 1, a);
    }
}

/// Propagation keeps every solution: an assignment inside the domains that
/// meets the propagator's constraint makes propagation succeed and stays
/// inside the pruned domains; so propagation fails only when no assignment
/// inside the domains meets the constraint. For a linear constraint the
/// terms name distinct variables (with a repeated variable, the bound drawn
/// for one of its terms leaves the other out).
pub proof fn lemma_propagate_keeps_solutions(p: Propagator, ds: Seq<(i64, i64)>, a: Seq<int>)
    requires
        vars_below(p, ds.len() as int),
        within(ds, a),
        meets(p, a),
        p matches Propagator::Linear(t, _, _) ==> distinct_vars(t@),
    ensures
        propagate_spec(p, ds) matches Some(d2) && within(d2, a),
{
    match p {
        Propagator::Eq(x, y) => {
            let (xi, yi) = (x as int, y as int);
            assert(holds(ds[xi], a[xi]));
            assert(holds(ds[yi], a[yi]));
            let lb = if ds[xi].0 >= ds[yi].0 { ds[xi].0 } else { ds[yi].0 };
            let ub = if ds[xi].1 <= ds[yi].1 { ds[xi].1 } else { ds[yi].1 };
            let s1 = at_lo(Some(ds), xi, lb as int);
            lemma_at_lo_keeps(Some(ds), xi, lb as int, a);
            let s2 = at_lo(s1, yi, lb as int);
            lemma_at_lo_keeps(s1, yi, lb as int, a);
            let s3 = at_hi(s2, xi, ub as int);
            lemma_at_hi_keeps(s2, xi, ub as int, a);
            lemma_at_hi_keeps(s3, yi, ub as int, a);
        },
        Propagator::Neq(x, y) => {
            let (xi, yi) = (x as int, y as int);
            assert(holds(ds[xi], a[xi]));
            assert(holds(ds[yi], a[yi]));
            let s1 = if fixed(ds[xi]) && holds(ds[yi], ds[xi].0 as int) {
                lemma_at_remove_keeps(Some(ds), yi, ds[xi].0 as int, a);
                at_remove(Some(ds), yi, ds[xi].0 as int)
            } else {
                Some(ds)
            };
            let d1 = s1->0;
            assert(holds(d1[xi], a[xi]));
            assert(holds(d1[yi], a[yi]));
            if fixed(d1[yi]) && holds(d1[xi], d1[yi].0 as int) {
                lemma_at_remove_keeps(Some(d1), xi, d1[yi].0 as int, a);
            }
        },
        Propagator::Lt(x, y) => {
            let (xi, yi) = (x as int, y as int);
            assert(holds(ds[xi], a[xi]));
            assert(holds(ds[yi], a[yi]));
            lemma_at_hi_keeps(Some(ds), xi, ds[yi].1 - 1, a);
            lemma_at_lo_keeps(at_hi(Some(ds), xi, ds[yi].1 - 1), yi, ds[xi].0 + 1, a);
        },
        Propagator::Le(x, y, c) => {
            let (xi, yi) = (x as int, y as int);
            assert(holds(ds[xi], a[xi]));
            assert(holds(ds[yi], a[yi]));
            lemma_at_hi_keeps(Some(ds), xi, ds[yi].1 + c, a);
            lemma_at_lo_keeps(at_hi(Some(ds), xi, ds[yi].1 + c), yi, ds[xi].0 - c, a);
        },
        Propagator::Linear(t, rhs, rel) => {
            lemma_linear_keeps(ds, t@, rhs as int, rel, 0, a);
        },
        Propagator::AllDifferent(v) => {
            lemma_all_diff_keeps(ds, v@, 0, a);
        },
    }
}

} // verus!
