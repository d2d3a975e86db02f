//! What a solution means: the constraints evaluated on a model's values,
//! and the proof that a point where every propagator is at a fixed point is
//! such a solution.
use vstd::prelude::*;
use crate::common::Var;
use crate::cp::{CmpRel, CpConstraint};
use crate::cp::propagator::{
    Propagator, all_diff_from, all_diff_inner, at_hi, at_lo, ceil_div, floor_div, holds, lemma_linear_term_narrows,
    linear_from, linear_term, min_max_sum, narrower, propagate_spec, remove_val, seq_narrower, sums_fit,
    vars_below,
};
use crate::cp::search::{all_fixed, prop_for};

verus! {

/// The value of each variable in a model.
pub open spec fn model_values(m: Seq<(Var, i64)>) -> Seq<i64> {
    m.map_values(|p: (Var, i64)| p.1)
}

/// The values of single-value domains.
pub open spec fn values_of(f: Seq<(i64, i64)>) -> Seq<i64> {
    f.map_values(|d: (i64, i64)| d.0)
}

/// Each value as a single-value domain.
pub open spec fn point_domains(vals: Seq<i64>) -> Seq<(i64, i64)> {
    vals.map_values(|v: i64| (v, v))
}

/// `Σ a x` over the terms `0..k`.
pub open spec fn lin_sum(terms: Seq<(i64, usize)>, vals: Seq<i64>, k: int) -> int
    decreases k,
{
    if k <= 0 {
        0
    } else {
        lin_sum(terms, vals, k - 1) + terms[k - 1].0 * vals[terms[k - 1].1 as int]
    }
}

/// `Σ a x` over the terms `0..k` whose variable is not `e`.
pub open spec fn sum_except(terms: Seq<(i64, usize)>, vals: Seq<i64>, e: usize, k: int) -> int
    decreases k,
{
    if k <= 0 {
        0
    } else {
        sum_except(terms, vals, e, k - 1) + if terms[k - 1].1 == e {
            0
        } else {
            terms[k - 1].0 * vals[terms[k - 1].1 as int]
        }
    }
}

/// The constraint holds when variable `i` takes the value `vals[i]`.
pub open spec fn constraint_holds(c: CpConstraint, vals: Seq<i64>) -> bool {
    match c {
        CpConstraint::Eq(x, y) => vals[x as int] == vals[y as int],
        CpConstraint::Neq(x, y) => vals[x as int] != vals[y as int],
        CpConstraint::Lt(x, y) => vals[x as int] < vals[y as int],
        CpConstraint::Le(x, y, c) => vals[x as int] <= vals[y as int] + c,
        CpConstraint::Linear(t, rhs, rel) => {
            let s = lin_sum(t@, vals, t@.len() as int);
            match rel {
                CmpRel::Le => s <= rhs,
                CmpRel::Eq => s == rhs,
                CmpRel::Ge => s >= rhs,
            }
        },
        CpConstraint::AllDifferent(v) => forall|p: int, q: int|
            0 <= p < v@.len() && 0 <= q < v@.len() && p != q ==> vals[#[trigger] v@[p] as int] != vals[#[trigger] v@[q] as int],
    }
}

/// No variable occurs in two terms.
pub open spec fn distinct_vars(t: Seq<(i64, usize)>) -> bool {
    forall|p: int, q: int| 0 <= p < q < t.len() ==> (#[trigger] t[p]).1 != (#[trigger] t[q]).1
}

/// The constraints whose propagator decides them on single values: every
/// constraint but a linear one, and a linear one whose variables are
/// distinct and which has a term with a non-zero coefficient whose other
/// terms sum within `i64`.
pub open spec fn decided(c: CpConstraint, vals: Seq<i64>) -> bool {
    match c {
        CpConstraint::Linear(t, _, _) => {
            &&& distinct_vars(t@)
            &&& exists|k: int|
                0 <= k < t@.len() && (#[trigger] t@[k]).0 != 0 && sums_fit(point_domains(vals), t@, t@[k].1, t@.len() as int)
        },
        _ => true,
    }
}

/// A narrowing of single-value domains leaves them as they are.
proof fn lemma_fixed_narrower(f: Seq<(i64, i64)>, d: Seq<(i64, i64)>)
    requires
        all_fixed(f),
        seq_narrower(f, d),
    ensures
        d == f,
{
    assert forall|i: int| 0 <= i < f.len() implies d[i] == f[i] by {
        assert(narrower(f[i], d[i]));
    }
    assert(d =~= f);
}

/// On single values the bounds of a partial sum are that sum.
proof fn lemma_min_max_fixed(f: Seq<(i64, i64)>, t: Seq<(i64, usize)>, e: usize, k: int)
    requires
        all_fixed(f),
        forall|m: int| 0 <= m < t.len() ==> (#[trigger] t[m]).1 < f.len(),
        0 <= k <= t.len(),
    ensures
        min_max_sum(f, t, e, k) == (sum_except(t, values_of(f), e, k), sum_except(t, values_of(f), e, k)),
    decreases k,
{
    if k > 0 {
        lemma_min_max_fixed(f, t, e, k - 1);
        let v = t[k - 1].1;
        assert(v < f.len());
        assert(f[v as int].0 == f[v as int].1);
        assert(values_of(f)[v as int] == f[v as int].0);
    }
}

/// With distinct variables, the full sum is the sum without the variable of
/// term `k0` plus that term.
proof fn lemma_split_sum(t: Seq<(i64, usize)>, vals: Seq<i64>, k0: int, k: int)
    requires
        distinct_vars(t),
        0 <= k0 < t.len(),
        0 <= k <= t.len(),
    ensures
        lin_sum(t, vals, k) == sum_except(t, vals, t[k0].1, k) + if k > k0 {
            t[k0].0 * vals[t[k0].1 as int]
        } else {
            0
        },
    decreases k,
{
    if k > 0 {
        lemma_split_sum(t, vals, k0, k - 1);
        if k - 1 != k0 {
            if k - 1 < k0 {
                assert(t[k - 1].1 != t[k0].1);
            } else {
                assert(t[k0].1 != t[k - 1].1);
            }
        }
    }
}

/// When linear propagation succeeds on single values, so does each of its
/// remaining steps.
proof fn lemma_linear_from_fixed(f: Seq<(i64, i64)>, t: Seq<(i64, usize)>, rhs: int, rel: CmpRel, k: int)
    requires
        all_fixed(f),
        forall|m: int| 0 <= m < t.len() ==> (#[trigger] t[m]).1 < f.len(),
        0 <= k,
        linear_from(f, t, rhs, rel, k) is Some,
    ensures
        forall|j: int| k <= j < t.len() ==> (#[trigger] linear_term(f, t, rhs, rel, j)) is Some,
    decreases t.len() - k,
{
    if k < t.len() {
        lemma_linear_term_narrows(f, t, rhs, rel, k);
        let d1 = linear_term(f, t, rhs, rel, k)->0;
        lemma_fixed_narrower(f, d1);
        lemma_linear_from_fixed(f, t, rhs, rel, k + 1);
    }
}

/// `x ≤ ⌊n / a⌋` bounds `a x` by `n`: from above when `a > 0`, from below when `a < 0`.
proof fn lemma_floor_bound(n: int, a: int, x: int)
    requires
        a != 0,
        x <= floor_div(n, a),
    ensures
        a > 0 ==> a * x <= n,
        a < 0 ==> a * x >= n,
{
    if a > 0 {
        assert(a * x <= n) by (nonlinear_arith)
            requires
                a > 0,
                x <= n / a,
        {
            assert(a * (n / a) <= n);
            assert(a * x <= a * (n / a));
        }
    } else {
        let b = -a;
        assert(b * x <= -n) by (nonlinear_arith)
            requires
                b > 0,
                x <= (-n) / b,
        {
            assert(b * ((-n) / b) <= -n);
            assert(b * x <= b * ((-n) / b));
        }
        assert(a * x == -(b * x)) by (nonlinear_arith)
            requires
                b == -a,
        ;
    }
}

/// `x ≥ ⌈n / a⌉` bounds `a x` by `n`: from below when `a > 0`, from above when `a < 0`.
proof fn lemma_ceil_bound(n: int, a: int, x: int)
    requires
        a != 0,
        x >= ceil_div(n, a),
    ensures
        a > 0 ==> a * x >= n,
        a < 0 ==> a * x <= n,
{
    if a > 0 {
        assert(a * x >= n) by (nonlinear_arith)
            requires
                a > 0,
                x >= -((-n) / a),
        {
            assert(a * ((-n) / a) <= -n);
            assert(a * x >= a * (-((-n) / a)));
        }
    } else {
        let b = -a;
        assert(b * x >= -n) by (nonlinear_arith)
            requires
                b > 0,
                x >= -(n / b),
        {
            assert(b * (n / b) <= n);
            assert(b * x >= b * (-(n / b)));
        }
        assert(a * x == -(b * x)) by (nonlinear_arith)
            requires
                b == -a,
        ;
    }
}

/// A step of linear propagation that succeeds on single values shows the
/// relation: its term plus the other terms relate to the right-hand side.
proof fn lemma_linear_term_fixed(f: Seq<(i64, i64)>, t: Seq<(i64, usize)>, rhs: int, rel: CmpRel, k0: int)
    requires
        all_fixed(f),
        forall|m: int| 0 <= m < t.len() ==> (#[trigger] t[m]).1 < f.len(),
        0 <= k0 < t.len(),
        t[k0].0 != 0,
        sums_fit(f, t, t[k0].1, t.len() as int),
        linear_term(f, t, rhs, rel, k0) is Some,
    ensures
        ({
            let s = sum_except(t, values_of(f), t[k0].1, t.len() as int) + t[k0].0 * values_of(f)[t[k0].1 as int];
            match rel {
                CmpRel::Le => s <= rhs,
                CmpRel::Eq => s == rhs,
                CmpRel::Ge => s >= rhs,
            }
        }),
{
    let (a, e) = t[k0];
    let ei = e as int;
    assert(t[k0].1 < f.len());
    lemma_min_max_fixed(f, t, e, t.len() as int);
    let sum = sum_except(t, values_of(f), e, t.len() as int);
    let x = f[ei].0;
    assert(f[ei].1 == x);
    assert(values_of(f)[ei] == x);
    let n = rhs - sum;
    let ai = a as int;
    let lo = ceil_div(n, ai);
    let hi = floor_div(n, ai);
    let after_lo = at_lo(Some(f), ei, lo);
    if after_lo is Some {
        assert(lo <= x);
        assert(after_lo->0[ei] == f[ei]);
    }
    if at_hi(Some(f), ei, hi) is Some {
        assert(x <= hi);
    }
    match rel {
        CmpRel::Eq => {
            assert(after_lo is Some);
            assert(at_hi(after_lo, ei, hi) is Some);
            assert(x <= hi);
            lemma_floor_bound(n, ai, x as int);
            lemma_ceil_bound(n, ai, x as int);
        },
        CmpRel::Le => {
            if a > 0 {
                lemma_floor_bound(n, ai, x as int);
            } else {
                lemma_ceil_bound(n, ai, x as int);
            }
        },
        CmpRel::Ge => {
            if a > 0 {
                lemma_ceil_bound(n, ai, x as int);
            } else {
                lemma_floor_bound(n, ai, x as int);
            }
        },
    }
}

/// An all-different step that succeeds on single values finds no other
/// variable with the value, and changes nothing.
proof fn lemma_all_diff_inner_fixed(f: Seq<(i64, i64)>, v: Seq<usize>, i: int, val: int, j: int)
    requires
        all_fixed(f),
        forall|k: int| 0 <= k < v.len() ==> #[trigger] v[k] < f.len(),
        0 <= j,
        all_diff_inner(f, v, i, val, j) is Some,
    ensures
        all_diff_inner(f, v, i, val, j) == Some(f),
        forall|q: int| j <= q < v.len() && q != i ==> f[#[trigger] v[q] as int].0 != val,
    decreases v.len() - j,
{
    if j < v.len() {
        assert(v[j] < f.len());
        if i != j && holds(f[v[j] as int], val) {
            assert(f[v[j] as int].0 == f[v[j] as int].1);
            assert(remove_val(f[v[j] as int], val) is None);
        } else {
            lemma_all_diff_inner_fixed(f, v, i, val, j + 1);
        }
    }
}

/// All-different propagation that succeeds on single values shows that the
/// variables from position `i` on differ from every other one.
proof fn lemma_all_diff_from_fixed(f: Seq<(i64, i64)>, v: Seq<usize>, i: int)
    requires
        all_fixed(f),
        forall|k: int| 0 <= k < v.len() ==> #[trigger] v[k] < f.len(),
        0 <= i,
        all_diff_from(f, v, i) is Some,
    ensures
        forall|p: int, q: int|
            i <= p < v.len() && 0 <= q < v.len() && p != q ==> f[#[trigger] v[p] as int].0 != f[#[trigger] v[q] as int].0,
    decreases v.len() - i,
{
    if i < v.len() {
        assert(v[i] < f.len());
        assert(f[v[i] as int].0 == f[v[i] as int].1);
        lemma_all_diff_inner_fixed(f, v, i, f[v[i] as int].0 as int, 0);
        lemma_all_diff_from_fixed(f, v, i + 1);
    }
}

/// A point where a constraint's propagator is at a fixed point satisfies the
/// constraint, when the propagator decides it.
pub proof fn lemma_fixpoint_satisfies(p: Propagator, c: CpConstraint, f: Seq<(i64, i64)>)
    requires
        prop_for(p, c),
        all_fixed(f),
        vars_below(p, f.len() as int),
        propagate_spec(p, f) == Some(f),
        decided(c, values_of(f)),
    ensures
        constraint_holds(c, values_of(f)),
{
    let vals = values_of(f);
    match p {
        Propagator::Eq(x, y) => {
            assert(f[x as int].0 == f[x as int].1 && f[y as int].0 == f[y as int].1);
        },
        Propagator::Neq(x, y) => {
            assert(f[x as int].0 == f[x as int].1 && f[y as int].0 == f[y as int].1);
        },
        Propagator::Lt(x, y) => {
            assert(f[x as int].0 == f[x as int].1);
            assert(at_hi(Some(f), x as int, f[y as int].0 - 1) is Some);
        },
        Propagator::Le(x, y, k) => {
            assert(f[x as int].0 == f[x as int].1 && f[y as int].0 == f[y as int].1);
            assert(at_hi(Some(f), x as int, f[y as int].1 + k) is Some);
        },
        Propagator::Linear(t, rhs, rel) => {
            let ts = t@;
            assert(point_domains(vals) =~= f);
            let k0 = choose|k: int|
                0 <= k < ts.len() && (#[trigger] ts[k]).0 != 0 && sums_fit(point_domains(vals), ts, ts[k].1, ts.len() as int);
            assert forall|m: int| 0 <= m < ts.len() implies (#[trigger] ts[m]).1 < f.len() by {}
            lemma_linear_from_fixed(f, ts, rhs as int, rel, 0);
            assert(linear_term(f, ts, rhs as int, rel, k0) is Some);
            lemma_linear_term_fixed(f, ts, rhs as int, rel, k0);
            lemma_split_sum(ts, vals, k0, ts.len() as int);
        },
        Propagator::AllDifferent(v) => {
            lemma_all_diff_from_fixed(f, v@, 0);
        },
    }
}

} // verus!
