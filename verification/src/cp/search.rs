//! The CP solver: propagation to a fixed point and backtracking search.
use vstd::prelude::*;
use crate::common::Var;
use crate::cp::{CpConstraint, CpProblem};
use crate::cp::dom::{IntDomain, interval_size};
use crate::cp::propagator::{
    PropResult, Propagator, dview, fixed, narrower, seq_narrower, propagate_spec, vars_below, holds,
    lemma_propagate_narrows, lemma_narrower_trans, prop_vars_below,
};
use crate::cp::soundness::{within, meets, distinct_vars, lemma_propagate_keeps_solutions};

verus! {

/// The outcome of a CP search.
#[derive(Debug, Clone, PartialEq)]
pub enum CpOutcome {
    /// A solution: each variable with its value.
    Sat(Vec<(Var, i64)>),
    /// No solution was found.
    Unsat,
}

/// The CP solver: propagation + backtracking search.
#[derive(Debug, Clone)]
pub struct CpSolver {
    /// Current domains for each variable.
    domains: Vec<IntDomain>,
    /// Propagators.
    propagators: Vec<Propagator>,
    /// Variable names.
    var_names: Vec<String>,
}

/// The width `max - min` of a non-empty interval, zero for an empty one.
pub open spec fn width(d: (i64, i64)) -> nat {
    if d.0 > d.1 {
        0
    } else {
        (d.1 - d.0) as nat
    }
}

/// The sum of the widths of all domains.
pub open spec fn total_width(ds: Seq<(i64, i64)>) -> nat
    decreases ds.len(),
{
    if ds.len() == 0 {
        0
    } else {
        total_width(ds.drop_last()) + width(ds.last())
    }
}

/// Every propagator is at a fixed point on `ds`.
pub open spec fn at_fixpoint(ps: Seq<Propagator>, ds: Seq<(i64, i64)>) -> bool {
    forall|k: int| 0 <= k < ps.len() ==> propagate_spec(#[trigger] ps[k], ds) == Some(ds)
}

/// Every domain holds exactly one value.
pub open spec fn all_fixed(ds: Seq<(i64, i64)>) -> bool {
    forall|i: int| 0 <= i < ds.len() ==> fixed(#[trigger] ds[i])
}

/// The model of fixed domains: variable `i` takes the value of domain `i`.
pub open spec fn model_of(ds: Seq<(i64, i64)>) -> Seq<(Var, i64)> {
    Seq::new(ds.len(), |i: int| (Var(i as usize), ds[i].0))
}

/// Domain `i` is a candidate for branching: not fixed, with a size in `(0, u64::MAX)`.
pub open spec fn branchable(d: (i64, i64)) -> bool {
    &&& !fixed(d)
    &&& 0 < interval_size(d.0 as int, d.1 as int) < u64::MAX
}

/// `r` is the first-fail choice among `ds[..n]`: the first candidate of smallest size.
pub open spec fn first_fail(ds: Seq<(i64, i64)>, n: int, r: Option<usize>) -> bool {
    match r {
        None => forall|i: int| 0 <= i < n ==> !branchable(#[trigger] ds[i]),
        Some(b) => {
            &&& 0 <= b < n
            &&& branchable(ds[b as int])
            &&& forall|i: int| 0 <= i < b && branchable(#[trigger] ds[i])
                ==> interval_size(ds[i].0 as int, ds[i].1 as int) > interval_size(ds[b as int].0 as int, ds[b as int].1 as int)
            &&& forall|i: int| b < i < n && branchable(#[trigger] ds[i])
                ==> interval_size(ds[i].0 as int, ds[i].1 as int) >= interval_size(ds[b as int].0 as int, ds[b as int].1 as int)
        },
    }
}

/// The propagator for a constraint.
pub open spec fn prop_for(p: Propagator, c: CpConstraint) -> bool {
    match (p, c) {
        (Propagator::Eq(a, b), CpConstraint::Eq(x, y)) => a == x && b == y,
        (Propagator::Neq(a, b), CpConstraint::Neq(x, y)) => a == x && b == y,
        (Propagator::Lt(a, b), CpConstraint::Lt(x, y)) => a == x && b == y,
        (Propagator::Le(a, b, k), CpConstraint::Le(x, y, j)) => a == x && b == y && k == j,
        (Propagator::Linear(t, r, rel), CpConstraint::Linear(t2, r2, rel2)) => t@ == t2@ && r == r2 && rel == rel2,
        (Propagator::AllDifferent(v), CpConstraint::AllDifferent(v2)) => v@ == v2@,
        _ => false,
    }
}

/// One sweep: the propagators from `k` on applied in order, or `None` when
/// one of them fails.
pub open spec fn sweep(ps: Seq<Propagator>, ds: Seq<(i64, i64)>, k: int) -> Option<Seq<(i64, i64)>>
    decreases ps.len() - k,
{
    if k < 0 || k >= ps.len() {
        Some(ds)
    } else {
        match propagate_spec(ps[k], ds) {
            None => None,
            Some(d) => sweep(ps, d, k + 1),
        }
    }
}

/// Propagation to a fixed point: sweeps repeated until one changes
/// nothing. The domains reached, or `None` when a propagator fails.
pub open spec fn fixpoint_of(ps: Seq<Propagator>, ds: Seq<(i64, i64)>) -> Option<Seq<(i64, i64)>>
    decreases total_width(ds),
{
    match sweep(ps, ds, 0) {
        None => None,
        Some(d) => if d == ds {
            Some(d)
        } else if total_width(d) < total_width(ds) {
            fixpoint_of(ps, d)
        } else {
            None
        },
    }
}

/// Every propagator names variables below `n`.
pub open spec fn props_below(ps: Seq<Propagator>, n: int) -> bool {
    forall|k: int| 0 <= k < ps.len() ==> vars_below(#[trigger] ps[k], n)
}

/// A sweep only narrows.
proof fn lemma_sweep_narrows(ps: Seq<Propagator>, ds: Seq<(i64, i64)>, k: int)
    requires
        props_below(ps, ds.len() as int),
        0 <= k,
    ensures
        sweep(ps, ds, k) matches Some(d) ==> seq_narrower(ds, d),
    decreases ps.len() - k,
{
    if k < ps.len() {
        assert(vars_below(ps[k], ds.len() as int));
        lemma_propagate_narrows(ps[k], ds);
        if let Some(d1) = propagate_spec(ps[k], ds) {
            lemma_sweep_narrows(ps, d1, k + 1);
            if let Some(d2) = sweep(ps, d1, k + 1) {
                lemma_narrower_trans(ds, d1, d2);
            }
        }
    } else {
        assert(seq_narrower(ds, ds)) by {
            assert forall|i: int| 0 <= i < ds.len() implies narrower(#[trigger] ds[i], ds[i]) by {}
        }
    }
}

/// At a fixed point of every propagator a sweep changes nothing, and the
/// fixed point of propagation is the domains themselves.
proof fn lemma_fixpoint_stable(ps: Seq<Propagator>, ds: Seq<(i64, i64)>, k: int)
    requires
        at_fixpoint(ps, ds),
        0 <= k,
    ensures
        sweep(ps, ds, k) == Some(ds),
        k == 0 ==> fixpoint_of(ps, ds) == Some(ds),
    decreases ps.len() - k,
{
    if k < ps.len() {
        assert(propagate_spec(ps[k], ds) == Some(ds));
        lemma_fixpoint_stable(ps, ds, k + 1);
    }
}

/// The first-fail branching variable of `ds`.
pub open spec fn branch_var(ds: Seq<(i64, i64)>) -> Option<usize> {
    choose|r: Option<usize>| first_fail(ds, ds.len() as int, r)
}

/// The first-fail choice is unique.
proof fn lemma_first_fail_unique(ds: Seq<(i64, i64)>, r: Option<usize>)
    requires
        first_fail(ds, ds.len() as int, r),
    ensures
        branch_var(ds) == r,
{
    let c = branch_var(ds);
    assert(first_fail(ds, ds.len() as int, c));
    match (r, c) {
        (Some(a), Some(b)) => {
            if a < b {
                assert(branchable(ds[a as int]));
            } else if b < a {
                assert(branchable(ds[b as int]));
            }
        },
        (Some(a), None) => {
            assert(branchable(ds[a as int]));
        },
        (None, Some(b)) => {
            assert(branchable(ds[b as int]));
        },
        (None, None) => {},
    }
}

/// Depth-first search: propagate to a fixed point; fixed domains give the
/// model; otherwise branch on the first-fail variable, trying its values
/// in increasing order. The first model found, or `None`.
pub open spec fn search_spec(ps: Seq<Propagator>, ds: Seq<(i64, i64)>) -> Option<Seq<(Var, i64)>>
    decreases total_width(ds), 0x3_0000_0000_0000_0000int,
{
    match fixpoint_of(ps, ds) {
        None => None,
        Some(d) => if all_fixed(d) {
            Some(model_of(d))
        } else if total_width(d) > total_width(ds) {
            None
        } else {
            match branch_var(d) {
                None => None,
                Some(v) => if v < d.len() && d[v as int].0 < d[v as int].1 {
                    try_values(ps, d, v as int, d[v as int].0 as int)
                } else {
                    None
                },
            }
        },
    }
}

/// The search over the values `val..` of variable `var` within `d`: the
/// first model found after fixing it to one of them.
pub open spec fn try_values(ps: Seq<Propagator>, d: Seq<(i64, i64)>, var: int, val: int) -> Option<Seq<(Var, i64)>>
    decreases total_width(d), d[var].1 - val,
{
    if 0 <= var < d.len() && d[var].0 < d[var].1 && d[var].0 <= val <= d[var].1 {
        proof {
            lemma_total_width_fix(d, var, val as i64);
        }
        match search_spec(ps, d.update(var, (val as i64, val as i64))) {
            Some(m) => Some(m),
            None => if val < d[var].1 {
                try_values(ps, d, var, val + 1)
            } else {
                None
            },
        }
    } else {
        None
    }
}

proof fn lemma_width_narrower(a: (i64, i64), b: (i64, i64))
    requires
        narrower(a, b),
    ensures
        width(b) <= width(a),
        b != a ==> width(b) < width(a),
{
}

proof fn lemma_total_width_narrower(a: Seq<(i64, i64)>, b: Seq<(i64, i64)>)
    requires
        seq_narrower(a, b),
    ensures
        total_width(b) <= total_width(a),
        b != a ==> total_width(b) < total_width(a),
    decreases a.len(),
{
    if a.len() > 0 {
        let a1 = a.drop_last();
        let b1 = b.drop_last();
        assert(seq_narrower(a1, b1)) by {
            assert forall|i: int| 0 <= i < a1.len() implies narrower(#[trigger] a1[i], b1[i]) by {
                assert(narrower(a[i], b[i]));
            }
        }
        lemma_total_width_narrower(a1, b1);
        assert(narrower(a.last(), b.last()));
        lemma_width_narrower(a.last(), b.last());
        if b != a {
            if b1 == a1 {
                assert(b.last() != a.last()) by {
                    if b.last() == a.last() {
                        assert(b =~= a) by {
                            assert(a =~= a1.push(a.last()));
                            assert(b =~= b1.push(b.last()));
                        }
                    }
                }
            }
        }
    } else {
        assert(b =~= a);
    }
}

/// Setting a non-fixed domain to one of its values lowers the total width.
pub proof fn lemma_total_width_fix(a: Seq<(i64, i64)>, i: int, v: i64)
    requires
        0 <= i < a.len(),
        a[i].0 <= v <= a[i].1,
        a[i].0 < a[i].1,
    ensures
        total_width(a.update(i, (v, v))) < total_width(a),
{
    let b = a.update(i, (v, v));
    assert(seq_narrower(a, b)) by {
        assert forall|k: int| 0 <= k < a.len() implies narrower(#[trigger] a[k], b[k]) by {}
    }
    assert(b[i] != a[i]);
    lemma_total_width_narrower(a, b);
}

/// `a ⊇ b ⊇ c` and `a == c` give `b == a`.
proof fn lemma_sandwich(a: Seq<(i64, i64)>, b: Seq<(i64, i64)>, c: Seq<(i64, i64)>)
    requires
        seq_narrower(a, b),
        seq_narrower(b, c),
        a == c,
    ensures
        b == a,
{
    assert forall|i: int| 0 <= i < a.len() implies #[trigger] b[i] == a[i] by {
        assert(narrower(a[i], b[i]));
        assert(narrower(b[i], c[i]));
    }
    assert(b =~= a);
}

/// Every propagator's constraint holds of the assignment `a`.
pub open spec fn meets_all(ps: Seq<Propagator>, a: Seq<int>) -> bool {
    forall|k: int| 0 <= k < ps.len() ==> meets(#[trigger] ps[k], a)
}

/// Every linear propagator names distinct variables.
pub open spec fn linear_distinct(ps: Seq<Propagator>) -> bool {
    forall|k: int| 0 <= k < ps.len() ==> ((#[trigger] ps[k]) matches Propagator::Linear(t, _, _) ==> distinct_vars(t@))
}

/// Every domain has fewer than `u64::MAX` values, so that branching can
/// pick it.
pub open spec fn sizes_fit(ds: Seq<(i64, i64)>) -> bool {
    forall|i: int| 0 <= i < ds.len() ==> interval_size((#[trigger] ds[i]).0 as int, ds[i].1 as int) < u64::MAX
}

/// A sweep keeps every solution.
proof fn lemma_sweep_keeps(ps: Seq<Propagator>, ds: Seq<(i64, i64)>, k: int, a: Seq<int>)
    requires
        props_below(ps, ds.len() as int),
        within(ds, a),
        meets_all(ps, a),
        linear_distinct(ps),
        0 <= k,
    ensures
        sweep(ps, ds, k) matches Some(d) && within(d, a),
    decreases ps.len() - k,
{
    if k < ps.len() {
        assert(vars_below(ps[k], ds.len() as int));
        assert(meets(ps[k], a));
        assert(ps[k] matches Propagator::Linear(t, _, _) ==> distinct_vars(t@));
        lemma_propagate_keeps_solutions(ps[k], ds, a);
        let d1 = propagate_spec(ps[k], ds)->0;
        lemma_sweep_keeps(ps, d1, k + 1, a);
    }
}

/// Propagation to a fixed point keeps every solution: an assignment inside
/// the domains that meets every propagator's constraint makes propagation
/// succeed and stays inside the domains it reaches. Linear propagators name
/// distinct variables.
pub proof fn lemma_fixpoint_keeps(ps: Seq<Propagator>, ds: Seq<(i64, i64)>, a: Seq<int>)
    requires
        props_below(ps, ds.len() as int),
        within(ds, a),
        meets_all(ps, a),
        linear_distinct(ps),
    ensures
        fixpoint_of(ps, ds) matches Some(d) && within(d, a) && seq_narrower(ds, d),
    decreases total_width(ds),
{
    lemma_sweep_keeps(ps, ds, 0, a);
    lemma_sweep_narrows(ps, ds, 0);
    let d = sweep(ps, ds, 0)->0;
    if d == ds {
        assert(seq_narrower(ds, ds)) by {
            assert forall|i: int| 0 <= i < ds.len() implies narrower(#[trigger] ds[i], ds[i]) by {}
        }
    } else {
        lemma_total_width_narrower(ds, d);
        lemma_fixpoint_keeps(ps, d, a);
        lemma_narrower_trans(ds, d, fixpoint_of(ps, d)->0);
    }
}

/// Some first-fail choice exists among `ds[..n]`.
proof fn lemma_first_fail_exists(ds: Seq<(i64, i64)>, n: int)
    requires
        0 <= n <= ds.len(),
        ds.len() <= usize::MAX,
    ensures
        exists|r: Option<usize>| #[trigger] first_fail(ds, n, r),
    decreases n,
{
    if n == 0 {
        assert(first_fail(ds, 0, None));
    } else {
        lemma_first_fail_exists(ds, n - 1);
        let r = choose|r: Option<usize>| #[trigger] first_fail(ds, n - 1, r);
        let last = n - 1;
        if !branchable(ds[last]) {
            assert(first_fail(ds, n, r));
        } else {
            match r {
                None => {
                    assert(first_fail(ds, n, Some(last as usize)));
                },
                Some(b) => {
                    let sb = interval_size(ds[b as int].0 as int, ds[b as int].1 as int);
                    let sl = interval_size(ds[last].0 as int, ds[last].1 as int);
                    if sl < sb {
                        assert(first_fail(ds, n, Some(last as usize)));
                    } else {
                        assert(first_fail(ds, n, Some(b)));
                    }
                },
            }
        }
    }
}

/// Search finds a model whenever a solution lies inside the domains.
proof fn lemma_search_finds(ps: Seq<Propagator>, ds: Seq<(i64, i64)>, a: Seq<int>)
    requires
        ds.len() <= usize::MAX,
        props_below(ps, ds.len() as int),
        within(ds, a),
        meets_all(ps, a),
        linear_distinct(ps),
        sizes_fit(ds),
    ensures
        search_spec(ps, ds) is Some,
    decreases total_width(ds), 0x3_0000_0000_0000_0000int,
{
    lemma_fixpoint_keeps(ps, ds, a);
    let d = fixpoint_of(ps, ds)->0;
    lemma_total_width_narrower(ds, d);
    if !all_fixed(d) {
        let i = choose|i: int| 0 <= i < d.len() && !fixed(#[trigger] d[i]);
        assert(holds(d[i], a[i]));
        assert(narrower(ds[i], d[i]));
        assert(interval_size(ds[i].0 as int, ds[i].1 as int) < u64::MAX);
        assert(branchable(d[i]));
        lemma_first_fail_exists(d, d.len() as int);
        let r = branch_var(d);
        assert(first_fail(d, d.len() as int, r));
        let v = r->0;
        assert(branchable(d[v as int]));
        assert forall|j: int| 0 <= j < d.len() implies interval_size((#[trigger] d[j]).0 as int, d[j].1 as int) < u64::MAX by {
            assert(narrower(ds[j], d[j]));
            assert(holds(d[j], a[j]));
        }
        lemma_try_finds(ps, d, v as int, d[v as int].0 as int, a);
    }
}

/// Trying the values `val..` of `var` finds a model when a solution gives
/// `var` a value from `val` on.
proof fn lemma_try_finds(ps: Seq<Propagator>, d: Seq<(i64, i64)>, var: int, val: int, a: Seq<int>)
    requires
        d.len() <= usize::MAX,
        props_below(ps, d.len() as int),
        within(d, a),
        meets_all(ps, a),
        linear_distinct(ps),
        sizes_fit(d),
        0 <= var < d.len(),
        d[var].0 < d[var].1,
        d[var].0 <= val <= a[var],
    ensures
        try_values(ps, d, var, val) is Some,
    decreases total_width(d), d[var].1 - val,
{
    assert(holds(d[var], a[var]));
    lemma_total_width_fix(d, var, val as i64);
    let d2 = d.update(var, (val as i64, val as i64));
    if val == a[var] {
        assert forall|j: int| 0 <= j < d2.len() implies holds(#[trigger] d2[j], a[j]) by {
            assert(holds(d[j], a[j]));
        }
        assert forall|j: int| 0 <= j < d2.len() implies interval_size((#[trigger] d2[j]).0 as int, d2[j].1 as int) < u64::MAX by {
            assert(interval_size(d[j].0 as int, d[j].1 as int) < u64::MAX);
        }
        lemma_search_finds(ps, d2, a);
    } else if search_spec(ps, d2) is None {
        lemma_try_finds(ps, d, var, val + 1, a);
    }
}

/// Search reports no model only when no assignment inside the domains
/// meets every propagator's constraint (with linear propagators over
/// distinct variables and every domain smaller than `u64::MAX` values).
pub proof fn lemma_no_model_no_solution(ps: Seq<Propagator>, ds: Seq<(i64, i64)>, a: Seq<int>)
    requires
        ds.len() <= usize::MAX,
        props_below(ps, ds.len() as int),
        linear_distinct(ps),
        sizes_fit(ds),
        search_spec(ps, ds) is None,
    ensures
        !(within(ds, a) && meets_all(ps, a)),
{
    if within(ds, a) && meets_all(ps, a) {
        lemma_search_finds(ps, ds, a);
    }
}

/// A copy of the domains.
fn copy_domains(ds: &Vec<IntDomain>) -> (r: Vec<IntDomain>)
    ensures
        r@ == ds@,
{
    let mut r: Vec<IntDomain> = Vec::new();
    let mut i: usize = 0;
    while i < ds.len()
        invariant
            i <= ds@.len(),
            r@ == ds@.take(i as int),
        decreases ds@.len() - i,
    {
        r.push(ds[i]);
        i = i + 1;
        assert(r@ =~= ds@.take(i as int));
    }
    assert(ds@.take(i as int) =~= ds@);
    r
}

/// Whether the domains differ from the snapshot.
fn differs(ds: &Vec<IntDomain>, snap: &Vec<IntDomain>) -> (b: bool)
    requires
        ds@.len() == snap@.len(),
    ensures
        b == (dview(ds@) != dview(snap@)),
{
    let mut i: usize = 0;
    while i < ds.len()
        invariant
            ds@.len() == snap@.len(),
            i <= ds@.len(),
            forall|k: int| 0 <= k < i ==> ds@[k]@ == snap@[k]@,
        decreases ds@.len() - i,
    {
        if ds[i].min() != snap[i].min() || ds[i].max() != snap[i].max() {
            assert(dview(ds@)[i as int] != dview(snap@)[i as int]);
            return true;
        }
        i = i + 1;
    }
    assert(dview(ds@) =~= dview(snap@));
    false
}

/// A copy of a vector of copyable values.
fn copy_vec<T: Copy>(v: &Vec<T>) -> (r: Vec<T>)
    ensures
        r@ == v@,
{
    let mut r: Vec<T> = Vec::new();
    let mut i: usize = 0;
    while i < v.len()
        invariant
            i <= v@.len(),
            r@ == v@.take(i as int),
        decreases v@.len() - i,
    {
        r.push(v[i]);
        i = i + 1;
        assert(r@ =~= v@.take(i as int));
    }
    assert(v@.take(i as int) =~= v@);
    r
}

impl CpSolver {
    /// The current domains.
    pub closed spec fn spec_domains(&self) -> Seq<(i64, i64)> {
        dview(self.domains@)
    }

    /// The propagators.
    pub closed spec fn spec_propagators(&self) -> Seq<Propagator> {
        self.propagators@
    }

    /// Every propagator names existing variables, and every domain's size fits in `u64`.
    pub open spec fn wf(&self) -> bool {
        &&& forall|k: int| 0 <= k < self.spec_propagators().len()
            ==> vars_below(#[trigger] self.spec_propagators()[k], self.spec_domains().len() as int)
        &&& forall|i: int| 0 <= i < self.spec_domains().len()
            ==> interval_size((#[trigger] self.spec_domains()[i]).0 as int, self.spec_domains()[i].1 as int) <= u64::MAX
    }

    pub fn new() -> (s: Self)
        ensures
            s.spec_domains().len() == 0,
            s.spec_propagators().len() == 0,
    {
        let s = CpSolver { domains: Vec::new(), propagators: Vec::new(), var_names: Vec::new() };
        assert(s.spec_domains() =~= seq![]);
        s
    }

    /// Load a CP problem: one domain per variable and one propagator per constraint.
    pub fn load(&mut self, problem: &CpProblem)
        ensures
            final(self).spec_domains() == problem.var_domains@.map_values(|d: (String, (i64, i64))| d.1),
            final(self).spec_propagators().len() == problem.constraints@.len(),
            forall|k: int| 0 <= k < problem.constraints@.len()
                ==> prop_for(#[trigger] final(self).spec_propagators()[k], problem.constraints@[k]),
    {
        let mut domains: Vec<IntDomain> = Vec::new();
        let mut names: Vec<String> = Vec::new();
        let mut i: usize = 0;
        while i < problem.var_domains.len()
            invariant
                i <= problem.var_domains@.len(),
                dview(domains@) == problem.var_domains@.take(i as int).map_values(|d: (String, (i64, i64))| d.1),
            decreases problem.var_domains@.len() - i,
        {
            let dd = problem.var_domains[i].1;
            let nd = IntDomain::new(dd.0, dd.1);
            let ghost before = domains@;
            domains.push(nd);
            assert(domains@ == before.push(nd));
            assert(nd@ == problem.var_domains@[i as int].1);
            assert(dview(domains@) =~= dview(before).push(nd@));
            assert(problem.var_domains@.take(i as int + 1).map_values(|d: (String, (i64, i64))| d.1)
                =~= problem.var_domains@.take(i as int).map_values(|d: (String, (i64, i64))| d.1).push(problem.var_domains@[i as int].1));
            names.push(problem.var_domains[i].0.clone());
            i = i + 1;
        }
        assert(problem.var_domains@.take(i as int) =~= problem.var_domains@);
        let mut props: Vec<Propagator> = Vec::new();
        let mut k: usize = 0;
        while k < problem.constraints.len()
            invariant
                k <= problem.constraints@.len(),
                props@.len() == k,
                forall|j: int| 0 <= j < k ==> prop_for(#[trigger] props@[j], problem.constraints@[j]),
            decreases problem.constraints@.len() - k,
        {
            let p = match &problem.constraints[k] {
                CpConstraint::Eq(a, b) => Propagator::Eq(*a, *b),
                CpConstraint::Neq(a, b) => Propagator::Neq(*a, *b),
                CpConstraint::Lt(a, b) => Propagator::Lt(*a, *b),
                CpConstraint::Le(a, b, c) => Propagator::Le(*a, *b, *c),
                CpConstraint::Linear(terms, rhs, rel) => Propagator::Linear(copy_vec(terms), *rhs, *rel),
                CpConstraint::AllDifferent(vars) => Propagator::AllDifferent(copy_vec(vars)),
            };
            props.push(p);
            k = k + 1;
        }
        self.domains = domains;
        self.var_names = names;
        self.propagators = props;
    }

    /// Whether the loaded problem can be solved: every constraint names
    /// existing variables and every domain's size fits in `u64`.
    pub fn is_consistent(&self) -> (b: bool)
        ensures
            b == self.wf(),
    {
        let n = self.domains.len();
        let mut i: usize = 0;
        while i < n
            invariant
                n == self.spec_domains().len(),
                i <= n,
                forall|k: int| 0 <= k < i ==> interval_size((#[trigger] self.spec_domains()[k]).0 as int, self.spec_domains()[k].1 as int) <= u64::MAX,
            decreases n - i,
        {
            let d = self.domains[i];
            assert(self.spec_domains()[i as int] == d@);
            if d.min() == i64::MIN && d.max() == i64::MAX {
                return false;
            }
            i = i + 1;
        }
        let mut k: usize = 0;
        while k < self.propagators.len()
            invariant
                n == self.spec_domains().len(),
                k <= self.spec_propagators().len(),
                forall|j: int| 0 <= j < k ==> vars_below(#[trigger] self.spec_propagators()[j], n as int),
            decreases self.spec_propagators().len() - k,
        {
            if !prop_vars_below(&self.propagators[k], n) {
                return false;
            }
            k = k + 1;
        }
        true
    }

    /// Run all propagators, in order, until none changes a domain.
    /// `false` when one fails.
    fn propagate_all(&mut self) -> (ok: bool)
        requires
            old(self).wf(),
        ensures
            ok ==> final(self).wf(),
            final(self).spec_propagators() == old(self).spec_propagators(),
            ok ==> seq_narrower(old(self).spec_domains(), final(self).spec_domains()),
            ok ==> at_fixpoint(final(self).spec_propagators(), final(self).spec_domains()),
            final(self).spec_domains().len() == old(self).spec_domains().len(),
            ok == (fixpoint_of(old(self).spec_propagators(), old(self).spec_domains()) is Some),
            ok ==> fixpoint_of(old(self).spec_propagators(), old(self).spec_domains()) == Some(final(self).spec_domains()),
    {
        let ghost start = self.spec_domains();
        proof {
            assert(seq_narrower(start, start));
        }
        loop
            invariant
                self.wf(),
                self.spec_propagators() == old(self).spec_propagators(),
                start == old(self).spec_domains(),
                seq_narrower(start, self.spec_domains()),
                fixpoint_of(self.spec_propagators(), start) == fixpoint_of(self.spec_propagators(), self.spec_domains()),
            decreases total_width(self.spec_domains()),
        {
            let snap = copy_domains(&self.domains);
            let ghost s0 = self.spec_domains();
            let mut k: usize = 0;
            while k < self.propagators.len()
                invariant
                    self.wf(),
                    self.spec_propagators() == old(self).spec_propagators(),
                    start == old(self).spec_domains(),
                    s0 == dview(snap@),
                    forall|i: int| 0 <= i < s0.len() ==> interval_size((#[trigger] s0[i]).0 as int, s0[i].1 as int) <= u64::MAX,
                    seq_narrower(start, s0),
                    seq_narrower(s0, self.spec_domains()),
                    k <= self.spec_propagators().len(),
                    forall|j: int| 0 <= j < k ==> (self.spec_domains() == s0
                        ==> propagate_spec(#[trigger] self.spec_propagators()[j], s0) == Some(s0)),
                    fixpoint_of(self.spec_propagators(), start) == fixpoint_of(self.spec_propagators(), s0),
                    sweep(self.spec_propagators(), s0, 0) == sweep(self.spec_propagators(), self.spec_domains(), k as int),
                decreases self.spec_propagators().len() - k,
            {
                let ghost before = self.spec_domains();
                let ghost p = self.spec_propagators()[k as int];
                assert(vars_below(p, before.len() as int));
                let r = self.propagators[k].propagate(&mut self.domains);
                if r == PropResult::Failure {
                    assert(sweep(self.spec_propagators(), before, k as int) is None);
                    return false;
                }
                assert(sweep(self.spec_propagators(), before, k as int) == sweep(self.spec_propagators(), self.spec_domains(), k + 1));
                proof {
                    lemma_propagate_narrows(p, before);
                    let after = self.spec_domains();
                    lemma_narrower_trans(s0, before, after);
                    assert forall|j: int| 0 <= j < k + 1 && after == s0 implies propagate_spec(
                        #[trigger] self.spec_propagators()[j],
                        s0,
                    ) == Some(s0) by {
                        lemma_sandwich(s0, before, after);
                    }
                    lemma_sizes_narrow(s0, after);
                }
                k = k + 1;
            }
            proof {
                lemma_narrower_trans(start, s0, self.spec_domains());
                assert(sweep(self.spec_propagators(), s0, 0) == Some(self.spec_domains()));
            }
            if !differs(&self.domains, &snap) {
                return true;
            }
            proof {
                lemma_total_width_narrower(s0, self.spec_domains());
            }
        }
    }

    /// Whether every domain is fixed.
    fn all_fixed(&self) -> (b: bool)
        ensures
            b == all_fixed(self.spec_domains()),
    {
        let mut i: usize = 0;
        while i < self.domains.len()
            invariant
                i <= self.spec_domains().len(),
                forall|k: int| 0 <= k < i ==> fixed(#[trigger] self.spec_domains()[k]),
            decreases self.spec_domains().len() - i,
        {
            assert(self.spec_domains()[i as int] == self.domains@[i as int]@);
            if !self.domains[i].is_fixed() {
                return false;
            }
            i = i + 1;
        }
        true
    }

    /// Select the variable with the smallest domain (first-fail principle).
    fn select_var(&self) -> (r: Option<usize>)
        requires
            self.wf(),
        ensures
            first_fail(self.spec_domains(), self.spec_domains().len() as int, r),
    {
        let ghost ds = self.spec_domains();
        let mut best: Option<usize> = None;
        let mut best_size: u64 = u64::MAX;
        let mut i: usize = 0;
        while i < self.domains.len()
            invariant
                self.wf(),
                ds == self.spec_domains(),
                i <= ds.len(),
                first_fail(ds, i as int, best),
                best matches Some(b) ==> best_size == interval_size(ds[b as int].0 as int, ds[b as int].1 as int),
                best is None ==> best_size == u64::MAX,
            decreases ds.len() - i,
        {
            let d = self.domains[i];
            assert(ds[i as int] == d@);
            let sz = d.size();
            if !d.is_fixed() && sz < best_size && sz > 0 {
                best_size = sz;
                best = Some(i);
            }
            i = i + 1;
        }
        best
    }

    /// The model of the current (fixed) domains.
    fn build_model(&self) -> (m: Vec<(Var, i64)>)
        requires
            all_fixed(self.spec_domains()),
        ensures
            m@ == model_of(self.spec_domains()),
    {
        let mut m: Vec<(Var, i64)> = Vec::new();
        let mut i: usize = 0;
        while i < self.domains.len()
            invariant
                i <= self.spec_domains().len(),
                all_fixed(self.spec_domains()),
                m@ == model_of(self.spec_domains()).take(i as int),
            decreases self.spec_domains().len() - i,
        {
            assert(self.spec_domains()[i as int] == self.domains@[i as int]@);
            let v = self.domains[i].min();
            m.push((Var::new(i), v));
            i = i + 1;
            assert(m@ =~= model_of(self.spec_domains()).take(i as int));
        }
        assert(model_of(self.spec_domains()).take(i as int) =~= model_of(self.spec_domains()));
        m
    }

    /// Backtracking search (DFS).
    fn search(&mut self) -> (r: Option<Vec<(Var, i64)>>)
        requires
            old(self).wf(),
        ensures
            final(self).spec_propagators() == old(self).spec_propagators(),
            final(self).spec_domains().len() == old(self).spec_domains().len(),
            r matches Some(m) ==> solution_found(old(self).spec_propagators(), old(self).spec_domains(), m@),
            r matches Some(m) ==> search_spec(old(self).spec_propagators(), old(self).spec_domains()) == Some(m@),
            r is None <==> search_spec(old(self).spec_propagators(), old(self).spec_domains()) is None,
        decreases total_width(old(self).spec_domains()),
    {
        let ghost entry = self.spec_domains();
        if !self.propagate_all() {
            return None;
        }
        proof {
            lemma_total_width_narrower(entry, self.spec_domains());
        }
        if self.all_fixed() {
            let m = self.build_model();
            assert(seq_narrower(entry, self.spec_domains()));
            return Some(m);
        }
        let ghost ps = self.spec_propagators();
        let sel = self.select_var();
        proof {
            lemma_first_fail_unique(self.spec_domains(), sel);
        }
        let var = match sel {
            None => {
                return None;
            },
            Some(v) => v,
        };
        let ghost here = self.spec_domains();
        let d = self.domains[var];
        assert(here[var as int] == d@);
        let lo = d.min();
        let hi = d.max();
        let mut val = lo;
        assert(search_spec(ps, entry) == try_values(ps, here, var as int, lo as int));
        loop
            invariant
                self.wf(),
                self.spec_propagators() == old(self).spec_propagators(),
                self.spec_domains() == here,
                seq_narrower(entry, here),
                at_fixpoint(self.spec_propagators(), here),
                entry == old(self).spec_domains(),
                var < here.len(),
                here[var as int] == (lo, hi),
                lo < hi,
                lo <= val <= hi,
                total_width(here) <= total_width(entry),
                ps == old(self).spec_propagators(),
                search_spec(ps, entry) == try_values(ps, here, var as int, val as int),
            decreases hi - val,
        {
            let saved = copy_domains(&self.domains);
            self.domains.set(var, IntDomain::single(val));
            proof {
                assert(self.spec_domains() =~= here.update(var as int, (val, val)));
                lemma_total_width_fix(here, var as int, val);
                assert forall|i: int| 0 <= i < self.spec_domains().len() implies interval_size(
                    (#[trigger] self.spec_domains()[i]).0 as int, self.spec_domains()[i].1 as int) <= u64::MAX by {
                    if i != var {
                        assert(self.spec_domains()[i] == here[i]);
                    }
                }
            }
            let found = self.search();
            assert(try_values(ps, here, var as int, val as int) == match search_spec(ps, here.update(var as int, (val, val))) {
                Some(m) => Some(m),
                None => if val < hi {
                    try_values(ps, here, var as int, val + 1)
                } else {
                    None
                },
            });
            if let Some(m) = found {
                proof {
                    lemma_solution_from_branch(old(self).spec_propagators(), entry, here, var as int, val, m@);
                }
                return Some(m);
            }
            self.domains = saved;
            if val == hi {
                return None;
            }
            val = val + 1;
        }
    }

    /// Solve using propagation + backtracking.
    pub fn solve(&mut self) -> (r: CpOutcome)
        requires
            old(self).wf(),
        ensures
            r matches CpOutcome::Sat(m) ==> solution_found(old(self).spec_propagators(), old(self).spec_domains(), m@),
            r matches CpOutcome::Sat(m) ==> search_spec(old(self).spec_propagators(), old(self).spec_domains()) == Some(m@),
            r is Unsat <==> search_spec(old(self).spec_propagators(), old(self).spec_domains()) is None,
            r is Unsat && linear_distinct(old(self).spec_propagators()) && sizes_fit(old(self).spec_domains())
                ==> forall|a: Seq<int>| !(#[trigger] within(old(self).spec_domains(), a) && meets_all(old(self).spec_propagators(), a)),
    {
        let ghost entry = self.spec_domains();
        let ghost ps0 = self.spec_propagators();
        let nd = self.domains.len();
        proof {
            assert(entry.len() == nd);
            if search_spec(ps0, entry) is None && linear_distinct(ps0) && sizes_fit(entry) {
                assert forall|a: Seq<int>| !(#[trigger] within(entry, a) && meets_all(ps0, a)) by {
                    lemma_no_model_no_solution(ps0, entry, a);
                }
            }
        }
        if !self.propagate_all() {
            return CpOutcome::Unsat;
        }
        let ghost mid = self.spec_domains();
        if self.all_fixed() {
            let m = self.build_model();
            assert(seq_narrower(entry, self.spec_domains()));
            return CpOutcome::Sat(m);
        }
        proof {
            let ps = self.spec_propagators();
            lemma_fixpoint_stable(ps, mid, 0);
            lemma_total_width_narrower(entry, mid);
            assert(search_spec(ps, mid) == search_spec(ps, entry));
        }
        match self.search() {
            Some(m) => {
                proof {
                    lemma_solution_narrower(self.spec_propagators(), entry, mid, m@);
                }
                CpOutcome::Sat(m)
            },
            None => CpOutcome::Unsat,
        }
    }
}

/// `m` is a solution read off domains within `ds` that are all fixed and at
/// a fixed point of every propagator.
pub open spec fn solution_found(ps: Seq<Propagator>, ds: Seq<(i64, i64)>, m: Seq<(Var, i64)>) -> bool {
    exists|f: Seq<(i64, i64)>| {
        &&& #[trigger] seq_narrower(ds, f)
        &&& all_fixed(f)
        &&& at_fixpoint(ps, f)
        &&& m == model_of(f)
    }
}

/// Narrowing keeps every domain's size within `u64`.
proof fn lemma_sizes_narrow(a: Seq<(i64, i64)>, b: Seq<(i64, i64)>)
    requires
        seq_narrower(a, b),
        forall|i: int| 0 <= i < a.len() ==> interval_size((#[trigger] a[i]).0 as int, a[i].1 as int) <= u64::MAX,
    ensures
        forall|i: int| 0 <= i < b.len() ==> interval_size((#[trigger] b[i]).0 as int, b[i].1 as int) <= u64::MAX,
{
    assert forall|i: int| 0 <= i < b.len() implies interval_size((#[trigger] b[i]).0 as int, b[i].1 as int) <= u64::MAX by {
        assert(narrower(a[i], b[i]));
        assert(interval_size(a[i].0 as int, a[i].1 as int) <= u64::MAX);
    }
}

/// A solution found within narrower domains is a solution within the wider ones.
proof fn lemma_solution_narrower(ps: Seq<Propagator>, a: Seq<(i64, i64)>, b: Seq<(i64, i64)>, m: Seq<(Var, i64)>)
    requires
        seq_narrower(a, b),
        solution_found(ps, b, m),
    ensures
        solution_found(ps, a, m),
{
    let f = choose|f: Seq<(i64, i64)>| {
        &&& #[trigger] seq_narrower(b, f)
        &&& all_fixed(f)
        &&& at_fixpoint(ps, f)
        &&& m == model_of(f)
    };
    lemma_narrower_trans(a, b, f);
}

/// A solution found after fixing `var` to `val` within `here` is one within `entry`.
proof fn lemma_solution_from_branch(ps: Seq<Propagator>, entry: Seq<(i64, i64)>, here: Seq<(i64, i64)>, var: int,
    val: i64, m: Seq<(Var, i64)>)
    requires
        seq_narrower(entry, here),
        0 <= var < here.len(),
        here[var].0 <= val <= here[var].1,
        solution_found(ps, here.update(var, (val, val)), m),
    ensures
        solution_found(ps, entry, m),
{
    let fixed_here = here.update(var, (val, val));
    assert(seq_narrower(here, fixed_here)) by {
        assert forall|k: int| 0 <= k < here.len() implies narrower(#[trigger] here[k], fixed_here[k]) by {}
    }
    lemma_solution_narrower(ps, here, fixed_here, m);
    lemma_solution_narrower(ps, entry, here, m);
}

} // verus!
