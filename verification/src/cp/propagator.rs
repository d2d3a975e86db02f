//! Propagators: each prunes the domains of its variables for one constraint.
use vstd::prelude::*;
use crate::cp::CmpRel;
use crate::cp::dom::IntDomain;
use crate::linear::rational::wide_mul;

verus! {

/// Result of propagation.
#[derive(Debug, Clone, Copy, PartialEq, Eq, Structural)]
pub enum PropResult {
    /// Propagation completed (may or may not have pruned).
    Success,
    /// Domain became empty (constraint cannot be satisfied).
    Failure,
}

/// A propagator: prunes domains based on a constraint.
#[derive(Debug, Clone)]
pub enum Propagator {
    Eq(usize, usize),
    Neq(usize, usize),
    Lt(usize, usize),
    Le(usize, usize, i64),
    Linear(Vec<(i64, usize)>, i64, CmpRel),
    AllDifferent(Vec<usize>),
}

/// The domains as intervals.
pub open spec fn dview(ds: Seq<IntDomain>) -> Seq<(i64, i64)> {
    ds.map_values(|d: IntDomain| d@)
}

/// `d` holds exactly one value.
pub open spec fn fixed(d: (i64, i64)) -> bool {
    d.0 == d.1
}

/// `d` holds `v`.
pub open spec fn holds(d: (i64, i64), v: int) -> bool {
    d.0 <= v <= d.1
}

/// `d` without the values below `lb`, or `None` when nothing is left.
pub open spec fn prune_lo(d: (i64, i64), lb: int) -> Option<(i64, i64)> {
    let lo = if lb > d.0 { lb } else { d.0 as int };
    if lo > d.1 {
        None
    } else {
        Some((lo as i64, d.1))
    }
}

/// `d` without the values above `ub`, or `None` when nothing is left.
pub open spec fn prune_hi(d: (i64, i64), ub: int) -> Option<(i64, i64)> {
    let hi = if ub < d.1 { ub } else { d.1 as int };
    if d.0 > hi {
        None
    } else {
        Some((d.0, hi as i64))
    }
}

/// `d` without the value `v` when `v` is an end point (an interior value
/// cannot be removed from an interval), or `None` when nothing is left.
pub open spec fn remove_val(d: (i64, i64), v: int) -> Option<(i64, i64)> {
    if v == d.0 {
        if d.0 + 1 > d.1 { None } else { Some(((d.0 + 1) as i64, d.1)) }
    } else if v == d.1 {
        if d.0 > d.1 - 1 { None } else { Some((d.0, (d.1 - 1) as i64)) }
    } else if d.0 > d.1 {
        None
    } else {
        Some(d)
    }
}

/// Apply `prune_lo` to domain `i`, failing when it empties.
pub open spec fn at_lo(st: Option<Seq<(i64, i64)>>, i: int, lb: int) -> Option<Seq<(i64, i64)>> {
    match st {
        None => None,
        Some(ds) => match prune_lo(ds[i], lb) {
            None => None,
            Some(d) => Some(ds.update(i, d)),
        },
    }
}

/// Apply `prune_hi` to domain `i`, failing when it empties.
pub open spec fn at_hi(st: Option<Seq<(i64, i64)>>, i: int, ub: int) -> Option<Seq<(i64, i64)>> {
    match st {
        None => None,
        Some(ds) => match prune_hi(ds[i], ub) {
            None => None,
            Some(d) => Some(ds.update(i, d)),
        },
    }
}

/// Apply `remove_val` to domain `i`, failing when it empties.
pub open spec fn at_remove(st: Option<Seq<(i64, i64)>>, i: int, v: int) -> Option<Seq<(i64, i64)>> {
    match st {
        None => None,
        Some(ds) => match remove_val(ds[i], v) {
            None => None,
            Some(d) => Some(ds.update(i, d)),
        },
    }
}

/// `x = y`: both domains become the intersection.
pub open spec fn eq_spec(ds: Seq<(i64, i64)>, x: int, y: int) -> Option<Seq<(i64, i64)>> {
    let lb = if ds[x].0 >= ds[y].0 { ds[x].0 } else { ds[y].0 };
    let ub = if ds[x].1 <= ds[y].1 { ds[x].1 } else { ds[y].1 };
    if lb > ub {
        None
    } else {
        at_hi(at_hi(at_lo(at_lo(Some(ds), x, lb as int), y, lb as int), x, ub as int), y, ub as int)
    }
}

/// `x ≠ y`: a fixed value is removed from the other domain.
pub open spec fn neq_spec(ds: Seq<(i64, i64)>, x: int, y: int) -> Option<Seq<(i64, i64)>> {
    if fixed(ds[x]) && fixed(ds[y]) && ds[x].0 == ds[y].0 {
        None
    } else {
        let s1 = if fixed(ds[x]) && holds(ds[y], ds[x].0 as int) {
            at_remove(Some(ds), y, ds[x].0 as int)
        } else {
            Some(ds)
        };
        match s1 {
            None => None,
            Some(d1) => if fixed(d1[y]) && holds(d1[x], d1[y].0 as int) {
                at_remove(Some(d1), x, d1[y].0 as int)
            } else {
                Some(d1)
            },
        }
    }
}

/// `x < y`: `x` stays below the largest value of `y`, and `y` above the
/// smallest value of `x`.
pub open spec fn lt_spec(ds: Seq<(i64, i64)>, x: int, y: int) -> Option<Seq<(i64, i64)>> {
    at_lo(at_hi(Some(ds), x, ds[y].1 - 1), y, ds[x].0 + 1)
}

/// `x ≤ y + c`.
pub open spec fn le_spec(ds: Seq<(i64, i64)>, x: int, y: int, c: int) -> Option<Seq<(i64, i64)>> {
    at_lo(at_hi(Some(ds), x, ds[y].1 + c), y, ds[x].0 - c)
}

/// All-different, removing the value of each fixed variable `vars[i]`
/// from the domains of the other variables `vars[j..]` that hold it.
pub open spec fn all_diff_inner(ds: Seq<(i64, i64)>, vars: Seq<usize>, i: int, v: int, j: int) -> Option<Seq<(i64, i64)>>
    decreases vars.len() - j,
{
    if j >= vars.len() || j < 0 {
        Some(ds)
    } else if i != j && holds(ds[vars[j] as int], v) {
        match remove_val(ds[vars[j] as int], v) {
            None => None,
            Some(d) => all_diff_inner(ds.update(vars[j] as int, d), vars, i, v, j + 1),
        }
    } else {
        all_diff_inner(ds, vars, i, v, j + 1)
    }
}

/// All-different over the variables `vars[i..]`.
pub open spec fn all_diff_from(ds: Seq<(i64, i64)>, vars: Seq<usize>, i: int) -> Option<Seq<(i64, i64)>>
    decreases vars.len() - i,
{
    if i >= vars.len() || i < 0 {
        Some(ds)
    } else if fixed(ds[vars[i] as int]) {
        match all_diff_inner(ds, vars, i, ds[vars[i] as int].0 as int, 0) {
            None => None,
            Some(d2) => all_diff_from(d2, vars, i + 1),
        }
    } else {
        all_diff_from(ds, vars, i + 1)
    }
}

/// `floor(a / b)` for `b ≠ 0`.
pub open spec fn floor_div(a: int, b: int) -> int {
    if b > 0 {
        a / b
    } else {
        (-a) / (-b)
    }
}

/// `ceil(a / b)` for `b ≠ 0`.
pub open spec fn ceil_div(a: int, b: int) -> int {
    -floor_div(-a, b)
}

/// The smallest and largest values of `Σ a_k x_k` over the terms whose
/// variable is not `exclude`, summing the terms `0..k`.
pub open spec fn min_max_sum(ds: Seq<(i64, i64)>, terms: Seq<(i64, usize)>, exclude: usize, k: int) -> (int, int)
    decreases k,
{
    if k <= 0 {
        (0, 0)
    } else {
        let (lo, hi) = min_max_sum(ds, terms, exclude, k - 1);
        let (a, v) = terms[k - 1];
        if v == exclude {
            (lo, hi)
        } else if a > 0 {
            (lo + a * ds[v as int].0, hi + a * ds[v as int].1)
        } else {
            (lo + a * ds[v as int].1, hi + a * ds[v as int].0)
        }
    }
}

/// Every product and partial sum of `min_max_sum` over `0..k` fits in `i64`.
pub open spec fn sums_fit(ds: Seq<(i64, i64)>, terms: Seq<(i64, usize)>, exclude: usize, k: int) -> bool
    decreases k,
{
    if k <= 0 {
        true
    } else {
        let (lo, hi) = min_max_sum(ds, terms, exclude, k);
        let (a, v) = terms[k - 1];
        &&& sums_fit(ds, terms, exclude, k - 1)
        &&& (v != exclude ==> {
            &&& i64::MIN <= a * ds[v as int].0 <= i64::MAX
            &&& i64::MIN <= a * ds[v as int].1 <= i64::MAX
        })
        &&& i64::MIN <= lo <= i64::MAX
        &&& i64::MIN <= hi <= i64::MAX
    }
}

/// Prune the variable of the `k`-th term of `Σ a x (rel) rhs`, given the
/// bounds of the other terms (when they fit in `i64`).
pub open spec fn linear_term(ds: Seq<(i64, i64)>, terms: Seq<(i64, usize)>, rhs: int, rel: CmpRel, k: int) -> Option<Seq<(i64, i64)>> {
    let (a, v) = terms[k];
    let (min_sum, max_sum) = min_max_sum(ds, terms, v, terms.len() as int);
    let vi = v as int;
    if !sums_fit(ds, terms, v, terms.len() as int) || a == 0 {
        Some(ds)
    } else {
        match rel {
            CmpRel::Eq => {
                let min_x = rhs - max_sum;
                let max_x = rhs - min_sum;
                if a > 0 {
                    at_hi(at_lo(Some(ds), vi, ceil_div(min_x, a as int)), vi, floor_div(max_x, a as int))
                } else {
                    at_hi(at_lo(Some(ds), vi, ceil_div(max_x, a as int)), vi, floor_div(min_x, a as int))
                }
            },
            CmpRel::Le => if a > 0 {
                at_hi(Some(ds), vi, floor_div(rhs - min_sum, a as int))
            } else {
                at_lo(Some(ds), vi, ceil_div(rhs - min_sum, a as int))
            },
            CmpRel::Ge => if a > 0 {
                at_lo(Some(ds), vi, ceil_div(rhs - max_sum, a as int))
            } else {
                at_hi(Some(ds), vi, floor_div(rhs - max_sum, a as int))
            },
        }
    }
}

/// Linear propagation over the terms `k..`, in order.
pub open spec fn linear_from(ds: Seq<(i64, i64)>, terms: Seq<(i64, usize)>, rhs: int, rel: CmpRel, k: int) -> Option<Seq<(i64, i64)>>
    decreases terms.len() - k,
{
    if k >= terms.len() || k < 0 {
        Some(ds)
    } else {
        match linear_term(ds, terms, rhs, rel, k) {
            None => None,
            Some(d2) => linear_from(d2, terms, rhs, rel, k + 1),
        }
    }
}

/// Every variable a propagator names is below `n`.
pub open spec fn vars_below(p: Propagator, n: int) -> bool {
    match p {
        Propagator::Eq(a, b) => a < n && b < n,
        Propagator::Neq(a, b) => a < n && b < n,
        Propagator::Lt(a, b) => a < n && b < n,
        Propagator::Le(a, b, _) => a < n && b < n,
        Propagator::Linear(t, _, _) => forall|k: int| 0 <= k < t@.len() ==> (#[trigger] t@[k]).1 < n,
        Propagator::AllDifferent(v) => forall|k: int| 0 <= k < v@.len() ==> #[trigger] v@[k] < n,
    }
}

/// What propagation yields: the pruned domains, or `None` on failure.
pub open spec fn propagate_spec(p: Propagator, ds: Seq<(i64, i64)>) -> Option<Seq<(i64, i64)>> {
    match p {
        Propagator::Eq(x, y) => eq_spec(ds, x as int, y as int),
        Propagator::Neq(x, y) => neq_spec(ds, x as int, y as int),
        Propagator::Lt(x, y) => lt_spec(ds, x as int, y as int),
        Propagator::Le(x, y, c) => le_spec(ds, x as int, y as int, c as int),
        Propagator::Linear(t, rhs, rel) => linear_from(ds, t@, rhs as int, rel, 0),
        Propagator::AllDifferent(v) => all_diff_from(ds, v@, 0),
    }
}

/// The variables of a propagator, in order.
pub open spec fn prop_vars(p: Propagator) -> Seq<usize> {
    match p {
        Propagator::Eq(a, b) => seq![a, b],
        Propagator::Neq(a, b) => seq![a, b],
        Propagator::Lt(a, b) => seq![a, b],
        Propagator::Le(a, b, _) => seq![a, b],
        Propagator::Linear(t, _, _) => t@.map_values(|p: (i64, usize)| p.1),
        Propagator::AllDifferent(v) => v@,
    }
}

/// Every domain of `b` lies within the matching one of `a`, and only the
/// domains of the variables `vs` may differ.
pub open spec fn within_on(a: Seq<(i64, i64)>, b: Seq<(i64, i64)>, vs: Seq<usize>) -> bool {
    &&& a.len() == b.len()
    &&& forall|i: int| 0 <= i < a.len() ==> a[i].0 <= (#[trigger] b[i]).0 && b[i].1 <= a[i].1
    &&& forall|i: int| 0 <= i < a.len() && !vs.contains(i as usize) ==> #[trigger] b[i] == a[i]
}

/// `within_on` composes.
proof fn lemma_within_trans(a: Seq<(i64, i64)>, b: Seq<(i64, i64)>, c: Seq<(i64, i64)>, vs: Seq<usize>)
    requires
        within_on(a, b, vs),
        within_on(b, c, vs),
    ensures
        within_on(a, c, vs),
{
    assert forall|i: int| 0 <= i < a.len() implies a[i].0 <= (#[trigger] c[i]).0 && c[i].1 <= a[i].1 by {
        assert(b[i] == b[i]);
    }
    assert forall|i: int| 0 <= i < a.len() && !vs.contains(i as usize) implies #[trigger] c[i] == a[i] by {
        assert(b[i] == a[i]);
    }
}

/// A change to variable `x` alone is a change within `vs` when `vs` holds `x`.
proof fn lemma_within_widen(a: Seq<(i64, i64)>, b: Seq<(i64, i64)>, x: usize, vs: Seq<usize>)
    requires
        within_on(a, b, seq![x]),
        vs.contains(x),
    ensures
        within_on(a, b, vs),
{
    assert forall|i: int| 0 <= i < a.len() && !vs.contains(i as usize) implies #[trigger] b[i] == a[i] by {
        assert(!seq![x].contains(i as usize)) by {
            if seq![x].contains(i as usize) {
                assert(seq![x][0] == x);
            }
        }
    }
}

/// A further change to variable `x`, which `vs` holds, keeps the changes
/// since `d0` within `vs`.
proof fn lemma_within_step(d0: Seq<(i64, i64)>, s0: Seq<(i64, i64)>, s1: Seq<(i64, i64)>, x: usize, vs: Seq<usize>)
    requires
        within_on(d0, s0, vs),
        within_on(s0, s1, seq![x]),
        vs.contains(x),
    ensures
        within_on(d0, s1, vs),
{
    lemma_within_widen(s0, s1, x, vs);
    lemma_within_trans(d0, s0, s1, vs);
}

/// Narrowing one domain is a change within that variable.
proof fn lemma_update_within(a: Seq<(i64, i64)>, i: int, nd: (i64, i64))
    requires
        0 <= i < a.len(),
        a[i].0 <= nd.0,
        nd.1 <= a[i].1,
    ensures
        within_on(a, a.update(i, nd), seq![i as usize]),
{
    let b = a.update(i, nd);
    assert forall|j: int| 0 <= j < a.len() && !seq![i as usize].contains(j as usize) implies #[trigger] b[j] == a[j] by {
        if j == i {
            assert(seq![i as usize][0] == i as usize);
        }
    }
}

/// Prune domain `i` from below at `lb`.
fn lo_at(ds: &mut Vec<IntDomain>, i: usize, lb: i128) -> (ok: bool)
    requires
        i < old(ds)@.len(),
    ensures
        ok == (at_lo(Some(dview(old(ds)@)), i as int, lb as int) is Some),
        ok ==> Some(dview(final(ds)@)) == at_lo(Some(dview(old(ds)@)), i as int, lb as int),
        final(ds)@.len() == old(ds)@.len(),
        within_on(dview(old(ds)@), dview(final(ds)@), seq![i]),
{
    let d = ds[i];
    assert(dview(old(ds)@)[i as int] == d@);
    if lb > d.max() as i128 || d.min() > d.max() {
        return false;
    }
    let mut nd = d;
    if lb > d.min() as i128 {
        let l = lb as i64;
        assert(l as int == lb as int);
        nd = IntDomain::new(l, d.max());
        assert(nd@ == (l, d@.1));
    } else {
        assert(d@.0 as int as i64 == d@.0);
    }
    assert(prune_lo(d@, lb as int) == Some(nd@));
    ds.set(i, nd);
    assert(dview(ds@) =~= dview(old(ds)@).update(i as int, nd@));
    proof {
        lemma_update_within(dview(old(ds)@), i as int, nd@);
    }
    true
}

/// Prune domain `i` from above at `ub`.
fn hi_at(ds: &mut Vec<IntDomain>, i: usize, ub: i128) -> (ok: bool)
    requires
        i < old(ds)@.len(),
    ensures
        ok == (at_hi(Some(dview(old(ds)@)), i as int, ub as int) is Some),
        ok ==> Some(dview(final(ds)@)) == at_hi(Some(dview(old(ds)@)), i as int, ub as int),
        final(ds)@.len() == old(ds)@.len(),
        within_on(dview(old(ds)@), dview(final(ds)@), seq![i]),
{
    let d = ds[i];
    assert(dview(old(ds)@)[i as int] == d@);
    if (d.min() as i128) > ub || d.min() > d.max() {
        return false;
    }
    let mut nd = d;
    if ub < d.max() as i128 {
        let u = ub as i64;
        assert(u as int == ub as int);
        nd = IntDomain::new(d.min(), u);
        assert(nd@ == (d@.0, u));
    } else {
        assert(d@.1 as int as i64 == d@.1);
    }
    assert(prune_hi(d@, ub as int) == Some(nd@));
    ds.set(i, nd);
    assert(dview(ds@) =~= dview(old(ds)@).update(i as int, nd@));
    proof {
        lemma_update_within(dview(old(ds)@), i as int, nd@);
    }
    true
}

/// Prune domain `i` from below at `lb`, then from above at `ub`.
fn lo_then_hi(ds: &mut Vec<IntDomain>, i: usize, lb: i128, ub: i128) -> (ok: bool)
    requires
        i < old(ds)@.len(),
    ensures
        ok == (at_hi(at_lo(Some(dview(old(ds)@)), i as int, lb as int), i as int, ub as int) is Some),
        ok ==> Some(dview(final(ds)@)) == at_hi(at_lo(Some(dview(old(ds)@)), i as int, lb as int), i as int, ub as int),
        final(ds)@.len() == old(ds)@.len(),
        within_on(dview(old(ds)@), dview(final(ds)@), seq![i]),
{
    let ghost s0 = dview(ds@);
    if !lo_at(ds, i, lb) {
        return false;
    }
    let ghost s1 = dview(ds@);
    let ok = hi_at(ds, i, ub);
    proof {
        lemma_within_trans(s0, s1, dview(ds@), seq![i]);
    }
    ok
}

/// Remove the value `v` from domain `i` (when it is an end point).
fn remove_at(ds: &mut Vec<IntDomain>, i: usize, v: i64) -> (ok: bool)
    requires
        i < old(ds)@.len(),
    ensures
        ok == (at_remove(Some(dview(old(ds)@)), i as int, v as int) is Some),
        ok ==> Some(dview(final(ds)@)) == at_remove(Some(dview(old(ds)@)), i as int, v as int),
        final(ds)@.len() == old(ds)@.len(),
        within_on(dview(old(ds)@), dview(final(ds)@), seq![i]),
{
    let d = ds[i];
    assert(dview(old(ds)@)[i as int] == d@);
    let lo = d.min();
    let hi = d.max();
    let nd = if v == lo {
        if lo as i128 + 1 > hi as i128 {
            return false;
        }
        IntDomain::new(lo + 1, hi)
    } else if v == hi {
        if lo as i128 > hi as i128 - 1 {
            return false;
        }
        IntDomain::new(lo, hi - 1)
    } else if lo > hi {
        return false;
    } else {
        d
    };
    assert(remove_val(d@, v as int) == Some(nd@));
    ds.set(i, nd);
    assert(dview(ds@) =~= dview(old(ds)@).update(i as int, nd@));
    proof {
        lemma_update_within(dview(old(ds)@), i as int, nd@);
    }
    true
}

fn propagate_eq(domains: &mut Vec<IntDomain>, x: usize, y: usize) -> (r: PropResult)
    requires
        x < old(domains)@.len(),
        y < old(domains)@.len(),
    ensures
        (r == PropResult::Success) == (eq_spec(dview(old(domains)@), x as int, y as int) is Some),
        r == PropResult::Success ==> Some(dview(final(domains)@)) == eq_spec(dview(old(domains)@), x as int, y as int),
        final(domains)@.len() == old(domains)@.len(),
        within_on(dview(old(domains)@), dview(final(domains)@), seq![x, y]),
{
    let dx = domains[x];
    let dy = domains[y];
    assert(dview(domains@)[x as int] == dx@);
    assert(dview(domains@)[y as int] == dy@);
    let lb = if dx.min() >= dy.min() { dx.min() } else { dy.min() };
    let ub = if dx.max() <= dy.max() { dx.max() } else { dy.max() };
    let ghost d0 = dview(domains@);
    let ghost vs = seq![x, y];
    assert(vs[0] == x && vs[1] == y);
    if lb > ub {
        return PropResult::Failure;
    }
    let ghost s0 = dview(domains@);
    if !lo_at(domains, x, lb as i128) {
        return PropResult::Failure;
    }
    proof {
        lemma_within_step(d0, s0, dview(domains@), x, vs);
    }
    let ghost s1 = dview(domains@);
    if !lo_at(domains, y, lb as i128) {
        return PropResult::Failure;
    }
    proof {
        lemma_within_step(d0, s1, dview(domains@), y, vs);
    }
    let ghost s2 = dview(domains@);
    if !hi_at(domains, x, ub as i128) {
        return PropResult::Failure;
    }
    proof {
        lemma_within_step(d0, s2, dview(domains@), x, vs);
    }
    let ghost s3 = dview(domains@);
    if !hi_at(domains, y, ub as i128) {
        return PropResult::Failure;
    }
    proof {
        lemma_within_step(d0, s3, dview(domains@), y, vs);
    }
    PropResult::Success
}

fn propagate_neq(domains: &mut Vec<IntDomain>, x: usize, y: usize) -> (r: PropResult)
    requires
        x < old(domains)@.len(),
        y < old(domains)@.len(),
    ensures
        (r == PropResult::Success) == (neq_spec(dview(old(domains)@), x as int, y as int) is Some),
        r == PropResult::Success ==> Some(dview(final(domains)@)) == neq_spec(dview(old(domains)@), x as int, y as int),
        final(domains)@.len() == old(domains)@.len(),
        within_on(dview(old(domains)@), dview(final(domains)@), seq![x, y]),
{
    let ghost d0 = dview(domains@);
    let ghost vs = seq![x, y];
    assert(vs[0] == x && vs[1] == y);
    if let (Some(vx), Some(vy)) = (domains[x].value(), domains[y].value()) {
        if vx == vy {
            return PropResult::Failure;
        }
    }
    if let Some(vx) = domains[x].value() {
        if domains[y].contains(vx) {
            let ghost s0 = dview(domains@);
            let ok = remove_at(domains, y, vx);
            proof {
                lemma_within_step(d0, s0, dview(domains@), y, vs);
            }
            if !ok {
                return PropResult::Failure;
            }
        }
    }
    if let Some(vy) = domains[y].value() {
        if domains[x].contains(vy) {
            let ghost s0 = dview(domains@);
            let ok = remove_at(domains, x, vy);
            proof {
                lemma_within_step(d0, s0, dview(domains@), x, vs);
            }
            if !ok {
                return PropResult::Failure;
            }
        }
    }
    PropResult::Success
}

fn propagate_lt(domains: &mut Vec<IntDomain>, x: usize, y: usize) -> (r: PropResult)
    requires
        x < old(domains)@.len(),
        y < old(domains)@.len(),
    ensures
        (r == PropResult::Success) == (lt_spec(dview(old(domains)@), x as int, y as int) is Some),
        r == PropResult::Success ==> Some(dview(final(domains)@)) == lt_spec(dview(old(domains)@), x as int, y as int),
        final(domains)@.len() == old(domains)@.len(),
        within_on(dview(old(domains)@), dview(final(domains)@), seq![x, y]),
{
    let ghost d0 = dview(domains@);
    assert(d0[y as int] == domains@[y as int]@);
    assert(d0[x as int] == domains@[x as int]@);
    let ghost vs = seq![x, y];
    assert(vs[0] == x && vs[1] == y);
    let min_x = domains[x].min();
    let max_y = domains[y].max();
    if !hi_at(domains, x, max_y as i128 - 1) {
        return PropResult::Failure;
    }
    proof {
        lemma_within_step(d0, d0, dview(domains@), x, vs);
    }
    let ghost s1 = dview(domains@);
    if !lo_at(domains, y, min_x as i128 + 1) {
        return PropResult::Failure;
    }
    proof {
        lemma_within_step(d0, s1, dview(domains@), y, vs);
    }
    PropResult::Success
}

fn propagate_le(domains: &mut Vec<IntDomain>, x: usize, y: usize, c: i64) -> (r: PropResult)
    requires
        x < old(domains)@.len(),
        y < old(domains)@.len(),
    ensures
        (r == PropResult::Success) == (le_spec(dview(old(domains)@), x as int, y as int, c as int) is Some),
        r == PropResult::Success ==> Some(dview(final(domains)@)) == le_spec(dview(old(domains)@), x as int, y as int, c as int),
        final(domains)@.len() == old(domains)@.len(),
        within_on(dview(old(domains)@), dview(final(domains)@), seq![x, y]),
{
    let ghost d0 = dview(domains@);
    assert(d0[y as int] == domains@[y as int]@);
    let ghost vs = seq![x, y];
    assert(vs[0] == x && vs[1] == y);
    let ub = domains[y].max() as i128 + c as i128;
    if !hi_at(domains, x, ub) {
        return PropResult::Failure;
    }
    proof {
        lemma_within_step(d0, d0, dview(domains@), x, vs);
    }
    let ghost s1 = dview(domains@);
    assert(dview(domains@)[x as int] == domains@[x as int]@);
    let lb = domains[x].min() as i128 - c as i128;
    if !lo_at(domains, y, lb) {
        return PropResult::Failure;
    }
    proof {
        lemma_within_step(d0, s1, dview(domains@), y, vs);
    }
    PropResult::Success
}

fn propagate_all_diff(domains: &mut Vec<IntDomain>, vars: &Vec<usize>) -> (r: PropResult)
    requires
        forall|k: int| 0 <= k < vars@.len() ==> #[trigger] vars@[k] < old(domains)@.len(),
    ensures
        (r == PropResult::Success) == (all_diff_from(dview(old(domains)@), vars@, 0) is Some),
        r == PropResult::Success ==> Some(dview(final(domains)@)) == all_diff_from(dview(old(domains)@), vars@, 0),
        final(domains)@.len() == old(domains)@.len(),
        within_on(dview(old(domains)@), dview(final(domains)@), vars@),
{
    let ghost d0 = dview(domains@);
    let n = vars.len();
    let mut i: usize = 0;
    while i < n
        invariant
            n == vars@.len(),
            i <= n,
            domains@.len() == old(domains)@.len(),
            forall|k: int| 0 <= k < vars@.len() ==> #[trigger] vars@[k] < domains@.len(),
            all_diff_from(d0, vars@, 0) == all_diff_from(dview(domains@), vars@, i as int),
            d0 == dview(old(domains)@),
            within_on(d0, dview(domains@), vars@),
        decreases n - i,
    {
        assert(dview(domains@)[vars@[i as int] as int] == domains@[vars@[i as int] as int]@);
        if let Some(vi) = domains[vars[i]].value() {
            let ghost di = dview(domains@);
            let mut j: usize = 0;
            while j < n
                invariant
                    n == vars@.len(),
                    i < n,
                    j <= n,
                    domains@.len() == old(domains)@.len(),
                    forall|k: int| 0 <= k < vars@.len() ==> #[trigger] vars@[k] < domains@.len(),
                    all_diff_inner(di, vars@, i as int, vi as int, 0)
                        == all_diff_inner(dview(domains@), vars@, i as int, vi as int, j as int),
                    all_diff_from(d0, vars@, 0) == all_diff_from(di, vars@, i as int),
                    fixed(di[vars@[i as int] as int]),
                    di[vars@[i as int] as int].0 == vi,
                    d0 == dview(old(domains)@),
                    within_on(d0, dview(domains@), vars@),
                decreases n - j,
            {
                assert(dview(domains@)[vars@[j as int] as int] == domains@[vars@[j as int] as int]@);
                if i != j && domains[vars[j]].contains(vi) {
                    let ghost s0 = dview(domains@);
                    let ok = remove_at(domains, vars[j], vi);
                    proof {
                        assert(vars@[j as int] == vars[j as int]);
                        lemma_within_step(d0, s0, dview(domains@), vars[j as int], vars@);
                    }
                    if !ok {
                        return PropResult::Failure;
                    }
                }
                j = j + 1;
            }
        }
        i = i + 1;
    }
    PropResult::Success
}

/// `floor(a / b)` for `b ≠ 0`, on values whose quotient is exact in `i128`.
fn div_floor(a: i128, b: i128) -> (r: i128)
    requires
        b != 0,
        -0x1_0000_0000_0000_0000_0000 <= a <= 0x1_0000_0000_0000_0000_0000,
        -0x1_0000_0000_0000_0000_0000 <= b <= 0x1_0000_0000_0000_0000_0000,
    ensures
        r == floor_div(a as int, b as int),
        -0x1_0000_0000_0000_0000_0000 <= r <= 0x1_0000_0000_0000_0000_0000,
{
    proof {
        lemma_floor_bound(a as int, b as int);
    }
    if b > 0 {
        if a >= 0 {
            a / b
        } else {
            let q = (-a) / b;
            let r = (-a) % b;
            proof {
                lemma_floor_neg(a as int, b as int);
            }
            if r == 0 { -q } else { -q - 1 }
        }
    } else {
        let na = -a;
        let nb = -b;
        if na >= 0 {
            na / nb
        } else {
            let q = (-na) / nb;
            let r = (-na) % nb;
            proof {
                lemma_floor_neg(na as int, nb as int);
            }
            if r == 0 { -q } else { -q - 1 }
        }
    }
}

proof fn lemma_floor_bound(a: int, b: int)
    requires
        b != 0,
        -0x1_0000_0000_0000_0000_0000 <= a <= 0x1_0000_0000_0000_0000_0000,
    ensures
        -0x1_0000_0000_0000_0000_0000 <= floor_div(a, b) <= 0x1_0000_0000_0000_0000_0000,
{
    let (x, y) = if b > 0 { (a, b) } else { (-a, -b) };
    assert(y >= 1);
    assert(x >= 0 ==> 0 <= x / y <= x) by (nonlinear_arith)
        requires
            y >= 1,
    ;
    assert(x < 0 ==> x <= x / y < 0) by (nonlinear_arith)
        requires
            y >= 1,
    ;
}

proof fn lemma_floor_neg(a: int, b: int)
    requires
        b > 0,
        a < 0,
    ensures
        a / b == (if (-a) % b == 0 { -((-a) / b) } else { -((-a) / b) - 1 }),
{
    let q = (-a) / b;
    let r = (-a) % b;
    assert(-a == b * q + r && 0 <= r < b) by (nonlinear_arith)
        requires
            b > 0,
            q == (-a) / b,
            r == (-a) % b,
    ;
    if r == 0 {
        assert(a == b * (-q)) by (nonlinear_arith)
            requires
                -a == b * q + r,
                r == 0,
        ;
        assert(a / b == -q) by (nonlinear_arith)
            requires
                b > 0,
                a == b * (-q),
        ;
    } else {
        assert(a == b * (-q - 1) + (b - r)) by (nonlinear_arith)
            requires
                -a == b * q + r,
        ;
        assert(a / b == -q - 1) by (nonlinear_arith)
            requires
                b > 0,
                a == b * (-q - 1) + (b - r),
                0 < b - r < b,
        ;
    }
}

/// The bounds of `Σ a_k x_k` over the terms whose variable is not
/// `exclude`; `None` when a product or partial sum leaves `i64`.
fn min_max_sum_exec(domains: &Vec<IntDomain>, terms: &Vec<(i64, usize)>, exclude: usize) -> (r: Option<(i64, i64)>)
    requires
        forall|k: int| 0 <= k < terms@.len() ==> (#[trigger] terms@[k]).1 < domains@.len(),
    ensures
        r is Some <==> sums_fit(dview(domains@), terms@, exclude, terms@.len() as int),
        r matches Some((lo, hi)) ==> (lo as int, hi as int) == min_max_sum(dview(domains@), terms@, exclude, terms@.len() as int),
{
    let ghost ds = dview(domains@);
    let mut lo: i64 = 0;
    let mut hi: i64 = 0;
    let mut k: usize = 0;
    while k < terms.len()
        invariant
            k <= terms@.len(),
            ds == dview(domains@),
            forall|m: int| 0 <= m < terms@.len() ==> (#[trigger] terms@[m]).1 < domains@.len(),
            sums_fit(ds, terms@, exclude, k as int),
            (lo as int, hi as int) == min_max_sum(ds, terms@, exclude, k as int),
        decreases terms@.len() - k,
    {
        let (a, v) = terms[k];
        if v != exclude {
            let d = domains[v];
            assert(ds[v as int] == d@);
            let p_lo: i128 = wide_mul(a, d.min());
            let p_hi: i128 = wide_mul(a, d.max());
            let p_min: i128 = if a > 0 { p_lo } else { p_hi };
            let p_max: i128 = if a > 0 { p_hi } else { p_lo };
            if p_lo < i64::MIN as i128 || p_lo > i64::MAX as i128 || p_hi < i64::MIN as i128 || p_hi > i64::MAX as i128 {
                proof {
                    lemma_sums_fit_prefix(ds, terms@, exclude, k as int + 1, terms@.len() as int);
                }
                return None;
            }
            let nlo = lo as i128 + p_min;
            let nhi = hi as i128 + p_max;
            if nlo < i64::MIN as i128 || nlo > i64::MAX as i128 || nhi < i64::MIN as i128 || nhi > i64::MAX as i128 {
                proof {
                    lemma_sums_fit_prefix(ds, terms@, exclude, k as int + 1, terms@.len() as int);
                }
                return None;
            }
            lo = nlo as i64;
            hi = nhi as i64;
        }
        k = k + 1;
    }
    Some((lo, hi))
}

/// A failure of `sums_fit` on a prefix is a failure on the whole.
proof fn lemma_sums_fit_prefix(ds: Seq<(i64, i64)>, terms: Seq<(i64, usize)>, exclude: usize, k: int, n: int)
    requires
        0 <= k <= n,
        !sums_fit(ds, terms, exclude, k),
    ensures
        !sums_fit(ds, terms, exclude, n),
    decreases n - k,
{
    if k < n {
        lemma_sums_fit_prefix(ds, terms, exclude, k + 1, n);
    }
}

fn propagate_linear(domains: &mut Vec<IntDomain>, terms: &Vec<(i64, usize)>, rhs: i64, rel: CmpRel) -> (r: PropResult)
    requires
        forall|k: int| 0 <= k < terms@.len() ==> (#[trigger] terms@[k]).1 < old(domains)@.len(),
    ensures
        (r == PropResult::Success) == (linear_from(dview(old(domains)@), terms@, rhs as int, rel, 0) is Some),
        r == PropResult::Success ==> Some(dview(final(domains)@)) == linear_from(dview(old(domains)@), terms@, rhs as int, rel, 0),
        final(domains)@.len() == old(domains)@.len(),
        within_on(dview(old(domains)@), dview(final(domains)@), terms@.map_values(|p: (i64, usize)| p.1)),
{
    let ghost d0 = dview(domains@);
    let mut k: usize = 0;
    while k < terms.len()
        invariant
            k <= terms@.len(),
            domains@.len() == old(domains)@.len(),
            d0 == dview(old(domains)@),
            forall|m: int| 0 <= m < terms@.len() ==> (#[trigger] terms@[m]).1 < domains@.len(),
            linear_from(d0, terms@, rhs as int, rel, 0) == linear_from(dview(domains@), terms@, rhs as int, rel, k as int),
            within_on(d0, dview(domains@), terms@.map_values(|p: (i64, usize)| p.1)),
        decreases terms@.len() - k,
    {
        let (coeff, var) = terms[k];
        let ghost dk = dview(domains@);
        let ghost vs = terms@.map_values(|p: (i64, usize)| p.1);
        assert(vs[k as int] == var);
        let sums = min_max_sum_exec(domains, terms, var);
        if let Some((min_sum, max_sum)) = sums {
            let a = coeff as i128;
            let ok = match rel {
                CmpRel::Eq => {
                    let min_x = rhs as i128 - max_sum as i128;
                    let max_x = rhs as i128 - min_sum as i128;
                    if coeff > 0 {
                        lo_then_hi(domains, var, -div_floor(-min_x, a), div_floor(max_x, a))
                    } else if coeff < 0 {
                        lo_then_hi(domains, var, -div_floor(-max_x, a), div_floor(min_x, a))
                    } else {
                        true
                    }
                },
                CmpRel::Le => {
                    let t = rhs as i128 - min_sum as i128;
                    if coeff > 0 {
                        hi_at(domains, var, div_floor(t, a))
                    } else if coeff < 0 {
                        lo_at(domains, var, -div_floor(-t, a))
                    } else {
                        true
                    }
                },
                CmpRel::Ge => {
                    let t = rhs as i128 - max_sum as i128;
                    if coeff > 0 {
                        lo_at(domains, var, -div_floor(-t, a))
                    } else if coeff < 0 {
                        hi_at(domains, var, div_floor(t, a))
                    } else {
                        true
                    }
                },
            };
            proof {
                assert(within_on(dk, dview(domains@), seq![var]));
                lemma_within_step(d0, dk, dview(domains@), var, vs);
            }
            if !ok {
                return PropResult::Failure;
            }
        }
        k = k + 1;
    }
    PropResult::Success
}

impl Propagator {
    /// The variables this propagator constrains, in order.
    pub fn variables(&self) -> (r: Vec<usize>)
        ensures
            r@ == prop_vars(*self),
    {
        match self {
            Propagator::Eq(a, b) => vec![*a, *b],
            Propagator::Neq(a, b) => vec![*a, *b],
            Propagator::Lt(a, b) => vec![*a, *b],
            Propagator::Le(a, b, _) => vec![*a, *b],
            Propagator::Linear(terms, _, _) => {
                let mut out: Vec<usize> = Vec::new();
                let mut k: usize = 0;
                while k < terms.len()
                    invariant
                        k <= terms@.len(),
                        out@ == terms@.take(k as int).map_values(|p: (i64, usize)| p.1),
                    decreases terms@.len() - k,
                {
                    out.push(terms[k].1);
                    k = k + 1;
                    assert(out@ =~= terms@.take(k as int).map_values(|p: (i64, usize)| p.1));
                }
                assert(terms@.take(k as int) =~= terms@);
                out
            },
            Propagator::AllDifferent(vars) => {
                let mut out: Vec<usize> = Vec::new();
                let mut k: usize = 0;
                while k < vars.len()
                    invariant
                        k <= vars@.len(),
                        out@ == vars@.take(k as int),
                    decreases vars@.len() - k,
                {
                    out.push(vars[k]);
                    k = k + 1;
                    assert(out@ =~= vars@.take(k as int));
                }
                assert(vars@.take(k as int) =~= vars@);
                out
            },
        }
    }

    /// Run propagation: `Failure` when a domain empties, otherwise
    /// `Success` with the pruned domains (even if nothing changed). Either
    /// way every domain ends within where it started, and only the domains of
    /// the propagator's variables may change.
    pub fn propagate(&self, domains: &mut Vec<IntDomain>) -> (r: PropResult)
        requires
            vars_below(*self, old(domains)@.len() as int),
        ensures
            (r == PropResult::Success) == (propagate_spec(*self, dview(old(domains)@)) is Some),
            r == PropResult::Success ==> Some(dview(final(domains)@)) == propagate_spec(*self, dview(old(domains)@)),
            final(domains)@.len() == old(domains)@.len(),
            within_on(dview(old(domains)@), dview(final(domains)@), prop_vars(*self)),
    {
        match self {
            Propagator::Eq(x, y) => propagate_eq(domains, *x, *y),
            Propagator::Neq(x, y) => propagate_neq(domains, *x, *y),
            Propagator::Lt(x, y) => propagate_lt(domains, *x, *y),
            Propagator::Le(x, y, c) => propagate_le(domains, *x, *y, *c),
            Propagator::Linear(terms, rhs, rel) => propagate_linear(domains, terms, *rhs, *rel),
            Propagator::AllDifferent(vars) => propagate_all_diff(domains, vars),
        }
    }
}

/// `b` lies within `a`, and is non-empty when it differs from `a`.
pub open spec fn narrower(a: (i64, i64), b: (i64, i64)) -> bool {
    &&& a.0 <= b.0
    &&& b.1 <= a.1
    &&& b != a ==> b.0 <= b.1
}

/// Each domain of `b` lies within the matching one of `a`.
pub open spec fn seq_narrower(a: Seq<(i64, i64)>, b: Seq<(i64, i64)>) -> bool {
    &&& a.len() == b.len()
    &&& forall|i: int| 0 <= i < a.len() ==> narrower(#[trigger] a[i], b[i])
}

pub proof fn lemma_narrower_trans(a: Seq<(i64, i64)>, b: Seq<(i64, i64)>, c: Seq<(i64, i64)>)
    requires
        seq_narrower(a, b),
        seq_narrower(b, c),
    ensures
        seq_narrower(a, c),
{
    assert forall|i: int| 0 <= i < a.len() implies narrower(#[trigger] a[i], c[i]) by {
        assert(narrower(a[i], b[i]));
        assert(narrower(b[i], c[i]));
    }
}

proof fn lemma_step_narrows(st: Option<Seq<(i64, i64)>>, base: Seq<(i64, i64)>, i: int, v: int)
    requires
        st matches Some(ds) ==> seq_narrower(base, ds) && 0 <= i < ds.len(),
    ensures
        at_lo(st, i, v) matches Some(d2) ==> seq_narrower(base, d2),
        at_hi(st, i, v) matches Some(d2) ==> seq_narrower(base, d2),
        at_remove(st, i, v) matches Some(d2) ==> seq_narrower(base, d2),
{
    if let Some(ds) = st {
        assert forall|k: int| 0 <= k < base.len() implies narrower(#[trigger] base[k], ds[k]) by {
            assert(narrower(base[k], ds[k]));
        }
        if let Some(d2) = at_lo(st, i, v) {
            assert(seq_narrower(ds, d2));
            lemma_narrower_trans(base, ds, d2);
        }
        if let Some(d2) = at_hi(st, i, v) {
            assert(seq_narrower(ds, d2));
            lemma_narrower_trans(base, ds, d2);
        }
        if let Some(d2) = at_remove(st, i, v) {
            assert(seq_narrower(ds, d2));
            lemma_narrower_trans(base, ds, d2);
        }
    }
}

proof fn lemma_all_diff_inner_narrows(ds: Seq<(i64, i64)>, vars: Seq<usize>, i: int, v: int, j: int)
    requires
        forall|k: int| 0 <= k < vars.len() ==> #[trigger] vars[k] < ds.len(),
    ensures
        all_diff_inner(ds, vars, i, v, j) matches Some(d2) ==> seq_narrower(ds, d2),
    decreases vars.len() - j,
{
    if j >= vars.len() || j < 0 {
    } else if i != j && holds(ds[vars[j] as int], v) {
        if let Some(d) = remove_val(ds[vars[j] as int], v) {
            let d1 = ds.update(vars[j] as int, d);
            lemma_step_narrows(Some(ds), ds, vars[j] as int, v);
            lemma_all_diff_inner_narrows(d1, vars, i, v, j + 1);
            if let Some(d2) = all_diff_inner(d1, vars, i, v, j + 1) {
                lemma_narrower_trans(ds, d1, d2);
            }
        }
    } else {
        lemma_all_diff_inner_narrows(ds, vars, i, v, j + 1);
    }
}

proof fn lemma_all_diff_narrows(ds: Seq<(i64, i64)>, vars: Seq<usize>, i: int)
    requires
        forall|k: int| 0 <= k < vars.len() ==> #[trigger] vars[k] < ds.len(),
    ensures
        all_diff_from(ds, vars, i) matches Some(d2) ==> seq_narrower(ds, d2),
    decreases vars.len() - i,
{
    if i >= vars.len() || i < 0 {
    } else if fixed(ds[vars[i] as int]) {
        lemma_all_diff_inner_narrows(ds, vars, i, ds[vars[i] as int].0 as int, 0);
        if let Some(d1) = all_diff_inner(ds, vars, i, ds[vars[i] as int].0 as int, 0) {
            lemma_all_diff_narrows(d1, vars, i + 1);
            if let Some(d2) = all_diff_from(d1, vars, i + 1) {
                lemma_narrower_trans(ds, d1, d2);
            }
        }
    } else {
        lemma_all_diff_narrows(ds, vars, i + 1);
    }
}

/// One step of linear propagation only narrows domains.
pub proof fn lemma_linear_term_narrows(ds: Seq<(i64, i64)>, terms: Seq<(i64, usize)>, rhs: int, rel: CmpRel, k: int)
    requires
        forall|m: int| 0 <= m < terms.len() ==> (#[trigger] terms[m]).1 < ds.len(),
        0 <= k < terms.len(),
    ensures
        linear_term(ds, terms, rhs, rel, k) matches Some(d1) ==> seq_narrower(ds, d1),
{
    let (a, v) = terms[k];
    let vi = v as int;
    assert(terms[k].1 < ds.len());
    let (min_sum, max_sum) = min_max_sum(ds, terms, v, terms.len() as int);
    let ai = a as int;
    let (x, y) = match rel {
        CmpRel::Eq => if a > 0 {
            (ceil_div(rhs - max_sum, ai), floor_div(rhs - min_sum, ai))
        } else {
            (ceil_div(rhs - min_sum, ai), floor_div(rhs - max_sum, ai))
        },
        CmpRel::Le => (ceil_div(rhs - min_sum, ai), floor_div(rhs - min_sum, ai)),
        CmpRel::Ge => (ceil_div(rhs - max_sum, ai), floor_div(rhs - max_sum, ai)),
    };
    lemma_step_narrows(Some(ds), ds, vi, x);
    lemma_step_narrows(Some(ds), ds, vi, y);
    lemma_step_narrows(at_lo(Some(ds), vi, x), ds, vi, y);
}

proof fn lemma_linear_narrows(ds: Seq<(i64, i64)>, terms: Seq<(i64, usize)>, rhs: int, rel: CmpRel, k: int)
    requires
        forall|m: int| 0 <= m < terms.len() ==> (#[trigger] terms[m]).1 < ds.len(),
    ensures
        linear_from(ds, terms, rhs, rel, k) matches Some(d2) ==> seq_narrower(ds, d2),
    decreases terms.len() - k,
{
    if k >= terms.len() || k < 0 {
    } else {
        lemma_linear_term_narrows(ds, terms, rhs, rel, k);
        if let Some(d1) = linear_term(ds, terms, rhs, rel, k) {
            lemma_linear_narrows(d1, terms, rhs, rel, k + 1);
            if let Some(d2) = linear_from(d1, terms, rhs, rel, k + 1) {
                lemma_narrower_trans(ds, d1, d2);
            }
        }
    }
}

/// Propagation only narrows domains: every domain after a successful
/// propagation lies within the domain before it, and a domain it changed is
/// non-empty.
pub proof fn lemma_propagate_narrows(p: Propagator, ds: Seq<(i64, i64)>)
    requires
        vars_below(p, ds.len() as int),
    ensures
        propagate_spec(p, ds) matches Some(d2) ==> seq_narrower(ds, d2),
{
    match p {
        Propagator::Eq(x, y) => {
            let lb = if ds[x as int].0 >= ds[y as int].0 { ds[x as int].0 } else { ds[y as int].0 };
            let ub = if ds[x as int].1 <= ds[y as int].1 { ds[x as int].1 } else { ds[y as int].1 };
            let s1 = at_lo(Some(ds), x as int, lb as int);
            lemma_step_narrows(Some(ds), ds, x as int, lb as int);
            lemma_step_narrows(s1, ds, y as int, lb as int);
            let s2 = at_lo(s1, y as int, lb as int);
            lemma_step_narrows(s2, ds, x as int, ub as int);
            let s3 = at_hi(s2, x as int, ub as int);
            lemma_step_narrows(s3, ds, y as int, ub as int);
        },
        Propagator::Neq(x, y) => {
            lemma_step_narrows(Some(ds), ds, y as int, ds[x as int].0 as int);
            let s1 = if fixed(ds[x as int]) && holds(ds[y as int], ds[x as int].0 as int) {
                at_remove(Some(ds), y as int, ds[x as int].0 as int)
            } else {
                Some(ds)
            };
            if let Some(d1) = s1 {
                lemma_step_narrows(Some(d1), ds, x as int, d1[y as int].0 as int);
            }
        },
        Propagator::Lt(x, y) => {
            lemma_step_narrows(Some(ds), ds, x as int, ds[y as int].0 - 1);
            lemma_step_narrows(at_hi(Some(ds), x as int, ds[y as int].0 - 1), ds, y as int, ds[x as int].1 + 1);
        },
        Propagator::Le(x, y, c) => {
            lemma_step_narrows(Some(ds), ds, x as int, ds[y as int].1 + c);
            lemma_step_narrows(at_hi(Some(ds), x as int, ds[y as int].1 + c), ds, y as int, ds[x as int].0 - c);
        },
        Propagator::Linear(t, rhs, rel) => {
            lemma_linear_narrows(ds, t@, rhs as int, rel, 0);
        },
        Propagator::AllDifferent(v) => {
            lemma_all_diff_narrows(ds, v@, 0);
        },
    }
}

/// Whether every variable `p` names is below `n`.
pub fn prop_vars_below(p: &Propagator, n: usize) -> (b: bool)
    ensures
        b == vars_below(*p, n as int),
{
    match p {
        Propagator::Eq(a, b) => *a < n && *b < n,
        Propagator::Neq(a, b) => *a < n && *b < n,
        Propagator::Lt(a, b) => *a < n && *b < n,
        Propagator::Le(a, b, _) => *a < n && *b < n,
        Propagator::Linear(t, _, _) => terms_below(t, n),
        Propagator::AllDifferent(v) => ids_below(v, n),
    }
}

/// Whether every term's variable is below `n`.
fn terms_below(t: &Vec<(i64, usize)>, n: usize) -> (b: bool)
    ensures
        b == (forall|k: int| 0 <= k < t@.len() ==> (#[trigger] t@[k]).1 < n),
{
    let mut k: usize = 0;
    while k < t.len()
        invariant
            k <= t@.len(),
            forall|j: int| 0 <= j < k ==> (#[trigger] t@[j]).1 < n,
        decreases t@.len() - k,
    {
        if t[k].1 >= n {
            assert(t@[k as int].1 >= n);
            return false;
        }
        k = k + 1;
    }
    true
}

/// Whether every id is below `n`.
fn ids_below(v: &Vec<usize>, n: usize) -> (b: bool)
    ensures
        b == (forall|k: int| 0 <= k < v@.len() ==> #[trigger] v@[k] < n),
{
    let mut k: usize = 0;
    while k < v.len()
        invariant
            k <= v@.len(),
            forall|j: int| 0 <= j < k ==> #[trigger] v@[j] < n,
        decreases v@.len() - k,
    {
        if v[k] >= n {
            assert(v@[k as int] >= n);
            return false;
        }
        k = k + 1;
    }
    true
}

} // verus!
