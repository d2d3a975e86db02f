//! The two-phase simplex method with exact rational arithmetic.
use vstd::prelude::*;
use crate::common::{Config, UnknownReason, Var};
use crate::linear::rational::{Rational, rat_neg, div_ok, rat_div};
use crate::linear::expr::{LinearTerm, rat_zero};
use crate::linear::constraint::{CmpOp, LinearConstraint, Objective, check_ok, satisfied};
use crate::linear::expr_ops::{eval_ok, eval_terms};
use crate::linear::system::LinearSystem;
use crate::lp::tableau::{
    Tableau, copy_row, is_entering, leaving_ok, leaving_row_of, eliminated_row, pivot_ok, row_op_ok, value_of_column,
};
use crate::lp::standard_form::{
    build_initial_tableau, check_lp_input, lp_input_ok, artificial_cols, column_map, struct_cols,
    total_cols, terms_in_range, extra_count, write_row_terms, write_terms, lemma_artificial_in_range,
    lemma_built_basic_in_range, lemma_extra_count_bound,
};

verus! {

/// The most pivots one simplex run makes before it gives up.
pub const MAX_PIVOTS: u64 = 1000000;

/// The outcome of solving a linear program exactly.
#[derive(Debug, Clone, PartialEq)]
pub enum LpOutcome {
    /// An optimal vertex: each variable of the system with its value, and
    /// the objective value.
    Optimal(Vec<(Var, Rational)>, Rational),
    /// No point satisfies the constraints.
    Infeasible,
    /// The objective improves without bound.
    Unbounded,
    /// No decision was reached.
    Unknown(UnknownReason),
}

/// Result of a simplex run.
#[derive(Debug, Clone, PartialEq)]
enum PhaseResult {
    Optimal,
    Unbounded,
    Stopped(UnknownReason),
}

/// No reduced cost of the objective row is positive: the basis is optimal.
pub open spec fn optimal_tableau(t: Tableau) -> bool {
    is_entering(t.cells()[0], t.num_cols - 1, None)
}

/// Column `e` is the entering column and the ratio test finds no row with
/// a basic variable to leave.
pub open spec fn unbounded_tableau(t: Tableau, e: usize) -> bool {
    &&& is_entering(t.cells()[0], t.num_cols - 1, Some(e))
    &&& match leaving_row_of(t.cells(), e as int, t.num_cols - 1) {
        None => true,
        Some(b) => t.basic@[b] is None,
    }
}

/// Every basic column is a column of the tableau.
pub open spec fn basics_in_range(t: Tableau) -> bool {
    forall|r: int| 0 <= r < t.basic@.len() && (#[trigger] t.basic@[r]) is Some ==> t.basic@[r]->0 < t.num_cols
}

/// Every constraint row has a non-negative right-hand side.
pub open spec fn rhs_nonneg(t: Tableau) -> bool {
    forall|r: int| 1 <= r < t.cells().len() ==> (#[trigger] t.cells()[r])[t.num_cols - 1].spec_num() >= 0
}

/// The row with every entry negated.
pub open spec fn negated_row(row: Seq<Rational>) -> Seq<Rational> {
    Seq::new(row.len(), |j: int| rat_neg(row[j]))
}

/// Every entry of the row can be negated in `i64`.
pub open spec fn row_negatable(row: Seq<Rational>) -> bool {
    forall|j: int| 0 <= j < row.len() ==> (#[trigger] row[j]).spec_num() != i64::MIN
}

/// The model read off a tableau: each variable with the value of its column.
pub open spec fn model_of(t: Tableau, vars: Seq<Var>) -> Seq<(Var, Rational)> {
    Seq::new(vars.len(), |k: int| (vars[k], value_of_column(t.cells(), t.basic@, k as usize, t.num_cols - 1)))
}

/// The objective value reported for a final tableau: the value in row 0,
/// negated back for a maximisation.
pub open spec fn reported_objective(t: Tableau, obj: Objective) -> Rational {
    if obj is Maximise {
        rat_neg(t.cells()[0][t.num_cols - 1])
    } else {
        t.cells()[0][t.num_cols - 1]
    }
}

/// The point a tableau stands for: each variable at the value of its column.
pub open spec fn tab_point(t: Tableau) -> spec_fn(Var) -> Rational {
    |v: Var| value_of_column(t.cells(), t.basic@, v.0, t.num_cols - 1)
}

/// The point of `t` satisfies every constraint of `s` (each evaluated
/// within `i64`), every variable's value is non-negative, and `obj` is the
/// objective's value there.
pub open spec fn point_checked(s: LinearSystem, t: Tableau, vals: Seq<(Var, Rational)>, obj: Rational) -> bool {
    &&& forall|i: int|
        0 <= i < s.spec_constraints().len() ==> check_ok(#[trigger] s.spec_constraints()[i], tab_point(t)) && satisfied(
            s.spec_constraints()[i],
            tab_point(t),
        )
    &&& forall|k: int| 0 <= k < vals.len() ==> (#[trigger] vals[k]).1.spec_num() >= 0
    &&& match s.spec_objective() {
        Objective::Minimise(e) => eval_ok(e.terms@, e.constant, tab_point(t)) && obj == eval_terms(
            e.terms@,
            e.constant,
            tab_point(t),
        ),
        Objective::Maximise(e) => eval_ok(e.terms@, e.constant, tab_point(t)) && obj == eval_terms(
            e.terms@,
            e.constant,
            tab_point(t),
        ),
        Objective::Feasibility => true,
    }
}

/// `c + Σ terms` at the point of `t`, or `None` when a product or a partial
/// sum leaves `i64`.
fn eval_at_point(t: &Tableau, terms: &Vec<LinearTerm>, c: Rational) -> (r: Option<Rational>)
    requires
        t.wf(),
    ensures
        r matches Some(x) ==> eval_ok(terms@, c, tab_point(*t)) && x == eval_terms(terms@, c, tab_point(*t)),
{
    let ghost pt = tab_point(*t);
    let mut sum = c;
    let mut i: usize = 0;
    while i < terms.len()
        invariant
            t.wf(),
            pt == tab_point(*t),
            i <= terms@.len(),
            eval_ok(terms@.take(i as int), c, pt),
            sum == eval_terms(terms@.take(i as int), c, pt),
        decreases terms@.len() - i,
    {
        let term = terms[i];
        let x = t.variable_value(term.var.0);
        assert(x == pt(term.var));
        let p = match term.coefficient.checked_mul(x) {
            Some(p) => p,
            None => {
                return None;
            },
        };
        let next = match sum.checked_add(p) {
            Some(v) => v,
            None => {
                return None;
            },
        };
        proof {
            let s1 = terms@.take(i + 1);
            assert(s1.drop_last() =~= terms@.take(i as int));
            assert(s1.last() == term);
        }
        sum = next;
        i = i + 1;
    }
    assert(terms@.take(i as int) =~= terms@);
    Some(sum)
}

/// Check the point of the final tableau against the system: every
/// constraint holds there, every variable's value is non-negative, and the
/// objective there is `obj`.
fn check_point(system: &LinearSystem, t: &Tableau, vals: &Vec<(Var, Rational)>, obj: Rational) -> (b: bool)
    requires
        t.wf(),
    ensures
        b ==> point_checked(*system, *t, vals@, obj),
{
    let cs = system.constraints();
    let mut i: usize = 0;
    while i < cs.len()
        invariant
            t.wf(),
            cs@ == system.spec_constraints(),
            i <= cs@.len(),
            forall|k: int| 0 <= k < i ==> check_ok(#[trigger] cs@[k], tab_point(*t)) && satisfied(cs@[k], tab_point(*t)),
        decreases cs@.len() - i,
    {
        let c = &cs[i];
        let v = match eval_at_point(t, &c.expr.terms, c.expr.constant) {
            Some(v) => v,
            None => {
                return false;
            },
        };
        let holds = match c.op {
            CmpOp::Eq => v.is_zero(),
            CmpOp::Le => !v.is_positive(),
            CmpOp::Ge => !v.is_negative(),
        };
        if !holds {
            return false;
        }
        i = i + 1;
    }
    let mut k: usize = 0;
    while k < vals.len()
        invariant
            k <= vals@.len(),
            forall|m: int| 0 <= m < k ==> (#[trigger] vals@[m]).1.spec_num() >= 0,
        decreases vals@.len() - k,
    {
        if vals[k].1.is_negative() {
            return false;
        }
        k = k + 1;
    }
    match system.objective() {
        Objective::Minimise(e) => match eval_at_point(t, &e.terms, e.constant) {
            Some(v) => v == obj,
            None => false,
        },
        Objective::Maximise(e) => match eval_at_point(t, &e.terms, e.constant) {
            Some(v) => v == obj,
            None => false,
        },
        Objective::Feasibility => true,
    }
}

/// What the solver's answer says about a system and the final tableau: an
/// optimum is an optimal tableau whose point satisfies every constraint of
/// the system, with the objective's value there; unboundedness is a tableau
/// on which the ratio test finds no leaving row; infeasibility comes only
/// with artificial columns; `Unknown` names its reason. Optimality over all
/// feasible points, infeasibility of the system, and when `Unknown` comes are
/// not stated.
pub open spec fn outcome_holds(s: LinearSystem, res: LpOutcome, tab: Option<Tableau>) -> bool {
    match res {
        LpOutcome::Optimal(vals, obj) => {
            &&& lp_input_ok(s)
            &&& tab matches Some(t)
            &&& t.wf()
            &&& optimal_tableau(t)
            &&& vals@ == model_of(t, s.spec_vars())
            &&& obj == reported_objective(t, s.spec_objective())
            &&& point_checked(s, t, vals@, obj)
        },
        LpOutcome::Unbounded => {
            &&& lp_input_ok(s)
            &&& tab matches Some(t)
            &&& t.wf()
            &&& exists|e: usize| unbounded_tableau(t, e)
        },
        LpOutcome::Infeasible => {
            &&& lp_input_ok(s)
            &&& artificial_cols(s.spec_vars().len() as int, s.spec_constraints()).len() > 0
        },
        LpOutcome::Unknown(r) => {
            ||| r is NumericalIssue
            ||| r is ResourceLimit
            ||| (r is InternalReason && !lp_input_ok(s))
        },
    }
}

/// Negate a whole row; `false` (and nothing changed) when an entry is `i64::MIN`.
fn negate_row(t: &mut Tableau, row: usize) -> (ok: bool)
    requires
        old(t).wf(),
        row < old(t).cells().len(),
    ensures
        final(t).wf(),
        final(t).basic@ == old(t).basic@,
        final(t).num_struct == old(t).num_struct,
        final(t).num_constraints == old(t).num_constraints,
        final(t).num_cols == old(t).num_cols,
        ok == row_negatable(old(t).cells()[row as int]),
        ok ==> final(t).cells() == old(t).cells().update(row as int, negated_row(old(t).cells()[row as int])),
        !ok ==> final(t).cells() == old(t).cells(),
{
    let ghost src = t.cells()[row as int];
    let mut out: Vec<Rational> = Vec::new();
    let mut j: usize = 0;
    while j < t.num_cols
        invariant
            t.wf(),
            row < t.cells().len(),
            src == t.cells()[row as int],
            src.len() == t.num_cols,
            j <= t.num_cols,
            out@.len() == j,
            forall|k: int| 0 <= k < j ==> (#[trigger] src[k]).spec_num() != i64::MIN,
            forall|k: int| 0 <= k < j ==> #[trigger] out@[k] == rat_neg(src[k]),
        decreases t.num_cols - j,
    {
        let x = *t.get(row, j);
        assert(src[j as int] == x);
        let y = match x.checked_neg() {
            None => {
                assert(!row_negatable(src));
                return false;
            },
            Some(y) => y,
        };
        out.push(y);
        j = j + 1;
    }
    assert(out@ =~= negated_row(src));
    t.replace_row(row, out);
    true
}

/// `target -= f * source`, row-wise; `false` (and nothing changed) when a
/// step would leave `i64`.
fn subtract_row(t: &mut Tableau, target: usize, f: Rational, source: usize) -> (ok: bool)
    requires
        old(t).wf(),
        target < old(t).cells().len(),
        source < old(t).cells().len(),
    ensures
        final(t).wf(),
        final(t).basic@ == old(t).basic@,
        final(t).num_struct == old(t).num_struct,
        final(t).num_constraints == old(t).num_constraints,
        final(t).num_cols == old(t).num_cols,
        ok == row_op_ok(old(t).cells()[target as int], f, old(t).cells()[source as int]),
        ok ==> final(t).cells() == old(t).cells().update(
            target as int,
            eliminated_row(old(t).cells()[target as int], f, old(t).cells()[source as int]),
        ),
        !ok ==> final(t).cells() == old(t).cells(),
{
    let ghost dst = t.cells()[target as int];
    let ghost src = t.cells()[source as int];
    let mut out: Vec<Rational> = Vec::new();
    let mut j: usize = 0;
    while j < t.num_cols
        invariant
            t.wf(),
            target < t.cells().len(),
            source < t.cells().len(),
            dst == t.cells()[target as int],
            src == t.cells()[source as int],
            j <= t.num_cols,
            out@.len() == j,
            row_op_ok(dst.take(j as int), f, src),
            forall|k: int| 0 <= k < j ==> out@[k] == crate::linear::rational::rat_sub(
                dst[k],
                crate::linear::rational::rat_mul(f, src[k]),
            ),
        decreases t.num_cols - j,
    {
        let a = *t.get(target, j);
        let b = *t.get(source, j);
        assert(dst.take(j as int + 1) =~= dst.take(j as int).push(a));
        match f.checked_mul(b) {
            None => {
                assert(src[j as int] == b);
                assert(!row_op_ok(dst, f, src));
                return false;
            },
            Some(p) => {
                match a.checked_sub(p) {
                    None => {
                        assert(src[j as int] == b);
                        assert(dst[j as int] == a);
                        assert(!row_op_ok(dst, f, src));
                        return false;
                    },
                    Some(v) => {
                        out.push(v);
                    },
                }
            },
        }
        j = j + 1;
    }
    assert(dst.take(j as int) =~= dst);
    assert(out@ =~= eliminated_row(dst, f, src));
    t.replace_row(target, out);
    true
}

/// Phase II: optimise the objective of row 0 by pivoting until no reduced
/// cost is positive, or no row can leave.
/// The simplex method stops at `t` on reason `r` with entering column `e`:
/// a numerical issue when the ratio test or the pivot cannot be computed in
/// `i64`, the pivot limit when a pivot on a leaving row was due.
pub open spec fn stuck_at(t: Tableau, e: usize, r: UnknownReason) -> bool {
    let d = t.cells();
    let last = t.num_cols - 1;
    &&& is_entering(d[0], last, Some(e))
    &&& match r {
        UnknownReason::NumericalIssue => !leaving_ok(d, e as int, last) || match leaving_row_of(d, e as int, last) {
            Some(b) => t.basic@[b] is Some && !(d[b][e as int].spec_num() != 0 && pivot_ok(d, b, e as int)),
            None => false,
        },
        UnknownReason::ResourceLimit => leaving_ok(d, e as int, last) && match leaving_row_of(d, e as int, last) {
            Some(b) => t.basic@[b] is Some,
            None => false,
        },
        _ => false,
    }
}

fn phase_ii(t: &mut Tableau) -> (res: PhaseResult)
    requires
        old(t).wf(),
        basics_in_range(*old(t)),
    ensures
        final(t).wf(),
        basics_in_range(*final(t)),
        final(t).num_struct == old(t).num_struct,
        final(t).num_constraints == old(t).num_constraints,
        final(t).num_cols == old(t).num_cols,
        res is Optimal ==> optimal_tableau(*final(t)),
        res is Unbounded ==> exists|e: usize| unbounded_tableau(*final(t), e),
        res matches PhaseResult::Stopped(r) ==> (r is NumericalIssue || r is ResourceLimit),
        res matches PhaseResult::Stopped(r) ==> exists|e: usize| #[trigger] stuck_at(*final(t), e, r),
{
    let ghost ns = t.num_struct;
    let ghost nc = t.num_constraints;
    let ghost ncols = t.num_cols;
    let mut pivots: u64 = 0;
    loop
        invariant
            t.wf(),
            basics_in_range(*t),
            t.num_struct == ns,
            t.num_constraints == nc,
            t.num_cols == ncols,
            ns == old(t).num_struct,
            nc == old(t).num_constraints,
            ncols == old(t).num_cols,
            pivots <= MAX_PIVOTS,
        decreases MAX_PIVOTS - pivots,
    {
        match t.find_entering() {
            None => {
                return PhaseResult::Optimal;
            },
            Some(e) => {
                if !t.can_ratio_test(e) {
                    assert(stuck_at(*t, e, UnknownReason::NumericalIssue));
                    return PhaseResult::Stopped(UnknownReason::NumericalIssue);
                }
                match t.find_leaving(e) {
                    None => {
                        assert(unbounded_tableau(*t, e));
                        return PhaseResult::Unbounded;
                    },
                    Some((r, _)) => {
                        if pivots == MAX_PIVOTS {
                            assert(stuck_at(*t, e, UnknownReason::ResourceLimit));
                            return PhaseResult::Stopped(UnknownReason::ResourceLimit);
                        }
                        let ghost before = t.basic@;
                        let ghost t0 = *t;
                        if !t.try_pivot(r, e) {
                            assert(t.cells() == t0.cells() && t.basic@ == t0.basic@);
                            assert(stuck_at(*t, e, UnknownReason::NumericalIssue));
                            return PhaseResult::Stopped(UnknownReason::NumericalIssue);
                        }
                        assert forall|k: int| 0 <= k < t.basic@.len() && (#[trigger] t.basic@[k]) is Some
                            implies t.basic@[k]->0 < t.num_cols by {
                            if k != r {
                                assert(t.basic@[k] == before[k]);
                            }
                        }
                        pivots = pivots + 1;
                    },
                }
            },
        }
    }
}

/// Whether `col` is one of `cols`.
fn contains_col(cols: &Vec<usize>, col: usize) -> (b: bool)
    ensures
        b == cols@.contains(col),
{
    let mut i: usize = 0;
    while i < cols.len()
        invariant
            i <= cols@.len(),
            forall|k: int| 0 <= k < i ==> cols@[k] != col,
        decreases cols@.len() - i,
    {
        if cols[i] == col {
            assert(cols@[i as int] == col);
            return true;
        }
        i = i + 1;
    }
    false
}

/// The cells with every constraint row whose right-hand side (column
/// `last`) is negative negated.
pub open spec fn rhs_fixed_cells(d: Seq<Seq<Rational>>, last: int) -> Seq<Seq<Rational>> {
    Seq::new(d.len(), |r: int| if r >= 1 && d[r][last].spec_num() < 0 { negated_row(d[r]) } else { d[r] })
}

/// Every constraint row with a negative right-hand side can be negated.
pub open spec fn negative_rows_negatable(d: Seq<Seq<Rational>>, last: int) -> bool {
    forall|r: int| 1 <= r < d.len() && (#[trigger] d[r])[last].spec_num() < 0 ==> row_negatable(d[r])
}

/// The objective row `row` re-expressed over the non-basic columns of
/// `d`, rows `r..` in turn: for a row whose basic column has a non-zero
/// entry there and in the objective row, that multiple of the row is
/// subtracted which clears the objective's entry.
pub open spec fn reprice(row: Seq<Rational>, d: Seq<Seq<Rational>>, basic: Seq<Option<usize>>, r: int) -> Seq<Rational>
    decreases d.len() - r,
{
    if r < 1 || r >= d.len() {
        row
    } else {
        let next = match basic[r] {
            Some(bc) => if d[r][bc as int].spec_num() != 0 && row[bc as int].spec_num() != 0 {
                eliminated_row(row, rat_div(row[bc as int], d[r][bc as int]), d[r])
            } else {
                row
            },
            None => row,
        };
        reprice(next, d, basic, r + 1)
    }
}

/// Phase I: find a feasible basis by minimising the sum of the artificial
/// variables, then restore the original objective row and re-express it
/// over the non-basic columns. `Ok(false)` when no feasible basis exists.
fn phase_i(t: &mut Tableau, artificial: &Vec<usize>) -> (res: Result<bool, UnknownReason>)
    requires
        old(t).wf(),
        basics_in_range(*old(t)),
        forall|k: int| 0 <= k < artificial@.len() ==> #[trigger] artificial@[k] < old(t).num_cols,
    ensures
        final(t).wf(),
        basics_in_range(*final(t)),
        final(t).num_struct == old(t).num_struct,
        final(t).num_constraints == old(t).num_constraints,
        final(t).num_cols == old(t).num_cols,
        res matches Err(r) ==> (r is NumericalIssue || r is ResourceLimit),
        res is Ok ==> negative_rows_negatable(old(t).cells(), old(t).num_cols - 1),
        artificial@.len() == 0 ==> {
            &&& (res == Ok::<bool, UnknownReason>(true)) == negative_rows_negatable(old(t).cells(), old(t).num_cols - 1)
            &&& res != Ok::<bool, UnknownReason>(true) ==> res == Err::<bool, UnknownReason>(UnknownReason::NumericalIssue)
            &&& res is Ok ==> final(t).cells() == rhs_fixed_cells(old(t).cells(), old(t).num_cols - 1)
            &&& final(t).basic@ == old(t).basic@
        },
        res == Ok::<bool, UnknownReason>(true) && artificial@.len() > 0 ==> exists|aux: Tableau|
            #![trigger optimal_tableau(aux)]
            {
                &&& aux.wf()
                &&& optimal_tableau(aux)
                &&& aux.cells()[0][aux.num_cols - 1].spec_num() == 0
                &&& aux.num_cols == final(t).num_cols
                &&& aux.basic@ == final(t).basic@
                &&& aux.cells().len() == final(t).cells().len()
                &&& (forall|r: int| 1 <= r < aux.cells().len() ==> #[trigger] final(t).cells()[r] == aux.cells()[r])
                &&& final(t).cells()[0] == reprice(old(t).cells()[0], aux.cells(), aux.basic@, 1)
            },
        res == Ok::<bool, UnknownReason>(false) ==> {
            &&& artificial@.len() > 0
            &&& (optimal_tableau(*final(t)) && final(t).cells()[0][final(t).num_cols - 1].spec_num() != 0)
                || exists|e: usize| unbounded_tableau(*final(t), e)
        },
        artificial@.len() == 0 && rhs_nonneg(*old(t)) ==> {
            &&& res == Ok::<bool, UnknownReason>(true)
            &&& final(t).cells() == old(t).cells()
            &&& final(t).basic@ == old(t).basic@
        },
{
    let ghost ns = t.num_struct;
    let ghost nc = t.num_constraints;
    let ghost ncols = t.num_cols;
    let ghost start = *t;
    let nrows = t.num_rows();
    let last = t.num_cols - 1;
    // Make every right-hand side non-negative.
    let mut row: usize = 1;
    while row < nrows
        invariant
            t.wf(),
            basics_in_range(*t),
            t.num_struct == ns,
            t.num_constraints == nc,
            t.num_cols == ncols,
            ns == old(t).num_struct,
            nc == old(t).num_constraints,
            ncols == old(t).num_cols,
            nrows == t.cells().len(),
            last == t.num_cols - 1,
            1 <= row <= nrows,
            t.basic@ == start.basic@,
            rhs_nonneg(start) ==> t.cells() == start.cells(),
            start.num_cols == ncols,
            start == *old(t),
            nrows == start.cells().len(),
            forall|r: int|
                0 <= r < nrows ==> #[trigger] t.cells()[r] == if r < row {
                    rhs_fixed_cells(start.cells(), last as int)[r]
                } else {
                    start.cells()[r]
                },
            forall|r: int|
                1 <= r < row && (#[trigger] start.cells()[r])[last as int].spec_num() < 0 ==> row_negatable(start.cells()[r]),
        decreases nrows - row,
    {
        let ghost before = t.cells();
        assert(before[row as int] == start.cells()[row as int]);
        if t.rhs(row).is_negative() {
            proof {
                if rhs_nonneg(start) {
                    assert(start.cells()[row as int][start.num_cols - 1].spec_num() >= 0);
                }
            }
            if !negate_row(t, row) {
                return Err(UnknownReason::NumericalIssue);
            }
        }
        row = row + 1;
    }
    assert(t.cells() =~= rhs_fixed_cells(start.cells(), last as int));
    if artificial.len() == 0 {
        return Ok(true);
    }
    // Save the original objective and set up the auxiliary one.
    let orig_obj = copy_row(t.row(0));
    let mut zero_row: Vec<Rational> = Vec::new();
    let mut j: usize = 0;
    while j < t.num_cols
        invariant
            j <= t.num_cols,
            zero_row@.len() == j,
        decreases t.num_cols - j,
    {
        zero_row.push(Rational::zero());
        j = j + 1;
    }
    t.replace_row(0, zero_row);
    let mut k: usize = 0;
    while k < artificial.len()
        invariant
            t.wf(),
            basics_in_range(*t),
            t.num_struct == ns,
            t.num_constraints == nc,
            t.num_cols == ncols,
            ns == old(t).num_struct,
            nc == old(t).num_constraints,
            ncols == old(t).num_cols,
            forall|m: int| 0 <= m < artificial@.len() ==> #[trigger] artificial@[m] < ncols,
            k <= artificial@.len(),
            artificial@.len() > 0,
        decreases artificial@.len() - k,
    {
        t.set_obj_coeff(artificial[k], Rational::neg_one());
        k = k + 1;
    }
    // Eliminate basic artificial variables from the objective row.
    row = 1;
    while row < nrows
        invariant
            t.wf(),
            basics_in_range(*t),
            t.num_struct == ns,
            t.num_constraints == nc,
            t.num_cols == ncols,
            ns == old(t).num_struct,
            nc == old(t).num_constraints,
            ncols == old(t).num_cols,
            nrows == t.cells().len(),
            1 <= row <= nrows,
            artificial@.len() > 0,
        decreases nrows - row,
    {
        if let Some(bc) = t.basic[row] {
            if contains_col(artificial, bc) {
                let p = *t.get(0, bc);
                if !p.is_zero() {
                    if !subtract_row(t, 0, p, row) {
                        return Err(UnknownReason::NumericalIssue);
                    }
                }
            }
        }
        row = row + 1;
    }
    // Run the simplex method on the auxiliary problem.
    match phase_ii(t) {
        PhaseResult::Optimal => {},
        PhaseResult::Unbounded => {
            return Ok(false);
        },
        PhaseResult::Stopped(r) => {
            return Err(r);
        },
    }
    let aux = t.objective_value();
    if !aux.is_zero() {
        return Ok(false);
    }
    // Restore the original objective and re-express it over the non-basic columns.
    let ghost aux = *t;
    let ghost orig = orig_obj@;
    t.replace_row(0, orig_obj);
    row = 1;
    while row < nrows
        invariant
            aux.wf(),
            optimal_tableau(aux),
            aux.cells()[0][aux.num_cols - 1].spec_num() == 0,
            aux.num_cols == ncols,
            nrows == aux.cells().len(),
            t.basic@ == aux.basic@,
            basics_in_range(aux),
            t.cells().len() == nrows,
            forall|r: int| 1 <= r < nrows ==> #[trigger] t.cells()[r] == aux.cells()[r],
            reprice(t.cells()[0], aux.cells(), aux.basic@, row as int) == reprice(orig, aux.cells(), aux.basic@, 1),
            orig == old(t).cells()[0],
            t.wf(),
            basics_in_range(*t),
            t.num_struct == ns,
            t.num_constraints == nc,
            t.num_cols == ncols,
            ns == old(t).num_struct,
            nc == old(t).num_constraints,
            ncols == old(t).num_cols,
            nrows == t.cells().len(),
            1 <= row <= nrows,
            artificial@.len() > 0,
        decreases nrows - row,
    {
        if let Some(bc) = t.basic[row] {
            let pv = *t.get(row, bc);
            if !pv.is_zero() {
                let factor = *t.get(0, bc);
                if !factor.is_zero() {
                    match factor.checked_div(pv) {
                        None => {
                            return Err(UnknownReason::NumericalIssue);
                        },
                        Some(ratio) => {
                            if !subtract_row(t, 0, ratio, row) {
                                return Err(UnknownReason::NumericalIssue);
                            }
                        },
                    }
                }
            }
        }
        row = row + 1;
    }
    Ok(true)
}

/// The model of the final tableau: for each original column (in column
/// order), its variable and value.
fn extract_model(tableau: &Tableau, col_map: &Vec<(Var, bool)>, system: &LinearSystem) -> (m: Vec<(Var, Rational)>)
    requires
        tableau.wf(),
        col_map@ == column_map(system.spec_vars(), system.spec_constraints()),
    ensures
        m@ == model_of(*tableau, system.spec_vars()),
{
    let ghost vars = system.spec_vars();
    let ghost extras = crate::lp::standard_form::extras_map(system.spec_constraints());
    proof {
        lemma_extras_not_original(system.spec_constraints());
    }
    let mut out: Vec<(Var, Rational)> = Vec::new();
    let mut col: usize = 0;
    while col < col_map.len()
        invariant
            tableau.wf(),
            col_map@ == vars.map_values(|v: Var| (v, true)) + extras,
            forall|k: int| 0 <= k < extras.len() ==> !(#[trigger] extras[k]).1,
            col <= col_map@.len(),
            out@ == model_of(*tableau, vars.take(if col <= vars.len() { col as int } else { vars.len() as int })),
        decreases col_map@.len() - col,
    {
        let (var, is_original) = col_map[col];
        if is_original {
            assert(col < vars.len()) by {
                if col >= vars.len() {
                    assert(col_map@[col as int] == extras[col - vars.len()]);
                }
            }
            let val = tableau.variable_value(col);
            out.push((var, val));
            assert(out@ =~= model_of(*tableau, vars.take(col as int + 1)));
        } else {
            assert(col >= vars.len()) by {
                if col < vars.len() {
                    assert(col_map@[col as int] == (vars[col as int], true));
                }
            }
        }
        col = col + 1;
    }
    assert(vars.take(vars.len() as int) =~= vars);
    out
}

proof fn lemma_extras_not_original(cs: Seq<crate::linear::constraint::LinearConstraint>)
    ensures
        forall|k: int| 0 <= k < crate::lp::standard_form::extras_map(cs).len()
            ==> !(#[trigger] crate::lp::standard_form::extras_map(cs)[k]).1,
    decreases cs.len(),
{
    if cs.len() > 0 {
        lemma_extras_not_original(cs.drop_last());
        let a = crate::lp::standard_form::extras_map(cs.drop_last());
        let b = crate::lp::standard_form::extra_tags(cs.len() - 1, cs.last());
        assert forall|k: int| 0 <= k < (a + b).len() implies !(#[trigger] (a + b)[k]).1 by {
            if k >= a.len() {
                assert((a + b)[k] == b[k - a.len()]);
            }
        }
    }
}

/// Solve the linear program of `system`: returns the outcome, the final
/// tableau and the column map.
fn solve_system(system: &LinearSystem) -> (res: (LpOutcome, Option<Tableau>, Vec<(Var, bool)>))
    ensures
        outcome_holds(*system, res.0, res.1),
{
    if !check_lp_input(system) {
        return (
            LpOutcome::Unknown(UnknownReason::InternalReason(String::from_str("variable index out of range"))),
            None,
            Vec::new(),
        );
    }
    // 1. Standard form.
    let built = build_initial_tableau(system);
    let (mut tableau, col_map, artificial) = match built {
        None => {
            return (LpOutcome::Unknown(UnknownReason::NumericalIssue), None, Vec::new());
        },
        Some(b) => b,
    };
    let ghost n = system.spec_vars().len() as int;
    let ghost cs = system.spec_constraints();
    proof {
        lemma_extra_count_bound(cs);
        lemma_artificial_in_range(n, cs);
        lemma_built_basic_in_range(n, cs);
    }
    assert(basics_in_range(tableau));
    // 2. Objective row: store -c for a minimisation and c for a maximisation,
    // with the constant on the right-hand side so that the final right-hand
    // side is the optimum (negated for a maximisation).
    let last = tableau.num_cols - 1;
    match system.objective() {
        Objective::Feasibility => {},
        Objective::Minimise(e) => {
            if !set_objective_row(&mut tableau, &e.terms, true, e.constant) {
                return (LpOutcome::Unknown(UnknownReason::NumericalIssue), None, Vec::new());
            }
        },
        Objective::Maximise(e) => {
            if !set_objective_row(&mut tableau, &e.terms, false, e.constant) {
                return (LpOutcome::Unknown(UnknownReason::NumericalIssue), None, Vec::new());
            }
        },
    }
    // 3. Eliminate the basic variables from the objective row.
    let nrows = tableau.num_rows();
    let ghost ncols = tableau.num_cols;
    let ghost nstruct = tableau.num_struct;
    let mut row: usize = 1;
    while row < nrows
        invariant
            tableau.wf(),
            basics_in_range(tableau),
            tableau.num_cols == ncols,
            tableau.num_struct == nstruct,
            nrows == tableau.cells().len(),
            1 <= row <= nrows,
        decreases nrows - row,
    {
        if let Some(bc) = tableau.basic[row] {
            let coeff = *tableau.get(0, bc);
            if !coeff.is_zero() {
                if !subtract_row(&mut tableau, 0, coeff, row) {
                    return (LpOutcome::Unknown(UnknownReason::NumericalIssue), None, Vec::new());
                }
            }
        }
        row = row + 1;
    }
    // 4. Phase I.
    match phase_i(&mut tableau, &artificial) {
        Err(r) => {
            return (LpOutcome::Unknown(r), None, Vec::new());
        },
        Ok(false) => {
            return (LpOutcome::Infeasible, Some(tableau), col_map);
        },
        Ok(true) => {},
    }
    // 5. Artificial columns out of the basis are fixed at zero.
    proof {
        lemma_artificial_in_range(n, cs);
    }
    retire_artificials(&mut tableau, &artificial);
    // 6. Phase II.
    match phase_ii(&mut tableau) {
        PhaseResult::Optimal => {
            let model = extract_model(&tableau, &col_map, system);
            let obj_val = tableau.objective_value();
            let obj = if matches!(system.objective(), Objective::Maximise(_)) {
                match obj_val.checked_neg() {
                    None => {
                        return (LpOutcome::Unknown(UnknownReason::NumericalIssue), None, Vec::new());
                    },
                    Some(v) => v,
                }
            } else {
                obj_val
            };
            if !check_point(system, &tableau, &model, obj) {
                return (LpOutcome::Unknown(UnknownReason::NumericalIssue), None, Vec::new());
            }
            (LpOutcome::Optimal(model, obj), Some(tableau), col_map)
        },
        PhaseResult::Unbounded => (LpOutcome::Unbounded, Some(tableau), col_map),
        PhaseResult::Stopped(r) => (LpOutcome::Unknown(r), None, Vec::new()),
    }
}

/// Whether column `c` is basic in some row.
pub open spec fn is_basic_col(t: Tableau, c: usize) -> bool {
    exists|r: int| 0 <= r < t.basic@.len() && t.basic@[r] == Some(c)
}

/// Clear every artificial column that is not basic, in every row, so that
/// it stays at zero: Phase II then never brings it back into the basis.
fn retire_artificials(t: &mut Tableau, art: &Vec<usize>)
    requires
        old(t).wf(),
        basics_in_range(*old(t)),
        forall|k: int| 0 <= k < art@.len() ==> #[trigger] art@[k] < old(t).num_struct,
    ensures
        final(t).wf(),
        basics_in_range(*final(t)),
        final(t).basic@ == old(t).basic@,
        final(t).num_struct == old(t).num_struct,
        final(t).num_constraints == old(t).num_constraints,
        final(t).num_cols == old(t).num_cols,
        forall|k: int, r: int| 0 <= k < art@.len() && 0 <= r < final(t).cells().len() && !is_basic_col(*old(t), art@[k])
            ==> (#[trigger] final(t).cells()[r])[#[trigger] art@[k] as int] == rat_zero(),
{
    let nrows = t.num_rows();
    let mut k: usize = 0;
    while k < art.len()
        invariant
            t.wf(),
            basics_in_range(*t),
            t.basic@ == old(t).basic@,
            t.num_struct == old(t).num_struct,
            t.num_constraints == old(t).num_constraints,
            t.num_cols == old(t).num_cols,
            nrows == t.cells().len(),
            k <= art@.len(),
            forall|q: int| 0 <= q < art@.len() ==> #[trigger] art@[q] < old(t).num_struct,
            forall|q: int, r: int| 0 <= q < k && 0 <= r < nrows && !is_basic_col(*old(t), art@[q])
                ==> (#[trigger] t.cells()[r])[#[trigger] art@[q] as int] == rat_zero(),
        decreases art@.len() - k,
    {
        let a = art[k];
        let mut basic = false;
        let mut r: usize = 0;
        while r < t.basic.len()
            invariant
                r <= t.basic@.len(),
                t.basic@ == old(t).basic@,
                basic == exists|q: int| 0 <= q < r && t.basic@[q] == Some(a),
            decreases t.basic@.len() - r,
        {
            if t.basic[r] == Some(a) {
                basic = true;
            }
            r = r + 1;
        }
        if !basic {
            let ghost before = t.cells();
            let mut row: usize = 0;
            while row < nrows
                invariant
                    t.wf(),
                    basics_in_range(*t),
                    t.basic@ == old(t).basic@,
                    t.num_struct == old(t).num_struct,
                    t.num_constraints == old(t).num_constraints,
                    t.num_cols == old(t).num_cols,
                    nrows == t.cells().len(),
                    row <= nrows,
                    a < t.num_struct,
                    before.len() == nrows,
                    forall|x: int| 0 <= x < nrows ==> (#[trigger] t.cells()[x]).len() == before[x].len(),
                    forall|x: int, j: int| 0 <= x < nrows && 0 <= j < before[x].len() && j != a
                        ==> #[trigger] t.cells()[x][j] == before[x][j],
                    forall|x: int| 0 <= x < row ==> (#[trigger] t.cells()[x])[a as int] == rat_zero(),
                decreases nrows - row,
            {
                t.set_cell(row, a, Rational::zero());
                row = row + 1;
            }
            proof {
                assert forall|q: int, x: int| 0 <= q < k + 1 && 0 <= x < nrows && !is_basic_col(*old(t), art@[q])
                    implies (#[trigger] t.cells()[x])[#[trigger] art@[q] as int] == rat_zero() by {
                    if art@[q] != a {
                        assert(before[x][art@[q] as int] == rat_zero());
                    }
                }
            }
        } else {
            proof {
                assert(is_basic_col(*old(t), a));
            }
        }
        k = k + 1;
    }
}

/// The cells after writing the objective row: the terms' coefficients
/// (negated when `negate`) at their columns of row 0, and in row 0's
/// right-hand side, when non-zero, the constant negated once for the
/// right-hand side and once more when `negate`, so that the row stays the
/// objective's own row, only negated for a minimisation.
pub open spec fn objective_written(
    d: Seq<Seq<Rational>>,
    terms: Seq<LinearTerm>,
    negate: bool,
    constant: Rational,
    last: int,
) -> Seq<Seq<Rational>> {
    let row = write_terms(d[0], terms, negate);
    let c = if negate { constant } else { rat_neg(constant) };
    if c.spec_num() == 0 {
        d.update(0, row)
    } else {
        d.update(0, row.update(last, c))
    }
}

/// Write the objective row: each term's coefficient (negated when
/// `negate`) at its column, and in the right-hand side, when non-zero, the
/// constant as `objective_written` places it.
fn set_objective_row(t: &mut Tableau, terms: &Vec<LinearTerm>, negate: bool, constant: Rational) -> (ok: bool)
    requires
        old(t).wf(),
        basics_in_range(*old(t)),
        terms_in_range(terms@, old(t).num_cols as nat),
    ensures
        final(t).wf(),
        basics_in_range(*final(t)),
        final(t).basic@ == old(t).basic@,
        final(t).num_struct == old(t).num_struct,
        final(t).num_constraints == old(t).num_constraints,
        final(t).num_cols == old(t).num_cols,
        ok == ((negate ==> forall|k: int| 0 <= k < terms@.len() ==> (#[trigger] terms@[k]).coefficient.spec_num() != i64::MIN)
            && (negate || constant.spec_num() != i64::MIN)),
        ok ==> final(t).cells() == objective_written(old(t).cells(), terms@, negate, constant, old(t).num_cols - 1),
{
    if !write_row_terms(t, 0, terms, negate) {
        return false;
    }
    let c = if negate {
        constant
    } else {
        match constant.checked_neg() {
            None => {
                return false;
            },
            Some(c) => c,
        }
    };
    if !c.is_zero() {
        let last = t.num_cols - 1;
        t.set_cell(0, last, c);
    }
    true
}

/// The two-phase simplex solver with exact rational arithmetic.
#[derive(Debug, Clone)]
pub struct LpSolver {
    config: Config,
    /// The linear system to solve.
    system: Option<LinearSystem>,
    /// The final simplex tableau of the last solve.
    tableau: Option<Tableau>,
    /// For each tableau column, its variable and whether it is an original
    /// one (rather than a slack, surplus or artificial column).
    col_map: Vec<(Var, bool)>,
}

impl LpSolver {
    /// The loaded system.
    pub closed spec fn spec_system(&self) -> Option<LinearSystem> {
        self.system
    }

    /// The final tableau of the last solve.
    pub closed spec fn spec_tableau(&self) -> Option<Tableau> {
        self.tableau
    }

    /// The configuration.
    pub closed spec fn spec_config(&self) -> Config {
        self.config
    }

    /// Create a new LP solver.
    pub fn new(config: Config) -> (s: Self)
        ensures
            s.spec_config() == config,
            s.spec_system() is None,
            s.spec_tableau() is None,
    {
        LpSolver { config, system: None, tableau: None, col_map: Vec::new() }
    }

    /// Load a linear system for solving (a copy is kept).
    pub fn load(&mut self, system: &LinearSystem)
        ensures
            final(self).spec_system() is Some,
            final(self).spec_config() == old(self).spec_config(),
    {
        self.system = Some(system.clone());
    }

    /// Solve the loaded LP.
    pub fn solve(&mut self) -> (res: LpOutcome)
        ensures
            old(self).spec_system() is None ==> (res matches LpOutcome::Unknown(UnknownReason::InternalReason(m))
                && m@ == "no system loaded"@),
            old(self).spec_system() matches Some(s) ==> outcome_holds(s, res, final(self).spec_tableau()),
            final(self).spec_system() == old(self).spec_system(),
            final(self).spec_config() == old(self).spec_config(),
    {
        match &self.system {
            None => LpOutcome::Unknown(UnknownReason::InternalReason(String::from_str("no system loaded"))),
            Some(system) => {
                let (res, tab, cols) = solve_system(system);
                self.tableau = tab;
                self.col_map = cols;
                res
            },
        }
    }
}

/// Solve a linear program given a `LinearSystem`.
pub fn solve_lp(system: &LinearSystem, config: &Config) -> (res: LpOutcome)
    ensures
        exists|tab: Option<Tableau>| outcome_holds(*system, res, tab),
{
    let (res, tab, _cols) = solve_system(system);
    res
}

} // verus!
