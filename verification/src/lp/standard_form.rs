//! Conversion of a linear system into an initial simplex tableau.
//!
//! Each constraint `a^T x + k [≤|=|≥] 0` becomes the row `a^T x (op) -k`:
//! - `≤` gains a slack column (`+1`),
//! - `≥` gains a surplus column (`-1`) and an artificial column,
//! - `=` gains an artificial column.
//! When the right-hand side `-k` is negative the row and its slack or
//! surplus are negated so that every right-hand side is non-negative; a
//! negated `≤` row then gains an artificial column too. Every artificial
//! column is `+1` in its row, so each row has a basic unit column: the slack
//! of an unnegated `≤` row, else the artificial.
use vstd::prelude::*;
use crate::common::Var;
use crate::linear::rational::{Rational, rat_neg};
use crate::linear::expr::{LinearTerm, rat_zero};
use crate::linear::constraint::{CmpOp, LinearConstraint};
use crate::linear::system::LinearSystem;
use crate::lp::tableau::Tableau;

verus! {

/// Number of extra columns a constraint adds (a row whose constant the
/// build cannot negate is given one; the build refuses it).
pub open spec fn extra_cols(c: LinearConstraint) -> nat {
    match c.op {
        CmpOp::Le => if needs_le_artificial(c) { 2 } else { 1 },
        CmpOp::Ge => 2,
        CmpOp::Eq => 1,
    }
}

/// A `≤` row that is negated, so its slack is `-1` and it needs an
/// artificial column.
pub open spec fn needs_le_artificial(c: LinearConstraint) -> bool {
    c.expr.constant.spec_num() != i64::MIN && row_negated(c)
}

/// Number of extra columns all of `cs` add.
pub open spec fn extra_count(cs: Seq<LinearConstraint>) -> nat
    decreases cs.len(),
{
    if cs.len() == 0 {
        0
    } else {
        extra_count(cs.drop_last()) + extra_cols(cs.last())
    }
}

/// Number of structural columns: the system's variables plus the extra columns.
pub open spec fn struct_cols(s: LinearSystem) -> nat {
    s.spec_vars().len() + extra_count(s.spec_constraints())
}

/// Number of tableau columns: structural, one per constraint, and the RHS.
pub open spec fn total_cols(s: LinearSystem) -> nat {
    struct_cols(s) + s.spec_constraints().len() + 1
}

/// Every term names a column below `cols`.
pub open spec fn terms_in_range(terms: Seq<LinearTerm>, cols: nat) -> bool {
    forall|k: int| 0 <= k < terms.len() ==> (#[trigger] terms[k]).var.0 < cols
}

/// The inputs the tableau can be built for: each term's variable id is a
/// column of the tableau, and the column count fits in memory.
pub open spec fn lp_input_ok(s: LinearSystem) -> bool {
    &&& total_cols(s) <= usize::MAX
    &&& s.spec_constraints().len() + 2000 <= usize::MAX
    &&& forall|i: int| 0 <= i < s.spec_constraints().len()
        ==> terms_in_range((#[trigger] s.spec_constraints()[i]).expr.terms@, total_cols(s))
    &&& match s.spec_objective() {
        crate::linear::constraint::Objective::Minimise(e) => terms_in_range(e.terms@, total_cols(s)),
        crate::linear::constraint::Objective::Maximise(e) => terms_in_range(e.terms@, total_cols(s)),
        crate::linear::constraint::Objective::Feasibility => true,
    }
}

/// `a`, negated when `neg`.
pub open spec fn signed(a: Rational, neg: bool) -> Rational {
    if neg {
        rat_neg(a)
    } else {
        a
    }
}

/// The right-hand side `-k` of a constraint before the sign fix.
pub open spec fn raw_rhs(c: LinearConstraint) -> Rational {
    rat_neg(c.expr.constant)
}

/// Whether the row of `c` is negated.
pub open spec fn row_negated(c: LinearConstraint) -> bool {
    raw_rhs(c).spec_num() < 0
}

/// Every negation the row of `c` needs is exact in `i64`.
pub open spec fn row_neg_ok(c: LinearConstraint) -> bool {
    &&& c.expr.constant.spec_num() != i64::MIN
    &&& row_negated(c) ==> forall|k: int| 0 <= k < c.expr.terms@.len()
        ==> (#[trigger] c.expr.terms@[k]).coefficient.spec_num() != i64::MIN
}

/// `row` after writing each term's (signed) coefficient at its variable's
/// column, in order, a later term overwriting an earlier one.
pub open spec fn write_terms(row: Seq<Rational>, terms: Seq<LinearTerm>, neg: bool) -> Seq<Rational>
    decreases terms.len(),
{
    if terms.len() == 0 {
        row
    } else {
        write_terms(row, terms.drop_last(), neg).update(
            terms.last().var.0 as int,
            signed(terms.last().coefficient, neg),
        )
    }
}

/// `n` zeros.
pub open spec fn zeros(n: nat) -> Seq<Rational> {
    Seq::new(n, |j: int| rat_zero())
}

/// `+1`, or `-1` when `neg`.
pub open spec fn unit(neg: bool) -> Rational {
    if neg {
        Rational::spec_make(-1, 1)
    } else {
        Rational::spec_make(1, 1)
    }
}

/// The tableau row of constraint `c`, whose extra columns start at `start`,
/// in a tableau of `cols` columns.
pub open spec fn initial_row(c: LinearConstraint, start: int, cols: nat) -> Seq<Rational> {
    let neg = row_negated(c);
    let base = zeros(cols).update(cols - 1, signed(raw_rhs(c), neg));
    let row = write_terms(base, c.expr.terms@, neg);
    match c.op {
        CmpOp::Le => if neg {
            row.update(start, unit(true)).update(start + 1, unit(false))
        } else {
            row.update(start, unit(false))
        },
        CmpOp::Ge => row.update(start, unit(!neg)).update(start + 1, unit(false)),
        CmpOp::Eq => row.update(start, unit(false)),
    }
}

/// The tableau once the rows of the first `upto` constraints are written:
/// row 0 and the remaining rows are zero.
pub open spec fn built_cells(n: int, cs: Seq<LinearConstraint>, upto: int, cols: nat) -> Seq<Seq<Rational>> {
    Seq::new(cs.len() + 1, |r: int|
        if 1 <= r <= upto {
            initial_row(cs[r - 1], n + extra_count(cs.take(r - 1)), cols)
        } else {
            zeros(cols)
        }
    )
}

/// The basic columns once the first `upto` rows are written.
pub open spec fn built_basic(n: int, cs: Seq<LinearConstraint>, upto: int) -> Seq<Option<usize>> {
    Seq::new(cs.len() + 1, |r: int|
        if 1 <= r <= upto {
            initial_basic(cs[r - 1], n + extra_count(cs.take(r - 1)))
        } else {
            None
        }
    )
}

/// The basic column of the row of constraint `c` (extra columns from `start`).
pub open spec fn initial_basic(c: LinearConstraint, start: int) -> Option<usize> {
    match c.op {
        CmpOp::Le => if needs_le_artificial(c) { Some((start + 1) as usize) } else { Some(start as usize) },
        CmpOp::Ge => Some((start + 1) as usize),
        CmpOp::Eq => Some(start as usize),
    }
}

/// The column tags of the extra columns of constraint `i`.
pub open spec fn extra_tags(i: int, c: LinearConstraint) -> Seq<(Var, bool)> {
    match c.op {
        CmpOp::Le => if needs_le_artificial(c) {
            seq![(Var((1000 + i) as usize), false), (Var((2000 + i) as usize), false)]
        } else {
            seq![(Var((1000 + i) as usize), false)]
        },
        CmpOp::Ge => seq![(Var((1000 + i) as usize), false), (Var((2000 + i) as usize), false)],
        CmpOp::Eq => seq![(Var((2000 + i) as usize), false)],
    }
}

/// The tags of the extra columns of all of `cs`.
pub open spec fn extras_map(cs: Seq<LinearConstraint>) -> Seq<(Var, bool)>
    decreases cs.len(),
{
    if cs.len() == 0 {
        seq![]
    } else {
        extras_map(cs.drop_last()) + extra_tags(cs.len() - 1, cs.last())
    }
}

/// Artificial columns of all of `cs`, where the extra columns start at `n`.
pub open spec fn artificial_cols(n: int, cs: Seq<LinearConstraint>) -> Seq<usize>
    decreases cs.len(),
{
    if cs.len() == 0 {
        seq![]
    } else {
        let start = n + extra_count(cs.drop_last());
        artificial_cols(n, cs.drop_last()) + match cs.last().op {
            CmpOp::Le => if needs_le_artificial(cs.last()) { seq![(start + 1) as usize] } else { seq![] },
            CmpOp::Ge => seq![(start + 1) as usize],
            CmpOp::Eq => seq![start as usize],
        }
    }
}

/// The column map: each variable (an original column) and then the extra columns.
pub open spec fn column_map(vars: Seq<Var>, cs: Seq<LinearConstraint>) -> Seq<(Var, bool)> {
    vars.map_values(|v: Var| (v, true)) + extras_map(cs)
}

pub(crate) proof fn lemma_take_last<T>(s: Seq<T>, i: int)
    requires
        0 <= i < s.len(),
    ensures
        s.take(i + 1).drop_last() == s.take(i),
        s.take(i + 1).last() == s[i],
        s.take(i + 1).len() == i + 1,
{
    assert(s.take(i + 1).drop_last() =~= s.take(i));
}

pub(crate) proof fn lemma_extra_count_mono(cs: Seq<LinearConstraint>, i: int)
    requires
        0 <= i <= cs.len(),
    ensures
        extra_count(cs.take(i)) <= extra_count(cs),
        extra_count(cs.take(i)) + 2 * (cs.len() - i) >= extra_count(cs),
    decreases cs.len() - i,
{
    if i < cs.len() {
        lemma_take_last(cs, i);
        lemma_extra_count_mono(cs, i + 1);
    } else {
        assert(cs.take(i) =~= cs);
    }
}

/// Write each term's (signed) coefficient into row `row` at its variable's column.
/// `false` when a needed negation would leave `i64`.
pub(crate) fn write_row_terms(t: &mut Tableau, row: usize, terms: &Vec<LinearTerm>, neg: bool) -> (ok: bool)
    requires
        old(t).wf(),
        row < old(t).cells().len(),
        terms_in_range(terms@, old(t).num_cols as nat),
    ensures
        final(t).wf(),
        final(t).num_struct == old(t).num_struct,
        final(t).num_constraints == old(t).num_constraints,
        final(t).num_cols == old(t).num_cols,
        final(t).basic@ == old(t).basic@,
        ok == (neg ==> forall|k: int| 0 <= k < terms@.len()
            ==> (#[trigger] terms@[k]).coefficient.spec_num() != i64::MIN),
        ok ==> final(t).cells() == old(t).cells().update(
            row as int,
            write_terms(old(t).cells()[row as int], terms@, neg),
        ),
{
    let ghost d = t.cells();
    let mut k: usize = 0;
    while k < terms.len()
        invariant
            t.wf(),
            t.num_struct == old(t).num_struct,
            t.num_constraints == old(t).num_constraints,
            t.num_cols == old(t).num_cols,
            t.basic@ == old(t).basic@,
            d == old(t).cells(),
            d.len() == t.num_constraints + 1,
            row < d.len(),
            terms_in_range(terms@, t.num_cols as nat),
            k <= terms@.len(),
            neg ==> forall|m: int| 0 <= m < k ==> (#[trigger] terms@[m]).coefficient.spec_num() != i64::MIN,
            t.cells() == d.update(row as int, write_terms(d[row as int], terms@.take(k as int), neg)),
        decreases terms@.len() - k,
    {
        let term = terms[k];
        assert(terms@.take(k as int + 1).drop_last() =~= terms@.take(k as int));
        assert(terms@[k as int].var.0 < t.num_cols);
        let coeff = if neg {
            match term.coefficient.checked_neg() {
                Some(c) => c,
                None => {
                    return false;
                },
            }
        } else {
            term.coefficient
        };
        let ghost before = t.cells();
        let ghost w = write_terms(d[row as int], terms@.take(k as int), neg);
        proof {
            let tk = terms@.take(k as int + 1);
            assert(tk.last() == terms@[k as int]);
            assert(write_terms(d[row as int], tk, neg) == w.update(term.var.0 as int, signed(term.coefficient, neg)));
        }
        t.set_cell(row, term.var.0, coeff);
        k = k + 1;
        assert(before[row as int] == w);
        assert(t.cells() =~= d.update(row as int, write_terms(d[row as int], terms@.take(k as int), neg)));
    }
    assert(terms@.take(k as int) =~= terms@);
    true
}

/// Write the row of constraint `c` (row `i + 1`, extra columns from `start`)
/// into a tableau whose row is still all zeros, and set its basic column.
/// `false` when a negation would leave `i64`; the tableau may then be partly written.
fn fill_row(t: &mut Tableau, i: usize, c: &LinearConstraint, start: usize) -> (ok: bool)
    requires
        old(t).wf(),
        i < old(t).num_constraints,
        old(t).cells()[i + 1] == zeros(old(t).num_cols as nat),
        terms_in_range(c.expr.terms@, old(t).num_cols as nat),
        start + 2 < old(t).num_cols,
    ensures
        final(t).wf(),
        final(t).num_struct == old(t).num_struct,
        final(t).num_constraints == old(t).num_constraints,
        final(t).num_cols == old(t).num_cols,
        ok == row_neg_ok(*c),
        ok ==> final(t).cells() == old(t).cells().update(
            i + 1,
            initial_row(*c, start as int, old(t).num_cols as nat),
        ),
        ok ==> final(t).basic@ == old(t).basic@.update(i + 1, initial_basic(*c, start as int)),
{
    let ghost d = t.cells();
    let ghost cols = t.num_cols as nat;
    let rhs0 = match c.expr.constant.checked_neg() {
        Some(r) => r,
        None => {
            return false;
        },
    };
    let neg = rhs0.is_negative();
    let rhs = if neg {
        match rhs0.checked_neg() {
            Some(r) => r,
            None => {
                proof {
                    let k = c.expr.constant;
                    Rational::lemma_den_positive(k);
                    Rational::lemma_make_parts(-k.spec_num(), k.spec_den() as int);
                    crate::linear::rational::lemma_norm_facts(-k.spec_num(), k.spec_den() as int);
                }
                return false;
            },
        }
    } else {
        rhs0
    };
    tableau_set_rhs(t, i, rhs);
    assert(t.cells()[i + 1] =~= zeros(cols).update(cols - 1, signed(raw_rhs(*c), neg)));
    if !write_row_terms(t, i + 1, &c.expr.terms, neg) {
        return false;
    }
    let ghost base = zeros(cols).update(cols - 1, signed(raw_rhs(*c), neg));
    assert(t.cells() == d.update(i + 1, write_terms(base, c.expr.terms@, neg)));
    match c.op {
        CmpOp::Le => {
            if neg {
                t.set_coeff(i, start, Rational::neg_one());
                t.set_coeff(i, start + 1, Rational::one());
                t.set_basic(i + 1, start + 1);
            } else {
                t.set_coeff(i, start, Rational::one());
                t.set_basic(i + 1, start);
            }
        },
        CmpOp::Ge => {
            let sc = if neg { Rational::one() } else { Rational::neg_one() };
            t.set_coeff(i, start, sc);
            t.set_coeff(i, start + 1, Rational::one());
            t.set_basic(i + 1, start + 1);
        },
        CmpOp::Eq => {
            t.set_coeff(i, start, Rational::one());
            t.set_basic(i + 1, start);
        },
    }
    assert(t.cells() =~= d.update(i + 1, initial_row(*c, start as int, cols)));
    true
}

/// The number of extra columns of `c`.
fn extra_cols_of(c: &LinearConstraint) -> (k: usize)
    ensures
        k == extra_cols(*c),
        1 <= k <= 2,
{
    match c.op {
        CmpOp::Le => match c.expr.constant.checked_neg() {
            Some(r) => if r.is_negative() { 2 } else { 1 },
            None => 1,
        },
        CmpOp::Ge => 2,
        CmpOp::Eq => 1,
    }
}

/// Set the right-hand side of constraint `i`.
fn tableau_set_rhs(t: &mut Tableau, i: usize, v: Rational)
    requires
        old(t).wf(),
        i < old(t).num_constraints,
    ensures
        final(t).wf(),
        final(t).cells() == old(t).cells().update(i + 1, old(t).cells()[i + 1].update(old(t).num_cols - 1, v)),
        final(t).basic@ == old(t).basic@,
        final(t).num_struct == old(t).num_struct,
        final(t).num_constraints == old(t).num_constraints,
        final(t).num_cols == old(t).num_cols,
{
    t.set_rhs(i, v);
}

/// Build the initial simplex tableau for a linear system, together with the
/// column map and the artificial columns. `None` when negating a row would
/// leave `i64`.
#[verifier::rlimit(60)]
#[verifier::spinoff_prover]
pub fn build_initial_tableau(system: &LinearSystem) -> (res: Option<(Tableau, Vec<(Var, bool)>, Vec<usize>)>)
    requires
        lp_input_ok(*system),
    ensures
        res is Some <==> (forall|i: int| 0 <= i < system.spec_constraints().len()
            ==> row_neg_ok(#[trigger] system.spec_constraints()[i])),
        res matches Some((t, col_map, art)) ==> {
            let n = system.spec_vars().len() as int;
            let cs = system.spec_constraints();
            &&& t.wf()
            &&& t.num_struct == struct_cols(*system)
            &&& t.num_constraints == cs.len()
            &&& t.num_cols == total_cols(*system)
            &&& t.cells() == built_cells(n, cs, cs.len() as int, t.num_cols as nat)
            &&& t.basic@ == built_basic(n, cs, cs.len() as int)
            &&& col_map@ == column_map(system.spec_vars(), cs)
            &&& art@ == artificial_cols(n, cs)
        },
{
    let num_orig_vars = system.num_vars();
    let cons = system.constraints();
    let ghost cs = system.spec_constraints();
    let ghost n = num_orig_vars as int;
    let mut total_slack: usize = 0;
    let mut i: usize = 0;
    while i < cons.len()
        invariant
            cons@ == cs,
            lp_input_ok(*system),
            cs == system.spec_constraints(),
            i <= cs.len(),
            total_slack == extra_count(cs.take(i as int)),
        decreases cs.len() - i,
    {
        proof {
            lemma_take_last(cs, i as int);
            lemma_extra_count_mono(cs, i as int + 1);
            assert(cs.take(cs.len() as int) =~= cs);
        }
        total_slack = total_slack + extra_cols_of(&cons[i]);
        i = i + 1;
    }
    assert(cs.take(cs.len() as int) =~= cs);
    let num_constraints = cons.len();
    let mut tableau = Tableau::new(num_orig_vars + total_slack, num_constraints);
    let last = tableau.num_cols - 1;
    let ghost cols = tableau.num_cols as nat;

    let vars = system.vars();
    let mut col_map: Vec<(Var, bool)> = Vec::new();
    let mut k: usize = 0;
    while k < vars.len()
        invariant
            k <= vars@.len(),
            col_map@ == vars@.take(k as int).map_values(|v: Var| (v, true)),
        decreases vars@.len() - k,
    {
        col_map.push((vars[k], true));
        k = k + 1;
        assert(col_map@ =~= vars@.take(k as int).map_values(|v: Var| (v, true)));
    }
    assert(vars@.take(k as int) =~= vars@);

    let mut artificial: Vec<usize> = Vec::new();
    let mut slack_col = num_orig_vars;
    assert forall|r: int| 0 <= r < tableau.cells().len() implies #[trigger] tableau.cells()[r] == zeros(cols) by {
        assert(tableau.cells()[r] =~= zeros(cols));
    }
    assert(tableau.cells() =~= built_cells(n, cs, 0, cols));
    assert(tableau.basic@ =~= built_basic(n, cs, 0));

    i = 0;
    while i < num_constraints
        invariant
            cons@ == cs,
            lp_input_ok(*system),
            cs == system.spec_constraints(),
            vars@ == system.spec_vars(),
            n == vars@.len(),
            num_orig_vars == n,
            num_constraints == cs.len(),
            total_slack == extra_count(cs),
            tableau.wf(),
            tableau.num_struct == num_orig_vars + total_slack,
            tableau.num_constraints == num_constraints,
            cols == tableau.num_cols,
            cols == total_cols(*system),
            last == cols - 1,
            i <= num_constraints,
            slack_col == n + extra_count(cs.take(i as int)),
            forall|m: int| 0 <= m < i ==> row_neg_ok(#[trigger] cs[m]),
            tableau.cells() == built_cells(n, cs, i as int, cols),
            tableau.basic@ == built_basic(n, cs, i as int),
            col_map@ == column_map(vars@, cs.take(i as int)),
            artificial@ == artificial_cols(n, cs.take(i as int)),
        decreases num_constraints - i,
    {
        proof {
            lemma_take_last(cs, i as int);
            lemma_extra_count_mono(cs, i as int + 1);
            assert(cs.take(cs.len() as int) =~= cs);
        }
        let c = &cons[i];
        let ghost start = slack_col as int;
        assert(terms_in_range(cs[i as int].expr.terms@, cols));
        if !fill_row(&mut tableau, i, c, slack_col) {
            return None;
        }
        match c.op {
            CmpOp::Le => {
                col_map.push((Var::new(1000 + i), false));
                if extra_cols_of(c) == 2 {
                    col_map.push((Var::new(2000 + i), false));
                    artificial.push(slack_col + 1);
                    slack_col = slack_col + 2;
                } else {
                    slack_col = slack_col + 1;
                }
            },
            CmpOp::Ge => {
                col_map.push((Var::new(1000 + i), false));
                col_map.push((Var::new(2000 + i), false));
                artificial.push(slack_col + 1);
                slack_col = slack_col + 2;
            },
            CmpOp::Eq => {
                col_map.push((Var::new(2000 + i), false));
                artificial.push(slack_col);
                slack_col = slack_col + 1;
            },
        }
        proof {
            assert(cs.take(i as int + 1).drop_last() == cs.take(i as int));
            assert(col_map@ =~= column_map(vars@, cs.take(i as int + 1)));
            assert(artificial@ =~= artificial_cols(n, cs.take(i as int + 1)));
            assert(tableau.cells() =~= built_cells(n, cs, i as int + 1, cols));
            assert(tableau.basic@ =~= built_basic(n, cs, i as int + 1));
        }
        i = i + 1;
    }
    Some((tableau, col_map, artificial))
}

/// At most two extra columns per constraint.
pub(crate) proof fn lemma_extra_count_bound(cs: Seq<LinearConstraint>)
    ensures
        extra_count(cs) <= 2 * cs.len(),
    decreases cs.len(),
{
    if cs.len() > 0 {
        lemma_extra_count_bound(cs.drop_last());
    }
}

/// Every artificial column lies below `n + extra_count(cs)`.
pub(crate) proof fn lemma_artificial_in_range(n: int, cs: Seq<LinearConstraint>)
    requires
        0 <= n,
        n + extra_count(cs) <= usize::MAX,
    ensures
        forall|k: int| 0 <= k < artificial_cols(n, cs).len()
            ==> n <= #[trigger] artificial_cols(n, cs)[k] < n + extra_count(cs),
    decreases cs.len(),
{
    if cs.len() > 0 {
        lemma_artificial_in_range(n, cs.drop_last());
        let a = artificial_cols(n, cs.drop_last());
        let start = n + extra_count(cs.drop_last());
        let b: Seq<usize> = match cs.last().op {
            CmpOp::Le => if needs_le_artificial(cs.last()) { seq![(start + 1) as usize] } else { seq![] },
            CmpOp::Ge => seq![(start + 1) as usize],
            CmpOp::Eq => seq![start as usize],
        };
        assert(artificial_cols(n, cs) == a + b);
        assert forall|k: int| 0 <= k < (a + b).len() implies n <= #[trigger] (a + b)[k] < n + extra_count(cs) by {
            if k >= a.len() {
                assert((a + b)[k] == b[k - a.len()]);
            }
        }
    }
}

/// Every basic column of the built rows lies below `n + extra_count(cs)`.
pub(crate) proof fn lemma_built_basic_in_range(n: int, cs: Seq<LinearConstraint>)
    requires
        n >= 0,
    ensures
        forall|r: int| 0 <= r < built_basic(n, cs, cs.len() as int).len()
            && (#[trigger] built_basic(n, cs, cs.len() as int)[r]) is Some
            ==> built_basic(n, cs, cs.len() as int)[r]->0 < n + extra_count(cs),
{
    assert forall|r: int| 0 <= r < built_basic(n, cs, cs.len() as int).len()
        && (#[trigger] built_basic(n, cs, cs.len() as int)[r]) is Some
        implies built_basic(n, cs, cs.len() as int)[r]->0 < n + extra_count(cs) by {
        let i = r - 1;
        lemma_take_last(cs, i);
        lemma_extra_count_mono(cs, i + 1);
    }
}

/// Whether [`build_initial_tableau`] accepts the system: each term's
/// variable id names a column and the column count fits in memory.
pub fn check_lp_input(system: &LinearSystem) -> (b: bool)
    ensures
        b == lp_input_ok(*system),
{
    let n = system.num_vars();
    let cons = system.constraints();
    let ghost cs = system.spec_constraints();
    let mut extra: u128 = 0;
    let mut i: usize = 0;
    while i < cons.len()
        invariant
            cons@ == cs,
            cs == system.spec_constraints(),
            i <= cs.len(),
            extra == extra_count(cs.take(i as int)),
            extra <= 2 * i,
        decreases cs.len() - i,
    {
        proof {
            lemma_take_last(cs, i as int);
        }
        extra = extra + extra_cols_of(&cons[i]) as u128;
        i = i + 1;
    }
    assert(cs.take(cs.len() as int) =~= cs);
    let m = cons.len();
    let total: u128 = n as u128 + extra + m as u128 + 1;
    if total > usize::MAX as u128 || m as u128 + 2000 > usize::MAX as u128 {
        return false;
    }
    let cols = total as usize;
    i = 0;
    while i < cons.len()
        invariant
            cons@ == cs,
            cs == system.spec_constraints(),
            cols == total_cols(*system),
            i <= cs.len(),
            forall|k: int| 0 <= k < i ==> terms_in_range((#[trigger] cs[k]).expr.terms@, cols as nat),
        decreases cs.len() - i,
    {
        if !terms_below(&cons[i].expr.terms, cols) {
            return false;
        }
        i = i + 1;
    }
    match system.objective() {
        crate::linear::constraint::Objective::Minimise(e) => terms_below(&e.terms, cols),
        crate::linear::constraint::Objective::Maximise(e) => terms_below(&e.terms, cols),
        crate::linear::constraint::Objective::Feasibility => true,
    }
}

/// Whether every term's variable id is below `cols`.
fn terms_below(terms: &Vec<LinearTerm>, cols: usize) -> (b: bool)
    ensures
        b == terms_in_range(terms@, cols as nat),
{
    let mut k: usize = 0;
    while k < terms.len()
        invariant
            k <= terms@.len(),
            forall|m: int| 0 <= m < k ==> (#[trigger] terms@[m]).var.0 < cols,
        decreases terms@.len() - k,
    {
        if terms[k].var.0 >= cols {
            return false;
        }
        k = k + 1;
    }
    true
}

} // verus!
