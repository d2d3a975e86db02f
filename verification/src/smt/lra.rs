//! QF_LRA theory solver — linear real arithmetic.
//!
//! Reuses the LP solver to check consistency of linear constraints.
use vstd::prelude::*;
use crate::common::{Config, Var};
use crate::linear::{CmpOp, LinearConstraint, LinearExpr, LinearSystem, LinearTerm, Rational, Bound, Domain};
use crate::linear::constraint::{copy_expr, flipped};
use crate::linear::expr::negatable;
use crate::linear::rational::rat_neg;
use crate::linear::display::expr_text;
use crate::linear::display::expr_parts;
use crate::lp::{solve_lp, LpOutcome, Tableau};
use crate::lp::solver::outcome_holds;
use crate::smt::theory::{AtomRecord, TheoryAtom, TheoryCheckResult, TheorySolver};
use crate::smt::TheoryLit;

verus! {

/// A linear arithmetic atom: `expr ≤ 0`, `expr = 0`, or `expr ≥ 0`.
#[derive(Debug, Clone)]
pub struct LraAtom {
    pub id: usize,
    pub expr: LinearExpr,
    pub op: CmpOp,
}

/// The operator's text.
pub open spec fn op_text(op: CmpOp) -> Seq<char> {
    match op {
        CmpOp::Le => "<="@,
        CmpOp::Ge => ">="@,
        CmpOp::Eq => "="@,
    }
}

/// The label `expr op 0`.
pub open spec fn lra_label(a: LraAtom) -> Seq<char> {
    (if expr_parts(a.expr).len() == 0 { "0"@ } else { expr_text(a.expr) }) + " "@ + op_text(a.op) + " 0"@
}

impl TheoryAtom for LraAtom {
    fn id(&self) -> (r: usize)
        ensures
            r == self.id,
    {
        self.id
    }

    fn label(&self) -> (s: String)
        ensures
            s@ == lra_label(*self),
    {
        let mut s = self.expr.to_string();
        s.append(" ");
        match self.op {
            CmpOp::Le => s.append("<="),
            CmpOp::Ge => s.append(">="),
            CmpOp::Eq => s.append("="),
        }
        s.append(" 0");
        s
    }
}

/// A constraint as a value: constant, terms and operator.
pub open spec fn row_view(c: LinearConstraint) -> (Rational, Seq<LinearTerm>, CmpOp) {
    (c.expr.constant, c.expr.terms@, c.op)
}

/// The constraint an asserted literal of atom `a` stands for: the atom's
/// operator, flipped when the literal is negative.
pub open spec fn lit_row(a: LraAtom, sign: bool) -> (Rational, Seq<LinearTerm>, CmpOp) {
    (a.expr.constant, a.expr.terms@, if sign { a.op } else { flipped(a.op) })
}

/// Whether an asserted literal stands for a constraint: its atom exists, and
/// it is not a negated equality (a disequality, which no single row states).
pub open spec fn has_row(atoms: Seq<LraAtom>, id: usize, sign: bool) -> bool {
    id < atoms.len() && (sign || atoms[id as int].op != CmpOp::Eq)
}

/// The constraints of the asserted literals that stand for one, in order.
pub open spec fn lra_rows(atoms: Seq<LraAtom>, asserted: Seq<(usize, bool)>) -> Seq<(Rational, Seq<LinearTerm>, CmpOp)>
    decreases asserted.len(),
{
    if asserted.len() == 0 {
        seq![]
    } else {
        let (id, sign) = asserted.last();
        let rest = lra_rows(atoms, asserted.drop_last());
        if has_row(atoms, id, sign) {
            rest.push(lit_row(atoms[id as int], sign))
        } else {
            rest
        }
    }
}

/// `seen` followed by the variable ids of `terms` that it lacks, in order of
/// first occurrence.
pub open spec fn add_ids(seen: Seq<usize>, terms: Seq<LinearTerm>) -> Seq<usize>
    decreases terms.len(),
{
    if terms.len() == 0 {
        seen
    } else {
        let s = add_ids(seen, terms.drop_last());
        if s.contains(terms.last().var.0) {
            s
        } else {
            s.push(terms.last().var.0)
        }
    }
}

/// The distinct variable ids of the asserted literals' atoms, in order of
/// first occurrence.
pub open spec fn lra_ids(atoms: Seq<LraAtom>, asserted: Seq<(usize, bool)>) -> Seq<usize>
    decreases asserted.len(),
{
    if asserted.len() == 0 {
        seq![]
    } else {
        let rest = lra_ids(atoms, asserted.drop_last());
        let id = asserted.last().0;
        if id < atoms.len() {
            add_ids(rest, atoms[id as int].expr.terms@)
        } else {
            rest
        }
    }
}

/// The first position from `i` on at which `s` holds `v` (`s.len()` when
/// there is none).
pub open spec fn pos_from(s: Seq<usize>, v: usize, i: int) -> int
    decreases s.len() - i,
{
    if i < 0 || i >= s.len() {
        s.len() as int
    } else if s[i] == v {
        i
    } else {
        pos_from(s, v, i + 1)
    }
}

/// Terms over free real variables written over non-negative ones: the
/// variable at position `j` of `seen` becomes `Var(2j) - Var(2j + 1)`.
pub open spec fn split_terms(seen: Seq<usize>, ts: Seq<LinearTerm>) -> Seq<LinearTerm>
    decreases ts.len(),
{
    if ts.len() == 0 {
        Seq::empty()
    } else {
        let t = ts.last();
        let j = pos_from(seen, t.var.0, 0);
        split_terms(seen, ts.drop_last()).push(LinearTerm { coefficient: t.coefficient, var: Var((2 * j) as usize) }).push(
            LinearTerm { coefficient: rat_neg(t.coefficient), var: Var((2 * j + 1) as usize) },
        )
    }
}

/// A row with its terms split.
pub open spec fn split_row(seen: Seq<usize>, r: (Rational, Seq<LinearTerm>, CmpOp)) -> (Rational, Seq<LinearTerm>, CmpOp) {
    (r.0, split_terms(seen, r.1), r.2)
}

/// Every coefficient of every row can be negated.
pub open spec fn rows_splittable(rows: Seq<(Rational, Seq<LinearTerm>, CmpOp)>) -> bool {
    forall|i: int| 0 <= i < rows.len() ==> negatable(#[trigger] rows[i].1)
}

/// `sys` is the system for the asserted literals: each distinct variable id,
/// at position `j` of `lra_ids`, is a free real written as the difference of
/// the non-negative variables `2j` and `2j + 1`; one constraint per literal
/// that has a row, its terms split accordingly.
pub open spec fn is_lra_system(sys: LinearSystem, atoms: Seq<LraAtom>, asserted: Seq<(usize, bool)>) -> bool {
    let seen = lra_ids(atoms, asserted);
    let k = 2 * seen.len();
    &&& sys.spec_vars() == Seq::new(k, |i: int| Var(i as usize))
    &&& sys.spec_constraints().map_values(|c: LinearConstraint| row_view(c)) == lra_rows(atoms, asserted).map_values(
        |r: (Rational, Seq<LinearTerm>, CmpOp)| split_row(seen, r),
    )
    &&& sys.spec_objective() is Feasibility
    &&& forall|i: int| 0 <= i < k ==> #[trigger] sys.spec_domain(Var(i as usize))
        == Some(Domain { var: Var(i as usize), is_integer: false, bound: Bound { lower: None, upper: None } })
}

/// The theory verdict of an LP outcome.
pub open spec fn lp_verdict(res: LpOutcome) -> TheoryCheckResult {
    match res {
        LpOutcome::Optimal(_, _) => TheoryCheckResult::Consistent,
        LpOutcome::Infeasible => TheoryCheckResult::Conflict,
        _ => TheoryCheckResult::Unknown,
    }
}

/// Some registered atom is asserted both positively and negatively.
pub open spec fn contradictory(atoms: Seq<LraAtom>, asserted: Seq<(usize, bool)>) -> bool {
    exists|i: int, j: int|
        0 <= i < asserted.len() && 0 <= j < asserted.len() && #[trigger] asserted[i].0 == #[trigger] asserted[j].0
            && asserted[i].0 < atoms.len() && asserted[i].1 && !asserted[j].1
}

/// Some registered equality is asserted negatively (a disequality, which the
/// linear system leaves out).
pub open spec fn has_diseq(atoms: Seq<LraAtom>, asserted: Seq<(usize, bool)>) -> bool {
    exists|i: int| 0 <= i < asserted.len() && !has_row(atoms, (#[trigger] asserted[i]).0, asserted[i].1)
        && asserted[i].0 < atoms.len()
}

/// The verdict on the asserted literals given the LP outcome on their
/// rows: a consistent row system says nothing of a left-out disequality.
pub open spec fn lra_verdict(atoms: Seq<LraAtom>, asserted: Seq<(usize, bool)>, res: LpOutcome) -> TheoryCheckResult {
    if has_diseq(atoms, asserted) && lp_verdict(res) == TheoryCheckResult::Consistent {
        TheoryCheckResult::Unknown
    } else {
        lp_verdict(res)
    }
}

/// LRA theory solver.
///
/// Collects linear constraints and uses the LP solver to check consistency.
#[derive(Debug)]
pub struct LRA {
    /// All linear constraints indexed by atom ID.
    atoms: Vec<LraAtom>,
    /// Currently asserted literals (atom_id, sign).
    asserted: Vec<(usize, bool)>,
    /// Stack for push/pop.
    stack: Vec<usize>,
}

impl LRA {
    /// The registered atoms.
    pub closed spec fn spec_atoms(&self) -> Seq<LraAtom> {
        self.atoms@
    }

    /// The asserted literals, as (atom id, sign).
    pub closed spec fn spec_asserted(&self) -> Seq<(usize, bool)> {
        self.asserted@
    }

    /// The saved numbers of asserted literals.
    pub closed spec fn spec_stack(&self) -> Seq<usize> {
        self.stack@
    }

    pub fn new() -> (s: Self)
        ensures
            s.spec_atoms().len() == 0,
            s.spec_asserted().len() == 0,
            s.spec_stack().len() == 0,
    {
        LRA { atoms: Vec::new(), asserted: Vec::new(), stack: Vec::new() }
    }

    /// Register a new LRA atom; its id is its position.
    pub fn register_atom(&mut self, atom: LraAtom) -> (id: usize)
        ensures
            id == old(self).spec_atoms().len(),
            final(self).spec_atoms() == old(self).spec_atoms().push(atom),
            final(self).spec_asserted() == old(self).spec_asserted(),
            final(self).spec_stack() == old(self).spec_stack(),
    {
        let id = self.atoms.len();
        self.atoms.push(atom);
        id
    }

    /// The distinct variable ids of the asserted literals' atoms.
    fn collect_ids(&self) -> (seen: Vec<usize>)
        ensures
            seen@ == lra_ids(self.atoms@, self.asserted@),
    {
        let mut seen: Vec<usize> = Vec::new();
        let mut i: usize = 0;
        while i < self.asserted.len()
            invariant
                i <= self.asserted@.len(),
                seen@ == lra_ids(self.atoms@, self.asserted@.take(i as int)),
            decreases self.asserted@.len() - i,
        {
            let (id, _sign) = self.asserted[i];
            proof {
                assert(self.asserted@.take(i as int + 1).drop_last() =~= self.asserted@.take(i as int));
                assert(self.asserted@.take(i as int + 1).last() == self.asserted@[i as int]);
            }
            if id < self.atoms.len() {
                let terms = &self.atoms[id].expr.terms;
                let ghost base = seen@;
                let mut k: usize = 0;
                while k < terms.len()
                    invariant
                        k <= terms@.len(),
                        seen@ == add_ids(base, terms@.take(k as int)),
                    decreases terms@.len() - k,
                {
                    let v = terms[k].var.0;
                    proof {
                        assert(terms@.take(k as int + 1).drop_last() =~= terms@.take(k as int));
                    }
                    let mut found = false;
                    let mut q: usize = 0;
                    while q < seen.len()
                        invariant
                            q <= seen@.len(),
                            found == (exists|p: int| 0 <= p < q && seen@[p] == v),
                        decreases seen@.len() - q,
                    {
                        if seen[q] == v {
                            found = true;
                        }
                        q = q + 1;
                    }
                    if !found {
                        seen.push(v);
                    }
                    k = k + 1;
                }
                assert(terms@.take(terms@.len() as int) =~= terms@);
            }
            i = i + 1;
        }
        assert(self.asserted@.take(i as int) =~= self.asserted@);
        seen
    }

    /// The first position of `v` in `seen` (`seen.len()` when absent).
    fn position_of(seen: &Vec<usize>, v: usize) -> (j: usize)
        ensures
            j == pos_from(seen@, v, 0),
    {
        let mut q: usize = 0;
        while q < seen.len()
            invariant
                q <= seen@.len(),
                pos_from(seen@, v, 0) == pos_from(seen@, v, q as int),
            decreases seen@.len() - q,
        {
            if seen[q] == v {
                return q;
            }
            q = q + 1;
        }
        q
    }

    /// The expression `e` with its terms split over `seen`, or `None` when a
    /// coefficient cannot be negated.
    fn split_expr(seen: &Vec<usize>, e: &LinearExpr) -> (r: Option<LinearExpr>)
        requires
            seen@.len() <= usize::MAX / 4,
        ensures
            r is Some <==> negatable(e.terms@),
            r matches Some(x) ==> x.constant == e.constant && x.terms@ == split_terms(seen@, e.terms@),
    {
        let mut terms: Vec<LinearTerm> = Vec::new();
        let mut k: usize = 0;
        while k < e.terms.len()
            invariant
                seen@.len() <= usize::MAX / 4,
                k <= e.terms@.len(),
                negatable(e.terms@.take(k as int)),
                terms@ == split_terms(seen@, e.terms@.take(k as int)),
            decreases e.terms@.len() - k,
        {
            let t = e.terms[k];
            let j = LRA::position_of(seen, t.var.0);
            proof {
                assert(pos_from(seen@, t.var.0, 0) <= seen@.len()) by {
                    lemma_pos_from_bound(seen@, t.var.0, 0);
                }
            }
            let neg = match t.coefficient.checked_neg() {
                Some(n) => n,
                None => {
                    proof {
                        assert(e.terms@[k as int] == t);
                    }
                    return None;
                },
            };
            terms.push(LinearTerm { coefficient: t.coefficient, var: Var(2 * j) });
            terms.push(LinearTerm { coefficient: neg, var: Var(2 * j + 1) });
            proof {
                let s1 = e.terms@.take(k + 1);
                assert(s1.drop_last() =~= e.terms@.take(k as int));
                assert(s1.last() == t);
                assert forall|i: int| 0 <= i < s1.len() implies (#[trigger] s1[i].coefficient).spec_num() != i64::MIN by {
                    if i < k {
                        assert(s1[i] == e.terms@.take(k as int)[i]);
                    }
                }
            }
            k = k + 1;
        }
        assert(e.terms@.take(k as int) =~= e.terms@);
        Some(LinearExpr { constant: e.constant, terms })
    }

    /// Build the linear system of the asserted literals: `None` when a
    /// coefficient of a row cannot be negated or the variables are too many
    /// to number.
    fn build_system(&self) -> (sys: Option<LinearSystem>)
        ensures
            sys is Some <==> (rows_splittable(lra_rows(self.atoms@, self.asserted@)) && 4 * lra_ids(
                self.atoms@,
                self.asserted@,
            ).len() <= usize::MAX),
            sys matches Some(s) ==> is_lra_system(s, self.atoms@, self.asserted@),
    {
        let seen = self.collect_ids();
        if seen.len() > usize::MAX / 4 {
            return None;
        }
        let mut sys = LinearSystem::new();
        let mut k: usize = 0;
        while k < 2 * seen.len()
            invariant
                seen@.len() <= usize::MAX / 4,
                k <= 2 * seen@.len(),
                sys.spec_next_id() == k,
                sys.spec_vars() == Seq::new(k as nat, |i: int| Var(i as usize)),
                sys.spec_constraints().len() == 0,
                sys.spec_objective() is Feasibility,
                forall|i: int| 0 <= i < k ==> #[trigger] sys.spec_domain(Var(i as usize))
                    == Some(Domain { var: Var(i as usize), is_integer: false, bound: Bound { lower: None, upper: None } }),
            decreases 2 * seen@.len() - k,
        {
            let v = sys.new_var();
            k = k + 1;
            assert(sys.spec_vars() =~= Seq::new(k as nat, |i: int| Var(i as usize)));
        }
        let ghost rows_all = lra_rows(self.atoms@, self.asserted@);
        let mut i: usize = 0;
        while i < self.asserted.len()
            invariant
                seen@.len() <= usize::MAX / 4,
                i <= self.asserted@.len(),
                sys.spec_vars() == Seq::new(2 * seen@.len(), |i: int| Var(i as usize)),
                seen@ == lra_ids(self.atoms@, self.asserted@),
                rows_splittable(lra_rows(self.atoms@, self.asserted@.take(i as int))),
                sys.spec_constraints().map_values(|c: LinearConstraint| row_view(c)) == lra_rows(
                    self.atoms@,
                    self.asserted@.take(i as int),
                ).map_values(|r: (Rational, Seq<LinearTerm>, CmpOp)| split_row(seen@, r)),
                sys.spec_objective() is Feasibility,
                forall|q: int| 0 <= q < 2 * seen@.len() ==> #[trigger] sys.spec_domain(Var(q as usize))
                    == Some(Domain { var: Var(q as usize), is_integer: false, bound: Bound { lower: None, upper: None } }),
            decreases self.asserted@.len() - i,
        {
            let (id, sign) = self.asserted[i];
            let ghost before_rows = lra_rows(self.atoms@, self.asserted@.take(i as int));
            proof {
                assert(self.asserted@.take(i as int + 1).drop_last() =~= self.asserted@.take(i as int));
                assert(self.asserted@.take(i as int + 1).last() == self.asserted@[i as int]);
            }
            if id < self.atoms.len() && (sign || self.atoms[id].op != CmpOp::Eq) {
                let atom = &self.atoms[id];
                let op = if sign { atom.op } else { atom.op.flip() };
                let e = match LRA::split_expr(&seen, &atom.expr) {
                    Some(e) => e,
                    None => {
                        proof {
                            let rows = lra_rows(self.atoms@, self.asserted@.take(i as int + 1));
                            assert(rows == before_rows.push(lit_row(self.atoms@[id as int], sign)));
                            assert(!negatable(rows[rows.len() - 1].1));
                            assert(!rows_splittable(rows));
                            lemma_rows_prefix_unsplittable(self.atoms@, self.asserted@, i as int + 1);
                        }
                        return None;
                    },
                };
                let c = LinearConstraint::new(e, op);
                let ghost cv = row_view(c);
                let ghost before = sys.spec_constraints();
                sys.add_constraint(c);
                proof {
                    let rows = lra_rows(self.atoms@, self.asserted@.take(i as int + 1));
                    assert(rows == before_rows.push(lit_row(self.atoms@[id as int], sign)));
                    assert(cv == split_row(seen@, lit_row(self.atoms@[id as int], sign)));
                    assert(sys.spec_constraints() == before.push(c));
                    let f = |c: LinearConstraint| row_view(c);
                    let g = |r: (Rational, Seq<LinearTerm>, CmpOp)| split_row(seen@, r);
                    assert(before.map_values(f) == before_rows.map_values(g));
                    assert(sys.spec_constraints().map_values(f) =~= before.map_values(f).push(cv));
                    assert(rows.map_values(g) =~= before_rows.map_values(g).push(cv));
                    assert(sys.spec_constraints().map_values(|c: LinearConstraint| row_view(c))
                        =~= rows.map_values(|r: (Rational, Seq<LinearTerm>, CmpOp)| split_row(seen@, r)));
                    assert forall|q: int| 0 <= q < rows.len() implies negatable(#[trigger] rows[q].1) by {
                        if q < before_rows.len() {
                            assert(rows[q] == before_rows[q]);
                        }
                    }
                }
            } else {
                proof {
                    let rows = lra_rows(self.atoms@, self.asserted@.take(i as int + 1));
                    assert(rows == before_rows);
                }
            }
            i = i + 1;
        }
        assert(self.asserted@.take(i as int) =~= self.asserted@);
        Some(sys)
    }
}

/// `pos_from` never passes the length.
proof fn lemma_pos_from_bound(s: Seq<usize>, v: usize, i: int)
    ensures
        pos_from(s, v, i) <= s.len(),
        i >= 0 ==> pos_from(s, v, i) >= i || pos_from(s, v, i) == s.len(),
    decreases s.len() - i,
{
    if i >= 0 && i < s.len() && s[i] != v {
        lemma_pos_from_bound(s, v, i + 1);
    }
}

/// Once a row of the first `n` asserted literals cannot be split, no longer
/// prefix of them can be split either.
proof fn lemma_rows_prefix_unsplittable(atoms: Seq<LraAtom>, asserted: Seq<(usize, bool)>, n: int)
    requires
        0 <= n <= asserted.len(),
        !rows_splittable(lra_rows(atoms, asserted.take(n))),
    ensures
        !rows_splittable(lra_rows(atoms, asserted)),
    decreases asserted.len() - n,
{
    if n < asserted.len() {
        let a = asserted.take(n + 1);
        assert(a.drop_last() =~= asserted.take(n));
        let r0 = lra_rows(atoms, asserted.take(n));
        let r1 = lra_rows(atoms, a);
        let i = choose|i: int| 0 <= i < r0.len() && !negatable(#[trigger] r0[i].1);
        assert(r1[i] == r0[i]);
        lemma_rows_prefix_unsplittable(atoms, asserted, n + 1);
    } else {
        assert(asserted.take(n) =~= asserted);
    }
}

impl LRA {
    /// Whether some registered atom is asserted with both signs.
    fn find_contradiction(&self) -> (b: bool)
        ensures
            b == contradictory(self.atoms@, self.asserted@),
    {
        let n = self.asserted.len();
        let mut i: usize = 0;
        while i < n
            invariant
                n == self.asserted@.len(),
                i <= n,
                forall|a: int, b: int|
                    0 <= a < i && 0 <= b < n ==> !(#[trigger] self.asserted@[a].0 == #[trigger] self.asserted@[b].0
                        && self.asserted@[a].0 < self.atoms@.len() && self.asserted@[a].1 && !self.asserted@[b].1),
            decreases n - i,
        {
            let (id, sign) = self.asserted[i];
            if sign && id < self.atoms.len() {
                let mut j: usize = 0;
                while j < n
                    invariant
                        n == self.asserted@.len(),
                        i < n,
                        j <= n,
                        self.asserted@[i as int] == (id, sign),
                        sign,
                        id < self.atoms@.len(),
                        forall|b: int| 0 <= b < j ==> !(self.asserted@[b].0 == id && !self.asserted@[b].1),
                    decreases n - j,
                {
                    let (id2, sign2) = self.asserted[j];
                    if id2 == id && !sign2 {
                        assert(self.asserted@[i as int].0 == self.asserted@[j as int].0 && self.asserted@[i as int].0
                            < self.atoms@.len() && self.asserted@[i as int].1 && !self.asserted@[j as int].1);
                        return true;
                    }
                    j = j + 1;
                }
            }
            i = i + 1;
        }
        false
    }

    /// Whether some registered equality is asserted negatively.
    fn find_diseq(&self) -> (b: bool)
        ensures
            b == has_diseq(self.atoms@, self.asserted@),
    {
        let n = self.asserted.len();
        let mut i: usize = 0;
        while i < n
            invariant
                n == self.asserted@.len(),
                i <= n,
                forall|a: int| 0 <= a < i ==> !(!has_row(self.atoms@, (#[trigger] self.asserted@[a]).0, self.asserted@[a].1)
                    && self.asserted@[a].0 < self.atoms@.len()),
            decreases n - i,
        {
            let (id, sign) = self.asserted[i];
            if id < self.atoms.len() && !sign && self.atoms[id].op == CmpOp::Eq {
                assert(!has_row(self.atoms@, self.asserted@[i as int].0, self.asserted@[i as int].1));
                return true;
            }
            i = i + 1;
        }
        false
    }
}

impl TheorySolver for LRA {
    open spec fn inv(&self) -> bool {
        true
    }

    open spec fn can_pop(&self) -> bool {
        true
    }

    /// Save the number of asserted literals.
    fn push(&mut self)
        ensures
            final(self).spec_atoms() == old(self).spec_atoms(),
            final(self).spec_asserted() == old(self).spec_asserted(),
            final(self).spec_stack() == old(self).spec_stack().push(old(self).spec_asserted().len() as usize),
    {
        let n = self.asserted.len();
        self.stack.push(n);
    }

    /// Drop the literals asserted since the last `push`, if a scope is open.
    fn pop(&mut self)
        ensures
            final(self).spec_atoms() == old(self).spec_atoms(),
            old(self).spec_stack().len() == 0 ==> final(self).spec_asserted() == old(self).spec_asserted()
                && final(self).spec_stack() == old(self).spec_stack(),
            old(self).spec_stack().len() > 0 ==> {
                let n = old(self).spec_stack().last() as int;
                &&& final(self).spec_stack() == old(self).spec_stack().drop_last()
                &&& final(self).spec_asserted() == (if n < old(self).spec_asserted().len() {
                    old(self).spec_asserted().take(n)
                } else {
                    old(self).spec_asserted()
                })
            },
    {
        if let Some(len) = self.stack.pop() {
            self.asserted.truncate(len);
        }
    }

    /// Record the literal.
    fn assert_lit(&mut self, lit: TheoryLit) -> (ok: bool)
        ensures
            ok,
            final(self).spec_atoms() == old(self).spec_atoms(),
            final(self).spec_asserted() == old(self).spec_asserted().push((lit.atom_id, lit.sign)),
            final(self).spec_stack() == old(self).spec_stack(),
    {
        self.asserted.push((lit.atom_id, lit.sign));
        true
    }

    /// `Consistent` with nothing asserted; `Conflict` when an atom is
    /// asserted with both signs; otherwise the verdict of the LP solver on the
    /// system of the asserted literals (literals of atoms that were never
    /// registered are left out), each real variable written as the
    /// difference of two non-negative ones, weakened to `Unknown` when the
    /// rows are consistent but a negated equality, which no row states, was
    /// asserted, and `Unknown` when a coefficient cannot be negated.
    fn check(&self) -> (r: TheoryCheckResult)
        ensures
            self.spec_asserted().len() == 0 ==> r == TheoryCheckResult::Consistent,
            contradictory(self.spec_atoms(), self.spec_asserted()) ==> r == TheoryCheckResult::Conflict,
            self.spec_asserted().len() > 0 && !contradictory(self.spec_atoms(), self.spec_asserted()) && !(rows_splittable(
                lra_rows(self.spec_atoms(), self.spec_asserted()),
            ) && 4 * lra_ids(self.spec_atoms(), self.spec_asserted()).len() <= usize::MAX) ==> r
                == TheoryCheckResult::Unknown,
            self.spec_asserted().len() > 0 && !contradictory(self.spec_atoms(), self.spec_asserted()) && rows_splittable(
                lra_rows(self.spec_atoms(), self.spec_asserted()),
            ) && 4 * lra_ids(self.spec_atoms(), self.spec_asserted()).len() <= usize::MAX ==> exists|
                sys: LinearSystem,
                res: LpOutcome,
                tab: Option<Tableau>,
            |
                is_lra_system(sys, self.spec_atoms(), self.spec_asserted()) && outcome_holds(sys, res, tab)
                    && r == lra_verdict(self.spec_atoms(), self.spec_asserted(), res),
    {
        if self.asserted.len() == 0 {
            return TheoryCheckResult::Consistent;
        }
        if self.find_contradiction() {
            return TheoryCheckResult::Conflict;
        }
        let diseq = self.find_diseq();
        let sys = match self.build_system() {
            Some(sys) => sys,
            None => {
                return TheoryCheckResult::Unknown;
            },
        };
        let config = Config::default();
        let res = solve_lp(&sys, &config);
        let r = match res {
            LpOutcome::Optimal(_, _) => if diseq {
                TheoryCheckResult::Unknown
            } else {
                TheoryCheckResult::Consistent
            },
            LpOutcome::Infeasible => TheoryCheckResult::Conflict,
            _ => TheoryCheckResult::Unknown,
        };
        proof {
            let tab = choose|tab: Option<Tableau>| outcome_holds(sys, res, tab);
            assert(is_lra_system(sys, self.spec_atoms(), self.spec_asserted()) && outcome_holds(sys, res, tab)
                && r == lra_verdict(self.spec_atoms(), self.spec_asserted(), res));
        }
        r
    }

    /// No early propagation.
    fn propagate(&self) -> (v: Vec<TheoryLit>)
        ensures
            v@.len() == 0,
    {
        Vec::new()
    }

    /// All asserted literals, as the explanation of a conflict.
    fn explain_conflict(&self) -> (v: Vec<TheoryLit>)
        ensures
            v@.len() == self.spec_asserted().len(),
            forall|i: int| 0 <= i < v@.len() ==> #[trigger] v@[i] == (TheoryLit {
                atom_id: self.spec_asserted()[i].0,
                sign: self.spec_asserted()[i].1,
            }),
    {
        let mut v: Vec<TheoryLit> = Vec::new();
        let mut i: usize = 0;
        while i < self.asserted.len()
            invariant
                i <= self.asserted@.len(),
                v@.len() == i,
                forall|q: int| 0 <= q < i ==> #[trigger] v@[q] == (TheoryLit {
                    atom_id: self.asserted@[q].0,
                    sign: self.asserted@[q].1,
                }),
            decreases self.asserted@.len() - i,
        {
            let (id, sign) = self.asserted[i];
            v.push(TheoryLit::new(id, sign));
            i = i + 1;
        }
        v
    }

    /// No explanation is given.
    fn explain_propagation(&self, lit: TheoryLit) -> (v: Vec<TheoryLit>)
        ensures
            v@.len() == 0,
    {
        Vec::new()
    }

    /// Atoms are registered with `register_atom` instead.
    fn set_atoms(&mut self, atoms: &[AtomRecord])
        ensures
            final(self).spec_atoms() == old(self).spec_atoms(),
            final(self).spec_asserted() == old(self).spec_asserted(),
            final(self).spec_stack() == old(self).spec_stack(),
    {
    }

    /// Forget every atom, literal and scope.
    fn reset(&mut self)
        ensures
            final(self).spec_atoms().len() == 0,
            final(self).spec_asserted().len() == 0,
            final(self).spec_stack().len() == 0,
    {
        self.atoms.clear();
        self.asserted.clear();
        self.stack.clear();
    }
}

} // verus!
