//! The CDCL core: clause store, assignment, trail, watches, propagation and
//! conflict analysis. Branching (which variable to decide next) is chosen by
//! the caller.
use vstd::prelude::*;
use crate::common::Config;
use crate::sat::{ClauseId, SolverStats, zero_sat_stats};
use crate::sat::clause::{Clause, ClauseDB, ClauseView};
use crate::sat::literal::{Lit, index_of, negation};
use crate::sat::trail::{DecisionLevel, Reason, Trail, TrailEntry};
use crate::sat::watch::WatchList;

verus! {

/// `l` is true under the partial assignment `a`.
pub open spec fn lit_is_true(a: Seq<Option<bool>>, l: Lit) -> bool {
    a[l.var as int] == Some(l.sign)
}

/// `l` is false under the partial assignment `a`.
pub open spec fn lit_is_false(a: Seq<Option<bool>>, l: Lit) -> bool {
    a[l.var as int] == Some(!l.sign)
}

/// The entry at `p` was propagated by a stored clause that is not deleted
/// and whose other literals were all made false earlier on the trail: the
/// negation of each sits at a position before `p`.
pub open spec fn reason_implies(db: Seq<ClauseView>, tr: Seq<TrailEntry>, pos: Seq<Option<usize>>, p: int) -> bool {
    let c = tr[p].reason->0 as int;
    &&& !db[c].deleted
    &&& forall|k: int|
        0 <= k < db[c].lits.len() && db[c].lits[k] != tr[p].lit ==> {
            &&& pos[(#[trigger] db[c].lits[k]).var as int] is Some
            &&& pos[db[c].lits[k].var as int].unwrap() < p
            &&& tr[pos[db[c].lits[k].var as int].unwrap() as int].lit == negation(db[c].lits[k])
        }
}

/// One more than the largest variable of `s` (0 when `s` is empty).
pub open spec fn var_bound(s: Seq<Lit>) -> nat
    decreases s.len(),
{
    if s.len() == 0 {
        0
    } else {
        let rest = var_bound(s.drop_last());
        let here = (s.last().var + 1) as nat;
        if here > rest {
            here
        } else {
            rest
        }
    }
}

/// `a` grown with unassigned variables up to `n` (unchanged when already that long).
pub open spec fn grown(a: Seq<Option<bool>>, n: nat) -> Seq<Option<bool>> {
    if n <= a.len() {
        a
    } else {
        a + Seq::new((n - a.len()) as nat, |i: int| None::<bool>)
    }
}

/// The main CDCL SAT solver.
pub struct Solver {
    /// Configuration (reserved for verbosity / timeouts).
    config: Config,
    /// Number of variables.
    var_count: usize,
    /// Clause database.
    clauses: ClauseDB,
    /// `assignment[var]` = `Some(true)` / `Some(false)` / `None`.
    assignment: Vec<Option<bool>>,
    /// For each variable, the trail index at which it was assigned.
    assignment_trail_pos: Vec<Option<usize>>,
    /// Assignment trail.
    trail: Trail,
    /// Watch lists (two-watched literals).
    watch: WatchList,
    /// Index into the trail for the next literal to propagate.
    propagation_queue: usize,
    /// Internal statistics.
    stats: SolverStats,
}

impl Solver {
    /// Number of variables.
    pub closed spec fn spec_var_count(&self) -> nat {
        self.var_count as nat
    }

    /// The clause database.
    pub closed spec fn spec_clauses(&self) -> Seq<ClauseView> {
        self.clauses@
    }

    /// The value of each variable.
    pub closed spec fn spec_assignment(&self) -> Seq<Option<bool>> {
        self.assignment@
    }

    /// The trail, oldest assignment first.
    pub closed spec fn spec_trail(&self) -> Seq<TrailEntry> {
        self.trail.spec_entries()
    }

    /// The first trail index of each decision level.
    pub closed spec fn spec_levels(&self) -> Seq<usize> {
        self.trail.spec_boundaries()
    }

    /// How many trail entries have been propagated.
    pub closed spec fn spec_queue(&self) -> nat {
        self.propagation_queue as nat
    }

    /// The watch lists, by literal index.
    pub closed spec fn spec_watches(&self) -> Seq<Seq<ClauseId>> {
        self.watch@
    }

    /// The statistics.
    pub closed spec fn spec_stats(&self) -> SolverStats {
        self.stats
    }

    /// The assignment and the trail describe each other: every trail entry
    /// assigns its literal's variable, at its own position, and every
    /// assigned variable has exactly that entry.
    closed spec fn assignment_matches_trail(&self) -> bool {
        let tr = self.trail.spec_entries();
        let a = self.assignment@;
        let pos = self.assignment_trail_pos@;
        &&& forall|p: int|
            0 <= p < tr.len() ==> {
                &&& (#[trigger] tr[p]).lit.var < self.var_count
                &&& a[tr[p].lit.var as int] == Some(tr[p].lit.sign)
                &&& pos[tr[p].lit.var as int] == Some(p as usize)
            }
        &&& forall|v: int| 0 <= v < self.var_count ==> ((#[trigger] a[v]) is Some <==> pos[v] is Some)
        &&& forall|v: int|
            0 <= v < self.var_count && (#[trigger] pos[v]) is Some ==> {
                &&& pos[v].unwrap() < tr.len()
                &&& tr[pos[v].unwrap() as int].lit.var == v
            }
    }

    /// Levels along the trail: an entry before the start of level `m` has a
    /// level below `m`, every level is at most the current one, and each
    /// level above 0 starts with an entry of its own.
    closed spec fn levels_ok(&self) -> bool {
        let tr = self.trail.spec_entries();
        let b = self.trail.spec_boundaries();
        &&& forall|p: int, m: int|
            #![trigger tr[p], b[m]]
            0 <= p < tr.len() && 1 <= m < b.len() && p < b[m] ==> tr[p].level < m
        &&& forall|p: int| 0 <= p < tr.len() ==> (#[trigger] tr[p]).level < b.len()
        &&& forall|m: int| 1 <= m < b.len() ==> #[trigger] b[m] < tr.len()
        &&& forall|m1: int, m2: int| 1 <= m1 < m2 < b.len() ==> #[trigger] b[m1] < #[trigger] b[m2]
        &&& forall|p: int, m: int|
            #![trigger tr[p], b[m]]
            0 <= p < tr.len() && 1 <= m < b.len() && b[m] <= p ==> tr[p].level >= m
    }

    /// Every decision sits above level 0, and every propagated entry is
    /// implied by its reason clause (see `reason_implies`).
    closed spec fn implied_ok(&self) -> bool {
        let tr = self.trail.spec_entries();
        &&& forall|p: int|
            0 <= p < tr.len() && (#[trigger] tr[p]).reason is Decision ==> tr[p].level >= 1
                && tr[p].level < self.trail.spec_boundaries().len() && self.trail.spec_boundaries()[tr[p].level as int] == p
        &&& forall|p: int|
            0 <= p < tr.len() && (#[trigger] tr[p]).reason is Propagation ==> reason_implies(
                self.clauses@,
                tr,
                self.assignment_trail_pos@,
                p,
            )
    }

    /// Each propagated entry names a stored clause that holds its literal.
    closed spec fn reasons_ok(&self) -> bool {
        let tr = self.trail.spec_entries();
        forall|p: int|
            0 <= p < tr.len() && (#[trigger] tr[p]).reason is Propagation ==> {
                &&& tr[p].reason->0 < self.clauses@.len()
                &&& self.clauses@[tr[p].reason->0 as int].lits.contains(tr[p].lit)
            }
    }

    /// Every stored literal is over a known variable.
    closed spec fn clauses_ok(&self) -> bool {
        forall|c: int, k: int|
            0 <= c < self.clauses@.len() && 0 <= k < self.clauses@[c].lits.len()
                ==> (#[trigger] self.clauses@[c].lits[k]).var < self.var_count
    }

    /// One watch list per literal, each naming stored clauses.
    closed spec fn watches_ok(&self) -> bool {
        &&& self.watch@.len() == 2 * self.var_count
        &&& forall|i: int, k: int|
            0 <= i < self.watch@.len() && 0 <= k < self.watch@[i].len()
                ==> #[trigger] self.watch@[i][k] < self.clauses@.len()
    }

    /// The solver's invariant.
    pub closed spec fn wf(&self) -> bool {
        &&& 2 * self.var_count <= usize::MAX
        &&& self.assignment@.len() == self.var_count
        &&& self.assignment_trail_pos@.len() == self.var_count
        &&& self.trail.wf()
        &&& self.propagation_queue <= self.trail.spec_entries().len()
        &&& self.assignment_matches_trail()
        &&& self.levels_ok()
        &&& self.reasons_ok()
        &&& self.implied_ok()
        &&& self.clauses_ok()
        &&& self.watches_ok()
    }

    /// Create a new SAT solver with the given configuration.
    pub fn new(config: Config) -> (s: Self)
        ensures
            s.wf(),
            s.spec_var_count() == 0,
            s.spec_clauses() == Seq::<ClauseView>::empty(),
            s.spec_assignment() == Seq::<Option<bool>>::empty(),
            s.spec_trail() == Seq::<TrailEntry>::empty(),
            s.spec_levels() == seq![0usize],
            s.spec_queue() == 0,
            s.spec_stats() == zero_sat_stats(),
    {
        let s = Solver {
            config,
            var_count: 0,
            clauses: ClauseDB::new(),
            assignment: Vec::new(),
            assignment_trail_pos: Vec::new(),
            trail: Trail::new(),
            watch: WatchList::new(0),
            propagation_queue: 0,
            stats: SolverStats { decisions: 0, propagations: 0, conflicts: 0, restarts: 0 },
        };
        assert(s.assignment@ =~= Seq::<Option<bool>>::empty());
        s
    }

    /// Number of variables.
    pub fn var_count(&self) -> (n: usize)
        ensures
            n == self.spec_var_count(),
    {
        self.var_count
    }

    /// The value of each variable.
    pub fn assignment(&self) -> (a: &Vec<Option<bool>>)
        ensures
            a@ == self.spec_assignment(),
    {
        &self.assignment
    }

    /// The statistics so far.
    pub fn stats(&self) -> (s: SolverStats)
        ensures
            s == self.spec_stats(),
    {
        self.stats
    }

    /// The current decision level.
    pub fn decision_level(&self) -> (l: DecisionLevel)
        requires
            self.wf(),
        ensures
            l == self.spec_levels().len() - 1,
    {
        self.trail.current_level()
    }

    /// Check whether a variable is currently assigned.
    pub fn is_assigned(&self, var: usize) -> (b: bool)
        requires
            self.wf(),
            var < self.spec_var_count(),
        ensures
            b == self.spec_assignment()[var as int] is Some,
    {
        self.assignment[var].is_some()
    }

    /// Check whether a literal is currently assigned **true**.
    pub fn lit_true(&self, lit: Lit) -> (b: bool)
        requires
            self.wf(),
            lit.var < self.spec_var_count(),
        ensures
            b == lit_is_true(self.spec_assignment(), lit),
    {
        match self.assignment[lit.var] {
            Some(v) => v == lit.sign,
            None => false,
        }
    }

    /// Check whether a literal is currently assigned **false**.
    pub fn lit_false(&self, lit: Lit) -> (b: bool)
        requires
            self.wf(),
            lit.var < self.spec_var_count(),
        ensures
            b == lit_is_false(self.spec_assignment(), lit),
    {
        match self.assignment[lit.var] {
            Some(v) => v != lit.sign,
            None => false,
        }
    }

    /// The value of a literal: `Some(true)` (true), `Some(false)` (false), `None` (unassigned).
    pub fn lit_value(&self, lit: Lit) -> (r: Option<bool>)
        requires
            self.wf(),
            lit.var < self.spec_var_count(),
        ensures
            r == (match self.spec_assignment()[lit.var as int] {
                Some(v) => Some(v == lit.sign),
                None => None,
            }),
    {
        match self.assignment[lit.var] {
            Some(v) => Some(v == lit.sign),
            None => None,
        }
    }
}


/// The unassignments that backtracking below trail position `start` makes:
/// each variable assigned at or after `start` loses its value.
pub open spec fn unassigned_from(a: Seq<Option<bool>>, tr: Seq<TrailEntry>, start: int) -> Seq<Option<bool>> {
    Seq::new(
        a.len(),
        |v: int|
            if exists|p: int| start <= p < tr.len() && (#[trigger] tr[p]).lit.var == v {
                None
            } else {
                a[v]
            },
    )
}

/// The watch lists `w` grown to `n` variables: the existing lists, then
/// empty lists for the new literals.
pub open spec fn grown_watches(w: Seq<Seq<ClauseId>>, n: nat) -> Seq<Seq<ClauseId>> {
    w + Seq::new((2 * n - w.len()) as nat, |i: int| Seq::<ClauseId>::empty())
}

/// A copy of a slice of literals.
fn lits_to_vec(lits: &[Lit]) -> (v: Vec<Lit>)
    ensures
        v@ == lits@,
{
    let mut v: Vec<Lit> = Vec::new();
    let mut i: usize = 0;
    while i < lits.len()
        invariant
            i <= lits@.len(),
            v@ == lits@.take(i as int),
        decreases lits@.len() - i,
    {
        v.push(lits[i]);
        i = i + 1;
        assert(v@ =~= lits@.take(i as int));
    }
    assert(lits@.take(i as int) =~= lits@);
    v
}

impl Solver {
    /// Assign a literal and record the reason on the trail. A decision opens
    /// a new level; a propagation stays at the current one.
    pub fn assign_lit(&mut self, lit: Lit, reason: Reason)
        requires
            old(self).wf(),
            lit.var < old(self).spec_var_count(),
            old(self).spec_assignment()[lit.var as int] is None,
            reason matches Reason::Propagation(c) ==> c < old(self).spec_clauses().len()
                && old(self).spec_clauses()[c as int].lits.contains(lit),
            reason matches Reason::Propagation(c) ==> !old(self).spec_clauses()[c as int].deleted,
            reason matches Reason::Propagation(c) ==> forall|k: int|
                0 <= k < old(self).spec_clauses()[c as int].lits.len() && old(self).spec_clauses()[c as int].lits[k] != lit
                    ==> lit_is_false(old(self).spec_assignment(), #[trigger] old(self).spec_clauses()[c as int].lits[k]),
        ensures
            final(self).wf(),
            final(self).spec_assignment() == old(self).spec_assignment().update(lit.var as int, Some(lit.sign)),
            reason is Decision ==> final(self).spec_levels() == old(self).spec_levels().push(
                old(self).spec_trail().len() as usize,
            ) && final(self).spec_trail() == old(self).spec_trail().push(
                (TrailEntry { lit, level: old(self).spec_levels().len() as usize, reason }),
            ),
            reason is Propagation ==> final(self).spec_levels() == old(self).spec_levels()
                && final(self).spec_trail() == old(self).spec_trail().push(
                (TrailEntry { lit, level: (old(self).spec_levels().len() - 1) as usize, reason }),
            ),
            final(self).spec_var_count() == old(self).spec_var_count(),
            final(self).spec_clauses() == old(self).spec_clauses(),
            final(self).spec_watches() == old(self).spec_watches(),
            final(self).spec_queue() == old(self).spec_queue(),
            final(self).spec_stats() == old(self).spec_stats(),
    {
        let ghost tr0 = self.trail.spec_entries();
        let ghost b0 = self.trail.spec_boundaries();
        proof {
            self.trail.lemma_wf_shape();
        }
        let pos = self.trail.len();
        let nl = self.trail.num_levels();
        assert(b0.len() == nl);
        self.assignment.set(lit.var, Some(lit.sign));
        self.assignment_trail_pos.set(lit.var, Some(pos));
        match reason {
            Reason::Decision => {
                self.trail.push_decision(lit);
                assert(self.trail.spec_entries()[tr0.len() as int].level == self.trail.spec_boundaries().len() - 1);
            },
            Reason::Propagation(_) => {
                self.trail.push_propagated(lit, reason);
                assert(self.trail.spec_entries()[tr0.len() as int].level == self.trail.spec_boundaries().len() - 1);
            },
        }
        proof {
            let tr = self.trail.spec_entries();
            let b = self.trail.spec_boundaries();
            assert(tr.len() == tr0.len() + 1);
            assert forall|p: int| 0 <= p < tr0.len() implies tr[p] == tr0[p] && tr0[p].lit.var != lit.var by {
                assert(tr[p] == tr0[p]);
            }
            assert forall|p: int, m: int|
                #![trigger tr[p], b[m]]
                0 <= p < tr.len() && 1 <= m < b.len() && p < b[m] implies tr[p].level < m by {
                if p < tr0.len() {
                    assert(tr[p] == tr0[p]);
                    if m < b0.len() {
                        assert(b[m] == b0[m]);
                        assert(tr0[p].level < m);
                    } else {
                        assert(tr0[p].level < b0.len());
                    }
                } else {
                    if m < b0.len() {
                        assert(b[m] == b0[m]);
                    }
                }
            }
            assert forall|p: int| 0 <= p < tr.len() implies (#[trigger] tr[p]).level < b.len() by {
                if p < tr0.len() {
                    assert(tr[p] == tr0[p]);
                }
            }
            assert forall|m: int| 1 <= m < b.len() implies #[trigger] b[m] < tr.len() by {
                if m < b0.len() {
                    assert(b[m] == b0[m]);
                }
            }
            assert forall|m1: int, m2: int| 1 <= m1 < m2 < b.len() implies #[trigger] b[m1] < #[trigger] b[m2] by {
                assert(b[m1] == b0[m1]);
                if m2 < b0.len() {
                    assert(b[m2] == b0[m2]);
                } else {
                    assert(b0[m1] < tr0.len());
                }
            }
            let a = self.assignment@;
            let ps = self.assignment_trail_pos@;
            assert forall|v: int| 0 <= v < self.var_count && (#[trigger] ps[v]) is Some implies ps[v].unwrap() < tr.len()
                && tr[ps[v].unwrap() as int].lit.var == v by {
                if v != lit.var {
                    assert(tr[ps[v].unwrap() as int] == tr0[ps[v].unwrap() as int]);
                }
            }
            assert(self.reasons_ok()) by {
                assert forall|p: int| 0 <= p < tr.len() && (#[trigger] tr[p]).reason is Propagation implies {
                    &&& tr[p].reason->0 < self.clauses@.len()
                    &&& self.clauses@[tr[p].reason->0 as int].lits.contains(tr[p].lit)
                } by {
                    if p < tr0.len() {
                        assert(tr[p] == tr0[p]);
                    }
                }
            }
            assert forall|p: int, m: int|
                #![trigger tr[p], b[m]]
                0 <= p < tr.len() && 1 <= m < b.len() && b[m] <= p implies tr[p].level >= m by {
                assert(tr[tr0.len() as int].level == b.len() - 1);
                if p < tr0.len() {
                    assert(tr[p] == tr0[p]);
                    if m < b0.len() {
                        assert(b[m] == b0[m]);
                    } else {
                        assert(b[m] == tr0.len());
                    }
                } else {
                    if m < b0.len() {
                        assert(b[m] == b0[m]);
                    }
                }
            }
            let db = self.clauses@;
            let ps0 = old(self).assignment_trail_pos@;
            let a0 = old(self).assignment@;
            assert forall|p: int| 0 <= p < tr.len() && (#[trigger] tr[p]).reason is Decision implies tr[p].level >= 1 by {
                if p < tr0.len() {
                    assert(tr[p] == tr0[p]);
                }
            }
            assert forall|p: int| 0 <= p < tr.len() && (#[trigger] tr[p]).reason is Propagation implies reason_implies(
                db,
                tr,
                ps,
                p,
            ) by {
                let c = tr[p].reason->0 as int;
                if p < tr0.len() {
                    assert(tr[p] == tr0[p]);
                    assert(reason_implies(db, tr0, ps0, p));
                    assert forall|k: int|
                        0 <= k < db[c].lits.len() && db[c].lits[k] != tr[p].lit implies {
                            &&& ps[(#[trigger] db[c].lits[k]).var as int] is Some
                            &&& ps[db[c].lits[k].var as int].unwrap() < p
                            &&& tr[ps[db[c].lits[k].var as int].unwrap() as int].lit == negation(db[c].lits[k])
                        } by {
                        let v = db[c].lits[k].var as int;
                        assert(ps0[v] is Some);
                        assert(v != lit.var);
                        assert(ps[v] == ps0[v]);
                        assert(tr[ps0[v].unwrap() as int] == tr0[ps0[v].unwrap() as int]);
                    }
                } else {
                    assert forall|k: int|
                        0 <= k < db[c].lits.len() && db[c].lits[k] != tr[p].lit implies {
                            &&& ps[(#[trigger] db[c].lits[k]).var as int] is Some
                            &&& ps[db[c].lits[k].var as int].unwrap() < p
                            &&& tr[ps[db[c].lits[k].var as int].unwrap() as int].lit == negation(db[c].lits[k])
                        } by {
                        let l = db[c].lits[k];
                        let v = l.var as int;
                        assert(lit_is_false(a0, l));
                        assert(a0[v] is Some);
                        assert(ps0[v] is Some);
                        assert(v != lit.var);
                        assert(ps[v] == ps0[v]);
                        let q = ps0[v].unwrap() as int;
                        assert(q < tr0.len() && tr0[q].lit.var == v);
                        assert(a0[tr0[q].lit.var as int] == Some(tr0[q].lit.sign));
                        assert(tr[q] == tr0[q]);
                    }
                }
            }
        }
    }

    /// Backtrack to the given decision level, unassigning variables: removes
    /// all assignments made at levels above `level`.
    fn unassign_to_level(&mut self, level: DecisionLevel)
        requires
            old(self).wf(),
        ensures
            final(self).wf(),
            level + 1 >= old(self).spec_levels().len() ==> *final(self) == *old(self),
            level + 1 < old(self).spec_levels().len() ==> ({
                let start = old(self).spec_levels()[level + 1] as int;
                &&& final(self).spec_trail() == old(self).spec_trail().take(start)
                &&& final(self).spec_levels() == old(self).spec_levels().take(level + 1)
                &&& final(self).spec_queue() == if old(self).spec_queue() < start { old(self).spec_queue() } else { start as nat }
                &&& final(self).spec_assignment() == unassigned_from(old(self).spec_assignment(), old(self).spec_trail(), start)
            }),
            final(self).spec_var_count() == old(self).spec_var_count(),
            final(self).spec_clauses() == old(self).spec_clauses(),
            final(self).spec_watches() == old(self).spec_watches(),
            final(self).spec_stats() == old(self).spec_stats(),
    {
        if level >= self.trail.num_levels() - 1 {
            return;
        }
        let start = self.trail.level_start(level + 1);
        let len = self.trail.len();
        let ghost a0 = self.assignment@;
        let ghost ps0 = self.assignment_trail_pos@;
        let ghost tr0 = self.trail.spec_entries();
        let ghost b0 = self.trail.spec_boundaries();
        let mut i: usize = start;
        while i < len
            invariant
                old(self).wf(),
                self.trail == old(self).trail,
                self.var_count == old(self).var_count,
                self.clauses == old(self).clauses,
                self.watch == old(self).watch,
                self.propagation_queue == old(self).propagation_queue,
                self.stats == old(self).stats,
                a0 == old(self).assignment@,
                ps0 == old(self).assignment_trail_pos@,
                tr0 == old(self).trail.spec_entries(),
                len == tr0.len(),
                start <= i <= len,
                self.assignment@.len() == a0.len(),
                self.assignment_trail_pos@.len() == ps0.len(),
                forall|v: int|
                    0 <= v < a0.len() ==> (#[trigger] self.assignment@[v]) == if ps0[v] is Some && start <= ps0[v].unwrap() < i {
                        None
                    } else {
                        a0[v]
                    },
                forall|v: int|
                    0 <= v < ps0.len() ==> (#[trigger] self.assignment_trail_pos@[v]) == if ps0[v] is Some && start
                        <= ps0[v].unwrap() < i {
                        None
                    } else {
                        ps0[v]
                    },
            decreases len - i,
        {
            let v = self.trail.get(i).lit.var;
            assert(ps0[v as int] == Some(i));
            self.assignment.set(v, None);
            self.assignment_trail_pos.set(v, None);
            i = i + 1;
            proof {
                assert forall|w: int| 0 <= w < a0.len() && w != v implies ps0[w] != Some((i - 1) as usize) by {
                    if ps0[w] == Some((i - 1) as usize) {
                        assert(tr0[i - 1].lit.var == w);
                    }
                }
            }
        }
        self.trail.backtrack(level);
        if self.propagation_queue > start {
            self.propagation_queue = start;
        }
        proof {
            let tr = self.trail.spec_entries();
            let b = self.trail.spec_boundaries();
            let a = self.assignment@;
            let ps = self.assignment_trail_pos@;
            assert(tr == tr0.take(start as int));
            assert(b == b0.take(level + 1));
            assert forall|v: int| 0 <= v < a0.len() implies a[v] == unassigned_from(a0, tr0, start as int)[v] by {
                if ps0[v] is Some && start <= ps0[v].unwrap() {
                    let p = ps0[v].unwrap() as int;
                    assert(tr0[p].lit.var == v);
                } else {
                    if exists|p: int| start <= p < tr0.len() && (#[trigger] tr0[p]).lit.var == v {
                        let p = choose|p: int| start <= p < tr0.len() && (#[trigger] tr0[p]).lit.var == v;
                        assert(ps0[v] == Some(p as usize));
                    }
                }
            }
            assert(a =~= unassigned_from(a0, tr0, start as int));
            assert forall|p: int| 0 <= p < tr.len() implies {
                &&& (#[trigger] tr[p]).lit.var < self.var_count
                &&& a[tr[p].lit.var as int] == Some(tr[p].lit.sign)
                &&& ps[tr[p].lit.var as int] == Some(p as usize)
            } by {
                assert(tr[p] == tr0[p]);
            }
            assert forall|v: int| 0 <= v < self.var_count && (#[trigger] ps[v]) is Some implies ps[v].unwrap() < tr.len()
                && tr[ps[v].unwrap() as int].lit.var == v by {
                assert(tr[ps[v].unwrap() as int] == tr0[ps[v].unwrap() as int]);
            }
            assert forall|p: int, m: int|
                #![trigger tr[p], b[m]]
                0 <= p < tr.len() && 1 <= m < b.len() && p < b[m] implies tr[p].level < m by {
                assert(tr[p] == tr0[p]);
                assert(b[m] == b0[m]);
            }
            assert forall|p: int| 0 <= p < tr.len() implies (#[trigger] tr[p]).level < b.len() by {
                assert(tr[p] == tr0[p]);
                assert(b0[level + 1] == start);
                assert(tr0[p].level < level + 1);
            }
            assert forall|m: int| 1 <= m < b.len() implies #[trigger] b[m] < tr.len() by {
                assert(b[m] == b0[m]);
                assert(b0[level + 1] == start);
            }
            assert forall|m1: int, m2: int| 1 <= m1 < m2 < b.len() implies #[trigger] b[m1] < #[trigger] b[m2] by {
                assert(b[m1] == b0[m1]);
                assert(b[m2] == b0[m2]);
            }
            assert(self.reasons_ok()) by {
                assert forall|p: int| 0 <= p < tr.len() && (#[trigger] tr[p]).reason is Propagation implies {
                    &&& tr[p].reason->0 < self.clauses@.len()
                    &&& self.clauses@[tr[p].reason->0 as int].lits.contains(tr[p].lit)
                } by {
                    assert(tr[p] == tr0[p]);
                }
            }
        }
    }
}


impl Solver {
    /// Ensure capacity for at least `count` variables: new variables start
    /// unassigned, and growing starts every watch list afresh.
    fn ensure_var_capacity(&mut self, count: usize)
        requires
            old(self).wf(),
            2 * count <= usize::MAX,
        ensures
            final(self).wf(),
            count <= old(self).spec_var_count() ==> *final(self) == *old(self),
            count > old(self).spec_var_count() ==> {
                &&& final(self).spec_var_count() == count
                &&& final(self).spec_assignment() == grown(old(self).spec_assignment(), count as nat)
                &&& final(self).spec_watches() == grown_watches(old(self).spec_watches(), count as nat)
            },
            final(self).spec_clauses() == old(self).spec_clauses(),
            final(self).spec_trail() == old(self).spec_trail(),
            final(self).spec_levels() == old(self).spec_levels(),
            final(self).spec_queue() == old(self).spec_queue(),
            final(self).spec_stats() == old(self).spec_stats(),
    {
        if count > self.var_count {
            let ghost a0 = self.assignment@;
            let ghost ps0 = self.assignment_trail_pos@;
            let mut i: usize = self.var_count;
            while i < count
                invariant
                    old(self).var_count <= i <= count,
                    self.assignment@ == grown(a0, i as nat),
                    self.assignment_trail_pos@ == ps0 + Seq::new((i - old(self).var_count) as nat, |k: int| None::<usize>),
                    a0 == old(self).assignment@,
                    ps0 == old(self).assignment_trail_pos@,
                    a0.len() == old(self).var_count,
                    ps0.len() == old(self).var_count,
                    self.trail == old(self).trail,
                    self.var_count == old(self).var_count,
                    self.clauses == old(self).clauses,
                    self.watch == old(self).watch,
                    self.propagation_queue == old(self).propagation_queue,
                    self.stats == old(self).stats,
                decreases count - i,
            {
                self.assignment.push(None);
                self.assignment_trail_pos.push(None);
                i = i + 1;
                assert(self.assignment@ =~= grown(a0, i as nat));
                assert(self.assignment_trail_pos@ =~= ps0 + Seq::new((i - old(self).var_count) as nat, |k: int| None::<usize>));
            }
            self.var_count = count;
            let ghost wv = self.watch@;
            self.watch.grow(count);
            assert forall|i: int, k: int|
                0 <= i < self.watch@.len() && 0 <= k < self.watch@[i].len() implies #[trigger] self.watch@[i][k]
                < self.clauses@.len() by {
                assert(i < wv.len());
                assert(self.watch@[i] == wv[i]);
            }
            proof {
                let a = self.assignment@;
                let ps = self.assignment_trail_pos@;
                let tr = self.trail.spec_entries();
                assert forall|v: int| 0 <= v < self.var_count implies ((#[trigger] a[v]) is Some <==> ps[v] is Some) by {
                    if v < a0.len() {
                        assert(a[v] == a0[v]);
                        assert(ps[v] == ps0[v]);
                    }
                }
                assert forall|v: int| 0 <= v < self.var_count && (#[trigger] ps[v]) is Some implies ps[v].unwrap() < tr.len()
                    && tr[ps[v].unwrap() as int].lit.var == v by {
                    if v >= ps0.len() {
                        assert(ps[v] is None);
                    } else {
                        assert(ps[v] == ps0[v]);
                    }
                }
                assert forall|p: int| 0 <= p < tr.len() implies {
                    &&& (#[trigger] tr[p]).lit.var < self.var_count
                    &&& a[tr[p].lit.var as int] == Some(tr[p].lit.sign)
                    &&& ps[tr[p].lit.var as int] == Some(p as usize)
                } by {
                    assert(a[tr[p].lit.var as int] == a0[tr[p].lit.var as int]);
                    assert(ps[tr[p].lit.var as int] == ps0[tr[p].lit.var as int]);
                }
            }
        }
    }

    /// Add a clause (as a list of literals) to the solver.
    ///
    /// Extends the variable count as needed and sets up watches. A unit
    /// clause is enqueued at once when its variable is free, dropped when it
    /// already holds, and recorded as an empty clause when its variable holds
    /// the opposite value. An empty clause makes the problem unsatisfiable.
    pub fn add_clause(&mut self, lits: &[Lit])
        requires
            old(self).wf(),
            forall|k: int| 0 <= k < lits@.len() ==> 2 * ((#[trigger] lits@[k]).var + 1) <= usize::MAX,
        ensures
            final(self).wf(),
            final(self).spec_stats() == old(self).spec_stats(),
            final(self).spec_levels() == old(self).spec_levels(),
            final(self).spec_queue() == old(self).spec_queue(),
            lits@.len() == 0 ==> {
                &&& final(self).spec_clauses() == old(self).spec_clauses().push(
                    ClauseView { lits: Seq::empty(), is_learned: false, deleted: false },
                )
                &&& final(self).spec_var_count() == old(self).spec_var_count()
                &&& final(self).spec_assignment() == old(self).spec_assignment()
                &&& final(self).spec_trail() == old(self).spec_trail()
                &&& final(self).spec_watches() == old(self).spec_watches()
            },
            lits@.len() > 0 ==> ({
                let grows = var_bound(lits@) > old(self).spec_var_count();
                let n = if grows { var_bound(lits@) } else { old(self).spec_var_count() };
                let a0 = grown(old(self).spec_assignment(), n);
                let w0 = if grows { grown_watches(old(self).spec_watches(), n) } else { old(self).spec_watches() };
                let id = old(self).spec_clauses().len() as ClauseId;
                let lit = lits@[0];
                let stored = ClauseView { lits: lits@, is_learned: false, deleted: false };
                &&& final(self).spec_var_count() == n
                &&& lits@.len() == 1 && a0[lit.var as int] == Some(lit.sign) ==> {
                    &&& final(self).spec_clauses() == old(self).spec_clauses()
                    &&& final(self).spec_assignment() == a0
                    &&& final(self).spec_trail() == old(self).spec_trail()
                    &&& final(self).spec_watches() == w0
                }
                &&& lits@.len() == 1 && a0[lit.var as int] == Some(!lit.sign) ==> {
                    &&& final(self).spec_clauses() == old(self).spec_clauses().push(
                        ClauseView { lits: Seq::empty(), is_learned: false, deleted: false },
                    )
                    &&& final(self).spec_assignment() == a0
                    &&& final(self).spec_trail() == old(self).spec_trail()
                    &&& final(self).spec_watches() == w0
                }
                &&& lits@.len() == 1 && a0[lit.var as int] is None ==> {
                    &&& final(self).spec_clauses() == old(self).spec_clauses().push(stored)
                    &&& final(self).spec_assignment() == a0.update(lit.var as int, Some(lit.sign))
                    &&& final(self).spec_trail() == old(self).spec_trail().push(
                        TrailEntry {
                            lit,
                            level: (old(self).spec_levels().len() - 1) as usize,
                            reason: Reason::Propagation(id),
                        },
                    )
                    &&& final(self).spec_watches() == w0
                }
                &&& lits@.len() >= 2 ==> {
                    let i0 = index_of(lits@[0]);
                    let i1 = index_of(lits@[1]);
                    let w1 = w0.update(i0, w0[i0].push(id));
                    &&& final(self).spec_clauses() == old(self).spec_clauses().push(stored)
                    &&& final(self).spec_assignment() == a0
                    &&& final(self).spec_trail() == old(self).spec_trail()
                    &&& final(self).spec_watches() == w1.update(i1, w1[i1].push(id))
                }
            }),
    {
        if lits.len() == 0 {
            self.clauses.alloc_clause(Clause::new(Vec::new()));
            proof {
                self.lemma_clauses_grow(old(self).clauses@, self.clauses@);
            }
            return;
        }
        let mut max_var: usize = lits[0].var;
        let mut i: usize = 1;
        assert(lits@.take(1).drop_last() =~= Seq::<Lit>::empty());
        assert(lits@.take(1).last() == lits@[0]);
        assert(var_bound(lits@.take(1).drop_last()) == 0);
        while i < lits.len()
            invariant
                1 <= i <= lits@.len(),
                max_var + 1 == var_bound(lits@.take(i as int)),
                2 * (max_var + 1) <= usize::MAX,
                forall|k: int| 0 <= k < lits@.len() ==> 2 * ((#[trigger] lits@[k]).var + 1) <= usize::MAX,
            decreases lits@.len() - i,
        {
            assert(lits@.take(i + 1).drop_last() =~= lits@.take(i as int));
            assert(lits@.take(i + 1).last() == lits@[i as int]);
            if lits[i].var > max_var {
                max_var = lits[i].var;
            }
            i = i + 1;
        }
        assert(lits@.take(i as int) =~= lits@);
        proof {
            lemma_var_bound(lits@);
        }
        self.ensure_var_capacity(max_var + 1);
        let ghost mid = *self;
        if lits.len() == 1 {
            let lit = lits[0];
            match self.assignment[lit.var] {
                Some(v) => {
                    if v == lit.sign {
                        return;
                    }
                    self.clauses.alloc_clause(Clause::new(Vec::new()));
                    proof {
                        self.lemma_clauses_grow(mid.clauses@, self.clauses@);
                    }
                    return;
                },
                None => {
                    let clause = Clause::new(lits_to_vec(lits));
                    let id = self.clauses.alloc_clause(clause);
                    proof {
                        self.lemma_clauses_grow(mid.clauses@, self.clauses@);
                        assert(self.clauses@[id as int].lits[0] == lit);
                    }
                    self.assign_lit(lit, Reason::Propagation(id));
                    return;
                },
            }
        }
        let clause = Clause::new(lits_to_vec(lits));
        let id = self.clauses.alloc_clause(clause);
        proof {
            self.lemma_clauses_grow(mid.clauses@, self.clauses@);
        }
        self.watch.watch(lits[0], id);
        self.watch.watch(lits[1], id);
        proof {
            assert forall|i: int, k: int|
                0 <= i < self.watch@.len() && 0 <= k < self.watch@[i].len() implies #[trigger] self.watch@[i][k]
                < self.clauses@.len() by {
                let w1 = mid.watch@.update(index_of(lits@[0]), mid.watch@[index_of(lits@[0])].push(id));
                if i == index_of(lits@[1]) && k == self.watch@[i].len() - 1 {
                } else if i == index_of(lits@[1]) {
                    assert(self.watch@[i][k] == w1[i][k]);
                    if i == index_of(lits@[0]) && k == w1[i].len() - 1 {
                    } else if i == index_of(lits@[0]) {
                        assert(w1[i][k] == mid.watch@[i][k]);
                    }
                } else if i == index_of(lits@[0]) {
                    if k < mid.watch@[i].len() {
                        assert(self.watch@[i][k] == mid.watch@[i][k]);
                    }
                } else {
                    assert(self.watch@[i][k] == mid.watch@[i][k]);
                }
            }
        }
    }

    /// Storing one more clause over known variables keeps the clause-side
    /// parts of the invariant.
    proof fn lemma_clauses_grow(&self, before: Seq<ClauseView>, after: Seq<ClauseView>)
        requires
            after.len() == before.len() + 1,
            forall|c: int| 0 <= c < before.len() ==> #[trigger] after[c] == before[c],
            self.clauses@ == after,
            forall|k: int| 0 <= k < after.last().lits.len() ==> (#[trigger] after.last().lits[k]).var < self.var_count,
            forall|c: int, k: int|
                0 <= c < before.len() && 0 <= k < before[c].lits.len() ==> (#[trigger] before[c].lits[k]).var
                    < self.var_count,
            forall|i: int, k: int|
                0 <= i < self.watch@.len() && 0 <= k < self.watch@[i].len() ==> #[trigger] self.watch@[i][k] < before.len(),
            forall|p: int|
                0 <= p < self.trail.spec_entries().len() && (#[trigger] self.trail.spec_entries()[p]).reason is Propagation
                    ==> {
                    &&& self.trail.spec_entries()[p].reason->0 < before.len()
                    &&& before[self.trail.spec_entries()[p].reason->0 as int].lits.contains(self.trail.spec_entries()[p].lit)
                },
        ensures
            self.clauses_ok(),
            forall|i: int, k: int|
                0 <= i < self.watch@.len() && 0 <= k < self.watch@[i].len() ==> #[trigger] self.watch@[i][k] < self.clauses@.len(),
            self.reasons_ok(),
    {
        assert forall|c: int, k: int|
            0 <= c < self.clauses@.len() && 0 <= k < self.clauses@[c].lits.len() implies (
            #[trigger] self.clauses@[c].lits[k]).var < self.var_count by {
            if c < before.len() {
                assert(after[c] == before[c]);
            } else {
                assert(after[c] == after.last());
            }
        }
        let tr = self.trail.spec_entries();
        assert forall|p: int| 0 <= p < tr.len() && (#[trigger] tr[p]).reason is Propagation implies {
            &&& tr[p].reason->0 < self.clauses@.len()
            &&& self.clauses@[tr[p].reason->0 as int].lits.contains(tr[p].lit)
        } by {
            assert(after[tr[p].reason->0 as int] == before[tr[p].reason->0 as int]);
        }
    }
}

/// `var_bound` is one more than the variable of some literal, and no
/// literal's variable reaches it.
proof fn lemma_var_bound(s: Seq<Lit>)
    requires
        s.len() > 0,
    ensures
        exists|k: int| 0 <= k < s.len() && var_bound(s) == s[k].var + 1,
        forall|k: int| 0 <= k < s.len() ==> (#[trigger] s[k]).var < var_bound(s),
    decreases s.len(),
{
    if s.len() > 1 {
        lemma_var_bound(s.drop_last());
        let k = choose|k: int| 0 <= k < s.drop_last().len() && var_bound(s.drop_last()) == s.drop_last()[k].var + 1;
        assert(s[k] == s.drop_last()[k]);
        if var_bound(s) == s.last().var + 1 {
            assert(var_bound(s) == s[s.len() - 1].var + 1);
        } else {
            assert(var_bound(s) == s[k].var + 1);
        }
        assert forall|j: int| 0 <= j < s.len() implies (#[trigger] s[j]).var < var_bound(s) by {
            if j < s.len() - 1 {
                assert(s[j] == s.drop_last()[j]);
            }
        }
    } else {
        assert(s.drop_last().len() == 0);
        assert(var_bound(s.drop_last()) == 0);
        assert(var_bound(s) == s[0].var + 1);
    }
}


/// How many variables are unassigned.
pub open spec fn count_unassigned(a: Seq<Option<bool>>) -> nat
    decreases a.len(),
{
    if a.len() == 0 {
        0
    } else {
        count_unassigned(a.drop_last()) + if a.last() is None { 1nat } else { 0nat }
    }
}

/// Assigning an unassigned variable leaves one fewer unassigned.
proof fn lemma_count_assign(a: Seq<Option<bool>>, v: int, b: bool)
    requires
        0 <= v < a.len(),
        a[v] is None,
    ensures
        count_unassigned(a.update(v, Some(b))) + 1 == count_unassigned(a),
    decreases a.len(),
{
    let u = a.update(v, Some(b));
    if v == a.len() - 1 {
        assert(u.drop_last() =~= a.drop_last());
    } else {
        assert(u.drop_last() =~= a.drop_last().update(v, Some(b)));
        lemma_count_assign(a.drop_last(), v, b);
    }
}

/// After removing one occurrence of a clause from a watch list, every list
/// still names only stored clauses.
proof fn lemma_watch_removed(
    before: Seq<Seq<ClauseId>>,
    after: Seq<Seq<ClauseId>>,
    li: int,
    bound: nat,
)
    requires
        0 <= li < before.len(),
        forall|i: int, k: int| 0 <= i < before.len() && 0 <= k < before[i].len() ==> #[trigger] before[i][k] < bound,
        after == before || exists|pos: int|
            0 <= pos < before[li].len() && after == before.update(li, before[li].update(pos, before[li].last()).drop_last()),
    ensures
        after.len() == before.len(),
        forall|i: int, k: int| 0 <= i < after.len() && 0 <= k < after[i].len() ==> #[trigger] after[i][k] < bound,
{
    if after != before {
        let pos = choose|pos: int|
            0 <= pos < before[li].len() && after == before.update(li, before[li].update(pos, before[li].last()).drop_last());
        assert forall|i: int, k: int| 0 <= i < after.len() && 0 <= k < after[i].len() implies #[trigger] after[i][k] < bound by {
            if i == li {
                if k == pos {
                    assert(after[i][k] == before[li][before[li].len() - 1]);
                } else {
                    assert(after[i][k] == before[li][k]);
                }
            } else {
                assert(after[i] == before[i]);
            }
        }
    }
}

/// After adding a stored clause to a watch list, every list still names only
/// stored clauses.
proof fn lemma_watch_added(before: Seq<Seq<ClauseId>>, li: int, c: ClauseId, bound: nat)
    requires
        0 <= li < before.len(),
        c < bound,
        forall|i: int, k: int| 0 <= i < before.len() && 0 <= k < before[i].len() ==> #[trigger] before[i][k] < bound,
    ensures
        forall|i: int, k: int|
            0 <= i < before.len() && 0 <= k < before.update(li, before[li].push(c))[i].len() ==> #[trigger] before.update(
                li,
                before[li].push(c),
            )[i][k] < bound,
{
    let after = before.update(li, before[li].push(c));
    assert forall|i: int, k: int| 0 <= i < before.len() && 0 <= k < after[i].len() implies #[trigger] after[i][k] < bound by {
        if i == li && k < before[li].len() {
            assert(after[i][k] == before[li][k]);
        } else if i != li {
            assert(after[i] == before[i]);
        }
    }
}

/// A copy of a slice of clause ids.
fn ids_to_vec(s: &[ClauseId]) -> (v: Vec<ClauseId>)
    ensures
        v@ == s@,
{
    let mut v: Vec<ClauseId> = Vec::new();
    let mut i: usize = 0;
    while i < s.len()
        invariant
            i <= s@.len(),
            v@ == s@.take(i as int),
        decreases s@.len() - i,
    {
        v.push(s[i]);
        i = i + 1;
        assert(v@ =~= s@.take(i as int));
    }
    assert(s@.take(i as int) =~= s@);
    v
}

impl Solver {
    /// Whether clause `c` is in the watch list of `lit`.
    fn watches_clause(&self, lit: Lit, c: ClauseId) -> (b: bool)
        requires
            self.wf(),
            lit.var < self.spec_var_count(),
        ensures
            b == self.spec_watches()[index_of(lit)].contains(c),
    {
        let ws = self.watch.watches(lit);
        let mut i: usize = 0;
        while i < ws.len()
            invariant
                i <= ws@.len(),
                ws@ == self.watch@[index_of(lit)],
                forall|k: int| 0 <= k < i ==> ws@[k] != c,
            decreases ws@.len() - i,
        {
            if ws[i] == c {
                assert(ws@[i as int] == c);
                return true;
            }
            i = i + 1;
        }
        false
    }

    /// Process a clause that watches `false_lit` (which just became false).
    ///
    /// The first literal other than `false_lit` that is not false and does
    /// not watch the clause yet takes over the watch: the clause is added to
    /// that literal's list and one occurrence is removed from the list of
    /// `false_lit`. When there is no such literal, the clause is satisfied
    /// (a literal is true), unit (one literal is left unassigned, and it is
    /// assigned with the clause as its reason) or a conflict (every literal
    /// is false): `Some(true)` for a conflict. A deleted clause is skipped.
    fn process_watched_clause(&mut self, clause_id: ClauseId, false_lit: Lit) -> (r: Option<bool>)
        requires
            old(self).wf(),
            clause_id < old(self).spec_clauses().len(),
            false_lit.var < old(self).spec_var_count(),
            lit_is_false(old(self).spec_assignment(), false_lit),
        ensures
            final(self).wf(),
            final(self).spec_clauses() == old(self).spec_clauses(),
            final(self).spec_var_count() == old(self).spec_var_count(),
            final(self).spec_levels() == old(self).spec_levels(),
            final(self).spec_queue() == old(self).spec_queue(),
            ({
                let c = old(self).spec_clauses()[clause_id as int];
                let a = old(self).spec_assignment();
                let w = old(self).spec_watches();
                let repl = first_free(c.lits, a, w, clause_id, false_lit, 0);
                let open = !c.deleted && repl is None;
                &&& r == Some(open && all_false_but(c.lits, a, false_lit))
                &&& !(!c.deleted && repl is Some) ==> final(self).spec_watches() == w
                &&& !c.deleted && repl is Some ==> removed_once(
                    w.update(index_of(repl->0), w[index_of(repl->0)].push(clause_id)),
                    final(self).spec_watches(),
                    index_of(false_lit),
                    clause_id,
                )
                &&& forall|l: Lit| open && #[trigger] unit_under(c.lits, a, false_lit, l) ==> {
                    &&& final(self).spec_assignment() == a.update(l.var as int, Some(l.sign))
                    &&& final(self).spec_trail() == old(self).spec_trail().push(
                        TrailEntry {
                            lit: l,
                            level: (old(self).spec_levels().len() - 1) as usize,
                            reason: Reason::Propagation(clause_id),
                        },
                    )
                }
                &&& !(open && exists|l: Lit| #[trigger] unit_under(c.lits, a, false_lit, l)) ==> {
                    &&& final(self).spec_assignment() == a
                    &&& final(self).spec_trail() == old(self).spec_trail()
                }
            }),
            r == Some(true) ==> {
                &&& !final(self).spec_clauses()[clause_id as int].deleted
                &&& forall|k: int|
                    0 <= k < final(self).spec_clauses()[clause_id as int].lits.len() ==> lit_is_false(
                        final(self).spec_assignment(),
                        #[trigger] final(self).spec_clauses()[clause_id as int].lits[k],
                    )
            },
    {
        let ghost cv = self.clauses@[clause_id as int];
        let ghost a0 = self.assignment@;
        let ghost w0 = self.watch@;
        let clause = self.clauses.get(clause_id).duplicate();
        if clause.deleted {
            return Some(false);
        }
        let n = clause.lits.len();
        let mut replacement: Option<Lit> = None;
        let mut j: usize = 0;
        while j < n && replacement.is_none()
            invariant
                self.wf(),
                *self == *old(self),
                a0 == self.assignment@,
                w0 == self.watch@,
                clause@ == cv,
                cv == self.clauses@[clause_id as int],
                clause_id < self.clauses@.len(),
                n == cv.lits.len(),
                j <= n,
                replacement is None ==> forall|k: int|
                    0 <= k < j ==> cv.lits[k] == false_lit || lit_is_false(a0, #[trigger] cv.lits[k])
                        || w0[index_of(cv.lits[k])].contains(clause_id),
                replacement matches Some(l) ==> cv.lits.contains(l) && first_free(cv.lits, a0, w0, clause_id, false_lit, 0) == Some(l),
            decreases n - j,
        {
            let lit = clause.lits[j];
            assert(cv.lits[j as int].var < self.var_count);
            assert(cv.lits[j as int] == lit);
            if lit != false_lit && !self.lit_false(lit) && !self.watches_clause(lit, clause_id) {
                proof {
                    lemma_first_free_skip(cv.lits, a0, w0, clause_id, false_lit, j as int);
                }
                replacement = Some(lit);
            }
            j = j + 1;
        }
        if let Some(repl) = replacement {
            let ghost k = choose|k: int| 0 <= k < cv.lits.len() && cv.lits[k] == repl;
            assert(cv.lits[k].var < self.var_count);
            self.watch.watch(repl, clause_id);
            proof {
                lemma_watch_added(w0, index_of(repl), clause_id, self.clauses@.len());
            }
            let ghost w1 = self.watch@;
            self.watch.remove_watch(false_lit, clause_id);
            proof {
                lemma_watch_removed(w1, self.watch@, index_of(false_lit), self.clauses@.len());
            }
            return Some(false);
        }
        proof {
            lemma_first_free_skip(cv.lits, a0, w0, clause_id, false_lit, n as int);
        }
        let mut unassigned: Option<Lit> = None;
        let mut j: usize = 0;
        while j < n
            invariant
                self.wf(),
                *self == *old(self),
                a0 == self.assignment@,
                false_lit.var < self.var_count,
                lit_is_false(self.assignment@, false_lit),
                clause@ == cv,
                cv == self.clauses@[clause_id as int],
                clause_id < self.clauses@.len(),
                n == cv.lits.len(),
                j <= n,
                w0 == self.watch@,
                !cv.deleted,
                first_free(cv.lits, a0, w0, clause_id, false_lit, 0) is None,
                forall|k: int|
                    0 <= k < j ==> cv.lits[k] == false_lit || lit_is_false(a0, #[trigger] cv.lits[k])
                        || unassigned == Some(cv.lits[k]),
                unassigned matches Some(u) ==> cv.lits.contains(u) && u != false_lit && a0[u.var as int] is None,
            decreases n - j,
        {
            let lit = clause.lits[j];
            assert(cv.lits[j as int].var < self.var_count);
            assert(cv.lits[j as int] == lit);
            if lit != false_lit {
                match self.lit_value(lit) {
                    Some(true) => {
                        proof {
                            assert forall|l: Lit| !#[trigger] unit_under(cv.lits, a0, false_lit, l) by {
                                if unit_under(cv.lits, a0, false_lit, l) {
                                    assert(cv.lits[j as int] == l);
                                }
                            }
                            assert(!all_false_but(cv.lits, a0, false_lit));
                        }
                        return Some(false);
                    },
                    Some(false) => {},
                    None => {
                        if let Some(u) = unassigned {
                            if u != lit {
                                proof {
                                    assert forall|l: Lit| !#[trigger] unit_under(cv.lits, a0, false_lit, l) by {
                                        if unit_under(cv.lits, a0, false_lit, l) {
                                            let q = choose|q: int| 0 <= q < cv.lits.len() && cv.lits[q] == u;
                                            assert(cv.lits[q] == l);
                                            assert(cv.lits[j as int] == l);
                                        }
                                    }
                                    assert(!all_false_but(cv.lits, a0, false_lit));
                                }
                                return Some(false);
                            }
                        }
                        unassigned = Some(lit);
                    },
                }
            }
            j = j + 1;
        }
        match unassigned {
            Some(unit_lit) => {
                proof {
                    assert(unit_under(cv.lits, a0, false_lit, unit_lit));
                    assert forall|l: Lit| #[trigger] unit_under(cv.lits, a0, false_lit, l) implies l == unit_lit by {
                        let q = choose|q: int| 0 <= q < cv.lits.len() && cv.lits[q] == l;
                        assert(cv.lits[q] == false_lit || lit_is_false(a0, cv.lits[q]) || unassigned == Some(cv.lits[q]));
                    }
                    assert(!all_false_but(cv.lits, a0, false_lit)) by {
                        let q = choose|q: int| 0 <= q < cv.lits.len() && cv.lits[q] == unit_lit;
                    }
                }
                self.assign_lit(unit_lit, Reason::Propagation(clause_id));
                self.stats.propagations = self.stats.propagations.saturating_add(1);
                Some(false)
            },
            None => {
                proof {
                    assert(all_false_but(cv.lits, a0, false_lit));
                    assert forall|l: Lit| !#[trigger] unit_under(cv.lits, a0, false_lit, l) by {
                        if unit_under(cv.lits, a0, false_lit, l) {
                            let q = choose|q: int| 0 <= q < cv.lits.len() && cv.lits[q] == l;
                            assert(cv.lits[q] == false_lit || lit_is_false(a0, cv.lits[q]));
                        }
                    }
                }
                Some(true)
            },
        }
    }
}

/// The first literal of `lits` from position `j` on that differs from `fl`,
/// is not false under `a`, and does not watch clause `c` yet (its list in
/// `w` lacks `c`).
pub open spec fn first_free(lits: Seq<Lit>, a: Seq<Option<bool>>, w: Seq<Seq<ClauseId>>, c: ClauseId, fl: Lit, j: int) -> Option<Lit>
    decreases lits.len() - j,
{
    if j < 0 || j >= lits.len() {
        None
    } else if lits[j] != fl && !lit_is_false(a, lits[j]) && !w[index_of(lits[j])].contains(c) {
        Some(lits[j])
    } else {
        first_free(lits, a, w, c, fl, j + 1)
    }
}

/// Every literal of `lits` other than `fl` is false under `a`.
pub open spec fn all_false_but(lits: Seq<Lit>, a: Seq<Option<bool>>, fl: Lit) -> bool {
    forall|k: int| 0 <= k < lits.len() ==> lits[k] == fl || lit_is_false(a, #[trigger] lits[k])
}

/// `l` is the one literal of `lits`, besides `fl`, left unassigned under
/// `a`, every other literal but `fl` being false: the clause forces `l`.
pub open spec fn unit_under(lits: Seq<Lit>, a: Seq<Option<bool>>, fl: Lit, l: Lit) -> bool {
    &&& lits.contains(l)
    &&& l != fl
    &&& a[l.var as int] is None
    &&& forall|k: int| 0 <= k < lits.len() ==> lits[k] == fl || lits[k] == l || lit_is_false(a, #[trigger] lits[k])
}

/// Skipping literals that are `fl`, false, or already watching `c` does not
/// change the first free one.
proof fn lemma_first_free_skip(lits: Seq<Lit>, a: Seq<Option<bool>>, w: Seq<Seq<ClauseId>>, c: ClauseId, fl: Lit, j: int)
    requires
        0 <= j <= lits.len(),
        forall|k: int| 0 <= k < j ==> lits[k] == fl || lit_is_false(a, #[trigger] lits[k]) || w[index_of(lits[k])].contains(c),
    ensures
        first_free(lits, a, w, c, fl, 0) == first_free(lits, a, w, c, fl, j),
    decreases j,
{
    if j > 0 {
        lemma_first_free_skip(lits, a, w, c, fl, j - 1);
        assert(lits[j - 1] == fl || lit_is_false(a, lits[j - 1]) || w[index_of(lits[j - 1])].contains(c));
    }
}

/// `after` is `before` with the first occurrence of `c` in list `li`
/// replaced by that list's last entry and the last entry dropped, or
/// `before` itself when `c` is not in the list.
pub open spec fn removed_once(before: Seq<Seq<ClauseId>>, after: Seq<Seq<ClauseId>>, li: int, c: ClauseId) -> bool {
    ||| (!before[li].contains(c) && after == before)
    ||| exists|pos: int| {
        &&& 0 <= pos < before[li].len()
        &&& before[li][pos] == c
        &&& (forall|k: int| 0 <= k < pos ==> before[li][k] != c)
        &&& after == before.update(li, before[li].update(pos, before[li].last()).drop_last())
    }
}

impl Solver {
    /// Unit propagation over the watch lists: processes each assigned
    /// literal not yet propagated, visiting the clauses that watch its
    /// negation. Returns the first clause found with every literal false.
    pub fn propagate(&mut self) -> (conflict: Option<ClauseId>)
        requires
            old(self).wf(),
        ensures
            final(self).wf(),
            final(self).spec_clauses() == old(self).spec_clauses(),
            final(self).spec_var_count() == old(self).spec_var_count(),
            final(self).spec_levels() == old(self).spec_levels(),
            final(self).spec_trail().len() >= old(self).spec_trail().len(),
            final(self).spec_trail().take(old(self).spec_trail().len() as int) == old(self).spec_trail(),
            forall|p: int|
                old(self).spec_trail().len() <= p < final(self).spec_trail().len()
                    ==> (#[trigger] final(self).spec_trail()[p]).reason is Propagation,
            forall|v: int|
                0 <= v < old(self).spec_var_count() && (#[trigger] old(self).spec_assignment()[v]) is Some
                    ==> final(self).spec_assignment()[v] == old(self).spec_assignment()[v],
            conflict is None ==> final(self).spec_queue() == final(self).spec_trail().len(),
            conflict matches Some(c) ==> {
                &&& c < final(self).spec_clauses().len()
                &&& !final(self).spec_clauses()[c as int].deleted
                &&& forall|k: int|
                    0 <= k < final(self).spec_clauses()[c as int].lits.len() ==> lit_is_false(
                        final(self).spec_assignment(),
                        #[trigger] final(self).spec_clauses()[c as int].lits[k],
                    )
            },
    {
        let ghost tr0 = self.trail.spec_entries();
        let ghost a0 = self.assignment@;
        let ghost total = count_unassigned(self.assignment@) + self.trail.spec_entries().len();
        while self.propagation_queue < self.trail.len()
            invariant
                self.wf(),
                self.clauses@ == old(self).clauses@,
                self.var_count == old(self).var_count,
                self.trail.spec_boundaries() == old(self).trail.spec_boundaries(),
                tr0 == old(self).trail.spec_entries(),
                a0 == old(self).assignment@,
                a0.len() == self.var_count,
                self.trail.spec_entries().len() >= tr0.len(),
                forall|p: int| 0 <= p < tr0.len() ==> #[trigger] self.trail.spec_entries()[p] == tr0[p],
                forall|p: int|
                    tr0.len() <= p < self.trail.spec_entries().len() ==> (#[trigger] self.trail.spec_entries()[p]).reason is Propagation,
                forall|v: int| 0 <= v < self.var_count && (#[trigger] a0[v]) is Some ==> self.assignment@[v] == a0[v],
                count_unassigned(self.assignment@) + self.trail.spec_entries().len() == total,
            decreases total - self.propagation_queue,
        {
            let p = self.trail.get(self.propagation_queue).lit;
            self.propagation_queue = self.propagation_queue + 1;
            let not_p = p.not();
            let ids = ids_to_vec(self.watch.watches(not_p));
            let ghost q = self.propagation_queue;
            let mut k: usize = 0;
            while k < ids.len()
                invariant
                    self.wf(),
                    self.clauses@ == old(self).clauses@,
                    self.var_count == old(self).var_count,
                    self.trail.spec_boundaries() == old(self).trail.spec_boundaries(),
                    self.propagation_queue == q,
                    q <= total,
                    tr0 == old(self).trail.spec_entries(),
                    a0 == old(self).assignment@,
                    a0.len() == self.var_count,
                    self.trail.spec_entries().len() >= tr0.len(),
                    forall|p: int| 0 <= p < tr0.len() ==> #[trigger] self.trail.spec_entries()[p] == tr0[p],
                    forall|p: int|
                        tr0.len() <= p < self.trail.spec_entries().len() ==> (#[trigger] self.trail.spec_entries()[p]).reason is Propagation,
                    forall|v: int| 0 <= v < self.var_count && (#[trigger] a0[v]) is Some ==> self.assignment@[v] == a0[v],
                    count_unassigned(self.assignment@) + self.trail.spec_entries().len() == total,
                    forall|j: int| 0 <= j < ids@.len() ==> #[trigger] ids@[j] < self.clauses@.len(),
                    not_p.var < self.var_count,
                    lit_is_false(self.assignment@, not_p),
                    k <= ids@.len(),
                decreases ids@.len() - k,
            {
                let cid = ids[k];
                let ghost tr1 = self.trail.spec_entries();
                let ghost a1 = self.assignment@;
                let ghost w1 = self.watch@;
                let res = self.process_watched_clause(cid, not_p);
                proof {
                    let c = self.clauses@[cid as int];
                    let open = !c.deleted && first_free(c.lits, a1, w1, cid, not_p, 0) is None;
                    if open && exists|l: Lit| #[trigger] unit_under(c.lits, a1, not_p, l) {
                        let l = choose|l: Lit| #[trigger] unit_under(c.lits, a1, not_p, l);
                        assert(c.lits.contains(l));
                        let q = choose|q: int| 0 <= q < c.lits.len() && c.lits[q] == l;
                        assert(c.lits[q].var < self.var_count);
                        lemma_count_assign(a1, l.var as int, l.sign);
                    }
                }
                match res {
                    Some(true) => {
                        proof {
                            assert(self.trail.spec_entries().take(tr1.len() as int) =~= tr1);
                            self.lemma_prefix_kept(tr0, tr1, a0, a1);
                        }
                        return Some(cid);
                    },
                    Some(false) => {},
                    None => {
                        return None;
                    },
                }
                proof {
                    assert(self.trail.spec_entries().take(tr1.len() as int) =~= tr1);
                    self.lemma_prefix_kept(tr0, tr1, a0, a1);
                }
                k = k + 1;
            }
        }
        assert(self.trail.spec_entries().take(tr0.len() as int) =~= tr0);
        None
    }

    /// Chains the facts kept by one more step of propagation.
    proof fn lemma_prefix_kept(
        &self,
        tr0: Seq<TrailEntry>,
        tr1: Seq<TrailEntry>,
        a0: Seq<Option<bool>>,
        a1: Seq<Option<bool>>,
    )
        requires
            tr1.len() >= tr0.len(),
            forall|p: int| 0 <= p < tr0.len() ==> #[trigger] tr1[p] == tr0[p],
            self.trail.spec_entries().len() >= tr1.len(),
            self.trail.spec_entries().take(tr1.len() as int) == tr1,
            forall|v: int| 0 <= v < a1.len() && (#[trigger] a0[v]) is Some ==> a1[v] == a0[v],
            a0.len() == a1.len(),
            forall|v: int| 0 <= v < a1.len() && (#[trigger] a1[v]) is Some ==> self.assignment@[v] == a1[v],
            forall|p: int| tr0.len() <= p < tr1.len() ==> (#[trigger] tr1[p]).reason is Propagation,
            forall|p: int|
                tr1.len() <= p < self.trail.spec_entries().len() ==> (#[trigger] self.trail.spec_entries()[p]).reason is Propagation,
        ensures
            forall|p: int|
                tr0.len() <= p < self.trail.spec_entries().len() ==> (#[trigger] self.trail.spec_entries()[p]).reason is Propagation,
            forall|p: int| 0 <= p < tr0.len() ==> #[trigger] self.trail.spec_entries()[p] == tr0[p],
            forall|v: int| 0 <= v < a1.len() && (#[trigger] a0[v]) is Some ==> self.assignment@[v] == a0[v],
            self.trail.spec_entries().take(tr0.len() as int) == tr0,
    {
        assert forall|p: int| 0 <= p < tr0.len() implies #[trigger] self.trail.spec_entries()[p] == tr0[p] by {
            assert(self.trail.spec_entries().take(tr1.len() as int)[p] == tr1[p]);
        }
        assert forall|v: int| 0 <= v < a1.len() && (#[trigger] a0[v]) is Some implies self.assignment@[v] == a0[v] by {
            assert(a1[v] == a0[v]);
        }
        assert forall|p: int| tr0.len() <= p < self.trail.spec_entries().len() implies (#[trigger] self.trail.spec_entries()[p]).reason is Propagation by {
            if p < tr1.len() {
                assert(self.trail.spec_entries().take(tr1.len() as int)[p] == tr1[p]);
            }
        }
        assert(self.trail.spec_entries().take(tr0.len() as int) =~= tr0);
    }
}


/// `l` comes from the conflict clause `c` or from the reason clause of an
/// entry on the trail `tr`: the literals that conflict analysis can meet.
pub open spec fn resolvent_lit(db: Seq<ClauseView>, tr: Seq<TrailEntry>, c: ClauseId, l: Lit) -> bool {
    ||| db[c as int].lits.contains(l)
    ||| exists|p: int|
        0 <= p < tr.len() && (#[trigger] tr[p]).reason is Propagation && db[tr[p].reason->0 as int].lits.contains(l)
}

/// The total assignment `a` makes some literal of `lits` true.
pub open spec fn clause_true(a: Seq<bool>, lits: Seq<Lit>) -> bool {
    exists|k: int| 0 <= k < lits.len() && a[(#[trigger] lits[k]).var as int] == lits[k].sign
}

/// The total assignment `a` makes every clause of `db` that is not deleted true.
pub open spec fn db_true(a: Seq<bool>, db: Seq<ClauseView>) -> bool {
    forall|c: int| 0 <= c < db.len() && !(#[trigger] db[c]).deleted ==> clause_true(a, db[c].lits)
}

/// The level starts kept by backtracking to level `bt`.
pub open spec fn levels_upto(levels: Seq<usize>, bt: int) -> Seq<usize> {
    levels.take(bt + 1)
}

/// `n + 1`, or `n` when that would not fit.
pub open spec fn bump_count(n: u64) -> u64 {
    if n < u64::MAX {
        (n + 1) as u64
    } else {
        n
    }
}

/// The level at which `v` was assigned on the trail (0 when it is free).
pub open spec fn var_level(tr: Seq<TrailEntry>, pos: Seq<Option<usize>>, v: int) -> int {
    match pos[v] {
        Some(p) => tr[p as int].level as int,
        None => 0,
    }
}

/// The state of conflict analysis over the trail `tr` (positions `pos`,
/// assignment `a`, `n` variables, current level `cur`): `pend` holds the
/// current-level variables still to resolve, each at a trail position at most
/// `idx`; `learn` holds false literals of lower levels, none above `bt`, with
/// `bt` reached unless it is 0; `seen` marks exactly the variables of both.
pub open spec fn analysis_ok(
    tr: Seq<TrailEntry>,
    pos: Seq<Option<usize>>,
    a: Seq<Option<bool>>,
    n: int,
    cur: int,
    seen: Seq<bool>,
    pend: Set<int>,
    learn: Seq<Lit>,
    bt: int,
    idx: int,
) -> bool {
    &&& seen.len() == n
    &&& pend.finite()
    &&& forall|v: int|
        #[trigger] pend.contains(v) ==> 0 <= v < n && seen[v] && a[v] is Some && pos[v] is Some && var_level(tr, pos, v)
            == cur && pos[v].unwrap() <= idx
    &&& forall|k: int|
        0 <= k < learn.len() ==> {
            &&& (#[trigger] learn[k]).var < n
            &&& seen[learn[k].var as int]
            &&& lit_is_false(a, learn[k])
            &&& pos[learn[k].var as int] is Some
            &&& var_level(tr, pos, learn[k].var as int) < cur
            &&& var_level(tr, pos, learn[k].var as int) <= bt
        }
    &&& 0 <= bt < cur
    &&& bt == 0 || exists|k: int| 0 <= k < learn.len() && var_level(tr, pos, (#[trigger] learn[k]).var as int) == bt
    &&& forall|v: int|
        0 <= v < n && #[trigger] seen[v] ==> pend.contains(v) || exists|k: int|
            0 <= k < learn.len() && (#[trigger] learn[k]).var == v
}

/// The total assignment `x` makes true the clause of the pending variables
/// (each with the value opposite to `a`) and the literals of `learn`.
pub open spec fn partial_clause_true(x: Seq<bool>, a: Seq<Option<bool>>, pend: Set<int>, learn: Seq<Lit>) -> bool {
    ||| exists|v: int| #[trigger] pend.contains(v) && x[v] == !a[v].unwrap()
    ||| exists|k: int| 0 <= k < learn.len() && x[(#[trigger] learn[k]).var as int] == learn[k].sign
}

/// Every total assignment that satisfies `db` satisfies the clause of
/// `pend` and `learn`.
pub open spec fn partial_clause_entailed(db: Seq<ClauseView>, a: Seq<Option<bool>>, pend: Set<int>, learn: Seq<Lit>) -> bool {
    forall|x: Seq<bool>| #[trigger] db_true(x, db) ==> partial_clause_true(x, a, pend, learn)
}

/// The false literal `l` has its place in the clause of `pend` and `learn`.
pub open spec fn accounted(pend: Set<int>, learn: Seq<Lit>, l: Lit) -> bool {
    pend.contains(l.var as int) || learn.contains(l)
}

impl Solver {
    /// The level at which variable `v` was assigned (0 when it is free).
    pub closed spec fn spec_level_of(&self, v: int) -> int {
        var_level(self.trail.spec_entries(), self.assignment_trail_pos@, v)
    }

    /// The decision level at which `var` was assigned (0 when it is free).
    fn level_of(&self, var: usize) -> (l: usize)
        requires
            self.wf(),
            var < self.spec_var_count(),
        ensures
            l < self.spec_levels().len(),
            l == var_level(self.trail.spec_entries(), self.assignment_trail_pos@, var as int),
    {
        proof {
            self.trail.lemma_wf_shape();
        }
        match self.assignment_trail_pos[var] {
            Some(p) => self.trail.get(p).level,
            None => 0,
        }
    }

    /// Mark the false literal `lit` for the analysis: 0 when its variable was
    /// already seen; 1 when it is of the current level (counted in `pathc`);
    /// 2 when it is of a lower level (added to `learn`, raising `bt_level` to
    /// its level if that is higher).
    fn note_literal(
        &self,
        lit: Lit,
        curr_level: usize,
        seen: &mut Vec<bool>,
        learn: &mut Vec<Lit>,
        pathc: &mut usize,
        bt_level: &mut usize,
    ) -> (st: u8)
        requires
            self.wf(),
            lit.var < self.spec_var_count(),
            lit_is_false(self.assignment@, lit),
            old(seen)@.len() == self.spec_var_count(),
            curr_level == self.spec_levels().len() - 1,
            *old(bt_level) < curr_level,
            *old(pathc) < self.spec_var_count() || old(seen)@[lit.var as int],
        ensures
            final(seen)@.len() == old(seen)@.len(),
            st <= 2,
            ({
                let lv = var_level(self.trail.spec_entries(), self.assignment_trail_pos@, lit.var as int);
                &&& lv <= curr_level
                &&& (st == 0) == old(seen)@[lit.var as int]
                &&& st == 0 ==> final(seen)@ == old(seen)@ && final(learn)@ == old(learn)@ && *final(pathc) == *old(pathc)
                    && *final(bt_level) == *old(bt_level)
                &&& st == 1 ==> lv == curr_level && final(seen)@ == old(seen)@.update(lit.var as int, true)
                    && final(learn)@ == old(learn)@ && *final(pathc) == *old(pathc) + 1 && *final(bt_level)
                    == *old(bt_level)
                &&& st == 2 ==> lv < curr_level && final(seen)@ == old(seen)@.update(lit.var as int, true)
                    && final(learn)@ == old(learn)@.push(lit) && *final(pathc) == *old(pathc) && *final(bt_level)
                    == (if lv > *old(bt_level) { lv } else { *old(bt_level) as int })
                &&& st != 0 ==> !old(seen)@[lit.var as int] && (st == 1 <==> lv == curr_level)
            }),
    {
        let level = self.level_of(lit.var);
        if seen[lit.var] {
            return 0;
        }
        seen.set(lit.var, true);
        if level == curr_level {
            *pathc = *pathc + 1;
            1
        } else {
            if level > *bt_level {
                *bt_level = level;
            }
            learn.push(lit);
            2
        }
    }

    /// Facts of the invariant that conflict analysis leans on.
    proof fn lemma_trail_facts(&self)
        requires
            self.wf(),
        ensures
            forall|p: int|
                0 <= p < self.trail.spec_entries().len() ==> #[trigger] self.assignment_trail_pos@[
                    self.trail.spec_entries()[p].lit.var as int
                ] == Some(p as usize),
            forall|p: int|
                0 <= p < self.trail.spec_entries().len() ==> (#[trigger] self.trail.spec_entries()[p]).lit.var < self.var_count
                    && self.assignment@[self.trail.spec_entries()[p].lit.var as int] == Some(self.trail.spec_entries()[p].lit.sign),
            forall|v: int|
                0 <= v < self.var_count && (#[trigger] self.assignment@[v]) is Some ==> self.assignment_trail_pos@[v] is Some
                    && self.assignment_trail_pos@[v].unwrap() < self.trail.spec_entries().len()
                    && self.trail.spec_entries()[self.assignment_trail_pos@[v].unwrap() as int].lit.var == v,
            forall|p: int, m: int|
                #![trigger self.trail.spec_entries()[p], self.trail.spec_boundaries()[m]]
                0 <= p < self.trail.spec_entries().len() && 1 <= m < self.trail.spec_boundaries().len()
                    && self.trail.spec_boundaries()[m] <= p ==> self.trail.spec_entries()[p].level >= m,
            forall|p: int, m: int|
                #![trigger self.trail.spec_entries()[p], self.trail.spec_boundaries()[m]]
                0 <= p < self.trail.spec_entries().len() && 1 <= m < self.trail.spec_boundaries().len()
                    && p < self.trail.spec_boundaries()[m] ==> self.trail.spec_entries()[p].level < m,
            forall|p: int| 0 <= p < self.trail.spec_entries().len() ==> (#[trigger] self.trail.spec_entries()[p]).level
                < self.trail.spec_boundaries().len(),
            forall|p: int|
                0 <= p < self.trail.spec_entries().len() && (#[trigger] self.trail.spec_entries()[p]).reason is Decision
                    ==> self.trail.spec_entries()[p].level >= 1 && self.trail.spec_boundaries()[
                    self.trail.spec_entries()[p].level as int
                ] == p,
            forall|p: int|
                0 <= p < self.trail.spec_entries().len() && (#[trigger] self.trail.spec_entries()[p]).reason is Propagation
                    ==> self.trail.spec_entries()[p].reason->0 < self.clauses@.len() && self.clauses@[
                    self.trail.spec_entries()[p].reason->0 as int
                ].lits.contains(self.trail.spec_entries()[p].lit) && reason_implies(
                    self.clauses@,
                    self.trail.spec_entries(),
                    self.assignment_trail_pos@,
                    p,
                ),
    {
    }

    /// Analyze a conflict by resolving backwards along the trail to the
    /// first unique implication point (1UIP): the learned clause is the
    /// negated 1UIP literal, first, followed by the false literals of lower
    /// levels met on the way. It is stored and watched, the solver goes back
    /// to the highest level among those other literals (0 when there are
    /// none), and the negated 1UIP literal is asserted with the learned
    /// clause as its reason. Returns the literals of the conflict clause and
    /// of each reason clause resolved, in order, for the branching heuristic
    /// to bump.
    #[verifier::rlimit(60)]
    pub fn analyze_and_learn(&mut self, conflict_clause: ClauseId) -> (bumped: Vec<Lit>)
        requires
            old(self).wf(),
            conflict_clause < old(self).spec_clauses().len(),
            old(self).spec_levels().len() > 1,
            !old(self).spec_clauses()[conflict_clause as int].deleted,
            forall|k: int|
                0 <= k < old(self).spec_clauses()[conflict_clause as int].lits.len() ==> lit_is_false(
                    old(self).spec_assignment(),
                    #[trigger] old(self).spec_clauses()[conflict_clause as int].lits[k],
                ),
            exists|k: int|
                0 <= k < old(self).spec_clauses()[conflict_clause as int].lits.len() && old(self).spec_level_of(
                    (#[trigger] old(self).spec_clauses()[conflict_clause as int].lits[k]).var as int,
                ) == old(self).spec_levels().len() - 1,
        ensures
            final(self).wf(),
            final(self).spec_var_count() == old(self).spec_var_count(),
            final(self).spec_clauses().len() == old(self).spec_clauses().len() + 1,
            forall|c: int|
                0 <= c < old(self).spec_clauses().len() ==> #[trigger] final(self).spec_clauses()[c] == old(self).spec_clauses()[c],
            ({
                let learned = final(self).spec_clauses().last();
                let cur = old(self).spec_levels().len() - 1;
                let bt = final(self).spec_levels().len() - 1;
                &&& learned.is_learned
                &&& !learned.deleted
                &&& learned.lits.len() >= 1
                // exactly one literal of the conflict level, first
                &&& lit_is_false(old(self).spec_assignment(), learned.lits[0])
                &&& old(self).spec_level_of(learned.lits[0].var as int) == cur
                &&& forall|k: int|
                    1 <= k < learned.lits.len() ==> lit_is_false(old(self).spec_assignment(), #[trigger] learned.lits[k])
                        && old(self).spec_level_of(learned.lits[k].var as int) < cur
                // the backtrack level is the highest level of the other literals
                &&& 0 <= bt < cur
                &&& forall|k: int| 1 <= k < learned.lits.len() ==> old(self).spec_level_of((#[trigger] learned.lits[k]).var as int) <= bt
                &&& learned.lits.len() == 1 ==> bt == 0
                &&& learned.lits.len() > 1 ==> exists|k: int|
                    1 <= k < learned.lits.len() && old(self).spec_level_of((#[trigger] learned.lits[k]).var as int) == bt
                &&& final(self).spec_levels() == levels_upto(old(self).spec_levels(), bt)
                // the asserting literal is propagated by the learned clause
                &&& final(self).spec_trail() == old(self).spec_trail().take(old(self).spec_levels()[bt + 1] as int).push(
                    TrailEntry {
                        lit: learned.lits[0],
                        level: bt as usize,
                        reason: Reason::Propagation(old(self).spec_clauses().len() as ClauseId),
                    },
                )
                // it follows from the stored clauses
                &&& forall|x: Seq<bool>| #[trigger] db_true(x, old(self).spec_clauses()) ==> clause_true(x, learned.lits)
            }),
            forall|x: Seq<bool>| #[trigger] db_true(x, final(self).spec_clauses()) == db_true(x, old(self).spec_clauses()),
            bumped@.len() >= old(self).spec_clauses()[conflict_clause as int].lits.len(),
            bumped@.take(old(self).spec_clauses()[conflict_clause as int].lits.len() as int) == old(
                self,
            ).spec_clauses()[conflict_clause as int].lits,
            forall|k: int|
                0 <= k < bumped@.len() ==> resolvent_lit(
                    old(self).spec_clauses(),
                    old(self).spec_trail(),
                    conflict_clause,
                    #[trigger] bumped@[k],
                ),
            final(self).spec_stats().conflicts == bump_count(old(self).spec_stats().conflicts),
            final(self).spec_stats().decisions == old(self).spec_stats().decisions,
            final(self).spec_stats().restarts == old(self).spec_stats().restarts,
    {
        let ghost db0 = self.clauses@;
        let ghost tr0 = self.trail.spec_entries();
        let ghost b0 = self.trail.spec_boundaries();
        let ghost a0 = self.assignment@;
        let ghost pos0 = self.assignment_trail_pos@;
        let ghost n = self.var_count as int;
        proof {
            self.trail.lemma_wf_shape();
            self.lemma_trail_facts();
            assert(b0[1] < tr0.len());
        }
        let curr_level = self.trail.current_level();
        let ghost cur = curr_level as int;
        let mut seen: Vec<bool> = Vec::new();
        let mut v: usize = 0;
        while v < self.var_count
            invariant
                v <= self.var_count,
                seen@.len() == v,
                forall|x: int| 0 <= x < v ==> !(#[trigger] seen@[x]),
            decreases self.var_count - v,
        {
            seen.push(false);
            v = v + 1;
        }
        let mut learn: Vec<Lit> = Vec::new();
        let mut bumped: Vec<Lit> = Vec::new();
        let mut pathc: usize = 0;
        let mut bt_level: usize = 0;
        let ghost mut pend: Set<int> = Set::empty();
        let mut idx: usize = self.trail.len() - 1;
        let conflict = self.clauses.get(conflict_clause).duplicate();
        let ghost cl = conflict.lits@;
        // Mark the literals of the conflict clause.
        let mut j: usize = 0;
        while j < conflict.lits.len()
            invariant
                self.wf(),
                *self == *old(self),
                db0 == self.clauses@,
                tr0 == self.trail.spec_entries(),
                b0 == self.trail.spec_boundaries(),
                a0 == self.assignment@,
                pos0 == self.assignment_trail_pos@,
                n == self.var_count,
                cur == b0.len() - 1,
                cur == curr_level,
                cur >= 1,
                idx == tr0.len() - 1,
                conflict@ == db0[conflict_clause as int],
                cl == conflict.lits@,
                conflict_clause < db0.len(),
                forall|k: int| 0 <= k < cl.len() ==> lit_is_false(a0, #[trigger] cl[k]),
                j <= cl.len(),
                analysis_ok(tr0, pos0, a0, n, cur, seen@, pend, learn@, bt_level as int, idx as int),
                pathc == pend.len(),
                bt_level < curr_level,
                forall|k: int| 0 <= k < j ==> accounted(pend, learn@, #[trigger] cl[k]),
                bumped@ == cl.take(j as int),
            decreases cl.len() - j,
        {
            let lit = conflict.lits[j];
            assert(cl[j as int] == lit);
            assert(db0[conflict_clause as int].lits[j as int].var < n);
            proof {
                lemma_pend_room(pend, n, lit.var as int);
            }
            bumped.push(lit);
            let ghost s0 = seen@;
            let ghost l0 = learn@;
            let ghost p0 = pend;
            let ghost b_before = bt_level;
            proof {
                assert(pos0[lit.var as int] is Some && pos0[lit.var as int].unwrap() < tr0.len());
            }
            let st = self.note_literal(lit, curr_level, &mut seen, &mut learn, &mut pathc, &mut bt_level);
            proof {
                if st == 1 {
                    pend = pend.insert(lit.var as int);
                }
                lemma_note_step(tr0, pos0, a0, n, cur, s0, p0, l0, b_before as int, idx as int, lit, st, seen@, pend, learn@,
                    bt_level as int);
                assert forall|k: int| 0 <= k < j + 1 implies accounted(pend, learn@, #[trigger] cl[k]) by {
                    if k < j {
                        assert(accounted(p0, l0, cl[k]));
                        if l0.contains(cl[k]) {
                            let m = choose|m: int| 0 <= m < l0.len() && l0[m] == cl[k];
                            assert(learn@[m] == cl[k]);
                        }
                    }
                }
            }
            j = j + 1;
            assert(bumped@ =~= cl.take(j as int));
        }
        assert(cl.take(j as int) =~= cl);
        proof {
            // The clause of the pending variables and the learned literals is the
            // conflict clause, which the stored clauses make true.
            assert forall|x: Seq<bool>| #[trigger] db_true(x, db0) implies partial_clause_true(x, a0, pend, learn@) by {
                assert(clause_true(x, db0[conflict_clause as int].lits));
                let k = choose|k: int| 0 <= k < cl.len() && x[(#[trigger] cl[k]).var as int] == cl[k].sign;
                assert(accounted(pend, learn@, cl[k]));
                if pend.contains(cl[k].var as int) {
                    assert(lit_is_false(a0, cl[k]));
                    assert(x[cl[k].var as int] == !a0[cl[k].var as int].unwrap());
                } else {
                    let m = choose|m: int| 0 <= m < learn@.len() && learn@[m] == cl[k];
                    assert(x[(learn@[m]).var as int] == learn@[m].sign);
                }
            }
            let k = choose|k: int|
                0 <= k < cl.len() && old(self).spec_level_of((#[trigger] cl[k]).var as int) == cur;
            assert(accounted(pend, learn@, cl[k]));
            assert(pend.contains(cl[k].var as int));
        }
        assert(pathc > 0);
        // Resolve backwards along the trail until one pending variable is left.
        let mut uip: Lit = self.trail.get(idx).lit;
        let ghost mut last_pend: Set<int> = pend;
        loop
            invariant_except_break
                pathc > 0,
                partial_clause_entailed(db0, a0, pend, learn@),
            invariant
                self.wf(),
                *self == *old(self),
                db0 == self.clauses@,
                tr0 == self.trail.spec_entries(),
                b0 == self.trail.spec_boundaries(),
                a0 == self.assignment@,
                pos0 == self.assignment_trail_pos@,
                n == self.var_count,
                cur == b0.len() - 1,
                cur == curr_level,
                cur >= 1,
                conflict_clause < db0.len(),
                idx < tr0.len(),
                analysis_ok(tr0, pos0, a0, n, cur, seen@, pend, learn@, bt_level as int, idx as int),
                pathc == pend.len(),
                bt_level < curr_level,
                bumped@.len() >= cl.len(),
                bumped@.take(cl.len() as int) == cl,
                cl == db0[conflict_clause as int].lits,
                forall|k: int| 0 <= k < bumped@.len() ==> resolvent_lit(db0, tr0, conflict_clause, #[trigger] bumped@[k]),
            ensures
                analysis_ok(tr0, pos0, a0, n, cur, seen@, Set::<int>::empty(), learn@, bt_level as int, idx as int),
                partial_clause_entailed(db0, a0, last_pend, learn@),
                last_pend == set![uip.var as int],
                pos0[uip.var as int] == Some(idx),
                tr0[idx as int].lit == uip,
                var_level(tr0, pos0, uip.var as int) == cur,
            decreases idx,
        {
            // Find the latest pending variable on the trail.
            while !seen[self.trail.get(idx).lit.var]
                invariant
                    self.wf(),
                    *self == *old(self),
                    tr0 == self.trail.spec_entries(),
                    pos0 == self.assignment_trail_pos@,
                    a0 == self.assignment@,
                    b0 == self.trail.spec_boundaries(),
                    n == self.var_count,
                    cur == b0.len() - 1,
                    cur == curr_level,
                cur == curr_level,
                    idx < tr0.len(),
                    pend.len() > 0,
                    analysis_ok(tr0, pos0, a0, n, cur, seen@, pend, learn@, bt_level as int, idx as int),
                decreases idx,
            {
                proof {
                    let u = pend.choose();
                    assert(pend.contains(u));
                    if pos0[u].unwrap() == idx {
                        assert(tr0[idx as int].lit.var == u);
                    }
                }
                idx = idx - 1;
            }
            let entry = *self.trail.get(idx);
            let w = entry.lit.var;
            proof {
                let u = pend.choose();
                assert(pend.contains(u));
                let pu = pos0[u].unwrap() as int;
                assert(tr0[pu].level == cur);
                assert(b0[cur] <= pu) by {
                    if pu < b0[cur] {
                        assert(tr0[pu].level < cur);
                    }
                }
                assert(tr0[idx as int].level >= cur);
                assert(pos0[w as int] == Some(idx));
                assert(var_level(tr0, pos0, w as int) == cur);
                assert(pend.contains(w as int)) by {
                    if !pend.contains(w as int) {
                        let k = choose|k: int| 0 <= k < learn@.len() && (#[trigger] learn@[k]).var == w;
                    }
                }
            }
            let ghost pend_before = pend;
            seen.set(w, false);
            proof {
                pend = pend.remove(w as int);
            }
            pathc = pathc - 1;
            if pathc == 0 {
                uip = entry.lit;
                proof {
                    last_pend = pend_before;
                    assert(pend =~= Set::<int>::empty());
                    assert(pend_before =~= set![w as int]);
                    assert forall|x: int| 0 <= x < n && #[trigger] seen@[x] implies pend.contains(x) || exists|k: int|
                        0 <= k < learn@.len() && (#[trigger] learn@[k]).var == x by {
                        assert(x != w);
                    }
                }
                break;
            }
            proof {
                let u = pend.choose();
                assert(pend.contains(u));
                let pu = pos0[u].unwrap() as int;
                assert(pu != idx) by {
                    if pu == idx {
                        assert(tr0[idx as int].lit.var == u);
                    }
                }
                assert(b0[cur] <= pu) by {
                    if pu < b0[cur] {
                        assert(tr0[pu].level < cur);
                    }
                }
            }
            let rc = match entry.reason {
                Reason::Propagation(rc) => rc,
                Reason::Decision => {
                    proof {
                        assert(b0[tr0[idx as int].level as int] == idx);
                        assert(false);
                    }
                    0
                },
            };
            let reason = self.clauses.get(rc).duplicate();
            let ghost rl = reason.lits@;
            let ghost pend_mid = pend;
            let ghost learn_mid = learn@;
            proof {
                assert(reason_implies(db0, tr0, pos0, idx as int));
                assert(idx > 0);
            }
            let mut r: usize = 0;
            while r < reason.lits.len()
                invariant
                    self.wf(),
                    *self == *old(self),
                    db0 == self.clauses@,
                    tr0 == self.trail.spec_entries(),
                    b0 == self.trail.spec_boundaries(),
                    a0 == self.assignment@,
                    pos0 == self.assignment_trail_pos@,
                    n == self.var_count,
                    cur == b0.len() - 1,
                    cur == curr_level,
                cur == curr_level,
                    cur >= 1,
                    0 < idx < tr0.len(),
                    tr0[idx as int] == entry,
                    entry.reason == Reason::Propagation(rc),
                    rc < db0.len(),
                    reason@ == db0[rc as int],
                    rl == reason.lits@,
                    reason_implies(db0, tr0, pos0, idx as int),
                    analysis_ok(tr0, pos0, a0, n, cur, seen@, pend, learn@, bt_level as int, idx - 1),
                    pathc == pend.len(),
                    bt_level < curr_level,
                    pend_mid.subset_of(pend),
                    learn@.len() >= learn_mid.len(),
                    learn@.take(learn_mid.len() as int) == learn_mid,
                    forall|k: int| 0 <= k < r ==> rl[k] == entry.lit || accounted(pend, learn@, #[trigger] rl[k]),
                    r <= rl.len(),
                    bumped@.len() >= cl.len(),
                    bumped@.take(cl.len() as int) == cl,
                    cl == db0[conflict_clause as int].lits,
                    forall|k: int| 0 <= k < bumped@.len() ==> resolvent_lit(db0, tr0, conflict_clause, #[trigger] bumped@[k]),
                decreases rl.len() - r,
            {
                let rlit = reason.lits[r];
                assert(rl[r as int] == rlit);
                assert(db0[rc as int].lits[r as int].var < n);
                let ghost bb = bumped@;
                bumped.push(rlit);
                proof {
                    assert(resolvent_lit(db0, tr0, conflict_clause, rlit)) by {
                        assert(db0[rc as int].lits[r as int] == rlit);
                        assert(tr0[idx as int].reason is Propagation);
                    }
                    assert(bumped@.take(cl.len() as int) =~= bb.take(cl.len() as int));
                }
                if rlit != entry.lit {
                    let ghost s0 = seen@;
                    let ghost l0 = learn@;
                    let ghost p0 = pend;
                    proof {
                        let q = pos0[rlit.var as int].unwrap() as int;
                        assert(q < idx);
                        assert(tr0[q].lit == negation(rlit));
                        assert(a0[rlit.var as int] == Some(tr0[q].lit.sign));
                        assert(lit_is_false(a0, rlit));
                        lemma_pend_room(pend, n, rlit.var as int);
                    }
                    let ghost b_before = bt_level;
                    let st = self.note_literal(rlit, curr_level, &mut seen, &mut learn, &mut pathc, &mut bt_level);
                    proof {
                        if st == 1 {
                            pend = pend.insert(rlit.var as int);
                        }
                        lemma_note_step(tr0, pos0, a0, n, cur, s0, p0, l0, b_before as int, idx - 1, rlit, st, seen@, pend,
                            learn@, bt_level as int);
                        assert forall|k: int| 0 <= k < r + 1 implies rl[k] == entry.lit || accounted(pend, learn@, #[trigger] rl[k]) by {
                            if k < r && rl[k] != entry.lit {
                                assert(accounted(p0, l0, rl[k]));
                                if l0.contains(rl[k]) {
                                    let m = choose|m: int| 0 <= m < l0.len() && l0[m] == rl[k];
                                    assert(learn@[m] == rl[k]);
                                }
                            }
                        }
                        assert(learn@.take(learn_mid.len() as int) =~= learn_mid) by {
                            assert(l0.take(learn_mid.len() as int) == learn_mid);
                        }
                    }
                }
                r = r + 1;
            }
            proof {
                // Resolution on `w` keeps the clause entailed.
                assert forall|x: Seq<bool>| #[trigger] db_true(x, db0) implies partial_clause_true(x, a0, pend, learn@) by {
                    assert(partial_clause_true(x, a0, pend_before, learn_mid));
                    assert(clause_true(x, rl));
                    let k = choose|k: int| 0 <= k < rl.len() && x[(#[trigger] rl[k]).var as int] == rl[k].sign;
                    if rl[k] != entry.lit {
                        assert(accounted(pend, learn@, rl[k]));
                        let q = pos0[rl[k].var as int].unwrap() as int;
                        assert(tr0[q].lit == negation(rl[k]));
                        assert(a0[rl[k].var as int] == Some(tr0[q].lit.sign));
                        if pend.contains(rl[k].var as int) {
                            assert(x[rl[k].var as int] == !a0[rl[k].var as int].unwrap());
                        } else {
                            let m = choose|m: int| 0 <= m < learn@.len() && learn@[m] == rl[k];
                            assert(x[(learn@[m]).var as int] == learn@[m].sign);
                        }
                    } else {
                        assert(a0[w as int] == Some(entry.lit.sign));
                        if exists|u: int| #[trigger] pend_before.contains(u) && x[u] == !a0[u].unwrap() {
                            let u = choose|u: int| #[trigger] pend_before.contains(u) && x[u] == !a0[u].unwrap();
                            assert(u != w);
                            assert(pend_mid.contains(u));
                            assert(pend.contains(u));
                        } else {
                            let m = choose|m: int| 0 <= m < learn_mid.len() && x[(#[trigger] learn_mid[m]).var as int] == learn_mid[m].sign;
                            assert(learn@[m] == learn_mid[m]);
                            assert(x[(learn@[m]).var as int] == learn@[m].sign);
                        }
                    }
                }
            }
            idx = idx - 1;
        }
        // The learned clause: the negated 1UIP literal, then the learned literals.
        let asserting = uip.not();
        let mut learned_lits: Vec<Lit> = Vec::new();
        learned_lits.push(asserting);
        let mut k: usize = 0;
        while k < learn.len()
            invariant
                k <= learn@.len(),
                learned_lits@ == seq![asserting] + learn@.take(k as int),
            decreases learn@.len() - k,
        {
            learned_lits.push(learn[k]);
            k = k + 1;
            assert(learned_lits@ =~= seq![asserting] + learn@.take(k as int));
        }
        assert(learn@.take(k as int) =~= learn@);
        let ghost lv = learned_lits@;
        proof {
            self.lemma_trail_facts();
            assert(lv[0] == asserting);
            assert(uip.var < n);
            assert(a0[uip.var as int] == Some(uip.sign));
            assert(lit_is_false(a0, asserting));
            assert forall|x: Seq<bool>| #[trigger] db_true(x, db0) implies clause_true(x, lv) by {
                assert(partial_clause_true(x, a0, last_pend, learn@));
                if exists|u: int| #[trigger] last_pend.contains(u) && x[u] == !a0[u].unwrap() {
                    let u = choose|u: int| #[trigger] last_pend.contains(u) && x[u] == !a0[u].unwrap();
                    assert(u == uip.var);
                    assert(x[(lv[0]).var as int] == lv[0].sign);
                } else {
                    let m = choose|m: int| 0 <= m < learn@.len() && x[(#[trigger] learn@[m]).var as int] == learn@[m].sign;
                    assert(lv[m + 1] == learn@[m]);
                    assert(x[(lv[m + 1]).var as int] == lv[m + 1].sign);
                }
            }
        }
        let first = learned_lits[0];
        let second: Option<Lit> = if learned_lits.len() >= 2 {
            Some(learned_lits[1])
        } else {
            None
        };
        let ghost mid = *self;
        let learned_id = self.clauses.alloc_clause(Clause::learned(learned_lits));
        proof {
            assert forall|k: int| 0 <= k < self.clauses@.last().lits.len() implies (
            #[trigger] self.clauses@.last().lits[k]).var < self.var_count by {
                assert(self.clauses@.last().lits == lv);
                if k >= 1 {
                    assert(lv[k] == learn@[k - 1]);
                }
            }
            self.lemma_clauses_grow(mid.clauses@, self.clauses@);
        }
        if let Some(sec) = second {
            let ghost w0 = self.watch@;
            self.watch.watch(first, learned_id);
            proof {
                lemma_watch_added(w0, index_of(first), learned_id, self.clauses@.len());
            }
            let ghost w1 = self.watch@;
            assert(sec == lv[1]);
            assert(sec == learn@[0]);
            self.watch.watch(sec, learned_id);
            proof {
                lemma_watch_added(w1, index_of(sec), learned_id, self.clauses@.len());
            }
        }
        let ghost db1 = self.clauses@;
        assert(self.trail.spec_entries() == tr0);
        self.unassign_to_level(bt_level);
        let ghost start = b0[bt_level + 1] as int;
        let ghost kept = tr0.take(start);
        proof {
            assert(self.spec_trail() == kept);
            assert(self.spec_levels() == b0.take(bt_level + 1));
            assert(b0[bt_level + 1] <= b0[cur]);
            let u = uip.var as int;
            assert(b0[cur] <= idx) by {
                if idx < b0[cur] {
                    assert(tr0[idx as int].level < cur);
                }
            }
            assert(tr0[idx as int].lit.var == u);
            assert(self.assignment@[u] is None) by {
                assert(start <= idx < tr0.len() && tr0[idx as int].lit.var == u);
            }
            assert forall|q: int|
                0 <= q < lv.len() && lv[q] != asserting implies lit_is_false(self.assignment@, #[trigger] lv[q]) by {
                let l = learn@[q - 1];
                assert(lv[q] == l);
                let p = pos0[l.var as int].unwrap() as int;
                assert(var_level(tr0, pos0, l.var as int) <= bt_level);
                assert(p < start) by {
                    if p >= start {
                        assert(tr0[p].level >= bt_level + 1);
                    }
                }
                assert forall|pp: int| start <= pp < tr0.len() implies (#[trigger] tr0[pp]).lit.var != l.var by {
                    if tr0[pp].lit.var == l.var {
                        assert(pos0[l.var as int] == Some(pp as usize));
                    }
                }
                assert(self.assignment@[l.var as int] == a0[l.var as int]);
            }
            assert(self.clauses@[learned_id as int].lits == lv);
        }
        self.assign_lit(asserting, Reason::Propagation(learned_id));
        self.stats.propagations = self.stats.propagations.saturating_add(1);
        self.stats.conflicts = self.stats.conflicts.saturating_add(1);
        proof {
            let learned = self.spec_clauses().last();
            assert(learned.lits == lv);
            assert(self.spec_clauses() == db1);
            assert(db1 == db0.push(learned));
            assert forall|k: int| 1 <= k < lv.len() implies lit_is_false(a0, #[trigger] lv[k])
                && old(self).spec_level_of(lv[k].var as int) < cur
                && old(self).spec_level_of(lv[k].var as int) <= bt_level by {
                assert(lv[k] == learn@[k - 1]);
            }
            if lv.len() > 1 && bt_level > 0 {
                let m = choose|m: int| 0 <= m < learn@.len() && var_level(tr0, pos0, (#[trigger] learn@[m]).var as int) == bt_level;
                assert(lv[m + 1] == learn@[m]);
                assert(old(self).spec_level_of((lv[m + 1]).var as int) == bt_level);
            }
            if lv.len() == 1 && bt_level > 0 {
                let m = choose|m: int| 0 <= m < learn@.len() && var_level(tr0, pos0, (#[trigger] learn@[m]).var as int) == bt_level;
                assert(false);
            }
            assert forall|x: Seq<bool>| #[trigger] db_true(x, self.spec_clauses()) == db_true(x, db0) by {
                if db_true(x, db0) {
                    assert(clause_true(x, lv));
                    assert forall|c: int| 0 <= c < db1.len() && !(#[trigger] db1[c]).deleted implies clause_true(x, db1[c].lits) by {
                        if c < db0.len() {
                            assert(db1[c] == db0[c]);
                        }
                    }
                }
                if db_true(x, db1) {
                    assert forall|c: int| 0 <= c < db0.len() && !(#[trigger] db0[c]).deleted implies clause_true(x, db0[c].lits) by {
                        assert(db1[c] == db0[c]);
                    }
                }
            }
        }
        bumped
    }

}

/// A set of variables below `n` that lacks some variable below `n` has fewer
/// than `n` members; so one of `n` members holds `v`.
proof fn lemma_pend_room(pend: Set<int>, n: int, v: int)
    requires
        pend.finite(),
        0 <= v < n,
        forall|x: int| #[trigger] pend.contains(x) ==> 0 <= x < n,
    ensures
        pend.len() <= n,
        pend.len() == n ==> pend.contains(v),
{
    vstd::set_lib::lemma_int_range(0, n);
    let r = vstd::set_lib::set_int_range(0, n);
    assert(pend.subset_of(r));
    vstd::set_lib::lemma_len_subset(pend, r);
    if pend.len() == n && !pend.contains(v) {
        assert(pend.subset_of(r.remove(v)));
        vstd::set_lib::lemma_len_subset(pend, r.remove(v));
    }
}

/// One step of `note_literal` keeps the analysis state, and places the
/// noted literal in the clause.
proof fn lemma_note_step(
    tr: Seq<TrailEntry>,
    pos: Seq<Option<usize>>,
    a: Seq<Option<bool>>,
    n: int,
    cur: int,
    s0: Seq<bool>,
    p0: Set<int>,
    l0: Seq<Lit>,
    bt0: int,
    idx: int,
    lit: Lit,
    st: u8,
    s1: Seq<bool>,
    p1: Set<int>,
    l1: Seq<Lit>,
    bt1: int,
)
    requires
        analysis_ok(tr, pos, a, n, cur, s0, p0, l0, bt0, idx),
        0 <= lit.var < n,
        lit_is_false(a, lit),
        pos[lit.var as int] is Some,
        pos[lit.var as int].unwrap() <= idx,
        s1.len() == s0.len(),
        st <= 2,
        ({
            let lv = var_level(tr, pos, lit.var as int);
            &&& lv <= cur
            &&& (st == 0) == s0[lit.var as int]
            &&& st == 0 ==> s1 == s0 && l1 == l0 && bt1 == bt0
            &&& st == 1 ==> lv == cur && s1 == s0.update(lit.var as int, true) && l1 == l0 && bt1 == bt0
            &&& st == 2 ==> lv < cur && s1 == s0.update(lit.var as int, true) && l1 == l0.push(lit) && bt1 == (if lv
                > bt0 { lv } else { bt0 })
            &&& st != 0 ==> (st == 1 <==> lv == cur)
        }),
        p1 == (if st == 1 { p0.insert(lit.var as int) } else { p0 }),
    ensures
        analysis_ok(tr, pos, a, n, cur, s1, p1, l1, bt1, idx),
        accounted(p1, l1, lit),
        p0.subset_of(p1),
        l1.len() >= l0.len(),
        l1.take(l0.len() as int) == l0,
{
    let v = lit.var as int;
    assert(l0.take(l0.len() as int) =~= l0);
    if st == 0 {
        if !p0.contains(v) {
            let k = choose|k: int| 0 <= k < l0.len() && (#[trigger] l0[k]).var == v;
            assert(lit_is_false(a, l0[k]));
            assert(l0[k] == lit);
        }
    } else if st == 1 {
        assert forall|x: int| 0 <= x < n && #[trigger] s1[x] implies p1.contains(x) || exists|k: int|
            0 <= k < l1.len() && (#[trigger] l1[k]).var == x by {
            if x != v {
                assert(s0[x]);
            }
        }
        assert forall|k: int| 0 <= k < l1.len() implies (#[trigger] l1[k]).var < n && s1[l1[k].var as int] by {
            assert(s0[l1[k].var as int]);
        }
    } else {
        assert(l1[l0.len() as int] == lit);
        assert(l1.take(l0.len() as int) =~= l0);
        assert forall|x: int| 0 <= x < n && #[trigger] s1[x] implies p1.contains(x) || exists|k: int|
            0 <= k < l1.len() && (#[trigger] l1[k]).var == x by {
            if x != v {
                assert(s0[x]);
                if !p0.contains(x) {
                    let k = choose|k: int| 0 <= k < l0.len() && (#[trigger] l0[k]).var == x;
                    assert(l1[k] == l0[k]);
                }
            } else {
                assert(l1[l0.len() as int].var == x);
            }
        }
        assert forall|k: int| 0 <= k < l1.len() implies {
            &&& (#[trigger] l1[k]).var < n
            &&& s1[l1[k].var as int]
            &&& lit_is_false(a, l1[k])
            &&& pos[l1[k].var as int] is Some
            &&& var_level(tr, pos, l1[k].var as int) < cur
            &&& var_level(tr, pos, l1[k].var as int) <= bt1
        } by {
            if k < l0.len() {
                assert(l1[k] == l0[k]);
            }
        }
        if bt1 != 0 {
            if var_level(tr, pos, v) > bt0 {
                assert(var_level(tr, pos, (l1[l0.len() as int]).var as int) == bt1);
            } else {
                let k = choose|k: int| 0 <= k < l0.len() && var_level(tr, pos, (#[trigger] l0[k]).var as int) == bt0;
                assert(l1[k] == l0[k]);
                assert(var_level(tr, pos, (l1[k]).var as int) == bt1);
            }
        }
        assert(l1.contains(lit));
    }
}


impl Solver {
    /// Decide `var` positively (the preferred phase), opening a new level.
    pub fn decide(&mut self, var: usize)
        requires
            old(self).wf(),
            var < old(self).spec_var_count(),
            old(self).spec_assignment()[var as int] is None,
        ensures
            final(self).wf(),
            final(self).spec_assignment() == old(self).spec_assignment().update(var as int, Some(true)),
            final(self).spec_levels() == old(self).spec_levels().push(old(self).spec_trail().len() as usize),
            final(self).spec_trail() == old(self).spec_trail().push(
                (TrailEntry {
                    lit: Lit { var, sign: true },
                    level: old(self).spec_levels().len() as usize,
                    reason: Reason::Decision,
                }),
            ),
            final(self).spec_var_count() == old(self).spec_var_count(),
            final(self).spec_clauses() == old(self).spec_clauses(),
            final(self).spec_queue() == old(self).spec_queue(),
            final(self).spec_stats() == (SolverStats {
                decisions: bump_count(old(self).spec_stats().decisions),
                ..old(self).spec_stats()
            }),
    {
        let lit = Lit::positive(var);
        self.assign_lit(lit, Reason::Decision);
        self.stats.decisions = self.stats.decisions.saturating_add(1);
    }

    /// Whether every variable is assigned.
    pub fn all_assigned(&self) -> (b: bool)
        requires
            self.wf(),
        ensures
            b == forall|v: int| 0 <= v < self.spec_var_count() ==> (#[trigger] self.spec_assignment()[v]) is Some,
    {
        let mut v: usize = 0;
        while v < self.var_count
            invariant
                self.wf(),
                v <= self.var_count,
                forall|w: int| 0 <= w < v ==> (#[trigger] self.assignment@[w]) is Some,
            decreases self.var_count - v,
        {
            if self.assignment[v].is_none() {
                return false;
            }
            v = v + 1;
        }
        true
    }

    /// Whether a live empty clause is stored: the formula is then unsatisfiable.
    pub fn has_empty_clause(&self) -> (b: bool)
        ensures
            b == exists|c: int|
                0 <= c < self.spec_clauses().len() && !(#[trigger] self.spec_clauses()[c]).deleted
                    && self.spec_clauses()[c].lits.len() == 0,
    {
        let mut id: usize = 0;
        while id < self.clauses.len()
            invariant
                id <= self.clauses@.len(),
                forall|c: int|
                    0 <= c < id ==> (#[trigger] self.clauses@[c]).deleted || self.clauses@[c].lits.len() > 0,
            decreases self.clauses@.len() - id,
        {
            let c = self.clauses.get(id);
            if !c.deleted && c.lits.len() == 0 {
                assert(!self.spec_clauses()[id as int].deleted && self.spec_clauses()[id as int].lits.len() == 0);
                return true;
            }
            id = id + 1;
        }
        false
    }
}


impl Solver {
    /// The assignment is the trail read as a set of literals: every trail
    /// literal is true, each variable appears on the trail at most once, a
    /// variable is assigned exactly when some trail entry names it, and each
    /// propagated literal belongs to its stored reason clause.
    pub proof fn lemma_trail_is_assignment(&self)
        requires
            self.wf(),
        ensures
            forall|p: int|
                0 <= p < self.spec_trail().len() ==> (#[trigger] self.spec_trail()[p]).lit.var < self.spec_var_count()
                    && lit_is_true(self.spec_assignment(), self.spec_trail()[p].lit),
            forall|p: int, q: int|
                0 <= p < q < self.spec_trail().len() ==> (#[trigger] self.spec_trail()[p]).lit.var
                    != (#[trigger] self.spec_trail()[q]).lit.var,
            forall|v: int|
                0 <= v < self.spec_var_count() && (#[trigger] self.spec_assignment()[v]) is Some ==> exists|p: int|
                    0 <= p < self.spec_trail().len() && (#[trigger] self.spec_trail()[p]).lit.var == v,
            forall|p: int|
                0 <= p < self.spec_trail().len() && (#[trigger] self.spec_trail()[p]).reason is Propagation ==> {
                    &&& self.spec_trail()[p].reason->0 < self.spec_clauses().len()
                    &&& self.spec_clauses()[self.spec_trail()[p].reason->0 as int].lits.contains(self.spec_trail()[p].lit)
                },
    {
        let tr = self.trail.spec_entries();
        self.trail.lemma_wf_shape();
        assert forall|p: int, q: int|
            0 <= p < q < tr.len() implies (#[trigger] tr[p]).lit.var != (#[trigger] tr[q]).lit.var by {
            if tr[p].lit.var == tr[q].lit.var {
                assert(self.assignment_trail_pos@[tr[p].lit.var as int] == Some(p as usize));
                assert(self.assignment_trail_pos@[tr[q].lit.var as int] == Some(q as usize));
            }
        }
        assert forall|v: int|
            0 <= v < self.var_count && (#[trigger] self.assignment@[v]) is Some implies exists|p: int|
                0 <= p < tr.len() && (#[trigger] tr[p]).lit.var == v by {
            let p = self.assignment_trail_pos@[v].unwrap() as int;
            assert(tr[p].lit.var == v);
        }
    }
}


/// What one step of the CDCL search did.
#[derive(Debug)]
pub enum CdclStep {
    /// Every variable is assigned and every stored clause holds: the model,
    /// one value per variable.
    Sat(Vec<bool>),
    /// The stored clauses have no model.
    Unsat,
    /// Propagation is done and some variable is free: the caller decides one.
    Decide,
    /// A conflict was analysed and a clause learned; the literals met, for
    /// the branching heuristic to bump.
    Learned(Vec<Lit>),
}

impl Solver {
    /// Every propagated entry of the trail was forced by its reason: a stored
    /// clause, not deleted, that holds the entry's literal and whose other
    /// literals are all false under the assignment.
    pub proof fn lemma_reasons_forced(&self, p: int)
        requires
            self.wf(),
            0 <= p < self.spec_trail().len(),
            self.spec_trail()[p].reason is Propagation,
        ensures
            ({
                let c = self.spec_trail()[p].reason->0 as int;
                &&& 0 <= c < self.spec_clauses().len()
                &&& !self.spec_clauses()[c].deleted
                &&& self.spec_clauses()[c].lits.contains(self.spec_trail()[p].lit)
                &&& forall|k: int|
                    0 <= k < self.spec_clauses()[c].lits.len() && self.spec_clauses()[c].lits[k] != self.spec_trail()[p].lit
                        ==> lit_is_false(self.spec_assignment(), #[trigger] self.spec_clauses()[c].lits[k])
            }),
    {
        self.lemma_trail_facts();
        let tr = self.trail.spec_entries();
        let db = self.clauses@;
        let pos = self.assignment_trail_pos@;
        let c = tr[p].reason->0 as int;
        assert(reason_implies(db, tr, pos, p));
        assert forall|k: int| 0 <= k < db[c].lits.len() && db[c].lits[k] != tr[p].lit implies lit_is_false(
            self.assignment@,
            #[trigger] db[c].lits[k],
        ) by {
            let q = pos[db[c].lits[k].var as int].unwrap() as int;
            assert(tr[q].lit == negation(db[c].lits[k]));
        }
    }

    /// Under an assignment that satisfies the stored clauses, every entry of
    /// level 0 on the trail is true: it was propagated by a stored clause
    /// whose other literals were made false earlier, at level 0 too.
    pub proof fn lemma_level0_true(&self, x: Seq<bool>, p: int)
        requires
            self.wf(),
            db_true(x, self.spec_clauses()),
            0 <= p < self.spec_trail().len(),
            self.spec_trail()[p].level == 0,
        ensures
            x[self.spec_trail()[p].lit.var as int] == self.spec_trail()[p].lit.sign,
        decreases p,
    {
        let tr = self.trail.spec_entries();
        let b = self.trail.spec_boundaries();
        let db = self.clauses@;
        let pos = self.assignment_trail_pos@;
        self.lemma_trail_facts();
        self.trail.lemma_wf_shape();
        assert(tr[p].reason is Propagation);
        let c = tr[p].reason->0 as int;
        assert(reason_implies(db, tr, pos, p));
        assert(clause_true(x, db[c].lits));
        let k = choose|k: int| 0 <= k < db[c].lits.len() && x[(#[trigger] db[c].lits[k]).var as int] == db[c].lits[k].sign;
        let l = db[c].lits[k];
        if l != tr[p].lit {
            let q = pos[l.var as int].unwrap() as int;
            assert(q < p && tr[q].lit == negation(l));
            if b.len() > 1 {
                assert(p < b[1]) by {
                    if p >= b[1] {
                        assert(tr[p].level >= 1);
                    }
                }
                assert(tr[q].level < 1);
            } else {
                assert(tr[q].level < b.len());
            }
            self.lemma_level0_true(x, q);
        }
    }

    /// Handle the conflict on the stored clause `c`, false under the
    /// assignment: `Unsat` when all its literals were set at level 0;
    /// otherwise go back to the highest level among them, if that is below
    /// the current one, and learn a clause there.
    fn resolve_conflict(&mut self, c: ClauseId) -> (r: CdclStep)
        requires
            old(self).wf(),
            c < old(self).spec_clauses().len(),
            !old(self).spec_clauses()[c as int].deleted,
            forall|k: int|
                0 <= k < old(self).spec_clauses()[c as int].lits.len() ==> lit_is_false(
                    old(self).spec_assignment(),
                    #[trigger] old(self).spec_clauses()[c as int].lits[k],
                ),
        ensures
            final(self).wf(),
            final(self).spec_var_count() == old(self).spec_var_count(),
            forall|x: Seq<bool>| #[trigger] db_true(x, final(self).spec_clauses()) == db_true(x, old(self).spec_clauses()),
            r is Unsat ==> forall|x: Seq<bool>| !(#[trigger] db_true(x, old(self).spec_clauses())),
            r is Unsat || r is Learned,
    {
        let ghost db0 = self.clauses@;
        proof {
            self.lemma_trail_facts();
            self.trail.lemma_wf_shape();
        }
        let clause = self.clauses.get(c).duplicate();
        let ghost cl = clause.lits@;
        let mut top: usize = 0;
        let mut j: usize = 0;
        while j < clause.lits.len()
            invariant
                self.wf(),
                clause@ == db0[c as int],
                cl == clause.lits@,
                db0 == self.clauses@,
                c < db0.len(),
                j <= cl.len(),
                top < self.spec_levels().len(),
                forall|k: int| 0 <= k < j ==> self.spec_level_of((#[trigger] cl[k]).var as int) <= top,
                top == 0 || exists|k: int| 0 <= k < j && self.spec_level_of((#[trigger] cl[k]).var as int) == top,
            decreases cl.len() - j,
        {
            assert(db0[c as int].lits[j as int].var < self.var_count);
            let lv = self.level_of(clause.lits[j].var);
            if lv > top {
                top = lv;
            }
            j = j + 1;
        }
        if top == 0 {
            proof {
                assert forall|x: Seq<bool>| !(#[trigger] db_true(x, db0)) by {
                    if db_true(x, db0) {
                        assert(clause_true(x, cl));
                        let k = choose|k: int| 0 <= k < cl.len() && x[(#[trigger] cl[k]).var as int] == cl[k].sign;
                        let l = cl[k];
                        assert(lit_is_false(self.assignment@, l));
                        let q = self.assignment_trail_pos@[l.var as int].unwrap() as int;
                        assert(self.trail.spec_entries()[q].lit.var == l.var);
                        assert(self.spec_level_of(l.var as int) <= 0);
                        self.lemma_level0_true(x, q);
                    }
                }
            }
            return CdclStep::Unsat;
        }
        let ghost before = *self;
        self.unassign_to_level(top);
        proof {
            self.lemma_trail_facts();
            let tr0 = before.trail.spec_entries();
            let b0 = before.trail.spec_boundaries();
            let pos0 = before.assignment_trail_pos@;
            let a0 = before.assignment@;
            if top + 1 < b0.len() {
                let start = b0[top + 1] as int;
                assert forall|k: int| 0 <= k < cl.len() implies lit_is_false(self.assignment@, #[trigger] cl[k])
                    && self.spec_level_of(cl[k].var as int) == before.spec_level_of(cl[k].var as int) by {
                    let l = cl[k];
                    assert(lit_is_false(a0, l));
                    let p = pos0[l.var as int].unwrap() as int;
                    assert(tr0[p].lit.var == l.var);
                    assert(p < start) by {
                        if p >= start {
                            assert(tr0[p].level >= top + 1);
                        }
                    }
                    assert forall|pp: int| start <= pp < tr0.len() implies (#[trigger] tr0[pp]).lit.var != l.var by {
                        if tr0[pp].lit.var == l.var {
                            assert(pos0[l.var as int] == Some(pp as usize));
                        }
                    }
                    assert(self.assignment@[l.var as int] == a0[l.var as int]);
                    assert(self.assignment_trail_pos@[l.var as int] == Some(p as usize));
                    assert(self.trail.spec_entries()[p] == tr0[p]);
                }
            }
            let k = choose|k: int| 0 <= k < cl.len() && before.spec_level_of((#[trigger] cl[k]).var as int) == top;
            assert(self.spec_levels().len() - 1 == top);
        }
        let bumped = self.analyze_and_learn(c);
        CdclStep::Learned(bumped)
    }

    /// One step of the CDCL search. With a stored empty clause, `Unsat`.
    /// Otherwise propagate: a conflict is analysed (`Unsat` when it rests on
    /// level 0 alone, else a clause is learned); with no conflict and every
    /// variable assigned, the assignment is checked against every stored
    /// clause and reported as `Sat`, a clause found false being handled as a
    /// conflict; with a variable free, `Decide`.
    pub fn cdcl_step(&mut self) -> (r: CdclStep)
        requires
            old(self).wf(),
        ensures
            final(self).wf(),
            final(self).spec_var_count() == old(self).spec_var_count(),
            forall|x: Seq<bool>| #[trigger] db_true(x, final(self).spec_clauses()) == db_true(x, old(self).spec_clauses()),
            r matches CdclStep::Sat(m) ==> m@.len() == old(self).spec_var_count() && db_true(m@, old(self).spec_clauses()),
            r is Unsat ==> forall|x: Seq<bool>| !(#[trigger] db_true(x, old(self).spec_clauses())),
            r is Decide ==> exists|v: int|
                0 <= v < final(self).spec_var_count() && (#[trigger] final(self).spec_assignment()[v]) is None,
    {
        if self.has_empty_clause() {
            proof {
                let c = choose|c: int|
                    0 <= c < self.spec_clauses().len() && !(#[trigger] self.spec_clauses()[c]).deleted
                        && self.spec_clauses()[c].lits.len() == 0;
                assert forall|x: Seq<bool>| !(#[trigger] db_true(x, self.spec_clauses())) by {
                    if db_true(x, self.spec_clauses()) {
                        assert(clause_true(x, self.spec_clauses()[c].lits));
                    }
                }
            }
            return CdclStep::Unsat;
        }
        let ghost db0 = self.clauses@;
        match self.propagate() {
            Some(c) => {
                return self.resolve_conflict(c);
            },
            None => {},
        }
        assert(self.clauses@ == db0);
        if !self.all_assigned() {
            return CdclStep::Decide;
        }
        // Read off the model and check it against every stored clause.
        let mut m: Vec<bool> = Vec::new();
        let mut v: usize = 0;
        while v < self.var_count
            invariant
                self.wf(),
                self.clauses@ == db0,
                db0 == old(self).spec_clauses(),
                self.var_count == old(self).spec_var_count(),
                v <= self.var_count,
                m@.len() == v,
                forall|w: int| 0 <= w < self.var_count ==> (#[trigger] self.assignment@[w]) is Some,
                forall|w: int| 0 <= w < v ==> Some(#[trigger] m@[w]) == self.assignment@[w],
            decreases self.var_count - v,
        {
            assert(self.assignment@[v as int] is Some);
            m.push(self.assignment[v].unwrap());
            v = v + 1;
        }
        let mut id: usize = 0;
        while id < self.clauses.len()
            invariant
                self.wf(),
                self.clauses@ == db0,
                db0 == old(self).spec_clauses(),
                self.var_count == old(self).spec_var_count(),
                m@.len() == self.var_count,
                forall|w: int| 0 <= w < self.var_count ==> Some(#[trigger] m@[w]) == self.assignment@[w],
                id <= db0.len(),
                forall|c: int| 0 <= c < id && !(#[trigger] db0[c]).deleted ==> clause_true(m@, db0[c].lits),
            decreases db0.len() - id,
        {
            let clause = self.clauses.get(id);
            if !clause.deleted {
                let mut k: usize = 0;
                let mut holds = false;
                while k < clause.lits.len()
                    invariant
                        self.wf(),
                        self.clauses@ == db0,
                        db0 == old(self).spec_clauses(),
                        self.var_count == old(self).spec_var_count(),
                        clause@ == db0[id as int],
                        id < db0.len(),
                        m@.len() == self.var_count,
                        k <= clause.lits@.len(),
                        holds ==> clause_true(m@, db0[id as int].lits),
                        !holds ==> forall|q: int| 0 <= q < k ==> m@[(#[trigger] clause.lits@[q]).var as int] != clause.lits@[q].sign,
                    decreases clause.lits@.len() - k,
                {
                    let l = clause.lits[k];
                    assert(db0[id as int].lits[k as int].var < self.var_count);
                    if m[l.var] == l.sign {
                        assert(clause.lits@[k as int] == l);
                        holds = true;
                    }
                    k = k + 1;
                }
                if !holds {
                    proof {
                        assert forall|q: int| 0 <= q < db0[id as int].lits.len() implies lit_is_false(
                            self.assignment@,
                            #[trigger] db0[id as int].lits[q],
                        ) by {
                            assert(db0[id as int].lits[q].var < self.var_count);
                            assert(clause.lits@[q] == db0[id as int].lits[q]);
                        }
                    }
                    return self.resolve_conflict(id);
                }
            }
            id = id + 1;
        }
        CdclStep::Sat(m)
    }
}

} // verus!
