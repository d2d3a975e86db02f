//! Clauses and the clause database.
use vstd::prelude::*;
use crate::sat::ClauseId;
use crate::sat::literal::Lit;

verus! {

/// A clause in CNF form — a disjunction of literals.
#[derive(Debug)]
pub struct Clause {
    /// The literals of the clause.
    /// For a learned clause, the first literal is the asserting literal.
    pub lits: Vec<Lit>,
    /// Whether this clause was learned during CDCL.
    pub is_learned: bool,
    /// Whether the clause is deleted (marked as garbage).
    pub deleted: bool,
}

/// The mathematical content of a clause.
pub struct ClauseView {
    pub lits: Seq<Lit>,
    pub is_learned: bool,
    pub deleted: bool,
}

impl View for Clause {
    type V = ClauseView;

    open spec fn view(&self) -> ClauseView {
        ClauseView { lits: self.lits@, is_learned: self.is_learned, deleted: self.deleted }
    }
}

/// The clauses that are not deleted, in their order.
pub open spec fn active_part(s: Seq<ClauseView>) -> Seq<ClauseView>
    decreases s.len(),
{
    if s.len() == 0 {
        s
    } else if s.last().deleted {
        active_part(s.drop_last())
    } else {
        active_part(s.drop_last()).push(s.last())
    }
}

/// The ids of the clauses that are not deleted, ascending.
pub open spec fn active_ids(s: Seq<ClauseView>) -> Seq<ClauseId>
    decreases s.len(),
{
    if s.len() == 0 {
        Seq::empty()
    } else if s.last().deleted {
        active_ids(s.drop_last())
    } else {
        active_ids(s.drop_last()).push((s.len() - 1) as ClauseId)
    }
}

/// The number of clauses that are not deleted.
pub open spec fn count_active(s: Seq<ClauseView>) -> nat
    decreases s.len(),
{
    if s.len() == 0 {
        0
    } else {
        count_active(s.drop_last()) + if s.last().deleted { 0nat } else { 1nat }
    }
}

/// Where each clause lands when the deleted ones are squeezed out: the
/// number of live clauses before it, or nothing for a deleted clause.
pub open spec fn compact_mapping(s: Seq<ClauseView>) -> Seq<Option<ClauseId>> {
    Seq::new(
        s.len(),
        |i: int|
            if s[i].deleted {
                None
            } else {
                Some(count_active(s.take(i)) as ClauseId)
            },
    )
}

/// The live part has as many clauses as the live count, and the live ids
/// are as many too.
pub proof fn lemma_active_lengths(s: Seq<ClauseView>)
    ensures
        active_part(s).len() == count_active(s),
        active_ids(s).len() == count_active(s),
        count_active(s) <= s.len(),
    decreases s.len(),
{
    if s.len() > 0 {
        lemma_active_lengths(s.drop_last());
    }
}

/// The live clauses of a prefix come first, in order, among the live
/// clauses of the whole sequence.
proof fn lemma_active_prefix(s: Seq<ClauseView>, k: int)
    requires
        0 <= k <= s.len(),
    ensures
        active_part(s.take(k)).len() <= active_part(s).len(),
        forall|j: int| 0 <= j < active_part(s.take(k)).len() ==> active_part(s)[j] == #[trigger] active_part(s.take(k))[j],
    decreases s.len() - k,
{
    if k < s.len() {
        lemma_active_prefix(s, k + 1);
        assert(s.take(k + 1).drop_last() =~= s.take(k));
        assert(s.take(k + 1).last() == s[k]);
        let a = active_part(s.take(k));
        let b = active_part(s.take(k + 1));
        assert forall|j: int| 0 <= j < a.len() implies active_part(s)[j] == #[trigger] a[j] by {
            assert(b[j] == a[j]);
        }
    } else {
        assert(s.take(k) =~= s);
    }
}

/// Compacting sends each live clause to the position the mapping gives it:
/// the clause found there afterwards is the same clause.
pub proof fn lemma_compact_mapping_sound(s: Seq<ClauseView>, i: int)
    requires
        s.len() <= usize::MAX,
        0 <= i < s.len(),
        !s[i].deleted,
    ensures
        compact_mapping(s)[i] matches Some(j) && j < active_part(s).len() && active_part(s)[j as int] == s[i],
{
    lemma_active_prefix(s, i + 1);
    assert(s.take(i + 1).drop_last() =~= s.take(i));
    assert(s.take(i + 1).last() == s[i]);
    lemma_active_lengths(s.take(i));
    lemma_active_lengths(s);
    let j = count_active(s.take(i));
    assert(j < s.len());
    assert(active_part(s.take(i + 1))[j as int] == s[i]);
    assert(compact_mapping(s)[i] == Some(j as ClauseId));
    assert((j as ClauseId) as int == j);
}

impl Clause {
    /// Create a new (non-learned) clause.
    pub fn new(lits: Vec<Lit>) -> (c: Self)
        ensures
            c@ == (ClauseView { lits: lits@, is_learned: false, deleted: false }),
    {
        Clause { lits, is_learned: false, deleted: false }
    }

    /// Create a new learned clause.
    pub fn learned(lits: Vec<Lit>) -> (c: Self)
        ensures
            c@ == (ClauseView { lits: lits@, is_learned: true, deleted: false }),
    {
        Clause { lits, is_learned: true, deleted: false }
    }

    /// The size (number of literals) of the clause.
    pub fn len(&self) -> (n: usize)
        ensures
            n == self@.lits.len(),
    {
        self.lits.len()
    }

    /// Whether the clause is empty.
    pub fn is_empty(&self) -> (b: bool)
        ensures
            b == (self@.lits.len() == 0),
    {
        self.lits.len() == 0
    }

    /// Whether the clause is a unit clause (exactly one literal).
    pub fn is_unit(&self) -> (b: bool)
        ensures
            b == (self@.lits.len() == 1),
    {
        self.lits.len() == 1
    }

    /// Mark this clause as deleted (garbage).
    pub fn delete(&mut self)
        ensures
            final(self)@ == (ClauseView { deleted: true, ..old(self)@ }),
    {
        self.deleted = true;
    }

    /// A copy of the clause.
    pub fn duplicate(&self) -> (c: Self)
        ensures
            c@ == self@,
    {
        let mut lits: Vec<Lit> = Vec::new();
        let mut i: usize = 0;
        while i < self.lits.len()
            invariant
                i <= self.lits@.len(),
                lits@ == self.lits@.take(i as int),
            decreases self.lits@.len() - i,
        {
            lits.push(self.lits[i]);
            i = i + 1;
            assert(lits@ =~= self.lits@.take(i as int));
        }
        assert(self.lits@.take(i as int) =~= self.lits@);
        Clause { lits, is_learned: self.is_learned, deleted: self.deleted }
    }
}

/// The clause database: an arena of clauses indexed by [`ClauseId`].
#[derive(Debug)]
pub struct ClauseDB {
    clauses: Vec<Clause>,
}

impl View for ClauseDB {
    type V = Seq<ClauseView>;

    closed spec fn view(&self) -> Seq<ClauseView> {
        self.clauses@.map_values(|c: Clause| c@)
    }
}

impl ClauseDB {
    /// Create an empty clause database.
    pub fn new() -> (db: Self)
        ensures
            db@ == Seq::<ClauseView>::empty(),
    {
        let db = ClauseDB { clauses: Vec::new() };
        assert(db@ =~= Seq::<ClauseView>::empty());
        db
    }

    /// Store a clause and return its id: the number of clauses before it.
    pub fn alloc_clause(&mut self, clause: Clause) -> (id: ClauseId)
        ensures
            id == old(self)@.len(),
            final(self)@ == old(self)@.push(clause@),
    {
        let id = self.clauses.len();
        let ghost c = clause@;
        self.clauses.push(clause);
        assert(self@ =~= old(self)@.push(c));
        id
    }

    /// Access a clause by id.
    pub fn get(&self, id: ClauseId) -> (c: &Clause)
        requires
            id < self@.len(),
        ensures
            c@ == self@[id as int],
    {
        &self.clauses[id]
    }

    /// Mutable access to a clause by id.
    pub fn get_mut(&mut self, id: ClauseId) -> (c: &mut Clause)
        requires
            id < old(self)@.len(),
        ensures
            c@ == old(self)@[id as int],
            final(self)@ == old(self)@.update(id as int, final(c)@),
    {
        &mut self.clauses[id]
    }

    /// Number of clauses in the database (including deleted).
    pub fn len(&self) -> (n: usize)
        ensures
            n == self@.len(),
    {
        self.clauses.len()
    }

    /// Whether the database is empty.
    pub fn is_empty(&self) -> (b: bool)
        ensures
            b == (self@.len() == 0),
    {
        self.clauses.len() == 0
    }

    /// The non-deleted clauses with their ids, in id order.
    pub fn iter_active(&self) -> (r: Vec<(ClauseId, &Clause)>)
        ensures
            r@.len() == active_ids(self@).len(),
            forall|k: int|
                0 <= k < r@.len() ==> {
                    &&& (#[trigger] r@[k]).0 == active_ids(self@)[k]
                    &&& r@[k].0 < self@.len()
                    &&& r@[k].1@ == self@[r@[k].0 as int]
                },
    {
        let mut r: Vec<(ClauseId, &Clause)> = Vec::new();
        let mut i: usize = 0;
        while i < self.clauses.len()
            invariant
                i <= self@.len(),
                self@.len() == self.clauses@.len(),
                r@.len() == active_ids(self@.take(i as int)).len(),
                forall|k: int|
                    0 <= k < r@.len() ==> {
                        &&& (#[trigger] r@[k]).0 == active_ids(self@.take(i as int))[k]
                        &&& r@[k].0 < i
                        &&& r@[k].1@ == self@[r@[k].0 as int]
                    },
            decreases self@.len() - i,
        {
            let ghost before = self@.take(i as int);
            assert(self@.take(i + 1).drop_last() =~= before);
            assert(self@.take(i + 1).last() == self@[i as int]);
            assert(self@[i as int] == self.clauses@[i as int]@);
            if !self.clauses[i].deleted {
                r.push((i, &self.clauses[i]));
            }
            i = i + 1;
        }
        assert(self@.take(i as int) =~= self@);
        r
    }

    /// Number of non-deleted clauses.
    pub fn active_count(&self) -> (n: usize)
        ensures
            n == count_active(self@),
    {
        let mut n: usize = 0;
        let mut i: usize = 0;
        while i < self.clauses.len()
            invariant
                i <= self@.len(),
                self@.len() == self.clauses@.len(),
                n == count_active(self@.take(i as int)),
            decreases self@.len() - i,
        {
            assert(self@.take(i + 1).drop_last() =~= self@.take(i as int));
            assert(self@[i as int] == self.clauses@[i as int]@);
            proof {
                lemma_active_lengths(self@.take(i as int));
            }
            if !self.clauses[i].deleted {
                n = n + 1;
            }
            i = i + 1;
        }
        assert(self@.take(i as int) =~= self@);
        n
    }

    /// Garbage-collect deleted clauses by compacting the arena.
    /// Returns, for each old id, the new id of a surviving clause.
    pub fn compact(&mut self) -> (mapping: Vec<Option<ClauseId>>)
        ensures
            final(self)@ == active_part(old(self)@),
            mapping@ == compact_mapping(old(self)@),
    {
        let ghost s = self@;
        let mut kept: Vec<Clause> = Vec::new();
        let mut mapping: Vec<Option<ClauseId>> = Vec::new();
        let mut i: usize = 0;
        while i < self.clauses.len()
            invariant
                self@ == s,
                i <= s.len(),
                s.len() == self.clauses@.len(),
                kept@.map_values(|c: Clause| c@) == active_part(s.take(i as int)),
                kept@.len() == count_active(s.take(i as int)),
                mapping@ == compact_mapping(s).take(i as int),
            decreases s.len() - i,
        {
            let ghost before = s.take(i as int);
            assert(s.take(i + 1).drop_last() =~= before);
            assert(s.take(i + 1).last() == s[i as int]);
            assert(s[i as int] == self.clauses@[i as int]@);
            proof {
                lemma_active_lengths(before);
            }
            if !self.clauses[i].deleted {
                let c = self.clauses[i].duplicate();
                let w = kept.len();
                mapping.push(Some(w));
                kept.push(c);
            } else {
                mapping.push(None);
            }
            i = i + 1;
            assert(kept@.map_values(|c: Clause| c@) =~= active_part(s.take(i as int)));
            assert(mapping@ =~= compact_mapping(s).take(i as int));
        }
        assert(s.take(i as int) =~= s);
        assert(compact_mapping(s).take(i as int) =~= compact_mapping(s));
        self.clauses = kept;
        mapping
    }
}

} // verus!
