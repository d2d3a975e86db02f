//! The assignment trail of CDCL search.
use vstd::prelude::*;
use crate::sat::ClauseId;
use crate::sat::literal::Lit;

verus! {

/// The reason why a variable was assigned.
#[derive(Debug, Clone, Copy, PartialEq, Eq, Structural)]
pub enum Reason {
    /// Decision — the variable was chosen heuristically.
    Decision,
    /// Unit propagation from a clause.
    Propagation(ClauseId),
}

/// A decision level (0 = top-level, >0 = decision levels).
pub type DecisionLevel = usize;

/// An entry on the assignment trail.
#[derive(Debug, Clone, Copy, PartialEq, Eq, Structural)]
pub struct TrailEntry {
    /// The literal that was assigned.
    pub lit: Lit,
    /// The decision level at which this assignment was made.
    pub level: DecisionLevel,
    /// The reason for the assignment.
    pub reason: Reason,
}

/// The trail records the order of assignments during CDCL search.
///
/// `boundaries[l]` is the index of the first entry at decision level `l`;
/// `entries[boundaries[l] .. boundaries[l+1]]` span level `l`; level 0
/// starts at 0. A decision pushes a new level boundary and is recorded at
/// the new level, so subsequent propagations belong to it.
#[derive(Debug, Clone)]
pub struct Trail {
    /// Ordered list of assigned literals with their reasons.
    entries: Vec<TrailEntry>,
    /// For each decision level, the index in `entries` where it begins.
    boundaries: Vec<usize>,
}

impl Trail {
    /// The shape invariant: at least one level, starting at 0, with
    /// non-decreasing starts within the entries.
    pub closed spec fn wf(&self) -> bool {
        &&& self.boundaries@.len() >= 1
        &&& self.boundaries@[0] == 0
        &&& forall|i: int, j: int| 0 <= i <= j < self.boundaries@.len() ==> self.boundaries@[i] <= self.boundaries@[j]
        &&& forall|i: int| 0 <= i < self.boundaries@.len() ==> self.boundaries@[i] <= self.entries@.len()
    }

    /// The entries, oldest first.
    pub closed spec fn spec_entries(&self) -> Seq<TrailEntry> {
        self.entries@
    }

    /// The start of each level.
    pub closed spec fn spec_boundaries(&self) -> Seq<usize> {
        self.boundaries@
    }

    /// What the shape invariant says, in terms of the views.
    pub proof fn lemma_wf_shape(&self)
        requires
            self.wf(),
        ensures
            self.spec_boundaries().len() >= 1,
            self.spec_boundaries()[0] == 0,
            forall|i: int, j: int|
                0 <= i <= j < self.spec_boundaries().len() ==> self.spec_boundaries()[i] <= self.spec_boundaries()[j],
            forall|i: int| 0 <= i < self.spec_boundaries().len() ==> self.spec_boundaries()[i] <= self.spec_entries().len(),
            self.spec_entries().len() <= usize::MAX,
    {
        assert(self.entries.len() == self.entries@.len());
    }

    /// Create a new empty trail.
    pub fn new() -> (t: Self)
        ensures
            t.wf(),
            t.spec_entries() == Seq::<TrailEntry>::empty(),
            t.spec_boundaries() == seq![0usize],
    {
        let mut b: Vec<usize> = Vec::new();
        b.push(0);
        let t = Trail { entries: Vec::new(), boundaries: b };
        assert(t.boundaries@ =~= seq![0usize]);
        t
    }

    /// The current (highest) decision level.
    pub fn current_level(&self) -> (l: DecisionLevel)
        requires
            self.wf(),
        ensures
            l == self.spec_boundaries().len() - 1,
            self.spec_boundaries().len() >= 1,
    {
        self.boundaries.len() - 1
    }

    /// The number of decision levels (including level 0).
    pub fn num_levels(&self) -> (n: usize)
        requires
            self.wf(),
        ensures
            n == self.spec_boundaries().len(),
            n >= 1,
    {
        self.boundaries.len()
    }

    /// Index of the first entry at the given level.
    pub fn level_start(&self, level: DecisionLevel) -> (s: usize)
        requires
            level < self.spec_boundaries().len(),
        ensures
            s == self.spec_boundaries()[level as int],
    {
        self.boundaries[level]
    }

    /// Make a decision: push a new decision level boundary, then record the
    /// decision literal at the new level. Returns the new current level.
    pub fn push_decision(&mut self, lit: Lit) -> (level: DecisionLevel)
        requires
            old(self).wf(),
        ensures
            final(self).wf(),
            level == old(self).spec_boundaries().len(),
            final(self).spec_boundaries() == old(self).spec_boundaries().push(old(self).spec_entries().len() as usize),
            final(self).spec_entries() == old(self).spec_entries().push(
                (TrailEntry { lit, level, reason: Reason::Decision }),
            ),
    {
        let new_level = self.boundaries.len();
        let n = self.entries.len();
        self.boundaries.push(n);
        self.entries.push(TrailEntry { lit, level: new_level, reason: Reason::Decision });
        new_level
    }

    /// Push a propagated assignment (stays at the current decision level).
    pub fn push_propagated(&mut self, lit: Lit, reason: Reason)
        requires
            old(self).wf(),
        ensures
            final(self).wf(),
            final(self).spec_boundaries() == old(self).spec_boundaries(),
            final(self).spec_entries() == old(self).spec_entries().push(
                (TrailEntry { lit, level: (old(self).spec_boundaries().len() - 1) as usize, reason }),
            ),
    {
        let level = self.boundaries.len() - 1;
        self.entries.push(TrailEntry { lit, level, reason });
    }

    /// Number of assignments at the current decision level.
    pub fn current_level_size(&self) -> (n: usize)
        requires
            self.wf(),
        ensures
            n == self.spec_entries().len() - self.spec_boundaries().last(),
    {
        let cl = self.boundaries.len() - 1;
        self.entries.len() - self.boundaries[cl]
    }

    /// Backtrack to the given decision level: remove all assignments made at
    /// levels above `target_level`. Returns the number of entries removed.
    pub fn backtrack(&mut self, target_level: DecisionLevel) -> (removed: usize)
        requires
            old(self).wf(),
            target_level < old(self).spec_boundaries().len(),
        ensures
            final(self).wf(),
            ({
                let keep = if target_level + 1 < old(self).spec_boundaries().len() {
                    old(self).spec_boundaries()[target_level + 1] as int
                } else {
                    old(self).spec_entries().len() as int
                };
                &&& final(self).spec_entries() == old(self).spec_entries().take(keep)
                &&& final(self).spec_boundaries() == old(self).spec_boundaries().take(target_level + 1)
                &&& removed == old(self).spec_entries().len() - keep
            }),
    {
        let keep_len = if target_level < self.boundaries.len() - 1 {
            self.boundaries[target_level + 1]
        } else {
            self.entries.len()
        };
        let removed = self.entries.len() - keep_len;
        self.entries.truncate(keep_len);
        self.boundaries.truncate(target_level + 1);
        removed
    }

    /// The number of assigned literals on the trail.
    pub fn len(&self) -> (n: usize)
        ensures
            n == self.spec_entries().len(),
    {
        self.entries.len()
    }

    /// Whether the trail is empty.
    pub fn is_empty(&self) -> (b: bool)
        ensures
            b == (self.spec_entries().len() == 0),
    {
        self.entries.len() == 0
    }

    /// The trail entry at the given index.
    pub fn get(&self, index: usize) -> (e: &TrailEntry)
        requires
            index < self.spec_entries().len(),
        ensures
            *e == self.spec_entries()[index as int],
    {
        &self.entries[index]
    }

    /// The last trail entry.
    pub fn last(&self) -> (e: Option<&TrailEntry>)
        ensures
            self.spec_entries().len() == 0 ==> e is None,
            self.spec_entries().len() > 0 ==> e == Some(&self.spec_entries().last()),
    {
        if self.entries.len() == 0 {
            None
        } else {
            Some(&self.entries[self.entries.len() - 1])
        }
    }

    /// All trail entries, oldest first.
    pub fn iter(&self) -> (s: &[TrailEntry])
        ensures
            s@ == self.spec_entries(),
    {
        self.entries.as_slice()
    }

    /// The entries at the given decision level.
    pub fn iter_level(&self, level: DecisionLevel) -> (s: &[TrailEntry])
        requires
            self.wf(),
            level < self.spec_boundaries().len(),
        ensures
            s@ == self.spec_entries().subrange(
                self.spec_boundaries()[level as int] as int,
                if level + 1 < self.spec_boundaries().len() {
                    self.spec_boundaries()[level + 1] as int
                } else {
                    self.spec_entries().len() as int
                },
            ),
    {
        let start = self.boundaries[level];
        let end = if level < self.boundaries.len() - 1 {
            self.boundaries[level + 1]
        } else {
            self.entries.len()
        };
        vstd::slice::slice_subrange(self.entries.as_slice(), start, end)
    }
}

} // verus!
