//! Two-watched-literal lists: for each literal, the clauses watching it.
use vstd::prelude::*;
use crate::sat::ClauseId;
use crate::sat::literal::{Lit, index_of};

verus! {

/// For each literal index, the clauses watching that literal.
#[derive(Debug, Clone)]
pub struct WatchList {
    watchers: Vec<Vec<ClauseId>>,
}

/// The list without every occurrence of `c`, order kept.
pub open spec fn without(s: Seq<ClauseId>, c: ClauseId) -> Seq<ClauseId>
    decreases s.len(),
{
    if s.len() == 0 {
        s
    } else if s.last() != c {
        without(s.drop_last(), c).push(s.last())
    } else {
        without(s.drop_last(), c)
    }
}

impl View for WatchList {
    type V = Seq<Seq<ClauseId>>;

    closed spec fn view(&self) -> Seq<Seq<ClauseId>> {
        self.watchers@.map_values(|w: Vec<ClauseId>| w@)
    }
}

impl WatchList {
    /// Empty lists for the literals of `var_count` variables.
    pub fn new(var_count: usize) -> (w: Self)
        requires
            2 * var_count <= usize::MAX,
        ensures
            w@.len() == 2 * var_count,
            forall|i: int| 0 <= i < w@.len() ==> (#[trigger] w@[i]).len() == 0,
    {
        let n = Lit::index_count(var_count);
        let mut watchers: Vec<Vec<ClauseId>> = Vec::new();
        let mut i: usize = 0;
        while i < n
            invariant
                i <= n,
                watchers@.len() == i,
                forall|k: int| 0 <= k < i ==> (#[trigger] watchers@[k])@.len() == 0,
            decreases n - i,
        {
            watchers.push(Vec::new());
            i = i + 1;
        }
        WatchList { watchers }
    }

    /// Empty lists added for the literals of the variables from the current
    /// count up to `var_count`; the existing lists stay.
    pub fn grow(&mut self, var_count: usize)
        requires
            2 * var_count <= usize::MAX,
            old(self)@.len() <= 2 * var_count,
        ensures
            final(self)@ == old(self)@ + Seq::new((2 * var_count - old(self)@.len()) as nat, |i: int| Seq::<ClauseId>::empty()),
    {
        let n = Lit::index_count(var_count);
        let ghost w0 = self@;
        let mut watchers: Vec<Vec<ClauseId>> = Vec::new();
        std::mem::swap(&mut watchers, &mut self.watchers);
        while watchers.len() < n
            invariant
                w0.len() <= watchers@.len() <= n,
                n == 2 * var_count,
                watchers@.map_values(|w: Vec<ClauseId>| w@)
                    == w0 + Seq::new((watchers@.len() - w0.len()) as nat, |i: int| Seq::<ClauseId>::empty()),
            decreases n - watchers@.len(),
        {
            let ghost before = watchers@;
            watchers.push(Vec::new());
            proof {
                let m0 = before.map_values(|w: Vec<ClauseId>| w@);
                let m = watchers@.map_values(|w: Vec<ClauseId>| w@);
                let target = w0 + Seq::new((watchers@.len() - w0.len()) as nat, |i: int| Seq::<ClauseId>::empty());
                assert(m0 == w0 + Seq::new((before.len() - w0.len()) as nat, |i: int| Seq::<ClauseId>::empty()));
                assert forall|k: int| 0 <= k < m.len() implies #[trigger] m[k] == target[k] by {
                    if k < before.len() {
                        assert(watchers@[k] == before[k]);
                        assert(m0[k] == m[k]);
                    }
                }
                assert(m =~= target);
            }
        }
        self.watchers = watchers;
    }

    /// Number of lists (one per literal index).
    pub fn len(&self) -> (n: usize)
        ensures
            n == self@.len(),
    {
        self.watchers.len()
    }

    /// Add `clause` to the list of `lit`.
    pub fn watch(&mut self, lit: Lit, clause: ClauseId)
        requires
            index_of(lit) < old(self)@.len(),
        ensures
            final(self)@ == old(self)@.update(index_of(lit), old(self)@[index_of(lit)].push(clause)),
    {
        let n = self.watchers.len();
        assert(index_of(lit) < n);
        let i = lit.index();
        let mut w = copy_ids(&self.watchers[i]);
        w.push(clause);
        self.watchers.set(i, w);
        assert(self@ =~= old(self)@.update(index_of(lit), old(self)@[index_of(lit)].push(clause)));
    }

    /// The clauses watching `lit`.
    pub fn watches(&self, lit: Lit) -> (s: &[ClauseId])
        requires
            index_of(lit) < self@.len(),
        ensures
            s@ == self@[index_of(lit)],
    {
        let n = self.watchers.len();
        assert(index_of(lit) < n);
        self.watchers[lit.index()].as_slice()
    }

    /// The list of clauses watching `lit`, for editing.
    pub fn watches_mut(&mut self, lit: Lit) -> (w: &mut Vec<ClauseId>)
        requires
            index_of(lit) < old(self)@.len(),
        ensures
            w@ == old(self)@[index_of(lit)],
            final(self)@ == old(self)@.update(index_of(lit), final(w)@),
    {
        let n = self.watchers.len();
        assert(index_of(lit) < n);
        let i = lit.index();
        &mut self.watchers[i]
    }

    /// Remove one occurrence of `clause` from the list of `lit` (the last
    /// entry takes its place). Returns whether it was there.
    pub fn remove_watch(&mut self, lit: Lit, clause: ClauseId) -> (found: bool)
        requires
            index_of(lit) < old(self)@.len(),
        ensures
            found == old(self)@[index_of(lit)].contains(clause),
            !found ==> final(self)@ == old(self)@,
            found ==> exists|pos: int| {
                &&& 0 <= pos < old(self)@[index_of(lit)].len()
                &&& old(self)@[index_of(lit)][pos] == clause
                &&& (forall|k: int| 0 <= k < pos ==> old(self)@[index_of(lit)][k] != clause)
                &&& final(self)@ == old(self)@.update(
                    index_of(lit),
                    old(self)@[index_of(lit)].update(pos, old(self)@[index_of(lit)].last()).drop_last(),
                )
            },
    {
        let n = self.watchers.len();
        assert(index_of(lit) < n);
        let i = lit.index();
        let ghost li = index_of(lit);
        assert(self.watchers@[i as int]@ == old(self)@[li]);
        match position_of(&self.watchers[i], clause) {
            None => false,
            Some(pos) => {
                let ghost orig = self.watchers@[i as int]@;
                let mut w = copy_ids(&self.watchers[i]);
                w.swap_remove(pos);
                self.watchers.set(i, w);
                assert(self@ =~= old(self)@.update(li, orig.update(pos as int, orig.last()).drop_last()));
                true
            },
        }
    }

    /// Remove `clause` from every list.
    pub fn remove_clause(&mut self, clause: ClauseId)
        ensures
            final(self)@.len() == old(self)@.len(),
            forall|i: int| 0 <= i < old(self)@.len() ==> (#[trigger] final(self)@[i]) == without(old(self)@[i], clause),
    {
        let n = self.watchers.len();
        let mut i: usize = 0;
        while i < n
            invariant
                n == old(self)@.len(),
                self@.len() == n,
                i <= n,
                forall|k: int| 0 <= k < i ==> (#[trigger] self@[k]) == without(old(self)@[k], clause),
                forall|k: int| i <= k < n ==> (#[trigger] self@[k]) == old(self)@[k],
            decreases n - i,
        {
            assert(self@[i as int] == self.watchers@[i as int]@);
            let kept = without_vec(&self.watchers[i], clause);
            let ghost before = self@;
            self.watchers.set(i, kept);
            assert(self@ =~= before.update(i as int, kept@));
            i = i + 1;
        }
    }
}

/// The first position of `c` in `w`.
fn position_of(w: &Vec<ClauseId>, c: ClauseId) -> (r: Option<usize>)
    ensures
        r is None <==> !w@.contains(c),
        r matches Some(p) ==> p < w@.len() && w@[p as int] == c
            && forall|k: int| 0 <= k < p ==> w@[k] != c,
{
    let mut pos: usize = 0;
    while pos < w.len()
        invariant
            pos <= w@.len(),
            forall|k: int| 0 <= k < pos ==> w@[k] != c,
        decreases w@.len() - pos,
    {
        if w[pos] == c {
            return Some(pos);
        }
        pos = pos + 1;
    }
    None
}

/// A copy of a list of clause ids.
fn copy_ids(w: &Vec<ClauseId>) -> (r: Vec<ClauseId>)
    ensures
        r@ == w@,
{
    let mut r: Vec<ClauseId> = Vec::new();
    let mut i: usize = 0;
    while i < w.len()
        invariant
            i <= w@.len(),
            r@ == w@.take(i as int),
        decreases w@.len() - i,
    {
        r.push(w[i]);
        i = i + 1;
        assert(r@ =~= w@.take(i as int));
    }
    assert(w@.take(i as int) =~= w@);
    r
}

/// `w` without every occurrence of `c`.
fn without_vec(w: &Vec<ClauseId>, c: ClauseId) -> (r: Vec<ClauseId>)
    ensures
        r@ == without(w@, c),
{
    let mut kept: Vec<ClauseId> = Vec::new();
    let mut j: usize = 0;
    while j < w.len()
        invariant
            j <= w@.len(),
            kept@ == without(w@.take(j as int), c),
        decreases w@.len() - j,
    {
        assert(w@.take(j as int + 1).drop_last() =~= w@.take(j as int));
        assert(w@.take(j as int + 1).last() == w@[j as int]);
        if w[j] != c {
            kept.push(w[j]);
        }
        j = j + 1;
    }
    assert(w@.take(j as int) =~= w@);
    kept
}

} // verus!
