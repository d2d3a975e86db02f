//! QF_UF theory solver using congruence closure.
use vstd::prelude::*;
use crate::parser::text::{
    decimal, push_decimal, text_eq, trim, trim_bounds, words, words_in, strip_close, string_of, chars_equal,
    lemma_words_short, chars_of,
};
use crate::linear::display::join;
use crate::smt::theory::{term_name, term_name_string, atom_label, AtomRecord, TheoryAtom, TheoryCheckResult, TheorySolver};
use crate::smt::TheoryLit;

verus! {

/// Term identifier (index in the term table).
pub type TermId = usize;

/// An equality atom `lhs = rhs` between two terms.
#[derive(Debug, Clone, PartialEq, Eq, Structural)]
pub struct EqAtom {
    pub id: usize,
    pub lhs: TermId,
    pub rhs: TermId,
}

impl TheoryAtom for EqAtom {
    fn id(&self) -> (r: usize)
        ensures
            r == self.id,
    {
        self.id
    }

    /// The label `t<lhs> = t<rhs>`.
    fn label(&self) -> (s: String)
        ensures
            s@ == term_name(self.lhs as nat) + " = "@ + term_name(self.rhs as nat),
    {
        let mut s = term_name_string(self.lhs);
        s.append(" = ");
        let r = term_name_string(self.rhs);
        s.append(r.as_str());
        s
    }
}

/// A function application term `f(args...)`.
#[derive(Debug)]
pub struct FuncTerm {
    pub name: String,
    pub args: Vec<TermId>,
}

/// A term as a value: its function name and its argument terms.
pub open spec fn term_view(t: FuncTerm) -> (Seq<char>, Seq<usize>) {
    (t.name@, t.args@)
}

// ── Counting roots ────────────────────────────────────────────────────

/// The number of indices below `k` that are their own parent.
pub open spec fn count_roots(p: Seq<usize>, k: int) -> int
    decreases k,
{
    if k <= 0 {
        0
    } else {
        count_roots(p, k - 1) + (if p[k - 1] == (k - 1) as usize { 1int } else { 0int })
    }
}

/// Two parent maps that agree on which indices below `k` are roots, except
/// possibly at `j`, count roots alike up to the difference at `j`.
proof fn lemma_count_update(p: Seq<usize>, q: Seq<usize>, j: int, k: int)
    requires
        0 <= k <= p.len(),
        k <= q.len(),
        forall|i: int| 0 <= i < k && i != j ==> ((p[i] == i as usize) == (q[i] == i as usize)),
    ensures
        count_roots(q, k) == count_roots(p, k)
            + (if 0 <= j < k && q[j] == j as usize { 1int } else { 0int })
            - (if 0 <= j < k && p[j] == j as usize { 1int } else { 0int }),
    decreases k,
{
    if k > 0 {
        lemma_count_update(p, q, j, k - 1);
    }
}

/// The count lies between 0 and `k`.
proof fn lemma_count_bounds(p: Seq<usize>, k: int)
    requires
        0 <= k <= p.len(),
    ensures
        0 <= count_roots(p, k) <= k,
    decreases k,
{
    if k > 0 {
        lemma_count_bounds(p, k - 1);
    }
}

/// Two distinct roots below `k` make the count at least 2.
proof fn lemma_two_roots(p: Seq<usize>, a: int, b: int, k: int)
    requires
        0 <= a < k <= p.len(),
        0 <= b < k,
        a != b,
        p[a] == a as usize,
        p[b] == b as usize,
    ensures
        count_roots(p, k) >= 2,
    decreases k,
{
    lemma_count_bounds(p, k - 1);
    if a == k - 1 || b == k - 1 {
        let other = if a == k - 1 { b } else { a };
        lemma_one_root(p, other, k - 1);
    } else {
        lemma_two_roots(p, a, b, k - 1);
    }
}

/// One root below `k` makes the count at least 1.
proof fn lemma_one_root(p: Seq<usize>, a: int, k: int)
    requires
        0 <= a < k <= p.len(),
        p[a] == a as usize,
    ensures
        count_roots(p, k) >= 1,
    decreases k,
{
    lemma_count_bounds(p, k - 1);
    if a < k - 1 {
        lemma_one_root(p, a, k - 1);
    }
}

/// Every index of the identity map is a root.
proof fn lemma_count_identity(p: Seq<usize>, k: int)
    requires
        0 <= k <= p.len(),
        forall|i: int| 0 <= i < k ==> p[i] == i as usize,
    ensures
        count_roots(p, k) == k,
    decreases k,
{
    if k > 0 {
        lemma_count_identity(p, k - 1);
    }
}

// ── Congruence ───────────────────────────────────────────────────────

/// Whether terms `i` and `j` apply one function to arguments that `rel`
/// relates pairwise, `i` having at least one argument.
pub open spec fn args_related(terms: Seq<(Seq<char>, Seq<usize>)>, rel: spec_fn(int, int) -> bool, i: int, j: int) -> bool {
    let ai = terms[i].1;
    let aj = terms[j].1;
    &&& ai.len() > 0
    &&& terms[i].0 == terms[j].0
    &&& ai.len() == aj.len()
    &&& forall|k: int| 0 <= k < ai.len() ==> #[trigger] rel(ai[k] as int, aj[k] as int)
}

/// The relation "in the same class".
pub open spec fn class_rel(reps: Seq<usize>) -> spec_fn(int, int) -> bool {
    |a: int, b: int| reps[a] == reps[b]
}

/// Terms whose arguments are pairwise in the same classes are themselves
/// in the same class.
pub open spec fn cong_closed(terms: Seq<(Seq<char>, Seq<usize>)>, reps: Seq<usize>) -> bool {
    forall|i: int, j: int|
        0 <= i < terms.len() && 0 <= j < terms.len() && #[trigger] args_related(terms, class_rel(reps), i, j)
            ==> reps[i] == reps[j]
}

/// `rel` is an equivalence on the terms that is closed under congruence.
pub open spec fn is_congruence(rel: spec_fn(int, int) -> bool, terms: Seq<(Seq<char>, Seq<usize>)>) -> bool {
    let n = terms.len();
    &&& forall|a: int| 0 <= a < n ==> #[trigger] rel(a, a)
    &&& forall|a: int, b: int| 0 <= a < n && 0 <= b < n && #[trigger] rel(a, b) ==> rel(b, a)
    &&& forall|a: int, b: int, c: int|
        0 <= a < n && 0 <= b < n && 0 <= c < n && #[trigger] rel(a, b) && #[trigger] rel(b, c) ==> rel(a, c)
    &&& forall|i: int, j: int| 0 <= i < n && 0 <= j < n && #[trigger] args_related(terms, rel, i, j) ==> rel(i, j)
}

/// `rel` relates every two terms of a class.
pub open spec fn includes(rel: spec_fn(int, int) -> bool, reps: Seq<usize>) -> bool {
    forall|a: int, b: int| 0 <= a < reps.len() && 0 <= b < reps.len() && reps[a] == reps[b] ==> #[trigger] rel(a, b)
}

/// Every congruence that includes the classes of `r0` includes those of `r`.
pub open spec fn within_closure(terms: Seq<(Seq<char>, Seq<usize>)>, r0: Seq<usize>, r: Seq<usize>) -> bool {
    forall|rel: spec_fn(int, int) -> bool| is_congruence(rel, terms) && #[trigger] includes(rel, r0) ==> includes(rel, r)
}

/// The classes of `r0` are unions of classes... kept: terms together in `r0` stay together in `r`.
pub open spec fn coarsens(r0: Seq<usize>, r: Seq<usize>) -> bool {
    forall|a: int, b: int| 0 <= a < r0.len() && 0 <= b < r0.len() && r0[a] == r0[b] ==> #[trigger] r[a] == #[trigger] r[b]
}

/// Every argument of every term is a term.
pub open spec fn args_in_range(terms: Seq<(Seq<char>, Seq<usize>)>) -> bool {
    forall|i: int, k: int| 0 <= i < terms.len() && 0 <= k < terms[i].1.len() ==> #[trigger] terms[i].1[k] < terms.len()
}

/// Merging the classes of two congruent terms stays within the closure.
proof fn lemma_merge_within(terms: Seq<(Seq<char>, Seq<usize>)>, r0: Seq<usize>, r: Seq<usize>, i: int, j: int, from: usize, to: usize)
    requires
        r.len() == terms.len(),
        r0.len() == terms.len(),
        0 <= i < terms.len(),
        0 <= j < terms.len(),
        (from == r[i] && to == r[j]) || (from == r[j] && to == r[i]),
        within_closure(terms, r0, r),
        args_related(terms, class_rel(r), i, j),
        args_in_range(terms),
    ensures
        within_closure(terms, r0, merged(r, from, to)),
{
    let m = merged(r, from, to);
    let n = terms.len() as int;
    assert forall|rel: spec_fn(int, int) -> bool| is_congruence(rel, terms) && #[trigger] includes(rel, r0) implies includes(rel, m) by {
        assert(includes(rel, r));
        let ai = terms[i].1;
        let aj = terms[j].1;
        assert forall|k: int| 0 <= k < ai.len() implies #[trigger] rel(ai[k] as int, aj[k] as int) by {
            assert(class_rel(r)(ai[k] as int, aj[k] as int));
            assert(terms[i].1[k] < n);
            assert(terms[j].1[k] < n);
        }
        assert(args_related(terms, rel, i, j));
        assert(rel(i, j));
        lemma_merge_rel(terms, rel, r, i, j, from, to);
    }
}

/// A congruence that includes the classes of `r` and relates `i` and `j`
/// includes the classes after those of `i` and `j` merge.
proof fn lemma_merge_rel(terms: Seq<(Seq<char>, Seq<usize>)>, rel: spec_fn(int, int) -> bool, r: Seq<usize>, i: int, j: int, from: usize, to: usize)
    requires
        r.len() == terms.len(),
        0 <= i < terms.len(),
        0 <= j < terms.len(),
        (from == r[i] && to == r[j]) || (from == r[j] && to == r[i]),
        is_congruence(rel, terms),
        includes(rel, r),
        rel(i, j),
    ensures
        includes(rel, merged(r, from, to)),
{
    let m = merged(r, from, to);
    let n = terms.len() as int;
    assert(rel(j, i));
    assert forall|a: int, b: int| 0 <= a < n && 0 <= b < n && m[a] == m[b] implies #[trigger] rel(a, b) by {
        if r[a] == r[b] {
        } else if r[a] == from {
            // `b` is in the class of `to`.
            let (p, q) = if from == r[i] { (i, j) } else { (j, i) };
            assert(r[a] == r[p]);
            assert(rel(a, p));
            assert(r[b] == r[q]);
            assert(rel(q, b));
            assert(rel(p, q));
            assert(rel(a, q));
        } else {
            let (p, q) = if from == r[i] { (i, j) } else { (j, i) };
            assert(r[b] == r[p]);
            assert(rel(b, p));
            assert(r[a] == r[q]);
            assert(rel(a, q));
            assert(rel(q, p));
            assert(rel(a, p));
            assert(rel(p, b));
        }
    }
}

/// Congruence of arguments under "same class" is symmetric.
proof fn lemma_args_related_sym(terms: Seq<(Seq<char>, Seq<usize>)>, r: Seq<usize>, i: int, j: int)
    requires
        args_related(terms, class_rel(r), i, j),
    ensures
        args_related(terms, class_rel(r), j, i),
{
    let ai = terms[i].1;
    let aj = terms[j].1;
    assert forall|k: int| 0 <= k < aj.len() implies #[trigger] class_rel(r)(aj[k] as int, ai[k] as int) by {
        assert(class_rel(r)(ai[k] as int, aj[k] as int));
    }
}

/// Each pair is related by `rel`.
pub open spec fn relates_pairs(rel: spec_fn(int, int) -> bool, pairs: Seq<(usize, usize)>) -> bool {
    forall|k: int| 0 <= k < pairs.len() ==> #[trigger] rel(pairs[k].0 as int, pairs[k].1 as int)
}

/// The classes of `r` form the least congruence that keeps the classes of
/// `base` together and relates each pair.
pub open spec fn is_closure(terms: Seq<(Seq<char>, Seq<usize>)>, base: Seq<usize>, pairs: Seq<(usize, usize)>, r: Seq<usize>) -> bool {
    &&& coarsens(base, r)
    &&& relates_pairs(class_rel(r), pairs)
    &&& cong_closed(terms, r)
    &&& forall|rel: spec_fn(int, int) -> bool|
        is_congruence(rel, terms) && includes(rel, base) && #[trigger] relates_pairs(rel, pairs) ==> includes(rel, r)
}

/// `a` and `b` are related by every congruence that keeps the classes of
/// `base` together and relates each pair.
pub open spec fn cc_equal(terms: Seq<(Seq<char>, Seq<usize>)>, base: Seq<usize>, pairs: Seq<(usize, usize)>, a: int, b: int) -> bool {
    forall|rel: spec_fn(int, int) -> bool|
        is_congruence(rel, terms) && includes(rel, base) && #[trigger] relates_pairs(rel, pairs) ==> rel(a, b)
}

/// Every term in a class of its own.
pub open spec fn singletons(n: nat) -> Seq<usize> {
    Seq::new(n, |i: int| i as usize)
}

/// "Same class" in a congruence-closed partition is a congruence.
proof fn lemma_class_rel_congruence(terms: Seq<(Seq<char>, Seq<usize>)>, r: Seq<usize>)
    requires
        r.len() == terms.len(),
        cong_closed(terms, r),
    ensures
        is_congruence(class_rel(r), terms),
{
    let rel = class_rel(r);
    let n = terms.len() as int;
    assert forall|i: int, j: int| 0 <= i < n && 0 <= j < n && #[trigger] args_related(terms, rel, i, j) implies rel(i, j) by {
        assert(args_related(terms, class_rel(r), i, j));
    }
}

/// In the closure, two terms share a class exactly when every such
/// congruence relates them.
pub proof fn lemma_closure_equal(terms: Seq<(Seq<char>, Seq<usize>)>, base: Seq<usize>, pairs: Seq<(usize, usize)>, r: Seq<usize>, a: int, b: int)
    requires
        r.len() == terms.len(),
        base.len() == terms.len(),
        0 <= a < terms.len(),
        0 <= b < terms.len(),
        is_closure(terms, base, pairs, r),
    ensures
        (r[a] == r[b]) == cc_equal(terms, base, pairs, a, b),
{
    lemma_class_rel_congruence(terms, r);
    let cr = class_rel(r);
    assert(includes(cr, base));
    assert(relates_pairs(cr, pairs));
    if cc_equal(terms, base, pairs, a, b) {
        assert(cr(a, b));
    }
    if r[a] == r[b] {
        assert forall|rel: spec_fn(int, int) -> bool|
            is_congruence(rel, terms) && includes(rel, base) && #[trigger] relates_pairs(rel, pairs) implies rel(a, b) by {
            assert(includes(rel, r));
        }
    }
}

// ── Terms named by text ───────────────────────────────────────────────

/// The text of a term: its name alone when it has no arguments, else
/// `(name t<a1> t<a2> ...)`.
pub open spec fn format_term(t: (Seq<char>, Seq<usize>)) -> Seq<char> {
    if t.1.len() == 0 {
        t.0
    } else {
        seq!['('] + t.0 + seq![' '] + join(Seq::new(t.1.len(), |k: int| term_name(t.1[k] as nat)), seq![' '])
            + seq![')']
    }
}

/// The first term from index `k` on whose text is `text`.
pub open spec fn first_match(ts: Seq<(Seq<char>, Seq<usize>)>, text: Seq<char>, k: int) -> Option<int>
    decreases ts.len() - k,
{
    if k < 0 || k >= ts.len() {
        None
    } else if format_term(ts[k]) == text {
        Some(k)
    } else {
        first_match(ts, text, k + 1)
    }
}

/// A new constant `c<id>`, unless every id is taken.
pub open spec fn add_const(ts: Seq<(Seq<char>, Seq<usize>)>) -> (Seq<(Seq<char>, Seq<usize>)>, Option<usize>) {
    if ts.len() >= usize::MAX {
        (ts, None)
    } else {
        (ts.push((seq!['c'] + decimal(ts.len()), seq![])), Some(ts.len() as usize))
    }
}

/// A new constant named `name`, unless every id is taken.
pub open spec fn add_named(ts: Seq<(Seq<char>, Seq<usize>)>, name: Seq<char>) -> (Seq<(Seq<char>, Seq<usize>)>, Option<usize>) {
    if ts.len() >= usize::MAX {
        (ts, None)
    } else {
        (ts.push((name, seq![])), Some(ts.len() as usize))
    }
}

/// The term that the text `s` names: an existing term with that text, else
/// a new application `(f a1 a2 ...)` of terms named by its parts, else a
/// new constant named by the text, so that every later mention of the
/// same name finds it.
pub open spec fn resolve(ts: Seq<(Seq<char>, Seq<usize>)>, s: Seq<char>) -> (Seq<(Seq<char>, Seq<usize>)>, Option<usize>)
    decreases s.len(), 0int,
{
    let t = trim(s);
    match first_match(ts, t, 0) {
        Some(i) => (ts, Some(i as usize)),
        None => if s.len() >= 1 && t.len() >= 2 && t[0] == '(' && t.last() == ')' {
            let parts = words(trim(t.subrange(1, t.len() - 1)));
            if parts.len() == 0 {
                add_const(ts)
            } else {
                match resolve_args(ts, parts, 1, seq![], (s.len() - 1) as nat) {
                    (ts2, None) => (ts2, None),
                    (ts2, Some(args)) => if ts2.len() >= usize::MAX {
                        (ts2, None)
                    } else {
                        (ts2.push((parts[0], args)), Some(ts2.len() as usize))
                    },
                }
            }
        } else {
            add_named(ts, t)
        },
    }
}

/// The terms named by `parts[k..]`, each without its closing parentheses,
/// after the ids `acc`; `bound` bounds the length of the parts.
pub open spec fn resolve_args(
    ts: Seq<(Seq<char>, Seq<usize>)>,
    parts: Seq<Seq<char>>,
    k: int,
    acc: Seq<usize>,
    bound: nat,
) -> (Seq<(Seq<char>, Seq<usize>)>, Option<Seq<usize>>)
    decreases bound, parts.len() - k,
{
    if k < 0 || k >= parts.len() {
        (ts, Some(acc))
    } else if strip_close(parts[k]).len() > bound {
        (ts, None)
    } else {
        match resolve(ts, strip_close(parts[k])) {
            (ts1, None) => (ts1, None),
            (ts1, Some(id)) => resolve_args(ts1, parts, k + 1, acc.push(id), bound),
        }
    }
}

proof fn lemma_strip_close_short(s: Seq<char>)
    ensures
        strip_close(s).len() <= s.len(),
    decreases s.len(),
{
    if s.len() > 0 && s.last() == ')' {
        lemma_strip_close_short(s.drop_last());
    }
}

/// The end of `s[lo..hi]` without the `)` characters it ends with.
fn strip_close_end(s: &Vec<char>, lo: usize, hi: usize) -> (e: usize)
    requires
        lo <= hi <= s@.len(),
    ensures
        lo <= e <= hi,
        s@.subrange(lo as int, e as int) == strip_close(s@.subrange(lo as int, hi as int)),
{
    let mut e = hi;
    while e > lo && s[e - 1] == ')'
        invariant
            lo <= e <= hi <= s@.len(),
            strip_close(s@.subrange(lo as int, e as int)) == strip_close(s@.subrange(lo as int, hi as int)),
        decreases e - lo,
    {
        assert(s@.subrange(lo as int, e as int).drop_last() =~= s@.subrange(lo as int, e as int - 1));
        e = e - 1;
    }
    e
}

/// The text of a term.
fn format_term_string(ft: &FuncTerm) -> (out: String)
    ensures
        out@ == format_term(term_view(*ft)),
{
    if ft.args.len() == 0 {
        return ft.name.clone();
    }
    let ghost parts = Seq::new(ft.args@.len(), |k: int| term_name(ft.args@[k] as nat));
    let mut out = String::from_str("(");
    out.append(ft.name.as_str());
    out.append(" ");
    proof {
        reveal_strlit("(");
        reveal_strlit(" ");
        reveal_strlit(")");
        assert(parts.take(0) =~= seq![]);
    }
    let ghost head = seq!['('] + ft.name@ + seq![' '];
    assert(out@ =~= head + join(parts.take(0), seq![' ']));
    let mut i: usize = 0;
    while i < ft.args.len()
        invariant
            i <= ft.args@.len(),
            parts == Seq::new(ft.args@.len(), |k: int| term_name(ft.args@[k] as nat)),
            head == seq!['('] + ft.name@ + seq![' '],
            out@ == head + join(parts.take(i as int), seq![' ']),
        decreases ft.args@.len() - i,
    {
        let ghost before = out@;
        if i > 0 {
            out.append(" ");
        }
        let ghost mid = out@;
        proof {
            reveal_strlit(" ");
        }
        let piece = term_name_string(ft.args[i]);
        out.append(piece.as_str());
        proof {
            let t0 = parts.take(i as int);
            let t1 = parts.take(i as int + 1);
            assert(t1.drop_last() =~= t0);
            assert(t1.last() == piece@);
            if i == 0 {
                assert(t1 =~= seq![piece@]);
                assert(t0 =~= seq![]);
                assert(mid == before);
                assert(out@ =~= head + join(t1, seq![' ']));
            } else {
                assert(mid == before + seq![' ']);
                assert(out@ =~= head + join(t1, seq![' ']));
            }
        }
        i = i + 1;
    }
    out.append(")");
    proof {
        assert(parts.take(i as int) =~= parts);
        assert(out@ =~= format_term(term_view(*ft)));
    }
    out
}

/// The first position from `p` on of ` = ` in `l`.
pub open spec fn find_sep(l: Seq<char>, p: int) -> Option<int>
    decreases l.len() - p,
{
    if p < 0 || p + 3 > l.len() {
        None
    } else if l.subrange(p, p + 3) == " = "@ {
        Some(p)
    } else {
        find_sep(l, p + 1)
    }
}

/// `at` with entry `id` set to `v`, first padded with `(0, 0)` entries.
pub open spec fn set_at(at: Seq<(usize, usize)>, id: int, v: (usize, usize)) -> Seq<(usize, usize)> {
    if id < at.len() {
        at.update(id, v)
    } else {
        (at + Seq::new((id - at.len()) as nat, |k: int| (0usize, 0usize))).push(v)
    }
}

/// Registering one atom: for a label `lhs = rhs`, the terms of its two
/// sides become the atom's term pair.
pub open spec fn atom_set(ts: Seq<(Seq<char>, Seq<usize>)>, at: Seq<(usize, usize)>, a: AtomRecord)
    -> (Seq<(Seq<char>, Seq<usize>)>, Seq<(usize, usize)>) {
    let l = atom_label(a);
    match find_sep(l, 0) {
        None => (ts, at),
        Some(p) => match resolve(ts, l.subrange(0, p)) {
            (ts1, None) => (ts1, at),
            (ts1, Some(x)) => match resolve(ts1, l.subrange(p + 3, l.len() as int)) {
                (ts2, None) => (ts2, at),
                (ts2, Some(y)) => (ts2, set_at(at, a.id as int, (x, y))),
            },
        },
    }
}

/// Registering `atoms[i..]` in order.
pub open spec fn atoms_fold(ts: Seq<(Seq<char>, Seq<usize>)>, at: Seq<(usize, usize)>, atoms: Seq<AtomRecord>, i: int)
    -> (Seq<(Seq<char>, Seq<usize>)>, Seq<(usize, usize)>)
    decreases atoms.len() - i,
{
    if i < 0 || i >= atoms.len() {
        (ts, at)
    } else {
        let (ts1, at1) = atom_set(ts, at, atoms[i]);
        atoms_fold(ts1, at1, atoms, i + 1)
    }
}

/// `r` keeps the classes of `r0` and puts each further term in a class of
/// its own.
pub open spec fn extends(r0: Seq<usize>, r: Seq<usize>) -> bool {
    &&& r0.len() <= r.len()
    &&& forall|x: int| 0 <= x < r0.len() ==> #[trigger] r[x] == r0[x]
    &&& forall|x: int| r0.len() <= x < r.len() ==> #[trigger] r[x] == x as usize
}

// ── The union-find structure ─────────────────────────────────────────

/// The representative map after the class with representative `from` has
/// joined the class with representative `to`.
pub open spec fn merged(reps: Seq<usize>, from: usize, to: usize) -> Seq<usize> {
    Seq::new(reps.len(), |z: int| if reps[z] == from { to } else { reps[z] })
}

/// The UF theory solver using congruence closure.
pub struct UF {
    /// Parent pointer for union-find (term_id → parent).
    parent: Vec<TermId>,
    /// Rank for union-find.
    rank: Vec<usize>,
    /// Terms stored by ID.
    func_terms: Vec<FuncTerm>,
    /// Asserted equalities: (lhs, rhs) pairs that are asserted true.
    assertions: Vec<(TermId, TermId)>,
    /// Asserted disequalities.
    disequalities: Vec<(TermId, TermId)>,
    /// Next term ID.
    next_term: TermId,
    /// Stack for push/pop.
    stack: Vec<usize>,
    /// For each atom ID, the (lhs, rhs) term pair it represents.
    atom_terms: Vec<(TermId, TermId)>,
    /// The representative of each term's class.
    rep: Ghost<Seq<usize>>,
}

impl UF {
    /// The number of terms.
    pub closed spec fn size(&self) -> nat {
        self.parent@.len()
    }

    /// The representative of each term's class.
    pub closed spec fn reps(&self) -> Seq<usize> {
        self.rep@
    }

    /// The terms, by id.
    pub closed spec fn terms(&self) -> Seq<(Seq<char>, Seq<usize>)> {
        self.func_terms@.map_values(|t: FuncTerm| term_view(t))
    }

    /// The rank of each term.
    pub closed spec fn ranks(&self) -> Seq<usize> {
        self.rank@
    }

    /// The number of classes.
    pub closed spec fn num_classes(&self) -> int {
        count_roots(self.parent@, self.parent@.len() as int)
    }

    /// The asserted equalities and disequalities.
    pub closed spec fn asserted(&self) -> (Seq<(usize, usize)>, Seq<(usize, usize)>) {
        (self.assertions@, self.disequalities@)
    }

    /// The saved scope sizes and the term pair of each atom.
    pub closed spec fn scopes(&self) -> (Seq<usize>, Seq<(usize, usize)>) {
        (self.stack@, self.atom_terms@)
    }

    /// The structure is well formed: parents and representatives stay in
    /// range, ranks grow towards the root and stay below the number of
    /// terms, and every argument is a term.
    pub closed spec fn wf(&self) -> bool {
        let n = self.parent@.len();
        let p = self.parent@;
        let r = self.rep@;
        let k = self.rank@;
        &&& self.rank@.len() == n
        &&& self.func_terms@.len() == n
        &&& r.len() == n
        &&& self.next_term == n
        &&& forall|x: int| 0 <= x < n ==> {
            &&& (#[trigger] p[x]) < n
            &&& r[p[x] as int] == r[x]
            &&& (p[x] == x as usize) == (r[x] == x as usize)
            &&& (p[x] != x as usize ==> k[x] < k[p[x] as int])
        }
        &&& forall|x: int| 0 <= x < n ==> {
            &&& (#[trigger] r[x]) < n
            &&& r[r[x] as int] == r[x]
            &&& (r[x] != x as usize ==> k[x] < k[r[x] as int])
        }
        &&& forall|x: int| 0 <= x < n ==> (#[trigger] k[x]) + count_roots(p, n as int) <= n
        &&& forall|i: int, a: int| 0 <= i < n && 0 <= a < self.func_terms@[i].args@.len()
            ==> (#[trigger] self.func_terms@[i].args@[a]) < n
        &&& forall|i: int| 0 <= i < self.assertions@.len() ==> {
            &&& (#[trigger] self.assertions@[i]).0 < n
            &&& self.assertions@[i].1 < n
        }
        &&& forall|i: int| 0 <= i < self.disequalities@.len() ==> {
            &&& (#[trigger] self.disequalities@[i]).0 < n
            &&& self.disequalities@[i].1 < n
        }
    }

    pub fn new() -> (u: Self)
        ensures
            u.wf(),
            u.reps().len() == u.size(),
            u.terms().len() == u.size(),
            u.size() == 0,
            u.asserted() == (Seq::<(usize, usize)>::empty(), Seq::<(usize, usize)>::empty()),
            u.scopes() == (Seq::<usize>::empty(), Seq::<(usize, usize)>::empty()),
    {
        UF {
            parent: Vec::new(),
            rank: Vec::new(),
            func_terms: Vec::new(),
            assertions: Vec::new(),
            disequalities: Vec::new(),
            next_term: 0,
            stack: Vec::new(),
            atom_terms: Vec::new(),
            rep: Ghost(Seq::empty()),
        }
    }

    /// Add a term in a class of its own.
    fn push_term(&mut self, t: FuncTerm) -> (id: TermId)
        requires
            old(self).wf(),
            old(self).size() < usize::MAX,
            forall|a: int| 0 <= a < t.args@.len() ==> t.args@[a] < old(self).size(),
        ensures
            final(self).wf(),
            final(self).reps().len() == final(self).size(),
            final(self).terms().len() == final(self).size(),
            id == old(self).size(),
            final(self).size() == old(self).size() + 1,
            final(self).reps() == old(self).reps().push(id),
            final(self).terms() == old(self).terms().push(term_view(t)),
            final(self).ranks() == old(self).ranks().push(0),
            final(self).num_classes() == old(self).num_classes() + 1,
            final(self).asserted() == old(self).asserted(),
            final(self).scopes() == old(self).scopes(),
    {
        let id = self.next_term;
        let ghost p0 = self.parent@;
        let ghost n0 = p0.len() as int;
        let ghost tv = term_view(t);
        self.parent.push(id);
        self.rank.push(0);
        self.func_terms.push(t);
        self.next_term = id + 1;
        self.rep = Ghost(self.rep@.push(id));
        proof {
            let p = self.parent@;
            lemma_count_update(p0, p, n0, n0);
            assert(count_roots(p, n0 + 1) == count_roots(p, n0) + 1);
            assert(count_roots(p, n0) == count_roots(p0, n0));
            assert forall|x: int| 0 <= x < p.len() implies self.rank@[x] + count_roots(p, p.len() as int) <= p.len() by {
                if x < n0 {
                    assert(p[x] == p0[x]);
                }
            }
            assert(self.terms() =~= old(self).terms().push(tv));
            assert forall|i: int, a: int| 0 <= i < p.len() && 0 <= a < self.func_terms@[i].args@.len()
                implies (#[trigger] self.func_terms@[i].args@[a]) < p.len() by {
                if i < n0 {
                    assert(self.func_terms@[i] == old(self).func_terms@[i]);
                }
            }
        }
        id
    }

    /// Create a new constant term (arity 0) named `c<id>`.
    pub fn new_const(&mut self) -> (id: TermId)
        requires
            old(self).wf(),
            old(self).size() < usize::MAX,
        ensures
            final(self).wf(),
            final(self).reps().len() == final(self).size(),
            final(self).terms().len() == final(self).size(),
            id == old(self).size(),
            final(self).size() == old(self).size() + 1,
            final(self).reps() == old(self).reps().push(id),
            final(self).terms() == old(self).terms().push((seq!['c'] + decimal(id as nat), seq![])),
            final(self).ranks() == old(self).ranks().push(0),
            final(self).num_classes() == old(self).num_classes() + 1,
            final(self).asserted() == old(self).asserted(),
            final(self).scopes() == old(self).scopes(),
    {
        let mut name = String::from_str("c");
        proof {
            reveal_strlit("c");
        }
        push_decimal(&mut name, self.next_term as u128);
        let args: Vec<TermId> = Vec::new();
        assert(name@ =~= seq!['c'] + decimal(self.next_term as nat));
        self.push_term(FuncTerm { name, args })
    }

    /// Create a new function application `name(args...)`.
    pub fn new_app(&mut self, name: &str, args: Vec<TermId>) -> (id: TermId)
        requires
            old(self).wf(),
            old(self).size() < usize::MAX,
            forall|a: int| 0 <= a < args@.len() ==> args@[a] < old(self).size(),
        ensures
            final(self).wf(),
            final(self).reps().len() == final(self).size(),
            final(self).terms().len() == final(self).size(),
            id == old(self).size(),
            final(self).size() == old(self).size() + 1,
            final(self).reps() == old(self).reps().push(id),
            final(self).terms() == old(self).terms().push((name@, args@)),
            final(self).ranks() == old(self).ranks().push(0),
            final(self).num_classes() == old(self).num_classes() + 1,
            final(self).asserted() == old(self).asserted(),
            final(self).scopes() == old(self).scopes(),
    {
        let n = name.to_owned();
        self.push_term(FuncTerm { name: n, args })
    }

    /// Find the canonical representative of a term, compressing the path
    /// to it.
    pub fn find(&mut self, x: TermId) -> (r: TermId)
        requires
            old(self).wf(),
            x < old(self).size(),
        ensures
            final(self).wf(),
            final(self).reps().len() == final(self).size(),
            final(self).terms().len() == final(self).size(),
            r == old(self).reps()[x as int],
            final(self).size() == old(self).size(),
            final(self).reps() == old(self).reps(),
            final(self).terms() == old(self).terms(),
            final(self).ranks() == old(self).ranks(),
            final(self).num_classes() == old(self).num_classes(),
            final(self).asserted() == old(self).asserted(),
            final(self).scopes() == old(self).scopes(),
        decreases old(self).size() - old(self).ranks()[x as int],
    {
        let px = self.parent[x];
        proof {
            assert(self.parent@[x as int] == px);
            lemma_count_bounds(self.parent@, self.parent@.len() as int);
            if px != x {
                assert(self.rank@[x as int] < self.rank@[px as int]);
                assert(self.rank@[px as int] + count_roots(self.parent@, self.parent@.len() as int) <= self.parent@.len());
            }
        }
        if px != x {
            let root = self.find(px);
            let ghost p0 = self.parent@;
            self.parent.set(x, root);
            proof {
                let p = self.parent@;
                let n = p.len() as int;
                lemma_count_update(p0, p, x as int, n);
                assert forall|z: int| 0 <= z < n implies {
                    &&& (#[trigger] p[z]) < n
                    &&& self.rep@[p[z] as int] == self.rep@[z]
                    &&& (p[z] == z as usize) == (self.rep@[z] == z as usize)
                    &&& (p[z] != z as usize ==> self.rank@[z] < self.rank@[p[z] as int])
                } by {
                    if z != x {
                        assert(p[z] == p0[z]);
                    }
                }
            }
        }
        self.parent[x]
    }

    /// Union two terms' classes; the representative of the higher-ranked
    /// class stays (the first term's on a tie).
    pub fn union(&mut self, x: TermId, y: TermId)
        requires
            old(self).wf(),
            x < old(self).size(),
            y < old(self).size(),
        ensures
            final(self).wf(),
            final(self).reps().len() == final(self).size(),
            final(self).terms().len() == final(self).size(),
            final(self).size() == old(self).size(),
            final(self).terms() == old(self).terms(),
            final(self).asserted() == old(self).asserted(),
            final(self).scopes() == old(self).scopes(),
            ({
                let r = old(self).reps();
                let rx = r[x as int];
                let ry = r[y as int];
                let k = old(self).ranks();
                if rx == ry {
                    &&& final(self).reps() == r
                    &&& final(self).num_classes() == old(self).num_classes()
                } else {
                    &&& final(self).num_classes() == old(self).num_classes() - 1
                    &&& final(self).reps() == (if k[rx as int] < k[ry as int] {
                        merged(r, rx, ry)
                    } else {
                        merged(r, ry, rx)
                    })
                }
            }),
    {
        let rx = self.find(x);
        let ry = self.find(y);
        if rx == ry {
            return;
        }
        let kx = self.rank[rx];
        let ky = self.rank[ry];
        let ghost p0 = self.parent@;
        let ghost r0 = self.rep@;
        let ghost k0 = self.rank@;
        let ghost n = p0.len() as int;
        proof {
            lemma_two_roots(p0, rx as int, ry as int, n);
        }
        // The class of `lo` joins the class of `hi`.
        let (lo, hi) = if kx < ky {
            (rx, ry)
        } else {
            (ry, rx)
        };
        self.parent.set(lo, hi);
        if kx == ky {
            self.rank.set(rx, kx + 1);
        }
        self.rep = Ghost(merged(r0, lo, hi));
        proof {
            let p = self.parent@;
            let r = self.rep@;
            let k = self.rank@;
            lemma_count_update(p0, p, lo as int, n);
            assert forall|z: int| 0 <= z < n implies {
                &&& (#[trigger] p[z]) < n
                &&& r[z] < n
                &&& r[r[z] as int] == r[z]
                &&& r[p[z] as int] == r[z]
                &&& (p[z] == z as usize) == (r[z] == z as usize)
                &&& (p[z] != z as usize ==> k[z] < k[p[z] as int])
                &&& (r[z] != z as usize ==> k[z] < k[r[z] as int])
                &&& k[z] + count_roots(p, n) <= n
            } by {
                if z != lo as int {
                    assert(p[z] == p0[z]);
                }
                assert(r0[r0[z] as int] == r0[z]);
                assert(r0[p0[z] as int] == r0[z]);
            }
        }
    }
}

impl UF {
    /// The terms satisfy the range facts of the structure.
    /// The shape that the invariant gives: one representative and one term per
    /// term id, each representative a term that represents itself.
    pub proof fn lemma_wf_terms(&self)
        requires
            self.wf(),
        ensures
            args_in_range(self.terms()),
            self.terms().len() == self.size(),
            self.reps().len() == self.size(),
            forall|a: int| 0 <= a < self.size() ==> #[trigger] self.reps()[a] < self.size(),
            forall|a: int| 0 <= a < self.size() ==> self.reps()[#[trigger] self.reps()[a] as int] == self.reps()[a],
    {
        assert forall|i: int, k: int| 0 <= i < self.terms().len() && 0 <= k < self.terms()[i].1.len()
            implies #[trigger] self.terms()[i].1[k] < self.terms().len() by {
            assert(self.terms()[i] == term_view(self.func_terms@[i]));
            assert(self.func_terms@[i].args@[k] < self.parent@.len());
        }
    }

    /// Whether the arguments of terms `i` and `j`, of equal arity, lie
    /// pairwise in the same classes.
    fn args_congruent(&mut self, i: TermId, j: TermId) -> (b: bool)
        requires
            old(self).wf(),
            i < old(self).size(),
            j < old(self).size(),
            old(self).terms()[i as int].1.len() == old(self).terms()[j as int].1.len(),
        ensures
            final(self).wf(),
            final(self).reps().len() == final(self).size(),
            final(self).terms().len() == final(self).size(),
            b == (forall|k: int| 0 <= k < old(self).terms()[i as int].1.len() ==>
                #[trigger] class_rel(old(self).reps())(old(self).terms()[i as int].1[k] as int, old(self).terms()[j as int].1[k] as int)),
            final(self).size() == old(self).size(),
            final(self).reps() == old(self).reps(),
            final(self).terms() == old(self).terms(),
            final(self).ranks() == old(self).ranks(),
            final(self).num_classes() == old(self).num_classes(),
            final(self).asserted() == old(self).asserted(),
            final(self).scopes() == old(self).scopes(),
    {
        proof {
            self.lemma_wf_terms();
        }
        let ghost t = self.terms();
        let ghost r = self.reps();
        let len = self.func_terms[i].args.len();
        assert(t[i as int] == term_view(self.func_terms@[i as int]));
        assert(t[j as int] == term_view(self.func_terms@[j as int]));
        let mut k: usize = 0;
        while k < len
            invariant
                self.wf(),
                t == old(self).terms(),
                r == old(self).reps(),
                args_in_range(t),
                i < self.size(),
                j < self.size(),
                len == t[i as int].1.len(),
                len == t[j as int].1.len(),
                k <= len,
                self.size() == old(self).size(),
                self.reps() == r,
                self.terms() == t,
                self.ranks() == old(self).ranks(),
                self.num_classes() == old(self).num_classes(),
                self.asserted() == old(self).asserted(),
                self.scopes() == old(self).scopes(),
                forall|q: int| 0 <= q < k ==> #[trigger] class_rel(r)(t[i as int].1[q] as int, t[j as int].1[q] as int),
            decreases len - k,
        {
            assert(self.terms()[i as int] == term_view(self.func_terms@[i as int]));
            assert(self.terms()[j as int] == term_view(self.func_terms@[j as int]));
            let a = self.func_terms[i].args[k];
            let b = self.func_terms[j].args[k];
            assert(t[i as int].1[k as int] < t.len());
            assert(t[j as int].1[k as int] < t.len());
            let fa = self.find(a);
            let fb = self.find(b);
            if fa != fb {
                assert(!class_rel(r)(t[i as int].1[k as int] as int, t[j as int].1[k as int] as int));
                return false;
            }
            k = k + 1;
        }
        true
    }

    /// Merge the classes of congruent terms until terms whose arguments lie
    /// pairwise in the same classes are in the same class themselves.
    pub fn propagate_congruence(&mut self)
        requires
            old(self).wf(),
        ensures
            final(self).wf(),
            final(self).reps().len() == final(self).size(),
            final(self).terms().len() == final(self).size(),
            final(self).size() == old(self).size(),
            final(self).terms() == old(self).terms(),
            final(self).asserted() == old(self).asserted(),
            final(self).scopes() == old(self).scopes(),
            coarsens(old(self).reps(), final(self).reps()),
            cong_closed(final(self).terms(), final(self).reps()),
            within_closure(final(self).terms(), old(self).reps(), final(self).reps()),
    {
        let ghost r0 = self.reps();
        let ghost t = self.terms();
        proof {
            self.lemma_wf_terms();
        }
        let mut changed = true;
        while changed
            invariant
                self.wf(),
                r0 == old(self).reps(),
                t == old(self).terms(),
                args_in_range(t),
                self.size() == old(self).size(),
                self.terms() == t,
                self.asserted() == old(self).asserted(),
                self.scopes() == old(self).scopes(),
                coarsens(r0, self.reps()),
                within_closure(t, r0, self.reps()),
                !changed ==> cong_closed(t, self.reps()),
                r0.len() == old(self).size(),
            decreases self.num_classes() + (if changed { 1int } else { 0int }),
        {
            proof {
                self.lemma_wf_terms();
            }
            changed = false;
            let ghost c0 = self.num_classes();
            let ghost rs = self.reps();
            let n = self.func_terms.len();
            let mut i: usize = 0;
            while i < n
                invariant
                    self.wf(),
                    r0 == old(self).reps(),
                    t == old(self).terms(),
                    args_in_range(t),
                    n == self.size(),
                    self.size() == old(self).size(),
                    self.terms() == t,
                    self.asserted() == old(self).asserted(),
                    self.scopes() == old(self).scopes(),
                    coarsens(r0, self.reps()),
                    within_closure(t, r0, self.reps()),
                    i <= n,
                    r0.len() == n,
                    t.len() == n,
                    self.num_classes() <= c0,
                    changed ==> self.num_classes() < c0,
                    !changed ==> self.reps() == rs,
                    !changed ==> forall|a: int, b: int| 0 <= a < i && a < b < n
                        && #[trigger] args_related(t, class_rel(self.reps()), a, b) ==> self.reps()[a] == self.reps()[b],
                decreases n - i,
            {
                assert(self.terms()[i as int] == term_view(self.func_terms@[i as int]));
                if self.func_terms[i].args.len() == 0 {
                    i = i + 1;
                    continue;
                }
                let ri = self.find(i);
                let mut j: usize = i + 1;
                while j < n
                    invariant
                        self.wf(),
                        r0 == old(self).reps(),
                        t == old(self).terms(),
                        args_in_range(t),
                        n == self.size(),
                        self.size() == old(self).size(),
                        self.terms() == t,
                        self.asserted() == old(self).asserted(),
                        self.scopes() == old(self).scopes(),
                        coarsens(r0, self.reps()),
                        within_closure(t, r0, self.reps()),
                        i < j <= n,
                        r0.len() == n,
                        t.len() == n,
                        t[i as int].1.len() > 0,
                        self.num_classes() <= c0,
                        (changed || ri != self.reps()[i as int]) ==> self.num_classes() < c0,
                        !changed ==> self.reps() == rs,
                        !changed ==> ri == self.reps()[i as int],
                        !changed ==> forall|a: int, b: int| 0 <= a < i && a < b < n
                            && #[trigger] args_related(t, class_rel(self.reps()), a, b) ==> self.reps()[a] == self.reps()[b],
                        !changed ==> forall|b: int| i < b < j
                            && #[trigger] args_related(t, class_rel(self.reps()), i as int, b) ==> self.reps()[i as int] == self.reps()[b],
                    decreases n - j,
                {
                    assert(self.terms()[i as int] == term_view(self.func_terms@[i as int]));
                    assert(self.terms()[j as int] == term_view(self.func_terms@[j as int]));
                    let same_fn = text_eq(self.func_terms[i].name.as_str(), self.func_terms[j].name.as_str());
                    if same_fn && self.func_terms[i].args.len() == self.func_terms[j].args.len() {
                        let congruent = self.args_congruent(i, j);
                        if congruent {
                            assert(args_related(t, class_rel(self.reps()), i as int, j as int));
                            let rj = self.find(j);
                            if ri != rj {
                                let ghost rb = self.reps();
                                proof {
                                    lemma_merge_within(t, r0, rb, i as int, j as int, rb[i as int], rb[j as int]);
                                    lemma_merge_within(t, r0, rb, i as int, j as int, rb[j as int], rb[i as int]);
                                }
                                self.union(i, j);
                                proof {
                                    let ra = self.reps();
                                    assert forall|a: int, b: int| 0 <= a < r0.len() && 0 <= b < r0.len() && r0[a] == r0[b]
                                        implies #[trigger] ra[a] == #[trigger] ra[b] by {
                                        assert(rb[a] == rb[b]);
                                    }
                                }
                                changed = true;
                            }
                        }
                    }
                    j = j + 1;
                }
                i = i + 1;
            }
            proof {
                lemma_count_bounds(self.parent@, self.parent@.len() as int);
                if !changed {
                    let r = self.reps();
                    assert forall|a: int, b: int| 0 <= a < t.len() && 0 <= b < t.len()
                        && #[trigger] args_related(t, class_rel(r), a, b) implies r[a] == r[b] by {
                        if b < a {
                            lemma_args_related_sym(t, r, a, b);
                        }
                    }
                }
            }
        }
    }
}

impl UF {
    /// A new constant, unless every id is taken.
    fn add_const_checked(&mut self) -> (r: Option<TermId>)
        requires
            old(self).wf(),
        ensures
            final(self).wf(),
            final(self).reps().len() == final(self).size(),
            final(self).terms().len() == final(self).size(),
            (final(self).terms(), r) == add_const(old(self).terms()),
            extends(old(self).reps(), final(self).reps()),
            r matches Some(id) ==> id < final(self).size(),
            final(self).asserted() == old(self).asserted(),
            final(self).scopes() == old(self).scopes(),
    {
        proof {
            self.lemma_wf_terms();
        }
        if self.next_term == usize::MAX {
            return None;
        }
        let id = self.new_const();
        proof {
            self.lemma_wf_terms();
        }
        Some(id)
    }

    /// The term that the text `s[lo..hi]` names, creating the terms it needs.
    #[verifier::loop_isolation(false)]
    fn resolve_term(&mut self, src: &str, s: &Vec<char>, lo: usize, hi: usize) -> (r: Option<TermId>)
        requires
            old(self).wf(),
            s@ == src@,
            lo <= hi <= s@.len(),
        ensures
            final(self).wf(),
            final(self).reps().len() == final(self).size(),
            final(self).terms().len() == final(self).size(),
            (final(self).terms(), r) == resolve(old(self).terms(), s@.subrange(lo as int, hi as int)),
            extends(old(self).reps(), final(self).reps()),
            r matches Some(id) ==> id < final(self).size(),
            final(self).asserted() == old(self).asserted(),
            final(self).scopes() == old(self).scopes(),
        decreases hi - lo,
    {
        proof {
            self.lemma_wf_terms();
        }
        let ghost sub = s@.subrange(lo as int, hi as int);
        let ghost ts0 = self.terms();
        let (a, b) = trim_bounds(s, lo, hi);
        let ghost t = s@.subrange(a as int, b as int);
        let mut i: usize = 0;
        while i < self.func_terms.len()
            invariant
                self.wf(),
                ts0 == self.terms(),
                *self == *old(self),
                i <= self.func_terms@.len(),
                ts0.len() == self.func_terms@.len(),
                t == s@.subrange(a as int, b as int),
                a <= b <= s@.len(),
                first_match(ts0, t, 0) == first_match(ts0, t, i as int),
            decreases self.func_terms@.len() - i,
        {
            assert(ts0[i as int] == term_view(self.func_terms@[i as int]));
            let f = format_term_string(&self.func_terms[i]);
            if chars_equal(s, a, b, f.as_str()) {
                proof {
                    self.lemma_wf_terms();
                }
                return Some(i);
            }
            i = i + 1;
        }
        if b - a >= 2 && s[a] == '(' && s[b - 1] == ')' {
            let (c, d) = trim_bounds(s, a + 1, b - 1);
            proof {
                assert(t.subrange(1, t.len() - 1) =~= s@.subrange(a as int + 1, b as int - 1));
            }
            let parts = words_in(s, c, d);
            let ghost pv = words(s@.subrange(c as int, d as int));
            if parts.len() == 0 {
                return self.add_const_checked();
            }
            let (n0, n1) = parts[0];
            let name = string_of(src, n0, n1);
            let ghost bound = (sub.len() - 1) as nat;
            let mut args: Vec<TermId> = Vec::new();
            let mut k: usize = 1;
            while k < parts.len()
                invariant
                    self.wf(),
                    s@ == src@,
                    lo <= a,
                    a + 1 <= c <= d <= b - 1,
                    b <= hi <= s@.len(),
                    bound == (sub.len() - 1) as nat,
                    sub.len() == hi - lo,
                    1 <= k <= parts@.len(),
                    parts@.len() == pv.len(),
                    forall|q: int| 0 <= q < parts@.len() ==> {
                        &&& c <= (#[trigger] parts@[q]).0 < parts@[q].1 <= d
                        &&& s@.subrange(parts@[q].0 as int, parts@[q].1 as int) == pv[q]
                    },
                    resolve_args(ts0, pv, 1, seq![], bound) == resolve_args(self.terms(), pv, k as int, args@, bound),
                    extends(old(self).reps(), self.reps()),
                    forall|q: int| 0 <= q < args@.len() ==> #[trigger] args@[q] < self.size(),
                    self.asserted() == old(self).asserted(),
                    self.scopes() == old(self).scopes(),
                decreases parts@.len() - k,
            {
                let (pa, pb) = parts[k];
                let pe = strip_close_end(s, pa, pb);
                proof {
                    assert(s@.subrange(pa as int, pe as int) == strip_close(pv[k as int]));
                }
                let ghost before = self.reps();
                match self.resolve_term(src, s, pa, pe) {
                    None => {
                        return None;
                    },
                    Some(id) => {
                        args.push(id);
                    },
                }
                proof {
                    assert(extends(old(self).reps(), self.reps()));
                }
                k = k + 1;
            }
            proof {
                self.lemma_wf_terms();
            }
            if self.next_term == usize::MAX {
                return None;
            }
            let id = self.push_term(FuncTerm { name, args });
            proof {
                self.lemma_wf_terms();
            }
            Some(id)
        } else {
            if self.next_term == usize::MAX {
                return None;
            }
            let name = string_of(src, a, b);
            let args: Vec<TermId> = Vec::new();
            assert(term_view(FuncTerm { name, args }) == (t, Seq::<usize>::empty()));
            let id = self.push_term(FuncTerm { name, args });
            proof {
                self.lemma_wf_terms();
            }
            Some(id)
        }
    }

    /// Record the terms of an atom labelled `lhs = rhs`.
    fn register_atom(&mut self, atom: &AtomRecord)
        requires
            old(self).wf(),
        ensures
            final(self).wf(),
            final(self).reps().len() == final(self).size(),
            final(self).terms().len() == final(self).size(),
            (final(self).terms(), final(self).scopes().1) == atom_set(old(self).terms(), old(self).scopes().1, *atom),
            final(self).scopes().0 == old(self).scopes().0,
            extends(old(self).reps(), final(self).reps()),
            final(self).asserted() == old(self).asserted(),
    {
        let label = atom.text();
        let chars = chars_of(label.as_str());
        let ghost l = label@;
        let sep = find_sep_in(&chars);
        assert(l == atom_label(*atom));
        assert(chars@ == l);
        if let Some(p) = sep {
            assert(find_sep(l, 0) == Some(p as int));
            assert(p + 3 <= chars@.len());
            let n = chars.len();
            let q = p + 3;
            let lhs = self.resolve_term(label.as_str(), &chars, 0, p);
            if let Some(x) = lhs {
                let rhs = self.resolve_term(label.as_str(), &chars, q, chars.len());
                if let Some(y) = rhs {
                    let id = atom.id;
                    let ghost at0 = self.atom_terms@;
                    let ghost mid = *self;
                    while self.atom_terms.len() <= id
                        invariant
                            self.wf(),
                            self.terms() == mid.terms(),
                            self.reps() == mid.reps(),
                            self.asserted() == mid.asserted(),
                            self.scopes().0 == mid.scopes().0,
                            self.atom_terms@.len() >= at0.len(),
                            self.atom_terms@.len() <= (if at0.len() > id { at0.len() as int } else { id as int + 1 }),
                            self.atom_terms@.subrange(0, at0.len() as int) == at0,
                            forall|q: int| at0.len() <= q < self.atom_terms@.len() ==> #[trigger] self.atom_terms@[q] == (0usize, 0usize),
                        decreases id + 1 - self.atom_terms@.len(),
                    {
                        self.atom_terms.push((0, 0));
                    }
                    self.atom_terms.set(id, (x, y));
                    proof {
                        assert(self.atom_terms@ =~= set_at(at0, id as int, (x, y)));
                    }
                }
            }
        }
    }

    /// Record the terms of each atom labelled `lhs = rhs`.
    fn register_atoms(&mut self, atoms: &[AtomRecord])
        requires
            old(self).wf(),
        ensures
            final(self).wf(),
            final(self).reps().len() == final(self).size(),
            final(self).terms().len() == final(self).size(),
            (final(self).terms(), final(self).scopes().1) == atoms_fold(old(self).terms(), old(self).scopes().1, atoms@, 0),
            final(self).scopes().0 == old(self).scopes().0,
            extends(old(self).reps(), final(self).reps()),
            final(self).asserted() == old(self).asserted(),
    {
        let mut i: usize = 0;
        while i < atoms.len()
            invariant
                self.wf(),
                i <= atoms@.len(),
                atoms_fold(old(self).terms(), old(self).scopes().1, atoms@, 0)
                    == atoms_fold(self.terms(), self.scopes().1, atoms@, i as int),
                self.scopes().0 == old(self).scopes().0,
                extends(old(self).reps(), self.reps()),
                self.asserted() == old(self).asserted(),
            decreases atoms@.len() - i,
        {
            self.register_atom(&atoms[i]);
            i = i + 1;
        }
    }
}

/// The first position of ` = ` in `chars`.
fn find_sep_in(chars: &Vec<char>) -> (r: Option<usize>)
    ensures
        r matches Some(p) ==> find_sep(chars@, 0) == Some(p as int) && p + 3 <= chars@.len(),
        r is None ==> find_sep(chars@, 0) is None,
{
    let mut p: usize = 0;
    while p <= chars.len() && 3 <= chars.len() - p
        invariant
            p <= chars@.len() + 1,
            find_sep(chars@, 0) == find_sep(chars@, p as int),
        decreases chars@.len() + 1 - p,
    {
        if chars_equal(chars, p, p + 3, " = ") {
            return Some(p);
        }
        p = p + 1;
    }
    None
}
/// A copy of a list of term ids.
fn copy_ids(v: &Vec<usize>) -> (w: Vec<usize>)
    ensures
        w@ == v@,
{
    let mut w: Vec<usize> = Vec::new();
    let mut i: usize = 0;
    while i < v.len()
        invariant
            i <= v@.len(),
            w@ == v@.take(i as int),
        decreases v@.len() - i,
    {
        w.push(v[i]);
        i = i + 1;
        assert(w@ =~= v@.take(i as int));
    }
    assert(v@.take(i as int) =~= v@);
    w
}

/// A copy of a list of term pairs.
fn copy_pairs(v: &Vec<(usize, usize)>) -> (w: Vec<(usize, usize)>)
    ensures
        w@ == v@,
{
    let mut w: Vec<(usize, usize)> = Vec::new();
    let mut i: usize = 0;
    while i < v.len()
        invariant
            i <= v@.len(),
            w@ == v@.take(i as int),
        decreases v@.len() - i,
    {
        w.push(v[i]);
        i = i + 1;
        assert(w@ =~= v@.take(i as int));
    }
    assert(v@.take(i as int) =~= v@);
    w
}

impl UF {
    /// A copy of the structure.
    fn duplicate(&self) -> (u: UF)
        requires
            self.wf(),
        ensures
            u.wf(),
            u.reps().len() == u.size(),
            u.terms().len() == u.size(),
            u.size() == self.size(),
            u.reps() == self.reps(),
            u.terms() == self.terms(),
            u.asserted() == self.asserted(),
            u.scopes() == self.scopes(),
    {
        let mut terms: Vec<FuncTerm> = Vec::new();
        let mut i: usize = 0;
        while i < self.func_terms.len()
            invariant
                i <= self.func_terms@.len(),
                terms@.len() == i,
                forall|q: int| 0 <= q < i ==> (#[trigger] terms@[q]).name@ == self.func_terms@[q].name@
                    && terms@[q].args@ == self.func_terms@[q].args@,
            decreases self.func_terms@.len() - i,
        {
            let t = &self.func_terms[i];
            terms.push(FuncTerm { name: t.name.clone(), args: copy_ids(&t.args) });
            i = i + 1;
        }
        let u = UF {
            parent: copy_ids(&self.parent),
            rank: copy_ids(&self.rank),
            func_terms: terms,
            assertions: copy_pairs(&self.assertions),
            disequalities: copy_pairs(&self.disequalities),
            next_term: self.next_term,
            stack: copy_ids(&self.stack),
            atom_terms: copy_pairs(&self.atom_terms),
            rep: Ghost(self.rep@),
        };
        assert(u.terms() =~= self.terms());
        assert forall|q: int, a: int| 0 <= q < u.parent@.len() && 0 <= a < u.func_terms@[q].args@.len()
            implies (#[trigger] u.func_terms@[q].args@[a]) < u.parent@.len() by {
            assert(u.func_terms@[q].args@ == self.func_terms@[q].args@);
        }
        u
    }

    /// Join the classes of each pair, then close under congruence.
    fn close_over(&mut self, pairs: &Vec<(TermId, TermId)>)
        requires
            old(self).wf(),
            forall|k: int| 0 <= k < pairs@.len() ==> (#[trigger] pairs@[k]).0 < old(self).size() && pairs@[k].1 < old(self).size(),
        ensures
            final(self).wf(),
            final(self).reps().len() == final(self).size(),
            final(self).terms().len() == final(self).size(),
            final(self).size() == old(self).size(),
            final(self).terms() == old(self).terms(),
            final(self).asserted() == old(self).asserted(),
            final(self).scopes() == old(self).scopes(),
            is_closure(old(self).terms(), old(self).reps(), pairs@, final(self).reps()),
    {
        proof {
            self.lemma_wf_terms();
        }
        let ghost r0 = self.reps();
        let ghost t = self.terms();
        let mut k: usize = 0;
        while k < pairs.len()
            invariant
                self.wf(),
                r0 == old(self).reps(),
                t == old(self).terms(),
                r0.len() == t.len(),
                args_in_range(t),
                self.size() == old(self).size(),
                self.terms() == t,
                self.asserted() == old(self).asserted(),
                self.scopes() == old(self).scopes(),
                forall|q: int| 0 <= q < pairs@.len() ==> (#[trigger] pairs@[q]).0 < old(self).size() && pairs@[q].1 < old(self).size(),
                k <= pairs@.len(),
                coarsens(r0, self.reps()),
                relates_pairs(class_rel(self.reps()), pairs@.take(k as int)),
                forall|rel: spec_fn(int, int) -> bool|
                    is_congruence(rel, t) && includes(rel, r0) && #[trigger] relates_pairs(rel, pairs@) ==> includes(rel, self.reps()),
            decreases pairs@.len() - k,
        {
            proof {
                self.lemma_wf_terms();
            }
            let (a, b) = pairs[k];
            let ghost rb = self.reps();
            self.union(a, b);
            proof {
                let ra = self.reps();
                assert forall|x: int, y: int| 0 <= x < r0.len() && 0 <= y < r0.len() && r0[x] == r0[y]
                    implies #[trigger] ra[x] == #[trigger] ra[y] by {
                    assert(rb[x] == rb[y]);
                }
                assert forall|q: int| 0 <= q < pairs@.take(k as int + 1).len() implies
                    #[trigger] class_rel(ra)(pairs@.take(k as int + 1)[q].0 as int, pairs@.take(k as int + 1)[q].1 as int) by {
                    if q < k {
                        assert(pairs@.take(k as int + 1)[q] == pairs@.take(k as int)[q]);
                        assert(class_rel(rb)(pairs@.take(k as int)[q].0 as int, pairs@.take(k as int)[q].1 as int));
                    }
                }
                assert forall|rel: spec_fn(int, int) -> bool|
                    is_congruence(rel, t) && includes(rel, r0) && #[trigger] relates_pairs(rel, pairs@) implies includes(rel, ra) by {
                    assert(includes(rel, rb));
                    assert(rel(pairs@[k as int].0 as int, pairs@[k as int].1 as int));
                    if rb[a as int] != rb[b as int] {
                        lemma_merge_rel(t, rel, rb, a as int, b as int, rb[a as int], rb[b as int]);
                        lemma_merge_rel(t, rel, rb, a as int, b as int, rb[b as int], rb[a as int]);
                    }
                }
            }
            k = k + 1;
        }
        let ghost rb = self.reps();
        self.propagate_congruence();
        proof {
            let ra = self.reps();
            assert(pairs@.take(k as int) =~= pairs@);
            assert forall|x: int, y: int| 0 <= x < r0.len() && 0 <= y < r0.len() && r0[x] == r0[y]
                implies #[trigger] ra[x] == #[trigger] ra[y] by {
                assert(rb[x] == rb[y]);
            }
            assert forall|q: int| 0 <= q < pairs@.len() implies
                #[trigger] class_rel(ra)(pairs@[q].0 as int, pairs@[q].1 as int) by {
                assert(class_rel(rb)(pairs@[q].0 as int, pairs@[q].1 as int));
            }
            assert forall|rel: spec_fn(int, int) -> bool|
                is_congruence(rel, t) && includes(rel, r0) && #[trigger] relates_pairs(rel, pairs@) implies includes(rel, ra) by {
                assert(includes(rel, rb));
            }
        }
    }
}

impl TheorySolver for UF {
    open spec fn inv(&self) -> bool {
        self.wf()
    }

    open spec fn can_pop(&self) -> bool {
        self.scopes().0.len() >= 2
    }

    /// Save the numbers of asserted equalities and disequalities.
    fn push(&mut self)
        ensures
            final(self).size() == old(self).size(),
            final(self).reps() == old(self).reps(),
            final(self).terms() == old(self).terms(),
            final(self).asserted() == old(self).asserted(),
            final(self).scopes() == (
                old(self).scopes().0.push(old(self).asserted().0.len() as usize).push(old(self).asserted().1.len() as usize),
                old(self).scopes().1,
            ),
    {
        let a = self.assertions.len();
        let d = self.disequalities.len();
        self.stack.push(a);
        self.stack.push(d);
    }

    /// Drop the equalities and disequalities asserted since the last `push`
    /// and rebuild the classes from the remaining equalities.
    fn pop(&mut self)
        ensures
            ({
                let st = old(self).scopes().0;
                let (eqs, neqs) = old(self).asserted();
                let a = st[st.len() - 2] as int;
                let d = st[st.len() - 1] as int;
                &&& final(self).size() == old(self).size()
                &&& final(self).terms() == old(self).terms()
                &&& final(self).scopes() == (st.drop_last().drop_last(), old(self).scopes().1)
                &&& final(self).asserted() == (
                    if a < eqs.len() { eqs.take(a) } else { eqs },
                    if d < neqs.len() { neqs.take(d) } else { neqs },
                )
                &&& is_closure(old(self).terms(), singletons(old(self).size()), final(self).asserted().0, final(self).reps())
            }),
    {
        let diseq_len = self.stack.pop().unwrap();
        let assert_len = self.stack.pop().unwrap();
        proof {
            let st = old(self).stack@;
            assert(diseq_len == st[st.len() - 1]);
            assert(assert_len == st[st.len() - 2]);
            assert(self.stack@ =~= st.drop_last().drop_last());
        }
        self.assertions.truncate(assert_len);
        self.disequalities.truncate(diseq_len);
        let n = self.next_term;
        let mut parent: Vec<TermId> = Vec::new();
        let mut rank: Vec<usize> = Vec::new();
        let mut i: usize = 0;
        while i < n
            invariant
                i <= n,
                parent@.len() == i,
                rank@.len() == i,
                forall|q: int| 0 <= q < i ==> #[trigger] parent@[q] == q as usize && rank@[q] == 0,
            decreases n - i,
        {
            parent.push(i);
            rank.push(0);
            i = i + 1;
        }
        self.parent = parent;
        self.rank = rank;
        self.rep = Ghost(singletons(n as nat));
        proof {
            lemma_count_identity(self.parent@, n as int);
            let p = self.parent@;
            let r = self.rep@;
            let k = self.rank@;
            assert forall|x: int| 0 <= x < n implies {
                &&& (#[trigger] p[x]) < n
                &&& r[p[x] as int] == r[x]
                &&& (p[x] == x as usize) == (r[x] == x as usize)
                &&& (p[x] != x as usize ==> k[x] < k[p[x] as int])
            } by {}
            assert forall|x: int| 0 <= x < n implies {
                &&& (#[trigger] r[x]) < n
                &&& r[r[x] as int] == r[x]
                &&& (r[x] != x as usize ==> k[x] < k[r[x] as int])
            } by {}
            assert forall|x: int| 0 <= x < n implies (#[trigger] k[x]) + count_roots(p, n as int) <= n by {
                assert(p[x] == x as usize);
            }
            assert forall|q: int| 0 <= q < self.assertions@.len() implies (#[trigger] self.assertions@[q]).0 < n && self.assertions@[q].1 < n by {
                assert(self.assertions@[q] == old(self).assertions@[q]);
            }
            assert forall|q: int| 0 <= q < self.disequalities@.len() implies (#[trigger] self.disequalities@[q]).0 < n && self.disequalities@[q].1 < n by {
                assert(self.disequalities@[q] == old(self).disequalities@[q]);
            }
        }
        let pairs = copy_pairs(&self.assertions);
        self.close_over(&pairs);
    }

    /// Record the literal's equality (joining the classes of its terms) or
    /// disequality; a literal whose atom has no term pair, or whose terms are
    /// gone after a reset, changes nothing.
    fn assert_lit(&mut self, lit: TheoryLit) -> (ok: bool)
        ensures
            ok,
            final(self).size() == old(self).size(),
            final(self).terms() == old(self).terms(),
            final(self).scopes() == old(self).scopes(),
            ({
                let at = old(self).scopes().1;
                let (eqs, neqs) = old(self).asserted();
                if lit.atom_id < at.len() && at[lit.atom_id as int].0 < old(self).size() && at[lit.atom_id as int].1 < old(self).size() {
                    let (x, y) = at[lit.atom_id as int];
                    let r = old(self).reps();
                    if lit.sign {
                        &&& final(self).asserted() == (eqs.push((x, y)), neqs)
                        &&& if r[x as int] == r[y as int] {
                            final(self).reps() == r
                        } else if old(self).ranks()[r[x as int] as int] < old(self).ranks()[r[y as int] as int] {
                            final(self).reps() == merged(r, r[x as int], r[y as int])
                        } else {
                            final(self).reps() == merged(r, r[y as int], r[x as int])
                        }
                    } else {
                        &&& final(self).asserted() == (eqs, neqs.push((x, y)))
                        &&& final(self).reps() == r
                    }
                } else {
                    &&& final(self).asserted() == old(self).asserted()
                    &&& final(self).reps() == old(self).reps()
                }
            }),
    {
        if lit.atom_id < self.atom_terms.len() {
            let (lhs, rhs) = self.atom_terms[lit.atom_id];
            if lhs < self.next_term && rhs < self.next_term {
                if lit.sign {
                    self.assertions.push((lhs, rhs));
                    proof {
                        assert forall|q: int| 0 <= q < self.assertions@.len() implies (#[trigger] self.assertions@[q]).0 < self.parent@.len() && self.assertions@[q].1 < self.parent@.len() by {
                            if q < old(self).assertions@.len() {
                                assert(self.assertions@[q] == old(self).assertions@[q]);
                            }
                        }
                    }
                    self.union(lhs, rhs);
                } else {
                    self.disequalities.push((lhs, rhs));
                    proof {
                        assert forall|q: int| 0 <= q < self.disequalities@.len() implies (#[trigger] self.disequalities@[q]).0 < self.parent@.len() && self.disequalities@[q].1 < self.parent@.len() by {
                            if q < old(self).disequalities@.len() {
                                assert(self.disequalities@[q] == old(self).disequalities@[q]);
                            }
                        }
                    }
                }
            }
        }
        true
    }

    /// `Conflict` exactly when some asserted disequality relates two terms
    /// that every congruence keeping the current classes and the asserted
    /// equalities relates; `Consistent` otherwise.
    fn check(&self) -> (r: TheoryCheckResult)
        ensures
            (r == TheoryCheckResult::Conflict) == (exists|k: int| 0 <= k < self.asserted().1.len()
                && #[trigger] cc_equal(self.terms(), self.reps(), self.asserted().0,
                    self.asserted().1[k].0 as int, self.asserted().1[k].1 as int)),
            r != TheoryCheckResult::Unknown,
    {
        proof {
            self.lemma_wf_terms();
        }
        let mut uf = self.duplicate();
        let pairs = copy_pairs(&self.assertions);
        uf.close_over(&pairs);
        let ghost t = self.terms();
        let ghost rc = uf.reps();
        let mut k: usize = 0;
        while k < self.disequalities.len()
            invariant
                uf.wf(),
                uf.reps() == rc,
                uf.size() == self.size(),
                t == self.terms(),
                rc.len() == t.len(),
                self.reps().len() == t.len(),
                is_closure(t, self.reps(), self.asserted().0, rc),
                k <= self.disequalities@.len(),
                forall|q: int| 0 <= q < self.disequalities@.len() ==> (#[trigger] self.disequalities@[q]).0 < self.size() && self.disequalities@[q].1 < self.size(),
                forall|q: int| 0 <= q < k ==> !#[trigger] cc_equal(t, self.reps(), self.asserted().0,
                    self.asserted().1[q].0 as int, self.asserted().1[q].1 as int),
            decreases self.disequalities@.len() - k,
        {
            let (lhs, rhs) = self.disequalities[k];
            proof {
                uf.lemma_wf_terms();
                lemma_closure_equal(t, self.reps(), self.asserted().0, rc, lhs as int, rhs as int);
            }
            let fl = uf.find(lhs);
            let fr = uf.find(rhs);
            if fl == fr {
                return TheoryCheckResult::Conflict;
            }
            k = k + 1;
        }
        TheoryCheckResult::Consistent
    }

    /// No propagation beyond congruence.
    fn propagate(&self) -> (v: Vec<TheoryLit>)
        ensures
            v@.len() == 0,
    {
        Vec::new()
    }

    /// No explanation is given.
    fn explain_conflict(&self) -> (v: Vec<TheoryLit>)
        ensures
            v@.len() == 0,
    {
        Vec::new()
    }

    /// No explanation is given.
    fn explain_propagation(&self, lit: TheoryLit) -> (v: Vec<TheoryLit>)
        ensures
            v@.len() == 0,
    {
        Vec::new()
    }

    /// For each atom labelled `lhs = rhs`, find or create the terms of its
    /// two sides.
    fn set_atoms(&mut self, atoms: &[AtomRecord])
        ensures
            (final(self).terms(), final(self).scopes().1) == atoms_fold(old(self).terms(), old(self).scopes().1, atoms@, 0),
            final(self).scopes().0 == old(self).scopes().0,
            extends(old(self).reps(), final(self).reps()),
            final(self).asserted() == old(self).asserted(),
    {
        self.register_atoms(atoms);
    }

    /// Forget every term, class, assertion and scope; the atoms' term pairs
    /// stay.
    fn reset(&mut self)
        ensures
            final(self).size() == 0,
            final(self).asserted() == (Seq::<(usize, usize)>::empty(), Seq::<(usize, usize)>::empty()),
            final(self).scopes() == (Seq::<usize>::empty(), old(self).scopes().1),
    {
        self.parent.clear();
        self.rank.clear();
        self.func_terms.clear();
        self.assertions.clear();
        self.disequalities.clear();
        self.next_term = 0;
        self.stack.clear();
        self.rep = Ghost(Seq::empty());
    }
}

} // verus!
