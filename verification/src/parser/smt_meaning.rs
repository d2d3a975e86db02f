//! What the clauses of an asserted SMT-LIB formula mean: any assignment of
//! truth values to the atoms that satisfies the clauses added for a formula
//! (with every literal of the guard false) gives the formula the value it was
//! asserted with; and conversely, any assignment that gives the formula that
//! value satisfies the clauses once the auxiliary atoms are set to match.
use vstd::prelude::*;
use crate::parser::smtlib::{
    AtomView, OrStep, ParserView, SExprView, SmtState, and_fold, command, commands, eq_lit, f2c, find_eq_from, ids_exhausted, imp_true,
    is_eq_view, make_eq, or_fold, or_item, parse_all_from, same_eq, smt_parse, term_str, tokens_of, tseitin_item, with_atom,
    with_clause, with_tseitin,
};
use crate::parser::text::decimal;
use crate::smt::TheoryLit;

verus! {

/// The truth value of the equality `l = r` under `x`: the value of the
/// first atom of `atoms` that states it (in either order).
pub open spec fn eq_holds(atoms: Seq<AtomView>, x: spec_fn(usize) -> bool, l: Seq<char>, r: Seq<char>) -> bool {
    match find_eq_from(atoms, 0, l, r) {
        Some(k) => x(atoms[k].id),
        None => false,
    }
}

/// The truth value of a formula under the atom values `x`: `true`, `false`,
/// `not`, `and`, `or`, `=>` and `=` with their usual meaning; any other
/// term `t` stands for the equality `t = true`.
pub open spec fn holds(atoms: Seq<AtomView>, x: spec_fn(usize) -> bool, e: SExprView) -> bool
    decreases e, 0int,
{
    match e {
        SExprView::Sym(s) => if s == "true"@ {
            true
        } else if s == "false"@ {
            false
        } else {
            eq_holds(atoms, x, s, "true"@)
        },
        SExprView::List(items) => if items.len() == 0 {
            false
        } else {
            match items[0] {
                SExprView::List(_) => false,
                SExprView::Sym(op) => if op == "not"@ {
                    items.len() >= 2 && !holds(atoms, x, items[1])
                } else if op == "and"@ {
                    all_hold(atoms, x, items, 1)
                } else if op == "or"@ {
                    any_holds(atoms, x, items, 1)
                } else if op == "=>"@ {
                    items.len() >= 3 && (!holds(atoms, x, items[1]) || holds(atoms, x, items[2]))
                } else if op == "="@ {
                    items.len() >= 3 && eq_holds(atoms, x, term_str(items[1]), term_str(items[2]))
                } else {
                    eq_holds(atoms, x, term_str(e), "true"@)
                },
            }
        },
    }
}

/// Every formula of `items[i..]` holds.
pub open spec fn all_hold(atoms: Seq<AtomView>, x: spec_fn(usize) -> bool, items: Seq<SExprView>, i: int) -> bool
    decreases items, items.len() - i,
{
    if i < 0 || i >= items.len() {
        true
    } else {
        holds(atoms, x, items[i]) && all_hold(atoms, x, items, i + 1)
    }
}

/// Some formula of `items[i..]` holds.
pub open spec fn any_holds(atoms: Seq<AtomView>, x: spec_fn(usize) -> bool, items: Seq<SExprView>, i: int) -> bool
    decreases items, items.len() - i,
{
    if i < 0 || i >= items.len() {
        false
    } else {
        holds(atoms, x, items[i]) || any_holds(atoms, x, items, i + 1)
    }
}

/// The literal is true under `x`.
pub open spec fn lit_holds(x: spec_fn(usize) -> bool, l: TheoryLit) -> bool {
    x(l.atom_id) == l.sign
}

/// Some literal of the clause is true under `x`.
pub open spec fn clause_holds(x: spec_fn(usize) -> bool, c: Seq<TheoryLit>) -> bool {
    exists|k: int| 0 <= k < c.len() && lit_holds(x, #[trigger] c[k])
}

/// Every literal of `g` is false under `x`.
pub open spec fn all_false(x: spec_fn(usize) -> bool, g: Seq<TheoryLit>) -> bool {
    forall|k: int| 0 <= k < g.len() ==> !lit_holds(x, #[trigger] g[k])
}

/// Every clause that `s1` has beyond those of `s0` holds under `x`.
pub open spec fn added_hold(x: spec_fn(usize) -> bool, s0: SmtState, s1: SmtState) -> bool {
    forall|i: int| s0.clauses.len() <= i < s1.clauses.len() ==> #[trigger] clause_holds(x, s1.clauses[i])
}

/// `b` begins with `a`.
pub open spec fn prefix_of<T>(a: Seq<T>, b: Seq<T>) -> bool {
    a.len() <= b.len() && forall|k: int| 0 <= k < a.len() ==> #[trigger] b[k] == a[k]
}

/// `s1` has the atoms and clauses of `s0`, and maybe more after them.
pub open spec fn extends(s0: SmtState, s1: SmtState) -> bool {
    prefix_of(s0.atoms, s1.atoms) && prefix_of(s0.clauses, s1.clauses)
}

proof fn lemma_prefix_trans<T>(a: Seq<T>, b: Seq<T>, c: Seq<T>)
    requires
        prefix_of(a, b),
        prefix_of(b, c),
    ensures
        prefix_of(a, c),
{
    assert forall|k: int| 0 <= k < a.len() implies #[trigger] c[k] == a[k] by {
        assert(c[k] == b[k]);
    }
}

proof fn lemma_extends_trans(a: SmtState, b: SmtState, c: SmtState)
    requires
        extends(a, b),
        extends(b, c),
    ensures
        extends(a, c),
{
    lemma_prefix_trans(a.atoms, b.atoms, c.atoms);
    lemma_prefix_trans(a.clauses, b.clauses, c.clauses);
}

/// A lookup that finds an atom finds the same one in a longer table.
proof fn lemma_find_stable(a0: Seq<AtomView>, a1: Seq<AtomView>, j: int, l: Seq<char>, r: Seq<char>)
    requires
        prefix_of(a0, a1),
        0 <= j,
        find_eq_from(a0, j, l, r) is Some,
    ensures
        find_eq_from(a1, j, l, r) == find_eq_from(a0, j, l, r),
    decreases a0.len() - j,
{
    assert(a1[j] == a0[j]);
    if !same_eq(a0[j], l, r) {
        lemma_find_stable(a0, a1, j + 1, l, r);
    }
}

/// A lookup that finds nothing, in a table then extended by an atom that
/// states the equality, finds that atom in any longer table.
proof fn lemma_find_new(a0: Seq<AtomView>, a: AtomView, a1: Seq<AtomView>, j: int, l: Seq<char>, r: Seq<char>)
    requires
        prefix_of(a0.push(a), a1),
        0 <= j <= a0.len(),
        find_eq_from(a0, j, l, r) is None,
        same_eq(a, l, r),
    ensures
        find_eq_from(a1, j, l, r) == Some(a0.len() as int),
    decreases a0.len() - j,
{
    assert(a1[j] == a0.push(a)[j]);
    if j < a0.len() {
        assert(a0.push(a)[j] == a0[j]);
        lemma_find_new(a0, a, a1, j + 1, l, r);
    }
}

/// What `eq_lit` does: it adds at most the atom it names and no clause, and
/// its literal has the truth value of the equality in any longer table.
proof fn lemma_eq_lit(st: SmtState, l: Seq<char>, r: Seq<char>, sign: bool)
    ensures
        extends(st, eq_lit(st, l, r, sign).0),
        eq_lit(st, l, r, sign).0.clauses == st.clauses,
        eq_lit(st, l, r, sign).1 matches Ok(lit) ==> lit.sign == sign && forall|a1: Seq<AtomView>, x: spec_fn(usize) -> bool|
            #![trigger eq_holds(a1, x, l, r)]
            prefix_of(eq_lit(st, l, r, sign).0.atoms, a1) ==> (eq_holds(a1, x, l, r) == x(lit.atom_id)),
{
    match find_eq_from(st.atoms, 0, l, r) {
        Some(k) => {
            assert forall|a1: Seq<AtomView>, x: spec_fn(usize) -> bool|
                #![trigger eq_holds(a1, x, l, r)]
                prefix_of(st.atoms, a1) implies (eq_holds(a1, x, l, r) == x(st.atoms[k].id)) by {
                lemma_find_stable(st.atoms, a1, 0, l, r);
                lemma_find_bound(st.atoms, 0, l, r);
                assert(a1[k] == st.atoms[k]);
            }
            assert(prefix_of(st.clauses, st.clauses));
            assert(prefix_of(st.atoms, st.atoms));
        },
        None => {
            let s1 = with_atom(st, true, l, r);
            assert(prefix_of(st.atoms, s1.atoms));
            assert(prefix_of(st.clauses, s1.clauses));
            assert(prefix_of(st.atoms, st.atoms));
            assert(prefix_of(st.clauses, st.clauses));
            let a = AtomView { id: st.next_atom, eq: true, lhs: l, rhs: r };
            assert(s1.atoms == st.atoms.push(a));
            assert forall|a1: Seq<AtomView>, x: spec_fn(usize) -> bool|
                #![trigger eq_holds(a1, x, l, r)]
                prefix_of(s1.atoms, a1) implies (eq_holds(a1, x, l, r) == x(st.next_atom)) by {
                lemma_find_new(st.atoms, a, a1, 0, l, r);
                assert(a1[st.atoms.len() as int] == a);
            }
        },
    }
}

/// A found index is within the table.
proof fn lemma_find_bound(a: Seq<AtomView>, j: int, l: Seq<char>, r: Seq<char>)
    requires
        0 <= j,
    ensures
        find_eq_from(a, j, l, r) matches Some(k) ==> j <= k < a.len(),
    decreases a.len() - j,
{
    if j < a.len() && !same_eq(a[j], l, r) {
        lemma_find_bound(a, j + 1, l, r);
    }
}


/// Adding one clause extends the state.
proof fn lemma_with_clause(st: SmtState, c: Seq<TheoryLit>)
    ensures
        extends(st, with_clause(st, c)),
        with_clause(st, c).clauses.last() == c,
        with_clause(st, c).clauses.len() == st.clauses.len() + 1,
        with_clause(st, c).atoms == st.atoms,
{
    assert(prefix_of(st.atoms, st.atoms));
    assert(prefix_of(st.clauses, st.clauses.push(c)));
}

/// The clauses added in two steps hold exactly when those of each step do.
proof fn lemma_added_split(x: spec_fn(usize) -> bool, s0: SmtState, s1: SmtState, s2: SmtState)
    requires
        extends(s0, s1),
        extends(s1, s2),
        added_hold(x, s0, s2),
    ensures
        added_hold(x, s0, s1),
        added_hold(x, s1, s2),
{
    assert forall|i: int| s0.clauses.len() <= i < s1.clauses.len() implies #[trigger] clause_holds(x, s1.clauses[i]) by {
        assert(s2.clauses[i] == s1.clauses[i]);
        assert(clause_holds(x, s2.clauses[i]));
    }
    assert forall|i: int| s1.clauses.len() <= i < s2.clauses.len() implies #[trigger] clause_holds(x, s2.clauses[i]) by {
        assert(s0.clauses.len() <= s1.clauses.len());
    }
}

/// A clause made of the guard and literals all false does not hold.
proof fn lemma_false_clause(x: spec_fn(usize) -> bool, g: Seq<TheoryLit>, acc: Seq<TheoryLit>)
    requires
        all_false(x, g),
        all_false(x, acc),
    ensures
        !clause_holds(x, g + acc),
{
    if clause_holds(x, g + acc) {
        let k = choose|k: int| 0 <= k < (g + acc).len() && lit_holds(x, #[trigger] (g + acc)[k]);
        if k < g.len() {
            assert((g + acc)[k] == g[k]);
        } else {
            assert((g + acc)[k] == acc[k - g.len()]);
        }
    }
}

// ── Every step only adds atoms and clauses ─────────────────────────────

proof fn lemma_ext_f2c(st: SmtState, e: SExprView, pol: bool, g: Seq<TheoryLit>)
    ensures
        extends(st, f2c(st, e, pol, g).0),
    decreases e, 0int,
{
    assert(prefix_of(st.atoms, st.atoms) && prefix_of(st.clauses, st.clauses));
    match e {
        SExprView::Sym(s) => {
            lemma_with_clause(st, g);
            lemma_eq_lit(st, s, "true"@, pol);
            let (s1, _) = eq_lit(st, s, "true"@, pol);
            lemma_with_clause(s1, g.push(TheoryLit { atom_id: 0, sign: true }));
            match eq_lit(st, s, "true"@, pol) {
                (s1, Ok(l)) => {
                    lemma_with_clause(s1, g.push(l));
                    lemma_extends_trans(st, s1, with_clause(s1, g.push(l)));
                },
                _ => {},
            }
        },
        SExprView::List(items) => {
            if items.len() > 0 {
                match items[0] {
                    SExprView::Sym(op) => {
                        if op == "not"@ {
                            if items.len() >= 2 {
                                lemma_ext_f2c(st, items[1], !pol, g);
                            }
                        } else if op == "and"@ {
                            lemma_ext_and(st, items, 1, true, g);
                            lemma_ext_or(st, items, 1, seq![], false, g);
                        } else if op == "or"@ {
                            lemma_ext_or(st, items, 1, seq![], true, g);
                            lemma_ext_and(st, items, 1, false, g);
                        } else if op == "=>"@ {
                            if items.len() >= 3 {
                                lemma_ext_imp(st, items, g);
                                lemma_ext_f2c(st, items[1], true, g);
                                let s1 = f2c(st, items[1], true, g).0;
                                lemma_ext_f2c(s1, items[2], false, g);
                                lemma_extends_trans(st, s1, f2c(s1, items[2], false, g).0);
                            }
                        } else if op == "="@ {
                            if items.len() >= 3 {
                                lemma_eq_lit(st, term_str(items[1]), term_str(items[2]), pol);
                                match make_eq(st, items, pol) {
                                    (s1, Ok(l)) => {
                                        lemma_with_clause(s1, g.push(l));
                                        lemma_extends_trans(st, s1, with_clause(s1, g.push(l)));
                                    },
                                    _ => {},
                                }
                            }
                        } else {
                            lemma_eq_lit(st, term_str(e), "true"@, pol);
                            match eq_lit(st, term_str(e), "true"@, pol) {
                                (s1, Ok(l)) => {
                                    lemma_with_clause(s1, g.push(l));
                                    lemma_extends_trans(st, s1, with_clause(s1, g.push(l)));
                                },
                                _ => {},
                            }
                        }
                    },
                    _ => {},
                }
            }
        },
    }
}

proof fn lemma_ext_and(st: SmtState, items: Seq<SExprView>, i: int, pol: bool, g: Seq<TheoryLit>)
    ensures
        extends(st, and_fold(st, items, i, pol, g).0),
    decreases items, items.len() - i,
{
    assert(prefix_of(st.atoms, st.atoms) && prefix_of(st.clauses, st.clauses));
    if 0 <= i < items.len() {
        lemma_ext_f2c(st, items[i], pol, g);
        let s1 = f2c(st, items[i], pol, g).0;
        lemma_ext_and(s1, items, i + 1, pol, g);
        lemma_extends_trans(st, s1, and_fold(s1, items, i + 1, pol, g).0);
    }
}

proof fn lemma_ext_or(st: SmtState, items: Seq<SExprView>, i: int, acc: Seq<TheoryLit>, pol: bool, g: Seq<TheoryLit>)
    ensures
        extends(st, or_fold(st, items, i, acc, pol, g).0),
    decreases items, items.len() - i,
{
    assert(prefix_of(st.atoms, st.atoms) && prefix_of(st.clauses, st.clauses));
    if 0 <= i < items.len() {
        lemma_ext_or_item(st, items[i], pol, g);
        let s1 = or_item(st, items[i], pol, g).0;
        match or_item(st, items[i], pol, g).1 {
            Ok(OrStep::Skip) => {
                lemma_ext_or(s1, items, i + 1, acc, pol, g);
                lemma_extends_trans(st, s1, or_fold(s1, items, i + 1, acc, pol, g).0);
            },
            Ok(OrStep::Lit(l)) => {
                lemma_ext_or(s1, items, i + 1, acc.push(l), pol, g);
                lemma_extends_trans(st, s1, or_fold(s1, items, i + 1, acc.push(l), pol, g).0);
            },
            _ => {},
        }
    } else {
        lemma_with_clause(st, g + acc);
    }
}

proof fn lemma_ext_tseitin(st: SmtState, f: SExprView, pol: bool, g: Seq<TheoryLit>)
    ensures
        extends(st, tseitin_item(st, f, pol, g).0),
    decreases f, 1int,
{
    assert(prefix_of(st.atoms, st.atoms) && prefix_of(st.clauses, st.clauses));
    let s0 = with_tseitin(st);
    assert(prefix_of(st.atoms, s0.atoms));
    assert(prefix_of(st.clauses, s0.clauses));
    lemma_ext_f2c(s0, f, pol, g.push(TheoryLit { atom_id: st.next_atom, sign: false }));
    lemma_extends_trans(st, s0, f2c(s0, f, pol, g.push(TheoryLit { atom_id: st.next_atom, sign: false })).0);
}

proof fn lemma_ext_or_item(st: SmtState, f: SExprView, pol: bool, g: Seq<TheoryLit>)
    ensures
        extends(st, or_item(st, f, pol, g).0),
    decreases f, 2int,
{
    assert(prefix_of(st.atoms, st.atoms) && prefix_of(st.clauses, st.clauses));
    lemma_ext_tseitin(st, f, pol, g);
    match f {
        SExprView::List(inner) => {
            if inner.len() >= 3 {
                lemma_eq_lit(st, term_str(inner[1]), term_str(inner[2]), pol);
            }
            if inner.len() >= 2 && inner[1] is List {
                let i2 = inner[1]->List_0;
                if i2.len() >= 3 {
                    lemma_eq_lit(st, term_str(i2[1]), term_str(i2[2]), !pol);
                }
            }
        },
        _ => {},
    }
}

proof fn lemma_ext_imp(st: SmtState, items: Seq<SExprView>, g: Seq<TheoryLit>)
    ensures
        extends(st, imp_true(st, items, g).0),
    decreases items, 0int,
{
    assert(prefix_of(st.atoms, st.atoms) && prefix_of(st.clauses, st.clauses));
    if items.len() >= 3 {
        lemma_ext_or_item(st, items[1], false, g);
        let s1 = or_item(st, items[1], false, g).0;
        lemma_ext_or_item(s1, items[2], true, g);
        let s2 = or_item(s1, items[2], true, g).0;
        lemma_extends_trans(st, s1, s2);
        let acc = match or_item(st, items[1], false, g).1 {
            Ok(OrStep::Lit(l1)) => seq![l1],
            _ => Seq::<TheoryLit>::empty(),
        };
        lemma_with_clause(s2, g + acc);
        lemma_extends_trans(st, s2, with_clause(s2, g + acc));
        match or_item(s1, items[2], true, g).1 {
            Ok(OrStep::Lit(l2)) => {
                lemma_with_clause(s2, g + acc.push(l2));
                lemma_extends_trans(st, s2, with_clause(s2, g + acc.push(l2)));
            },
            _ => {},
        }
    }
}

// ── What the added clauses say ─────────────────────────────────────────

/// A clause `g ∨ l` that holds while every literal of `g` is false makes `l` true.
proof fn lemma_push_clause(x: spec_fn(usize) -> bool, g: Seq<TheoryLit>, l: TheoryLit)
    requires
        clause_holds(x, g.push(l)),
        all_false(x, g),
    ensures
        lit_holds(x, l),
{
    let k = choose|k: int| 0 <= k < g.push(l).len() && lit_holds(x, #[trigger] g.push(l)[k]);
    if k < g.len() {
        assert(g.push(l)[k] == g[k]);
    }
}

/// A clause `g ∨ a` that holds while every literal of `g` is false has a
/// true literal in `a`.
proof fn lemma_tail_clause(x: spec_fn(usize) -> bool, g: Seq<TheoryLit>, a: Seq<TheoryLit>)
    requires
        clause_holds(x, g + a),
        all_false(x, g),
    ensures
        clause_holds(x, a),
{
    let k = choose|k: int| 0 <= k < (g + a).len() && lit_holds(x, #[trigger] (g + a)[k]);
    if k < g.len() {
        assert((g + a)[k] == g[k]);
    } else {
        assert((g + a)[k] == a[k - g.len()]);
    }
}

/// The last clause added holds when all added clauses do.
proof fn lemma_last_added(x: spec_fn(usize) -> bool, st: SmtState, s1: SmtState, c: Seq<TheoryLit>)
    requires
        added_hold(x, st, with_clause(s1, c)),
        prefix_of(st.clauses, s1.clauses),
    ensures
        clause_holds(x, c),
{
    let s2 = with_clause(s1, c);
    assert(s2.clauses[s1.clauses.len() as int] == c);
    assert(clause_holds(x, s2.clauses[s1.clauses.len() as int]));
}

/// An equality asserted through its literal and the clause `g ∨ lit`
/// takes the asserted value.
proof fn sem_eq_clause(st: SmtState, lhs: Seq<char>, rhs: Seq<char>, pol: bool, g: Seq<TheoryLit>, a: Seq<AtomView>, x: spec_fn(usize) -> bool)
    requires
        eq_lit(st, lhs, rhs, pol).1 is Ok,
        prefix_of(eq_lit(st, lhs, rhs, pol).0.atoms, a),
        added_hold(x, st, with_clause(eq_lit(st, lhs, rhs, pol).0, g.push(eq_lit(st, lhs, rhs, pol).1->Ok_0))),
        all_false(x, g),
    ensures
        eq_holds(a, x, lhs, rhs) == pol,
{
    lemma_eq_lit(st, lhs, rhs, pol);
    let s1 = eq_lit(st, lhs, rhs, pol).0;
    let l = eq_lit(st, lhs, rhs, pol).1->Ok_0;
    lemma_last_added(x, st, s1, g.push(l));
    lemma_push_clause(x, g, l);
    assert(eq_holds(a, x, lhs, rhs) == x(l.atom_id));
}

/// An equality given as a disjunct's literal: when the literal is true,
/// the equality has the value it was taken with.
proof fn sem_eq_item(st: SmtState, lhs: Seq<char>, rhs: Seq<char>, pol: bool, a: Seq<AtomView>, x: spec_fn(usize) -> bool)
    requires
        eq_lit(st, lhs, rhs, pol).1 is Ok,
        prefix_of(eq_lit(st, lhs, rhs, pol).0.atoms, a),
    ensures
        lit_holds(x, eq_lit(st, lhs, rhs, pol).1->Ok_0) ==> eq_holds(a, x, lhs, rhs) == pol,
{
    lemma_eq_lit(st, lhs, rhs, pol);
    let l = eq_lit(st, lhs, rhs, pol).1->Ok_0;
    assert(eq_holds(a, x, lhs, rhs) == x(l.atom_id));
}

proof fn lemma_all_hold(a: Seq<AtomView>, x: spec_fn(usize) -> bool, items: Seq<SExprView>, i: int, pol: bool)
    requires
        0 <= i,
        forall|j: int| i <= j < items.len() ==> #[trigger] holds(a, x, items[j]) == pol,
    ensures
        pol ==> all_hold(a, x, items, i),
        !pol ==> !any_holds(a, x, items, i),
    decreases items.len() - i,
{
    if i < items.len() {
        assert(holds(a, x, items[i]) == pol);
        lemma_all_hold(a, x, items, i + 1, pol);
    }
}

proof fn lemma_some_holds(a: Seq<AtomView>, x: spec_fn(usize) -> bool, items: Seq<SExprView>, i: int, j: int, pol: bool)
    requires
        0 <= i <= j < items.len(),
        holds(a, x, items[j]) == pol,
    ensures
        pol ==> any_holds(a, x, items, i),
        !pol ==> !all_hold(a, x, items, i),
    decreases j - i,
{
    if i < j {
        lemma_some_holds(a, x, items, i + 1, j, pol);
    }
}

/// The operator words are distinct.
proof fn lemma_op_words()
    ensures
        "="@ != "not"@, "="@ != "and"@, "="@ != "or"@, "="@ != "=>"@,
        "not"@ != "and"@, "not"@ != "or"@, "not"@ != "=>"@,
{
    reveal_strlit("=");
    reveal_strlit("not");
    reveal_strlit("and");
    reveal_strlit("or");
    reveal_strlit("=>");
    assert("="@.len() == 1 && "not"@.len() == 3 && "and"@.len() == 3 && "or"@.len() == 2 && "=>"@.len() == 2);
    assert("not"@[0] == 'n' && "and"@[0] == 'a' && "or"@[0] == 'o' && "=>"@[0] == '=' && "=>"@[1] == '>');
}

// ── Soundness of each step ─────────────────────────────────────────────

proof fn sem_f2c(st: SmtState, e: SExprView, pol: bool, g: Seq<TheoryLit>, a: Seq<AtomView>, x: spec_fn(usize) -> bool)
    requires
        f2c(st, e, pol, g).1 is Ok,
        prefix_of(f2c(st, e, pol, g).0.atoms, a),
        added_hold(x, st, f2c(st, e, pol, g).0),
        all_false(x, g),
    ensures
        holds(a, x, e) == pol,
    decreases e, 0int,
{
    assert(prefix_of(st.clauses, st.clauses));
    match e {
        SExprView::Sym(s) => {
            if s == "true"@ || s == "false"@ {
                if f2c(st, e, pol, g).0 != st {
                    lemma_last_added(x, st, st, g);
                    let k = choose|k: int| 0 <= k < g.len() && lit_holds(x, #[trigger] g[k]);
                }
            } else {
                sem_eq_clause(st, s, "true"@, pol, g, a, x);
            }
        },
        SExprView::List(items) => {
            match items[0] {
                SExprView::Sym(op) => {
                    if op == "not"@ {
                        sem_f2c(st, items[1], !pol, g, a, x);
                    } else if op == "and"@ {
                        if pol {
                            sem_and(st, items, 1, true, g, a, x);
                            lemma_all_hold(a, x, items, 1, true);
                        } else {
                            sem_or(st, items, 1, seq![], false, g, a, x);
                            let j = choose|j: int| 1 <= j < items.len() && #[trigger] holds(a, x, items[j]) == false;
                            lemma_some_holds(a, x, items, 1, j, false);
                        }
                    } else if op == "or"@ {
                        if pol {
                            sem_or(st, items, 1, seq![], true, g, a, x);
                            let j = choose|j: int| 1 <= j < items.len() && #[trigger] holds(a, x, items[j]) == true;
                            lemma_some_holds(a, x, items, 1, j, true);
                        } else {
                            sem_and(st, items, 1, false, g, a, x);
                            lemma_all_hold(a, x, items, 1, false);
                        }
                    } else if op == "=>"@ {
                        if pol {
                            sem_imp(st, items, g, a, x);
                        } else {
                            lemma_ext_f2c(st, items[1], true, g);
                            let s1 = f2c(st, items[1], true, g).0;
                            lemma_ext_f2c(s1, items[2], false, g);
                            let s2 = f2c(s1, items[2], false, g).0;
                            lemma_prefix_trans(s1.atoms, s2.atoms, a);
                            lemma_added_split(x, st, s1, s2);
                            sem_f2c(st, items[1], true, g, a, x);
                            sem_f2c(s1, items[2], false, g, a, x);
                        }
                    } else if op == "="@ {
                        sem_eq_clause(st, term_str(items[1]), term_str(items[2]), pol, g, a, x);
                    } else {
                        sem_eq_clause(st, term_str(e), "true"@, pol, g, a, x);
                    }
                },
                SExprView::List(_) => {},
            }
        },
    }
}

proof fn sem_and(st: SmtState, items: Seq<SExprView>, i: int, pol: bool, g: Seq<TheoryLit>, a: Seq<AtomView>, x: spec_fn(usize) -> bool)
    requires
        0 <= i,
        and_fold(st, items, i, pol, g).1 is Ok,
        prefix_of(and_fold(st, items, i, pol, g).0.atoms, a),
        added_hold(x, st, and_fold(st, items, i, pol, g).0),
        all_false(x, g),
    ensures
        forall|j: int| i <= j < items.len() ==> #[trigger] holds(a, x, items[j]) == pol,
    decreases items, items.len() - i,
{
    if i < items.len() {
        lemma_ext_f2c(st, items[i], pol, g);
        let s1 = f2c(st, items[i], pol, g).0;
        lemma_ext_and(s1, items, i + 1, pol, g);
        let s2 = and_fold(s1, items, i + 1, pol, g).0;
        lemma_prefix_trans(s1.atoms, s2.atoms, a);
        lemma_added_split(x, st, s1, s2);
        sem_f2c(st, items[i], pol, g, a, x);
        sem_and(s1, items, i + 1, pol, g, a, x);
    }
}

proof fn sem_or(st: SmtState, items: Seq<SExprView>, i: int, acc: Seq<TheoryLit>, pol: bool, g: Seq<TheoryLit>, a: Seq<AtomView>, x: spec_fn(usize) -> bool)
    requires
        0 <= i,
        or_fold(st, items, i, acc, pol, g).1 is Ok,
        prefix_of(or_fold(st, items, i, acc, pol, g).0.atoms, a),
        added_hold(x, st, or_fold(st, items, i, acc, pol, g).0),
        all_false(x, g),
        all_false(x, acc),
    ensures
        exists|j: int| i <= j < items.len() && #[trigger] holds(a, x, items[j]) == pol,
    decreases items, items.len() - i,
{
    assert(prefix_of(st.clauses, st.clauses));
    if i >= items.len() {
        lemma_last_added(x, st, st, g + acc);
        lemma_false_clause(x, g, acc);
    } else {
        lemma_ext_or_item(st, items[i], pol, g);
        let s1 = or_item(st, items[i], pol, g).0;
        match or_item(st, items[i], pol, g).1 {
            Ok(OrStep::Stop) => {
                sem_or_item(st, items[i], pol, g, a, x);
                assert(holds(a, x, items[i]) == pol);
            },
            Ok(OrStep::Skip) => {
                lemma_ext_or(s1, items, i + 1, acc, pol, g);
                let s2 = or_fold(s1, items, i + 1, acc, pol, g).0;
                lemma_prefix_trans(s1.atoms, s2.atoms, a);
                lemma_added_split(x, st, s1, s2);
                sem_or(s1, items, i + 1, acc, pol, g, a, x);
                let j = choose|j: int| i + 1 <= j < items.len() && #[trigger] holds(a, x, items[j]) == pol;
                assert(holds(a, x, items[j]) == pol);
            },
            Ok(OrStep::Lit(l)) => {
                lemma_ext_or(s1, items, i + 1, acc.push(l), pol, g);
                let s2 = or_fold(s1, items, i + 1, acc.push(l), pol, g).0;
                lemma_prefix_trans(s1.atoms, s2.atoms, a);
                lemma_added_split(x, st, s1, s2);
                sem_or_item(st, items[i], pol, g, a, x);
                if lit_holds(x, l) {
                    assert(holds(a, x, items[i]) == pol);
                } else {
                    assert forall|k: int| 0 <= k < acc.push(l).len() implies !lit_holds(x, #[trigger] acc.push(l)[k]) by {
                        if k < acc.len() {
                            assert(acc.push(l)[k] == acc[k]);
                        }
                    }
                    sem_or(s1, items, i + 1, acc.push(l), pol, g, a, x);
                    let j = choose|j: int| i + 1 <= j < items.len() && #[trigger] holds(a, x, items[j]) == pol;
                    assert(holds(a, x, items[j]) == pol);
                }
            },
            Err(_) => {},
        }
    }
}

proof fn sem_tseitin(st: SmtState, f: SExprView, pol: bool, g: Seq<TheoryLit>, a: Seq<AtomView>, x: spec_fn(usize) -> bool)
    requires
        tseitin_item(st, f, pol, g).1 is Ok,
        prefix_of(tseitin_item(st, f, pol, g).0.atoms, a),
        added_hold(x, st, tseitin_item(st, f, pol, g).0),
        all_false(x, g),
    ensures
        lit_holds(x, tseitin_item(st, f, pol, g).1->Ok_0) ==> holds(a, x, f) == pol,
    decreases f, 1int,
{
    let t = TheoryLit { atom_id: st.next_atom, sign: false };
    let g2 = g.push(t);
    let s0 = with_tseitin(st);
    if x(st.next_atom) {
        assert forall|k: int| 0 <= k < g2.len() implies !lit_holds(x, #[trigger] g2[k]) by {
            if k < g.len() {
                assert(g2[k] == g[k]);
            }
        }
        assert(s0.clauses == st.clauses);
        sem_f2c(s0, f, pol, g2, a, x);
    }
}

proof fn sem_or_item(st: SmtState, f: SExprView, pol: bool, g: Seq<TheoryLit>, a: Seq<AtomView>, x: spec_fn(usize) -> bool)
    requires
        or_item(st, f, pol, g).1 is Ok,
        prefix_of(or_item(st, f, pol, g).0.atoms, a),
        added_hold(x, st, or_item(st, f, pol, g).0),
        all_false(x, g),
    ensures
        or_item(st, f, pol, g).1 == Ok::<OrStep, Seq<char>>(OrStep::Stop) ==> holds(a, x, f) == pol,
        or_item(st, f, pol, g).1 matches Ok(OrStep::Lit(l)) ==> (lit_holds(x, l) ==> holds(a, x, f) == pol),
    decreases f, 2int,
{
    match f {
        SExprView::Sym(s) => {
            if s != "true"@ && s != "false"@ {
                sem_tseitin(st, f, pol, g, a, x);
            }
        },
        SExprView::List(inner) => {
            if inner.len() == 0 {
                sem_tseitin(st, f, pol, g, a, x);
            } else {
                match inner[0] {
                    SExprView::Sym(op) => {
                        lemma_op_words();
                        if op == "="@ {
                            sem_eq_item(st, term_str(inner[1]), term_str(inner[2]), pol, a, x);
                        } else if op == "not"@ && inner.len() >= 2 && is_eq_view(inner[1]) {
                            let i2 = inner[1]->List_0;
                            sem_eq_item(st, term_str(i2[1]), term_str(i2[2]), !pol, a, x);
                            assert(holds(a, x, f) == !holds(a, x, inner[1]));
                            assert(i2[0] == SExprView::Sym("="@));
                            assert(holds(a, x, inner[1]) == (i2.len() >= 3 && eq_holds(a, x, term_str(i2[1]), term_str(i2[2]))));
                        } else {
                            sem_tseitin(st, f, pol, g, a, x);
                        }
                    },
                    SExprView::List(_) => {},
                }
            }
        },
    }
}

proof fn sem_imp(st: SmtState, items: Seq<SExprView>, g: Seq<TheoryLit>, a: Seq<AtomView>, x: spec_fn(usize) -> bool)
    requires
        imp_true(st, items, g).1 is Ok,
        prefix_of(imp_true(st, items, g).0.atoms, a),
        added_hold(x, st, imp_true(st, items, g).0),
        all_false(x, g),
    ensures
        items.len() >= 3,
        !holds(a, x, items[1]) || holds(a, x, items[2]),
    decreases items, 0int,
{
    lemma_ext_or_item(st, items[1], false, g);
    let s1 = or_item(st, items[1], false, g).0;
    match or_item(st, items[1], false, g).1 {
        Ok(OrStep::Stop) => {
            sem_or_item(st, items[1], false, g, a, x);
        },
        Ok(first) => {
            let acc = match first {
                OrStep::Lit(l1) => seq![l1],
                _ => Seq::<TheoryLit>::empty(),
            };
            lemma_ext_or_item(s1, items[2], true, g);
            let s2 = or_item(s1, items[2], true, g).0;
            let fin = imp_true(st, items, g).0;
            assert(prefix_of(s2.clauses, fin.clauses) && prefix_of(s2.atoms, fin.atoms)) by {
                lemma_ext_imp(st, items, g);
                assert(prefix_of(s2.clauses, s2.clauses) && prefix_of(s2.atoms, s2.atoms));
                match or_item(s1, items[2], true, g).1 {
                    Ok(OrStep::Skip) => { lemma_with_clause(s2, g + acc); },
                    Ok(OrStep::Lit(l2)) => { lemma_with_clause(s2, g + acc.push(l2)); },
                    _ => {},
                }
            }
            lemma_prefix_trans(s2.atoms, fin.atoms, a);
            lemma_prefix_trans(s1.atoms, s2.atoms, a);
            lemma_extends_trans(st, s1, s2);
            lemma_added_split(x, st, s2, fin);
            lemma_added_split(x, st, s1, s2);
            sem_or_item(st, items[1], false, g, a, x);
            sem_or_item(s1, items[2], true, g, a, x);
            match or_item(s1, items[2], true, g).1 {
                Ok(OrStep::Skip) => {
                    lemma_last_added(x, st, s2, g + acc);
                    lemma_tail_clause(x, g, acc);
                    let k = choose|k: int| 0 <= k < acc.len() && lit_holds(x, #[trigger] acc[k]);
                },
                Ok(OrStep::Lit(l2)) => {
                    lemma_last_added(x, st, s2, g + acc.push(l2));
                    lemma_tail_clause(x, g, acc.push(l2));
                    let k = choose|k: int| 0 <= k < acc.push(l2).len() && lit_holds(x, #[trigger] acc.push(l2)[k]);
                    if k < acc.len() {
                        assert(acc.push(l2)[k] == acc[k]);
                    }
                },
                _ => {},
            }
        },
        Err(_) => {},
    }
}

// ── Atom ids stay apart, and every added clause begins with its guard ──

/// Every literal of `c` names an atom below `n`.
pub open spec fn lits_below(c: Seq<TheoryLit>, n: usize) -> bool {
    forall|k: int| 0 <= k < c.len() ==> (#[trigger] c[k]).atom_id < n
}

/// The atoms have distinct ids.
pub open spec fn distinct_ids(a: Seq<AtomView>) -> bool {
    forall|k1: int, k2: int| 0 <= k1 < a.len() && 0 <= k2 < a.len() && k1 != k2 ==> (#[trigger] a[k1]).id != (#[trigger] a[k2]).id
}

/// The atoms have distinct ids below the counter, and every clause names
/// atoms below it.
pub open spec fn ids_ok(st: SmtState) -> bool {
    &&& forall|k: int| 0 <= k < st.atoms.len() ==> (#[trigger] st.atoms[k]).id < st.next_atom
    &&& distinct_ids(st.atoms)
    &&& forall|c: int| 0 <= c < st.clauses.len() ==> lits_below(#[trigger] st.clauses[c], st.next_atom)
}

/// Every clause that `s1` has beyond `s0` begins with `g`.
pub open spec fn guarded(g: Seq<TheoryLit>, s0: SmtState, s1: SmtState) -> bool {
    forall|i: int| s0.clauses.len() <= i < s1.clauses.len() ==> prefix_of(g, #[trigger] s1.clauses[i])
}

/// What a step keeps: ids apart and below a counter that only grows, and
/// added clauses that begin with the guard.
pub open spec fn step_ok(g: Seq<TheoryLit>, s0: SmtState, s1: SmtState) -> bool {
    &&& ids_ok(s1)
    &&& s0.next_atom <= s1.next_atom
    &&& guarded(g, s0, s1)
}

proof fn lemma_step_trans(g: Seq<TheoryLit>, s0: SmtState, s1: SmtState, s2: SmtState)
    requires
        step_ok(g, s0, s1),
        step_ok(g, s1, s2),
        extends(s1, s2),
        extends(s0, s1),
    ensures
        step_ok(g, s0, s2),
{
    assert forall|i: int| s0.clauses.len() <= i < s2.clauses.len() implies prefix_of(g, #[trigger] s2.clauses[i]) by {
        if i < s1.clauses.len() {
            assert(s2.clauses[i] == s1.clauses[i]);
            assert(prefix_of(g, s1.clauses[i]));
        }
    }
}

proof fn lemma_step_clause(g: Seq<TheoryLit>, st: SmtState, c: Seq<TheoryLit>)
    requires
        ids_ok(st),
        lits_below(c, st.next_atom),
        prefix_of(g, c),
    ensures
        step_ok(g, st, with_clause(st, c)),
{
    let s1 = with_clause(st, c);
    assert forall|j: int| 0 <= j < s1.clauses.len() implies lits_below(#[trigger] s1.clauses[j], s1.next_atom) by {
        if j < st.clauses.len() {
            assert(s1.clauses[j] == st.clauses[j]);
        }
    }
}

proof fn lemma_guard_push(g: Seq<TheoryLit>, l: TheoryLit, n: usize)
    requires
        lits_below(g, n),
        l.atom_id < n,
    ensures
        lits_below(g.push(l), n),
        prefix_of(g, g.push(l)),
{
    assert forall|k: int| 0 <= k < g.push(l).len() implies (#[trigger] g.push(l)[k]).atom_id < n by {
        if k < g.len() {
            assert(g.push(l)[k] == g[k]);
        }
    }
}

proof fn lemma_guard_concat(g: Seq<TheoryLit>, acc: Seq<TheoryLit>, n: usize)
    requires
        lits_below(g, n),
        lits_below(acc, n),
    ensures
        lits_below(g + acc, n),
        prefix_of(g, g + acc),
{
    assert forall|k: int| 0 <= k < (g + acc).len() implies (#[trigger] (g + acc)[k]).atom_id < n by {
        if k < g.len() {
            assert((g + acc)[k] == g[k]);
        } else {
            assert((g + acc)[k] == acc[k - g.len()]);
        }
    }
}

/// A new atom under the next id keeps the ids apart.
proof fn lemma_wf_with_atom(st: SmtState, eq: bool, l: Seq<char>, r: Seq<char>, g: Seq<TheoryLit>)
    requires
        ids_ok(st),
        !ids_exhausted(st),
    ensures
        step_ok(g, st, with_atom(st, eq, l, r)),
{
    let s1 = with_atom(st, eq, l, r);
    assert forall|k: int| 0 <= k < s1.atoms.len() implies (#[trigger] s1.atoms[k]).id < s1.next_atom by {
        if k < st.atoms.len() {
            assert(s1.atoms[k] == st.atoms[k]);
        }
    }
    assert forall|k1: int, k2: int| 0 <= k1 < s1.atoms.len() && 0 <= k2 < s1.atoms.len() && k1 != k2
        implies (#[trigger] s1.atoms[k1]).id != (#[trigger] s1.atoms[k2]).id by {
        if k1 < st.atoms.len() {
            assert(s1.atoms[k1] == st.atoms[k1]);
        }
        if k2 < st.atoms.len() {
            assert(s1.atoms[k2] == st.atoms[k2]);
        }
    }
    assert forall|c: int| 0 <= c < s1.clauses.len() implies lits_below(#[trigger] s1.clauses[c], s1.next_atom) by {
        assert(lits_below(st.clauses[c], st.next_atom));
    }
}

proof fn lemma_wf_eq_lit(st: SmtState, l: Seq<char>, r: Seq<char>, sign: bool, g: Seq<TheoryLit>)
    requires
        ids_ok(st),
        eq_lit(st, l, r, sign).1 is Ok,
    ensures
        step_ok(g, st, eq_lit(st, l, r, sign).0),
        eq_lit(st, l, r, sign).0.clauses == st.clauses,
        (eq_lit(st, l, r, sign).1->Ok_0).atom_id < eq_lit(st, l, r, sign).0.next_atom,
{
    lemma_find_bound(st.atoms, 0, l, r);
    match find_eq_from(st.atoms, 0, l, r) {
        Some(k) => {
            assert(st.atoms[k].id < st.next_atom);
        },
        None => {
            lemma_wf_with_atom(st, true, l, r, g);
        },
    }
}

/// A clause `g ∨ l` after the literal of an equality.
proof fn lemma_wf_eq_clause(st: SmtState, l: Seq<char>, r: Seq<char>, sign: bool, g: Seq<TheoryLit>)
    requires
        ids_ok(st),
        lits_below(g, st.next_atom),
        eq_lit(st, l, r, sign).1 is Ok,
    ensures
        step_ok(g, st, with_clause(eq_lit(st, l, r, sign).0, g.push(eq_lit(st, l, r, sign).1->Ok_0))),
{
    lemma_wf_eq_lit(st, l, r, sign, g);
    lemma_eq_lit(st, l, r, sign);
    let s1 = eq_lit(st, l, r, sign).0;
    let lit = eq_lit(st, l, r, sign).1->Ok_0;
    lemma_guard_push(g, lit, s1.next_atom);
    lemma_step_clause(g, s1, g.push(lit));
    lemma_with_clause(s1, g.push(lit));
    lemma_step_trans(g, st, s1, with_clause(s1, g.push(lit)));
}

proof fn wf_f2c(st: SmtState, e: SExprView, pol: bool, g: Seq<TheoryLit>)
    requires
        ids_ok(st),
        lits_below(g, st.next_atom),
        f2c(st, e, pol, g).1 is Ok,
    ensures
        step_ok(g, st, f2c(st, e, pol, g).0),
    decreases e, 0int,
{
    match e {
        SExprView::Sym(s) => {
            if s == "true"@ || s == "false"@ {
                assert(prefix_of(g, g));
                lemma_step_clause(g, st, g);
            } else {
                lemma_wf_eq_clause(st, s, "true"@, pol, g);
            }
        },
        SExprView::List(items) => {
            match items[0] {
                SExprView::Sym(op) => {
                    if op == "not"@ {
                        wf_f2c(st, items[1], !pol, g);
                    } else if op == "and"@ {
                        if pol {
                            wf_and(st, items, 1, true, g);
                        } else {
                            assert(lits_below(seq![], st.next_atom));
                            wf_or(st, items, 1, seq![], false, g);
                        }
                    } else if op == "or"@ {
                        if pol {
                            assert(lits_below(seq![], st.next_atom));
                            wf_or(st, items, 1, seq![], true, g);
                        } else {
                            wf_and(st, items, 1, false, g);
                        }
                    } else if op == "=>"@ {
                        if pol {
                            wf_imp(st, items, g);
                        } else {
                            wf_f2c(st, items[1], true, g);
                            lemma_ext_f2c(st, items[1], true, g);
                            let s1 = f2c(st, items[1], true, g).0;
                            wf_f2c(s1, items[2], false, g);
                            lemma_ext_f2c(s1, items[2], false, g);
                            lemma_step_trans(g, st, s1, f2c(s1, items[2], false, g).0);
                        }
                    } else if op == "="@ {
                        lemma_wf_eq_clause(st, term_str(items[1]), term_str(items[2]), pol, g);
                    } else {
                        lemma_wf_eq_clause(st, term_str(e), "true"@, pol, g);
                    }
                },
                SExprView::List(_) => {},
            }
        },
    }
}

proof fn wf_and(st: SmtState, items: Seq<SExprView>, i: int, pol: bool, g: Seq<TheoryLit>)
    requires
        ids_ok(st),
        lits_below(g, st.next_atom),
        and_fold(st, items, i, pol, g).1 is Ok,
    ensures
        step_ok(g, st, and_fold(st, items, i, pol, g).0),
    decreases items, items.len() - i,
{
    if 0 <= i < items.len() {
        wf_f2c(st, items[i], pol, g);
        lemma_ext_f2c(st, items[i], pol, g);
        let s1 = f2c(st, items[i], pol, g).0;
        wf_and(s1, items, i + 1, pol, g);
        lemma_ext_and(s1, items, i + 1, pol, g);
        lemma_step_trans(g, st, s1, and_fold(s1, items, i + 1, pol, g).0);
    }
}

proof fn wf_or(st: SmtState, items: Seq<SExprView>, i: int, acc: Seq<TheoryLit>, pol: bool, g: Seq<TheoryLit>)
    requires
        ids_ok(st),
        lits_below(g, st.next_atom),
        lits_below(acc, st.next_atom),
        or_fold(st, items, i, acc, pol, g).1 is Ok,
    ensures
        step_ok(g, st, or_fold(st, items, i, acc, pol, g).0),
    decreases items, items.len() - i,
{
    if 0 <= i < items.len() {
        wf_or_item(st, items[i], pol, g);
        lemma_ext_or_item(st, items[i], pol, g);
        let s1 = or_item(st, items[i], pol, g).0;
        match or_item(st, items[i], pol, g).1 {
            Ok(OrStep::Skip) => {
                wf_or(s1, items, i + 1, acc, pol, g);
                lemma_ext_or(s1, items, i + 1, acc, pol, g);
                lemma_step_trans(g, st, s1, or_fold(s1, items, i + 1, acc, pol, g).0);
            },
            Ok(OrStep::Lit(l)) => {
                lemma_guard_push(acc, l, s1.next_atom);
                wf_or(s1, items, i + 1, acc.push(l), pol, g);
                lemma_ext_or(s1, items, i + 1, acc.push(l), pol, g);
                lemma_step_trans(g, st, s1, or_fold(s1, items, i + 1, acc.push(l), pol, g).0);
            },
            _ => {},
        }
    } else {
        lemma_guard_concat(g, acc, st.next_atom);
        lemma_step_clause(g, st, g + acc);
    }
}

proof fn wf_tseitin(st: SmtState, f: SExprView, pol: bool, g: Seq<TheoryLit>)
    requires
        ids_ok(st),
        lits_below(g, st.next_atom),
        tseitin_item(st, f, pol, g).1 is Ok,
    ensures
        step_ok(g, st, tseitin_item(st, f, pol, g).0),
        (tseitin_item(st, f, pol, g).1->Ok_0).atom_id < tseitin_item(st, f, pol, g).0.next_atom,
    decreases f, 1int,
{
    let t = TheoryLit { atom_id: st.next_atom, sign: false };
    let g2 = g.push(t);
    let s0 = with_tseitin(st);
    lemma_wf_with_atom(st, true, "_t"@ + decimal(st.next_atom as nat), "true"@, g);
    lemma_guard_push(g, t, s0.next_atom);
    wf_f2c(s0, f, pol, g2);
    lemma_ext_f2c(s0, f, pol, g2);
    let s1 = f2c(s0, f, pol, g2).0;
    assert forall|i: int| s0.clauses.len() <= i < s1.clauses.len() implies prefix_of(g, #[trigger] s1.clauses[i]) by {
        lemma_prefix_trans(g, g2, s1.clauses[i]);
    }
    assert(prefix_of(st.atoms, s0.atoms) && prefix_of(st.clauses, s0.clauses));
    lemma_step_trans(g, st, s0, s1);
}

proof fn wf_or_item(st: SmtState, f: SExprView, pol: bool, g: Seq<TheoryLit>)
    requires
        ids_ok(st),
        lits_below(g, st.next_atom),
        or_item(st, f, pol, g).1 is Ok,
    ensures
        step_ok(g, st, or_item(st, f, pol, g).0),
        or_item(st, f, pol, g).1 matches Ok(OrStep::Lit(l)) ==> l.atom_id < or_item(st, f, pol, g).0.next_atom,
    decreases f, 2int,
{
    match f {
        SExprView::Sym(s) => {
            if s != "true"@ && s != "false"@ {
                wf_tseitin(st, f, pol, g);
            }
        },
        SExprView::List(inner) => {
            if inner.len() == 0 {
                wf_tseitin(st, f, pol, g);
            } else {
                match inner[0] {
                    SExprView::Sym(op) => {
                        lemma_op_words();
                        if op == "="@ {
                            lemma_wf_eq_lit(st, term_str(inner[1]), term_str(inner[2]), pol, g);
                        } else if op == "not"@ && inner.len() >= 2 && is_eq_view(inner[1]) {
                            let i2 = inner[1]->List_0;
                            lemma_wf_eq_lit(st, term_str(i2[1]), term_str(i2[2]), !pol, g);
                        } else {
                            wf_tseitin(st, f, pol, g);
                        }
                    },
                    SExprView::List(_) => {},
                }
            }
        },
    }
}

proof fn wf_imp(st: SmtState, items: Seq<SExprView>, g: Seq<TheoryLit>)
    requires
        ids_ok(st),
        lits_below(g, st.next_atom),
        imp_true(st, items, g).1 is Ok,
    ensures
        step_ok(g, st, imp_true(st, items, g).0),
    decreases items, 0int,
{
    wf_or_item(st, items[1], false, g);
    lemma_ext_or_item(st, items[1], false, g);
    let s1 = or_item(st, items[1], false, g).0;
    match or_item(st, items[1], false, g).1 {
        Ok(OrStep::Stop) => {},
        Ok(first) => {
            let acc = match first {
                OrStep::Lit(l1) => seq![l1],
                _ => Seq::<TheoryLit>::empty(),
            };
            assert(lits_below(acc, s1.next_atom));
            wf_or_item(s1, items[2], true, g);
            lemma_ext_or_item(s1, items[2], true, g);
            let s2 = or_item(s1, items[2], true, g).0;
            lemma_step_trans(g, st, s1, s2);
            lemma_extends_trans(st, s1, s2);
            match or_item(s1, items[2], true, g).1 {
                Ok(OrStep::Skip) => {
                    lemma_guard_concat(g, acc, s2.next_atom);
                    lemma_step_clause(g, s2, g + acc);
                    lemma_with_clause(s2, g + acc);
                    lemma_step_trans(g, st, s2, with_clause(s2, g + acc));
                },
                Ok(OrStep::Lit(l2)) => {
                    lemma_guard_push(acc, l2, s2.next_atom);
                    lemma_guard_concat(g, acc.push(l2), s2.next_atom);
                    lemma_step_clause(g, s2, g + acc.push(l2));
                    lemma_with_clause(s2, g + acc.push(l2));
                    lemma_step_trans(g, st, s2, with_clause(s2, g + acc.push(l2)));
                },
                _ => {},
            }
        },
        Err(_) => {},
    }
}

// ── Values of auxiliary atoms do not change what a formula says ────────

/// A name like those of auxiliary atoms, `_t<n>`.
pub open spec fn aux_like(s: Seq<char>) -> bool {
    s.len() >= 2 && s[0] == '_' && s[1] == 't'
}

/// An auxiliary atom `_t<n> = true`.
pub open spec fn is_aux(at: AtomView) -> bool {
    aux_like(at.lhs)
}

/// No symbol of `e` is named like an auxiliary atom.
pub open spec fn no_aux(e: SExprView) -> bool
    decreases e, 0int,
{
    match e {
        SExprView::Sym(s) => !aux_like(s),
        SExprView::List(items) => no_aux_from(items, 0),
    }
}

/// No symbol of `items[i..]` is named like an auxiliary atom.
pub open spec fn no_aux_from(items: Seq<SExprView>, i: int) -> bool
    decreases items, items.len() - i,
{
    if i < 0 || i >= items.len() {
        true
    } else {
        no_aux(items[i]) && no_aux_from(items, i + 1)
    }
}

/// `id` is the id of an auxiliary atom of `a`.
pub open spec fn aux_id(a: Seq<AtomView>, id: usize) -> bool {
    exists|k: int| 0 <= k < a.len() && (#[trigger] a[k]).id == id && is_aux(a[k])
}

/// `y` differs from `x` only on ids from `lo` on of auxiliary atoms of `a`.
pub open spec fn differ_on_aux(x: spec_fn(usize) -> bool, y: spec_fn(usize) -> bool, a: Seq<AtomView>, lo: usize) -> bool {
    forall|id: usize| #[trigger] y(id) != x(id) ==> lo <= id && aux_id(a, id)
}

proof fn lemma_no_aux_at(items: Seq<SExprView>, i: int, j: int)
    requires
        0 <= i <= j < items.len(),
        no_aux_from(items, i),
    ensures
        no_aux(items[j]),
    decreases j - i,
{
    if i < j {
        lemma_no_aux_at(items, i + 1, j);
    }
}

/// The text of a term without auxiliary names is not such a name.
proof fn lemma_term_not_aux(t: SExprView)
    requires
        no_aux(t),
    ensures
        !aux_like(term_str(t)),
{
    if let SExprView::List(items) = t {
        let parts = crate::linear::display::join(crate::parser::smtlib::term_parts(items), seq![' ']);
        assert((seq!['('] + parts + seq![')'])[0] == '(');
    }
}

proof fn lemma_true_not_aux()
    ensures
        !aux_like("true"@),
{
    reveal_strlit("true");
}

/// A found atom states the equality.
proof fn lemma_find_hit(a: Seq<AtomView>, j: int, l: Seq<char>, r: Seq<char>)
    requires
        0 <= j,
    ensures
        find_eq_from(a, j, l, r) matches Some(k) ==> same_eq(a[k], l, r),
    decreases a.len() - j,
{
    if j < a.len() && !same_eq(a[j], l, r) {
        lemma_find_hit(a, j + 1, l, r);
    }
}

proof fn lemma_eq_holds_keep(a: Seq<AtomView>, x: spec_fn(usize) -> bool, y: spec_fn(usize) -> bool, lo: usize, l: Seq<char>, r: Seq<char>)
    requires
        distinct_ids(a),
        differ_on_aux(x, y, a, lo),
        !aux_like(l),
        !aux_like(r),
    ensures
        eq_holds(a, y, l, r) == eq_holds(a, x, l, r),
{
    lemma_find_bound(a, 0, l, r);
    lemma_find_hit(a, 0, l, r);
    if let Some(k) = find_eq_from(a, 0, l, r) {
        let id = a[k].id;
        if y(id) != x(id) {
            let k2 = choose|k2: int| 0 <= k2 < a.len() && (#[trigger] a[k2]).id == id && is_aux(a[k2]);
            assert(k2 == k);
        }
    }
}

proof fn keep_holds(a: Seq<AtomView>, x: spec_fn(usize) -> bool, y: spec_fn(usize) -> bool, lo: usize, e: SExprView)
    requires
        distinct_ids(a),
        differ_on_aux(x, y, a, lo),
        no_aux(e),
    ensures
        holds(a, y, e) == holds(a, x, e),
    decreases e, 0int,
{
    lemma_true_not_aux();
    match e {
        SExprView::Sym(s) => {
            lemma_eq_holds_keep(a, x, y, lo, s, "true"@);
        },
        SExprView::List(items) => {
            if items.len() > 0 {
                match items[0] {
                    SExprView::Sym(op) => {
                        if items.len() >= 2 {
                            lemma_no_aux_at(items, 0, 1);
                            keep_holds(a, x, y, lo, items[1]);
                        }
                        if items.len() >= 3 {
                            lemma_no_aux_at(items, 0, 2);
                            keep_holds(a, x, y, lo, items[2]);
                            lemma_term_not_aux(items[1]);
                            lemma_term_not_aux(items[2]);
                            lemma_eq_holds_keep(a, x, y, lo, term_str(items[1]), term_str(items[2]));
                        }
                        keep_all(a, x, y, lo, items, 1);
                        lemma_term_not_aux(e);
                        lemma_eq_holds_keep(a, x, y, lo, term_str(e), "true"@);
                    },
                    SExprView::List(_) => {},
                }
            }
        },
    }
}

proof fn keep_all(a: Seq<AtomView>, x: spec_fn(usize) -> bool, y: spec_fn(usize) -> bool, lo: usize, items: Seq<SExprView>, i: int)
    requires
        distinct_ids(a),
        differ_on_aux(x, y, a, lo),
        0 <= i,
        no_aux_from(items, i) || (i == 1 && no_aux_from(items, 0)),
    ensures
        all_hold(a, y, items, i) == all_hold(a, x, items, i),
        any_holds(a, y, items, i) == any_holds(a, x, items, i),
    decreases items, items.len() - i,
{
    if i < items.len() {
        lemma_no_aux_at(items, if no_aux_from(items, i) { i } else { 0 }, i);
        keep_holds(a, x, y, lo, items[i]);
        if !no_aux_from(items, i) {
            assert(no_aux_from(items, 1));
        }
        keep_all(a, x, y, lo, items, i + 1);
    }
}

// ── Completeness: a formula with its value gives values that satisfy its clauses ──

/// `x` with the atom `id` set to `v`.
pub open spec fn set_at(x: spec_fn(usize) -> bool, id: usize, v: bool) -> spec_fn(usize) -> bool {
    |i: usize| if i == id { v } else { x(i) }
}

proof fn lemma_differ_trans(x: spec_fn(usize) -> bool, y: spec_fn(usize) -> bool, z: spec_fn(usize) -> bool, a: Seq<AtomView>, lo1: usize, lo2: usize)
    requires
        differ_on_aux(x, y, a, lo1),
        differ_on_aux(y, z, a, lo2),
        lo1 <= lo2,
    ensures
        differ_on_aux(x, z, a, lo1),
{
    assert forall|id: usize| #[trigger] z(id) != x(id) implies lo1 <= id && aux_id(a, id) by {
        if y(id) != x(id) {
        } else {
            assert(z(id) != y(id));
        }
    }
}

/// A clause over atoms below `lo` has the same value under both.
proof fn lemma_clause_keep(x: spec_fn(usize) -> bool, y: spec_fn(usize) -> bool, a: Seq<AtomView>, lo: usize, c: Seq<TheoryLit>)
    requires
        differ_on_aux(x, y, a, lo),
        lits_below(c, lo),
    ensures
        clause_holds(y, c) == clause_holds(x, c),
{
    assert forall|k: int| 0 <= k < c.len() implies lit_holds(y, #[trigger] c[k]) == lit_holds(x, c[k]) by {
        let id = c[k].atom_id;
        if y(id) != x(id) {
        }
    }
}

/// Clauses already satisfied stay so when only later atoms change.
proof fn lemma_added_keep(x: spec_fn(usize) -> bool, y: spec_fn(usize) -> bool, a: Seq<AtomView>, s0: SmtState, s1: SmtState, lo: usize)
    requires
        added_hold(x, s0, s1),
        ids_ok(s1),
        s1.next_atom <= lo,
        differ_on_aux(x, y, a, lo),
    ensures
        added_hold(y, s0, s1),
{
    assert forall|i: int| s0.clauses.len() <= i < s1.clauses.len() implies #[trigger] clause_holds(y, s1.clauses[i]) by {
        assert(lits_below(s1.clauses[i], s1.next_atom));
        lemma_clause_keep(x, y, a, lo, s1.clauses[i]);
    }
}

proof fn lemma_added_join(x: spec_fn(usize) -> bool, s0: SmtState, s1: SmtState, s2: SmtState)
    requires
        added_hold(x, s0, s1),
        added_hold(x, s1, s2),
        extends(s0, s1),
        extends(s1, s2),
    ensures
        added_hold(x, s0, s2),
{
    assert forall|i: int| s0.clauses.len() <= i < s2.clauses.len() implies #[trigger] clause_holds(x, s2.clauses[i]) by {
        if i < s1.clauses.len() {
            assert(s2.clauses[i] == s1.clauses[i]);
            assert(clause_holds(x, s1.clauses[i]));
        }
    }
}

/// A clause with a true literal somewhere in its tail holds.
proof fn lemma_clause_tail_true(x: spec_fn(usize) -> bool, g: Seq<TheoryLit>, acc: Seq<TheoryLit>)
    requires
        clause_holds(x, acc),
    ensures
        clause_holds(x, g + acc),
{
    let k = choose|k: int| 0 <= k < acc.len() && lit_holds(x, #[trigger] acc[k]);
    assert((g + acc)[g.len() + k] == acc[k]);
}

proof fn lemma_clause_push_true(x: spec_fn(usize) -> bool, acc: Seq<TheoryLit>, l: TheoryLit)
    requires
        clause_holds(x, acc) || lit_holds(x, l),
    ensures
        clause_holds(x, acc.push(l)),
{
    if lit_holds(x, l) {
        assert(acc.push(l)[acc.len() as int] == l);
    } else {
        let k = choose|k: int| 0 <= k < acc.len() && lit_holds(x, #[trigger] acc[k]);
        assert(acc.push(l)[k] == acc[k]);
    }
}

proof fn lemma_all_hold_at(a: Seq<AtomView>, x: spec_fn(usize) -> bool, items: Seq<SExprView>, i: int, j: int)
    requires
        0 <= i <= j < items.len(),
        all_hold(a, x, items, i),
    ensures
        holds(a, x, items[j]),
    decreases j - i,
{
    if i < j {
        lemma_all_hold_at(a, x, items, i + 1, j);
    }
}

proof fn lemma_none_hold_at(a: Seq<AtomView>, x: spec_fn(usize) -> bool, items: Seq<SExprView>, i: int, j: int)
    requires
        0 <= i <= j < items.len(),
        !any_holds(a, x, items, i),
    ensures
        !holds(a, x, items[j]),
    decreases j - i,
{
    if i < j {
        lemma_none_hold_at(a, x, items, i + 1, j);
    }
}

proof fn lemma_witness(a: Seq<AtomView>, x: spec_fn(usize) -> bool, items: Seq<SExprView>, i: int, pol: bool)
    requires
        0 <= i,
        pol ==> any_holds(a, x, items, i),
        !pol ==> !all_hold(a, x, items, i),
    ensures
        exists|j: int| i <= j < items.len() && #[trigger] holds(a, x, items[j]) == pol,
    decreases items.len() - i,
{
    if i < items.len() {
        if holds(a, x, items[i]) == pol {
        } else {
            lemma_witness(a, x, items, i + 1, pol);
            let j = choose|j: int| i + 1 <= j < items.len() && #[trigger] holds(a, x, items[j]) == pol;
            assert(holds(a, x, items[j]) == pol);
        }
    }
}

/// The new auxiliary atom is an auxiliary atom of any longer table.
proof fn lemma_tseitin_aux(st: SmtState, a: Seq<AtomView>)
    requires
        prefix_of(with_tseitin(st).atoms, a),
    ensures
        aux_id(a, st.next_atom),
{
    reveal_strlit("_t");
    let s0 = with_tseitin(st);
    let k = st.atoms.len() as int;
    assert(a[k] == s0.atoms[k]);
    let name = "_t"@ + decimal(st.next_atom as nat);
    assert(name[0] == '_' && name[1] == 't');
    assert(a[k].id == st.next_atom && is_aux(a[k]));
}

proof fn lemma_lit_value(st: SmtState, l: Seq<char>, r: Seq<char>, sign: bool, a: Seq<AtomView>, x: spec_fn(usize) -> bool)
    requires
        eq_lit(st, l, r, sign).1 is Ok,
        prefix_of(eq_lit(st, l, r, sign).0.atoms, a),
    ensures
        lit_holds(x, eq_lit(st, l, r, sign).1->Ok_0) == (eq_holds(a, x, l, r) == sign),
{
    lemma_eq_lit(st, l, r, sign);
    assert(eq_holds(a, x, l, r) == x((eq_lit(st, l, r, sign).1->Ok_0).atom_id));
}

/// An equality with its asserted value satisfies the clause `g ∨ lit`.
proof fn comp_eq_clause(st: SmtState, l: Seq<char>, r: Seq<char>, pol: bool, g: Seq<TheoryLit>, a: Seq<AtomView>, x: spec_fn(usize) -> bool)
    requires
        eq_lit(st, l, r, pol).1 is Ok,
        prefix_of(eq_lit(st, l, r, pol).0.atoms, a),
        eq_holds(a, x, l, r) == pol,
    ensures
        added_hold(x, st, with_clause(eq_lit(st, l, r, pol).0, g.push(eq_lit(st, l, r, pol).1->Ok_0))),
{
    lemma_eq_lit(st, l, r, pol);
    lemma_lit_value(st, l, r, pol, a, x);
    let s1 = eq_lit(st, l, r, pol).0;
    let lit = eq_lit(st, l, r, pol).1->Ok_0;
    let s2 = with_clause(s1, g.push(lit));
    assert(g.push(lit)[g.len() as int] == lit);
    assert(clause_holds(x, g.push(lit)));
    assert(s2.clauses[st.clauses.len() as int] == g.push(lit));
}

proof fn comp_f2c(st: SmtState, e: SExprView, pol: bool, g: Seq<TheoryLit>, a: Seq<AtomView>, x: spec_fn(usize) -> bool) -> (y: spec_fn(usize) -> bool)
    requires
        f2c(st, e, pol, g).1 is Ok,
        prefix_of(f2c(st, e, pol, g).0.atoms, a),
        distinct_ids(a),
        ids_ok(st),
        lits_below(g, st.next_atom),
        no_aux(e),
        holds(a, x, e) == pol,
    ensures
        added_hold(y, st, f2c(st, e, pol, g).0),
        differ_on_aux(x, y, a, st.next_atom),
    decreases e, 0int,
{
    match e {
        SExprView::Sym(s) => {
            if s != "true"@ && s != "false"@ {
                comp_eq_clause(st, s, "true"@, pol, g, a, x);
            }
            x
        },
        SExprView::List(items) => {
            match items[0] {
                SExprView::Sym(op) => {
                    if op == "not"@ {
                        lemma_no_aux_at(items, 0, 1);
                        comp_f2c(st, items[1], !pol, g, a, x)
                    } else if op == "and"@ || op == "or"@ {
                        assert(no_aux_from(items, 1));
                        if (op == "and"@) == pol {
                            assert forall|j: int| 1 <= j < items.len() implies #[trigger] holds(a, x, items[j]) == pol by {
                                if pol {
                                    lemma_all_hold_at(a, x, items, 1, j);
                                } else {
                                    lemma_none_hold_at(a, x, items, 1, j);
                                }
                            }
                            comp_and(st, items, 1, pol, g, a, x)
                        } else {
                            lemma_witness(a, x, items, 1, pol);
                            comp_or(st, items, 1, seq![], pol, g, a, x)
                        }
                    } else if op == "=>"@ {
                        lemma_no_aux_at(items, 0, 1);
                        lemma_no_aux_at(items, 0, 2);
                        if pol {
                            comp_imp(st, items, g, a, x)
                        } else {
                            lemma_ext_f2c(st, items[1], true, g);
                            wf_f2c(st, items[1], true, g);
                            let s1 = f2c(st, items[1], true, g).0;
                            lemma_ext_f2c(s1, items[2], false, g);
                            let s2 = f2c(s1, items[2], false, g).0;
                            lemma_prefix_trans(s1.atoms, s2.atoms, a);
                            let y1 = comp_f2c(st, items[1], true, g, a, x);
                            keep_holds(a, x, y1, st.next_atom, items[2]);
                            let y2 = comp_f2c(s1, items[2], false, g, a, y1);
                            lemma_added_keep(y1, y2, a, st, s1, s1.next_atom);
                            lemma_added_join(y2, st, s1, s2);
                            lemma_differ_trans(x, y1, y2, a, st.next_atom, s1.next_atom);
                            y2
                        }
                    } else if op == "="@ {
                        lemma_no_aux_at(items, 0, 1);
                        lemma_no_aux_at(items, 0, 2);
                        comp_eq_clause(st, term_str(items[1]), term_str(items[2]), pol, g, a, x);
                        x
                    } else {
                        comp_eq_clause(st, term_str(e), "true"@, pol, g, a, x);
                        x
                    }
                },
                SExprView::List(_) => x,
            }
        },
    }
}

proof fn comp_and(st: SmtState, items: Seq<SExprView>, i: int, pol: bool, g: Seq<TheoryLit>, a: Seq<AtomView>, x: spec_fn(usize) -> bool) -> (y: spec_fn(usize) -> bool)
    requires
        0 <= i,
        and_fold(st, items, i, pol, g).1 is Ok,
        prefix_of(and_fold(st, items, i, pol, g).0.atoms, a),
        distinct_ids(a),
        ids_ok(st),
        lits_below(g, st.next_atom),
        no_aux_from(items, i),
        forall|j: int| i <= j < items.len() ==> #[trigger] holds(a, x, items[j]) == pol,
    ensures
        added_hold(y, st, and_fold(st, items, i, pol, g).0),
        differ_on_aux(x, y, a, st.next_atom),
    decreases items, items.len() - i,
{
    if i < items.len() {
        lemma_ext_f2c(st, items[i], pol, g);
        wf_f2c(st, items[i], pol, g);
        let s1 = f2c(st, items[i], pol, g).0;
        lemma_ext_and(s1, items, i + 1, pol, g);
        let s2 = and_fold(s1, items, i + 1, pol, g).0;
        lemma_prefix_trans(s1.atoms, s2.atoms, a);
        let y1 = comp_f2c(st, items[i], pol, g, a, x);
        assert forall|j: int| i + 1 <= j < items.len() implies #[trigger] holds(a, y1, items[j]) == pol by {
            lemma_no_aux_at(items, i, j);
            keep_holds(a, x, y1, st.next_atom, items[j]);
        }
        let y2 = comp_and(s1, items, i + 1, pol, g, a, y1);
        lemma_added_keep(y1, y2, a, st, s1, s1.next_atom);
        lemma_added_join(y2, st, s1, s2);
        lemma_differ_trans(x, y1, y2, a, st.next_atom, s1.next_atom);
        y2
    } else {
        x
    }
}

proof fn comp_or(st: SmtState, items: Seq<SExprView>, i: int, acc: Seq<TheoryLit>, pol: bool, g: Seq<TheoryLit>, a: Seq<AtomView>, x: spec_fn(usize) -> bool) -> (y: spec_fn(usize) -> bool)
    requires
        0 <= i,
        or_fold(st, items, i, acc, pol, g).1 is Ok,
        prefix_of(or_fold(st, items, i, acc, pol, g).0.atoms, a),
        distinct_ids(a),
        ids_ok(st),
        lits_below(g, st.next_atom),
        lits_below(acc, st.next_atom),
        no_aux_from(items, i),
        (exists|j: int| i <= j < items.len() && #[trigger] holds(a, x, items[j]) == pol) || clause_holds(x, acc),
    ensures
        added_hold(y, st, or_fold(st, items, i, acc, pol, g).0),
        differ_on_aux(x, y, a, st.next_atom),
    decreases items, items.len() - i,
{
    if i < items.len() {
        lemma_ext_or_item(st, items[i], pol, g);
        wf_or_item(st, items[i], pol, g);
        let s1 = or_item(st, items[i], pol, g).0;
        lemma_no_aux_at(items, i, i);
        match or_item(st, items[i], pol, g).1 {
            Ok(OrStep::Stop) => {
                comp_or_item(st, items[i], pol, g, a, x)
            },
            Ok(OrStep::Skip) => {
                lemma_ext_or(s1, items, i + 1, acc, pol, g);
                let s2 = or_fold(s1, items, i + 1, acc, pol, g).0;
                lemma_prefix_trans(s1.atoms, s2.atoms, a);
                let y1 = comp_or_item(st, items[i], pol, g, a, x);
                lemma_clause_keep(x, y1, a, st.next_atom, acc);
                if exists|j: int| i <= j < items.len() && #[trigger] holds(a, x, items[j]) == pol {
                    let j = choose|j: int| i <= j < items.len() && #[trigger] holds(a, x, items[j]) == pol;
                    lemma_no_aux_at(items, i, j);
                    keep_holds(a, x, y1, st.next_atom, items[j]);
                    assert(holds(a, y1, items[j]) == pol);
                }
                let y2 = comp_or(s1, items, i + 1, acc, pol, g, a, y1);
                lemma_added_keep(y1, y2, a, st, s1, s1.next_atom);
                lemma_added_join(y2, st, s1, s2);
                lemma_differ_trans(x, y1, y2, a, st.next_atom, s1.next_atom);
                y2
            },
            Ok(OrStep::Lit(l)) => {
                lemma_ext_or(s1, items, i + 1, acc.push(l), pol, g);
                let s2 = or_fold(s1, items, i + 1, acc.push(l), pol, g).0;
                lemma_prefix_trans(s1.atoms, s2.atoms, a);
                lemma_guard_push(acc, l, s1.next_atom);
                let y1 = comp_or_item(st, items[i], pol, g, a, x);
                lemma_clause_keep(x, y1, a, st.next_atom, acc);
                if exists|j: int| i + 1 <= j < items.len() && #[trigger] holds(a, x, items[j]) == pol {
                    let j = choose|j: int| i + 1 <= j < items.len() && #[trigger] holds(a, x, items[j]) == pol;
                    lemma_no_aux_at(items, i, j);
                    keep_holds(a, x, y1, st.next_atom, items[j]);
                    assert(holds(a, y1, items[j]) == pol);
                } else {
                    lemma_clause_push_true(y1, acc, l);
                }
                let y2 = comp_or(s1, items, i + 1, acc.push(l), pol, g, a, y1);
                lemma_added_keep(y1, y2, a, st, s1, s1.next_atom);
                lemma_added_join(y2, st, s1, s2);
                lemma_differ_trans(x, y1, y2, a, st.next_atom, s1.next_atom);
                y2
            },
            Err(_) => x,
        }
    } else {
        lemma_clause_tail_true(x, g, acc);
        let s2 = with_clause(st, g + acc);
        assert(s2.clauses[st.clauses.len() as int] == g + acc);
        x
    }
}

proof fn comp_tseitin(st: SmtState, f: SExprView, pol: bool, g: Seq<TheoryLit>, a: Seq<AtomView>, x: spec_fn(usize) -> bool) -> (y: spec_fn(usize) -> bool)
    requires
        tseitin_item(st, f, pol, g).1 is Ok,
        prefix_of(tseitin_item(st, f, pol, g).0.atoms, a),
        distinct_ids(a),
        ids_ok(st),
        lits_below(g, st.next_atom),
        no_aux(f),
    ensures
        added_hold(y, st, tseitin_item(st, f, pol, g).0),
        differ_on_aux(x, y, a, st.next_atom),
        lit_holds(y, tseitin_item(st, f, pol, g).1->Ok_0) == (holds(a, x, f) == pol),
    decreases f, 1int,
{
    let t = st.next_atom;
    let nt = TheoryLit { atom_id: t, sign: false };
    let g2 = g.push(nt);
    let s0 = with_tseitin(st);
    lemma_wf_with_atom(st, true, "_t"@ + decimal(st.next_atom as nat), "true"@, g);
    lemma_guard_push(g, nt, s0.next_atom);
    lemma_ext_f2c(s0, f, pol, g2);
    wf_f2c(s0, f, pol, g2);
    let s1 = f2c(s0, f, pol, g2).0;
    lemma_prefix_trans(s0.atoms, s1.atoms, a);
    lemma_tseitin_aux(st, a);
    let v = holds(a, x, f) == pol;
    let x1 = set_at(x, t, v);
    assert(differ_on_aux(x, x1, a, st.next_atom)) by {
        assert forall|id: usize| #[trigger] x1(id) != x(id) implies st.next_atom <= id && aux_id(a, id) by {
            assert(id == t);
        }
    }
    if v {
        keep_holds(a, x, x1, st.next_atom, f);
        let y = comp_f2c(s0, f, pol, g2, a, x1);
        lemma_differ_trans(x, x1, y, a, st.next_atom, s0.next_atom);
        if y(t) != x1(t) {
        }
        y
    } else {
        assert forall|i: int| st.clauses.len() <= i < s1.clauses.len() implies #[trigger] clause_holds(x1, s1.clauses[i]) by {
            assert(prefix_of(g2, s1.clauses[i]));
            assert(s1.clauses[i][g.len() as int] == nt);
        }
        x1
    }
}

proof fn comp_or_item(st: SmtState, f: SExprView, pol: bool, g: Seq<TheoryLit>, a: Seq<AtomView>, x: spec_fn(usize) -> bool) -> (y: spec_fn(usize) -> bool)
    requires
        or_item(st, f, pol, g).1 is Ok,
        prefix_of(or_item(st, f, pol, g).0.atoms, a),
        distinct_ids(a),
        ids_ok(st),
        lits_below(g, st.next_atom),
        no_aux(f),
    ensures
        added_hold(y, st, or_item(st, f, pol, g).0),
        differ_on_aux(x, y, a, st.next_atom),
        or_item(st, f, pol, g).1 == Ok::<OrStep, Seq<char>>(OrStep::Skip) ==> holds(a, x, f) != pol,
        or_item(st, f, pol, g).1 matches Ok(OrStep::Lit(l)) ==> lit_holds(y, l) == (holds(a, x, f) == pol),
    decreases f, 2int,
{
    match f {
        SExprView::Sym(s) => {
            if s != "true"@ && s != "false"@ {
                comp_tseitin(st, f, pol, g, a, x)
            } else {
                x
            }
        },
        SExprView::List(inner) => {
            if inner.len() == 0 {
                comp_tseitin(st, f, pol, g, a, x)
            } else {
                match inner[0] {
                    SExprView::Sym(op) => {
                        lemma_op_words();
                        if op == "="@ {
                            lemma_lit_value(st, term_str(inner[1]), term_str(inner[2]), pol, a, x);
                            x
                        } else if op == "not"@ && inner.len() >= 2 && is_eq_view(inner[1]) {
                            let i2 = inner[1]->List_0;
                            lemma_lit_value(st, term_str(i2[1]), term_str(i2[2]), !pol, a, x);
                            assert(holds(a, x, f) == !holds(a, x, inner[1]));
                            assert(i2[0] == SExprView::Sym("="@));
                            assert(holds(a, x, inner[1]) == (i2.len() >= 3 && eq_holds(a, x, term_str(i2[1]), term_str(i2[2]))));
                            x
                        } else {
                            comp_tseitin(st, f, pol, g, a, x)
                        }
                    },
                    SExprView::List(_) => x,
                }
            }
        },
    }
}

proof fn comp_imp(st: SmtState, items: Seq<SExprView>, g: Seq<TheoryLit>, a: Seq<AtomView>, x: spec_fn(usize) -> bool) -> (y: spec_fn(usize) -> bool)
    requires
        imp_true(st, items, g).1 is Ok,
        prefix_of(imp_true(st, items, g).0.atoms, a),
        distinct_ids(a),
        ids_ok(st),
        lits_below(g, st.next_atom),
        items.len() >= 3,
        no_aux(items[1]),
        no_aux(items[2]),
        !holds(a, x, items[1]) || holds(a, x, items[2]),
    ensures
        added_hold(y, st, imp_true(st, items, g).0),
        differ_on_aux(x, y, a, st.next_atom),
    decreases items, 0int,
{
    lemma_ext_or_item(st, items[1], false, g);
    wf_or_item(st, items[1], false, g);
    let s1 = or_item(st, items[1], false, g).0;
    let fin = imp_true(st, items, g).0;
    match or_item(st, items[1], false, g).1 {
        Ok(OrStep::Stop) => {
            comp_or_item(st, items[1], false, g, a, x)
        },
        Ok(first) => {
            let acc = match first {
                OrStep::Lit(l1) => seq![l1],
                _ => Seq::<TheoryLit>::empty(),
            };
            lemma_ext_or_item(s1, items[2], true, g);
            wf_or_item(s1, items[2], true, g);
            let s2 = or_item(s1, items[2], true, g).0;
            lemma_extends_trans(st, s1, s2);
            assert(prefix_of(s2.atoms, fin.atoms) && extends(s2, fin)) by {
                lemma_ext_imp(st, items, g);
                assert(prefix_of(s2.clauses, s2.clauses) && prefix_of(s2.atoms, s2.atoms));
                match or_item(s1, items[2], true, g).1 {
                    Ok(OrStep::Skip) => { lemma_with_clause(s2, g + acc); },
                    Ok(OrStep::Lit(l2)) => { lemma_with_clause(s2, g + acc.push(l2)); },
                    _ => {},
                }
            }
            lemma_prefix_trans(s2.atoms, fin.atoms, a);
            lemma_prefix_trans(s1.atoms, s2.atoms, a);
            let y1 = comp_or_item(st, items[1], false, g, a, x);
            keep_holds(a, x, y1, st.next_atom, items[2]);
            let y2 = comp_or_item(s1, items[2], true, g, a, y1);
            lemma_added_keep(y1, y2, a, st, s1, s1.next_atom);
            lemma_added_join(y2, st, s1, s2);
            lemma_differ_trans(x, y1, y2, a, st.next_atom, s1.next_atom);
            if let OrStep::Lit(l1) = first {
                assert(acc[0] == l1);
                if y2(l1.atom_id) != y1(l1.atom_id) {
                }
            }
            match or_item(s1, items[2], true, g).1 {
                Ok(OrStep::Skip) => {
                    assert(clause_holds(y2, acc) ==> clause_holds(y2, g + acc)) by {
                        if clause_holds(y2, acc) {
                            lemma_clause_tail_true(y2, g, acc);
                        }
                    }
                    assert(acc[0] == acc[0]);
                    assert(fin.clauses[s2.clauses.len() as int] == g + acc);
                },
                Ok(OrStep::Lit(l2)) => {
                    if first is Lit {
                        assert(acc.push(l2)[0] == acc[0]);
                    }
                    lemma_clause_push_true(y2, acc, l2);
                    lemma_clause_tail_true(y2, g, acc.push(l2));
                    assert(fin.clauses[s2.clauses.len() as int] == g + acc.push(l2));
                },
                _ => {},
            }
            y2
        },
        Err(_) => x,
    }
}

// ── The laws ───────────────────────────────────────────────────────────

/// The clauses of a formula say what the formula says: under any values
/// of the atoms that make every literal of the guard false and satisfy
/// every clause that asserting `e` with polarity `pol` added, `e` takes
/// the value `pol`, read in the atom table of that state or of any state
/// that extends it. So `(not (=> a b))` is only satisfied where `a` holds
/// and `b` does not.
pub proof fn lemma_clauses_give_value(
    st: SmtState,
    e: SExprView,
    pol: bool,
    g: Seq<TheoryLit>,
    a: Seq<AtomView>,
    x: spec_fn(usize) -> bool,
)
    requires
        f2c(st, e, pol, g).1 is Ok,
        prefix_of(f2c(st, e, pol, g).0.atoms, a),
        all_false(x, g),
        added_hold(x, st, f2c(st, e, pol, g).0),
    ensures
        holds(a, x, e) == pol,
{
    sem_f2c(st, e, pol, g, a, x);
}

/// The formula of a command `(assert f)`.
pub open spec fn asserted(e: SExprView) -> Option<SExprView> {
    match e {
        SExprView::List(list) => if list.len() >= 2 && list[0] == SExprView::Sym("assert"@) {
            Some(list[1])
        } else {
            None
        },
        SExprView::Sym(_) => None,
    }
}

/// A command only adds atoms and clauses.
proof fn lemma_ext_command(pv: ParserView, e: SExprView)
    ensures
        extends(pv.smt, command(pv, e).0.smt),
{
    assert(prefix_of(pv.smt.atoms, pv.smt.atoms) && prefix_of(pv.smt.clauses, pv.smt.clauses));
    if let SExprView::List(list) = e {
        if list.len() >= 2 {
            lemma_ext_f2c(pv.smt, list[1], true, seq![]);
        }
    }
}

proof fn lemma_ext_commands(pv: ParserView, exprs: Seq<SExprView>, i: int)
    ensures
        extends(pv.smt, commands(pv, exprs, i).0.smt),
    decreases exprs.len() - i,
{
    assert(prefix_of(pv.smt.atoms, pv.smt.atoms) && prefix_of(pv.smt.clauses, pv.smt.clauses));
    if 0 <= i < exprs.len() {
        lemma_ext_command(pv, exprs[i]);
        let p1 = command(pv, exprs[i]).0;
        if command(pv, exprs[i]).1 is Ok {
            lemma_ext_commands(p1, exprs, i + 1);
            lemma_extends_trans(pv.smt, p1.smt, commands(p1, exprs, i + 1).0.smt);
        }
    }
}

/// An accepted `(assert f)` asserts `f` with polarity `true` and no guard.
proof fn lemma_assert_command(pv: ParserView, e: SExprView)
    requires
        asserted(e) is Some,
        command(pv, e).1 is Ok,
    ensures
        f2c(pv.smt, asserted(e)->Some_0, true, seq![]).1 is Ok,
        command(pv, e).0.smt == f2c(pv.smt, asserted(e)->Some_0, true, seq![]).0,
{
    reveal_strlit("assert");
    reveal_strlit("set-logic");
    reveal_strlit("check-sat");
    reveal_strlit("exit");
    reveal_strlit("declare-const");
    reveal_strlit("declare-fun");
    assert("assert"@.len() == 6 && "set-logic"@.len() == 9 && "check-sat"@.len() == 9 && "exit"@.len() == 4);
    assert("declare-const"@.len() == 13 && "declare-fun"@.len() == 11);
}

proof fn lemma_commands_sound(pv: ParserView, exprs: Seq<SExprView>, i: int, a: Seq<AtomView>, x: spec_fn(usize) -> bool)
    requires
        0 <= i,
        commands(pv, exprs, i).1 is Ok,
        prefix_of(commands(pv, exprs, i).0.smt.atoms, a),
        added_hold(x, pv.smt, commands(pv, exprs, i).0.smt),
    ensures
        forall|j: int| i <= j < exprs.len() && (#[trigger] asserted(exprs[j])) is Some ==> holds(a, x, asserted(exprs[j])->Some_0),
    decreases exprs.len() - i,
{
    if i < exprs.len() {
        lemma_ext_command(pv, exprs[i]);
        let p1 = command(pv, exprs[i]).0;
        lemma_ext_commands(p1, exprs, i + 1);
        let fin = commands(p1, exprs, i + 1).0;
        lemma_prefix_trans(p1.smt.atoms, fin.smt.atoms, a);
        lemma_added_split(x, pv.smt, p1.smt, fin.smt);
        lemma_commands_sound(p1, exprs, i + 1, a, x);
        if asserted(exprs[i]) is Some {
            lemma_assert_command(pv, exprs[i]);
            assert(all_false(x, seq![]));
            sem_f2c(pv.smt, asserted(exprs[i])->Some_0, true, seq![], a, x);
        }
    }
}

/// Whatever satisfies every clause of a parsed formula makes every
/// asserted formula of the input true (each equality read from the atom
/// that states it): the clauses say no more than the assertions.
pub proof fn lemma_parse_sound(pv: ParserView, input: Seq<char>, x: spec_fn(usize) -> bool)
    requires
        smt_parse(pv, input).1 is Ok,
        forall|k: int| 0 <= k < smt_parse(pv, input).1->Ok_0.1.len() ==> #[trigger] clause_holds(x, smt_parse(pv, input).1->Ok_0.1[k]),
    ensures
        forall|j: int| 0 <= j < parse_all_from(tokens_of(input), 0)->Ok_0.len()
            && (#[trigger] asserted(parse_all_from(tokens_of(input), 0)->Ok_0[j])) is Some
            ==> holds(smt_parse(pv, input).1->Ok_0.0, x, asserted(parse_all_from(tokens_of(input), 0)->Ok_0[j])->Some_0),
{
    let exprs = parse_all_from(tokens_of(input), 0)->Ok_0;
    let fin = commands(pv, exprs, 0).0;
    assert(parse_all_from(tokens_of(input), 0) is Ok);
    assert(smt_parse(pv, input).1->Ok_0 == (fin.smt.atoms, fin.smt.clauses));
    assert(prefix_of(fin.smt.atoms, fin.smt.atoms));
    assert(added_hold(x, pv.smt, fin.smt)) by {
        assert forall|i: int| pv.smt.clauses.len() <= i < fin.smt.clauses.len() implies #[trigger] clause_holds(x, fin.smt.clauses[i]) by {
            assert(clause_holds(x, smt_parse(pv, input).1->Ok_0.1[i]));
        }
    }
    lemma_commands_sound(pv, exprs, 0, fin.smt.atoms, x);
}

/// The converse: the clauses ask no more than the formula. From values of
/// the atoms under which `e` has the value `pol`, changing only auxiliary
/// atoms that asserting `e` created gives values that satisfy every clause
/// it added, under which `e` keeps its value. (Symbols of `e` must not be
/// named like auxiliary atoms, `_t…`: such a symbol shares the auxiliary
/// atom of that name.)
pub proof fn lemma_value_gives_clauses(st: SmtState, e: SExprView, pol: bool, g: Seq<TheoryLit>, x: spec_fn(usize) -> bool) -> (y: spec_fn(usize) -> bool)
    requires
        f2c(st, e, pol, g).1 is Ok,
        ids_ok(st),
        lits_below(g, st.next_atom),
        no_aux(e),
        holds(f2c(st, e, pol, g).0.atoms, x, e) == pol,
    ensures
        added_hold(y, st, f2c(st, e, pol, g).0),
        differ_on_aux(x, y, f2c(st, e, pol, g).0.atoms, st.next_atom),
        holds(f2c(st, e, pol, g).0.atoms, y, e) == pol,
{
    let a = f2c(st, e, pol, g).0.atoms;
    wf_f2c(st, e, pol, g);
    assert(prefix_of(a, a));
    let y = comp_f2c(st, e, pol, g, a, x);
    keep_holds(a, x, y, st.next_atom, e);
    y
}

/// A command that asserts nothing leaves the atoms and clauses alone.
proof fn lemma_other_command(pv: ParserView, e: SExprView)
    requires
        asserted(e) is None,
        command(pv, e).1 is Ok,
    ensures
        command(pv, e).0.smt == pv.smt,
{
}

proof fn lemma_commands_complete(pv: ParserView, exprs: Seq<SExprView>, i: int, a: Seq<AtomView>, x: spec_fn(usize) -> bool) -> (y: spec_fn(usize) -> bool)
    requires
        0 <= i,
        commands(pv, exprs, i).1 is Ok,
        prefix_of(commands(pv, exprs, i).0.smt.atoms, a),
        distinct_ids(a),
        ids_ok(pv.smt),
        forall|j: int| i <= j < exprs.len() && (#[trigger] asserted(exprs[j])) is Some
            ==> no_aux(asserted(exprs[j])->Some_0) && holds(a, x, asserted(exprs[j])->Some_0),
    ensures
        added_hold(y, pv.smt, commands(pv, exprs, i).0.smt),
        differ_on_aux(x, y, a, pv.smt.next_atom),
    decreases exprs.len() - i,
{
    if i < exprs.len() {
        lemma_ext_command(pv, exprs[i]);
        let p1 = command(pv, exprs[i]).0;
        lemma_ext_commands(p1, exprs, i + 1);
        let fin = commands(p1, exprs, i + 1).0;
        lemma_prefix_trans(p1.smt.atoms, fin.smt.atoms, a);
        let y1 = if asserted(exprs[i]) is Some {
            lemma_assert_command(pv, exprs[i]);
            let f = asserted(exprs[i])->Some_0;
            assert(lits_below(seq![], pv.smt.next_atom));
            wf_f2c(pv.smt, f, true, seq![]);
            comp_f2c(pv.smt, f, true, seq![], a, x)
        } else {
            lemma_other_command(pv, exprs[i]);
            x
        };
        assert(ids_ok(p1.smt) && pv.smt.next_atom <= p1.smt.next_atom && added_hold(y1, pv.smt, p1.smt));
        assert forall|j: int| i + 1 <= j < exprs.len() && (#[trigger] asserted(exprs[j])) is Some
            implies no_aux(asserted(exprs[j])->Some_0) && holds(a, y1, asserted(exprs[j])->Some_0) by {
            keep_holds(a, x, y1, pv.smt.next_atom, asserted(exprs[j])->Some_0);
        }
        let y2 = lemma_commands_complete(p1, exprs, i + 1, a, y1);
        lemma_added_keep(y1, y2, a, pv.smt, p1.smt, p1.smt.next_atom);
        lemma_added_join(y2, pv.smt, p1.smt, fin.smt);
        lemma_differ_trans(x, y1, y2, a, pv.smt.next_atom, p1.smt.next_atom);
        y2
    } else {
        x
    }
}

/// The clauses of a parsed input are satisfiable exactly as far as its
/// assertions are: from values of the atoms that make every asserted
/// formula true, changing only auxiliary atoms created by the parse gives
/// values that satisfy every clause the parse added. (No symbol of an
/// asserted formula may be named like an auxiliary atom, `_t…`.)
pub proof fn lemma_parse_complete(pv: ParserView, input: Seq<char>, x: spec_fn(usize) -> bool) -> (y: spec_fn(usize) -> bool)
    requires
        smt_parse(pv, input).1 is Ok,
        ids_ok(pv.smt),
        forall|j: int| 0 <= j < parse_all_from(tokens_of(input), 0)->Ok_0.len()
            && (#[trigger] asserted(parse_all_from(tokens_of(input), 0)->Ok_0[j])) is Some
            ==> no_aux(asserted(parse_all_from(tokens_of(input), 0)->Ok_0[j])->Some_0)
                && holds(smt_parse(pv, input).1->Ok_0.0, x, asserted(parse_all_from(tokens_of(input), 0)->Ok_0[j])->Some_0),
    ensures
        forall|k: int| pv.smt.clauses.len() <= k < smt_parse(pv, input).1->Ok_0.1.len()
            ==> #[trigger] clause_holds(y, smt_parse(pv, input).1->Ok_0.1[k]),
        differ_on_aux(x, y, smt_parse(pv, input).1->Ok_0.0, pv.smt.next_atom),
{
    let exprs = parse_all_from(tokens_of(input), 0)->Ok_0;
    let fin = commands(pv, exprs, 0).0;
    assert(parse_all_from(tokens_of(input), 0) is Ok);
    assert(smt_parse(pv, input).1->Ok_0 == (fin.smt.atoms, fin.smt.clauses));
    lemma_wf_commands(pv, exprs, 0);
    assert(prefix_of(fin.smt.atoms, fin.smt.atoms));
    let y = lemma_commands_complete(pv, exprs, 0, fin.smt.atoms, x);
    assert forall|k: int| pv.smt.clauses.len() <= k < smt_parse(pv, input).1->Ok_0.1.len()
        implies #[trigger] clause_holds(y, smt_parse(pv, input).1->Ok_0.1[k]) by {
        assert(clause_holds(y, fin.smt.clauses[k]));
    }
    y
}

/// Accepted commands keep the ids apart.
proof fn lemma_wf_commands(pv: ParserView, exprs: Seq<SExprView>, i: int)
    requires
        ids_ok(pv.smt),
        commands(pv, exprs, i).1 is Ok,
    ensures
        ids_ok(commands(pv, exprs, i).0.smt),
    decreases exprs.len() - i,
{
    if 0 <= i < exprs.len() {
        let p1 = command(pv, exprs[i]).0;
        if asserted(exprs[i]) is Some {
            lemma_assert_command(pv, exprs[i]);
            assert(lits_below(seq![], pv.smt.next_atom));
            wf_f2c(pv.smt, asserted(exprs[i])->Some_0, true, seq![]);
        } else {
            lemma_other_command(pv, exprs[i]);
        }
        lemma_wf_commands(p1, exprs, i + 1);
    }
}
} // verus!
