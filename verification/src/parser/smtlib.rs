//! SMT-LIB format parser for QF_UF.
//!
//! Supports a subset of the SMT-LIB 2.x standard:
//!
//! ```text
//! (set-logic QF_UF)
//! (declare-const a Bool)
//! (declare-fun f (Bool) Bool)
//! (assert (= (f a) b))
//! (check-sat)
//! (exit)
//! ```
use vstd::prelude::*;
use crate::parser::ParseResult;
use crate::parser::text::{chars_of, is_ws, is_ws_char, string_of, decimal, push_decimal, text_eq};
use crate::linear::display::join;
use crate::smt::{AtomKind, AtomRecord, Formula, TheoryLit};

verus! {

// ── S-expressions ────────────────────────────────────────────────────

/// An S-expression: a symbol or a parenthesised list.
#[derive(Debug)]
pub enum SExpr {
    Symbol(String),
    List(Vec<SExpr>),
}

/// An S-expression as a mathematical value.
pub enum SExprView {
    Sym(Seq<char>),
    List(Seq<SExprView>),
}

/// The value of an S-expression.
pub open spec fn sexpr_view(e: SExpr) -> SExprView
    decreases e,
{
    match e {
        SExpr::Symbol(s) => SExprView::Sym(s@),
        SExpr::List(v) => SExprView::List(Seq::new(v@.len(), |i: int|
            if 0 <= i < v@.len() { sexpr_view(v@[i]) } else { SExprView::Sym(seq![]) }
        )),
    }
}

/// The values of a list of S-expressions.
pub open spec fn sexprs_view(v: Seq<SExpr>) -> Seq<SExprView> {
    Seq::new(v.len(), |i: int| sexpr_view(v[i]))
}

proof fn lemma_list_view(v: Vec<SExpr>)
    ensures
        sexpr_view(SExpr::List(v)) == SExprView::List(sexprs_view(v@)),
{
    let e = SExpr::List(v);
    assert(sexpr_view(e) is List);
    let b = sexpr_view(e)->List_0;
    assert(b.len() == v@.len());
    assert forall|i: int| 0 <= i < b.len() implies b[i] == sexprs_view(v@)[i] by {}
    assert(b =~= sexprs_view(v@));
}

// ── Tokenizer ────────────────────────────────────────────────────────

/// The tokenizer's state: the finished tokens, the token in progress, and
/// whether a comment is open.
pub type TokScan = (Seq<Seq<char>>, Seq<char>, bool);

/// `toks` with `cur` appended when it is not empty.
pub open spec fn flush(toks: Seq<Seq<char>>, cur: Seq<char>) -> Seq<Seq<char>> {
    if cur.len() > 0 {
        toks.push(cur)
    } else {
        toks
    }
}

/// One character of tokenizing. A `;` ends the token and opens a comment
/// up to the next newline; a newline closes the comment and, like any white
/// space, ends the token; parentheses are tokens of their own; white space ends a token; a
/// `"` ends the token and starts a new one with the quote.
pub open spec fn tok_step(st: TokScan, c: char) -> TokScan {
    if c == ';' {
        (flush(st.0, st.1), seq![], true)
    } else if c == '\n' {
        if st.2 {
            (st.0, st.1, false)
        } else {
            (flush(st.0, st.1), seq![], false)
        }
    } else if st.2 {
        st
    } else if c == '(' || c == ')' {
        (flush(st.0, st.1).push(seq![c]), seq![], false)
    } else if is_ws(c) {
        (flush(st.0, st.1), seq![], false)
    } else if c == '"' {
        (flush(st.0, st.1), seq!['"'], false)
    } else {
        (st.0, st.1.push(c), false)
    }
}

/// Tokenizing `s` character by character.
pub open spec fn tok_scan(s: Seq<char>) -> TokScan
    decreases s.len(),
{
    if s.len() == 0 {
        (seq![], seq![], false)
    } else {
        tok_step(tok_scan(s.drop_last()), s.last())
    }
}

/// The tokens of `s`.
pub open spec fn tokens_of(s: Seq<char>) -> Seq<Seq<char>> {
    flush(tok_scan(s).0, tok_scan(s).1)
}

/// The tokens as character sequences.
pub open spec fn toks_view(v: Seq<String>) -> Seq<Seq<char>> {
    v.map_values(|t: String| t@)
}

/// A string of one character from a literal.
fn paren_str(c: char) -> (s: String)
    requires
        c == '(' || c == ')',
    ensures
        s@ == seq![c],
{
    proof {
        reveal_strlit("(");
        reveal_strlit(")");
    }
    if c == '(' {
        String::from_str("(")
    } else {
        String::from_str(")")
    }
}

/// Split SMT-LIB text into tokens.
pub fn tokenize(input: &str) -> (r: ParseResult<Vec<String>>)
    ensures
        r matches Ok(v) && toks_view(v@) == tokens_of(input@),
{
    let chars = chars_of(input);
    let ghost s = input@;
    let mut tokens: Vec<String> = Vec::new();
    // The token in progress is `cur` followed by `chars[seg..i]` when a run is open.
    let mut cur = String::new();
    let mut seg: Option<usize> = None;
    let mut in_comment = false;
    let mut i: usize = 0;
    assert(s.take(0) =~= seq![]);
    while i < chars.len()
        invariant
            chars@ == s,
            s == input@,
            i <= s.len(),
            seg matches Some(k) ==> k < i,
            toks_view(tokens@) == tok_scan(s.take(i as int)).0,
            cur@ + (if let Some(k) = seg { s.subrange(k as int, i as int) } else { seq![] }) == tok_scan(s.take(i as int)).1,
            in_comment == tok_scan(s.take(i as int)).2,
            in_comment ==> seg is None,
        decreases s.len() - i,
    {
        let c = chars[i];
        let ghost pre = tok_scan(s.take(i as int));
        assert(s.take(i as int + 1).drop_last() =~= s.take(i as int));
        assert(s.take(i as int + 1).last() == c);
        let ghost pending = cur@ + (if let Some(k) = seg { s.subrange(k as int, i as int) } else { seq![] });
        let extends = c != ';' && c != '\n' && !in_comment && c != '(' && c != ')' && !is_ws_char(c) && c != '"';
        if extends {
            if seg.is_none() {
                seg = Some(i);
            }
            proof {
                let k = seg->0;
                assert(cur@ + s.subrange(k as int, i as int + 1) =~= pending.push(c)) by {
                    assert(s.subrange(k as int, i as int + 1) =~= s.subrange(k as int, i as int).push(c));
                }
            }
        } else {
            // Close the open run, if any.
            if let Some(k) = seg {
                let piece = string_of(input, k, i);
                cur.append(piece.as_str());
                seg = None;
            }
            assert(cur@ == pending);
            if c == ';' {
                if !cur.as_str().is_empty() {
                    tokens.push(cur);
                }
                cur = String::new();
                in_comment = true;
            } else if c == '\n' {
                if !in_comment {
                    if !cur.as_str().is_empty() {
                        tokens.push(cur);
                    }
                    cur = String::new();
                }
                in_comment = false;
            } else if in_comment {
            } else if c == '(' || c == ')' {
                if !cur.as_str().is_empty() {
                    tokens.push(cur);
                }
                tokens.push(paren_str(c));
                cur = String::new();
            } else if is_ws_char(c) {
                if !cur.as_str().is_empty() {
                    tokens.push(cur);
                }
                cur = String::new();
            } else {
                if !cur.as_str().is_empty() {
                    tokens.push(cur);
                }
                cur = String::new();
                seg = Some(i);
            }
            proof {
                if c == '"' && !pre.2 && c != ';' && c != '\n' {
                    assert(s.subrange(i as int, i as int + 1) =~= seq!['"']);
                }
            }
        }
        i = i + 1;
        proof {
            assert(toks_view(tokens@) =~= tok_scan(s.take(i as int)).0);
        }
    }
    assert(s.take(i as int) =~= s);
    if let Some(k) = seg {
        let piece = string_of(input, k, i);
        cur.append(piece.as_str());
    }
    if !cur.as_str().is_empty() {
        tokens.push(cur);
    }
    assert(toks_view(tokens@) =~= tokens_of(s));
    Ok(tokens)
}

// ── S-expression parser ──────────────────────────────────────────────

/// Reading one S-expression from the tokens `t` at `pos`: the expression
/// and the position after it, or the error message.
pub open spec fn parse_at(t: Seq<Seq<char>>, pos: int) -> Result<(SExprView, int), Seq<char>>
    decreases t.len() - pos, 0int,
{
    if pos < 0 || pos >= t.len() {
        Err("unexpected end of input"@)
    } else if t[pos] == seq!['('] {
        match parse_items(t, pos + 1) {
            Ok((items, p)) => Ok((SExprView::List(items), p)),
            Err(m) => Err(m),
        }
    } else if t[pos] == seq![')'] {
        Err("unexpected ')"@)
    } else {
        Ok((SExprView::Sym(t[pos]), pos + 1))
    }
}

/// Reading the items of a list from `pos` up to and including its `)`.
pub open spec fn parse_items(t: Seq<Seq<char>>, pos: int) -> Result<(Seq<SExprView>, int), Seq<char>>
    decreases t.len() - pos, 1int,
{
    if pos < 0 || pos >= t.len() {
        Err("unclosed parenthesis"@)
    } else if t[pos] == seq![')'] {
        Ok((seq![], pos + 1))
    } else {
        match parse_at(t, pos) {
            Err(m) => Err(m),
            Ok((x, p)) => if pos < p <= t.len() {
                match parse_items(t, p) {
                    Ok((rest, q)) => Ok((seq![x] + rest, q)),
                    Err(m) => Err(m),
                }
            } else {
                Err("unclosed parenthesis"@)
            },
        }
    }
}

/// Reading S-expressions from `pos` to the end of the tokens.
pub open spec fn parse_all_from(t: Seq<Seq<char>>, pos: int) -> Result<Seq<SExprView>, Seq<char>>
    decreases t.len() - pos,
{
    if pos < 0 || pos >= t.len() {
        Ok(seq![])
    } else {
        match parse_at(t, pos) {
            Err(m) => Err(m),
            Ok((x, p)) => if pos < p <= t.len() {
                match parse_all_from(t, p) {
                    Ok(rest) => Ok(seq![x] + rest),
                    Err(m) => Err(m),
                }
            } else {
                Ok(seq![])
            },
        }
    }
}

/// Whether the token is the one character `c`.
fn is_char_tok(s: &String, c: char) -> (b: bool)
    ensures
        b == (s@ == seq![c]),
{
    let t = s.as_str();
    if t.unicode_len() != 1 {
        return false;
    }
    let d = t.get_char(0);
    if d == c {
        assert(s@ =~= seq![c]);
        true
    } else {
        false
    }
}

/// Read one S-expression from `tokens` at `pos`; on success also the
/// position after it.
pub fn parse_sexpr(tokens: &Vec<String>, pos: usize) -> (r: ParseResult<(SExpr, usize)>)
    ensures
        match r {
            Ok((e, p)) => parse_at(toks_view(tokens@), pos as int) == Ok::<(SExprView, int), Seq<char>>((sexpr_view(e), p as int))
                && pos < p <= tokens@.len(),
            Err(m) => parse_at(toks_view(tokens@), pos as int) == Err::<(SExprView, int), Seq<char>>(m@),
        },
    decreases tokens@.len() - pos,
{
    let ghost t = toks_view(tokens@);
    if pos >= tokens.len() {
        return Err(String::from_str("unexpected end of input"));
    }
    let token = &tokens[pos];
    assert(t[pos as int] == token@);
    if is_char_tok(token, '(') {
        let mut items: Vec<SExpr> = Vec::new();
        let mut p: usize = pos + 1;
        loop
            invariant
                pos < p <= tokens@.len(),
                t == toks_view(tokens@),
                t[pos as int] == seq!['('],
                parse_items(t, pos + 1) == match parse_items(t, p as int) {
                    Ok((rest, q)) => Ok((sexprs_view(items@) + rest, q)),
                    Err(m) => Err::<(Seq<SExprView>, int), Seq<char>>(m),
                },
            ensures
                pos < p <= tokens@.len(),
                p == tokens@.len() || t[p as int] == seq![')'],
                parse_items(t, pos + 1) == match parse_items(t, p as int) {
                    Ok((rest, q)) => Ok((sexprs_view(items@) + rest, q)),
                    Err(m) => Err::<(Seq<SExprView>, int), Seq<char>>(m),
                },
            decreases tokens@.len() - p,
        {
            if p >= tokens.len() {
                break;
            }
            assert(t[p as int] == tokens@[p as int]@);
            if is_char_tok(&tokens[p], ')') {
                break;
            }
            match parse_sexpr(tokens, p) {
                Ok((e, np)) => {
                    proof {
                        let a = sexprs_view(items@);
                        let b = sexprs_view(items@.push(e));
                        assert(b =~= a + seq![sexpr_view(e)]);
                        match parse_items(t, np as int) {
                            Ok((rest, q)) => {
                                assert(a + (seq![sexpr_view(e)] + rest) =~= b + rest);
                            },
                            Err(m) => {},
                        }
                    }
                    items.push(e);
                    p = np;
                },
                Err(m) => {
                    return Err(m);
                },
            }
        }
        if p >= tokens.len() {
            return Err(String::from_str("unclosed parenthesis"));
        }
        proof {
            lemma_list_view(items);
            assert(sexprs_view(items@) + seq![] =~= sexprs_view(items@));
        }
        Ok((SExpr::List(items), p + 1))
    } else if is_char_tok(token, ')') {
        Err(String::from_str("unexpected ')"))
    } else {
        Ok((SExpr::Symbol(token.clone()), pos + 1))
    }
}

/// Read all S-expressions of `tokens`.
pub fn parse_all(tokens: &Vec<String>) -> (r: ParseResult<Vec<SExpr>>)
    ensures
        match r {
            Ok(v) => parse_all_from(toks_view(tokens@), 0) == Ok::<Seq<SExprView>, Seq<char>>(sexprs_view(v@)),
            Err(m) => parse_all_from(toks_view(tokens@), 0) == Err::<Seq<SExprView>, Seq<char>>(m@),
        },
{
    let ghost t = toks_view(tokens@);
    let mut exprs: Vec<SExpr> = Vec::new();
    let mut pos: usize = 0;
    while pos < tokens.len()
        invariant
            pos <= tokens@.len(),
            t == toks_view(tokens@),
            parse_all_from(t, 0) == match parse_all_from(t, pos as int) {
                Ok(rest) => Ok(sexprs_view(exprs@) + rest),
                Err(m) => Err::<Seq<SExprView>, Seq<char>>(m),
            },
        decreases tokens@.len() - pos,
    {
        match parse_sexpr(tokens, pos) {
            Ok((e, np)) => {
                proof {
                    let a = sexprs_view(exprs@);
                    let b = sexprs_view(exprs@.push(e));
                    assert(b =~= a + seq![sexpr_view(e)]);
                    match parse_all_from(t, np as int) {
                        Ok(rest) => {
                            assert(a + (seq![sexpr_view(e)] + rest) =~= b + rest);
                        },
                        Err(m) => {},
                    }
                }
                exprs.push(e);
                pos = np;
            },
            Err(m) => {
                return Err(m);
            },
        }
    }
    assert(sexprs_view(exprs@) + seq![] =~= sexprs_view(exprs@));
    Ok(exprs)
}

// ── Model of the command processor ───────────────────────────────────

/// An atom as a value: its id, whether it is an equality (or else a
/// disequality), and its two sides.
pub struct AtomView {
    pub id: usize,
    pub eq: bool,
    pub lhs: Seq<char>,
    pub rhs: Seq<char>,
}

/// The value of an atom record.
pub open spec fn atom_view(a: AtomRecord) -> AtomView {
    match a.kind {
        AtomKind::Eq { lhs, rhs } => AtomView { id: a.id, eq: true, lhs: lhs@, rhs: rhs@ },
        AtomKind::Neq { lhs, rhs } => AtomView { id: a.id, eq: false, lhs: lhs@, rhs: rhs@ },
    }
}

/// The atoms, clauses and atom counter that assertions build up.
pub struct SmtState {
    pub atoms: Seq<AtomView>,
    pub clauses: Seq<Seq<TheoryLit>>,
    pub next_atom: usize,
}

/// A declaration as a value: its argument sorts and its result sort.
pub struct DeclView {
    pub args: Seq<Seq<char>>,
    pub sort: Seq<char>,
}

/// The whole parser state: the declarations by name and the formula so far.
pub struct ParserView {
    pub decls: Map<Seq<char>, DeclView>,
    pub smt: SmtState,
}

/// What one disjunct of a disjunction contributes.
#[derive(Debug, Clone, Copy)]
pub enum OrStep {
    /// The disjunct is `true`: the whole `or` holds and adds no clause.
    Stop,
    /// The disjunct is `false`: it adds no literal.
    Skip,
    /// The disjunct adds this literal.
    Lit(TheoryLit),
}

/// The error once every atom id has been used.
pub open spec fn too_many_msg() -> Seq<char> {
    "too many atoms"@
}

/// Whether no atom id is left.
pub open spec fn ids_exhausted(st: SmtState) -> bool {
    st.next_atom == usize::MAX
}

/// The state with a new atom under the next id.
pub open spec fn with_atom(st: SmtState, eq: bool, lhs: Seq<char>, rhs: Seq<char>) -> SmtState {
    SmtState {
        atoms: st.atoms.push(AtomView { id: st.next_atom, eq, lhs, rhs }),
        clauses: st.clauses,
        next_atom: (st.next_atom + 1) as usize,
    }
}

/// The state with one more clause.
pub open spec fn with_clause(st: SmtState, c: Seq<TheoryLit>) -> SmtState {
    SmtState { atoms: st.atoms, clauses: st.clauses.push(c), next_atom: st.next_atom }
}

/// The text of the parts of a list term.
pub open spec fn term_parts(items: Seq<SExprView>) -> Seq<Seq<char>>
    decreases items,
{
    Seq::new(items.len(), |i: int| if 0 <= i < items.len() { term_str(items[i]) } else { seq![] })
}

/// The text of a term: a symbol, or `(` its parts joined by spaces `)`.
pub open spec fn term_str(e: SExprView) -> Seq<char>
    decreases e,
{
    match e {
        SExprView::Sym(s) => s,
        SExprView::List(items) => seq!['('] + join(term_parts(items), seq![' ']) + seq![')'],
    }
}

/// Whether atom `a` is the equality of `lhs` and `rhs`, in either order.
pub open spec fn same_eq(a: AtomView, lhs: Seq<char>, rhs: Seq<char>) -> bool {
    a.eq && ((a.lhs == lhs && a.rhs == rhs) || (a.lhs == rhs && a.rhs == lhs))
}

/// The first index from `k` on of an atom that is this equality.
pub open spec fn find_eq_from(atoms: Seq<AtomView>, k: int, lhs: Seq<char>, rhs: Seq<char>) -> Option<int>
    decreases atoms.len() - k,
{
    if k < 0 || k >= atoms.len() {
        None
    } else if same_eq(atoms[k], lhs, rhs) {
        Some(k)
    } else {
        find_eq_from(atoms, k + 1, lhs, rhs)
    }
}

/// The literal of the equality of `lhs` and `rhs` with the given sign,
/// reusing an atom that states it already.
pub open spec fn eq_lit(st: SmtState, lhs: Seq<char>, rhs: Seq<char>, sign: bool) -> (SmtState, Result<TheoryLit, Seq<char>>) {
    match find_eq_from(st.atoms, 0, lhs, rhs) {
        Some(k) => (st, Ok(TheoryLit { atom_id: st.atoms[k].id, sign })),
        None => if ids_exhausted(st) {
            (st, Err(too_many_msg()))
        } else {
            (with_atom(st, true, lhs, rhs), Ok(TheoryLit { atom_id: st.next_atom, sign }))
        },
    }
}

/// The literal of the equality `(= l r ...)` with the given sign, reusing an
/// atom that states it already.
pub open spec fn make_eq(st: SmtState, list: Seq<SExprView>, sign: bool) -> (SmtState, Result<TheoryLit, Seq<char>>) {
    if list.len() < 3 {
        (st, Err("=: too few args"@))
    } else {
        eq_lit(st, term_str(list[1]), term_str(list[2]), sign)
    }
}

/// A Boolean term `name` as the atom `name = true`, one atom per term, and
/// the clause `g ∨ name = true` (or `g ∨ ¬(name = true)` when negated).
pub open spec fn bare_atom(st: SmtState, name: Seq<char>, pol: bool, g: Seq<TheoryLit>) -> (SmtState, Result<Seq<TheoryLit>, Seq<char>>) {
    match eq_lit(st, name, "true"@, pol) {
        (s1, Ok(l)) => (with_clause(s1, g.push(l)), Ok(seq![l])),
        (s1, Err(m)) => (s1, Err(m)),
    }
}

/// The state with a fresh auxiliary atom `_t<id> = true`.
pub open spec fn with_tseitin(st: SmtState) -> SmtState {
    with_atom(st, true, "_t"@ + decimal(st.next_atom as nat), "true"@)
}

/// The clause `g ∨ acc` of a disjunction none of whose disjuncts is true
/// (just `g` when every disjunct is false).
pub open spec fn or_finish(st: SmtState, acc: Seq<TheoryLit>, g: Seq<TheoryLit>) -> SmtState {
    with_clause(st, g + acc)
}

/// Whether `e` is a list whose head is the symbol `=`.
pub open spec fn is_eq_view(e: SExprView) -> bool {
    e matches SExprView::List(items) && items.len() > 0 && items[0] == SExprView::Sym("="@)
}

/// The literals `f` gives when asserted with polarity `pol` under the guard
/// `g`, with the atoms and clauses it adds: each clause of `f` is added as
/// `g ∨ clause`, so it binds only when every literal of `g` is false.
pub open spec fn f2c(st: SmtState, e: SExprView, pol: bool, g: Seq<TheoryLit>) -> (SmtState, Result<Seq<TheoryLit>, Seq<char>>)
    decreases e, 0int,
{
    match e {
        SExprView::Sym(s) => if s == "true"@ {
            if pol {
                (st, Ok(seq![]))
            } else {
                (with_clause(st, g), Ok(seq![]))
            }
        } else if s == "false"@ {
            if !pol {
                (st, Ok(seq![]))
            } else {
                (with_clause(st, g), Ok(seq![]))
            }
        } else {
            bare_atom(st, s, pol, g)
        },
        SExprView::List(items) => if items.len() == 0 {
            if ids_exhausted(st) {
                (st, Err(too_many_msg()))
            } else {
                (SmtState { next_atom: (st.next_atom + 1) as usize, ..st }, Err("expected symbol"@))
            }
        } else {
            match items[0] {
                SExprView::List(_) => (st, Err("expected symbol"@)),
                SExprView::Sym(op) => if op == "not"@ {
                    if items.len() < 2 {
                        (st, Err("not: too few args"@))
                    } else {
                        f2c(st, items[1], !pol, g)
                    }
                } else if op == "and"@ {
                    if pol {
                        and_fold(st, items, 1, true, g)
                    } else {
                        or_fold(st, items, 1, seq![], false, g)
                    }
                } else if op == "or"@ {
                    if pol {
                        or_fold(st, items, 1, seq![], true, g)
                    } else {
                        and_fold(st, items, 1, false, g)
                    }
                } else if op == "=>"@ {
                    if items.len() < 3 {
                        (st, Err("=>: too few args"@))
                    } else if pol {
                        imp_true(st, items, g)
                    } else {
                        match f2c(st, items[1], true, g) {
                            (s1, Err(m)) => (s1, Err(m)),
                            (s1, Ok(_)) => match f2c(s1, items[2], false, g) {
                                (s2, Err(m)) => (s2, Err(m)),
                                (s2, Ok(_)) => (s2, Ok(seq![])),
                            },
                        }
                    }
                } else if op == "="@ {
                    match make_eq(st, items, pol) {
                        (s1, Ok(l)) => (with_clause(s1, g.push(l)), Ok(seq![l])),
                        (s1, Err(m)) => (s1, Err(m)),
                    }
                } else {
                    bare_atom(st, term_str(e), pol, g)
                },
            }
        },
    }
}

/// Asserting `items[i..]` one after the other with polarity `pol` under
/// the guard `g`.
pub open spec fn and_fold(st: SmtState, items: Seq<SExprView>, i: int, pol: bool, g: Seq<TheoryLit>) -> (SmtState, Result<Seq<TheoryLit>, Seq<char>>)
    decreases items, items.len() - i,
{
    if i < 0 || i >= items.len() {
        (st, Ok(seq![]))
    } else {
        match f2c(st, items[i], pol, g) {
            (s1, Err(m)) => (s1, Err(m)),
            (s1, Ok(_)) => and_fold(s1, items, i + 1, pol, g),
        }
    }
}

/// The disjuncts `items[i..]`, each taken with polarity `pol` (a positive
/// `or`, or a negated `and`), under the guard `g`, with the literals `acc`
/// gathered so far.
pub open spec fn or_fold(st: SmtState, items: Seq<SExprView>, i: int, acc: Seq<TheoryLit>, pol: bool, g: Seq<TheoryLit>) -> (SmtState, Result<Seq<TheoryLit>, Seq<char>>)
    decreases items, items.len() - i,
{
    if i < 0 || i >= items.len() {
        (or_finish(st, acc, g), Ok(seq![]))
    } else {
        match or_item(st, items[i], pol, g) {
            (s1, Err(m)) => (s1, Err(m)),
            (s1, Ok(OrStep::Stop)) => (s1, Ok(seq![])),
            (s1, Ok(OrStep::Skip)) => or_fold(s1, items, i + 1, acc, pol, g),
            (s1, Ok(OrStep::Lit(l))) => or_fold(s1, items, i + 1, acc.push(l), pol, g),
        }
    }
}

/// A complex disjunct: a fresh auxiliary atom `t`, whose literal stands for
/// the disjunct in the clause, and the disjunct asserted with polarity `pol`
/// under the guard `g ∨ ¬t`, so that `t` implies it.
pub open spec fn tseitin_item(st: SmtState, f: SExprView, pol: bool, g: Seq<TheoryLit>) -> (SmtState, Result<TheoryLit, Seq<char>>)
    decreases f, 1int,
{
    if ids_exhausted(st) {
        (st, Err(too_many_msg()))
    } else {
        match f2c(with_tseitin(st), f, pol, g.push(TheoryLit { atom_id: st.next_atom, sign: false })) {
            (s1, Err(m)) => (s1, Err(m)),
            (s1, Ok(_)) => (s1, Ok(TheoryLit { atom_id: st.next_atom, sign: true })),
        }
    }
}

/// One disjunct `f`, taken with polarity `pol`, under the guard `g`: a
/// disjunct that is true ends the disjunction, one that is false adds
/// nothing, an equality (or a negated one) adds its literal, and anything
/// else adds an auxiliary literal that implies it.
pub open spec fn or_item(st: SmtState, f: SExprView, pol: bool, g: Seq<TheoryLit>) -> (SmtState, Result<OrStep, Seq<char>>)
    decreases f, 2int,
{
    let via_aux = match tseitin_item(st, f, pol, g) {
        (s1, Ok(l)) => (s1, Ok(OrStep::Lit(l))),
        (s1, Err(m)) => (s1, Err(m)),
    };
    match f {
        SExprView::Sym(s) => if s == "true"@ {
            (st, Ok(if pol { OrStep::Stop } else { OrStep::Skip }))
        } else if s == "false"@ {
            (st, Ok(if pol { OrStep::Skip } else { OrStep::Stop }))
        } else {
            via_aux
        },
        SExprView::List(inner) => if inner.len() == 0 {
            via_aux
        } else {
            match inner[0] {
                SExprView::List(_) => (st, Err("expected symbol"@)),
                SExprView::Sym(op) => if op == "="@ {
                    match make_eq(st, inner, pol) {
                        (s1, Ok(l)) => (s1, Ok(OrStep::Lit(l))),
                        (s1, Err(m)) => (s1, Err(m)),
                    }
                } else if op == "not"@ && inner.len() >= 2 && is_eq_view(inner[1]) {
                    match make_eq(st, inner[1]->List_0, !pol) {
                        (s1, Ok(l)) => (s1, Ok(OrStep::Lit(l))),
                        (s1, Err(m)) => (s1, Err(m)),
                    }
                } else {
                    via_aux
                },
            }
        },
    }
}

/// A positive `(=> a b)` under the guard `g`: the disjunction of `(not a)`
/// and `b`.
pub open spec fn imp_true(st: SmtState, items: Seq<SExprView>, g: Seq<TheoryLit>) -> (SmtState, Result<Seq<TheoryLit>, Seq<char>>)
    decreases items, 0int,
{
    if items.len() < 3 {
        (st, Err("=>: too few args"@))
    } else {
        match or_item(st, items[1], false, g) {
            (s1, Err(m)) => (s1, Err(m)),
            (s1, Ok(OrStep::Stop)) => (s1, Ok(seq![])),
            (s1, Ok(first)) => {
                let acc = match first {
                    OrStep::Lit(l1) => seq![l1],
                    _ => Seq::<TheoryLit>::empty(),
                };
                match or_item(s1, items[2], true, g) {
                    (s2, Err(m)) => (s2, Err(m)),
                    (s2, Ok(OrStep::Stop)) => (s2, Ok(seq![])),
                    (s2, Ok(OrStep::Skip)) => (or_finish(s2, acc, g), Ok(seq![])),
                    (s2, Ok(OrStep::Lit(l2))) => (or_finish(s2, acc.push(l2), g), Ok(seq![])),
                }
            },
        }
    }
}

/// Whether every item is a symbol.
pub open spec fn all_syms(items: Seq<SExprView>) -> bool {
    forall|i: int| 0 <= i < items.len() ==> #[trigger] items[i] is Sym
}

/// The names of symbols.
pub open spec fn sym_names(items: Seq<SExprView>) -> Seq<Seq<char>> {
    Seq::new(items.len(), |i: int| match items[i] {
        SExprView::Sym(s) => s,
        SExprView::List(_) => seq![],
    })
}

/// One top-level command: the new state and whether it was accepted.
pub open spec fn command(pv: ParserView, e: SExprView) -> (ParserView, Result<(), Seq<char>>) {
    match e {
        SExprView::Sym(_) => (pv, Err("expected list at top level"@)),
        SExprView::List(list) => if list.len() == 0 {
            (pv, Ok(()))
        } else {
            match list[0] {
                SExprView::List(_) => (pv, Err("expected symbol"@)),
                SExprView::Sym(cmd) => if cmd == "set-logic"@ || cmd == "check-sat"@ || cmd == "exit"@ {
                    (pv, Ok(()))
                } else if cmd == "declare-const"@ {
                    if list.len() < 3 {
                        (pv, Err("declare-const: too few args"@))
                    } else {
                        match (list[1], list[2]) {
                            (SExprView::Sym(name), SExprView::Sym(sort)) => (
                                ParserView { decls: pv.decls.insert(name, DeclView { args: seq![], sort }), smt: pv.smt },
                                Ok(()),
                            ),
                            _ => (pv, Err("expected symbol"@)),
                        }
                    }
                } else if cmd == "declare-fun"@ {
                    if list.len() < 4 {
                        (pv, Err("declare-fun: too few args"@))
                    } else {
                        match list[1] {
                            SExprView::List(_) => (pv, Err("expected symbol"@)),
                            SExprView::Sym(name) => match list[2] {
                                SExprView::Sym(_) => (pv, Err("declare-fun: expected sort list"@)),
                                SExprView::List(sorts) => if !all_syms(sorts) {
                                    (pv, Err("expected symbol"@))
                                } else {
                                    match list[3] {
                                        SExprView::List(_) => (pv, Err("expected symbol"@)),
                                        SExprView::Sym(sort) => (
                                            ParserView {
                                                decls: pv.decls.insert(name, DeclView { args: sym_names(sorts), sort }),
                                                smt: pv.smt,
                                            },
                                            Ok(()),
                                        ),
                                    }
                                },
                            },
                        }
                    }
                } else if cmd == "assert"@ {
                    if list.len() < 2 {
                        (pv, Err("assert: too few args"@))
                    } else {
                        match f2c(pv.smt, list[1], true, seq![]) {
                            (s1, Ok(_)) => (ParserView { decls: pv.decls, smt: s1 }, Ok(())),
                            (s1, Err(m)) => (ParserView { decls: pv.decls, smt: s1 }, Err(m)),
                        }
                    }
                } else {
                    (pv, Err("unknown command: "@ + cmd))
                },
            }
        },
    }
}

/// The commands `exprs[i..]` in order, up to the first error.
pub open spec fn commands(pv: ParserView, exprs: Seq<SExprView>, i: int) -> (ParserView, Result<(), Seq<char>>)
    decreases exprs.len() - i,
{
    if i < 0 || i >= exprs.len() {
        (pv, Ok(()))
    } else {
        match command(pv, exprs[i]) {
            (p1, Err(m)) => (p1, Err(m)),
            (p1, Ok(_)) => commands(p1, exprs, i + 1),
        }
    }
}

/// A formula as a value: its atoms and its clauses.
pub open spec fn formula_view(f: Formula) -> (Seq<AtomView>, Seq<Seq<TheoryLit>>) {
    (f.atoms@.map_values(|a: AtomRecord| atom_view(a)), f.clauses@.map_values(|c: Vec<TheoryLit>| c@))
}

/// Parsing `input` from the parser state `pv`: the new state, and the
/// formula of all atoms and clauses gathered so far or the error.
pub open spec fn smt_parse(pv: ParserView, input: Seq<char>) -> (ParserView, Result<(Seq<AtomView>, Seq<Seq<TheoryLit>>), Seq<char>>) {
    match parse_all_from(tokens_of(input), 0) {
        Err(m) => (pv, Err(m)),
        Ok(exprs) => match commands(pv, exprs, 0) {
            (p2, Err(m)) => (p2, Err(m)),
            (p2, Ok(_)) => (p2, Ok((p2.smt.atoms, p2.smt.clauses))),
        },
    }
}

/// `e` is a proper part of the list `List(items)`.
proof fn lemma_item_smaller(e: SExpr, items: Vec<SExpr>, i: int)
    requires
        e == SExpr::List(items),
        0 <= i < items@.len(),
    ensures
        decreases_to!(e => items@[i]),
{
    assert(decreases_to!(e => e->List_0));
    assert(decreases_to!(items => items@));
    assert(decreases_to!(items@ => items@[i]));
}

/// A list is larger than its items.
proof fn lemma_items_smaller(e: SExpr, items: Vec<SExpr>)
    requires
        e == SExpr::List(items),
    ensures
        decreases_to!(e => items),
{
    assert(decreases_to!(e => e->List_0));
}

// ── The parser ───────────────────────────────────────────────────────

/// A declared function or constant.
#[derive(Debug)]
struct Decl {
    name: String,
    args: Vec<String>,
    sort: String,
}

/// The declarations by name; a later declaration of a name replaces an
/// earlier one.
spec fn decl_map(ds: Seq<Decl>) -> Map<Seq<char>, DeclView>
    decreases ds.len(),
{
    if ds.len() == 0 {
        Map::empty()
    } else {
        let d = ds.last();
        decl_map(ds.drop_last()).insert(d.name@, DeclView { args: toks_view(d.args@), sort: d.sort@ })
    }
}

/// A result of literals as a value.
pub open spec fn lits_res(r: ParseResult<Vec<TheoryLit>>) -> Result<Seq<TheoryLit>, Seq<char>> {
    match r {
        Ok(v) => Ok(v@),
        Err(m) => Err(m@),
    }
}

/// A result of one literal as a value.
pub open spec fn lit_res(r: ParseResult<TheoryLit>) -> Result<TheoryLit, Seq<char>> {
    match r {
        Ok(l) => Ok(l),
        Err(m) => Err(m@),
    }
}

/// A result of a disjunct step as a value.
pub open spec fn step_res(r: ParseResult<OrStep>) -> Result<OrStep, Seq<char>> {
    match r {
        Ok(l) => Ok(l),
        Err(m) => Err(m@),
    }
}

/// SMT-LIB formula parser.
pub struct SmtLibParser {
    /// Declared functions and constants.
    decls: Vec<Decl>,
    /// Next atom ID.
    next_atom: usize,
    /// Collected atoms.
    atoms: Vec<AtomRecord>,
    /// Collected clauses (as lists of TheoryLit).
    clauses: Vec<Vec<TheoryLit>>,
}

impl View for SmtLibParser {
    type V = ParserView;

    closed spec fn view(&self) -> ParserView {
        ParserView { decls: decl_map(self.decls@), smt: self.smt_view() }
    }
}

/// The text `_t<id>` of an auxiliary atom.
fn tseitin_name(id: usize) -> (s: String)
    ensures
        s@ == "_t"@ + decimal(id as nat),
{
    let mut s = String::from_str("_t");
    push_decimal(&mut s, id as u128);
    s
}

/// The text of a term.
fn term_to_string(e: &SExpr) -> (s: String)
    ensures
        s@ == term_str(sexpr_view(*e)),
    decreases e,
{
    match e {
        SExpr::Symbol(s) => s.clone(),
        SExpr::List(items) => {
            proof {
                lemma_list_view(*items);
            }
            let ghost iv = sexprs_view(items@);
            let ghost parts = term_parts(iv);
            let mut out = String::from_str("(");
            proof {
                reveal_strlit("(");
                reveal_strlit(" ");
                reveal_strlit(")");
                assert(parts.take(0) =~= seq![]);
            }
            let mut i: usize = 0;
            while i < items.len()
                invariant
                    i <= items@.len(),
                    *e == SExpr::List(*items),
                    iv == sexprs_view(items@),
                    parts == term_parts(iv),
                    out@ == seq!['('] + join(parts.take(i as int), seq![' ']),
                decreases items@.len() - i,
            {
                let ghost before = out@;
                if i > 0 {
                    out.append(" ");
                }
                let ghost mid = out@;
                proof {
                    reveal_strlit(" ");
                    if i > 0 {
                        assert(mid == before + seq![' ']);
                    } else {
                        assert(mid == before);
                    }
                }
                proof {
                    assert(decreases_to!(*e => (*e)->List_0));
                    assert((*e)->List_0 == *items);
                    assert(decreases_to!(*items => items@));
                    assert(decreases_to!(items@ => items@[i as int]));
                }
                let part = term_to_string(&items[i]);
                out.append(part.as_str());
                proof {
                    let t0 = parts.take(i as int);
                    let t1 = parts.take(i as int + 1);
                    assert(t1.drop_last() =~= t0);
                    assert(t1.last() == part@);
                    if i == 0 {
                        assert(t1 =~= seq![part@]);
                        assert(t0 =~= seq![]);
                        assert(out@ =~= seq!['('] + join(t1, seq![' ']));
                    } else {
                        assert(join(t1, seq![' ']) == join(t0, seq![' ']) + seq![' '] + part@);
                        assert(out@ =~= seq!['('] + join(t1, seq![' ']));
                    }
                }
                i = i + 1;
            }
            out.append(")");
            proof {
                assert(parts.take(i as int) =~= parts);
                assert(out@ =~= seq!['('] + join(parts, seq![' ']) + seq![')']);
            }
            out
        },
    }
}

impl SmtLibParser {
    /// The atoms, clauses and counter as a value.
    pub closed spec fn smt_view(&self) -> SmtState {
        SmtState {
            atoms: self.atoms@.map_values(|a: AtomRecord| atom_view(a)),
            clauses: self.clauses@.map_values(|c: Vec<TheoryLit>| c@),
            next_atom: self.next_atom,
        }
    }

    /// A parser with no declarations, atoms or clauses.
    pub fn new() -> (p: Self)
        ensures
            p@.decls == Map::<Seq<char>, DeclView>::empty(),
            p@.smt == (SmtState { atoms: seq![], clauses: seq![], next_atom: 0 }),
    {
        let p = SmtLibParser { decls: Vec::new(), next_atom: 0, atoms: Vec::new(), clauses: Vec::new() };
        assert(p.smt_view().atoms =~= seq![]);
        assert(p.smt_view().clauses =~= seq![]);
        p
    }

    /// Record an atom under the next id and return that id.
    fn add_atom(&mut self, eq: bool, lhs: String, rhs: String) -> (id: usize)
        requires
            !ids_exhausted(old(self).smt_view()),
        ensures
            id == old(self).smt_view().next_atom,
            final(self).smt_view() == with_atom(old(self).smt_view(), eq, lhs@, rhs@),
            final(self).decls@ == old(self).decls@,
    {
        let id = self.next_atom;
        let ghost l = lhs@;
        let ghost r = rhs@;
        let kind = if eq {
            AtomKind::Eq { lhs, rhs }
        } else {
            AtomKind::Neq { lhs, rhs }
        };
        let rec = AtomRecord { id, kind };
        assert(atom_view(rec) == AtomView { id, eq, lhs: l, rhs: r });
        self.atoms.push(rec);
        self.next_atom = id + 1;
        assert(self.smt_view().atoms =~= old(self).smt_view().atoms.push(atom_view(rec)));
        assert(self.smt_view().clauses =~= old(self).smt_view().clauses);
        id
    }

    /// Record a clause.
    fn add_clause(&mut self, c: Vec<TheoryLit>)
        ensures
            final(self).smt_view() == with_clause(old(self).smt_view(), c@),
            final(self).decls@ == old(self).decls@,
    {
        let ghost cv = c@;
        self.clauses.push(c);
        assert(self.smt_view().atoms =~= old(self).smt_view().atoms);
        assert(self.smt_view().clauses =~= old(self).smt_view().clauses.push(cv));
    }

    /// The index of the first atom that is the equality of `lhs` and `rhs`.
    fn find_eq_atom(&self, lhs: &String, rhs: &String) -> (r: Option<usize>)
        ensures
            match r {
                Some(k) => find_eq_from(self.smt_view().atoms, 0, lhs@, rhs@) == Some(k as int)
                    && k < self.atoms@.len(),
                None => find_eq_from(self.smt_view().atoms, 0, lhs@, rhs@) is None,
            },
    {
        let ghost av = self.smt_view().atoms;
        let mut i: usize = 0;
        while i < self.atoms.len()
            invariant
                i <= self.atoms@.len(),
                av == self.smt_view().atoms,
                find_eq_from(av, 0, lhs@, rhs@) == find_eq_from(av, i as int, lhs@, rhs@),
            decreases self.atoms@.len() - i,
        {
            let a = &self.atoms[i];
            assert(av[i as int] == atom_view(*a));
            let hit = match &a.kind {
                AtomKind::Eq { lhs: l, rhs: r } => (text_eq(l.as_str(), lhs.as_str()) && text_eq(r.as_str(), rhs.as_str()))
                    || (text_eq(l.as_str(), rhs.as_str()) && text_eq(r.as_str(), lhs.as_str())),
                AtomKind::Neq { .. } => false,
            };
            if hit {
                return Some(i);
            }
            i = i + 1;
        }
        None
    }

    /// The literal of the equality of `lhs` and `rhs` with the given sign,
    /// reusing an atom that states it already.
    fn eq_atom_lit(&mut self, lhs: String, rhs: String, sign: bool) -> (r: ParseResult<TheoryLit>)
        ensures
            eq_lit(old(self).smt_view(), lhs@, rhs@, sign) == (final(self).smt_view(), lit_res(r)),
            final(self).decls@ == old(self).decls@,
    {
        match self.find_eq_atom(&lhs, &rhs) {
            Some(k) => {
                let id = self.atoms[k].id;
                Ok(TheoryLit::new(id, sign))
            },
            None => {
                if self.next_atom == usize::MAX {
                    return Err(String::from_str("too many atoms"));
                }
                let id = self.add_atom(true, lhs, rhs);
                Ok(TheoryLit::new(id, sign))
            },
        }
    }

    /// The literal of the equality `(= l r ...)` with the given sign.
    fn make_eq_atom(&mut self, list: &Vec<SExpr>, sign: bool) -> (r: ParseResult<TheoryLit>)
        ensures
            make_eq(old(self).smt_view(), sexprs_view(list@), sign) == (final(self).smt_view(), lit_res(r)),
            final(self).decls@ == old(self).decls@,
    {
        if list.len() < 3 {
            return Err(String::from_str("=: too few args"));
        }
        let lhs = term_to_string(&list[1]);
        let rhs = term_to_string(&list[2]);
        self.eq_atom_lit(lhs, rhs, sign)
    }

    /// A Boolean term as the atom `name = true` and the clause `guard ∨ ±atom`.
    fn bare_atom(&mut self, name: String, polarity: bool, guard: &Vec<TheoryLit>) -> (r: ParseResult<Vec<TheoryLit>>)
        ensures
            bare_atom(old(self).smt_view(), name@, polarity, guard@) == (final(self).smt_view(), lits_res(r)),
            final(self).decls@ == old(self).decls@,
    {
        match self.eq_atom_lit(name, String::from_str("true"), polarity) {
            Ok(lit) => {
                self.add_clause(guarded_lit(guard, lit));
                let mut out: Vec<TheoryLit> = Vec::new();
                out.push(lit);
                assert(out@ =~= seq![lit]);
                Ok(out)
            },
            Err(m) => Err(m),
        }
    }
}

/// The clause `guard ∨ l`.
fn guarded_lit(guard: &Vec<TheoryLit>, l: TheoryLit) -> (d: Vec<TheoryLit>)
    ensures
        d@ == guard@.push(l),
{
    let mut d = copy_clause(guard);
    d.push(l);
    d
}

/// The clause `guard ∨ c`.
fn guarded(guard: &Vec<TheoryLit>, c: &Vec<TheoryLit>) -> (d: Vec<TheoryLit>)
    ensures
        d@ == guard@ + c@,
{
    let mut d = copy_clause(guard);
    let mut i: usize = 0;
    while i < c.len()
        invariant
            i <= c@.len(),
            d@ == guard@ + c@.take(i as int),
        decreases c@.len() - i,
    {
        d.push(c[i]);
        i = i + 1;
        assert(d@ =~= guard@ + c@.take(i as int));
    }
    assert(c@.take(i as int) =~= c@);
    d
}

impl SmtLibParser {
    /// A complex disjunct: a fresh auxiliary atom `t`, and the disjunct
    /// asserted with polarity `polarity` under the guard `guard ∨ ¬t`.
    fn tseitin_item(&mut self, f: &SExpr, polarity: bool, guard: &Vec<TheoryLit>) -> (r: ParseResult<TheoryLit>)
        ensures
            tseitin_item(old(self).smt_view(), sexpr_view(*f), polarity, guard@) == (final(self).smt_view(), lit_res(r)),
            final(self).decls@ == old(self).decls@,
        decreases f, 1int,
    {
        if self.next_atom == usize::MAX {
            return Err(String::from_str("too many atoms"));
        }
        let id = self.next_atom;
        let name = tseitin_name(id);
        self.add_atom(true, name, String::from_str("true"));
        let inner = guarded_lit(guard, TheoryLit::new(id, false));
        match self.formula_to_clauses(f, polarity, &inner) {
            Ok(_) => Ok(TheoryLit::new(id, true)),
            Err(m) => Err(m),
        }
    }

    /// One disjunct, taken with polarity `polarity`.
    fn or_item(&mut self, f: &SExpr, polarity: bool, guard: &Vec<TheoryLit>) -> (r: ParseResult<OrStep>)
        ensures
            or_item(old(self).smt_view(), sexpr_view(*f), polarity, guard@) == (final(self).smt_view(), step_res(r)),
            final(self).decls@ == old(self).decls@,
        decreases f, 2int,
    {
        match f {
            SExpr::Symbol(s) => {
                if text_eq(s.as_str(), "true") {
                    return Ok(if polarity { OrStep::Stop } else { OrStep::Skip });
                }
                if text_eq(s.as_str(), "false") {
                    return Ok(if polarity { OrStep::Skip } else { OrStep::Stop });
                }
            },
            SExpr::List(inner) => {
                proof {
                    lemma_list_view(*inner);
                }
                if inner.len() > 0 {
                    match &inner[0] {
                        SExpr::List(_) => {
                            return Err(String::from_str("expected symbol"));
                        },
                        SExpr::Symbol(op) => {
                            if text_eq(op.as_str(), "=") {
                                return match self.make_eq_atom(inner, polarity) {
                                    Ok(l) => Ok(OrStep::Lit(l)),
                                    Err(m) => Err(m),
                                };
                            }
                            if text_eq(op.as_str(), "not") && inner.len() >= 2 {
                                if let SExpr::List(eq_inner) = &inner[1] {
                                    proof {
                                        lemma_list_view(*eq_inner);
                                    }
                                    if eq_inner.len() > 0 {
                                        if let SExpr::Symbol(h) = &eq_inner[0] {
                                            if text_eq(h.as_str(), "=") {
                                                return match self.make_eq_atom(eq_inner, !polarity) {
                                                    Ok(l) => Ok(OrStep::Lit(l)),
                                                    Err(m) => Err(m),
                                                };
                                            }
                                        }
                                    }
                                }
                            }
                        },
                    }
                }
            },
        }
        match self.tseitin_item(f, polarity, guard) {
            Ok(l) => Ok(OrStep::Lit(l)),
            Err(m) => Err(m),
        }
    }

    /// Assert `items[1..]` one after the other with polarity `polarity`.
    fn assert_each(&mut self, items: &Vec<SExpr>, polarity: bool, guard: &Vec<TheoryLit>) -> (r: ParseResult<Vec<TheoryLit>>)
        ensures
            and_fold(old(self).smt_view(), sexprs_view(items@), 1, polarity, guard@) == (final(self).smt_view(), lits_res(r)),
            final(self).decls@ == old(self).decls@,
        decreases items, 0int,
    {
        let ghost iv = sexprs_view(items@);
        let ghost st0 = self.smt_view();
        let ghost d0 = self.decls@;
        if items.len() == 0 {
            return Ok(Vec::new());
        }
        let mut i: usize = 1;
        while i < items.len()
            invariant
                1 <= i <= items@.len(),
                iv == sexprs_view(items@),
                st0 == old(self).smt_view(),
                d0 == old(self).decls@,
                and_fold(st0, iv, 1, polarity, guard@) == and_fold(self.smt_view(), iv, i as int, polarity, guard@),
                self.decls@ == d0,
            decreases items@.len() - i,
        {
            proof {
                assert(decreases_to!(items => items@));
                assert(decreases_to!(items@ => items@[i as int]));
            }
            match self.formula_to_clauses(&items[i], polarity, guard) {
                Ok(_) => {},
                Err(m) => {
                    return Err(m);
                },
            }
            i = i + 1;
        }
        Ok(Vec::new())
    }

    /// The clause of the disjuncts `items[1..]`, each taken with polarity
    /// `polarity`.
    fn or_each(&mut self, items: &Vec<SExpr>, polarity: bool, guard: &Vec<TheoryLit>) -> (r: ParseResult<Vec<TheoryLit>>)
        ensures
            or_fold(old(self).smt_view(), sexprs_view(items@), 1, seq![], polarity, guard@) == (final(self).smt_view(), lits_res(r)),
            final(self).decls@ == old(self).decls@,
        decreases items, 0int,
    {
        let ghost iv = sexprs_view(items@);
        let ghost st0 = self.smt_view();
        let ghost d0 = self.decls@;
        let mut acc: Vec<TheoryLit> = Vec::new();
        if items.len() == 0 {
            self.add_clause(guarded(guard, &acc));
            return Ok(Vec::new());
        }
        let mut i: usize = 1;
        while i < items.len()
            invariant
                1 <= i <= items@.len(),
                iv == sexprs_view(items@),
                st0 == old(self).smt_view(),
                d0 == old(self).decls@,
                or_fold(st0, iv, 1, seq![], polarity, guard@) == or_fold(self.smt_view(), iv, i as int, acc@, polarity, guard@),
                self.decls@ == d0,
            decreases items@.len() - i,
        {
            proof {
                assert(decreases_to!(items => items@));
                assert(decreases_to!(items@ => items@[i as int]));
            }
            match self.or_item(&items[i], polarity, guard) {
                Ok(OrStep::Stop) => {
                    return Ok(Vec::new());
                },
                Ok(OrStep::Skip) => {},
                Ok(OrStep::Lit(l)) => {
                    acc.push(l);
                },
                Err(m) => {
                    return Err(m);
                },
            }
            i = i + 1;
        }
        self.add_clause(guarded(guard, &acc));
        Ok(Vec::new())
    }

    /// Convert a formula to CNF clauses; `polarity` = true means the formula
    /// is asserted positively, and each clause is added as `guard ∨ clause`.
    fn formula_to_clauses(&mut self, expr: &SExpr, polarity: bool, guard: &Vec<TheoryLit>) -> (r: ParseResult<Vec<TheoryLit>>)
        ensures
            f2c(old(self).smt_view(), sexpr_view(*expr), polarity, guard@) == (final(self).smt_view(), lits_res(r)),
            final(self).decls@ == old(self).decls@,
        decreases expr, 0int,
    {
        match expr {
            SExpr::Symbol(s) => {
                if text_eq(s.as_str(), "true") {
                    if !polarity {
                        self.add_clause(copy_clause(guard));
                    }
                    return Ok(Vec::new());
                }
                if text_eq(s.as_str(), "false") {
                    if polarity {
                        self.add_clause(copy_clause(guard));
                    }
                    return Ok(Vec::new());
                }
                self.bare_atom(s.clone(), polarity, guard)
            },
            SExpr::List(items) => {
                proof {
                    lemma_list_view(*items);
                    lemma_items_smaller(*expr, *items);
                }
                if items.len() == 0 {
                    if self.next_atom == usize::MAX {
                        return Err(String::from_str("too many atoms"));
                    }
                    self.next_atom = self.next_atom + 1;
                    return Err(String::from_str("expected symbol"));
                }
                let op = match &items[0] {
                    SExpr::Symbol(op) => op,
                    SExpr::List(_) => {
                        return Err(String::from_str("expected symbol"));
                    },
                };
                if text_eq(op.as_str(), "not") {
                    if items.len() < 2 {
                        return Err(String::from_str("not: too few args"));
                    }
                    proof {
                        lemma_item_smaller(*expr, *items, 1);
                    }
                    self.formula_to_clauses(&items[1], !polarity, guard)
                } else if text_eq(op.as_str(), "and") {
                    if polarity {
                        self.assert_each(items, true, guard)
                    } else {
                        self.or_each(items, false, guard)
                    }
                } else if text_eq(op.as_str(), "or") {
                    if polarity {
                        self.or_each(items, true, guard)
                    } else {
                        self.assert_each(items, false, guard)
                    }
                } else if text_eq(op.as_str(), "=>") {
                    if items.len() < 3 {
                        return Err(String::from_str("=>: too few args"));
                    }
                    proof {
                        lemma_item_smaller(*expr, *items, 1);
                        lemma_item_smaller(*expr, *items, 2);
                        let iv = sexprs_view(items@);
                        assert(iv[1] == sexpr_view(items@[1]));
                        assert(iv[2] == sexpr_view(items@[2]));
                        if polarity {
                            assert(f2c(self.smt_view(), sexpr_view(*expr), polarity, guard@) == imp_true(self.smt_view(), iv, guard@));
                        }
                    }
                    if polarity {
                        let mut c: Vec<TheoryLit> = Vec::new();
                        match self.or_item(&items[1], false, guard) {
                            Ok(OrStep::Stop) => {
                                return Ok(Vec::new());
                            },
                            Ok(OrStep::Skip) => {},
                            Ok(OrStep::Lit(l1)) => {
                                c.push(l1);
                                assert(c@ =~= seq![l1]);
                            },
                            Err(m) => {
                                return Err(m);
                            },
                        }
                        match self.or_item(&items[2], true, guard) {
                            Ok(OrStep::Stop) => {},
                            Ok(OrStep::Skip) => {
                                self.add_clause(guarded(guard, &c));
                            },
                            Ok(OrStep::Lit(l2)) => {
                                c.push(l2);
                                self.add_clause(guarded(guard, &c));
                            },
                            Err(m) => {
                                return Err(m);
                            },
                        }
                        Ok(Vec::new())
                    } else {
                        match self.formula_to_clauses(&items[1], true, guard) {
                            Ok(_) => {},
                            Err(m) => {
                                return Err(m);
                            },
                        }
                        match self.formula_to_clauses(&items[2], false, guard) {
                            Ok(_) => Ok(Vec::new()),
                            Err(m) => Err(m),
                        }
                    }
                } else if text_eq(op.as_str(), "=") {
                    match self.make_eq_atom(items, polarity) {
                        Ok(l) => {
                            self.add_clause(guarded_lit(guard, l));
                            let mut out: Vec<TheoryLit> = Vec::new();
                            out.push(l);
                            assert(out@ =~= seq![l]);
                            Ok(out)
                        },
                        Err(m) => Err(m),
                    }
                } else {
                    let text = term_to_string(expr);
                    self.bare_atom(text, polarity, guard)
                }
            },
        }
    }
}

/// A copy of an atom record.
fn copy_atom(a: &AtomRecord) -> (b: AtomRecord)
    ensures
        atom_view(b) == atom_view(*a),
{
    let kind = match &a.kind {
        AtomKind::Eq { lhs, rhs } => AtomKind::Eq { lhs: lhs.clone(), rhs: rhs.clone() },
        AtomKind::Neq { lhs, rhs } => AtomKind::Neq { lhs: lhs.clone(), rhs: rhs.clone() },
    };
    AtomRecord { id: a.id, kind }
}

/// A copy of a clause.
fn copy_clause(c: &Vec<TheoryLit>) -> (d: Vec<TheoryLit>)
    ensures
        d@ == c@,
{
    let mut d: Vec<TheoryLit> = Vec::new();
    let mut i: usize = 0;
    while i < c.len()
        invariant
            i <= c@.len(),
            d@ == c@.take(i as int),
        decreases c@.len() - i,
    {
        d.push(c[i]);
        i = i + 1;
        assert(d@ =~= c@.take(i as int));
    }
    assert(c@.take(i as int) =~= c@);
    d
}

impl SmtLibParser {
    /// The name of a symbol, or the error `expected symbol`.
    fn get_symbol(e: &SExpr) -> (r: ParseResult<String>)
        ensures
            match r {
                Ok(s) => sexpr_view(*e) == SExprView::Sym(s@),
                Err(m) => sexpr_view(*e) is List && m@ == "expected symbol"@,
            },
    {
        match e {
            SExpr::Symbol(s) => Ok(s.clone()),
            SExpr::List(_) => Err(String::from_str("expected symbol")),
        }
    }

    /// Record a declaration.
    fn declare(&mut self, name: String, args: Vec<String>, sort: String)
        ensures
            final(self)@.decls == old(self)@.decls.insert(name@, DeclView { args: toks_view(args@), sort: sort@ }),
            final(self).smt_view() == old(self).smt_view(),
    {
        let d = Decl { name, args, sort };
        self.decls.push(d);
        assert(self.decls@.drop_last() =~= old(self).decls@);
    }

    /// Process a top-level command.
    #[verifier::loop_isolation(false)]
    fn process_command(&mut self, expr: &SExpr) -> (r: ParseResult<()>)
        ensures
            command(old(self)@, sexpr_view(*expr)) == (final(self)@, match r {
                Ok(_) => Ok::<(), Seq<char>>(()),
                Err(m) => Err(m@),
            }),
    {
        let list = match expr {
            SExpr::List(items) => items,
            SExpr::Symbol(_) => {
                return Err(String::from_str("expected list at top level"));
            },
        };
        proof {
            lemma_list_view(*list);
        }
        let ghost lv = sexprs_view(list@);
        if list.len() == 0 {
            return Ok(());
        }
        let cmd = Self::get_symbol(&list[0])?;
        assert(lv[0] == SExprView::Sym(cmd@));
        if text_eq(cmd.as_str(), "set-logic") || text_eq(cmd.as_str(), "check-sat") || text_eq(cmd.as_str(), "exit") {
            Ok(())
        } else if text_eq(cmd.as_str(), "declare-const") {
            if list.len() < 3 {
                return Err(String::from_str("declare-const: too few args"));
            }
            let name = Self::get_symbol(&list[1])?;
            let sort = Self::get_symbol(&list[2])?;
            let args: Vec<String> = Vec::new();
            assert(toks_view(args@) =~= seq![]);
            self.declare(name, args, sort);
            Ok(())
        } else if text_eq(cmd.as_str(), "declare-fun") {
            if list.len() < 4 {
                return Err(String::from_str("declare-fun: too few args"));
            }
            let name = Self::get_symbol(&list[1])?;
            let sorts = match &list[2] {
                SExpr::List(sorts) => sorts,
                SExpr::Symbol(_) => {
                    return Err(String::from_str("declare-fun: expected sort list"));
                },
            };
            proof {
                lemma_list_view(*sorts);
            }
            let ghost sv = sexprs_view(sorts@);
            let mut args: Vec<String> = Vec::new();
            let mut j: usize = 0;
            while j < sorts.len()
                invariant
                    j <= sorts@.len(),
                    sv == sexprs_view(sorts@),
                    forall|k: int| 0 <= k < j ==> #[trigger] sv[k] is Sym,
                    toks_view(args@) == sym_names(sv).take(j as int),
                decreases sorts@.len() - j,
            {
                let a = Self::get_symbol(&sorts[j]);
                match a {
                    Ok(a) => {
                        assert(sv[j as int] == SExprView::Sym(a@));
                        assert(sym_names(sv)[j as int] == a@);
                        let ghost before = args@;
                        args.push(a);
                        assert(toks_view(args@) =~= toks_view(before).push(a@));
                        assert(sym_names(sv).take(j as int + 1) =~= sym_names(sv).take(j as int).push(a@));
                        j = j + 1;
                    },
                    Err(m) => {
                        assert(!all_syms(sv));
                        return Err(m);
                    },
                }
            }
            assert(sym_names(sv).take(j as int) =~= sym_names(sv));
            let sort = Self::get_symbol(&list[3])?;
            self.declare(name, args, sort);
            Ok(())
        } else if text_eq(cmd.as_str(), "assert") {
            if list.len() < 2 {
                return Err(String::from_str("assert: too few args"));
            }
            assert(lv[1] == sexpr_view(list@[1]));
            let top: Vec<TheoryLit> = Vec::new();
            assert(top@ =~= seq![]);
            match self.formula_to_clauses(&list[1], true, &top) {
                Ok(_) => Ok(()),
                Err(m) => Err(m),
            }
        } else {
            let mut msg = String::from_str("unknown command: ");
            msg.append(cmd.as_str());
            Err(msg)
        }
    }

    /// Parse SMT-LIB input into a `Formula` holding every atom and clause
    /// gathered so far.
    #[verifier::loop_isolation(false)]
    pub fn parse(&mut self, input: &str) -> (r: ParseResult<Formula>)
        ensures
            smt_parse(old(self)@, input@) == (final(self)@, match r {
                Ok(f) => Ok(formula_view(f)),
                Err(m) => Err(m@),
            }),
    {
        let tokens = match tokenize(input) {
            Ok(t) => t,
            Err(m) => {
                return Err(m);
            },
        };
        let exprs = parse_all(&tokens)?;
        let ghost ev = sexprs_view(exprs@);
        let mut i: usize = 0;
        while i < exprs.len()
            invariant
                i <= exprs@.len(),
                ev == sexprs_view(exprs@),
                commands(old(self)@, ev, 0) == commands(self@, ev, i as int),
            decreases exprs@.len() - i,
        {
            assert(ev[i as int] == sexpr_view(exprs@[i as int]));
            match self.process_command(&exprs[i]) {
                Ok(_) => {},
                Err(m) => {
                    return Err(m);
                },
            }
            i = i + 1;
        }
        let mut atoms: Vec<AtomRecord> = Vec::new();
        let mut k: usize = 0;
        while k < self.atoms.len()
            invariant
                k <= self.atoms@.len(),
                atoms@.map_values(|a: AtomRecord| atom_view(a)) == self.smt_view().atoms.take(k as int),
            decreases self.atoms@.len() - k,
        {
            let a = copy_atom(&self.atoms[k]);
            let ghost before = atoms@;
            atoms.push(a);
            assert(self.smt_view().atoms[k as int] == atom_view(self.atoms@[k as int]));
            assert(atoms@.map_values(|a: AtomRecord| atom_view(a)) =~= before.map_values(|a: AtomRecord| atom_view(a)).push(atom_view(a)));
            assert(self.smt_view().atoms.take(k as int + 1) =~= self.smt_view().atoms.take(k as int).push(atom_view(a)));
            k = k + 1;
            assert(atoms@.map_values(|a: AtomRecord| atom_view(a)) =~= self.smt_view().atoms.take(k as int));
        }
        let mut clauses: Vec<Vec<TheoryLit>> = Vec::new();
        let mut k: usize = 0;
        while k < self.clauses.len()
            invariant
                k <= self.clauses@.len(),
                clauses@.map_values(|c: Vec<TheoryLit>| c@) == self.smt_view().clauses.take(k as int),
            decreases self.clauses@.len() - k,
        {
            let c = copy_clause(&self.clauses[k]);
            let ghost before = clauses@;
            let ghost cv = c@;
            clauses.push(c);
            assert(self.smt_view().clauses[k as int] == self.clauses@[k as int]@);
            assert(clauses@.map_values(|c: Vec<TheoryLit>| c@) =~= before.map_values(|c: Vec<TheoryLit>| c@).push(cv));
            assert(self.smt_view().clauses.take(k as int + 1) =~= self.smt_view().clauses.take(k as int).push(cv));
            k = k + 1;
            assert(clauses@.map_values(|c: Vec<TheoryLit>| c@) =~= self.smt_view().clauses.take(k as int));
        }
        assert(self.smt_view().atoms.take(self.atoms@.len() as int) =~= self.smt_view().atoms);
        assert(self.smt_view().clauses.take(self.clauses@.len() as int) =~= self.smt_view().clauses);
        Ok(Formula { atoms, clauses })
    }
}

} // verus!
