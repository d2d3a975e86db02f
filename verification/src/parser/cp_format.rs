//! Simple CP problem format parser.
//!
//! Format:
//! ```text
//! # variable declarations
//! var x 0 10
//! var y 0 10
//! # constraints
//! eq x y
//! neq x y
//! lt x y
//! allDiff x y z
//! ```
use vstd::prelude::*;
use crate::cp::{CmpRel, ConstraintView, CpConstraint, CpProblem};
use crate::parser::ParseResult;
use crate::parser::text::{
    chars_of, words, words_in, split_on, int_in_range, parse_int, chars_equal, string_of,
    lemma_split_prefix, lemma_split_on_nonempty, line_msg, line_error,
};

verus! {

/// Simple CP format parser.
pub struct CpFormatParser;

/// The reading state: variable names, their ranges, and the constraints so far.
pub type CpScan = (Seq<Seq<char>>, Seq<(i64, i64)>, Seq<ConstraintView>);

/// The id of the variable `name`: the last declaration of that name wins.
pub open spec fn lookup_name(names: Seq<Seq<char>>, name: Seq<char>) -> Option<usize>
    decreases names.len(),
{
    if names.len() == 0 {
        None
    } else if names.last() == name {
        Some((names.len() - 1) as usize)
    } else {
        lookup_name(names.drop_last(), name)
    }
}

/// The id of a variable named on line `no`, or the error for an unknown name.
pub open spec fn var_ref(names: Seq<Seq<char>>, name: Seq<char>, no: nat) -> Result<usize, Seq<char>> {
    match lookup_name(names, name) {
        Some(v) => Ok(v),
        None => Err(line_msg(no, "unknown variable '"@ + name + "'"@)),
    }
}

/// An `i64` token.
pub open spec fn i64_token(t: Seq<char>) -> Option<i64> {
    match int_in_range(t, true, i64::MIN as int, i64::MAX as int) {
        Some(v) => Some(v as i64),
        None => None,
    }
}

/// The `(coefficient, variable)` pairs of a `linear` line from word `idx` on:
/// every pair that lies before the last two words (the right-hand side and
/// the relation) is read; returns the pairs and the index after them.
pub open spec fn linear_scan(names: Seq<Seq<char>>, w: Seq<Seq<char>>, idx: int, acc: Seq<(i64, usize)>, no: nat)
    -> Result<(Seq<(i64, usize)>, int), Seq<char>>
    decreases w.len() - idx,
{
    if idx + 3 < w.len() && idx >= 0 {
        match i64_token(w[idx]) {
            None => Err("bad coeff"@),
            Some(c) => match var_ref(names, w[idx + 1], no) {
                Err(e) => Err(e),
                Ok(v) => linear_scan(names, w, idx + 2, acc.push((c, v)), no),
            },
        }
    } else {
        Ok((acc, idx))
    }
}

/// The variables named by words `k..` of an `allDiff` line, appended to `acc`.
pub open spec fn vars_scan(names: Seq<Seq<char>>, w: Seq<Seq<char>>, k: int, acc: Seq<usize>, no: nat)
    -> Result<Seq<usize>, Seq<char>>
    decreases w.len() - k,
{
    if k < w.len() && k >= 0 {
        match var_ref(names, w[k], no) {
            Err(e) => Err(e),
            Ok(v) => vars_scan(names, w, k + 1, acc.push(v), no),
        }
    } else {
        Ok(acc)
    }
}

/// A binary constraint line `kw x y`.
pub open spec fn binary_line(st: CpScan, w: Seq<Seq<char>>, no: nat, short: Seq<char>, kind: int) -> Result<CpScan, Seq<char>> {
    if w.len() < 3 {
        Err(short)
    } else {
        match var_ref(st.0, w[1], no) {
            Err(e) => Err(e),
            Ok(x) => match var_ref(st.0, w[2], no) {
                Err(e) => Err(e),
                Ok(y) => Ok((st.0, st.1, st.2.push(
                    if kind == 0 { ConstraintView::Eq(x, y) }
                    else if kind == 1 { ConstraintView::Neq(x, y) }
                    else { ConstraintView::Lt(x, y) }
                ))),
            },
        }
    }
}

/// Read one line (number `no`, counted from 1).
pub open spec fn cp_line(st: CpScan, line: Seq<char>, no: nat) -> Result<CpScan, Seq<char>> {
    let w = words(line);
    if w.len() == 0 || w[0][0] == '#' || (w[0].len() >= 2 && w[0][0] == '/' && w[0][1] == '/') {
        Ok(st)
    } else if w[0] == "var"@ {
        if w.len() < 4 {
            Err(line_msg(no, "var needs name, min, max"@))
        } else {
            match i64_token(w[2]) {
                None => Err(line_msg(no, "bad min"@)),
                Some(lo) => match i64_token(w[3]) {
                    None => Err(line_msg(no, "bad max"@)),
                    Some(hi) => Ok((st.0.push(w[1]), st.1.push((lo, hi)), st.2)),
                },
            }
        }
    } else if w[0] == "eq"@ {
        binary_line(st, w, no, "eq needs 2 vars"@, 0)
    } else if w[0] == "neq"@ {
        binary_line(st, w, no, "neq needs 2 vars"@, 1)
    } else if w[0] == "lt"@ {
        binary_line(st, w, no, "lt needs 2 vars"@, 2)
    } else if w[0] == "le"@ {
        if w.len() < 4 {
            Err("le needs 2 vars + c"@)
        } else {
            match var_ref(st.0, w[1], no) {
                Err(e) => Err(e),
                Ok(x) => match var_ref(st.0, w[2], no) {
                    Err(e) => Err(e),
                    Ok(y) => match i64_token(w[3]) {
                        None => Err("bad c"@),
                        Some(c) => Ok((st.0, st.1, st.2.push(ConstraintView::Le(x, y, c)))),
                    },
                },
            }
        }
    } else if w[0] == "linear"@ {
        if w.len() < 5 {
            Err("linear: need at least coeff var rhs rel"@)
        } else {
            match linear_scan(st.0, w, 1, seq![], no) {
                Err(e) => Err(e),
                Ok((terms, idx)) => {
                    match i64_token(w[idx]) {
                        None => Err("bad rhs"@),
                        Some(rhs) => if w[idx + 1] == "le"@ {
                            Ok((st.0, st.1, st.2.push(ConstraintView::Linear(terms, rhs, CmpRel::Le))))
                        } else if w[idx + 1] == "eq"@ {
                            Ok((st.0, st.1, st.2.push(ConstraintView::Linear(terms, rhs, CmpRel::Eq))))
                        } else if w[idx + 1] == "ge"@ {
                            Ok((st.0, st.1, st.2.push(ConstraintView::Linear(terms, rhs, CmpRel::Ge))))
                        } else {
                            Err("linear: expected le/eq/ge"@)
                        },
                    }
                },
            }
        }
    } else if w[0] == "allDiff"@ || w[0] == "alldifferent"@ {
        if w.len() < 3 {
            Err("allDiff needs ≥ 2 vars"@)
        } else {
            match vars_scan(st.0, w, 1, seq![], no) {
                Err(e) => Err(e),
                Ok(vs) => Ok((st.0, st.1, st.2.push(ConstraintView::AllDifferent(vs)))),
            }
        }
    } else {
        Err(line_msg(no, "unknown keyword '"@ + w[0] + "'"@))
    }
}

/// Read the lines in order; the first error stops the reading.
pub open spec fn cp_lines(lines: Seq<Seq<char>>) -> Result<CpScan, Seq<char>>
    decreases lines.len(),
{
    if lines.len() == 0 {
        Ok((seq![], seq![], seq![]))
    } else {
        match cp_lines(lines.drop_last()) {
            Err(e) => Err(e),
            Ok(st) => cp_line(st, lines.last(), lines.len()),
        }
    }
}

/// The problem a CP-format text denotes, or the error message.
pub open spec fn cp_spec(s: Seq<char>) -> Result<CpScan, Seq<char>> {
    cp_lines(split_on(s, '\n'))
}

/// The state a problem under construction stands for.
pub open spec fn problem_scan(p: CpProblem) -> CpScan {
    (
        p.var_domains@.map_values(|d: (String, (i64, i64))| d.0@),
        p.var_domains@.map_values(|d: (String, (i64, i64))| d.1),
        p.constraints@.map_values(|c: CpConstraint| c@),
    )
}

proof fn lemma_lines_err_sticks(lines: Seq<Seq<char>>, j: int)
    requires
        0 <= j <= lines.len(),
        cp_lines(lines.take(j)) is Err,
    ensures
        cp_lines(lines) == cp_lines(lines.take(j)),
    decreases lines.len() - j,
{
    if j < lines.len() {
        assert(lines.take(j + 1).drop_last() =~= lines.take(j));
        lemma_lines_err_sticks(lines, j + 1);
    } else {
        assert(lines.take(j) =~= lines);
    }
}

/// The id of the variable spelled by `chars[lo..hi]`, if declared.
fn find_var(p: &CpProblem, chars: &Vec<char>, lo: usize, hi: usize) -> (r: Option<usize>)
    requires
        lo <= hi <= chars@.len(),
    ensures
        r == lookup_name(problem_scan(*p).0, chars@.subrange(lo as int, hi as int)),
{
    let ghost names = problem_scan(*p).0;
    let ghost name = chars@.subrange(lo as int, hi as int);
    let mut k: usize = p.var_domains.len();
    assert(names.take(k as int) =~= names);
    while k > 0
        invariant
            lo <= hi <= chars@.len(),
            name == chars@.subrange(lo as int, hi as int),
            k <= p.var_domains@.len(),
            names == problem_scan(*p).0,
            names.len() == p.var_domains@.len(),
            lookup_name(names, name) == lookup_name(names.take(k as int), name),
        decreases k,
    {
        let ghost pre = names.take(k as int);
        assert(pre.drop_last() =~= names.take(k as int - 1));
        assert(pre.last() == p.var_domains@[k - 1].0@);
        if chars_equal(chars, lo, hi, p.var_domains[k - 1].0.as_str()) {
            return Some(k - 1);
        }
        k = k - 1;
    }
    assert(names.take(0) =~= seq![]);
    None
}

/// The id of a variable named on line `no`, or the error.
fn var_of(p: &CpProblem, input: &str, chars: &Vec<char>, lo: usize, hi: usize, no: u128) -> (r: Result<usize, String>)
    requires
        chars@ == input@,
        lo <= hi <= chars@.len(),
    ensures
        match var_ref(problem_scan(*p).0, chars@.subrange(lo as int, hi as int), no as nat) {
            Ok(v) => r == Ok::<usize, String>(v),
            Err(e) => r matches Err(m) && m@ == e,
        },
{
    match find_var(p, chars, lo, hi) {
        Some(v) => Ok(v),
        None => {
            let mut msg = String::from_str("unknown variable '");
            let name = string_of(input, lo, hi);
            msg.append(name.as_str());
            msg.append("'");
            proof {
                reveal_strlit("unknown variable '");
                reveal_strlit("'");
            }
            Err(line_error(no, msg.as_str()))
        },
    }
}

/// The token `chars[lo..hi]` as an `i64`.
fn i64_of(chars: &Vec<char>, lo: usize, hi: usize) -> (r: Option<i64>)
    requires
        lo <= hi <= chars@.len(),
    ensures
        r == i64_token(chars@.subrange(lo as int, hi as int)),
{
    parse_int(chars, lo, hi, true, 9223372036854775807)
}

/// A plain error message.
fn message(text: &str) -> (s: String)
    ensures
        s@ == text@,
{
    String::from_str(text)
}

/// Whether the words `toks` of a line spell `w`.
spec fn toks_match(chars: Seq<char>, toks: Seq<(usize, usize)>, w: Seq<Seq<char>>) -> bool {
    &&& toks.len() == w.len()
    &&& forall|k: int| 0 <= k < toks.len() ==> {
        &&& (#[trigger] toks[k]).0 < toks[k].1 <= chars.len()
        &&& chars.subrange(toks[k].0 as int, toks[k].1 as int) == w[k]
    }
}

/// Push a constraint.
fn push_constraint(p: &mut CpProblem, c: CpConstraint)
    ensures
        final(p).var_domains == old(p).var_domains,
        problem_scan(*final(p)) == (problem_scan(*old(p)).0, problem_scan(*old(p)).1, problem_scan(*old(p)).2.push(c@)),
{
    let ghost before = p.constraints@;
    p.constraints.push(c);
    assert(p.constraints@.map_values(|c: CpConstraint| c@) =~= before.map_values(|c: CpConstraint| c@).push(c@));
}

/// Read the terms of a `linear` line.
fn linear_terms(p: &CpProblem, input: &str, chars: &Vec<char>, toks: &Vec<(usize, usize)>, no: u128,
    Ghost(w): Ghost<Seq<Seq<char>>>) -> (r: Result<(Vec<(i64, usize)>, usize), String>)
    requires
        chars@ == input@,
        toks_match(chars@, toks@, w),
        w.len() >= 5,
    ensures
        match linear_scan(problem_scan(*p).0, w, 1, seq![], no as nat) {
            Ok((t, i)) => r matches Ok((tv, iv)) && tv@ == t && iv == i,
            Err(e) => r matches Err(m) && m@ == e,
        },
        r matches Ok((_, iv)) ==> iv + 2 <= w.len(),
{
    let ghost names = problem_scan(*p).0;
    let mut terms: Vec<(i64, usize)> = Vec::new();
    let mut idx: usize = 1;
    let n = toks.len();
    while idx < n - 3
        invariant
            chars@ == input@,
            toks_match(chars@, toks@, w),
            n == w.len(),
            n >= 5,
            1 <= idx <= n - 2,
            names == problem_scan(*p).0,
            linear_scan(names, w, 1, seq![], no as nat) == linear_scan(names, w, idx as int, terms@, no as nat),
        decreases n - idx,
    {
        let (a, b) = toks[idx];
        let c = match i64_of(chars, a, b) {
            None => {
                return Err(message("bad coeff"));
            },
            Some(c) => c,
        };
        let (a2, b2) = toks[idx + 1];
        let v = match var_of(p, input, chars, a2, b2, no) {
            Err(e) => {
                return Err(e);
            },
            Ok(v) => v,
        };
        terms.push((c, v));
        idx = idx + 2;
    }
    Ok((terms, idx))
}

/// Read the variables of an `allDiff` line.
fn all_diff_vars(p: &CpProblem, input: &str, chars: &Vec<char>, toks: &Vec<(usize, usize)>, no: u128,
    Ghost(w): Ghost<Seq<Seq<char>>>) -> (r: Result<Vec<usize>, String>)
    requires
        chars@ == input@,
        toks_match(chars@, toks@, w),
    ensures
        match vars_scan(problem_scan(*p).0, w, 1, seq![], no as nat) {
            Ok(vs) => r matches Ok(v) && v@ == vs,
            Err(e) => r matches Err(m) && m@ == e,
        },
{
    let ghost names = problem_scan(*p).0;
    let mut vars: Vec<usize> = Vec::new();
    let mut k: usize = 1;
    if toks.len() == 0 {
        return Ok(vars);
    }
    while k < toks.len()
        invariant
            chars@ == input@,
            toks_match(chars@, toks@, w),
            1 <= k <= toks@.len(),
            names == problem_scan(*p).0,
            vars_scan(names, w, 1, seq![], no as nat) == vars_scan(names, w, k as int, vars@, no as nat),
        decreases toks@.len() - k,
    {
        let (a, b) = toks[k];
        let v = match var_of(p, input, chars, a, b, no) {
            Err(e) => {
                return Err(e);
            },
            Ok(v) => v,
        };
        vars.push(v);
        k = k + 1;
    }
    Ok(vars)
}

/// Read a binary constraint line.
fn binary(p: &mut CpProblem, input: &str, chars: &Vec<char>, toks: &Vec<(usize, usize)>, no: u128,
    short: &str, kind: u8, Ghost(w): Ghost<Seq<Seq<char>>>) -> (r: Result<(), String>)
    requires
        chars@ == input@,
        toks_match(chars@, toks@, w),
        kind <= 2,
    ensures
        match binary_line(problem_scan(*old(p)), w, no as nat, short@, kind as int) {
            Ok(st) => r is Ok && problem_scan(*final(p)) == st,
            Err(e) => r matches Err(m) && m@ == e,
        },
{
    if toks.len() < 3 {
        return Err(message(short));
    }
    let x = match var_of(p, input, chars, toks[1].0, toks[1].1, no) {
        Err(e) => {
            return Err(e);
        },
        Ok(x) => x,
    };
    let y = match var_of(p, input, chars, toks[2].0, toks[2].1, no) {
        Err(e) => {
            return Err(e);
        },
        Ok(y) => y,
    };
    let c = if kind == 0 {
        CpConstraint::Eq(x, y)
    } else if kind == 1 {
        CpConstraint::Neq(x, y)
    } else {
        CpConstraint::Lt(x, y)
    };
    push_constraint(p, c);
    Ok(())
}

/// Read one line `chars[lo..hi]`, line number `no`.
fn read_line(p: &mut CpProblem, input: &str, chars: &Vec<char>, lo: usize, hi: usize, no: u128) -> (r: Result<(), String>)
    requires
        chars@ == input@,
        lo <= hi <= chars@.len(),
    ensures
        match cp_line(problem_scan(*old(p)), chars@.subrange(lo as int, hi as int), no as nat) {
            Ok(st) => r is Ok && problem_scan(*final(p)) == st,
            Err(e) => r matches Err(m) && m@ == e,
        },
{
    let toks = words_in(chars, lo, hi);
    let ghost w = words(chars@.subrange(lo as int, hi as int));
    assert(toks_match(chars@, toks@, w));
    if toks.len() == 0 {
        return Ok(());
    }
    let (k0, k1) = toks[0];
    let first = chars[k0];
    assert(w[0][0] == first);
    if first == '#' {
        return Ok(());
    }
    if k1 - k0 >= 2 && first == '/' && chars[k0 + 1] == '/' {
        assert(w[0][1] == chars@[k0 + 1]);
        return Ok(());
    }
    proof {
        if w[0].len() >= 2 {
            assert(w[0][1] == chars@[k0 + 1]);
        }
    }
    if chars_equal(chars, k0, k1, "var") {
        if toks.len() < 4 {
            return Err(line_error(no, "var needs name, min, max"));
        }
        let lo_v = match i64_of(chars, toks[2].0, toks[2].1) {
            None => {
                return Err(line_error(no, "bad min"));
            },
            Some(v) => v,
        };
        let hi_v = match i64_of(chars, toks[3].0, toks[3].1) {
            None => {
                return Err(line_error(no, "bad max"));
            },
            Some(v) => v,
        };
        let name = string_of(input, toks[1].0, toks[1].1);
        let ghost before = p.var_domains@;
        p.var_domains.push((name, (lo_v, hi_v)));
        assert(p.var_domains@.map_values(|d: (String, (i64, i64))| d.0@)
            =~= before.map_values(|d: (String, (i64, i64))| d.0@).push(w[1]));
        assert(p.var_domains@.map_values(|d: (String, (i64, i64))| d.1)
            =~= before.map_values(|d: (String, (i64, i64))| d.1).push((lo_v, hi_v)));
        return Ok(());
    }
    if chars_equal(chars, k0, k1, "eq") {
        return binary(p, input, chars, &toks, no, "eq needs 2 vars", 0, Ghost(w));
    }
    if chars_equal(chars, k0, k1, "neq") {
        return binary(p, input, chars, &toks, no, "neq needs 2 vars", 1, Ghost(w));
    }
    if chars_equal(chars, k0, k1, "lt") {
        return binary(p, input, chars, &toks, no, "lt needs 2 vars", 2, Ghost(w));
    }
    if chars_equal(chars, k0, k1, "le") {
        if toks.len() < 4 {
            return Err(message("le needs 2 vars + c"));
        }
        let x = match var_of(p, input, chars, toks[1].0, toks[1].1, no) {
            Err(e) => {
                return Err(e);
            },
            Ok(x) => x,
        };
        let y = match var_of(p, input, chars, toks[2].0, toks[2].1, no) {
            Err(e) => {
                return Err(e);
            },
            Ok(y) => y,
        };
        let c = match i64_of(chars, toks[3].0, toks[3].1) {
            None => {
                return Err(message("bad c"));
            },
            Some(c) => c,
        };
        push_constraint(p, CpConstraint::Le(x, y, c));
        return Ok(());
    }
    if chars_equal(chars, k0, k1, "linear") {
        if toks.len() < 5 {
            return Err(message("linear: need at least coeff var rhs rel"));
        }
        let (terms, idx) = match linear_terms(p, input, chars, &toks, no, Ghost(w)) {
            Err(e) => {
                return Err(e);
            },
            Ok(r) => r,
        };
        let rhs = match i64_of(chars, toks[idx].0, toks[idx].1) {
            None => {
                return Err(message("bad rhs"));
            },
            Some(v) => v,
        };
        let (r0, r1) = toks[idx + 1];
        let rel = if chars_equal(chars, r0, r1, "le") {
            CmpRel::Le
        } else if chars_equal(chars, r0, r1, "eq") {
            CmpRel::Eq
        } else if chars_equal(chars, r0, r1, "ge") {
            CmpRel::Ge
        } else {
            return Err(message("linear: expected le/eq/ge"));
        };
        push_constraint(p, CpConstraint::Linear(terms, rhs, rel));
        return Ok(());
    }
    if chars_equal(chars, k0, k1, "allDiff") || chars_equal(chars, k0, k1, "alldifferent") {
        if toks.len() < 3 {
            return Err(message("allDiff needs ≥ 2 vars"));
        }
        let vars = match all_diff_vars(p, input, chars, &toks, no, Ghost(w)) {
            Err(e) => {
                return Err(e);
            },
            Ok(v) => v,
        };
        push_constraint(p, CpConstraint::AllDifferent(vars));
        return Ok(());
    }
    let mut msg = String::from_str("unknown keyword '");
    let kw = string_of(input, k0, k1);
    msg.append(kw.as_str());
    msg.append("'");
    proof {
        reveal_strlit("unknown keyword '");
        reveal_strlit("'");
    }
    Err(line_error(no, msg.as_str()))
}

impl CpFormatParser {
    pub fn new() -> (p: Self) {
        CpFormatParser
    }

    /// Parse a CP-format text.
    pub fn parse(&self, input: &str) -> (r: ParseResult<CpProblem>)
        ensures
            match cp_spec(input@) {
                Ok(st) => r matches Ok(p) && problem_scan(p) == st,
                Err(e) => r matches Err(m) && m@ == e,
            },
    {
        let chars = chars_of(input);
        let ghost s = input@;
        let mut prob = CpProblem { var_domains: Vec::new(), constraints: Vec::new() };
        assert(problem_scan(prob) =~= (seq![], seq![], seq![]));
        let mut start: usize = 0;
        let mut i: usize = 0;
        let mut no: u128 = 1;
        assert(s.take(0) =~= seq![]);
        while i < chars.len()
            invariant
                chars@ == input@,
                s == input@,
                start <= i <= chars@.len(),
                1 <= no <= i + 1,
                split_on(s.take(i as int), '\n').len() == no,
                split_on(s.take(i as int), '\n').last() == s.subrange(start as int, i as int),
                cp_lines(split_on(s.take(i as int), '\n').drop_last()) == Ok::<CpScan, Seq<char>>(problem_scan(prob)),
            decreases chars@.len() - i,
        {
            let ghost pre = split_on(s.take(i as int), '\n');
            assert(s.take(i as int + 1).drop_last() =~= s.take(i as int));
            assert(s.take(i as int + 1).last() == chars@[i as int]);
            assert(s.subrange(start as int, i as int) == chars@.subrange(start as int, i as int));
            if chars[i] == '\n' {
                let res = read_line(&mut prob, input, &chars, start, i, no);
                assert(pre.drop_last().push(pre.last()) =~= pre);
                assert(split_on(s.take(i as int + 1), '\n') == pre.push(seq![]));
                assert(pre.push(seq![]).drop_last() =~= pre);
                match res {
                    Err(e) => {
                        proof {
                            let all = split_on(s, '\n');
                            assert(s.take(s.len() as int) =~= s);
                            lemma_split_prefix(s, i as int + 1, '\n');
                            assert(pre == all.take(pre.len() as int));
                            lemma_lines_err_sticks(all, pre.len() as int);
                        }
                        return Err(e);
                    },
                    Ok(()) => {},
                }
                start = i + 1;
                no = no + 1;
            } else {
                assert(s.subrange(start as int, i as int + 1) =~= s.subrange(start as int, i as int).push(chars@[i as int]));
                assert(split_on(s.take(i as int + 1), '\n').drop_last() =~= pre.drop_last());
            }
            i = i + 1;
        }
        assert(s.take(i as int) =~= s);
        let ghost all = split_on(s, '\n');
        assert(all.drop_last().push(all.last()) =~= all);
        assert(s.subrange(start as int, i as int) == chars@.subrange(start as int, i as int));
        match read_line(&mut prob, input, &chars, start, i, no) {
            Err(e) => Err(e),
            Ok(()) => Ok(prob),
        }
    }
}


/// The relation a word names: `le` is `≤`, `eq` is `=`, `ge` is `≥`.
pub open spec fn relation_word(w: Seq<char>) -> Option<CmpRel> {
    if w == "le"@ {
        Some(CmpRel::Le)
    } else if w == "eq"@ {
        Some(CmpRel::Eq)
    } else if w == "ge"@ {
        Some(CmpRel::Ge)
    } else {
        None
    }
}

/// What reading the pairs of a `linear` line from word `i` on gives: the
/// pairs `(coefficient of word i + 2k, variable named by word i + 2k + 1)`
/// appended to `acc`, stopping at the first index `j` (stepping by two) with
/// at most three words from `j` on.
proof fn lemma_linear_pairs(names: Seq<Seq<char>>, w: Seq<Seq<char>>, i: int, acc: Seq<(i64, usize)>, no: nat)
    requires
        i >= 0,
        linear_scan(names, w, i, acc, no) is Ok,
    ensures
        ({
            let (t, j) = linear_scan(names, w, i, acc, no)->Ok_0;
            &&& j >= i
            &&& (j - i) % 2 == 0
            &&& i + 3 >= w.len() ==> j == i
            &&& i + 3 < w.len() ==> j + 3 >= w.len() && j + 1 < w.len()
            &&& t.len() == acc.len() + (j - i) / 2
            &&& forall|q: int| 0 <= q < acc.len() ==> t[q] == acc[q]
            &&& forall|k: int|
                0 <= k < (j - i) / 2 ==> #[trigger] t[acc.len() + k] == (
                    i64_token(w[i + 2 * k])->Some_0,
                    lookup_name(names, w[i + 2 * k + 1])->Some_0,
                )
        }),
    decreases w.len() - i,
{
    if i + 3 < w.len() {
        let c = i64_token(w[i])->Some_0;
        let v = lookup_name(names, w[i + 1])->Some_0;
        let acc1 = acc.push((c, v));
        lemma_linear_pairs(names, w, i + 2, acc1, no);
        let (t, j) = linear_scan(names, w, i, acc, no)->Ok_0;
        assert(t[acc.len() as int] == acc1[acc.len() as int]);
        assert forall|k: int| 0 <= k < (j - i) / 2 implies #[trigger] t[acc.len() + k] == (
            i64_token(w[i + 2 * k])->Some_0,
            lookup_name(names, w[i + 2 * k + 1])->Some_0,
        ) by {
            if k > 0 {
                assert(t[acc1.len() + (k - 1)] == (
                    i64_token(w[i + 2 + 2 * (k - 1)])->Some_0,
                    lookup_name(names, w[i + 2 + 2 * (k - 1) + 1])->Some_0,
                ));
                assert(acc1.len() + (k - 1) == acc.len() + k);
                assert(i + 2 + 2 * (k - 1) == i + 2 * k);
            }
        }
    }
}

/// A `linear` line `linear c1 x1 ... cm xm rhs rel` adds exactly one
/// constraint: the sum of the pairs `(ck, xk)`, read from words `1..` two
/// at a time while more than three words remain, the right-hand side read
/// from the word after them, and the relation that the next word names
/// (`le`, `eq`, `ge`); a line whose relation word names none is refused.
pub proof fn lemma_linear_line(st: CpScan, line: Seq<char>, no: nat)
    requires
        words(line).len() > 0,
        words(line)[0] == "linear"@,
    ensures
        ({
            let w = words(line);
            let m = (w.len() - 3) / 2;
            match cp_line(st, line, no) {
                Ok(st2) => {
                    &&& w.len() >= 5
                    &&& st2.0 == st.0
                    &&& st2.1 == st.1
                    &&& st2.2.len() == st.2.len() + 1
                    &&& st2.2.take(st.2.len() as int) == st.2
                    &&& st2.2.last() matches ConstraintView::Linear(terms, rhs, rel) && {
                        &&& terms.len() == m
                        &&& forall|k: int|
                            0 <= k < m ==> #[trigger] terms[k] == (
                                i64_token(w[1 + 2 * k])->Some_0,
                                lookup_name(st.0, w[2 + 2 * k])->Some_0,
                            )
                        &&& i64_token(w[1 + 2 * m]) == Some(rhs)
                        &&& relation_word(w[2 + 2 * m]) == Some(rel)
                    }
                },
                Err(_) => w.len() < 5 || linear_scan(st.0, w, 1, seq![], no) is Err || i64_token(w[1 + 2 * m]) is None
                    || relation_word(w[2 + 2 * m]) is None,
            }
        }),
{
    let w = words(line);
    reveal_strlit("linear");
    assert(w[0][0] == 'l');
    assert(w[0] != "var"@ && w[0] != "eq"@ && w[0] != "neq"@ && w[0] != "lt"@ && w[0] != "le"@) by {
        reveal_strlit("linear");
        reveal_strlit("var");
        reveal_strlit("eq");
        reveal_strlit("neq");
        reveal_strlit("lt");
        reveal_strlit("le");
    }
    reveal_strlit("linear");
    assert(!(w[0].len() >= 2 && w[0][0] == '/' && w[0][1] == '/'));
    if w.len() >= 5 {
        if linear_scan(st.0, w, 1, seq![], no) is Ok {
            lemma_linear_pairs(st.0, w, 1, seq![], no);
            let (terms, idx) = linear_scan(st.0, w, 1, seq![], no)->Ok_0;
            let m = (w.len() - 3) / 2;
            assert(idx == 1 + 2 * m);
            assert forall|k: int| 0 <= k < m implies #[trigger] terms[k] == (
                i64_token(w[1 + 2 * k])->Some_0,
                lookup_name(st.0, w[2 + 2 * k])->Some_0,
            ) by {
                assert(terms[0 + k] == terms[k]);
            }
            reveal_strlit("le");
            reveal_strlit("eq");
            reveal_strlit("ge");
            match cp_line(st, line, no) {
                Ok(st2) => {
                    assert(st2.2 == st.2.push(st2.2.last()));
                    assert(st2.2.take(st.2.len() as int) =~= st.2);
                },
                Err(_) => {},
            }
        }
    }
}

/// The relation of the last constraint of a text whose last line is a
/// `linear` line is the one its relation word names.
pub proof fn lemma_parse_linear_relation(s: Seq<char>)
    requires
        cp_spec(s) is Ok,
        words(split_on(s, '\n').last()).len() > 0,
        words(split_on(s, '\n').last())[0] == "linear"@,
    ensures
        ({
            let w = words(split_on(s, '\n').last());
            let m = (w.len() - 3) / 2;
            cp_spec(s)->Ok_0.2.last() matches ConstraintView::Linear(_, _, rel) && relation_word(w[2 + 2 * m])
                == Some(rel)
        }),
{
    let lines = split_on(s, '\n');
    lemma_split_on_nonempty(s, '\n');
    let st = cp_lines(lines.drop_last())->Ok_0;
    lemma_linear_line(st, lines.last(), lines.len());
}
} // verus!
