//! DIMACS CNF parser (SAT).
//!
//! The DIMACS CNF format:
//! ```text
//!   c comment line
//!   p cnf <variables> <clauses>
//!   1 -2 3 0
//!   -1 0
//! ```
//!
//! Lines starting with `c` are comments.
//! The problem line `p cnf V C` gives variable and clause counts.
//! Each clause is a sequence of non-zero integers terminated by `0`.
//! Positive = variable, negative = ¬variable.
use vstd::prelude::*;
use crate::parser::ParseResult;
use crate::parser::text::{
    chars_of, words, words_in, split_on, int_in_range, parse_int, parse_uint, chars_equal, decimal,
    push_decimal, string_of, lemma_split_on_nonempty, lemma_split_prefix, line_msg, line_error,
};

verus! {

/// A parsed DIMACS problem.
#[derive(Debug, Clone)]
pub struct DimacsProblem {
    /// Number of variables declared.
    pub num_vars: usize,
    /// Number of clauses declared.
    pub num_clauses: usize,
    /// List of clauses, each as DIMACS integers (±1-indexed variable).
    pub clauses: Vec<Vec<i32>>,
}

/// DIMACS CNF parser.
pub struct DimacsParser;

/// The reading state: declared variable count, declared clause count,
/// finished clauses, the clause in progress, and whether the header was seen.
pub type DimacsScan = (usize, usize, Seq<Seq<i32>>, Seq<i32>, bool);

/// Read the literals of a clause line, in order.
pub open spec fn dimacs_literals(st: DimacsScan, toks: Seq<Seq<char>>, no: nat) -> Result<DimacsScan, Seq<char>>
    decreases toks.len(),
{
    if toks.len() == 0 {
        Ok(st)
    } else {
        match dimacs_literals(st, toks.drop_last(), no) {
            Err(e) => Err(e),
            Ok(s1) => match int_in_range(toks.last(), true, i32::MIN as int, i32::MAX as int) {
                None => Err(line_msg(no, "invalid literal '"@ + toks.last() + "'"@)),
                Some(v) => if v == 0 {
                    Ok((s1.0, s1.1, s1.2.push(s1.3), seq![], s1.4))
                } else {
                    Ok((s1.0, s1.1, s1.2, s1.3.push(v as i32), s1.4))
                },
            },
        }
    }
}

/// Read one line (number `no`, counted from 1).
pub open spec fn dimacs_line(st: DimacsScan, line: Seq<char>, no: nat) -> Result<DimacsScan, Seq<char>> {
    let w = words(line);
    if w.len() == 0 || w[0][0] == 'c' {
        Ok(st)
    } else if w[0][0] == 'p' {
        if w.len() < 4 || w[1] != "cnf"@ {
            Err(line_msg(no, "invalid problem line, expected 'p cnf <vars> <clauses>'"@))
        } else {
            match int_in_range(w[2], false, 0, usize::MAX as int) {
                None => Err(line_msg(no, "invalid variable count"@)),
                Some(v) => match int_in_range(w[3], false, 0, usize::MAX as int) {
                    None => Err(line_msg(no, "invalid clause count"@)),
                    Some(c) => if st.3.len() > 0 {
                        Err(line_msg(no, "clause before problem header not terminated"@))
                    } else {
                        Ok((v as usize, c as usize, st.2, st.3, true))
                    },
                },
            }
        }
    } else if !st.4 {
        Err(line_msg(no, "data before 'p cnf' header"@))
    } else {
        dimacs_literals(st, w, no)
    }
}

/// Read the lines in order; the first error stops the reading.
pub open spec fn dimacs_lines(lines: Seq<Seq<char>>) -> Result<DimacsScan, Seq<char>>
    decreases lines.len(),
{
    if lines.len() == 0 {
        Ok((0, 0, seq![], seq![], false))
    } else {
        match dimacs_lines(lines.drop_last()) {
            Err(e) => Err(e),
            Ok(st) => dimacs_line(st, lines.last(), lines.len()),
        }
    }
}

/// The problem a DIMACS text denotes: declared counts and the clauses (an
/// unterminated final clause included), or the error message.
pub open spec fn dimacs_spec(s: Seq<char>) -> Result<(usize, usize, Seq<Seq<i32>>), Seq<char>> {
    match dimacs_lines(split_on(s, '\n')) {
        Err(e) => Err(e),
        Ok(st) => {
            if !st.4 {
                Err("missing 'p cnf' header"@)
            } else if st.3.len() > 0 {
                Ok((st.0, st.1, st.2.push(st.3)))
            } else {
                Ok((st.0, st.1, st.2))
            }
        },
    }
}

/// The clauses as sequences.
pub open spec fn clauses_view(c: Vec<Vec<i32>>) -> Seq<Seq<i32>> {
    c@.map_values(|v: Vec<i32>| v@)
}

/// A copy of a clause.
fn copy_clause(c: &Vec<i32>) -> (r: Vec<i32>)
    ensures
        r@ == c@,
{
    let mut r: Vec<i32> = Vec::new();
    let mut i: usize = 0;
    while i < c.len()
        invariant
            i <= c@.len(),
            r@ == c@.take(i as int),
        decreases c@.len() - i,
    {
        r.push(c[i]);
        i = i + 1;
        assert(r@ =~= c@.take(i as int));
    }
    assert(c@.take(i as int) =~= c@);
    r
}

proof fn lemma_literals_err_sticks(st: DimacsScan, w: Seq<Seq<char>>, j: int, no: nat)
    requires
        0 <= j <= w.len(),
        dimacs_literals(st, w.take(j), no) is Err,
    ensures
        dimacs_literals(st, w, no) == dimacs_literals(st, w.take(j), no),
    decreases w.len() - j,
{
    if j < w.len() {
        assert(w.take(j + 1).drop_last() =~= w.take(j));
        lemma_literals_err_sticks(st, w, j + 1, no);
    } else {
        assert(w.take(j) =~= w);
    }
}

proof fn lemma_lines_err_sticks(lines: Seq<Seq<char>>, j: int)
    requires
        0 <= j <= lines.len(),
        dimacs_lines(lines.take(j)) is Err,
    ensures
        dimacs_lines(lines) == dimacs_lines(lines.take(j)),
    decreases lines.len() - j,
{
    if j < lines.len() {
        assert(lines.take(j + 1).drop_last() =~= lines.take(j));
        lemma_lines_err_sticks(lines, j + 1);
    } else {
        assert(lines.take(j) =~= lines);
    }
}

/// The mutable reading state.
struct Reader {
    num_vars: usize,
    num_clauses: usize,
    clauses: Vec<Vec<i32>>,
    current: Vec<i32>,
    found: bool,
}

impl Reader {
    spec fn view_scan(&self) -> DimacsScan {
        (self.num_vars, self.num_clauses, clauses_view(self.clauses), self.current@, self.found)
    }

    /// Read the literals `toks` of line `no`.
    fn literals(&mut self, input: &str, chars: &Vec<char>, toks: &Vec<(usize, usize)>, no: u128,
        Ghost(w): Ghost<Seq<Seq<char>>>) -> (r: Result<(), String>)
        requires
            chars@ == input@,
            toks@.len() == w.len(),
            forall|k: int| 0 <= k < toks@.len() ==> {
                &&& (#[trigger] toks@[k]).0 < toks@[k].1 <= chars@.len()
                &&& chars@.subrange(toks@[k].0 as int, toks@[k].1 as int) == w[k]
            },
        ensures
            match dimacs_literals(old(self).view_scan(), w, no as nat) {
                Ok(st) => r is Ok && final(self).view_scan() == st,
                Err(e) => r matches Err(m) && m@ == e,
            },
    {
        let ghost st0 = self.view_scan();
        let mut k: usize = 0;
        while k < toks.len()
            invariant
                chars@ == input@,
                toks@.len() == w.len(),
                forall|j: int| 0 <= j < toks@.len() ==> {
                    &&& (#[trigger] toks@[j]).0 < toks@[j].1 <= chars@.len()
                    &&& chars@.subrange(toks@[j].0 as int, toks@[j].1 as int) == w[j]
                },
                k <= toks@.len(),
                dimacs_literals(st0, w.take(k as int), no as nat) == Ok::<DimacsScan, Seq<char>>(self.view_scan()),
                st0 == old(self).view_scan(),
            decreases toks@.len() - k,
        {
            let (lo, hi) = toks[k];
            assert(w.take(k as int + 1).drop_last() =~= w.take(k as int));
            assert(w.take(k as int + 1).last() == w[k as int]);
            match parse_int(chars, lo, hi, true, 2147483647) {
                None => {
                    let mut msg = String::from_str("invalid literal '");
                    let tok = string_of(input, lo, hi);
                    msg.append(tok.as_str());
                    msg.append("'");
                    proof {
                        reveal_strlit("invalid literal '");
                        reveal_strlit("'");
                    }
                    let e = line_error(no, msg.as_str());
                    proof {
                        lemma_literals_err_sticks(st0, w, k as int + 1, no as nat);
                    }
                    return Err(e);
                },
                Some(v) => {
                    if v == 0 {
                        let ghost before = self.clauses@;
                        let ghost cur = self.current@;
                        let c = copy_clause(&self.current);
                        self.clauses.push(c);
                        self.current = Vec::new();
                        assert(clauses_view(self.clauses) =~= before.map_values(|v: Vec<i32>| v@).push(cur));
                    } else {
                        self.current.push(v as i32);
                    }
                },
            }
            k = k + 1;
        }
        assert(w.take(k as int) =~= w);
        Ok(())
    }

    /// Read the line `chars[lo..hi]`, line number `no`.
    fn line(&mut self, input: &str, chars: &Vec<char>, lo: usize, hi: usize, no: u128) -> (r: Result<(), String>)
        requires
            chars@ == input@,
            lo <= hi <= chars@.len(),
        ensures
            match dimacs_line(old(self).view_scan(), chars@.subrange(lo as int, hi as int), no as nat) {
                Ok(st) => r is Ok && final(self).view_scan() == st,
                Err(e) => r matches Err(m) && m@ == e,
            },
    {
        let toks = words_in(chars, lo, hi);
        let ghost w = words(chars@.subrange(lo as int, hi as int));
        if toks.len() == 0 {
            return Ok(());
        }
        let first = chars[toks[0].0];
        assert(w[0][0] == first);
        if first == 'c' {
            return Ok(());
        }
        if first == 'p' {
            if toks.len() < 4 || !chars_equal(chars, toks[1].0, toks[1].1, "cnf") {
                return Err(line_error(no, "invalid problem line, expected 'p cnf <vars> <clauses>'"));
            }
            let v = match parse_uint(chars, toks[2].0, toks[2].1, usize::MAX as u64) {
                None => {
                    return Err(line_error(no, "invalid variable count"));
                },
                Some(v) => v,
            };
            let c = match parse_uint(chars, toks[3].0, toks[3].1, usize::MAX as u64) {
                None => {
                    return Err(line_error(no, "invalid clause count"));
                },
                Some(c) => c,
            };
            if self.current.len() > 0 {
                return Err(line_error(no, "clause before problem header not terminated"));
            }
            self.num_vars = v as usize;
            self.num_clauses = c as usize;
            self.found = true;
            return Ok(());
        }
        if !self.found {
            return Err(line_error(no, "data before 'p cnf' header"));
        }
        self.literals(input, chars, &toks, no, Ghost(w))
    }
}

impl DimacsParser {
    pub fn new() -> (p: Self) {
        DimacsParser
    }

    /// Parse a complete DIMACS CNF input.
    pub fn parse(&self, input: &str) -> (r: ParseResult<DimacsProblem>)
        ensures
            match dimacs_spec(input@) {
                Ok(q) => r matches Ok(p) && p.num_vars == q.0 && p.num_clauses == q.1
                    && clauses_view(p.clauses) == q.2,
                Err(e) => r matches Err(m) && m@ == e,
            },
    {
        let chars = chars_of(input);
        let ghost s = input@;
        let mut rd = Reader { num_vars: 0, num_clauses: 0, clauses: Vec::new(), current: Vec::new(), found: false };
        assert(clauses_view(rd.clauses) =~= seq![]);
        let mut start: usize = 0;
        let mut i: usize = 0;
        let mut no: u128 = 1;
        assert(s.take(0) =~= seq![]);
        while i < chars.len()
            invariant
                chars@ == input@,
                s == input@,
                start <= i <= chars@.len(),
                1 <= no <= i + 1,
                split_on(s.take(i as int), '\n').len() == no,
                split_on(s.take(i as int), '\n').last() == s.subrange(start as int, i as int),
                dimacs_lines(split_on(s.take(i as int), '\n').drop_last()) == Ok::<DimacsScan, Seq<char>>(rd.view_scan()),
            decreases chars@.len() - i,
        {
            let ghost pre = split_on(s.take(i as int), '\n');
            assert(s.take(i as int + 1).drop_last() =~= s.take(i as int));
            assert(s.take(i as int + 1).last() == chars@[i as int]);
            assert(s.subrange(start as int, i as int) == chars@.subrange(start as int, i as int));
            if chars[i] == '\n' {
                let res = rd.line(input, &chars, start, i, no);
                assert(pre.drop_last().push(pre.last()) =~= pre);
                assert(split_on(s.take(i as int + 1), '\n') == pre.push(seq![]));
                assert(pre.push(seq![]).drop_last() =~= pre);
                match res {
                    Err(e) => {
                        proof {
                            let all = split_on(s, '\n');
                            assert(s.take(s.len() as int) =~= s);
                            lemma_split_prefix(s, i as int + 1, '\n');
                            assert(split_on(s.take(i as int + 1), '\n').drop_last() == pre);
                            assert(pre == all.take(pre.len() as int));
                            lemma_lines_err_sticks(all, pre.len() as int);
                        }
                        return Err(e);
                    },
                    Ok(()) => {},
                }
                start = i + 1;
                no = no + 1;
            } else {
                assert(s.subrange(start as int, i as int + 1) =~= s.subrange(start as int, i as int).push(chars@[i as int]));
                assert(split_on(s.take(i as int + 1), '\n').drop_last() =~= pre.drop_last());
            }
            i = i + 1;
        }
        assert(s.take(i as int) =~= s);
        let ghost all = split_on(s, '\n');
        assert(all.drop_last().push(all.last()) =~= all);
        assert(s.subrange(start as int, i as int) == chars@.subrange(start as int, i as int));
        match rd.line(input, &chars, start, i, no) {
            Err(e) => {
                return Err(e);
            },
            Ok(()) => {},
        }
        if rd.current.len() > 0 {
            let ghost before = rd.clauses@;
            let ghost cur = rd.current@;
            let c = copy_clause(&rd.current);
            rd.clauses.push(c);
            assert(clauses_view(rd.clauses) =~= before.map_values(|v: Vec<i32>| v@).push(cur));
        }
        if !rd.found {
            proof {
                reveal_strlit("missing 'p cnf' header");
            }
            return Err(String::from_str("missing 'p cnf' header"));
        }
        Ok(DimacsProblem { num_vars: rd.num_vars, num_clauses: rd.num_clauses, clauses: rd.clauses })
    }
}


/// The integer a literal token denotes (0 when it is none).
pub open spec fn token_value(t: Seq<char>) -> int {
    match int_in_range(t, true, i32::MIN as int, i32::MAX as int) {
        Some(v) => v,
        None => 0,
    }
}

/// The integers the tokens denote.
pub open spec fn token_values(toks: Seq<Seq<char>>) -> Seq<int> {
    toks.map_values(|t: Seq<char>| token_value(t))
}

/// The literals as integers.
pub open spec fn as_ints(c: Seq<i32>) -> Seq<int> {
    c.map_values(|x: i32| x as int)
}

/// The integers written on the clause lines among `lines`, in order: every
/// word of every line that is neither empty, a comment (`c`) nor a problem
/// line (`p`).
pub open spec fn data_tokens(lines: Seq<Seq<char>>) -> Seq<int>
    decreases lines.len(),
{
    if lines.len() == 0 {
        seq![]
    } else {
        let w = words(lines.last());
        let here = if w.len() == 0 || w[0][0] == 'c' || w[0][0] == 'p' {
            Seq::<int>::empty()
        } else {
            token_values(w)
        };
        data_tokens(lines.drop_last()) + here
    }
}

/// The clauses written out again: each clause's literals followed by `0`.
pub open spec fn written(cs: Seq<Seq<i32>>) -> Seq<int>
    decreases cs.len(),
{
    if cs.len() == 0 {
        seq![]
    } else {
        written(cs.drop_last()) + as_ints(cs.last()) + seq![0int]
    }
}

/// No clause holds the literal 0.
pub open spec fn no_zero_literal(cs: Seq<Seq<i32>>) -> bool {
    forall|k: int, j: int| 0 <= k < cs.len() && 0 <= j < cs[k].len() ==> #[trigger] cs[k][j] != 0
}

/// Reading the words of a clause line appends their integers to the
/// written form of the clauses so far and the clause in progress.
proof fn lemma_literals_write(st: DimacsScan, toks: Seq<Seq<char>>, no: nat)
    requires
        dimacs_literals(st, toks, no) is Ok,
        no_zero_literal(st.2),
        forall|j: int| 0 <= j < st.3.len() ==> st.3[j] != 0,
    ensures
        ({
            let s2 = dimacs_literals(st, toks, no)->Ok_0;
            &&& written(s2.2) + as_ints(s2.3) == written(st.2) + as_ints(st.3) + token_values(toks)
            &&& no_zero_literal(s2.2)
            &&& forall|j: int| 0 <= j < s2.3.len() ==> s2.3[j] != 0
            &&& s2.0 == st.0 && s2.1 == st.1 && s2.4 == st.4
        }),
    decreases toks.len(),
{
    if toks.len() == 0 {
        assert(token_values(toks) =~= seq![]);
        assert(written(st.2) + as_ints(st.3) + token_values(toks) =~= written(st.2) + as_ints(st.3));
    } else {
        lemma_literals_write(st, toks.drop_last(), no);
        let s1 = dimacs_literals(st, toks.drop_last(), no)->Ok_0;
        let s2 = dimacs_literals(st, toks, no)->Ok_0;
        let v = int_in_range(toks.last(), true, i32::MIN as int, i32::MAX as int)->Some_0;
        let base = written(st.2) + as_ints(st.3);
        assert(token_value(toks.last()) == v);
        assert(token_values(toks) =~= token_values(toks.drop_last()).push(v));
        assert(written(s1.2) + as_ints(s1.3) == base + token_values(toks.drop_last()));
        if v == 0 {
            assert(s2.2 == s1.2.push(s1.3));
            assert(s2.2.drop_last() =~= s1.2);
            assert(written(s2.2) == written(s1.2) + as_ints(s1.3) + seq![0int]);
            assert(as_ints(s2.3) =~= seq![]);
            assert(written(s2.2) + as_ints(s2.3) =~= written(s1.2) + as_ints(s1.3) + seq![0int]);
            assert(written(s2.2) + as_ints(s2.3) =~= base + token_values(toks));
            assert forall|k: int, j: int| 0 <= k < s2.2.len() && 0 <= j < s2.2[k].len() implies #[trigger] s2.2[k][j] != 0 by {
                if k < s1.2.len() {
                    assert(s2.2[k] == s1.2[k]);
                }
            }
        } else {
            assert(s2.3 == s1.3.push(v as i32));
            assert(as_ints(s2.3) =~= as_ints(s1.3).push(v));
            assert(written(s2.2) + as_ints(s2.3) =~= written(s1.2) + as_ints(s1.3) + seq![v]);
            assert(written(s2.2) + as_ints(s2.3) =~= base + token_values(toks));
        }
    }
}

/// The written form of the clauses read so far and the clause in progress
/// is the sequence of integers on the clause lines read so far.
proof fn lemma_lines_write(lines: Seq<Seq<char>>)
    requires
        dimacs_lines(lines) is Ok,
    ensures
        ({
            let st = dimacs_lines(lines)->Ok_0;
            &&& written(st.2) + as_ints(st.3) == data_tokens(lines)
            &&& no_zero_literal(st.2)
            &&& forall|j: int| 0 <= j < st.3.len() ==> st.3[j] != 0
        }),
    decreases lines.len(),
{
    if lines.len() == 0 {
        assert(written(seq![]) + as_ints(seq![]) =~= seq![]);
    } else {
        lemma_lines_write(lines.drop_last());
        let st = dimacs_lines(lines.drop_last())->Ok_0;
        let line = lines.last();
        let w = words(line);
        let no = lines.len();
        if w.len() == 0 || w[0][0] == 'c' {
            assert(data_tokens(lines) =~= data_tokens(lines.drop_last()));
        } else if w[0][0] == 'p' {
            assert(data_tokens(lines) =~= data_tokens(lines.drop_last()));
        } else {
            lemma_literals_write(st, w, no);
            assert(data_tokens(lines) == data_tokens(lines.drop_last()) + token_values(w));
        }
    }
}

/// Every integer on the clause lines of a DIMACS text lands in the clauses,
/// in order: written back out, each clause followed by `0`, the clauses give
/// exactly those integers (the last `0` left out when the final clause was
/// not terminated), and no clause holds `0`. So no literal is dropped, moved
/// to another clause or reordered, whatever the clause's length.
pub proof fn lemma_clauses_are_the_tokens(s: Seq<char>)
    requires
        dimacs_spec(s) is Ok,
    ensures
        ({
            let cls = dimacs_spec(s)->Ok_0.2;
            let data = data_tokens(split_on(s, '\n'));
            &&& no_zero_literal(cls)
            &&& (data == written(cls) || (cls.len() > 0 && cls.last().len() > 0 && data == written(cls.drop_last())
                + as_ints(cls.last())))
        }),
{
    let lines = split_on(s, '\n');
    lemma_lines_write(lines);
    let st = dimacs_lines(lines)->Ok_0;
    if st.3.len() > 0 {
        let cls = st.2.push(st.3);
        assert(cls.drop_last() =~= st.2);
        assert forall|k: int, j: int| 0 <= k < cls.len() && 0 <= j < cls[k].len() implies #[trigger] cls[k][j] != 0 by {
            if k < st.2.len() {
                assert(cls[k] == st.2[k]);
            }
        }
    } else {
        assert(as_ints(st.3) =~= seq![]);
        assert(written(st.2) + as_ints(st.3) =~= written(st.2));
    }
}
} // verus!
