//! Minimal LP file format parser.
//!
//! Supports a simple text format:
//!
//! ```text
//! min -1*x0 + 2*x1
//! x0 + 2*x1 <= 10
//! x0 >= 0
//! x1 >= 0
//! ```
//!
//! - `min <expr>` or `max <expr>` sets the objective.
//! - `<expr> <= <num>`, `<expr> >= <num>`, `<expr> = <num>` are constraints.
//! - Variables are `x` followed by digits (`x0`, `x1`, …).
//! - Terms: `coeff*var` or `var`.
//!
//! Numbers are decimals (an optional sign, digits, an optional point and
//! more digits), optionally followed by an exponent (`e` or `E` and a
//! signed integer from -4001 to 4000, as in `1e3` or `2.5E-2`), read
//! exactly and rounded to nine places after the point.
use vstd::prelude::*;
use crate::parser::ParseResult;
use crate::parser::text::{
    digits_value, all_digits, canonical_digits, lemma_decimal_canonical, lemma_canonical_decimal, digits_only,
    digits_up_to, chars_of, trim, trim_bounds, split_on, lemma_split_prefix, line_msg, line_error,
    string_of, chars_equal, text_eq, int_in_range, parse_int,
};
use crate::linear::{CmpOp, Rational, LinearSystem, Var, Bound, Domain};
use crate::linear::rational::{fits_i64, div_ok, rat_div, rat_neg, add_ok};
use crate::linear::{LinearExpr, LinearTerm, LinearConstraint, Objective};
use crate::linear::expr::{
    coeffs_of, sum_seq, sum_ok, merge_ok, is_merge_of, mentions, merge_terms, lemma_coeffs_take_step, lemma_coeffs_absent,
};
use crate::parser::text::{decimal, push_decimal};

verus! {

// ── Numbers ──────────────────────────────────────────────────────────

/// One billion: numbers keep nine places after the point.
pub open spec fn billion() -> int {
    1000000000
}

/// The first position of `c` in `s`.
pub open spec fn first_index(s: Seq<char>, c: char) -> Option<int>
    decreases s.len(),
{
    if s.len() == 0 {
        None
    } else {
        match first_index(s.drop_last(), c) {
            Some(i) => Some(i),
            None => if s.last() == c { Some(s.len() - 1) } else { None },
        }
    }
}

/// The digits after the point, counted in billionths (the first nine).
pub open spec fn frac9(fp: Seq<char>) -> int {
    digits_value((fp + Seq::new(9, |i: int| '0')).take(9))
}

/// One when the tenth digit after the point rounds the billionths up.
pub open spec fn round_up(fp: Seq<char>) -> int {
    if fp.len() > 9 && fp[9] >= '5' { 1 } else { 0 }
}

/// The value of a number token: an optional `+` or `-`, digits, and an
/// optional point followed by digits (at least one digit in all), rounded
/// to nine places after the point; `None` for any other text or a value
/// that `i64` parts cannot hold.
pub open spec fn lp_number(t: Seq<char>) -> Option<Rational> {
    let neg = t.len() > 0 && t[0] == '-';
    let b = if t.len() > 0 && (t[0] == '-' || t[0] == '+') { t.drop_first() } else { t };
    let (ip, fp) = match first_index(b, '.') {
        Some(d) => (b.take(d), b.skip(d + 1)),
        None => (b, Seq::<char>::empty()),
    };
    if !all_digits(ip) || !all_digits(fp) || ip.len() + fp.len() == 0 {
        None
    } else {
        let n = digits_value(ip) * billion() + frac9(fp) + round_up(fp);
        let v = if neg { -n } else { n };
        if n % billion() == 0 {
            if fits_i64(v / billion()) { Some(Rational::spec_make(v / billion(), 1)) } else { None }
        } else {
            if fits_i64(v) { Some(Rational::spec_make(v, billion())) } else { None }
        }
    }
}

proof fn lemma_first_index(s: Seq<char>, c: char)
    ensures
        match first_index(s, c) {
            Some(i) => 0 <= i < s.len() && s[i] == c && forall|k: int| 0 <= k < i ==> s[k] != c,
            None => forall|k: int| 0 <= k < s.len() ==> s[k] != c,
        },
    decreases s.len(),
{
    if s.len() > 0 {
        lemma_first_index(s.drop_last(), c);
        assert forall|k: int| 0 <= k < s.len() - 1 implies s[k] == s.drop_last()[k] by {}
    }
}

proof fn lemma_digits_value_nonneg(s: Seq<char>)
    requires
        all_digits(s),
    ensures
        digits_value(s) >= 0,
    decreases s.len(),
{
    if s.len() > 0 {
        lemma_digits_value_nonneg(s.drop_last());
    }
}

/// A longer digit string is worth at least as much as its prefix.
proof fn lemma_digits_value_prefix(s: Seq<char>, k: int)
    requires
        all_digits(s),
        0 <= k <= s.len(),
    ensures
        digits_value(s.take(k)) <= digits_value(s),
    decreases s.len() - k,
{
    if k < s.len() {
        lemma_digits_value_prefix(s, k + 1);
        assert(s.take(k + 1).drop_last() =~= s.take(k));
        lemma_digits_value_nonneg(s.take(k));
    } else {
        assert(s.take(k) =~= s);
    }
}

/// The value of the digits `s[lo..hi]`, or `None` when it reaches 10^19.
fn digits_capped(s: &Vec<char>, lo: usize, hi: usize) -> (r: Option<u128>)
    requires
        lo <= hi <= s@.len(),
        all_digits(s@.subrange(lo as int, hi as int)),
    ensures
        match r {
            Some(v) => v == digits_value(s@.subrange(lo as int, hi as int)) && v < 10000000000000000000u128,
            None => digits_value(s@.subrange(lo as int, hi as int)) >= 10000000000000000000u128,
        },
{
    let ghost sub = s@.subrange(lo as int, hi as int);
    let mut acc: u128 = 0;
    let mut i: usize = lo;
    while i < hi
        invariant
            lo <= i <= hi <= s@.len(),
            sub == s@.subrange(lo as int, hi as int),
            all_digits(sub),
            acc == digits_value(s@.subrange(lo as int, i as int)),
            acc < 10000000000000000000u128,
        decreases hi - i,
    {
        let c = s[i];
        assert(sub[i - lo] == c);
        assert(s@.subrange(lo as int, i as int + 1).drop_last() =~= s@.subrange(lo as int, i as int));
        let d = (c as u32 - '0' as u32) as u128;
        acc = acc * 10 + d;
        i = i + 1;
        if acc >= 10000000000000000000u128 {
            proof {
                assert(s@.subrange(lo as int, i as int) =~= sub.take(i - lo));
                lemma_digits_value_prefix(sub, i - lo);
            }
            return None;
        }
    }
    Some(acc)
}

/// Whether `s[lo..hi]` holds digits only.
fn check_digits(s: &Vec<char>, lo: usize, hi: usize) -> (b: bool)
    requires
        lo <= hi <= s@.len(),
    ensures
        b == all_digits(s@.subrange(lo as int, hi as int)),
{
    let ghost w = s@.subrange(lo as int, hi as int);
    let mut k = lo;
    while k < hi
        invariant
            lo <= k <= hi <= s@.len(),
            w == s@.subrange(lo as int, hi as int),
            forall|q: int| lo <= q < k ==> '0' <= #[trigger] s@[q] && s@[q] <= '9',
        decreases hi - k,
    {
        if s[k] < '0' || s[k] > '9' {
            assert(w[k - lo] == s@[k as int]);
            return false;
        }
        k = k + 1;
    }
    assert forall|q: int| 0 <= q < w.len() implies '0' <= #[trigger] w[q] && w[q] <= '9' by {
        assert(w[q] == s@[lo + q]);
    }
    true
}

/// The billionths of the digits `s[lo..hi]` after a point, and whether the
/// tenth digit rounds them up.
fn frac_parts(s: &Vec<char>, lo: usize, hi: usize) -> (r: (u128, u128))
    requires
        lo <= hi <= s@.len(),
        all_digits(s@.subrange(lo as int, hi as int)),
    ensures
        r.0 == frac9(s@.subrange(lo as int, hi as int)),
        r.0 < 1000000000,
        r.1 == round_up(s@.subrange(lo as int, hi as int)),
{
    let ghost fp = s@.subrange(lo as int, hi as int);
    let ghost pad = (fp + Seq::new(9, |i: int| '0')).take(9);
    assert(pad.take(0) =~= Seq::<char>::empty());
    let mut f9: u128 = 0;
    let mut j: usize = 0;
    while j < 9
        invariant
            j <= 9,
            lo <= hi <= s@.len(),
            fp == s@.subrange(lo as int, hi as int),
            all_digits(fp),
            pad == (fp + Seq::new(9, |i: int| '0')).take(9),
            f9 == digits_value(pad.take(j as int)),
            f9 < pow10(j as nat),
        decreases 9 - j,
    {
        let d: u128 = if j < hi - lo {
            let c = s[lo + j];
            assert(fp[j as int] == c);
            assert(pad[j as int] == c);
            (c as u32 - '0' as u32) as u128
        } else {
            assert(pad[j as int] == '0');
            0
        };
        assert(pad.take(j as int + 1).drop_last() =~= pad.take(j as int));
        assert(pow10(j as nat + 1) == 10 * pow10(j as nat));
        assert(pow10(j as nat + 1) <= 1000000000) by {
            reveal_with_fuel(pow10, 11);
        }
        f9 = f9 * 10 + d;
        j = j + 1;
    }
    assert(pad.take(9) =~= pad);
    assert(pow10(9) == 1000000000) by {
        reveal_with_fuel(pow10, 10);
    }
    let rb: u128 = if hi - lo > 9 && s[lo + 9] >= '5' {
        1
    } else {
        0
    };
    assert(hi - lo > 9 ==> fp[9] == s@[lo + 9]);
    (f9, rb)
}

/// The value `±n` billionths as a rational (see `lp_number`).
fn from_billionths(n: u128, neg: bool) -> (r: Option<Rational>)
    ensures
        ({
            let v: int = if neg { -(n as int) } else { n as int };
            r == (if n % 1000000000 == 0 {
                if fits_i64(v / billion()) { Some(Rational::spec_make(v / billion(), 1)) } else { None }
            } else {
                if fits_i64(v) { Some(Rational::spec_make(v, billion())) } else { None }
            })
        }),
{
    let ghost v: int = if neg { -(n as int) } else { n as int };
    if n % 1000000000 == 0 {
        let q: u128 = n / 1000000000;
        assert(v / billion() == (if neg { -(q as int) } else { q as int }));
        if neg {
            if q > 9223372036854775808u128 {
                return None;
            }
            let w: i128 = -(q as i128);
            Some(Rational::new(w as i64, 1))
        } else {
            if q > 9223372036854775807u128 {
                return None;
            }
            Some(Rational::new(q as i64, 1))
        }
    } else {
        if neg {
            if n > 9223372036854775808u128 {
                return None;
            }
            let w: i128 = -(n as i128);
            Some(Rational::new(w as i64, 1000000000))
        } else {
            if n > 9223372036854775807u128 {
                return None;
            }
            Some(Rational::new(n as i64, 1000000000))
        }
    }
}

/// The value of the number token `s[lo..hi]` (see `lp_number`).
pub fn parse_number(s: &Vec<char>, lo: usize, hi: usize) -> (r: Option<Rational>)
    requires
        lo <= hi <= s@.len(),
    ensures
        r == lp_number(s@.subrange(lo as int, hi as int)),
{
    let ghost t = s@.subrange(lo as int, hi as int);
    let neg = lo < hi && s[lo] == '-';
    let start = if lo < hi && (s[lo] == '-' || s[lo] == '+') { lo + 1 } else { lo };
    let ghost b = s@.subrange(start as int, hi as int);
    proof {
        if lo < hi && (s@[lo as int] == '-' || s@[lo as int] == '+') {
            assert(b =~= t.drop_first());
        } else {
            assert(b =~= t);
        }
        lemma_first_index(b, '.');
    }
    let mut dot = start;
    while dot < hi && s[dot] != '.'
        invariant
            start <= dot <= hi <= s@.len(),
            forall|k: int| start <= k < dot ==> s@[k] != '.',
        decreases hi - dot,
    {
        dot = dot + 1;
    }
    let frac_lo = if dot < hi { dot + 1 } else { hi };
    let ghost ip = s@.subrange(start as int, dot as int);
    let ghost fp = s@.subrange(frac_lo as int, hi as int);
    proof {
        if dot < hi {
            assert(b[dot - start] == '.');
            assert forall|k: int| 0 <= k < dot - start implies b[k] != '.' by {
                assert(b[k] == s@[start + k]);
            }
            assert(first_index(b, '.') == Some(dot - start));
            assert(b.take(dot - start) =~= ip);
            assert(b.skip(dot - start + 1) =~= fp);
        } else {
            assert forall|k: int| 0 <= k < b.len() implies b[k] != '.' by {
                assert(b[k] == s@[start + k]);
            }
            assert(first_index(b, '.') is None);
            assert(b =~= ip);
            assert(fp =~= Seq::<char>::empty());
        }
    }
    if !check_digits(s, start, dot) || !check_digits(s, frac_lo, hi) {
        return None;
    }
    if dot - start + (hi - frac_lo) == 0 {
        return None;
    }
    let (f9, rb) = frac_parts(s, frac_lo, hi);
    let ip_val = match digits_capped(s, start, dot) {
        Some(v) => v,
        None => {
            proof {
                let w = (fp + Seq::new(9, |i: int| '0')).take(9);
                assert(all_digits(w)) by {
                    assert forall|q: int| 0 <= q < w.len() implies '0' <= #[trigger] w[q] && w[q] <= '9' by {
                        if q < fp.len() {
                            assert(w[q] == fp[q]);
                        }
                    }
                }
                lemma_digits_value_nonneg(w);
            }
            return None;
        },
    };
    let n: u128 = ip_val * 1000000000 + f9 + rb;
    proof {
        assert(neg == (t.len() > 0 && t[0] == '-'));
    }
    from_billionths(n, neg)
}

/// The position of the first `e` or `E` in `t`.
pub open spec fn exp_mark(t: Seq<char>) -> Option<int> {
    match (first_index(t, 'e'), first_index(t, 'E')) {
        (Some(a), Some(b)) => Some(if a < b { a } else { b }),
        (Some(a), None) => Some(a),
        (None, Some(b)) => Some(b),
        (None, None) => None,
    }
}

/// The sign character of a mantissa, when it has one.
pub open spec fn sign_part(m: Seq<char>) -> Seq<char> {
    if m.len() > 0 && (m[0] == '-' || m[0] == '+') { m.take(1) } else { Seq::empty() }
}

/// The digits before and after the point of a mantissa without its sign.
pub open spec fn point_parts(b: Seq<char>) -> (Seq<char>, Seq<char>) {
    match first_index(b, '.') {
        Some(d) => (b.take(d), b.skip(d + 1)),
        None => (b, Seq::empty()),
    }
}

/// A mantissa: an optional sign, digits, and an optional point followed by
/// digits, with at least one digit in all.
pub open spec fn mantissa_ok(m: Seq<char>) -> bool {
    let (ip, fp) = point_parts(m.skip(sign_part(m).len() as int));
    all_digits(ip) && all_digits(fp) && ip.len() + fp.len() > 0
}

/// `n` zeros.
pub open spec fn zero_chars(n: int) -> Seq<char> {
    Seq::new(if n > 0 { n as nat } else { 0 }, |i: int| '0')
}

/// The digits `ds` with a point placed after the first `pos` of them,
/// written as a plain decimal (zeros filled in as needed).
pub open spec fn place_point(ds: Seq<char>, pos: int) -> Seq<char> {
    if pos <= 0 {
        seq!['0', '.'] + zero_chars(-pos) + ds
    } else if pos >= ds.len() {
        ds + zero_chars(pos - ds.len())
    } else {
        ds.take(pos) + seq!['.'] + ds.skip(pos)
    }
}

/// The mantissa `m` with its point moved `e` places to the right (to the
/// left when `e` is negative), written as a plain decimal.
pub open spec fn shift_point(m: Seq<char>, e: int) -> Seq<char> {
    let (ip, fp) = point_parts(m.skip(sign_part(m).len() as int));
    sign_part(m) + place_point(ip + fp, ip.len() + e)
}

/// The value of a number token, which may end in an exponent: `m e x` (or
/// `m E x`) is the mantissa `m` times ten to the `x`, for an exponent `x`
/// from -4001 to 4000, rounded as `lp_number` rounds; without an exponent,
/// `lp_number`.
pub open spec fn lp_value(t: Seq<char>) -> Option<Rational> {
    match exp_mark(t) {
        None => lp_number(t),
        Some(k) => match int_in_range(t.skip(k + 1), true, -4001, 4000) {
            None => None,
            Some(e) => if mantissa_ok(t.take(k)) { lp_number(shift_point(t.take(k), e)) } else { None },
        },
    }
}

/// Append `s[a..b]` to `out`.
fn push_chars(out: &mut Vec<char>, s: &Vec<char>, a: usize, b: usize)
    requires
        a <= b <= s@.len(),
    ensures
        final(out)@ == old(out)@ + s@.subrange(a as int, b as int),
{
    let mut i = a;
    while i < b
        invariant
            a <= i <= b <= s@.len(),
            out@ == old(out)@ + s@.subrange(a as int, i as int),
        decreases b - i,
    {
        out.push(s[i]);
        i = i + 1;
        assert(out@ =~= old(out)@ + s@.subrange(a as int, i as int));
    }
}

/// Append `n` zeros to `out`.
fn push_zeros(out: &mut Vec<char>, n: usize)
    ensures
        final(out)@ == old(out)@ + zero_chars(n as int),
{
    let mut i: usize = 0;
    while i < n
        invariant
            i <= n,
            out@ == old(out)@ + zero_chars(i as int),
        decreases n - i,
    {
        out.push('0');
        i = i + 1;
        assert(out@ =~= old(out)@ + zero_chars(i as int));
    }
}

/// Where the parts of the mantissa `s[lo..k]` lie: the end of its sign,
/// the position of its point (or `k`), and the start of its fraction.
fn mantissa_bounds(s: &Vec<char>, lo: usize, k: usize) -> (r: (usize, usize, usize))
    requires
        lo <= k <= s@.len(),
    ensures
        lo <= r.0 <= r.1 <= r.2 <= k,
        s@.subrange(lo as int, r.0 as int) == sign_part(s@.subrange(lo as int, k as int)),
        point_parts(s@.subrange(lo as int, k as int).skip(sign_part(s@.subrange(lo as int, k as int)).len() as int))
            == (s@.subrange(r.0 as int, r.1 as int), s@.subrange(r.2 as int, k as int)),
{
    let ghost m = s@.subrange(lo as int, k as int);
    let start = if lo < k && (s[lo] == '-' || s[lo] == '+') { lo + 1 } else { lo };
    let ghost b = s@.subrange(start as int, k as int);
    proof {
        assert(sign_part(m) =~= s@.subrange(lo as int, start as int));
        assert(m.skip(sign_part(m).len() as int) =~= b);
        lemma_first_index(b, '.');
    }
    let mut dot = start;
    while dot < k && s[dot] != '.'
        invariant
            start <= dot <= k <= s@.len(),
            forall|q: int| start <= q < dot ==> s@[q] != '.',
        decreases k - dot,
    {
        dot = dot + 1;
    }
    let frac_lo = if dot < k { dot + 1 } else { k };
    let ghost ip = s@.subrange(start as int, dot as int);
    let ghost fp = s@.subrange(frac_lo as int, k as int);
    proof {
        if dot < k {
            assert(b[dot - start] == '.');
            assert forall|q: int| 0 <= q < dot - start implies b[q] != '.' by {
                assert(b[q] == s@[start + q]);
            }
            assert(first_index(b, '.') == Some(dot - start));
            assert(b.take(dot - start) =~= ip);
            assert(b.skip(dot - start + 1) =~= fp);
        } else {
            assert forall|q: int| 0 <= q < b.len() implies b[q] != '.' by {
                assert(b[q] == s@[start + q]);
            }
            assert(first_index(b, '.') is None);
            assert(b =~= ip);
            assert(fp =~= Seq::<char>::empty());
        }
    }
    (start, dot, frac_lo)
}

/// `out` followed by the digits `ds` with a point after the first `pos`
/// (see `place_point`).
fn push_placed(out: &mut Vec<char>, ds: &Vec<char>, pos: i128)
    requires
        -5000 <= pos <= ds@.len() + 5000,
    ensures
        final(out)@ == old(out)@ + place_point(ds@, pos as int),
{
    let dl = ds.len();
    let ghost head = out@;
    assert(ds@.subrange(0, dl as int) =~= ds@);
    if pos <= 0 {
        out.push('0');
        out.push('.');
        push_zeros(out, (-pos) as usize);
        push_chars(out, ds, 0, dl);
        assert(out@ =~= head + (seq!['0', '.'] + zero_chars(-pos) + ds@));
    } else if pos >= dl as i128 {
        push_chars(out, ds, 0, dl);
        push_zeros(out, (pos - dl as i128) as usize);
        assert(out@ =~= head + (ds@ + zero_chars(pos - dl)));
    } else {
        let p = pos as usize;
        push_chars(out, ds, 0, p);
        out.push('.');
        push_chars(out, ds, p, dl);
        assert(ds@.subrange(0, p as int) =~= ds@.take(p as int));
        assert(ds@.subrange(p as int, dl as int) =~= ds@.skip(p as int));
        assert(out@ =~= head + (ds@.take(p as int) + seq!['.'] + ds@.skip(p as int)));
    }
}

/// The mantissa `s[lo..k]` with its point moved `e` places (see
/// `shift_point`), or `None` when it is no mantissa.
fn shifted_mantissa(s: &Vec<char>, lo: usize, k: usize, e: i64) -> (r: Option<Vec<char>>)
    requires
        lo <= k <= s@.len(),
        -4001 <= e <= 4000,
    ensures
        r is Some <==> mantissa_ok(s@.subrange(lo as int, k as int)),
        r matches Some(v) ==> v@ == shift_point(s@.subrange(lo as int, k as int), e as int),
{
    let (start, dot, frac_lo) = mantissa_bounds(s, lo, k);
    let ghost ip = s@.subrange(start as int, dot as int);
    let ghost fp = s@.subrange(frac_lo as int, k as int);
    if !check_digits(s, start, dot) || !check_digits(s, frac_lo, k) || (dot - start) + (k - frac_lo) == 0 {
        return None;
    }
    let mut ds: Vec<char> = Vec::new();
    push_chars(&mut ds, s, start, dot);
    push_chars(&mut ds, s, frac_lo, k);
    assert(ds@ =~= ip + fp);
    let mut out: Vec<char> = Vec::new();
    push_chars(&mut out, s, lo, start);
    assert(out@ =~= s@.subrange(lo as int, start as int));
    let pos: i128 = (dot - start) as i128 + e as i128;
    push_placed(&mut out, &ds, pos);
    Some(out)
}

/// The value of the number token `s[lo..hi]`, an exponent included (see
/// `lp_value`).
pub fn parse_value(s: &Vec<char>, lo: usize, hi: usize) -> (r: Option<Rational>)
    requires
        lo <= hi <= s@.len(),
    ensures
        r == lp_value(s@.subrange(lo as int, hi as int)),
{
    let ghost t = s@.subrange(lo as int, hi as int);
    let mut k = lo;
    while k < hi && s[k] != 'e' && s[k] != 'E'
        invariant
            lo <= k <= hi <= s@.len(),
            forall|q: int| lo <= q < k ==> s@[q] != 'e' && s@[q] != 'E',
        decreases hi - k,
    {
        k = k + 1;
    }
    proof {
        lemma_first_index(t, 'e');
        lemma_first_index(t, 'E');
        if k == hi {
            assert forall|q: int| 0 <= q < t.len() implies t[q] != 'e' && t[q] != 'E' by {
                assert(t[q] == s@[lo + q]);
            }
            assert(exp_mark(t) is None);
        } else {
            assert forall|q: int| 0 <= q < k - lo implies t[q] != 'e' && t[q] != 'E' by {
                assert(t[q] == s@[lo + q]);
            }
            assert(t[k - lo] == s@[k as int]);
            assert(exp_mark(t) == Some(k - lo));
        }
    }
    if k == hi {
        return parse_number(s, lo, hi);
    }
    assert(t.take(k - lo) =~= s@.subrange(lo as int, k as int));
    assert(t.skip(k - lo + 1) =~= s@.subrange(k + 1, hi as int));
    let e = match parse_int(s, k + 1, hi, true, 4000) {
        None => {
            return None;
        },
        Some(v) => v,
    };
    match shifted_mantissa(s, lo, k, e) {
        None => None,
        Some(out) => {
            let n = out.len();
            assert(out@.subrange(0, n as int) =~= out@);
            parse_number(&out, 0, n)
        },
    }
}

/// Ten to the power `k`.
pub open spec fn pow10(k: nat) -> int
    decreases k,
{
    if k == 0 {
        1
    } else {
        10 * pow10((k - 1) as nat)
    }
}

// ── Lines ────────────────────────────────────────────────────────────

/// What the lines read so far hold: the objective (minimise?, text), the
/// constraints (expression text, operator, right-hand side), the integer
/// declarations, and whether `end` was seen.
pub type LpScan = (Option<(bool, Seq<char>)>, Seq<(Seq<char>, CmpOp, Rational)>, Seq<Seq<char>>, bool);

/// `s` without the `;` characters it ends with.
pub open spec fn strip_semis(s: Seq<char>) -> Seq<char>
    decreases s.len(),
{
    if s.len() > 0 && s.last() == ';' {
        strip_semis(s.drop_last())
    } else {
        s
    }
}

/// The first position of the two-character operator `a b` in `l`.
pub open spec fn find_op(l: Seq<char>, a: char, b: char, p: int) -> Option<int>
    decreases l.len() - p,
{
    if p < 0 || p + 2 > l.len() {
        None
    } else if l[p] == a && l[p + 1] == b {
        Some(p)
    } else {
        find_op(l, a, b, p + 1)
    }
}

/// The right-hand side text after position `p`: trimmed, without trailing
/// `;`, trimmed again.
pub open spec fn rhs_text(l: Seq<char>, p: int) -> Seq<char> {
    trim(strip_semis(trim(l.skip(p))))
}

/// A constraint line `e op r`: the constraint, or the error for a bad number.
pub open spec fn constraint_line(st: LpScan, l: Seq<char>, p: int, width: int, op: CmpOp) -> Result<LpScan, Seq<char>> {
    let e = trim(l.take(p));
    let r = rhs_text(l, p + width);
    match lp_value(r) {
        Some(v) => Ok((st.0, st.1.push((e, op, v)), st.2, st.3)),
        None => Err("bad number: "@ + r),
    }
}

/// Reading one line, number `no`.
pub open spec fn lp_line(st: LpScan, line: Seq<char>, no: nat) -> Result<LpScan, Seq<char>> {
    let l = trim(line);
    if st.3 || l.len() == 0 || l[0] == '#' || l[0] == 'c' {
        Ok(st)
    } else if l == "end"@ {
        Ok((st.0, st.1, st.2, true))
    } else if l.len() >= 4 && l.take(4) == "min "@ {
        Ok((Some((true, strip_semis(l.skip(4)))), st.1, st.2, st.3))
    } else if l.len() >= 4 && l.take(4) == "max "@ {
        Ok((Some((false, strip_semis(l.skip(4)))), st.1, st.2, st.3))
    } else if l.len() >= 4 && l.take(4) == "int "@ {
        let name = trim(l.skip(4));
        if name.len() > 0 {
            Ok((st.0, st.1, st.2.push(name), st.3))
        } else {
            Ok(st)
        }
    } else {
        match find_op(l, '<', '=', 0) {
            Some(p) => constraint_line(st, l, p, 2, CmpOp::Le),
            None => match find_op(l, '>', '=', 0) {
                Some(p) => constraint_line(st, l, p, 2, CmpOp::Ge),
                None => match first_index(l, '=') {
                    Some(p) => constraint_line(st, l, p, 1, CmpOp::Eq),
                    None => Err(line_msg(no, "bad syntax: "@ + l)),
                },
            },
        }
    }
}

/// Reading the lines in order; the first error stops the reading.
pub open spec fn lp_lines(lines: Seq<Seq<char>>) -> Result<LpScan, Seq<char>>
    decreases lines.len(),
{
    if lines.len() == 0 {
        Ok((None, seq![], seq![], false))
    } else {
        match lp_lines(lines.drop_last()) {
            Err(e) => Err(e),
            Ok(st) => lp_line(st, lines.last(), lines.len()),
        }
    }
}

proof fn lemma_lp_lines_err_sticks(lines: Seq<Seq<char>>, j: int)
    requires
        0 <= j <= lines.len(),
        lp_lines(lines.take(j)) is Err,
    ensures
        lp_lines(lines) == lp_lines(lines.take(j)),
    decreases lines.len() - j,
{
    if j < lines.len() {
        assert(lines.take(j + 1).drop_last() =~= lines.take(j));
        lemma_lp_lines_err_sticks(lines, j + 1);
    } else {
        assert(lines.take(j) =~= lines);
    }
}

/// The lines read so far, as held during parsing.
struct LineState {
    objective: Option<(bool, String)>,
    constraints: Vec<(String, CmpOp, Rational)>,
    ints: Vec<String>,
    done: bool,
}

/// The value of the line state.
spec fn line_scan(st: LineState) -> LpScan {
    (
        match st.objective {
            Some((m, t)) => Some((m, t@)),
            None => None,
        },
        st.constraints@.map_values(|c: (String, CmpOp, Rational)| (c.0@, c.1, c.2)),
        st.ints@.map_values(|n: String| n@),
        st.done,
    )
}

/// The end of `s[lo..hi]` without its trailing `;` characters.
fn strip_semis_end(s: &Vec<char>, lo: usize, hi: usize) -> (e: usize)
    requires
        lo <= hi <= s@.len(),
    ensures
        lo <= e <= hi,
        s@.subrange(lo as int, e as int) == strip_semis(s@.subrange(lo as int, hi as int)),
{
    let mut e = hi;
    while e > lo && s[e - 1] == ';'
        invariant
            lo <= e <= hi <= s@.len(),
            strip_semis(s@.subrange(lo as int, e as int)) == strip_semis(s@.subrange(lo as int, hi as int)),
        decreases e - lo,
    {
        assert(s@.subrange(lo as int, e as int).drop_last() =~= s@.subrange(lo as int, e as int - 1));
        e = e - 1;
    }
    e
}

/// The first position from `from` of the operator `a b` in `s[lo..hi]`,
/// relative to `lo`.
fn find_op_in(s: &Vec<char>, lo: usize, hi: usize, a: char, b: char) -> (r: Option<usize>)
    requires
        lo <= hi <= s@.len(),
    ensures
        r matches Some(p) ==> find_op(s@.subrange(lo as int, hi as int), a, b, 0) == Some(p as int) && p + 2 <= hi - lo,
        r is None ==> find_op(s@.subrange(lo as int, hi as int), a, b, 0) is None,
{
    let ghost l = s@.subrange(lo as int, hi as int);
    let mut p: usize = 0;
    while p < hi - lo && hi - lo - p >= 2
        invariant
            lo <= hi <= s@.len(),
            l == s@.subrange(lo as int, hi as int),
            p <= hi - lo,
            find_op(l, a, b, 0) == find_op(l, a, b, p as int),
        decreases hi - lo - p,
    {
        if s[lo + p] == a && s[lo + p + 1] == b {
            assert(l[p as int] == a && l[p as int + 1] == b);
            return Some(p);
        }
        assert(!(l[p as int] == a && l[p as int + 1] == b));
        p = p + 1;
    }
    None
}

/// The first position of `c` in `s[lo..hi]`, relative to `lo`.
fn first_index_in(s: &Vec<char>, lo: usize, hi: usize, c: char) -> (r: Option<usize>)
    requires
        lo <= hi <= s@.len(),
    ensures
        r matches Some(p) ==> first_index(s@.subrange(lo as int, hi as int), c) == Some(p as int) && p < hi - lo,
        r is None ==> first_index(s@.subrange(lo as int, hi as int), c) is None,
{
    let ghost l = s@.subrange(lo as int, hi as int);
    proof {
        lemma_first_index(l, c);
    }
    let mut p: usize = 0;
    while p < hi - lo
        invariant
            lo <= hi <= s@.len(),
            l == s@.subrange(lo as int, hi as int),
            p <= hi - lo,
            forall|k: int| 0 <= k < p ==> l[k] != c,
        decreases hi - lo - p,
    {
        if s[lo + p] == c {
            assert(l[p as int] == c);
            proof {
                lemma_first_index(l, c);
            }
            return Some(p);
        }
        p = p + 1;
    }
    None
}

/// Read the constraint line `s[lo..hi]` whose operator of `width`
/// characters starts at `lo + p`.
fn read_constraint(st: &mut LineState, src: &str, s: &Vec<char>, lo: usize, hi: usize, p: usize, width: usize, op: CmpOp)
    -> (r: ParseResult<()>)
    requires
        s@ == src@,
        lo <= hi <= s@.len(),
        p + width <= hi - lo,
    ensures
        match constraint_line(line_scan(*old(st)), s@.subrange(lo as int, hi as int), p as int, width as int, op) {
            Ok(sc) => r is Ok && line_scan(*final(st)) == sc,
            Err(m) => r matches Err(e) && e@ == m,
        },
{
    let ghost l = s@.subrange(lo as int, hi as int);
    let (e0, e1) = trim_bounds(s, lo, lo + p);
    assert(l.take(p as int) =~= s@.subrange(lo as int, lo + p));
    let (a0, a1) = trim_bounds(s, lo + p + width, hi);
    assert(l.skip(p + width) =~= s@.subrange(lo + p + width, hi as int));
    let a2 = strip_semis_end(s, a0, a1);
    let (r0, r1) = trim_bounds(s, a0, a2);
    match parse_value(s, r0, r1) {
        Some(v) => {
            let e = string_of(src, e0, e1);
            let ghost before = st.constraints@;
            st.constraints.push((e, op, v));
            proof {
                assert(st.constraints@.map_values(|c: (String, CmpOp, Rational)| (c.0@, c.1, c.2))
                    =~= before.map_values(|c: (String, CmpOp, Rational)| (c.0@, c.1, c.2)).push((e@, op, v)));
            }
            Ok(())
        },
        None => {
            let mut m = String::from_str("bad number: ");
            let rt = string_of(src, r0, r1);
            m.append(rt.as_str());
            proof {
                reveal_strlit("bad number: ");
            }
            Err(m)
        },
    }
}

/// Read the line `s[lo..hi]`, number `no`.
fn read_lp_line(st: &mut LineState, src: &str, s: &Vec<char>, lo: usize, hi: usize, no: u128) -> (r: ParseResult<()>)
    requires
        s@ == src@,
        lo <= hi <= s@.len(),
    ensures
        match lp_line(line_scan(*old(st)), s@.subrange(lo as int, hi as int), no as nat) {
            Ok(sc) => r is Ok && line_scan(*final(st)) == sc,
            Err(m) => r matches Err(e) && e@ == m,
        },
{
    let (a, b) = trim_bounds(s, lo, hi);
    let ghost l = s@.subrange(a as int, b as int);
    if st.done || a == b || s[a] == '#' || s[a] == 'c' {
        return Ok(());
    }
    assert(l[0] == s@[a as int]);
    if chars_equal(s, a, b, "end") {
        st.done = true;
        return Ok(());
    }
    if b - a >= 4 {
        assert(l.take(4) =~= s@.subrange(a as int, a + 4));
        assert(l.skip(4) =~= s@.subrange(a + 4, b as int));
        let is_min = chars_equal(s, a, a + 4, "min ");
        let is_max = !is_min && chars_equal(s, a, a + 4, "max ");
        if is_min || is_max {
            let e = strip_semis_end(s, a + 4, b);
            let text = string_of(src, a + 4, e);
            st.objective = Some((is_min, text));
            return Ok(());
        }
        if chars_equal(s, a, a + 4, "int ") {
            let (n0, n1) = trim_bounds(s, a + 4, b);
            if n0 < n1 {
                let name = string_of(src, n0, n1);
                let ghost before = st.ints@;
                st.ints.push(name);
                proof {
                    assert(st.ints@.map_values(|n: String| n@) =~= before.map_values(|n: String| n@).push(name@));
                }
            }
            return Ok(());
        }
    }
    match find_op_in(s, a, b, '<', '=') {
        Some(p) => {
            return read_constraint(st, src, s, a, b, p, 2, CmpOp::Le);
        },
        None => {},
    }
    match find_op_in(s, a, b, '>', '=') {
        Some(p) => {
            return read_constraint(st, src, s, a, b, p, 2, CmpOp::Ge);
        },
        None => {},
    }
    match first_index_in(s, a, b, '=') {
        Some(p) => read_constraint(st, src, s, a, b, p, 1, CmpOp::Eq),
        None => {
            let mut m = String::from_str("bad syntax: ");
            let lt = string_of(src, a, b);
            m.append(lt.as_str());
            proof {
                reveal_strlit("bad syntax: ");
            }
            Err(line_error(no, m.as_str()))
        },
    }
}

// ── Expressions ──────────────────────────────────────────────────────

/// Tabs read as spaces.
pub open spec fn untab(x: Seq<char>) -> Seq<char> {
    x.map_values(|c: char| if c == '\t' { ' ' } else { c })
}

/// Splitting an expression on `+` and `-`: the finished terms (each with
/// whether a `-` precedes it), the term in progress, and whether the last
/// sign was `-`.
pub type ExprScan = (Seq<(bool, Seq<char>)>, Seq<char>, bool);

/// `terms` with `cur` added when it is not empty.
pub open spec fn term_flush(terms: Seq<(bool, Seq<char>)>, cur: Seq<char>, neg: bool) -> Seq<(bool, Seq<char>)> {
    if cur.len() > 0 {
        terms.push((neg, cur))
    } else {
        terms
    }
}

/// One character of splitting: a sign ends the term; a space or tab inside
/// a term is kept as a space; any other character extends the term.
pub open spec fn expr_step(st: ExprScan, c: char) -> ExprScan {
    if c == '+' {
        (term_flush(st.0, st.1, st.2), seq![], false)
    } else if c == '-' {
        (term_flush(st.0, st.1, st.2), seq![], true)
    } else if c == ' ' || c == '\t' {
        if st.1.len() > 0 {
            (st.0, st.1.push(' '), st.2)
        } else {
            st
        }
    } else {
        (st.0, st.1.push(c), st.2)
    }
}

/// Splitting `s` character by character.
pub open spec fn expr_scan(s: Seq<char>) -> ExprScan
    decreases s.len(),
{
    if s.len() == 0 {
        (seq![], seq![], false)
    } else {
        expr_step(expr_scan(s.drop_last()), s.last())
    }
}

/// The signed terms of `s`.
pub open spec fn expr_terms(s: Seq<char>) -> Seq<(bool, Seq<char>)> {
    term_flush(expr_scan(s).0, expr_scan(s).1, expr_scan(s).2)
}

/// The terms as `(minus, source range)`; `s[a..b]` with tabs read as spaces
/// is the term's text.
pub open spec fn ranges_match(s: Seq<char>, r: Seq<(bool, usize, usize)>, terms: Seq<(bool, Seq<char>)>) -> bool {
    &&& r.len() == terms.len()
    &&& forall|k: int| 0 <= k < r.len() ==> {
        &&& (#[trigger] r[k]).1 <= r[k].2 <= s.len()
        &&& terms[k] == (r[k].0, untab(s.subrange(r[k].1 as int, r[k].2 as int)))
    }
}

/// Split `s[lo..hi]` into signed terms.
fn split_terms(s: &Vec<char>, lo: usize, hi: usize) -> (r: Vec<(bool, usize, usize)>)
    requires
        lo <= hi <= s@.len(),
    ensures
        ranges_match(s@, r@, expr_terms(s@.subrange(lo as int, hi as int))),
{
    let ghost t = s@.subrange(lo as int, hi as int);
    let mut out: Vec<(bool, usize, usize)> = Vec::new();
    let mut start: Option<usize> = None;
    let mut neg = false;
    let mut i: usize = lo;
    assert(t.take(0) =~= Seq::<char>::empty());
    while i < hi
        invariant
            lo <= i <= hi <= s@.len(),
            t == s@.subrange(lo as int, hi as int),
            ranges_match(s@, out@, expr_scan(t.take(i - lo)).0),
            expr_scan(t.take(i - lo)).1 == (match start {
                Some(a) => untab(s@.subrange(a as int, i as int)),
                None => Seq::<char>::empty(),
            }),
            start matches Some(a) ==> lo <= a < i,
            expr_scan(t.take(i - lo)).2 == neg,
        decreases hi - i,
    {
        let c = s[i];
        proof {
            assert(t.take(i - lo + 1).drop_last() =~= t.take(i - lo));
            assert(t.take(i - lo + 1).last() == c);
        }
        if c == '+' || c == '-' {
            if let Some(a) = start {
                let ghost before = out@;
                out.push((neg, a, i));
                proof {
                    assert(untab(s@.subrange(a as int, i as int)).len() > 0);
                }
            }
            start = None;
            neg = c == '-';
        } else if c == ' ' || c == '\t' {
            if let Some(a) = start {
                proof {
                    assert(untab(s@.subrange(a as int, i as int + 1)) =~= untab(s@.subrange(a as int, i as int)).push(' '));
                }
            }
        } else {
            match start {
                Some(a) => {
                    proof {
                        assert(untab(s@.subrange(a as int, i as int + 1)) =~= untab(s@.subrange(a as int, i as int)).push(c));
                    }
                },
                None => {
                    start = Some(i);
                    proof {
                        assert(untab(s@.subrange(i as int, i as int + 1)) =~= seq![c]);
                    }
                },
            }
        }
        i = i + 1;
    }
    assert(t.take(i - lo) =~= t);
    if let Some(a) = start {
        out.push((neg, a, i));
    }
    out
}

// ── Terms ────────────────────────────────────────────────────────────

/// Whether the character has the Unicode Alphabetic property
/// (`char::is_alphabetic`).
pub uninterp spec fn char_alphabetic(c: char) -> bool;

/// `char::is_alphabetic`. Trusted: the result is `char_alphabetic(c)`, and
/// for an ASCII character it is true exactly for the letters `a`–`z` and
/// `A`–`Z` (the std source tests those ranges first and answers false for
/// other ASCII characters); for other characters the Unicode table decides,
/// which nothing here states.
#[verifier::external_body]
fn is_alphabetic(c: char) -> (r: bool)
    ensures
        r == char_alphabetic(c),
        c <= '\x7f' ==> (r == (('a' <= c && c <= 'z') || ('A' <= c && c <= 'Z'))),
{
    c.is_alphabetic()
}

/// Some character of `t` is alphabetic.
pub open spec fn has_alpha(t: Seq<char>) -> bool {
    exists|i: int| 0 <= i < t.len() && #[trigger] char_alphabetic(t[i])
}

/// One summand of a parsed expression: a constant, or a coefficient times
/// a variable.
#[derive(Debug, Clone, Copy)]
pub enum LpPiece {
    Const(Rational),
    Term(Rational, Var),
}

/// The name `x<i>` of variable `i`.
pub open spec fn x_name(i: nat) -> Seq<char> {
    seq!['x'] + decimal(i)
}

/// The index `i` when `name` is `x<i>`, `i` written in decimal.
pub open spec fn x_index(name: Seq<char>) -> Option<nat> {
    if exists|i: nat| #[trigger] x_name(i) == name {
        Some(choose|i: nat| #[trigger] x_name(i) == name)
    } else {
        None
    }
}

/// The variable that `name` denotes among the `k` variables `x0 ..
/// x<k-1>`, with the number of variables after it: `x<i>` is variable `i`,
/// created together with every missing variable below it; any other name is
/// a new variable. `None` when no id is left.
pub open spec fn var_for(k: nat, name: Seq<char>) -> Option<(nat, Var)> {
    match x_index(name) {
        Some(i) => if i < k {
            Some((k, Var(i as usize)))
        } else if i >= usize::MAX {
            None
        } else {
            Some((i + 1, Var(i as usize)))
        },
        None => if k >= usize::MAX {
            None
        } else {
            Some((k + 1, Var(k as usize)))
        },
    }
}

/// `x_index` read off the text: `x` followed by canonical decimal digits.
proof fn lemma_x_index(name: Seq<char>)
    ensures
        x_index(name) == (if name.len() >= 2 && name[0] == 'x' && canonical_digits(name.skip(1)) {
            Some(digits_value(name.skip(1)) as nat)
        } else {
            None::<nat>
        }),
{
    if exists|i: nat| #[trigger] x_name(i) == name {
        let j = choose|i: nat| #[trigger] x_name(i) == name;
        lemma_decimal_canonical(j);
        assert(name.skip(1) =~= decimal(j));
        assert(name[0] == 'x');
    } else if name.len() >= 2 && name[0] == 'x' && canonical_digits(name.skip(1)) {
        lemma_canonical_decimal(name.skip(1));
        let v = digits_value(name.skip(1)) as nat;
        assert(x_name(v) =~= name);
    }
}

/// `x` rounded to nine places after the point (half away from zero), kept
/// as is when it is an integer.
pub open spec fn round9(x: Rational) -> Option<Rational> {
    if x.spec_den() == 1 {
        Some(x)
    } else {
        let m = x.spec_num() * billion();
        let d = x.spec_den() as int;
        let r = if m >= 0 { (2 * m + d) / (2 * d) } else { -((-2 * m + d) / (2 * d)) };
        if fits_i64(r) { Some(Rational::spec_make(r, billion())) } else { None }
    }
}

/// `c`, negated after a `-`.
pub open spec fn signed(c: Rational, neg: bool) -> Option<Rational> {
    if !neg {
        Some(c)
    } else if c.spec_num() == i64::MIN {
        None
    } else {
        Some(rat_neg(c))
    }
}

/// The error for a value that `i64` parts cannot hold.
pub open spec fn overflow_msg(t: Seq<char>) -> Seq<char> {
    "arithmetic overflow in "@ + t
}

/// The summand of the trimmed term `t` (after a `-` when `neg`), with the
/// number of variables after it: `a/b` is a constant quotient, `c*v` a
/// coefficient times a variable, a term with a letter a variable, and
/// anything else a constant.
pub open spec fn term_piece(k: nat, t: Seq<char>, neg: bool) -> Result<(nat, LpPiece), Seq<char>> {
    match first_index(t, '/') {
        Some(sl) => quot_piece(k, t, sl, neg),
        None => match first_index(t, '*') {
            Some(st) => prod_piece(k, t, st, neg),
            None => bare_piece(k, t, neg),
        },
    }
}

/// The constant `a/b` of a term with its `/` at `sl`.
#[verifier::opaque]
pub open spec fn quot_piece(k: nat, t: Seq<char>, sl: int, neg: bool) -> Result<(nat, LpPiece), Seq<char>> {
    match lp_value(trim(t.take(sl))) {
        None => Err("bad num in "@ + t),
        Some(a) => match lp_value(trim(t.skip(sl + 1))) {
            None => Err("bad den in "@ + t),
            Some(b) => if b.spec_num() == 0 {
                Err("bad den in "@ + t)
            } else if !div_ok(a, b) {
                Err(overflow_msg(t))
            } else {
                match round9(rat_div(a, b)) {
                    None => Err(overflow_msg(t)),
                    Some(q) => match signed(q, neg) {
                        None => Err(overflow_msg(t)),
                        Some(v) => Ok((k, LpPiece::Const(v))),
                    },
                }
            },
        },
    }
}

/// The coefficient times variable of a term with its `*` at `st`.
#[verifier::opaque]
pub open spec fn prod_piece(k: nat, t: Seq<char>, st: int, neg: bool) -> Result<(nat, LpPiece), Seq<char>> {
    match lp_value(trim(t.take(st))) {
        None => Err("bad coeff in "@ + t),
        Some(c) => match signed(c, neg) {
            None => Err(overflow_msg(t)),
            Some(cv) => match var_for(k, trim(t.skip(st + 1))) {
                None => Err("too many variables"@),
                Some((k1, v)) => Ok((k1, LpPiece::Term(cv, v))),
            },
        },
    }
}

/// A term without `/` or `*`: a variable when it has a letter, else a
/// constant.
#[verifier::opaque]
pub open spec fn bare_piece(k: nat, t: Seq<char>, neg: bool) -> Result<(nat, LpPiece), Seq<char>> {
    if has_alpha(t) {
        match var_for(k, t) {
            None => Err("too many variables"@),
            Some((k1, v)) => Ok((k1, LpPiece::Term(
                if neg { Rational::spec_make(-1, 1) } else { Rational::spec_make(1, 1) },
                v,
            ))),
        }
    } else {
        match lp_number(t) {
            None => Err("bad constant in "@ + t),
            Some(c) => match signed(c, neg) {
                None => Err(overflow_msg(t)),
                Some(v) => Ok((k, LpPiece::Const(v))),
            },
        }
    }
}

/// The variables of `sys` are `x0 .. x<k-1>`, each real, except that those
/// below `upto` named in `ints` are integer; all are unbounded.
pub open spec fn sys_vars_ok(sys: LinearSystem, k: nat, upto: nat, ints: Seq<Seq<char>>) -> bool {
    &&& sys.spec_next_id() == k
    &&& sys.spec_vars() == Seq::new(k, |i: int| Var(i as usize))
    &&& forall|i: int| 0 <= i < k ==> #[trigger] sys.spec_domain(Var(i as usize)) == Some(Domain {
        var: Var(i as usize),
        is_integer: i < upto && ints.contains(x_name(i as nat)),
        bound: Bound { lower: None, upper: None },
    })
}

/// The text `s[lo..hi]` with tabs read as spaces, as a string.
fn untab_string(src: &str, s: &Vec<char>, lo: usize, hi: usize) -> (r: String)
    requires
        s@ == src@,
        lo <= hi <= s@.len(),
    ensures
        r@ == untab(s@.subrange(lo as int, hi as int)),
{
    let mut out = String::new();
    let mut seg = lo;
    let mut i = lo;
    proof {
        reveal_strlit(" ");
    }
    while i < hi
        invariant
            lo <= seg <= i <= hi <= s@.len(),
            s@ == src@,
            out@ + s@.subrange(seg as int, i as int) == untab(s@.subrange(lo as int, i as int)),
            forall|q: int| seg <= q < i ==> s@[q] != '\t',
        decreases hi - i,
    {
        if s[i] == '\t' {
            let piece = string_of(src, seg, i);
            out.append(piece.as_str());
            out.append(" ");
            proof {
                reveal_strlit(" ");
                assert(untab(s@.subrange(lo as int, i as int + 1)) =~= untab(s@.subrange(lo as int, i as int)).push(' '));
                assert(s@.subrange(i as int + 1, i as int + 1) =~= Seq::<char>::empty());
            }
            seg = i + 1;
        } else {
            proof {
                assert(untab(s@.subrange(lo as int, i as int + 1)) =~= untab(s@.subrange(lo as int, i as int)).push(s@[i as int]));
                assert(s@.subrange(seg as int, i as int + 1) =~= s@.subrange(seg as int, i as int).push(s@[i as int]));
            }
        }
        i = i + 1;
    }
    let piece = string_of(src, seg, i);
    out.append(piece.as_str());
    proof {
        assert forall|q: int| 0 <= q < s@.subrange(seg as int, i as int).len() implies
            untab(s@.subrange(seg as int, i as int))[q] == s@.subrange(seg as int, i as int)[q] by {}
    }
    out
}

/// The characters `s[lo..hi]` with tabs read as spaces.
fn untab_chars(s: &Vec<char>, lo: usize, hi: usize) -> (r: Vec<char>)
    requires
        lo <= hi <= s@.len(),
    ensures
        r@ == untab(s@.subrange(lo as int, hi as int)),
{
    let mut r: Vec<char> = Vec::new();
    let mut i = lo;
    while i < hi
        invariant
            lo <= i <= hi <= s@.len(),
            r@ == untab(s@.subrange(lo as int, i as int)),
        decreases hi - i,
    {
        let c = s[i];
        r.push(if c == '\t' { ' ' } else { c });
        proof {
            assert(untab(s@.subrange(lo as int, i as int + 1)) =~= untab(s@.subrange(lo as int, i as int)).push(if c == '\t' { ' ' } else { c }));
        }
        i = i + 1;
    }
    r
}

/// `"x<i>"` as a string.
fn x_string(i: usize) -> (r: String)
    ensures
        r@ == x_name(i as nat),
{
    let mut r = String::from_str("x");
    proof {
        reveal_strlit("x");
    }
    push_decimal(&mut r, i as u128);
    assert(r@ =~= x_name(i as nat));
    r
}

/// The index that `t[lo..hi]` names as `x<i>`: `None` for any other name,
/// `Some(None)` for an index too large for a variable id.
fn x_index_of(t: &Vec<char>, lo: usize, hi: usize) -> (r: Option<Option<usize>>)
    requires
        lo <= hi <= t@.len(),
    ensures
        match x_index(t@.subrange(lo as int, hi as int)) {
            None => r is None,
            Some(i) => if i < usize::MAX {
                r == Some(Some(i as usize))
            } else {
                r == Some(None::<usize>)
            },
        },
{
    let ghost name = t@.subrange(lo as int, hi as int);
    proof {
        lemma_x_index(name);
    }
    if hi - lo < 2 || t[lo] != 'x' {
        return None;
    }
    assert(name.skip(1) =~= t@.subrange(lo as int + 1, hi as int));
    if !digits_only(t, lo + 1, hi) {
        return None;
    }
    if hi - lo > 2 && t[lo + 1] == '0' {
        return None;
    }
    let bound: u64 = (usize::MAX - 1) as u64;
    match digits_up_to(t, lo + 1, hi, bound) {
        Some(v) => Some(Some(v as usize)),
        None => Some(None),
    }
}

/// A new real variable after the `k` variables `x0 .. x<k-1>`.
fn push_var(sys: &mut LinearSystem, Ghost(upto): Ghost<nat>, Ghost(ints): Ghost<Seq<Seq<char>>>) -> (v: Var)
    requires
        sys_vars_ok(*old(sys), old(sys).spec_next_id() as nat, upto, ints),
        upto <= old(sys).spec_next_id(),
        old(sys).spec_next_id() < usize::MAX,
    ensures
        v == Var(old(sys).spec_next_id()),
        final(sys).spec_next_id() == old(sys).spec_next_id() + 1,
        sys_vars_ok(*final(sys), final(sys).spec_next_id() as nat, upto, ints),
        final(sys).spec_constraints() == old(sys).spec_constraints(),
        final(sys).spec_objective() == old(sys).spec_objective(),
{
    let ghost k = old(sys).spec_next_id();
    let v = sys.new_var();
    proof {
        let s2 = *sys;
        assert(s2.spec_vars() =~= Seq::new((k + 1) as nat, |i: int| Var(i as usize)));
        assert forall|i: int| 0 <= i < k + 1 implies #[trigger] s2.spec_domain(Var(i as usize)) == Some(Domain {
            var: Var(i as usize),
            is_integer: i < upto && ints.contains(x_name(i as nat)),
            bound: Bound { lower: None, upper: None },
        }) by {
            if i < k {
                assert(Var(i as usize) != v);
                assert(old(sys).spec_domain(Var(i as usize)) == s2.spec_domain(Var(i as usize)));
            }
        }
    }
    v
}

/// The variable that `t[lo..hi]` names (see `var_for`), creating the
/// variables it needs; `None` when no id is left.
fn get_var(sys: &mut LinearSystem, t: &Vec<char>, lo: usize, hi: usize, Ghost(upto): Ghost<nat>, Ghost(ints): Ghost<Seq<Seq<char>>>) -> (r: Option<Var>)
    requires
        lo <= hi <= t@.len(),
        sys_vars_ok(*old(sys), old(sys).spec_next_id() as nat, upto, ints),
        upto <= old(sys).spec_next_id(),
    ensures
        final(sys).spec_next_id() >= old(sys).spec_next_id(),
        match var_for(old(sys).spec_next_id() as nat, t@.subrange(lo as int, hi as int)) {
            None => r is None && *final(sys) == *old(sys),
            Some((k1, v)) => {
                &&& r == Some(v)
                &&& sys_vars_ok(*final(sys), k1, upto, ints)
                &&& final(sys).spec_constraints() == old(sys).spec_constraints()
                &&& final(sys).spec_objective() == old(sys).spec_objective()
            },
        },
{
    let k = sys.num_vars();
    match x_index_of(t, lo, hi) {
        Some(None) => None,
        Some(Some(i)) => {
            if i < k {
                return Some(Var::new(i));
            }
            while sys.num_vars() <= i
                invariant
                    sys_vars_ok(*sys, sys.spec_next_id() as nat, upto, ints),
                    upto <= old(sys).spec_next_id() <= sys.spec_next_id() <= i + 1,
                    i < usize::MAX,
                    sys.spec_constraints() == old(sys).spec_constraints(),
                    sys.spec_objective() == old(sys).spec_objective(),
                decreases i + 1 - sys.spec_next_id(),
            {
                push_var(sys, Ghost(upto), Ghost(ints));
            }
            Some(Var::new(i))
        },
        None => {
            if k == usize::MAX {
                return None;
            }
            Some(push_var(sys, Ghost(upto), Ghost(ints)))
        },
    }
}

/// `x` rounded to nine places after the point (see `round9`).
fn round_billionths(x: Rational) -> (r: Option<Rational>)
    ensures
        r == round9(x),
{
    if x.den() == 1 {
        return Some(x);
    }
    proof {
        Rational::lemma_den_positive(x);
    }
    let m: i128 = (x.num() as i128) * 1000000000;
    let d: i128 = x.den() as i128;
    let r: i128 = if m >= 0 {
        (2 * m + d) / (2 * d)
    } else {
        -((-2 * m + d) / (2 * d))
    };
    if r < i64::MIN as i128 || r > i64::MAX as i128 {
        return None;
    }
    Some(Rational::new(r as i64, 1000000000))
}

/// `c`, negated when `neg`.
fn signed_value(c: Rational, neg: bool) -> (r: Option<Rational>)
    ensures
        r == signed(c, neg),
{
    if neg {
        c.checked_neg()
    } else {
        Some(c)
    }
}

/// Whether some character of `t[lo..hi]` is alphabetic.
fn any_alpha(t: &Vec<char>, lo: usize, hi: usize) -> (b: bool)
    requires
        lo <= hi <= t@.len(),
    ensures
        b == has_alpha(t@.subrange(lo as int, hi as int)),
{
    let ghost w = t@.subrange(lo as int, hi as int);
    let mut i = lo;
    while i < hi
        invariant
            lo <= i <= hi <= t@.len(),
            w == t@.subrange(lo as int, hi as int),
            forall|q: int| 0 <= q < i - lo ==> !#[trigger] char_alphabetic(w[q]),
        decreases hi - i,
    {
        if is_alphabetic(t[i]) {
            assert(char_alphabetic(w[i - lo]));
            return true;
        }
        i = i + 1;
    }
    false
}

/// A message: `prefix` followed by the term text `s[lo..hi]`.
fn term_message(prefix: &str, src: &str, s: &Vec<char>, lo: usize, hi: usize) -> (m: String)
    requires
        s@ == src@,
        lo <= hi <= s@.len(),
    ensures
        m@ == prefix@ + untab(s@.subrange(lo as int, hi as int)),
{
    let mut m = String::from_str(prefix);
    let t = untab_string(src, s, lo, hi);
    m.append(t.as_str());
    m
}

/// The requirements of the term readers: `tv` is the term `s[a..]` with
/// tabs read as spaces, `tv[lo..hi]` the trimmed term.
spec fn term_ctx(src: &str, s: &Vec<char>, tv: Seq<char>, a: usize, lo: usize, hi: usize) -> bool {
    &&& s@ == src@
    &&& lo <= hi <= tv.len()
    &&& a + hi <= s@.len()
    &&& s@.len() <= usize::MAX
    &&& untab(s@.subrange(a + lo, a + hi)) == tv.subrange(lo as int, hi as int)
}

/// The constant `a/b` of the trimmed term `tv[lo..hi]`, `/` at `lo + sl`.
fn quotient_term(src: &str, s: &Vec<char>, tv: &Vec<char>, a: usize, lo: usize, hi: usize, sl: usize, neg: bool, Ghost(k): Ghost<nat>)
    -> (r: ParseResult<LpPiece>)
    requires
        term_ctx(src, s, tv@, a, lo, hi),
        lo + sl < hi,
    ensures
        match quot_piece(k, tv@.subrange(lo as int, hi as int), sl as int, neg) {
            Ok((k1, p)) => k1 == k && (r matches Ok(q) && q == p),
            Err(m) => r matches Err(e) && e@ == m,
        },
{
    reveal(quot_piece);
    let ghost t = tv@.subrange(lo as int, hi as int);
    assert(t.take(sl as int) =~= tv@.subrange(lo as int, lo + sl));
    assert(t.skip(sl + 1) =~= tv@.subrange(lo + sl + 1, hi as int));
    let (n0, n1) = trim_bounds(tv, lo, lo + sl);
    let num = match parse_value(tv, n0, n1) {
        Some(v) => v,
        None => {
            return Err(term_message("bad num in ", src, s, a + lo, a + hi));
        },
    };
    let (d0, d1) = trim_bounds(tv, lo + sl + 1, hi);
    let den = match parse_value(tv, d0, d1) {
        Some(v) => v,
        None => {
            return Err(term_message("bad den in ", src, s, a + lo, a + hi));
        },
    };
    if den.num() == 0 {
        return Err(term_message("bad den in ", src, s, a + lo, a + hi));
    }
    let q = match num.checked_div(den) {
        Some(q) => q,
        None => {
            return Err(term_message("arithmetic overflow in ", src, s, a + lo, a + hi));
        },
    };
    let q9 = match round_billionths(q) {
        Some(v) => v,
        None => {
            return Err(term_message("arithmetic overflow in ", src, s, a + lo, a + hi));
        },
    };
    match signed_value(q9, neg) {
        Some(v) => Ok(LpPiece::Const(v)),
        None => Err(term_message("arithmetic overflow in ", src, s, a + lo, a + hi)),
    }
}

/// The coefficient times variable of the trimmed term `tv[lo..hi]`, `*` at
/// `lo + st`.
fn product_term(
    sys: &mut LinearSystem,
    src: &str,
    s: &Vec<char>,
    tv: &Vec<char>,
    a: usize,
    lo: usize,
    hi: usize,
    st: usize,
    neg: bool,
    Ghost(upto): Ghost<nat>,
    Ghost(ints): Ghost<Seq<Seq<char>>>,
) -> (r: ParseResult<LpPiece>)
    requires
        term_ctx(src, s, tv@, a, lo, hi),
        lo + st < hi,
        sys_vars_ok(*old(sys), old(sys).spec_next_id() as nat, upto, ints),
        upto <= old(sys).spec_next_id(),
    ensures
        final(sys).spec_next_id() >= old(sys).spec_next_id(),
        match prod_piece(old(sys).spec_next_id() as nat, tv@.subrange(lo as int, hi as int), st as int, neg) {
            Ok((k1, p)) => {
                &&& r matches Ok(q) && q == p
                &&& sys_vars_ok(*final(sys), k1, upto, ints)
                &&& final(sys).spec_constraints() == old(sys).spec_constraints()
                &&& final(sys).spec_objective() == old(sys).spec_objective()
            },
            Err(m) => r matches Err(e) && e@ == m,
        },
{
    reveal(prod_piece);
    let ghost t = tv@.subrange(lo as int, hi as int);
    assert(t.take(st as int) =~= tv@.subrange(lo as int, lo + st));
    assert(t.skip(st + 1) =~= tv@.subrange(lo + st + 1, hi as int));
    let (c0, c1) = trim_bounds(tv, lo, lo + st);
    let c = match parse_value(tv, c0, c1) {
        Some(v) => v,
        None => {
            return Err(term_message("bad coeff in ", src, s, a + lo, a + hi));
        },
    };
    let cv = match signed_value(c, neg) {
        Some(v) => v,
        None => {
            return Err(term_message("arithmetic overflow in ", src, s, a + lo, a + hi));
        },
    };
    let (v0, v1) = trim_bounds(tv, lo + st + 1, hi);
    match get_var(sys, tv, v0, v1, Ghost(upto), Ghost(ints)) {
        Some(v) => Ok(LpPiece::Term(cv, v)),
        None => Err(String::from_str("too many variables")),
    }
}

/// The summand of the trimmed term `tv[lo..hi]` without `/` or `*`.
fn bare_term(
    sys: &mut LinearSystem,
    src: &str,
    s: &Vec<char>,
    tv: &Vec<char>,
    a: usize,
    lo: usize,
    hi: usize,
    neg: bool,
    Ghost(upto): Ghost<nat>,
    Ghost(ints): Ghost<Seq<Seq<char>>>,
) -> (r: ParseResult<LpPiece>)
    requires
        term_ctx(src, s, tv@, a, lo, hi),
        sys_vars_ok(*old(sys), old(sys).spec_next_id() as nat, upto, ints),
        upto <= old(sys).spec_next_id(),
    ensures
        final(sys).spec_next_id() >= old(sys).spec_next_id(),
        match bare_piece(old(sys).spec_next_id() as nat, tv@.subrange(lo as int, hi as int), neg) {
            Ok((k1, p)) => {
                &&& r matches Ok(q) && q == p
                &&& sys_vars_ok(*final(sys), k1, upto, ints)
                &&& final(sys).spec_constraints() == old(sys).spec_constraints()
                &&& final(sys).spec_objective() == old(sys).spec_objective()
            },
            Err(m) => r matches Err(e) && e@ == m,
        },
{
    reveal(bare_piece);
    if any_alpha(tv, lo, hi) {
        match get_var(sys, tv, lo, hi, Ghost(upto), Ghost(ints)) {
            Some(v) => {
                let one = if neg { Rational::neg_one() } else { Rational::one() };
                Ok(LpPiece::Term(one, v))
            },
            None => Err(String::from_str("too many variables")),
        }
    } else {
        let c = match parse_number(tv, lo, hi) {
            Some(v) => v,
            None => {
                return Err(term_message("bad constant in ", src, s, a + lo, a + hi));
            },
        };
        match signed_value(c, neg) {
            Some(v) => Ok(LpPiece::Const(v)),
            None => Err(term_message("arithmetic overflow in ", src, s, a + lo, a + hi)),
        }
    }
}

/// Read the term `s[a..b]` (after a `-` when `neg`).
fn read_term(
    sys: &mut LinearSystem,
    src: &str,
    s: &Vec<char>,
    a: usize,
    b: usize,
    neg: bool,
    Ghost(upto): Ghost<nat>,
    Ghost(ints): Ghost<Seq<Seq<char>>>,
) -> (r: ParseResult<Option<LpPiece>>)
    requires
        s@ == src@,
        a <= b <= s@.len(),
        sys_vars_ok(*old(sys), old(sys).spec_next_id() as nat, upto, ints),
        upto <= old(sys).spec_next_id(),
    ensures
        final(sys).spec_next_id() >= old(sys).spec_next_id(),
        trim(untab(s@.subrange(a as int, b as int))).len() == 0 ==> r == Ok::<Option<LpPiece>, String>(None) && *final(sys) == *old(sys),
        trim(untab(s@.subrange(a as int, b as int))).len() > 0 ==> match term_piece(old(sys).spec_next_id() as nat, trim(untab(s@.subrange(a as int, b as int))), neg) {
            Ok((k1, p)) => {
                &&& r matches Ok(Some(q)) && q == p
                &&& sys_vars_ok(*final(sys), k1, upto, ints)
                &&& final(sys).spec_constraints() == old(sys).spec_constraints()
                &&& final(sys).spec_objective() == old(sys).spec_objective()
            },
            Err(m) => r matches Err(e) && e@ == m,
        },
{
    let n = s.len();
    let tv = untab_chars(s, a, b);
    let (lo, hi) = trim_bounds(&tv, 0, tv.len());
    let ghost t = tv@.subrange(lo as int, hi as int);
    assert(tv@.subrange(0, tv@.len() as int) =~= tv@);
    assert(untab(s@.subrange(a + lo, a + hi)) =~= t);
    let ghost k = old(sys).spec_next_id() as nat;
    if lo == hi {
        return Ok(None);
    }
    let r = match first_index_in(&tv, lo, hi, '/') {
        Some(sl) => quotient_term(src, s, &tv, a, lo, hi, sl, neg, Ghost(k)),
        None => match first_index_in(&tv, lo, hi, '*') {
            Some(st) => product_term(sys, src, s, &tv, a, lo, hi, st, neg, Ghost(upto), Ghost(ints)),
            None => bare_term(sys, src, s, &tv, a, lo, hi, neg, Ghost(upto), Ghost(ints)),
        },
    };
    match r {
        Ok(p) => Ok(Some(p)),
        Err(e) => Err(e),
    }
}

/// The summands of the signed terms `terms[i..]`, after `acc`, with the
/// number of variables after them.
pub open spec fn expr_pieces(k: nat, terms: Seq<(bool, Seq<char>)>, i: int, acc: Seq<LpPiece>) -> Result<(nat, Seq<LpPiece>), Seq<char>>
    decreases terms.len() - i,
{
    if i < 0 || i >= terms.len() {
        Ok((k, acc))
    } else {
        let t = trim(terms[i].1);
        if t.len() == 0 {
            expr_pieces(k, terms, i + 1, acc)
        } else {
            match term_piece(k, t, terms[i].0) {
                Err(m) => Err(m),
                Ok((k1, p)) => expr_pieces(k1, terms, i + 1, acc.push(p)),
            }
        }
    }
}

/// The summands of the expression `text`, read with `k` variables existing,
/// and the number of variables after it.
pub open spec fn parse_expr_spec(k: nat, text: Seq<char>) -> Result<(nat, Seq<LpPiece>), Seq<char>> {
    let t = trim(text);
    if t.len() == 0 {
        Ok((k, seq![]))
    } else {
        expr_pieces(k, expr_terms(t), 0, seq![])
    }
}

/// Read the summands of an expression.
fn parse_expr(sys: &mut LinearSystem, text: &str, Ghost(upto): Ghost<nat>, Ghost(ints): Ghost<Seq<Seq<char>>>)
    -> (r: ParseResult<Vec<LpPiece>>)
    requires
        sys_vars_ok(*old(sys), old(sys).spec_next_id() as nat, upto, ints),
        upto <= old(sys).spec_next_id(),
    ensures
        final(sys).spec_next_id() >= old(sys).spec_next_id(),
        match parse_expr_spec(old(sys).spec_next_id() as nat, text@) {
            Ok((k1, ps)) => {
                &&& r matches Ok(v) && v@ == ps
                &&& sys_vars_ok(*final(sys), k1, upto, ints)
                &&& final(sys).spec_constraints() == old(sys).spec_constraints()
                &&& final(sys).spec_objective() == old(sys).spec_objective()
            },
            Err(m) => r matches Err(e) && e@ == m,
        },
{
    let s = chars_of(text);
    let (lo, hi) = trim_bounds(&s, 0, s.len());
    assert(s@.subrange(0, s@.len() as int) =~= s@);
    let mut pieces: Vec<LpPiece> = Vec::new();
    if lo == hi {
        return Ok(pieces);
    }
    let ranges = split_terms(&s, lo, hi);
    let ghost terms = expr_terms(s@.subrange(lo as int, hi as int));
    let mut i: usize = 0;
    while i < ranges.len()
        invariant
            s@ == text@,
            terms == expr_terms(s@.subrange(lo as int, hi as int)),
            ranges_match(s@, ranges@, terms),
            i <= ranges@.len(),
            upto <= sys.spec_next_id(),
            sys.spec_next_id() >= old(sys).spec_next_id(),
            sys_vars_ok(*sys, sys.spec_next_id() as nat, upto, ints),
            sys.spec_constraints() == old(sys).spec_constraints(),
            sys.spec_objective() == old(sys).spec_objective(),
            parse_expr_spec(old(sys).spec_next_id() as nat, text@)
                == expr_pieces(sys.spec_next_id() as nat, terms, i as int, pieces@),
        decreases ranges@.len() - i,
    {
        let (neg, a, b) = ranges[i];
        let ghost before = pieces@;
        match read_term(sys, text, &s, a, b, neg, Ghost(upto), Ghost(ints)) {
            Ok(Some(p)) => {
                pieces.push(p);
            },
            Ok(None) => {},
            Err(e) => {
                return Err(e);
            },
        }
        i = i + 1;
    }
    Ok(pieces)
}

/// The constants among the summands.
pub open spec fn piece_consts(p: Seq<LpPiece>) -> Seq<Rational>
    decreases p.len(),
{
    if p.len() == 0 {
        seq![]
    } else {
        match p.last() {
            LpPiece::Const(c) => piece_consts(p.drop_last()).push(c),
            LpPiece::Term(_, _) => piece_consts(p.drop_last()),
        }
    }
}

/// The variable terms among the summands.
pub open spec fn piece_terms(p: Seq<LpPiece>) -> Seq<LinearTerm>
    decreases p.len(),
{
    if p.len() == 0 {
        seq![]
    } else {
        match p.last() {
            LpPiece::Const(_) => piece_terms(p.drop_last()),
            LpPiece::Term(c, v) => piece_terms(p.drop_last()).push(LinearTerm { coefficient: c, var: v }),
        }
    }
}

/// The summands add up without leaving `i64` parts.
pub open spec fn pieces_ok(p: Seq<LpPiece>) -> bool {
    sum_ok(piece_consts(p)) && merge_ok(piece_terms(p))
}

/// `e` is the sum of the summands: the constants added in order, the
/// variable terms merged.
pub open spec fn expr_is(e: LinearExpr, p: Seq<LpPiece>) -> bool {
    &&& e.constant == sum_seq(piece_consts(p))
    &&& is_merge_of(e.terms@, piece_terms(p))
}
/// Every partial sum of a sequence with a failing prefix fails too.
proof fn lemma_sum_ok_prefix(x: Seq<Rational>, y: Seq<Rational>)
    requires
        y.len() <= x.len(),
        x.take(y.len() as int) == y,
        sum_ok(x),
    ensures
        sum_ok(y),
    decreases x.len(),
{
    if y.len() < x.len() {
        assert(x.drop_last().take(y.len() as int) =~= y);
        lemma_sum_ok_prefix(x.drop_last(), y);
    } else {
        assert(x =~= y);
    }
}

/// The coefficients of `v` in a prefix of `s` start the coefficients of `v`
/// in `s`.
proof fn lemma_coeffs_prefix(s: Seq<LinearTerm>, i: int, v: Var)
    requires
        0 <= i <= s.len(),
    ensures
        coeffs_of(s.take(i), v).len() <= coeffs_of(s, v).len(),
        coeffs_of(s, v).take(coeffs_of(s.take(i), v).len() as int) == coeffs_of(s.take(i), v),
    decreases s.len() - i,
{
    if i < s.len() {
        lemma_coeffs_prefix(s, i + 1, v);
        lemma_coeffs_take_step(s, i, v);
        let c = coeffs_of(s.take(i), v);
        let c1 = coeffs_of(s.take(i + 1), v);
        let all = coeffs_of(s, v);
        assert(all.take(c1.len() as int).take(c.len() as int) =~= all.take(c.len() as int));
        if s[i].var == v {
            assert(c1.take(c.len() as int) =~= c);
        }
    } else {
        assert(s.take(i) =~= s);
        assert(coeffs_of(s, v).take(coeffs_of(s, v).len() as int) =~= coeffs_of(s, v));
    }
}

/// Whether the coefficients of `v` in `s` can be summed in order.
fn var_sum_ok(s: &Vec<LinearTerm>, v: Var) -> (b: bool)
    ensures
        b == sum_ok(coeffs_of(s@, v)),
{
    let mut acc: Option<Rational> = None;
    let mut i: usize = 0;
    while i < s.len()
        invariant
            i <= s@.len(),
            sum_ok(coeffs_of(s@.take(i as int), v)),
            acc == (if coeffs_of(s@.take(i as int), v).len() == 0 {
                None::<Rational>
            } else {
                Some(sum_seq(coeffs_of(s@.take(i as int), v)))
            }),
        decreases s@.len() - i,
    {
        let t = s[i];
        proof {
            lemma_coeffs_take_step(s@, i as int, v);
        }
        if t.var == v {
            let ghost c = coeffs_of(s@.take(i as int), v);
            proof {
                assert(c.push(t.coefficient).drop_last() =~= c);
            }
            match acc {
                None => {
                    acc = Some(t.coefficient);
                },
                Some(a) => {
                    match a.checked_add(t.coefficient) {
                        Some(x) => {
                            acc = Some(x);
                        },
                        None => {
                            proof {
                                lemma_coeffs_prefix(s@, i as int + 1, v);
                                let whole = coeffs_of(s@, v);
                                if sum_ok(whole) {
                                    lemma_sum_ok_prefix(whole, c.push(t.coefficient));
                                }
                            }
                            return false;
                        },
                    }
                },
            }
        }
        i = i + 1;
    }
    assert(s@.take(i as int) =~= s@);
    true
}

/// Whether the terms of `s` merge without leaving `i64` parts.
fn merge_check(s: &Vec<LinearTerm>) -> (b: bool)
    ensures
        b == merge_ok(s@),
{
    let mut i: usize = 0;
    while i < s.len()
        invariant
            i <= s@.len(),
            forall|q: int| 0 <= q < i ==> #[trigger] sum_ok(coeffs_of(s@, s@[q].var)),
        decreases s@.len() - i,
    {
        if !var_sum_ok(s, s[i].var) {
            return false;
        }
        i = i + 1;
    }
    assert forall|v: Var| #[trigger] sum_ok(coeffs_of(s@, v)) by {
        if mentions(s@, v) {
            let q = choose|q: int| 0 <= q < s@.len() && s@[q].var == v;
            assert(sum_ok(coeffs_of(s@, s@[q].var)));
        } else {
            lemma_coeffs_absent(s@, v);
        }
    }
    true
}

/// The expression the summands add up to, or `None` when a sum leaves
/// `i64` parts.
fn sum_pieces(p: &Vec<LpPiece>) -> (r: Option<LinearExpr>)
    ensures
        r is Some <==> pieces_ok(p@),
        r matches Some(e) ==> expr_is(e, p@),
{
    let mut acc: Option<Rational> = None;
    let mut ok = true;
    let mut flat: Vec<LinearTerm> = Vec::new();
    let mut i: usize = 0;
    while i < p.len()
        invariant
            i <= p@.len(),
            flat@ == piece_terms(p@.take(i as int)),
            ok == sum_ok(piece_consts(p@.take(i as int))),
            ok ==> acc == (if piece_consts(p@.take(i as int)).len() == 0 {
                None::<Rational>
            } else {
                Some(sum_seq(piece_consts(p@.take(i as int))))
            }),
            !ok ==> !sum_ok(piece_consts(p@)),
        decreases p@.len() - i,
    {
        let ghost c = piece_consts(p@.take(i as int));
        proof {
            assert(p@.take(i as int + 1).drop_last() =~= p@.take(i as int));
            assert(p@.take(i as int + 1).last() == p@[i as int]);
        }
        match p[i] {
            LpPiece::Const(x) => {
                proof {
                    assert(c.push(x).drop_last() =~= c);
                }
                if ok {
                    match acc {
                        None => {
                            acc = Some(x);
                        },
                        Some(a) => {
                            match a.checked_add(x) {
                                Some(y) => {
                                    acc = Some(y);
                                },
                                None => {
                                    ok = false;
                                    proof {
                                        lemma_consts_prefix(p@, i as int + 1);
                                        if sum_ok(piece_consts(p@)) {
                                            lemma_sum_ok_prefix(piece_consts(p@), c.push(x));
                                        }
                                    }
                                },
                            }
                        },
                    }
                }
            },
            LpPiece::Term(cf, v) => {
                flat.push(LinearTerm { coefficient: cf, var: v });
            },
        }
        i = i + 1;
    }
    assert(p@.take(i as int) =~= p@);
    if !ok {
        return None;
    }
    if !merge_check(&flat) {
        return None;
    }
    let terms = merge_terms(&flat);
    let constant = match acc {
        Some(a) => a,
        None => Rational::zero(),
    };
    Some(LinearExpr { constant, terms })
}

/// The constants of a prefix start the constants of the whole.
proof fn lemma_consts_prefix(p: Seq<LpPiece>, i: int)
    requires
        0 <= i <= p.len(),
    ensures
        piece_consts(p.take(i)).len() <= piece_consts(p).len(),
        piece_consts(p).take(piece_consts(p.take(i)).len() as int) == piece_consts(p.take(i)),
    decreases p.len() - i,
{
    if i < p.len() {
        lemma_consts_prefix(p, i + 1);
        assert(p.take(i + 1).drop_last() =~= p.take(i));
        let c = piece_consts(p.take(i));
        let c1 = piece_consts(p.take(i + 1));
        let all = piece_consts(p);
        assert(all.take(c1.len() as int).take(c.len() as int) =~= all.take(c.len() as int));
        if p[i] is Const {
            assert(c1.take(c.len() as int) =~= c);
        }
    } else {
        assert(p.take(i) =~= p);
        assert(piece_consts(p).take(piece_consts(p).len() as int) =~= piece_consts(p));
    }
}

// ── The problem ──────────────────────────────────────────────────────

/// What an LP text denotes: the number of variables, the integer
/// declarations (each variable `x<i>` that an `int` line names is integer,
/// wherever the line stands), the objective (minimise?, summands) and the
/// constraints (summands with the right-hand side moved over, operator).
pub struct LpModel {
    pub k: nat,
    pub ints: Seq<Seq<char>>,
    pub objective: Option<(bool, Seq<LpPiece>)>,
    pub constraints: Seq<(Seq<LpPiece>, CmpOp)>,
}

/// The constraints `cs[i..]`, read with `k` variables existing, after `acc`.
pub open spec fn build_constraints(
    k: nat,
    cs: Seq<(Seq<char>, CmpOp, Rational)>,
    i: int,
    acc: Seq<(Seq<LpPiece>, CmpOp)>,
) -> Result<(nat, Seq<(Seq<LpPiece>, CmpOp)>), Seq<char>>
    decreases cs.len() - i,
{
    if i < 0 || i >= cs.len() {
        Ok((k, acc))
    } else {
        let (text, op, rhs) = cs[i];
        match parse_expr_spec(k, text) {
            Err(m) => Err(m),
            Ok((k1, ps)) => if rhs.spec_num() == i64::MIN {
                Err(overflow_msg(text))
            } else {
                let ps2 = ps.push(LpPiece::Const(rat_neg(rhs)));
                if pieces_ok(ps2) {
                    build_constraints(k1, cs, i + 1, acc.push((ps2, op)))
                } else {
                    Err(overflow_msg(text))
                }
            },
        }
    }
}

/// The objective of the lines read, with the number of variables it creates.
pub open spec fn build_objective(o: Option<(bool, Seq<char>)>) -> Result<(nat, Option<(bool, Seq<LpPiece>)>), Seq<char>> {
    match o {
        None => Ok((0nat, None)),
        Some((m, text)) => match parse_expr_spec(0, text) {
            Err(e) => Err(e),
            Ok((k1, ps)) => if pieces_ok(ps) {
                Ok((k1, Some((m, ps))))
            } else {
                Err(overflow_msg(text))
            },
        },
    }
}

/// The problem of the lines read: the objective first, then the
/// constraints in order.
pub open spec fn lp_build(sc: LpScan) -> Result<LpModel, Seq<char>> {
    match build_objective(sc.0) {
        Err(e) => Err(e),
        Ok((k1, o)) => match build_constraints(k1, sc.1, 0, seq![]) {
            Err(e) => Err(e),
            Ok((k2, cs)) => Ok(LpModel { k: k2, ints: sc.2, objective: o, constraints: cs }),
        },
    }
}

/// The problem an LP text denotes, or the error message.
pub open spec fn lp_spec(input: Seq<char>) -> Result<LpModel, Seq<char>> {
    match lp_lines(split_on(input, '\n')) {
        Err(e) => Err(e),
        Ok(sc) => lp_build(sc),
    }
}

/// `sys` is the system of the model.
pub open spec fn system_is(sys: LinearSystem, m: LpModel) -> bool {
    &&& sys_vars_ok(sys, m.k, m.k, m.ints)
    &&& match m.objective {
        None => sys.spec_objective() is Feasibility,
        Some((true, ps)) => (sys.spec_objective() matches Objective::Minimise(e) && expr_is(e, ps)),
        Some((false, ps)) => (sys.spec_objective() matches Objective::Maximise(e) && expr_is(e, ps)),
    }
    &&& sys.spec_constraints().len() == m.constraints.len()
    &&& forall|j: int| 0 <= j < m.constraints.len() ==> {
        &&& (#[trigger] sys.spec_constraints()[j]).op == m.constraints[j].1
        &&& expr_is(sys.spec_constraints()[j].expr, m.constraints[j].0)
        &&& sys.spec_constraints()[j].name is None
    }
}

/// Parsed LP problem.
pub struct LpProblem {
    pub system: LinearSystem,
}

/// Mark as integer each variable that an `int` line names.
fn apply_ints(sys: &mut LinearSystem, ints: &Vec<String>)
    requires
        sys_vars_ok(*old(sys), old(sys).spec_next_id() as nat, 0, seq![]),
    ensures
        sys_vars_ok(*final(sys), old(sys).spec_next_id() as nat, old(sys).spec_next_id() as nat,
            ints@.map_values(|n: String| n@)),
        final(sys).spec_constraints() == old(sys).spec_constraints(),
        final(sys).spec_objective() == old(sys).spec_objective(),
{
    let ghost names = ints@.map_values(|n: String| n@);
    let k = sys.num_vars();
    let mut i: usize = 0;
    while i < k
        invariant
            i <= k,
            k == old(sys).spec_next_id(),
            names == ints@.map_values(|n: String| n@),
            sys.spec_next_id() == k,
            sys.spec_vars() == Seq::new(k as nat, |q: int| Var(q as usize)),
            sys.spec_constraints() == old(sys).spec_constraints(),
            sys.spec_objective() == old(sys).spec_objective(),
            forall|q: int| 0 <= q < k ==> #[trigger] sys.spec_domain(Var(q as usize)) == Some(Domain {
                var: Var(q as usize),
                is_integer: q < i && names.contains(x_name(q as nat)),
                bound: Bound { lower: None, upper: None },
            }),
        decreases k - i,
    {
        let xs = x_string(i);
        let mut found = false;
        let mut j: usize = 0;
        while j < ints.len()
            invariant
                j <= ints@.len(),
                names == ints@.map_values(|n: String| n@),
                found == (exists|q: int| 0 <= q < j && names[q] == x_name(i as nat)),
                xs@ == x_name(i as nat),
            decreases ints@.len() - j,
        {
            if text_eq(ints[j].as_str(), xs.as_str()) {
                assert(names[j as int] == x_name(i as nat));
                found = true;
            }
            j = j + 1;
        }
        proof {
            if found {
                let q = choose|q: int| 0 <= q < j && names[q] == x_name(i as nat);
                assert(names.contains(x_name(i as nat)));
            } else {
                assert(!names.contains(x_name(i as nat)));
            }
        }
        if found {
            sys.set_integer(Var::new(i), true);
        }
        proof {
            assert forall|q: int| 0 <= q < k implies #[trigger] sys.spec_domain(Var(q as usize)) == Some(Domain {
                var: Var(q as usize),
                is_integer: q < i + 1 && names.contains(x_name(q as nat)),
                bound: Bound { lower: None, upper: None },
            }) by {
                if q != i {
                    assert(Var(q as usize) != Var(i));
                }
            }
        }
        i = i + 1;
    }
}

/// Build the problem from the lines read.
fn build_problem(st: &LineState) -> (r: ParseResult<LpProblem>)
    ensures
        match lp_build(line_scan(*st)) {
            Ok(m) => r matches Ok(p) && system_is(p.system, m),
            Err(e) => r matches Err(x) && x@ == e,
        },
{
    let mut sys = LinearSystem::new();
    assert(sys.spec_vars() =~= Seq::new(0, |q: int| Var(q as usize)));
    let ghost none_ints: Seq<Seq<char>> = seq![];
    let ghost sc = line_scan(*st);
    match &st.objective {
        Some((is_min, text)) => {
            let ps = parse_expr(&mut sys, text.as_str(), Ghost(0nat), Ghost(none_ints))?;
            let e = match sum_pieces(&ps) {
                Some(e) => e,
                None => {
                    let mut m = String::from_str("arithmetic overflow in ");
                    m.append(text.as_str());
                    return Err(m);
                },
            };
            if *is_min {
                sys.set_objective(Objective::Minimise(e));
            } else {
                sys.set_objective(Objective::Maximise(e));
            }
        },
        None => {},
    }
    let ghost k1 = sys.spec_next_id() as nat;
    let ghost names = st.ints@.map_values(|n: String| n@);
    let mut i: usize = 0;
    let ghost mut built: Seq<(Seq<LpPiece>, CmpOp)> = seq![];
    while i < st.constraints.len()
        invariant
            i <= st.constraints@.len(),
            sc == line_scan(*st),
            names == sc.2,
            k1 <= sys.spec_next_id(),
            build_objective(sc.0) matches Ok((kk, o)) && kk == k1 && (match o {
                None => sys.spec_objective() is Feasibility,
                Some((true, ps)) => (sys.spec_objective() matches Objective::Minimise(e) && expr_is(e, ps)),
                Some((false, ps)) => (sys.spec_objective() matches Objective::Maximise(e) && expr_is(e, ps)),
            }),
            sys_vars_ok(sys, sys.spec_next_id() as nat, 0, none_ints),
            build_constraints(k1, sc.1, 0, seq![]) == build_constraints(sys.spec_next_id() as nat, sc.1, i as int, built),
            sys.spec_constraints().len() == built.len(),
            forall|j: int| 0 <= j < built.len() ==> {
                &&& (#[trigger] sys.spec_constraints()[j]).op == built[j].1
                &&& expr_is(sys.spec_constraints()[j].expr, built[j].0)
                &&& sys.spec_constraints()[j].name is None
            },
        decreases st.constraints@.len() - i,
    {
        let (text, op, rhs) = &st.constraints[i];
        assert(sc.1[i as int] == (text@, *op, *rhs));
        let mut ps = parse_expr(&mut sys, text.as_str(), Ghost(0nat), Ghost(none_ints))?;
        let neg_rhs = match rhs.checked_neg() {
            Some(v) => v,
            None => {
                let mut m = String::from_str("arithmetic overflow in ");
                m.append(text.as_str());
                return Err(m);
            },
        };
        ps.push(LpPiece::Const(neg_rhs));
        let e = match sum_pieces(&ps) {
            Some(e) => e,
            None => {
                let mut m = String::from_str("arithmetic overflow in ");
                m.append(text.as_str());
                return Err(m);
            },
        };
        let c = match op {
            CmpOp::Le => LinearConstraint::le(e),
            CmpOp::Ge => LinearConstraint::ge(e),
            CmpOp::Eq => LinearConstraint::eq(e),
        };
        sys.add_constraint(c);
        proof {
            built = built.push((ps@, *op));
        }
        i = i + 1;
    }
    apply_ints(&mut sys, &st.ints);
    Ok(LpProblem { system: sys })
}

/// Minimal LP format parser.
pub struct LpFormatParser;

impl LpFormatParser {
    pub fn new() -> (p: Self) {
        LpFormatParser
    }

    /// Parse LP text into a `LinearSystem`.
    pub fn parse(&self, input: &str) -> (r: ParseResult<LpProblem>)
        ensures
            match lp_spec(input@) {
                Ok(m) => r matches Ok(p) && system_is(p.system, m),
                Err(e) => r matches Err(x) && x@ == e,
            },
    {
        let chars = chars_of(input);
        let ghost s = input@;
        let mut st = LineState { objective: None, constraints: Vec::new(), ints: Vec::new(), done: false };
        assert(line_scan(st) =~= (None, seq![], seq![], false));
        let mut start: usize = 0;
        let mut i: usize = 0;
        let mut no: u128 = 1;
        assert(s.take(0) =~= seq![]);
        while i < chars.len()
            invariant
                chars@ == input@,
                s == input@,
                start <= i <= chars@.len(),
                1 <= no <= i + 1,
                split_on(s.take(i as int), '\n').len() == no,
                split_on(s.take(i as int), '\n').last() == s.subrange(start as int, i as int),
                lp_lines(split_on(s.take(i as int), '\n').drop_last()) == Ok::<LpScan, Seq<char>>(line_scan(st)),
            decreases chars@.len() - i,
        {
            let ghost pre = split_on(s.take(i as int), '\n');
            assert(s.take(i as int + 1).drop_last() =~= s.take(i as int));
            assert(s.take(i as int + 1).last() == chars@[i as int]);
            assert(s.subrange(start as int, i as int) == chars@.subrange(start as int, i as int));
            if chars[i] == '\n' {
                let res = read_lp_line(&mut st, input, &chars, start, i, no);
                assert(pre.drop_last().push(pre.last()) =~= pre);
                assert(split_on(s.take(i as int + 1), '\n') == pre.push(seq![]));
                assert(pre.push(seq![]).drop_last() =~= pre);
                match res {
                    Err(e) => {
                        proof {
                            let all = split_on(s, '\n');
                            assert(s.take(s.len() as int) =~= s);
                            lemma_split_prefix(s, i as int + 1, '\n');
                            assert(pre == all.take(pre.len() as int));
                            lemma_lp_lines_err_sticks(all, pre.len() as int);
                        }
                        return Err(e);
                    },
                    Ok(()) => {},
                }
                start = i + 1;
                no = no + 1;
            } else {
                assert(s.subrange(start as int, i as int + 1) =~= s.subrange(start as int, i as int).push(chars@[i as int]));
                assert(split_on(s.take(i as int + 1), '\n').drop_last() =~= pre.drop_last());
            }
            i = i + 1;
        }
        assert(s.take(i as int) =~= s);
        let ghost all = split_on(s, '\n');
        assert(all.drop_last().push(all.last()) =~= all);
        assert(s.subrange(start as int, i as int) == chars@.subrange(start as int, i as int));
        match read_lp_line(&mut st, input, &chars, start, i, no) {
            Err(e) => Err(e),
            Ok(()) => build_problem(&st),
        }
    }
}

} // verus!
