//! Text utilities shared by the parsers: characters, lines, whitespace
//! separated words, and decimal numbers.
use vstd::prelude::*;

verus! {

/// The characters of a string.
pub fn chars_of(s: &str) -> (v: Vec<char>)
    ensures
        v@ == s@,
{
    let mut v: Vec<char> = Vec::new();
    for c in it: s.chars()
        invariant
            v@ == it.seq().take(it.index() as int),
    {
        v.push(c);
    }
    v
}

/// Unicode white space, as `char::is_whitespace` defines it.
pub open spec fn is_ws(c: char) -> bool {
    ||| c == ' '
    ||| ('\t' <= c && c <= '\r')
    ||| c == '\u{85}'
    ||| c == '\u{A0}'
    ||| c == '\u{1680}'
    ||| ('\u{2000}' <= c && c <= '\u{200A}')
    ||| c == '\u{2028}'
    ||| c == '\u{2029}'
    ||| c == '\u{202F}'
    ||| c == '\u{205F}'
    ||| c == '\u{3000}'
}

/// Whether `c` is white space.
pub fn is_ws_char(c: char) -> (b: bool)
    ensures
        b == is_ws(c),
{
    c == ' ' || ('\t' <= c && c <= '\r') || c == '\u{85}' || c == '\u{A0}' || c == '\u{1680}'
        || ('\u{2000}' <= c && c <= '\u{200A}') || c == '\u{2028}' || c == '\u{2029}'
        || c == '\u{202F}' || c == '\u{205F}' || c == '\u{3000}'
}

/// Scanning `s` for words: the finished words and the word in progress.
pub open spec fn word_scan(s: Seq<char>) -> (Seq<Seq<char>>, Seq<char>)
    decreases s.len(),
{
    if s.len() == 0 {
        (seq![], seq![])
    } else {
        let (ws, cur) = word_scan(s.drop_last());
        if is_ws(s.last()) {
            if cur.len() > 0 {
                (ws.push(cur), seq![])
            } else {
                (ws, seq![])
            }
        } else {
            (ws, cur.push(s.last()))
        }
    }
}

/// The maximal runs of non-white-space characters of `s`, in order
/// (`str::split_whitespace`).
pub open spec fn words(s: Seq<char>) -> Seq<Seq<char>> {
    let (ws, cur) = word_scan(s);
    if cur.len() > 0 {
        ws.push(cur)
    } else {
        ws
    }
}

/// The pieces of `s` between the separators `sep`, in order (always at least one).
pub open spec fn split_on(s: Seq<char>, sep: char) -> Seq<Seq<char>>
    decreases s.len(),
{
    if s.len() == 0 {
        seq![seq![]]
    } else {
        let r = split_on(s.drop_last(), sep);
        if s.last() == sep {
            r.push(seq![])
        } else {
            r.update(r.len() - 1, r.last().push(s.last()))
        }
    }
}

pub proof fn lemma_split_on_nonempty(s: Seq<char>, sep: char)
    ensures
        split_on(s, sep).len() >= 1,
    decreases s.len(),
{
    if s.len() > 0 {
        lemma_split_on_nonempty(s.drop_last(), sep);
    }
}

/// The pieces of a prefix, all but its last (still open) one, are the first
/// pieces of the whole.
pub proof fn lemma_split_prefix(s: Seq<char>, j: int, sep: char)
    requires
        0 <= j <= s.len(),
    ensures
        split_on(s.take(j), sep).len() >= 1,
        split_on(s.take(j), sep).len() <= split_on(s, sep).len(),
        split_on(s.take(j), sep).drop_last() == split_on(s, sep).take(split_on(s.take(j), sep).len() - 1),
    decreases s.len() - j,
{
    lemma_split_on_nonempty(s.take(j), sep);
    if j == s.len() {
        assert(s.take(j) =~= s);
        let a = split_on(s, sep);
        assert(a.drop_last() =~= a.take(a.len() - 1));
    } else {
        lemma_split_prefix(s, j + 1, sep);
        let t1 = s.take(j + 1);
        assert(t1.drop_last() =~= s.take(j));
        let r = split_on(s.take(j), sep);
        let r1 = split_on(t1, sep);
        let all = split_on(s, sep);
        if t1.last() == sep {
            assert(r1 == r.push(seq![]));
            assert(r1.drop_last() =~= r);
            assert(r.drop_last() =~= all.take(r.len() - 1));
        } else {
            assert(r1.drop_last() =~= r.drop_last());
        }
    }
}

/// The words of `s[lo..hi]`.
pub fn words_in(s: &Vec<char>, lo: usize, hi: usize) -> (r: Vec<(usize, usize)>)
    requires
        lo <= hi <= s@.len(),
    ensures
        r@.len() == words(s@.subrange(lo as int, hi as int)).len(),
        forall|k: int| 0 <= k < r@.len() ==> {
            &&& lo <= (#[trigger] r@[k]).0 < r@[k].1 <= hi
            &&& s@.subrange(r@[k].0 as int, r@[k].1 as int) == words(s@.subrange(lo as int, hi as int))[k]
        },
{
    let ghost sub = s@.subrange(lo as int, hi as int);
    let mut out: Vec<(usize, usize)> = Vec::new();
    let mut start: usize = lo;
    let mut i: usize = lo;
    while i < hi
        invariant
            lo <= start <= i <= hi <= s@.len(),
            sub == s@.subrange(lo as int, hi as int),
            out@.len() == word_scan(s@.subrange(lo as int, i as int)).0.len(),
            forall|k: int| 0 <= k < out@.len() ==> {
                &&& lo <= (#[trigger] out@[k]).0 < out@[k].1 <= start
                &&& s@.subrange(out@[k].0 as int, out@[k].1 as int)
                    == word_scan(s@.subrange(lo as int, i as int)).0[k]
            },
            s@.subrange(start as int, i as int) == word_scan(s@.subrange(lo as int, i as int)).1,
        decreases hi - i,
    {
        let c = s[i];
        let ghost pre = s@.subrange(lo as int, i as int);
        assert(s@.subrange(lo as int, i as int + 1).drop_last() =~= pre);
        assert(s@.subrange(lo as int, i as int + 1).last() == c);
        if is_ws_char(c) {
            if start < i {
                out.push((start, i));
            }
            start = i + 1;
            assert(s@.subrange(start as int, i as int + 1) =~= seq![]);
        } else {
            assert(s@.subrange(start as int, i as int + 1) =~= s@.subrange(start as int, i as int).push(c));
        }
        i = i + 1;
    }
    assert(s@.subrange(lo as int, i as int) =~= sub);
    if start < i {
        out.push((start, i));
    }
    out
}

/// The value of a string of decimal digits.
pub open spec fn digits_value(s: Seq<char>) -> int
    decreases s.len(),
{
    if s.len() == 0 {
        0
    } else {
        digits_value(s.drop_last()) * 10 + (s.last() as int - '0' as int)
    }
}

/// Every character is an ASCII digit.
pub open spec fn all_digits(s: Seq<char>) -> bool {
    forall|k: int| 0 <= k < s.len() ==> '0' <= #[trigger] s[k] && s[k] <= '9'
}

/// The integer a token denotes (`str::parse` for integers): an optional
/// sign (`-` only when `signed`) and at least one decimal digit.
pub open spec fn int_token(t: Seq<char>, signed: bool) -> Option<int> {
    if t.len() > 0 && t[0] == '+' {
        if t.len() > 1 && all_digits(t.drop_first()) {
            Some(digits_value(t.drop_first()))
        } else {
            None
        }
    } else if signed && t.len() > 0 && t[0] == '-' {
        if t.len() > 1 && all_digits(t.drop_first()) {
            Some(-digits_value(t.drop_first()))
        } else {
            None
        }
    } else if t.len() > 0 && all_digits(t) {
        Some(digits_value(t))
    } else {
        None
    }
}

/// The value of `t` parsed as an integer in `[lo, hi]`, if it is one.
pub open spec fn int_in_range(t: Seq<char>, signed: bool, lo: int, hi: int) -> Option<int> {
    match int_token(t, signed) {
        Some(v) => if lo <= v <= hi { Some(v) } else { None },
        None => None,
    }
}

proof fn lemma_digits_nonneg(s: Seq<char>)
    requires
        all_digits(s),
    ensures
        digits_value(s) >= 0,
    decreases s.len(),
{
    if s.len() > 0 {
        lemma_digits_nonneg(s.drop_last());
    }
}

proof fn lemma_digits_prefix_mono(s: Seq<char>, k: int)
    requires
        all_digits(s),
        0 <= k <= s.len(),
    ensures
        digits_value(s.take(k)) <= digits_value(s),
    decreases s.len() - k,
{
    if k < s.len() {
        let t = s.take(k + 1);
        assert(t.drop_last() =~= s.take(k));
        assert(all_digits(t));
        lemma_digits_nonneg(s.take(k));
        lemma_digits_prefix_mono(s, k + 1);
    } else {
        assert(s.take(k) =~= s);
    }
}

/// The value of the digits `s[lo..hi]` when it is at most `bound`.
pub fn digits_up_to(s: &Vec<char>, lo: usize, hi: usize, bound: u64) -> (r: Option<u64>)
    requires
        lo <= hi <= s@.len(),
        all_digits(s@.subrange(lo as int, hi as int)),
    ensures
        r is Some <==> digits_value(s@.subrange(lo as int, hi as int)) <= bound,
        r matches Some(v) ==> v == digits_value(s@.subrange(lo as int, hi as int)),
{
    let ghost full = s@.subrange(lo as int, hi as int);
    let mut v: u128 = 0;
    let mut i: usize = lo;
    while i < hi
        invariant
            lo <= i <= hi <= s@.len(),
            full == s@.subrange(lo as int, hi as int),
            all_digits(full),
            v == digits_value(s@.subrange(lo as int, i as int)),
            v <= bound,
        decreases hi - i,
    {
        let c = s[i];
        assert(s@.subrange(lo as int, i as int + 1).drop_last() =~= s@.subrange(lo as int, i as int));
        assert(full[i - lo] == c);
        let d: u128 = (c as u128) - ('0' as u128);
        let nv = v * 10 + d;
        i = i + 1;
        if nv > bound as u128 {
            proof {
                assert(s@.subrange(lo as int, i as int) =~= full.take(i - lo));
                lemma_digits_prefix_mono(full, i - lo);
            }
            return None;
        }
        v = nv;
    }
    assert(s@.subrange(lo as int, i as int) =~= full);
    Some(v as u64)
}

/// Whether `s[lo..hi]` is all ASCII digits.
pub fn digits_only(s: &Vec<char>, lo: usize, hi: usize) -> (b: bool)
    requires
        lo <= hi <= s@.len(),
    ensures
        b == all_digits(s@.subrange(lo as int, hi as int)),
{
    let mut i: usize = lo;
    while i < hi
        invariant
            lo <= i <= hi <= s@.len(),
            forall|k: int| lo <= k < i ==> '0' <= #[trigger] s@[k] && s@[k] <= '9',
        decreases hi - i,
    {
        if !('0' <= s[i] && s[i] <= '9') {
            assert(s@.subrange(lo as int, hi as int)[i - lo] == s@[i as int]);
            return false;
        }
        i = i + 1;
    }
    assert forall|k: int| 0 <= k < hi - lo implies '0' <= #[trigger] s@.subrange(lo as int, hi as int)[k]
        && s@.subrange(lo as int, hi as int)[k] <= '9' by {
        assert(s@.subrange(lo as int, hi as int)[k] == s@[lo + k]);
    }
    true
}

/// Parse `s[lo..hi]` as an integer in `[-bound - 1, bound]` (an unsigned
/// one, in `[0, bound]`, when `signed` is false).
pub fn parse_int(s: &Vec<char>, lo: usize, hi: usize, signed: bool, bound: u64) -> (r: Option<i64>)
    requires
        lo <= hi <= s@.len(),
        bound <= i64::MAX,
    ensures
        r is Some <==> int_in_range(s@.subrange(lo as int, hi as int), signed, -(bound as int) - 1, bound as int) is Some,
        r matches Some(v) ==> int_in_range(s@.subrange(lo as int, hi as int), signed, -(bound as int) - 1, bound as int) == Some(v as int),
{
    let ghost t = s@.subrange(lo as int, hi as int);
    if lo == hi {
        return None;
    }
    let first = s[lo];
    assert(t[0] == first);
    let neg = signed && first == '-';
    let body_lo = if first == '+' || neg { lo + 1 } else { lo };
    assert(t.drop_first() =~= s@.subrange(lo as int + 1, hi as int));
    if body_lo == hi {
        return None;
    }
    if !digits_only(s, body_lo, hi) {
        return None;
    }
    proof {
        if body_lo == lo {
            assert(t =~= s@.subrange(body_lo as int, hi as int));
        }
    }
    let limit: u64 = if neg { bound + 1 } else { bound };
    match digits_up_to(s, body_lo, hi, limit) {
        None => None,
        Some(v) => {
            if neg {
                let w: i128 = -(v as i128);
                Some(w as i64)
            } else {
                Some(v as i64)
            }
        },
    }
}

/// Parse `s[lo..hi]` as an unsigned integer in `[0, bound]`.
pub fn parse_uint(s: &Vec<char>, lo: usize, hi: usize, bound: u64) -> (r: Option<u64>)
    requires
        lo <= hi <= s@.len(),
    ensures
        r is Some <==> int_in_range(s@.subrange(lo as int, hi as int), false, 0, bound as int) is Some,
        r matches Some(v) ==> int_in_range(s@.subrange(lo as int, hi as int), false, 0, bound as int) == Some(v as int),
{
    let ghost t = s@.subrange(lo as int, hi as int);
    if lo == hi {
        return None;
    }
    let first = s[lo];
    assert(t[0] == first);
    let body_lo = if first == '+' { lo + 1 } else { lo };
    assert(t.drop_first() =~= s@.subrange(lo as int + 1, hi as int));
    if body_lo == hi {
        return None;
    }
    if !digits_only(s, body_lo, hi) {
        return None;
    }
    proof {
        if body_lo == lo {
            assert(t =~= s@.subrange(body_lo as int, hi as int));
        }
    }
    digits_up_to(s, body_lo, hi, bound)
}

/// Whether `s[lo..hi]` spells `lit`.
pub fn chars_equal(s: &Vec<char>, lo: usize, hi: usize, lit: &str) -> (b: bool)
    requires
        lo <= hi <= s@.len(),
    ensures
        b == (s@.subrange(lo as int, hi as int) == lit@),
{
    let l = chars_of(lit);
    if hi - lo != l.len() {
        return false;
    }
    let mut i: usize = 0;
    while i < l.len()
        invariant
            lo <= hi <= s@.len(),
            hi - lo == l@.len(),
            l@ == lit@,
            i <= l@.len(),
            forall|k: int| 0 <= k < i ==> s@[lo + k] == l@[k],
        decreases l@.len() - i,
    {
        if s[lo + i] != l[i] {
            assert(s@.subrange(lo as int, hi as int)[i as int] != lit@[i as int]);
            return false;
        }
        i = i + 1;
    }
    assert(s@.subrange(lo as int, hi as int) =~= lit@);
    true
}

/// The decimal digits of `n`.
pub open spec fn decimal(n: nat) -> Seq<char>
    decreases n,
{
    if n < 10 {
        seq![(('0' as nat) + n) as char]
    } else {
        decimal(n / 10).push((('0' as nat) + n % 10) as char)
    }
}

/// Decimal digits as `decimal` writes them: at least one digit, and no
/// leading zero unless the number is zero.
pub open spec fn canonical_digits(s: Seq<char>) -> bool {
    &&& s.len() > 0
    &&& all_digits(s)
    &&& (s.len() == 1 || s[0] != '0')
}

/// `decimal(n)` is canonical and denotes `n`.
pub proof fn lemma_decimal_canonical(n: nat)
    ensures
        canonical_digits(decimal(n)),
        digits_value(decimal(n)) == n,
    decreases n,
{
    if n < 10 {
        let e = decimal(n);
        let c = (('0' as nat) + n) as char;
        assert(e =~= seq![c]);
        assert(c as int == 48 + n);
        assert(e.drop_last() =~= Seq::<char>::empty());
        assert(digits_value(e) == digits_value(e.drop_last()) * 10 + (e.last() as int - '0' as int));
    } else {
        lemma_decimal_canonical(n / 10);
        let d = decimal(n / 10);
        let e = decimal(n);
        let c = (('0' as nat) + n % 10) as char;
        assert(c as int == 48 + n % 10);
        assert(e == d.push(c));
        assert(e.drop_last() =~= d);
        assert(e.last() == c);
        assert(e[0] == d[0]);
        if d.len() == 1 {
            assert(d.drop_last() =~= Seq::<char>::empty());
            assert(digits_value(d) == digits_value(d.drop_last()) * 10 + (d.last() as int - '0' as int));
            assert(d[0] != '0');
        }
        assert forall|k: int| 0 <= k < e.len() implies '0' <= #[trigger] e[k] && e[k] <= '9' by {
            if k < d.len() {
                assert(e[k] == d[k]);
            }
        }
        assert(digits_value(e) == digits_value(d) * 10 + (c as int - '0' as int));
        assert(n == (n / 10) * 10 + n % 10);
    }
}

/// A nonempty digit string without a leading zero denotes at least 1 when
/// it has two digits or more.
proof fn lemma_canonical_positive(s: Seq<char>)
    requires
        canonical_digits(s),
        s.len() >= 2,
    ensures
        digits_value(s) >= 10,
    decreases s.len(),
{
    let t = s.drop_last();
    assert(all_digits(t));
    if t.len() >= 2 {
        assert(t[0] == s[0]);
        lemma_canonical_positive(t);
    } else {
        assert(t =~= seq![s[0]]);
        assert(digits_value(t) == digits_value(t.drop_last()) * 10 + (t.last() as int - '0' as int));
        assert(t.drop_last() =~= Seq::<char>::empty());
    }
    lemma_digits_nonneg(t);
}

/// A canonical digit string is the decimal form of its value.
pub proof fn lemma_canonical_decimal(s: Seq<char>)
    requires
        canonical_digits(s),
    ensures
        digits_value(s) >= 0,
        decimal(digits_value(s) as nat) == s,
    decreases s.len(),
{
    lemma_digits_nonneg(s);
    if s.len() == 1 {
        assert(s.drop_last() =~= Seq::<char>::empty());
        let c = s[0];
        assert('0' <= c && c <= '9');
        let v = digits_value(s);
        assert(v == digits_value(s.drop_last()) * 10 + (s.last() as int - '0' as int));
        assert(v == c as int - 48);
        assert(v < 10);
        assert(((('0' as nat) + (v as nat)) as char) == c);
        assert(decimal(v as nat) =~= seq![c]);
        assert(s =~= seq![c]);
    } else {
        let t = s.drop_last();
        assert(t[0] == s[0]);
        assert(all_digits(t));
        lemma_canonical_decimal(t);
        if t.len() >= 2 {
            lemma_canonical_positive(t);
        } else {
            assert(t.drop_last() =~= Seq::<char>::empty());
        }
        let v = digits_value(s);
        assert(v == digits_value(t) * 10 + (s.last() as int - '0' as int));
        assert(v >= 10);
        assert(v / 10 == digits_value(t));
        assert(decimal(v as nat) =~= s);
    }
}

/// The one-character string of the digit `d`.
fn digit_str(d: u128) -> (s: &'static str)
    requires
        d < 10,
    ensures
        s@ == seq![(('0' as nat) + d) as char],
{
    proof {
        reveal_strlit("0");
        reveal_strlit("1");
        reveal_strlit("2");
        reveal_strlit("3");
        reveal_strlit("4");
        reveal_strlit("5");
        reveal_strlit("6");
        reveal_strlit("7");
        reveal_strlit("8");
        reveal_strlit("9");
    }
    if d == 0 {
        "0"
    } else if d == 1 {
        "1"
    } else if d == 2 {
        "2"
    } else if d == 3 {
        "3"
    } else if d == 4 {
        "4"
    } else if d == 5 {
        "5"
    } else if d == 6 {
        "6"
    } else if d == 7 {
        "7"
    } else if d == 8 {
        "8"
    } else {
        "9"
    }
}

/// Append the decimal digits of `n` to `out`.
pub fn push_decimal(out: &mut String, n: u128)
    ensures
        final(out)@ == old(out)@ + decimal(n as nat),
    decreases n,
{
    if n < 10 {
        out.append(digit_str(n));
    } else {
        push_decimal(out, n / 10);
        out.append(digit_str(n % 10));
    }
}

/// The message `line <no>: <text>`.
pub open spec fn line_msg(no: nat, text: Seq<char>) -> Seq<char> {
    "line "@ + decimal(no) + ": "@ + text
}

/// `line <no>: <text>` as a string.
pub fn line_error(no: u128, text: &str) -> (s: String)
    ensures
        s@ == line_msg(no as nat, text@),
{
    let mut s = String::from_str("line ");
    push_decimal(&mut s, no);
    s.append(": ");
    s.append(text);
    proof {
        reveal_strlit("line ");
        reveal_strlit(": ");
    }
    assert(s@ =~= line_msg(no as nat, text@));
    s
}

/// A string holding the characters `lo .. hi` of `src`.
pub fn string_of(src: &str, lo: usize, hi: usize) -> (r: String)
    requires
        lo <= hi <= src@.len(),
    ensures
        r@ == src@.subrange(lo as int, hi as int),
{
    src.substring_char(lo, hi).to_owned()
}

/// Whether two strings hold the same characters.
pub fn text_eq(a: &str, b: &str) -> (r: bool)
    ensures
        r == (a@ == b@),
{
    let n = a.unicode_len();
    if n != b.unicode_len() {
        return false;
    }
    let mut i: usize = 0;
    while i < n
        invariant
            n == a@.len(),
            n == b@.len(),
            i <= n,
            forall|k: int| 0 <= k < i ==> a@[k] == b@[k],
        decreases n - i,
    {
        if a.get_char(i) != b.get_char(i) {
            return false;
        }
        i = i + 1;
    }
    assert(a@ =~= b@);
    true
}

/// Every word, and the word in progress, is no longer than the text.
pub proof fn lemma_word_scan_short(s: Seq<char>)
    ensures
        word_scan(s).1.len() <= s.len(),
        forall|k: int| 0 <= k < word_scan(s).0.len() ==> #[trigger] word_scan(s).0[k].len() <= s.len(),
    decreases s.len(),
{
    if s.len() > 0 {
        lemma_word_scan_short(s.drop_last());
    }
}

/// Every word is no longer than the text.
pub proof fn lemma_words_short(s: Seq<char>)
    ensures
        forall|k: int| 0 <= k < words(s).len() ==> #[trigger] words(s)[k].len() <= s.len(),
{
    lemma_word_scan_short(s);
}

/// The number of white-space characters that `s` starts with.
pub open spec fn lead_ws(s: Seq<char>) -> nat
    decreases s.len(),
{
    if s.len() == 0 || !is_ws(s[0]) {
        0
    } else {
        1 + lead_ws(s.drop_first())
    }
}

/// The number of white-space characters that `s` ends with.
pub open spec fn trail_ws(s: Seq<char>) -> nat
    decreases s.len(),
{
    if s.len() == 0 || !is_ws(s.last()) {
        0
    } else {
        1 + trail_ws(s.drop_last())
    }
}

/// `s` without leading and trailing white space (`str::trim`).
pub open spec fn trim(s: Seq<char>) -> Seq<char> {
    if lead_ws(s) >= s.len() {
        seq![]
    } else {
        s.subrange(lead_ws(s) as int, s.len() - trail_ws(s))
    }
}

/// `s` without the `)` characters it ends with (`str::trim_end_matches(')')`).
pub open spec fn strip_close(s: Seq<char>) -> Seq<char>
    decreases s.len(),
{
    if s.len() > 0 && s.last() == ')' {
        strip_close(s.drop_last())
    } else {
        s
    }
}

proof fn lemma_lead_ws_bound(s: Seq<char>)
    ensures
        lead_ws(s) <= s.len(),
        forall|k: int| 0 <= k < lead_ws(s) ==> #[trigger] is_ws(s[k]),
        lead_ws(s) < s.len() ==> !is_ws(s[lead_ws(s) as int]),
    decreases s.len(),
{
    if s.len() > 0 && is_ws(s[0]) {
        lemma_lead_ws_bound(s.drop_first());
        assert forall|k: int| 0 <= k < lead_ws(s) implies #[trigger] is_ws(s[k]) by {
            if k > 0 {
                assert(s[k] == s.drop_first()[k - 1]);
            }
        }
    }
}

proof fn lemma_trail_ws_bound(s: Seq<char>)
    ensures
        trail_ws(s) <= s.len(),
        forall|k: int| s.len() - trail_ws(s) <= k < s.len() ==> #[trigger] is_ws(s[k]),
        trail_ws(s) < s.len() ==> !is_ws(s[s.len() - 1 - trail_ws(s)]),
    decreases s.len(),
{
    if s.len() > 0 && is_ws(s.last()) {
        lemma_trail_ws_bound(s.drop_last());
        assert forall|k: int| s.len() - trail_ws(s) <= k < s.len() implies #[trigger] is_ws(s[k]) by {
            if k < s.len() - 1 {
                assert(s[k] == s.drop_last()[k]);
            }
        }
    }
}

/// The bounds `lo' .. hi'` of `s[lo..hi]` without its surrounding white space.
pub fn trim_bounds(s: &Vec<char>, lo: usize, hi: usize) -> (r: (usize, usize))
    requires
        lo <= hi <= s@.len(),
    ensures
        lo <= r.0 <= r.1 <= hi,
        s@.subrange(r.0 as int, r.1 as int) == trim(s@.subrange(lo as int, hi as int)),
{
    let ghost t = s@.subrange(lo as int, hi as int);
    proof {
        lemma_lead_ws_bound(t);
        lemma_trail_ws_bound(t);
    }
    let mut a: usize = lo;
    while a < hi && is_ws_char(s[a])
        invariant
            lo <= a <= hi <= s@.len(),
            t == s@.subrange(lo as int, hi as int),
            forall|k: int| lo <= k < a ==> #[trigger] is_ws(s@[k]),
            a - lo <= lead_ws(t),
        decreases hi - a,
    {
        proof {
            lemma_lead_ws_prefix(t, (a - lo) as int);
        }
        a = a + 1;
    }
    if a == hi {
        proof {
            lemma_lead_ws_all(t);
        }
        return (hi, hi);
    }
    let mut b: usize = hi;
    while b > a && is_ws_char(s[b - 1])
        invariant
            lo <= a < b <= hi <= s@.len() || (lo <= a <= b <= hi <= s@.len()),
            a < hi,
            !is_ws(s@[a as int]),
            t == s@.subrange(lo as int, hi as int),
            forall|k: int| b <= k < hi ==> #[trigger] is_ws(s@[k]),
            hi - b <= trail_ws(t),
        decreases b - a,
    {
        proof {
            lemma_trail_ws_suffix(t, (hi - b) as int);
        }
        b = b - 1;
    }
    proof {
        lemma_lead_ws_exact(t, (a - lo) as int);
        lemma_trail_ws_exact(t, (hi - b) as int);
        assert(s@.subrange(a as int, b as int) =~= t.subrange(lead_ws(t) as int, t.len() - trail_ws(t)));
    }
    (a, b)
}

/// Leading white space goes on past any shorter all-white prefix.
proof fn lemma_lead_ws_prefix(t: Seq<char>, j: int)
    requires
        0 <= j < t.len(),
        forall|k: int| 0 <= k <= j ==> #[trigger] is_ws(t[k]),
    ensures
        lead_ws(t) >= j + 1,
    decreases j,
{
    if j > 0 {
        lemma_lead_ws_prefix(t.drop_first(), j - 1);
    }
}

/// A text of white space only is all leading white space.
proof fn lemma_lead_ws_all(t: Seq<char>)
    requires
        forall|k: int| 0 <= k < t.len() ==> #[trigger] is_ws(t[k]),
    ensures
        lead_ws(t) == t.len(),
    decreases t.len(),
{
    if t.len() > 0 {
        lemma_lead_ws_all(t.drop_first());
    }
}

/// The leading white space ends at the first other character.
proof fn lemma_lead_ws_exact(t: Seq<char>, j: int)
    requires
        0 <= j < t.len(),
        forall|k: int| 0 <= k < j ==> #[trigger] is_ws(t[k]),
        !is_ws(t[j]),
    ensures
        lead_ws(t) == j,
    decreases j,
{
    if j > 0 {
        lemma_lead_ws_exact(t.drop_first(), j - 1);
    }
}

/// Trailing white space goes on past any shorter all-white suffix.
proof fn lemma_trail_ws_suffix(t: Seq<char>, j: int)
    requires
        0 <= j < t.len(),
        forall|k: int| t.len() - 1 - j <= k < t.len() ==> #[trigger] is_ws(t[k]),
    ensures
        trail_ws(t) >= j + 1,
    decreases j,
{
    if j > 0 {
        lemma_trail_ws_suffix(t.drop_last(), j - 1);
    }
}

/// The trailing white space ends at the last other character.
proof fn lemma_trail_ws_exact(t: Seq<char>, j: int)
    requires
        0 <= j < t.len(),
        forall|k: int| t.len() - j <= k < t.len() ==> #[trigger] is_ws(t[k]),
        !is_ws(t[t.len() - 1 - j]),
    ensures
        trail_ws(t) == j,
    decreases j,
{
    if j > 0 {
        lemma_trail_ws_exact(t.drop_last(), j - 1);
    }
}

} // verus!
