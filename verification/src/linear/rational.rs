//! Exact rational numbers over `i64`.
use vstd::prelude::*;

verus! {

/// Greatest common divisor by Euclid's algorithm.
pub open spec fn gcd_nat(a: nat, b: nat) -> nat
    decreases b,
{
    if b == 0 {
        a
    } else {
        gcd_nat(b, a % b)
    }
}

/// Absolute value of an integer.
pub open spec fn abs_int(x: int) -> nat {
    if x < 0 {
        (-x) as nat
    } else {
        x as nat
    }
}

/// Numerator after moving the sign of `d` onto `n`.
pub open spec fn signed_num(n: int, d: int) -> int {
    if d < 0 {
        -n
    } else {
        n
    }
}

/// Denominator after moving its sign onto the numerator.
pub open spec fn signed_den(d: int) -> int {
    if d < 0 {
        -d
    } else {
        d
    }
}

/// The divisor that reduces `n / d` to lowest terms.
pub open spec fn reduce_by(n: int, d: int) -> nat {
    gcd_nat(abs_int(signed_num(n, d)), signed_den(d) as nat)
}

/// Numerator of the reduced form of `n / d`.
pub open spec fn norm_num(n: int, d: int) -> int {
    let n1 = signed_num(n, d);
    let q = abs_int(n1) / reduce_by(n, d);
    if n1 < 0 {
        -q
    } else {
        q as int
    }
}

/// Denominator of the reduced form of `n / d` (positive).
pub open spec fn norm_den(n: int, d: int) -> int {
    signed_den(d) / (reduce_by(n, d) as int)
}

/// What `Rational::new` needs: a non-zero denominator whose sign can be moved.
pub open spec fn new_req(n: int, d: int) -> bool {
    &&& d != 0
    &&& i64::MIN <= n <= i64::MAX
    &&& i64::MIN <= d <= i64::MAX
    &&& d < 0 ==> (n != i64::MIN && d != i64::MIN)
}

/// `i64` can hold `x`.
pub open spec fn fits_i64(x: int) -> bool {
    i64::MIN <= x <= i64::MAX
}

proof fn lemma_gcd_bounds(a: nat, b: nat)
    requires
        b > 0,
    ensures
        1 <= gcd_nat(a, b) <= b,
    decreases b,
{
    let r = a % b;
    assert(r < b) by (nonlinear_arith)
        requires
            b > 0,
            r == a % b,
    ;
    if r == 0 {
        assert(gcd_nat(a, b) == gcd_nat(b, 0));
    } else {
        lemma_gcd_bounds(b, r);
    }
}

/// Facts about the reduced form: the divisor is at least one and the parts shrink.
pub proof fn lemma_norm_facts(n: int, d: int)
    requires
        new_req(n, d),
    ensures
        1 <= reduce_by(n, d) <= signed_den(d),
        abs_int(norm_num(n, d)) <= abs_int(signed_num(n, d)),
        1 <= norm_den(n, d) <= signed_den(d),
{
    lemma_norm_bounds(n, d);
    let g = reduce_by(n, d);
    let a = abs_int(signed_num(n, d));
    assert(a / g <= a) by (nonlinear_arith)
        requires
            g >= 1,
    ;
}

proof fn lemma_norm_bounds(n: int, d: int)
    requires
        new_req(n, d),
    ensures
        1 <= reduce_by(n, d) <= signed_den(d),
        fits_i64(norm_num(n, d)),
        1 <= norm_den(n, d) <= signed_den(d),
        norm_den(n, d) <= i64::MAX,
{
    let n1 = signed_num(n, d);
    let d1 = signed_den(d);
    lemma_gcd_bounds(abs_int(n1), d1 as nat);
    let g = reduce_by(n, d);
    let a = abs_int(n1);
    assert(a / g <= a) by (nonlinear_arith)
        requires
            g >= 1,
    ;
    assert(1 <= d1 / (g as int) <= d1) by (nonlinear_arith)
        requires
            g >= 1,
            g <= d1,
    ;
}

/// `|x|` as an unsigned integer (exact for every `i64`).
pub fn abs_u64(x: i64) -> (r: u64)
    ensures
        r == abs_int(x as int),
{
    if x < 0 {
        let w: i128 = -(x as i128);
        w as u64
    } else {
        x as u64
    }
}

/// The exact product of two `i64` values.
pub fn wide_mul(a: i64, b: i64) -> (r: i128)
    ensures
        r == a * b,
{
    let x: i128 = a as i128;
    let y: i128 = b as i128;
    assert(-0x8000_0000_0000_0000_0000_0000_0000_0000 < x * y < 0x7fff_ffff_ffff_ffff_ffff_ffff_ffff_ffff) by (nonlinear_arith)
        requires
            -0x8000_0000_0000_0000 <= x <= 0x7fff_ffff_ffff_ffff,
            -0x8000_0000_0000_0000 <= y <= 0x7fff_ffff_ffff_ffff,
    ;
    x * y
}

/// `i64` can hold `x`.
fn fits(x: i128) -> (b: bool)
    ensures
        b == fits_i64(x as int),
{
    i64::MIN as i128 <= x && x <= i64::MAX as i128
}

/// Euclid's algorithm on unsigned integers.
pub fn gcd(a: u64, b: u64) -> (r: u64)
    ensures
        r == gcd_nat(a as nat, b as nat),
    decreases b,
{
    if b == 0 {
        a
    } else {
        gcd(b, a % b)
    }
}

/// A rational number represented as a reduced fraction `n / d` (d > 0).
///
/// Uses `i64` for both numerator and denominator. Arithmetic is exact;
/// an operation whose intermediate products leave `i64` is not allowed.
#[derive(Debug, Clone, Copy, PartialEq, Eq, Structural, Hash)]
pub struct Rational {
    num: i64,
    den: i64,
}

impl Rational {
    /// The rational number zero.
    pub fn zero() -> (r: Rational)
        ensures
            r.spec_num() == 0,
            r.spec_den() == 1,
            r == Rational::spec_make(0, 1),
    {
        proof {
            lemma_int_parts(0);
            lemma_gcd_one(abs_int(0));
        }
        Rational { num: 0, den: 1 }
    }

    /// The rational number one.
    pub fn one() -> (r: Rational)
        ensures
            r.spec_num() == 1,
            r.spec_den() == 1,
            r == Rational::spec_make(1, 1),
    {
        proof {
            lemma_int_parts(1);
            lemma_gcd_one(abs_int(1));
        }
        Rational { num: 1, den: 1 }
    }

    /// Negative one.
    pub fn neg_one() -> (r: Rational)
        ensures
            r.spec_num() == -1,
            r.spec_den() == 1,
            r == Rational::spec_make(-1, 1),
    {
        proof {
            lemma_int_parts(-1);
            lemma_gcd_one(abs_int(-1));
        }
        Rational { num: -1, den: 1 }
    }

    /// A rational is kept in lowest terms with a positive denominator.
    #[verifier::type_invariant]
    spec fn inv(self) -> bool {
        &&& self.den > 0
        &&& gcd_nat(abs_int(self.num as int), self.den as nat) == 1
    }

    /// The numerator.
    pub closed spec fn spec_num(&self) -> i64 {
        self.num
    }

    /// The denominator, which is always positive.
    pub closed spec fn spec_den(&self) -> i64 {
        if self.den > 0 {
            self.den
        } else {
            1
        }
    }

    /// The rational with exactly these parts (spec view of a constructed value).
    closed spec fn from_parts(n: int, d: int) -> Rational {
        Rational { num: n as i64, den: d as i64 }
    }

    /// The reduced form of `n / d`.
    pub closed spec fn spec_make(n: int, d: int) -> Rational {
        Rational::from_parts(norm_num(n, d), norm_den(n, d))
    }

    pub proof fn lemma_den_positive(r: Rational)
        ensures
            r.spec_den() > 0,
    {
    }

    pub proof fn lemma_make_parts(n: int, d: int)
        requires
            new_req(n, d),
        ensures
            Rational::spec_make(n, d).spec_num() == norm_num(n, d),
            Rational::spec_make(n, d).spec_den() == norm_den(n, d),
    {
        lemma_norm_bounds(n, d);
    }

    /// Create a new rational number `n / d`, reduced to lowest terms.
    pub fn new(n: i64, d: i64) -> (r: Self)
        requires
            new_req(n as int, d as int),
        ensures
            r == Rational::spec_make(n as int, d as int),
            r.spec_num() == norm_num(n as int, d as int),
            r.spec_den() == norm_den(n as int, d as int),
    {
        proof {
            lemma_norm_bounds(n as int, d as int);
            lemma_make_lowest_terms(n as int, d as int);
            Rational::lemma_make_parts(n as int, d as int);
        }
        let (n1, d1) = if d < 0 {
            (-n, -d)
        } else {
            (n, d)
        };
        assert(n1 == signed_num(n as int, d as int));
        assert(d1 == signed_den(d as int));
        let a: u64 = abs_u64(n1);
        let g = gcd(a, d1 as u64);
        assert(g == reduce_by(n as int, d as int));
        let q: u64 = a / g;
        let num: i64 = if n1 < 0 {
            let w: i128 = -(q as i128);
            w as i64
        } else {
            q as i64
        };
        let den: i64 = (d1 as u64 / g) as i64;
        assert(num == norm_num(n as int, d as int));
        assert(den == norm_den(n as int, d as int));
        Rational { num, den }
    }

    /// Numerator.
    #[verifier::when_used_as_spec(spec_num)]
    pub fn num(&self) -> (r: i64)
        ensures
            r == self.spec_num(),
    {
        self.num
    }

    /// Denominator (always > 0, with no common divisor with the numerator but one).
    #[verifier::when_used_as_spec(spec_den)]
    pub fn den(&self) -> (r: i64)
        ensures
            r == self.spec_den(),
            r > 0,
            gcd_nat(abs_int(self.spec_num() as int), r as nat) == 1,
    {
        proof {
            use_type_invariant(self);
        }
        self.den
    }

    /// Is this rational zero?
    pub fn is_zero(&self) -> (b: bool)
        ensures
            b == (self.spec_num() == 0),
    {
        self.num == 0
    }

    /// Is this rational one?
    pub fn is_one(&self) -> (b: bool)
        ensures
            b == (self.spec_num() == self.spec_den()),
    {
        proof {
            use_type_invariant(self);
        }
        self.num == self.den
    }

    /// Is this rational negative?
    pub fn is_negative(&self) -> (b: bool)
        ensures
            b == (self.spec_num() < 0),
    {
        self.num < 0
    }

    /// Is this rational positive?
    pub fn is_positive(&self) -> (b: bool)
        ensures
            b == (self.spec_num() > 0),
    {
        self.num > 0
    }

    /// Absolute value: the numerator's magnitude over the same denominator.
    pub fn abs(&self) -> (r: Self)
        requires
            self.spec_num() != i64::MIN,
        ensures
            r.spec_num() == abs_int(self.spec_num() as int),
            r.spec_den() == self.spec_den(),
    {
        proof {
            use_type_invariant(self);
        }
        let a: u64 = abs_u64(self.num);
        Rational { num: a as i64, den: self.den }
    }

    /// Negation.
    pub fn neg(&self) -> (r: Self)
        requires
            self.spec_num() != i64::MIN,
        ensures
            r == Rational::spec_make(-self.spec_num(), self.spec_den() as int),
    {
        proof {
            use_type_invariant(self);
        }
        Rational::new(-self.num, self.den)
    }

    /// Reciprocal of a non-zero rational.
    pub fn recip(&self) -> (r: Self)
        requires
            self.spec_num() != 0,
            self.spec_num() != i64::MIN,
        ensures
            r == Rational::spec_make(self.spec_den() as int, self.spec_num() as int),
            r.spec_num() == (if self.spec_num() > 0 { self.spec_den() as int } else { -self.spec_den() }),
            r.spec_den() == abs_int(self.spec_num() as int),
    {
        proof {
            use_type_invariant(self);
            let n = self.num as int;
            let d = self.den as int;
            lemma_gcd_sym(abs_int(n), d as nat);
            Rational::lemma_make_parts(d, n);
            lemma_make_coprime(d, n);
        }
        Rational::new(self.den, self.num)
    }

    /// The rational `n / 1`.
    pub fn from_int(n: i64) -> (r: Self)
        ensures
            r == Rational::spec_make(n as int, 1),
            r.spec_num() == n,
            r.spec_den() == 1,
    {
        proof {
            lemma_int_parts(n as int);
        }
        Rational::new(n, 1)
    }
}

proof fn lemma_int_parts(n: int)
    requires
        fits_i64(n),
    ensures
        norm_num(n, 1) == n,
        norm_den(n, 1) == 1,
{
    lemma_gcd_bounds(abs_int(n), 1);
    assert(reduce_by(n, 1) == 1);
}

// ── arithmetic ────────────────────────────────────────────────────────

/// Numerator and denominator of `a + b` before reduction fit in `i64`.
pub open spec fn add_ok(a: Rational, b: Rational) -> bool {
    &&& fits_i64(a.spec_num() * b.spec_den())
    &&& fits_i64(b.spec_num() * a.spec_den())
    &&& fits_i64(a.spec_num() * b.spec_den() + b.spec_num() * a.spec_den())
    &&& fits_i64(a.spec_den() * b.spec_den())
}

/// Numerator and denominator of `a - b` before reduction fit in `i64`.
pub open spec fn sub_ok(a: Rational, b: Rational) -> bool {
    &&& fits_i64(a.spec_num() * b.spec_den())
    &&& fits_i64(b.spec_num() * a.spec_den())
    &&& fits_i64(a.spec_num() * b.spec_den() - b.spec_num() * a.spec_den())
    &&& fits_i64(a.spec_den() * b.spec_den())
}

/// Numerator and denominator of `a * b` before reduction fit in `i64`.
pub open spec fn mul_ok(a: Rational, b: Rational) -> bool {
    &&& fits_i64(a.spec_num() * b.spec_num())
    &&& fits_i64(a.spec_den() * b.spec_den())
}

/// `b` is not zero and `a / b` can be formed without leaving `i64`.
pub open spec fn div_ok(a: Rational, b: Rational) -> bool {
    &&& b.spec_num() != 0
    &&& new_req(a.spec_num() * b.spec_den(), a.spec_den() * b.spec_num())
}

/// `a + b` in lowest terms.
pub open spec fn rat_add(a: Rational, b: Rational) -> Rational {
    Rational::spec_make(
        a.spec_num() * b.spec_den() + b.spec_num() * a.spec_den(),
        a.spec_den() * b.spec_den(),
    )
}

/// `a - b` in lowest terms.
pub open spec fn rat_sub(a: Rational, b: Rational) -> Rational {
    Rational::spec_make(
        a.spec_num() * b.spec_den() - b.spec_num() * a.spec_den(),
        a.spec_den() * b.spec_den(),
    )
}

/// `a * b` in lowest terms.
pub open spec fn rat_mul(a: Rational, b: Rational) -> Rational {
    Rational::spec_make(a.spec_num() * b.spec_num(), a.spec_den() * b.spec_den())
}

/// `a / b` in lowest terms.
pub open spec fn rat_div(a: Rational, b: Rational) -> Rational {
    Rational::spec_make(a.spec_num() * b.spec_den(), a.spec_den() * b.spec_num())
}

/// `-a` in lowest terms.
pub open spec fn rat_neg(a: Rational) -> Rational {
    Rational::spec_make(-a.spec_num(), a.spec_den() as int)
}

/// `a < b` as rationals.
pub open spec fn rat_lt(a: Rational, b: Rational) -> bool {
    a.spec_num() * b.spec_den() < b.spec_num() * a.spec_den()
}

/// `a <= b` as rationals.
pub open spec fn rat_le(a: Rational, b: Rational) -> bool {
    a.spec_num() * b.spec_den() <= b.spec_num() * a.spec_den()
}

/// `gcd_nat(a, b)` is positive and divides both of its arguments.
proof fn lemma_gcd_divides(a: nat, b: nat)
    requires
        b > 0,
    ensures
        gcd_nat(a, b) > 0,
        a % gcd_nat(a, b) == 0,
        b % gcd_nat(a, b) == 0,
    decreases b,
{
    let r = a % b;
    assert(r < b) by (nonlinear_arith)
        requires
            b > 0,
            r == a % b,
    ;
    if r == 0 {
        assert(gcd_nat(a, b) == gcd_nat(b, 0));
        assert(b % b == 0) by (nonlinear_arith)
            requires
                b > 0,
        ;
    } else {
        lemma_gcd_divides(b, r);
        let g = gcd_nat(b, r);
        assert(gcd_nat(a, b) == g);
        let q = (a / b) as int;
        vstd::arithmetic::div_mod::lemma_fundamental_div_mod(a as int, b as int);
        vstd::arithmetic::div_mod::lemma_fundamental_div_mod(b as int, g as int);
        vstd::arithmetic::div_mod::lemma_fundamental_div_mod(r as int, g as int);
        let kb = (b / g) as int;
        let kr = (r / g) as int;
        assert(a as int == (g as int) * (kb * q + kr)) by (nonlinear_arith)
            requires
                a as int == (b as int) * q + (r as int),
                b as int == (g as int) * kb,
                r as int == (g as int) * kr,
        ;
        vstd::arithmetic::div_mod::lemma_mod_multiples_basic(kb * q + kr, g as int);
        assert((g as int) * (kb * q + kr) == (kb * q + kr) * (g as int)) by (nonlinear_arith);
    }
}

/// The reduced form of `n / d` has the value of `n / d`: `norm_num / norm_den == n / d`,
/// written without division.
pub proof fn lemma_make_value(n: int, d: int)
    requires
        new_req(n, d),
    ensures
        norm_num(n, d) * d == n * norm_den(n, d),
{
    let n1 = signed_num(n, d);
    let d1 = signed_den(d);
    let a = abs_int(n1);
    lemma_gcd_divides(a, d1 as nat);
    let g = reduce_by(n, d) as int;
    vstd::arithmetic::div_mod::lemma_fundamental_div_mod(a as int, g);
    vstd::arithmetic::div_mod::lemma_fundamental_div_mod(d1, g);
    let q = (a / (g as nat)) as int;
    let e = norm_den(n, d);
    assert(a == g * q);
    assert(d1 == g * e);
    assert(n1 == g * norm_num(n, d)) by (nonlinear_arith)
        requires
            a == g * q,
            a == abs_int(n1),
            norm_num(n, d) == (if n1 < 0 { -q } else { q }),
    ;
    assert(norm_num(n, d) * d1 == n1 * e) by (nonlinear_arith)
        requires
            n1 == g * norm_num(n, d),
            d1 == g * e,
    ;
    assert(norm_num(n, d) * d == n * e) by (nonlinear_arith)
        requires
            norm_num(n, d) * d1 == n1 * e,
            d < 0 ==> n1 == -n && d1 == -d,
            d >= 0 ==> n1 == n && d1 == d,
    ;
}

/// `gcd_nat(a, 1) == 1`.
proof fn lemma_gcd_one(a: nat)
    ensures
        gcd_nat(a, 1) == 1,
{
    assert(a % 1 == 0) by (nonlinear_arith);
    assert(gcd_nat(1, 0) == 1);
}

/// Every common divisor of `a` and `b` divides `gcd_nat(a, b)`.
proof fn lemma_common_divisor(a: nat, b: nat, h: nat)
    requires
        b > 0,
        h > 0,
        a % h == 0,
        b % h == 0,
    ensures
        gcd_nat(a, b) % h == 0,
    decreases b,
{
    let r = a % b;
    assert(r < b) by (nonlinear_arith)
        requires
            b > 0,
            r == a % b,
    ;
    if r == 0 {
        assert(gcd_nat(a, b) == gcd_nat(b, 0));
    } else {
        assert(gcd_nat(a, b) == gcd_nat(b, r));
        let q = (a / b) as int;
        vstd::arithmetic::div_mod::lemma_fundamental_div_mod(a as int, b as int);
        vstd::arithmetic::div_mod::lemma_fundamental_div_mod(a as int, h as int);
        vstd::arithmetic::div_mod::lemma_fundamental_div_mod(b as int, h as int);
        let ka = (a / h) as int;
        let kb = (b / h) as int;
        assert(r as int == (ka - kb * q) * (h as int)) by (nonlinear_arith)
            requires
                a as int == (b as int) * q + (r as int),
                a as int == (h as int) * ka,
                b as int == (h as int) * kb,
        ;
        vstd::arithmetic::div_mod::lemma_mod_multiples_basic(ka - kb * q, h as int);
        lemma_common_divisor(b, r, h);
    }
}

/// The reduced form of `n / d` is in lowest terms: its numerator and
/// denominator have no common divisor but one.
pub proof fn lemma_make_lowest_terms(n: int, d: int)
    requires
        new_req(n, d),
    ensures
        gcd_nat(abs_int(Rational::spec_make(n, d).spec_num() as int), Rational::spec_make(n, d).spec_den() as nat) == 1,
{
    Rational::lemma_make_parts(n, d);
    lemma_norm_bounds(n, d);
    let n1 = signed_num(n, d);
    let d1 = signed_den(d);
    let a = abs_int(n1);
    lemma_gcd_divides(a, d1 as nat);
    let g = reduce_by(n, d);
    let qa = a / g;
    let qd = norm_den(n, d);
    assert(abs_int(norm_num(n, d)) == qa);
    vstd::arithmetic::div_mod::lemma_fundamental_div_mod(a as int, g as int);
    vstd::arithmetic::div_mod::lemma_fundamental_div_mod(d1, g as int);
    assert(a as int == (g as int) * (qa as int));
    assert(d1 == (g as int) * qd);
    lemma_gcd_divides(qa, qd as nat);
    let h = gcd_nat(qa, qd as nat);
    vstd::arithmetic::div_mod::lemma_fundamental_div_mod(qa as int, h as int);
    vstd::arithmetic::div_mod::lemma_fundamental_div_mod(qd, h as int);
    let ua = (qa / h) as int;
    let ud = (qd / (h as int));
    assert(a as int == ua * ((g * h) as int)) by (nonlinear_arith)
        requires
            a as int == (g as int) * (qa as int),
            qa as int == (h as int) * ua,
    ;
    assert(d1 == ud * ((g * h) as int)) by (nonlinear_arith)
        requires
            d1 == (g as int) * qd,
            qd == (h as int) * ud,
    ;
    assert(g * h > 0) by (nonlinear_arith)
        requires
            g > 0,
            h > 0,
    ;
    vstd::arithmetic::div_mod::lemma_mod_multiples_basic(ua, (g * h) as int);
    vstd::arithmetic::div_mod::lemma_mod_multiples_basic(ud, (g * h) as int);
    lemma_common_divisor(a, d1 as nat, g * h);
    vstd::arithmetic::div_mod::lemma_fundamental_div_mod(g as int, (g * h) as int);
    let m = (g as int) / ((g * h) as int);
    assert(h == 1) by (nonlinear_arith)
        requires
            g as int == ((g * h) as int) * m,
            g > 0,
            h > 0,
    ;
}

/// `gcd_nat` does not depend on the order of its (positive) arguments.
proof fn lemma_gcd_sym(a: nat, b: nat)
    requires
        a > 0,
        b > 0,
    ensures
        gcd_nat(a, b) == gcd_nat(b, a),
{
    lemma_gcd_divides(a, b);
    lemma_gcd_divides(b, a);
    let g1 = gcd_nat(a, b);
    let g2 = gcd_nat(b, a);
    lemma_common_divisor(a, b, g2);
    lemma_common_divisor(b, a, g1);
    vstd::arithmetic::div_mod::lemma_fundamental_div_mod(g1 as int, g2 as int);
    vstd::arithmetic::div_mod::lemma_fundamental_div_mod(g2 as int, g1 as int);
    let k = (g1 / g2) as int;
    let j = (g2 / g1) as int;
    assert(g1 == g2) by (nonlinear_arith)
        requires
            g1 as int == (g2 as int) * k,
            g2 as int == (g1 as int) * j,
            g1 > 0,
            g2 > 0,
    ;
}

/// Taking the reciprocal twice gives back the same numerator and denominator
/// (for a non-zero rational in lowest terms, as every `Rational` is).
pub proof fn lemma_recip_recip(r: Rational)
    requires
        r.spec_num() != 0,
        r.spec_num() != i64::MIN,
        gcd_nat(abs_int(r.spec_num() as int), r.spec_den() as nat) == 1,
    ensures
        ({
            let x = Rational::spec_make(r.spec_den() as int, r.spec_num() as int);
            let y = Rational::spec_make(x.spec_den() as int, x.spec_num() as int);
            y.spec_num() == r.spec_num() && y.spec_den() == r.spec_den()
        }),
{
    Rational::lemma_den_positive(r);
    let n = r.spec_num() as int;
    let d = r.spec_den() as int;
    lemma_gcd_sym(abs_int(n), d as nat);
    Rational::lemma_make_parts(d, n);
    let x = Rational::spec_make(d, n);
    lemma_make_coprime(d, n);
    Rational::lemma_make_parts(x.spec_den() as int, x.spec_num() as int);
    lemma_make_coprime(x.spec_den() as int, x.spec_num() as int);
}

/// When `n` and `d` have no common divisor but one, reducing `n / d` only
/// moves the sign of `d` onto `n`.
proof fn lemma_make_coprime(n: int, d: int)
    requires
        new_req(n, d),
        gcd_nat(abs_int(signed_num(n, d)), signed_den(d) as nat) == 1,
    ensures
        norm_num(n, d) == signed_num(n, d),
        norm_den(n, d) == signed_den(d),
{
    let one = reduce_by(n, d) as int;
    let a = abs_int(signed_num(n, d)) as int;
    let e = signed_den(d);
    assert(a / one == a && e / one == e) by (nonlinear_arith)
        requires
            one == 1,
    ;
}

/// Scaling both arguments scales the greatest common divisor.
proof fn lemma_gcd_scale(a: nat, b: nat, k: nat)
    requires
        b > 0,
        k > 0,
    ensures
        gcd_nat(k * a, k * b) == k * gcd_nat(a, b),
    decreases b,
{
    let r = a % b;
    let q = (a / b) as int;
    vstd::arithmetic::div_mod::lemma_fundamental_div_mod(a as int, b as int);
    assert(r < b) by (nonlinear_arith)
        requires
            b > 0,
            r == a % b,
    ;
    assert(k * b > 0 && 0 <= k * r < k * b) by (nonlinear_arith)
        requires
            k > 0,
            b > 0,
            r < b,
    ;
    assert((k * a) as int == q * ((k * b) as int) + (k * r) as int) by (nonlinear_arith)
        requires
            a as int == (b as int) * q + (r as int),
    ;
    vstd::arithmetic::div_mod::lemma_fundamental_div_mod_converse((k * a) as int, (k * b) as int, q, (k * r) as int);
    assert(gcd_nat(k * a, k * b) == gcd_nat(k * b, (k * a) % (k * b)));
    if r == 0 {
        assert(k * r == 0) by (nonlinear_arith)
            requires
                r == 0,
        ;
        assert(gcd_nat(k * b, 0) == k * b);
        assert(gcd_nat(a, b) == gcd_nat(b, 0));
    } else {
        assert(gcd_nat(a, b) == gcd_nat(b, r));
        lemma_gcd_scale(b, r, k);
    }
}

/// Two fractions in lowest terms with positive denominators and the same
/// value have the same numerator and denominator.
proof fn lemma_lowest_terms_unique(a: int, b: int, c: int, d: int)
    requires
        b > 0,
        d > 0,
        gcd_nat(abs_int(a), b as nat) == 1,
        gcd_nat(abs_int(c), d as nat) == 1,
        a * d == c * b,
    ensures
        a == c,
        b == d,
{
    lemma_divides_other_den(a, b, c, d);
    lemma_divides_other_den(c, d, a, b);
    vstd::arithmetic::div_mod::lemma_fundamental_div_mod(d, b);
    vstd::arithmetic::div_mod::lemma_fundamental_div_mod(b, d);
    let x = d / b;
    let y = b / d;
    assert(b == d) by (nonlinear_arith)
        requires
            d == b * x,
            b == d * y,
            b > 0,
            d > 0,
    ;
    assert(a == c) by (nonlinear_arith)
        requires
            a * d == c * b,
            b == d,
            d > 0,
    ;
}

/// With `a / b` in lowest terms and `a * d == c * b`, `b` divides `d`.
proof fn lemma_divides_other_den(a: int, b: int, c: int, d: int)
    requires
        b > 0,
        d > 0,
        gcd_nat(abs_int(a), b as nat) == 1,
        a * d == c * b,
    ensures
        d % b == 0,
{
    let ad = abs_int(a) * (d as nat);
    let bd = (b as nat) * (d as nat);
    assert(ad as int == abs_int(c * b) as int) by (nonlinear_arith)
        requires
            a * d == c * b,
            d > 0,
            ad as int == abs_int(a) * d,
            abs_int(a) == (if a < 0 { -a } else { a }),
            abs_int(c * b) == (if c * b < 0 { -(c * b) } else { c * b }),
    ;
    let ac = abs_int(c);
    assert(ad as int == (ac as int) * b) by (nonlinear_arith)
        requires
            ad as int == abs_int(c * b) as int,
            abs_int(c * b) == (if c * b < 0 { -(c * b) } else { c * b }),
            ac == (if c < 0 { -c } else { c }),
            b > 0,
    ;
    vstd::arithmetic::div_mod::lemma_mod_multiples_basic(ac as int, b);
    assert(bd as int == d * b) by (nonlinear_arith)
        requires
            bd == (b as nat) * (d as nat),
            b > 0,
            d > 0,
    ;
    vstd::arithmetic::div_mod::lemma_mod_multiples_basic(d, b);
    assert(bd > 0) by (nonlinear_arith)
        requires
            bd == (b as nat) * (d as nat),
            b > 0,
            d > 0,
    ;
    lemma_common_divisor(ad, bd, b as nat);
    lemma_gcd_scale(abs_int(a), b as nat, d as nat);
    assert(ad == (d as nat) * abs_int(a)) by (nonlinear_arith)
        requires
            ad == abs_int(a) * (d as nat),
    ;
    assert(bd == (d as nat) * (b as nat)) by (nonlinear_arith)
        requires
            bd == (b as nat) * (d as nat),
    ;
    assert(gcd_nat(ad, bd) == (d as nat) * 1);
}

/// Equal rationals are equal fractions: `n / d` and `n2 / d2` reduce to the
/// same rational exactly when `n * d2 == n2 * d`.
pub proof fn lemma_make_eq(n: int, d: int, n2: int, d2: int)
    requires
        new_req(n, d),
        new_req(n2, d2),
    ensures
        (Rational::spec_make(n, d) == Rational::spec_make(n2, d2)) == (n * d2 == n2 * d),
{
    let r1 = Rational::spec_make(n, d);
    let r2 = Rational::spec_make(n2, d2);
    Rational::lemma_make_parts(n, d);
    Rational::lemma_make_parts(n2, d2);
    lemma_make_value(n, d);
    lemma_make_value(n2, d2);
    lemma_make_lowest_terms(n, d);
    lemma_make_lowest_terms(n2, d2);
    let p = norm_num(n, d);
    let q = norm_den(n, d);
    let p2 = norm_num(n2, d2);
    let q2 = norm_den(n2, d2);
    lemma_norm_bounds(n, d);
    lemma_norm_bounds(n2, d2);
    if r1 == r2 {
        assert(p == p2 && q == q2);
        assert(n * d2 == n2 * d) by (nonlinear_arith)
            requires
                p * d == n * q,
                p * d2 == n2 * q,
                q > 0,
                d != 0,
                d2 != 0,
        ;
    }
    if n * d2 == n2 * d {
        assert(p * q2 == p2 * q) by (nonlinear_arith)
            requires
                p * d == n * q,
                p2 * d2 == n2 * q2,
                n * d2 == n2 * d,
                q > 0,
                q2 > 0,
                d != 0,
                d2 != 0,
        ;
        lemma_lowest_terms_unique(p, q, p2, q2);
        assert(r1 == Rational::from_parts(p, q));
        assert(r2 == Rational::from_parts(p2, q2));
    }
}

/// `r` is the rational `n / d` (with `d != 0`), compared by cross-multiplication.
pub open spec fn has_value(r: Rational, n: int, d: int) -> bool {
    r.spec_num() * d == n * r.spec_den()
}

/// The reduced form of `n / d` has the value `n / d`.
pub proof fn lemma_make_has_value(n: int, d: int)
    requires
        new_req(n, d),
    ensures
        has_value(Rational::spec_make(n, d), n, d),
{
    Rational::lemma_make_parts(n, d);
    lemma_make_value(n, d);
}

/// Exact addition: `a + b` has the value `a.num/a.den + b.num/b.den`.
pub proof fn lemma_add_value(a: Rational, b: Rational)
    requires
        add_ok(a, b),
    ensures
        has_value(rat_add(a, b), a.spec_num() * b.spec_den() + b.spec_num() * a.spec_den(), a.spec_den() * b.spec_den()),
{
    lemma_den_product_positive(a, b);
    lemma_make_has_value(a.spec_num() * b.spec_den() + b.spec_num() * a.spec_den(), a.spec_den() * b.spec_den());
}

/// Exact subtraction: `a - b` has the value `a.num/a.den - b.num/b.den`.
pub proof fn lemma_sub_value(a: Rational, b: Rational)
    requires
        sub_ok(a, b),
    ensures
        has_value(rat_sub(a, b), a.spec_num() * b.spec_den() - b.spec_num() * a.spec_den(), a.spec_den() * b.spec_den()),
{
    lemma_den_product_positive(a, b);
    lemma_make_has_value(a.spec_num() * b.spec_den() - b.spec_num() * a.spec_den(), a.spec_den() * b.spec_den());
}

/// Exact multiplication: `a * b` has the value `(a.num * b.num) / (a.den * b.den)`.
pub proof fn lemma_mul_value(a: Rational, b: Rational)
    requires
        mul_ok(a, b),
    ensures
        has_value(rat_mul(a, b), a.spec_num() * b.spec_num(), a.spec_den() * b.spec_den()),
{
    lemma_den_product_positive(a, b);
    lemma_make_has_value(a.spec_num() * b.spec_num(), a.spec_den() * b.spec_den());
}

/// Exact division: `a / b` has the value `(a.num * b.den) / (a.den * b.num)`.
pub proof fn lemma_div_value(a: Rational, b: Rational)
    requires
        div_ok(a, b),
    ensures
        has_value(rat_div(a, b), a.spec_num() * b.spec_den(), a.spec_den() * b.spec_num()),
{
    lemma_make_has_value(a.spec_num() * b.spec_den(), a.spec_den() * b.spec_num());
}

/// Negation: `-a` has the value `-a.num / a.den`.
pub proof fn lemma_neg_value(a: Rational)
    requires
        a.spec_num() != i64::MIN,
    ensures
        has_value(rat_neg(a), -a.spec_num(), a.spec_den() as int),
{
    Rational::lemma_den_positive(a);
    lemma_make_has_value(-a.spec_num(), a.spec_den() as int);
}

/// `(a * b) * (c * d) == (a * c) * (b * d)`.
proof fn lemma_four(a: int, b: int, c: int, d: int)
    ensures
        (a * b) * (c * d) == (a * c) * (b * d),
{
    vstd::arithmetic::mul::lemma_mul_is_associative(a * b, c, d);
    vstd::arithmetic::mul::lemma_mul_is_associative(a, b, c);
    vstd::arithmetic::mul::lemma_mul_is_commutative(b, c);
    vstd::arithmetic::mul::lemma_mul_is_associative(a, c, b);
    vstd::arithmetic::mul::lemma_mul_is_associative(a * c, b, d);
}

/// `(a * b + c * e) * (x * y) == (a * x) * (b * y) + (c * y) * (e * x)`.
proof fn lemma_sum_times(a: int, b: int, c: int, e: int, x: int, y: int)
    ensures
        (a * b + c * e) * (x * y) == (a * x) * (b * y) + (c * y) * (e * x),
{
    vstd::arithmetic::mul::lemma_mul_is_distributive_add_other_way(x * y, a * b, c * e);
    lemma_four(a, b, x, y);
    lemma_four(c, e, y, x);
    vstd::arithmetic::mul::lemma_mul_is_commutative(x, y);
}

/// A rational keeps its value when the fraction it is compared with is
/// replaced by an equal one.
pub proof fn lemma_value_transport(r: Rational, n: int, d: int, n2: int, d2: int)
    requires
        has_value(r, n, d),
        d > 0,
        d2 > 0,
        n * d2 == n2 * d,
    ensures
        has_value(r, n2, d2),
{
    Rational::lemma_den_positive(r);
    let rn = r.spec_num() as int;
    let rd = r.spec_den() as int;
    assert(rn * d2 == n2 * rd) by (nonlinear_arith)
        requires
            rn * d == n * rd,
            n * d2 == n2 * d,
            d > 0,
    ;
}

/// The value of a sum, given the values of its operands.
pub proof fn lemma_add_values(p: Rational, q: Rational, n1: int, d1: int, n2: int, d2: int)
    requires
        add_ok(p, q),
        has_value(p, n1, d1),
        has_value(q, n2, d2),
        d1 > 0,
        d2 > 0,
    ensures
        has_value(rat_add(p, q), n1 * d2 + n2 * d1, d1 * d2),
{
    lemma_add_value(p, q);
    lemma_den_product_positive(p, q);
    let pn = p.spec_num() as int;
    let pd = p.spec_den() as int;
    let qn = q.spec_num() as int;
    let qd = q.spec_den() as int;
    assert(d1 * d2 > 0) by (nonlinear_arith)
        requires
            d1 > 0,
            d2 > 0,
    ;
    lemma_sum_times(pn, qd, qn, pd, d1, d2);
    assert((pn * d1) * (qd * d2) == (n1 * pd) * (qd * d2)) by (nonlinear_arith)
        requires
            pn * d1 == n1 * pd,
    ;
    assert((qn * d2) * (pd * d1) == (n2 * qd) * (pd * d1)) by (nonlinear_arith)
        requires
            qn * d2 == n2 * qd,
    ;
    lemma_sum_times(n1, d2, n2, d1, pd, qd);
    lemma_four(n1, pd, qd, d2);
    lemma_four(n2, qd, pd, d1);
    lemma_value_transport(rat_add(p, q), pn * qd + qn * pd, pd * qd, n1 * d2 + n2 * d1, d1 * d2);
}

/// The value of a product, given the values of its operands.
pub proof fn lemma_mul_values(p: Rational, q: Rational, n1: int, d1: int, n2: int, d2: int)
    requires
        mul_ok(p, q),
        has_value(p, n1, d1),
        has_value(q, n2, d2),
        d1 > 0,
        d2 > 0,
    ensures
        has_value(rat_mul(p, q), n1 * n2, d1 * d2),
{
    lemma_mul_value(p, q);
    lemma_den_product_positive(p, q);
    let pn = p.spec_num() as int;
    let pd = p.spec_den() as int;
    let qn = q.spec_num() as int;
    let qd = q.spec_den() as int;
    assert(d1 * d2 > 0) by (nonlinear_arith)
        requires
            d1 > 0,
            d2 > 0,
    ;
    lemma_four(pn, qn, d1, d2);
    assert((pn * d1) * (qn * d2) == (n1 * pd) * (n2 * qd)) by (nonlinear_arith)
        requires
            pn * d1 == n1 * pd,
            qn * d2 == n2 * qd,
    ;
    lemma_four(n1, pd, n2, qd);
    lemma_value_transport(rat_mul(p, q), pn * qn, pd * qd, n1 * n2, d1 * d2);
}

proof fn lemma_cross_trans(an: int, ad: int, bn: int, bd: int, cn: int, cd: int, strict: bool)
    requires
        ad > 0,
        bd > 0,
        cd > 0,
        an * bd <= bn * ad,
        bn * cd <= cn * bd,
        strict ==> (an * bd < bn * ad || bn * cd < cn * bd),
    ensures
        an * cd <= cn * ad,
        strict ==> an * cd < cn * ad,
{
    assert(an * bd * cd <= bn * ad * cd) by (nonlinear_arith)
        requires an * bd <= bn * ad, cd > 0;
    assert(bn * cd * ad <= cn * bd * ad) by (nonlinear_arith)
        requires bn * cd <= cn * bd, ad > 0;
    assert(bn * ad * cd == bn * cd * ad) by (nonlinear_arith);
    assert(an * bd * cd == bd * (an * cd)) by (nonlinear_arith);
    assert(cn * bd * ad == bd * (cn * ad)) by (nonlinear_arith);
    if strict {
        if an * bd < bn * ad {
            assert(an * bd * cd < bn * ad * cd) by (nonlinear_arith)
                requires an * bd < bn * ad, cd > 0;
        } else {
            assert(bn * cd * ad < cn * bd * ad) by (nonlinear_arith)
                requires bn * cd < cn * bd, ad > 0;
        }
        assert(bd * (an * cd) < bd * (cn * ad));
        assert(an * cd < cn * ad) by (nonlinear_arith)
            requires bd * (an * cd) < bd * (cn * ad), bd > 0;
    } else {
        assert(bd * (an * cd) <= bd * (cn * ad));
        assert(an * cd <= cn * ad) by (nonlinear_arith)
            requires bd * (an * cd) <= bd * (cn * ad), bd > 0;
    }
}

/// `<=` on rationals is transitive.
pub proof fn lemma_le_trans(a: Rational, b: Rational, c: Rational)
    requires
        rat_le(a, b),
        rat_le(b, c),
    ensures
        rat_le(a, c),
{
    Rational::lemma_den_positive(a);
    Rational::lemma_den_positive(b);
    Rational::lemma_den_positive(c);
    lemma_cross_trans(
        a.spec_num() as int, a.spec_den() as int, b.spec_num() as int,
        b.spec_den() as int, c.spec_num() as int, c.spec_den() as int, false,
    );
}

/// `a <= b < c` gives `a < c`, and `a < b <= c` gives `a < c`.
pub proof fn lemma_lt_trans(a: Rational, b: Rational, c: Rational)
    requires
        rat_le(a, b),
        rat_le(b, c),
        rat_lt(a, b) || rat_lt(b, c),
    ensures
        rat_lt(a, c),
{
    Rational::lemma_den_positive(a);
    Rational::lemma_den_positive(b);
    Rational::lemma_den_positive(c);
    lemma_cross_trans(
        a.spec_num() as int, a.spec_den() as int, b.spec_num() as int,
        b.spec_den() as int, c.spec_num() as int, c.spec_den() as int, true,
    );
}

/// The product of two denominators is positive.
pub proof fn lemma_den_product_positive(a: Rational, b: Rational)
    ensures
        a.spec_den() * b.spec_den() > 0,
{
    Rational::lemma_den_positive(a);
    Rational::lemma_den_positive(b);
    let x = a.spec_den() as int;
    let y = b.spec_den() as int;
    assert(x * y > 0) by (nonlinear_arith)
        requires
            x > 0,
            y > 0,
    ;
}

impl Rational {
    /// `self + other`.
    pub fn add_exact(self, other: Self) -> (r: Self)
        requires
            add_ok(self, other),
        ensures
            r == rat_add(self, other),
    {
        proof {
            lemma_den_product_positive(self, other);
        }
        let n = self.num() * other.den() + other.num() * self.den();
        let d = self.den() * other.den();
        Rational::new(n, d)
    }

    /// `self - other`.
    pub fn sub_exact(self, other: Self) -> (r: Self)
        requires
            sub_ok(self, other),
        ensures
            r == rat_sub(self, other),
    {
        proof {
            lemma_den_product_positive(self, other);
        }
        let n = self.num() * other.den() - other.num() * self.den();
        let d = self.den() * other.den();
        Rational::new(n, d)
    }

    /// `self * other`.
    pub fn mul_exact(self, other: Self) -> (r: Self)
        requires
            mul_ok(self, other),
        ensures
            r == rat_mul(self, other),
    {
        proof {
            lemma_den_product_positive(self, other);
        }
        let n = self.num() * other.num();
        let d = self.den() * other.den();
        Rational::new(n, d)
    }

    /// `self / other`.
    pub fn div_exact(self, other: Self) -> (r: Self)
        requires
            div_ok(self, other),
        ensures
            r == rat_div(self, other),
    {
        let n = self.num() * other.den();
        let d = self.den() * other.num();
        Rational::new(n, d)
    }

    /// `self < other`, compared exactly.
    pub fn less_than(&self, other: &Self) -> (b: bool)
        ensures
            b == rat_lt(*self, *other),
    {
        let l: i128 = wide_mul(self.num(), other.den());
        let r: i128 = wide_mul(other.num(), self.den());
        l < r
    }

    /// `self <= other`, compared exactly.
    pub fn at_most(&self, other: &Self) -> (b: bool)
        ensures
            b == rat_le(*self, *other),
    {
        let l: i128 = wide_mul(self.num(), other.den());
        let r: i128 = wide_mul(other.num(), self.den());
        l <= r
    }

    /// Three-way comparison as -1, 0 or 1.
    pub fn compare(&self, other: &Self) -> (c: i8)
        ensures
            c == -1 <==> rat_lt(*self, *other),
            c == 1 <==> rat_lt(*other, *self),
            c == 0 <==> (!rat_lt(*self, *other) && !rat_lt(*other, *self)),
    {
        let l: i128 = wide_mul(self.num(), other.den());
        let r: i128 = wide_mul(other.num(), self.den());
        if l < r {
            -1
        } else if l > r {
            1
        } else {
            0
        }
    }

    /// `self + other`, or `None` when an intermediate leaves `i64`.
    pub fn checked_add(self, other: Self) -> (r: Option<Self>)
        ensures
            r is Some <==> add_ok(self, other),
            r matches Some(x) ==> x == rat_add(self, other),
    {
        let a: i128 = wide_mul(self.num(), other.den());
        let b: i128 = wide_mul(other.num(), self.den());
        let d: i128 = wide_mul(self.den(), other.den());
        if fits(a) && fits(b) && fits(a + b) && fits(d) {
            Some(self.add_exact(other))
        } else {
            None
        }
    }

    /// `self - other`, or `None` when an intermediate leaves `i64`.
    pub fn checked_sub(self, other: Self) -> (r: Option<Self>)
        ensures
            r is Some <==> sub_ok(self, other),
            r matches Some(x) ==> x == rat_sub(self, other),
    {
        let a: i128 = wide_mul(self.num(), other.den());
        let b: i128 = wide_mul(other.num(), self.den());
        let d: i128 = wide_mul(self.den(), other.den());
        if fits(a) && fits(b) && fits(a - b) && fits(d) {
            Some(self.sub_exact(other))
        } else {
            None
        }
    }

    /// `self * other`, or `None` when an intermediate leaves `i64`.
    pub fn checked_mul(self, other: Self) -> (r: Option<Self>)
        ensures
            r is Some <==> mul_ok(self, other),
            r matches Some(x) ==> x == rat_mul(self, other),
    {
        let n: i128 = wide_mul(self.num(), other.num());
        let d: i128 = wide_mul(self.den(), other.den());
        if fits(n) && fits(d) {
            Some(self.mul_exact(other))
        } else {
            None
        }
    }

    /// `self / other`, or `None` when `other` is zero or an intermediate leaves `i64`.
    pub fn checked_div(self, other: Self) -> (r: Option<Self>)
        ensures
            r is Some <==> div_ok(self, other),
            r matches Some(x) ==> x == rat_div(self, other),
    {
        if other.num() == 0 {
            return None;
        }
        let n: i128 = wide_mul(self.num(), other.den());
        let d: i128 = wide_mul(self.den(), other.num());
        proof {
            Rational::lemma_den_positive(self);
            let x = self.spec_den() as int;
            let y = other.spec_num() as int;
            assert(x * y != 0) by (nonlinear_arith)
                requires
                    x > 0,
                    y != 0,
            ;
        }
        if fits(n) && fits(d) && (d > 0 || (n != i64::MIN as i128 && d != i64::MIN as i128)) {
            Some(self.div_exact(other))
        } else {
            None
        }
    }

    /// `-self`, or `None` when the numerator is `i64::MIN`.
    pub fn checked_neg(self) -> (r: Option<Self>)
        ensures
            r is Some <==> self.spec_num() != i64::MIN,
            r matches Some(x) ==> x == rat_neg(self),
    {
        if self.num() == i64::MIN {
            None
        } else {
            Some(self.neg())
        }
    }

    /// The larger of two rationals (the second when equal).
    pub fn max_of(self, other: Self) -> (r: Self)
        ensures
            r == (if rat_lt(other, self) { self } else { other }),
    {
        if other.less_than(&self) {
            self
        } else {
            other
        }
    }

    /// The smaller of two rationals (the first when equal).
    pub fn min_of(self, other: Self) -> (r: Self)
        ensures
            r == (if rat_lt(other, self) { other } else { self }),
    {
        if other.less_than(&self) {
            other
        } else {
            self
        }
    }
}

} // verus!
