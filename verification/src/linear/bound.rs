//! Variable bounds and domains.
use vstd::prelude::*;
use crate::common::Var;
use crate::linear::rational::{Rational, rat_lt, rat_le, lemma_le_trans, lemma_lt_trans};

verus! {

/// A variable bound: `lower <= x <= upper`.
///
/// Unbounded sides are represented with `None`.
#[derive(Debug, Clone, Copy, PartialEq, Eq, Structural)]
pub struct Bound {
    pub lower: Option<Rational>,
    pub upper: Option<Rational>,
}

/// `value` lies within the bound.
pub open spec fn bound_contains(b: Bound, value: Rational) -> bool {
    &&& (b.lower matches Some(lb) ==> !rat_lt(value, lb))
    &&& (b.upper matches Some(ub) ==> !rat_lt(ub, value))
}

/// The tighter of two optional lower limits (the larger one).
pub open spec fn tighter_lower(a: Option<Rational>, b: Option<Rational>) -> Option<Rational> {
    match (a, b) {
        (Some(x), Some(y)) => Some(if rat_lt(y, x) { x } else { y }),
        (Some(x), None) => Some(x),
        (None, Some(y)) => Some(y),
        (None, None) => None,
    }
}

/// The tighter of two optional upper limits (the smaller one).
pub open spec fn tighter_upper(a: Option<Rational>, b: Option<Rational>) -> Option<Rational> {
    match (a, b) {
        (Some(x), Some(y)) => Some(if rat_lt(y, x) { y } else { x }),
        (Some(x), None) => Some(x),
        (None, Some(y)) => Some(y),
        (None, None) => None,
    }
}

/// The intersection of two bounds, `None` when it is empty.
pub open spec fn bound_intersect(a: Bound, b: Bound) -> Option<Bound> {
    let lo = tighter_lower(a.lower, b.lower);
    let hi = tighter_upper(a.upper, b.upper);
    if lo is Some && hi is Some && rat_lt(hi->0, lo->0) {
        None
    } else {
        Some(Bound { lower: lo, upper: hi })
    }
}

/// A value lies in the intersection of two bounds exactly when it lies in
/// both of them; so the intersection is `None` only when no value lies in
/// both.
pub proof fn lemma_intersect_contains(a: Bound, b: Bound, v: Rational)
    ensures
        bound_contains(a, v) && bound_contains(b, v) ==> (bound_intersect(a, b) matches Some(c) && bound_contains(c, v)),
        (bound_intersect(a, b) matches Some(c) && bound_contains(c, v)) ==> bound_contains(a, v) && bound_contains(b, v),
{
    let lo = tighter_lower(a.lower, b.lower);
    let hi = tighter_upper(a.upper, b.upper);
    if bound_contains(a, v) && bound_contains(b, v) {
        if lo is Some && hi is Some && rat_lt(hi->0, lo->0) {
            // hi < lo <= v <= hi is impossible.
            assert(rat_le(lo->0, v));
            assert(rat_le(v, hi->0));
            lemma_lt_trans(hi->0, lo->0, v);
        }
    }
    if bound_intersect(a, b) matches Some(c) && bound_contains(c, v) {
        if let (Some(x), Some(y)) = (a.lower, b.lower) {
            if rat_lt(y, x) {
                assert(rat_le(y, x));
                assert(rat_le(x, v));
                lemma_le_trans(y, x, v);
            } else {
                assert(rat_le(x, y));
                assert(rat_le(y, v));
                lemma_le_trans(x, y, v);
            }
        }
        if let (Some(x), Some(y)) = (a.upper, b.upper) {
            if rat_lt(y, x) {
                assert(rat_le(v, y));
                assert(rat_le(y, x));
                lemma_le_trans(v, y, x);
            } else {
                assert(rat_le(v, x));
                assert(rat_le(x, y));
                lemma_le_trans(v, x, y);
            }
        }
    }
}

fn pick_lower(a: Option<Rational>, b: Option<Rational>) -> (r: Option<Rational>)
    ensures
        r == tighter_lower(a, b),
{
    match (a, b) {
        (Some(x), Some(y)) => Some(x.max_of(y)),
        (Some(x), None) => Some(x),
        (None, Some(y)) => Some(y),
        (None, None) => None,
    }
}

fn pick_upper(a: Option<Rational>, b: Option<Rational>) -> (r: Option<Rational>)
    ensures
        r == tighter_upper(a, b),
{
    match (a, b) {
        (Some(x), Some(y)) => Some(x.min_of(y)),
        (Some(x), None) => Some(x),
        (None, Some(y)) => Some(y),
        (None, None) => None,
    }
}

impl Bound {
    /// An unconstrained bound (no lower or upper limit).
    pub fn free() -> (b: Self)
        ensures
            b.lower is None,
            b.upper is None,
    {
        Bound { lower: None, upper: None }
    }

    /// Create a bound with the given limits.
    pub fn new(lower: Option<Rational>, upper: Option<Rational>) -> (b: Self)
        ensures
            b.lower == lower,
            b.upper == upper,
    {
        Bound { lower, upper }
    }

    /// Create a bound with only a lower limit.
    pub fn lower(lb: Rational) -> (b: Self)
        ensures
            b.lower == Some(lb),
            b.upper is None,
    {
        Bound { lower: Some(lb), upper: None }
    }

    /// Create a bound with only an upper limit.
    pub fn upper(ub: Rational) -> (b: Self)
        ensures
            b.lower is None,
            b.upper == Some(ub),
    {
        Bound { lower: None, upper: Some(ub) }
    }

    /// Create a fixed-value bound (variable fixed to a single value).
    pub fn fixed(value: Rational) -> (b: Self)
        ensures
            b.lower == Some(value),
            b.upper == Some(value),
    {
        Bound { lower: Some(value), upper: Some(value) }
    }

    /// Check whether a value satisfies this bound.
    pub fn contains(&self, value: Rational) -> (r: bool)
        ensures
            r == bound_contains(*self, value),
    {
        if let Some(lb) = self.lower {
            if value.less_than(&lb) {
                return false;
            }
        }
        if let Some(ub) = self.upper {
            if ub.less_than(&value) {
                return false;
            }
        }
        true
    }

    /// Is the variable fixed to a single value?
    pub fn is_fixed(&self) -> (r: bool)
        ensures
            r == (self.lower is Some && self.upper is Some && self.lower == self.upper),
    {
        match (self.lower, self.upper) {
            (Some(a), Some(b)) => a == b,
            _ => false,
        }
    }

    /// Tighten this bound by intersecting with another bound.
    /// Returns `None` if the intersection is empty.
    pub fn intersect(&self, other: &Bound) -> (r: Option<Bound>)
        ensures
            r == bound_intersect(*self, *other),
    {
        let new_lower = pick_lower(self.lower, other.lower);
        let new_upper = pick_upper(self.upper, other.upper);
        if let (Some(lb), Some(ub)) = (new_lower, new_upper) {
            if ub.less_than(&lb) {
                return None;
            }
        }
        Some(Bound::new(new_lower, new_upper))
    }
}

/// The domain of a variable: its type (integer or real) and bounds.
#[derive(Debug, Clone, Copy, PartialEq, Eq, Structural)]
pub struct Domain {
    pub var: Var,
    pub is_integer: bool,
    pub bound: Bound,
}

impl Domain {
    /// A real variable with no bound.
    pub fn new(var: Var) -> (d: Self)
        ensures
            d.var == var,
            !d.is_integer,
            d.bound == (Bound { lower: None, upper: None }),
    {
        Domain { var, is_integer: false, bound: Bound::free() }
    }

    /// An integer variable with no bound.
    pub fn integer(var: Var) -> (d: Self)
        ensures
            d.var == var,
            d.is_integer,
            d.bound == (Bound { lower: None, upper: None }),
    {
        Domain { var, is_integer: true, bound: Bound::free() }
    }

    /// A real variable with no bound.
    pub fn real_var(var: Var) -> (d: Self)
        ensures
            d.var == var,
            !d.is_integer,
            d.bound == (Bound { lower: None, upper: None }),
    {
        Domain { var, is_integer: false, bound: Bound::free() }
    }

    /// The same domain with its bound replaced.
    pub fn with_bound(self, bound: Bound) -> (d: Self)
        ensures
            d == (Domain { bound, ..self }),
    {
        let mut s = self;
        s.bound = bound;
        s
    }
}

} // verus!
