//! Literals: a variable with a polarity.
use vstd::prelude::*;
use crate::parser::text::{decimal, push_decimal};

verus! {

/// A literal: variable `var` (0-indexed), positive when `sign` is true.
#[derive(Debug, Clone, Copy, PartialEq, Eq, Structural, Hash)]
pub struct Lit {
    pub var: usize,
    pub sign: bool,
}

/// The DIMACS integer of a literal: `var + 1`, negated for a negative literal.
pub open spec fn dimacs_of(l: Lit) -> int {
    if l.sign {
        l.var + 1
    } else {
        -(l.var + 1)
    }
}

/// The literal of the same variable with the opposite polarity.
pub open spec fn negation(l: Lit) -> Lit {
    Lit { var: l.var, sign: !l.sign }
}

/// The dense index of a literal: `2 * var + sign`.
pub open spec fn index_of(l: Lit) -> int {
    2 * l.var + if l.sign { 1int } else { 0int }
}

/// `x<n>` for a positive literal and `~x<n>` for a negative one, where
/// `n` is the 1-indexed variable.
pub open spec fn lit_text(l: Lit) -> Seq<char> {
    (if l.sign { "x"@ } else { "~x"@ }) + decimal((l.var + 1) as nat)
}

impl Lit {
    /// The literal as text, with its variable 1-indexed.
    pub fn to_string(&self) -> (s: String)
        ensures
            s@ == lit_text(*self),
    {
        let mut s = if self.sign {
            String::from_str("x")
        } else {
            String::from_str("~x")
        };
        push_decimal(&mut s, self.var as u128 + 1);
        s
    }

    pub fn new(var: usize, sign: bool) -> (l: Self)
        ensures
            l.var == var,
            l.sign == sign,
    {
        Lit { var, sign }
    }

    pub fn positive(var: usize) -> (l: Self)
        ensures
            l.var == var,
            l.sign,
    {
        Lit { var, sign: true }
    }

    pub fn negative(var: usize) -> (l: Self)
        ensures
            l.var == var,
            !l.sign,
    {
        Lit { var, sign: false }
    }

    /// The literal of a non-zero DIMACS integer (1-indexed variable, sign = polarity).
    pub fn from_dimacs(dimacs: i32) -> (l: Self)
        requires
            dimacs != 0,
        ensures
            l.sign == (dimacs > 0),
            l.var + 1 == (if dimacs > 0 { dimacs as int } else { -(dimacs as int) }),
    {
        let a: u32 = if dimacs < 0 { (-(dimacs as i64)) as u32 } else { dimacs as u32 };
        let var = a as usize - 1;
        let sign = dimacs > 0;
        Lit { var, sign }
    }

    /// The DIMACS integer of this literal.
    pub fn to_dimacs(self) -> (d: i32)
        requires
            self.var < i32::MAX,
        ensures
            d == dimacs_of(self),
    {
        let var = (self.var + 1) as i32;
        if self.sign {
            var
        } else {
            -var
        }
    }

    /// The literal of the same variable with the opposite polarity.
    pub fn not(self) -> (l: Self)
        ensures
            l == negation(self),
    {
        Lit { var: self.var, sign: !self.sign }
    }

    /// The dense index `2 * var + sign`.
    pub fn index(self) -> (i: usize)
        requires
            2 * self.var + 1 <= usize::MAX,
        ensures
            i == index_of(self),
    {
        self.var * 2 + if self.sign { 1 } else { 0 }
    }

    /// Number of literal indices for `var_count` variables.
    pub fn index_count(var_count: usize) -> (n: usize)
        requires
            2 * var_count <= usize::MAX,
        ensures
            n == 2 * var_count,
    {
        var_count * 2
    }
}

/// Negating twice gives the literal back, and a literal differs from its negation.
pub proof fn lemma_not_involutive(l: Lit)
    ensures
        negation(negation(l)) == l,
        negation(l) != l,
        negation(l).var == l.var,
{
}

/// A literal and the DIMACS integer it came from round-trip.
pub proof fn lemma_dimacs_roundtrip(d: i32, l: Lit)
    requires
        d != 0,
        l.sign == (d > 0),
        l.var + 1 == (if d > 0 { d as int } else { -(d as int) }),
    ensures
        dimacs_of(l) == d,
{
}

/// Different literals have different indices, and an index names its literal.
pub proof fn lemma_index_injective(a: Lit, b: Lit)
    ensures
        index_of(a) == index_of(b) <==> a == b,
        index_of(a) / 2 == a.var,
        index_of(a) % 2 == (if a.sign { 1int } else { 0int }),
{
}

} // verus!
