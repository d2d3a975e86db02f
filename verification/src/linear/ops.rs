//! Operator traits and conversions for `Rational`.
use vstd::prelude::*;
use crate::linear::rational::{Rational, add_ok, sub_ok, mul_ok, div_ok, rat_add, rat_sub, rat_mul, rat_div, rat_neg, rat_lt};

verus! {

impl std::ops::Add for Rational {
    type Output = Self;

    fn add(self, other: Self) -> (r: Self) {
        self.add_exact(other)
    }
}

impl vstd::std_specs::ops::AddSpecImpl for Rational {
    open spec fn obeys_add_spec() -> bool {
        true
    }

    open spec fn add_req(self, other: Self) -> bool {
        add_ok(self, other)
    }

    open spec fn add_spec(self, other: Self) -> Self {
        rat_add(self, other)
    }
}

impl std::ops::Sub for Rational {
    type Output = Self;

    fn sub(self, other: Self) -> (r: Self) {
        self.sub_exact(other)
    }
}

impl vstd::std_specs::ops::SubSpecImpl for Rational {
    open spec fn obeys_sub_spec() -> bool {
        true
    }

    open spec fn sub_req(self, other: Self) -> bool {
        sub_ok(self, other)
    }

    open spec fn sub_spec(self, other: Self) -> Self {
        rat_sub(self, other)
    }
}

impl std::ops::Mul for Rational {
    type Output = Self;

    fn mul(self, other: Self) -> (r: Self) {
        self.mul_exact(other)
    }
}

impl vstd::std_specs::ops::MulSpecImpl for Rational {
    open spec fn obeys_mul_spec() -> bool {
        true
    }

    open spec fn mul_req(self, other: Self) -> bool {
        mul_ok(self, other)
    }

    open spec fn mul_spec(self, other: Self) -> Self {
        rat_mul(self, other)
    }
}

impl std::ops::Div for Rational {
    type Output = Self;

    fn div(self, other: Self) -> (r: Self) {
        self.div_exact(other)
    }
}

impl vstd::std_specs::ops::DivSpecImpl for Rational {
    open spec fn obeys_div_spec() -> bool {
        true
    }

    open spec fn div_req(self, other: Self) -> bool {
        div_ok(self, other)
    }

    open spec fn div_spec(self, other: Self) -> Self {
        rat_div(self, other)
    }
}

impl std::ops::Neg for Rational {
    type Output = Self;

    fn neg(self) -> (r: Self) {
        Rational::neg(&self)
    }
}

impl vstd::std_specs::ops::NegSpecImpl for Rational {
    open spec fn obeys_neg_spec() -> bool {
        true
    }

    open spec fn neg_req(self) -> bool {
        self.spec_num() != i64::MIN
    }

    open spec fn neg_spec(self) -> Self {
        rat_neg(self)
    }
}

impl From<i64> for Rational {
    fn from(n: i64) -> (r: Self) {
        Rational::from_int(n)
    }
}

impl vstd::std_specs::convert::FromSpecImpl<i64> for Rational {
    open spec fn obeys_from_spec() -> bool {
        true
    }

    open spec fn from_spec(n: i64) -> Self {
        Rational::spec_make(n as int, 1)
    }
}

impl From<i32> for Rational {
    fn from(n: i32) -> (r: Self) {
        Rational::from_int(n as i64)
    }
}

impl vstd::std_specs::convert::FromSpecImpl<i32> for Rational {
    open spec fn obeys_from_spec() -> bool {
        true
    }

    open spec fn from_spec(n: i32) -> Self {
        Rational::spec_make(n as int, 1)
    }
}

impl From<u64> for Rational {
    /// Values above `i64::MAX` wrap, as an `as` cast does.
    fn from(n: u64) -> (r: Self) {
        Rational::from_int(n as i64)
    }
}

impl vstd::std_specs::convert::FromSpecImpl<u64> for Rational {
    open spec fn obeys_from_spec() -> bool {
        true
    }

    open spec fn from_spec(n: u64) -> Self {
        Rational::spec_make((n as i64) as int, 1)
    }
}

} // verus!
