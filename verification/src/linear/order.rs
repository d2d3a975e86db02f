//! Ordering of rationals by value.
use vstd::prelude::*;
use crate::linear::rational::{Rational, add_ok, sub_ok, mul_ok, div_ok, rat_add, rat_sub, rat_mul, rat_div, rat_neg, rat_lt};
use vstd::std_specs::cmp::PartialOrdSpecImpl;
use std::cmp::Ordering;

verus! {

/// The ordering of two rationals by value.
pub open spec fn rat_order(a: Rational, b: Rational) -> Ordering {
    if rat_lt(a, b) {
        Ordering::Less
    } else if rat_lt(b, a) {
        Ordering::Greater
    } else {
        Ordering::Equal
    }
}

impl PartialOrd for Rational {
    fn partial_cmp(&self, other: &Self) -> (r: Option<Ordering>) {
        let c = self.compare(other);
        if c < 0 {
            Some(Ordering::Less)
        } else if c > 0 {
            Some(Ordering::Greater)
        } else {
            Some(Ordering::Equal)
        }
    }
}

impl PartialOrdSpecImpl for Rational {
    open spec fn obeys_partial_cmp_spec() -> bool {
        true
    }

    open spec fn partial_cmp_spec(&self, other: &Self) -> Option<Ordering> {
        Some(rat_order(*self, *other))
    }
}

} // verus!
