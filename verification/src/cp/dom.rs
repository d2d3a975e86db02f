//! Interval domains of integer variables.
use vstd::prelude::*;

verus! {

/// A finite integer domain: the interval `[min, max]` (empty when `min > max`).
#[derive(Debug, Clone, Copy, PartialEq, Eq, Structural)]
pub struct IntDomain {
    min: i64,
    max: i64,
}

/// Number of values of the interval `[lo, hi]`.
pub open spec fn interval_size(lo: int, hi: int) -> nat {
    if lo > hi {
        0
    } else {
        (hi - lo + 1) as nat
    }
}

impl View for IntDomain {
    type V = (i64, i64);

    closed spec fn view(&self) -> (i64, i64) {
        (self.min, self.max)
    }
}

impl IntDomain {
    pub fn new(min: i64, max: i64) -> (d: Self)
        ensures
            d@ == (min, max),
    {
        IntDomain { min, max }
    }

    pub fn single(value: i64) -> (d: Self)
        ensures
            d@ == (value, value),
    {
        IntDomain::new(value, value)
    }

    pub fn min(&self) -> (r: i64)
        ensures
            r == self@.0,
    {
        self.min
    }

    pub fn max(&self) -> (r: i64)
        ensures
            r == self@.1,
    {
        self.max
    }

    pub fn is_empty(&self) -> (b: bool)
        ensures
            b == (self@.0 > self@.1),
    {
        self.min > self.max
    }

    pub fn is_fixed(&self) -> (b: bool)
        ensures
            b == (self@.0 == self@.1),
    {
        self.min == self.max
    }

    pub fn value(&self) -> (r: Option<i64>)
        ensures
            r == (if self@.0 == self@.1 { Some(self@.0) } else { None::<i64> }),
    {
        if self.is_fixed() {
            Some(self.min)
        } else {
            None
        }
    }

    /// Number of values in the domain.
    pub fn size(&self) -> (r: u64)
        requires
            interval_size(self@.0 as int, self@.1 as int) <= u64::MAX,
        ensures
            r == interval_size(self@.0 as int, self@.1 as int),
    {
        if self.is_empty() {
            0
        } else {
            let w: i128 = self.max as i128 - self.min as i128 + 1;
            w as u64
        }
    }

    /// Remove values less than `lb`. Returns false if domain becomes empty.
    pub fn prune_lb(&mut self, lb: i64) -> (ok: bool)
        ensures
            final(self)@ == (if lb > old(self)@.0 { (lb, old(self)@.1) } else { old(self)@ }),
            ok == (final(self)@.0 <= final(self)@.1),
    {
        if lb > self.min {
            self.min = lb;
        }
        !self.is_empty()
    }

    /// Remove values greater than `ub`. Returns false if domain becomes empty.
    pub fn prune_ub(&mut self, ub: i64) -> (ok: bool)
        ensures
            final(self)@ == (if ub < old(self)@.1 { (old(self)@.0, ub) } else { old(self)@ }),
            ok == (final(self)@.0 <= final(self)@.1),
    {
        if ub < self.max {
            self.max = ub;
        }
        !self.is_empty()
    }

    /// Remove a specific value. Returns true if still valid.
    /// Only an end point can be removed from an interval; removing an
    /// interior value leaves the domain unchanged.
    pub fn remove(&mut self, val: i64) -> (ok: bool)
        requires
            val == old(self)@.0 ==> old(self)@.0 < i64::MAX,
            val != old(self)@.0 && val == old(self)@.1 ==> old(self)@.1 > i64::MIN,
        ensures
            final(self)@ == (if val == old(self)@.0 {
                ((old(self)@.0 + 1) as i64, old(self)@.1)
            } else if val == old(self)@.1 {
                (old(self)@.0, (old(self)@.1 - 1) as i64)
            } else {
                old(self)@
            }),
            ok == (final(self)@.0 <= final(self)@.1),
    {
        if val == self.min {
            self.min = self.min + 1;
        } else if val == self.max {
            self.max = self.max - 1;
        }
        !self.is_empty()
    }

    pub fn contains(&self, val: i64) -> (b: bool)
        ensures
            b == (self@.0 <= val && val <= self@.1),
    {
        val >= self.min && val <= self.max
    }
}

} // verus!
