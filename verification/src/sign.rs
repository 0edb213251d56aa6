use vstd::prelude::*;

verus! {

/// A coefficient sign: +1, 0 or -1, with a multiplicative monoid structure.
/// The reduction itself works over the two-element field, where every nonzero
/// sign collapses to +1, but generators expose signs so that the same
/// abstractions extend to other coefficient rings.
#[derive(Debug, Clone, Copy, PartialEq, Eq, Structural)]
pub struct Sign(i8);

impl Sign {
    /// The numeric value of the sign.
    pub closed spec fn value(self) -> int {
        self.0 as int
    }

    /// Every sign produced by this module is +1, 0 or -1.
    pub open spec fn wf(self) -> bool {
        -1 <= self.value() <= 1
    }

    /// The sign +1.
    pub fn positive() -> (r: Sign)
        ensures
            r.value() == 1,
    {
        Sign(1i8)
    }

    /// The sign -1.
    pub fn negative() -> (r: Sign)
        ensures
            r.value() == -1,
    {
        Sign(-1i8)
    }

    /// The sign 0.
    pub fn zero() -> (r: Sign)
        ensures
            r.value() == 0,
    {
        Sign(0)
    }

    pub fn is_positive(&self) -> (r: bool)
        ensures
            r == (self.value() > 0),
    {
        self.0 > 0
    }

    pub fn is_negative(&self) -> (r: bool)
        ensures
            r == (self.value() < 0),
    {
        self.0 < 0
    }

    pub fn is_zero(&self) -> (r: bool)
        ensures
            r == (self.value() == 0),
    {
        self.0 == 0
    }

    /// `None` for the zero sign, `Some(self)` otherwise.
    pub fn into_option(self) -> (r: Option<Sign>)
        ensures
            r == if self.value() == 0 {
                Option::<Sign>::None
            } else {
                Option::<Sign>::Some(self)
            },
    {
        if self.0 == 0 {
            None
        } else {
            Some(self)
        }
    }

    /// The product of two signs.
    pub fn times(self, rhs: Sign) -> (r: Sign)
        requires
            self.wf(),
            rhs.wf(),
        ensures
            r.value() == self.value() * rhs.value(),
            r.wf(),
    {
        proof {
            assert(-1 <= self.0 * rhs.0 <= 1) by (nonlinear_arith)
                requires
                    -1 <= self.0 <= 1,
                    -1 <= rhs.0 <= 1,
            ;
        }
        Sign(self.0 * rhs.0)
    }
}

} // verus!
