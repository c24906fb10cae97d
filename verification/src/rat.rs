//! Exact rational sample values.

use vstd::prelude::*;

verus! {

/// The magnitude bound on numerators and denominators accepted by the
/// clipping arithmetic.  It keeps every intermediate product of the curve
/// formula comfortably inside `i128` (the largest is below `16 * BOUND^6`).
pub const RAT_BOUND: i128 = 1_000_000;

/// An exact rational number `num / den` with a positive denominator,
/// standing for one audio sample's amplitude, or for the clip level.
#[derive(Clone, Copy, Debug, PartialEq, Eq, Structural)]
pub struct Rat {
    pub num: i128,
    pub den: i128,
}

impl Rat {
    /// Well-formed: the denominator is positive.
    pub open spec fn wf(self) -> bool {
        self.den > 0
    }

    /// Small enough for the clipping arithmetic to stay exact in `i128`.
    pub open spec fn bounded(self) -> bool {
        &&& -RAT_BOUND <= self.num <= RAT_BOUND
        &&& 0 < self.den <= RAT_BOUND
    }

    /// Runtime test for `bounded`.
    pub fn is_bounded(&self) -> (r: bool)
        ensures
            r == self.bounded(),
    {
        -RAT_BOUND <= self.num && self.num <= RAT_BOUND && 0 < self.den && self.den <= RAT_BOUND
    }
}

} // verus!
