//! Exact fractions: what a rate is before it becomes a floating-point number.

use vstd::prelude::*;

verus! {

/// `numerator / denominator`, with a positive denominator.
#[derive(Clone, Copy, Debug, PartialEq, Eq, Structural)]
pub struct Ratio {
    pub numerator: u128,
    pub denominator: u128,
}

impl Ratio {
    /// The fraction's denominator is positive.
    pub open spec fn wf(self) -> bool {
        self.denominator > 0
    }
}

} // verus!
