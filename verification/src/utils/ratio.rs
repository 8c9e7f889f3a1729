//! Exact fractions.

use vstd::prelude::*;

verus! {

/// The fraction `numerator / denominator`, not reduced.
#[derive(Debug, Clone, Copy, PartialEq, Eq, Structural)]
pub struct Ratio {
    pub numerator: u128,
    pub denominator: u128,
}

impl Ratio {
    /// The fraction has a value, between 0 and 1.
    pub open spec fn is_probability(self) -> bool {
        0 < self.denominator && self.numerator <= self.denominator
    }
}

} // verus!
