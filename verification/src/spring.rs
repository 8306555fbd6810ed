//! Springs: the links of a plate's network.

use vstd::prelude::*;

verus! {

/// A link between two point masses of one shape, each named by its index in
/// that shape's list of masses.
#[derive(Clone, Copy, Debug, PartialEq, Eq, Structural)]
pub struct Spring {
    pub anchor_a: usize,
    pub anchor_b: usize,
}

impl Spring {
    /// The spring is anchored at the mass with this index.
    pub open spec fn touches(self, mass: int) -> bool {
        self.anchor_a == mass || self.anchor_b == mass
    }
}

} // verus!
