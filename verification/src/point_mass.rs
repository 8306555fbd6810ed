//! Point masses: the particles of a plate.

use vstd::prelude::*;
use crate::vec_utils::LatticeVec3;

verus! {

/// One tile's material within a plate.
#[derive(Clone, Copy, Debug, PartialEq, Eq, Structural)]
pub struct PointMass {
    /// The tile this mass stands for.
    pub tile: usize,
    /// Where the mass was created: the normal of its tile.
    pub position: LatticeVec3,
    pub mass: u32,
}

impl PointMass {
    pub fn new(tile: usize, position: LatticeVec3, mass: u32) -> (r: PointMass)
        ensures
            r == (PointMass { tile, position, mass }),
    {
        PointMass { tile, position, mass }
    }

    /// How far this mass lies from another: [`LatticeVec3::separation`] of
    /// their positions, which orders pairs of masses as their geodesic
    /// distance does.
    pub fn separation_from(&self, other: &PointMass) -> (r: u64)
        requires
            self.position.bounded(),
            other.position.bounded(),
        ensures
            r == self.position.separation(other.position),
    {
        self.position.separation_from(&other.position)
    }
}

} // verus!
