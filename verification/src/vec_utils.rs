//! Vectors on an integer lattice.
//!
//! A point of the unit sphere is kept as three signed coordinates scaled by
//! [`UNIT`]. Dot products of such vectors are exact integers, so the order of
//! angular distances between points is decided without rounding: the angle
//! between two unit vectors grows exactly as their dot product shrinks.

use vstd::prelude::*;

verus! {

/// The lattice length that stands for one.
pub const UNIT: i32 = 1073741824;

/// [`UNIT`] squared: the dot product of a unit vector with itself.
pub const UNIT_SQUARED: i64 = 1152921504606846976;

/// How far the squared length of a unit vector may lie from [`UNIT_SQUARED`].
pub const NORM_TOLERANCE: i64 = 1099511627776;

/// A vector with integer coordinates.
#[derive(Clone, Copy, Debug, PartialEq, Eq, Structural)]
pub struct LatticeVec3 {
    pub x: i32,
    pub y: i32,
    pub z: i32,
}

/// A planar vector with integer coordinates.
#[derive(Clone, Copy, Debug, PartialEq, Eq, Structural)]
pub struct LatticeVec2 {
    pub x: i32,
    pub y: i32,
}

impl LatticeVec3 {
    /// No coordinate is longer than [`UNIT`].
    pub open spec fn bounded(self) -> bool {
        &&& -UNIT <= self.x <= UNIT
        &&& -UNIT <= self.y <= UNIT
        &&& -UNIT <= self.z <= UNIT
    }

    pub open spec fn dot(self, other: LatticeVec3) -> int {
        self.x * other.x + self.y * other.y + self.z * other.z
    }

    /// The vector has length one, up to [`NORM_TOLERANCE`] on its square.
    pub open spec fn is_unit(self) -> bool {
        &&& self.bounded()
        &&& UNIT_SQUARED - NORM_TOLERANCE <= self.dot(self) <= UNIT_SQUARED + NORM_TOLERANCE
    }

    /// How far apart two directions are, as `UNIT_SQUARED * (1 - cos)` of the
    /// angle between them, with the cosine clamped to `[-1, 1]`. It is zero for
    /// equal unit vectors and grows with the geodesic distance.
    pub open spec fn separation(self, other: LatticeVec3) -> int {
        let dot = self.dot(other);
        if dot >= UNIT_SQUARED {
            0
        } else if dot <= -UNIT_SQUARED {
            2 * UNIT_SQUARED
        } else {
            UNIT_SQUARED - dot
        }
    }

    pub fn is_bounded(&self) -> (r: bool)
        ensures
            r == self.bounded(),
    {
        -UNIT <= self.x && self.x <= UNIT && -UNIT <= self.y && self.y <= UNIT && -UNIT <= self.z
            && self.z <= UNIT
    }

    pub fn dot_product(&self, other: &LatticeVec3) -> (r: i64)
        requires
            self.bounded(),
            other.bounded(),
        ensures
            r == self.dot(*other),
            -3 * UNIT_SQUARED <= r <= 3 * UNIT_SQUARED,
    {
        let xx = coordinate_product(self.x, other.x);
        let yy = coordinate_product(self.y, other.y);
        let zz = coordinate_product(self.z, other.z);
        xx + yy + zz
    }

    pub fn is_unit_vector(&self) -> (r: bool)
        ensures
            r == self.is_unit(),
    {
        if !self.is_bounded() {
            return false;
        }
        let norm = self.dot_product(self);
        UNIT_SQUARED - NORM_TOLERANCE <= norm && norm <= UNIT_SQUARED + NORM_TOLERANCE
    }

    /// Computes [`LatticeVec3::separation`].
    pub fn separation_from(&self, other: &LatticeVec3) -> (r: u64)
        requires
            self.bounded(),
            other.bounded(),
        ensures
            r == self.separation(*other),
            r <= 2 * UNIT_SQUARED,
    {
        let dot = self.dot_product(other);
        if dot >= UNIT_SQUARED {
            0
        } else if dot <= -UNIT_SQUARED {
            2 * (UNIT_SQUARED as u64)
        } else {
            (UNIT_SQUARED - dot) as u64
        }
    }
}

/// The product of two coordinates of bounded vectors.
fn coordinate_product(a: i32, b: i32) -> (r: i64)
    requires
        -UNIT <= a <= UNIT,
        -UNIT <= b <= UNIT,
    ensures
        r == a * b,
        -UNIT_SQUARED <= r <= UNIT_SQUARED,
{
    assert(-1152921504606846976 <= a * b <= 1152921504606846976) by (nonlinear_arith)
        requires
            -1073741824 <= a <= 1073741824,
            -1073741824 <= b <= 1073741824,
    ;
    (a as i64) * (b as i64)
}

} // verus!
