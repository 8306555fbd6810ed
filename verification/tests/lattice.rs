use suz_sim::point_mass::PointMass;
use suz_sim::vec_utils::{LatticeVec3, NORM_TOLERANCE, UNIT, UNIT_SQUARED};

fn vector(x: i32, y: i32, z: i32) -> LatticeVec3 {
    LatticeVec3 { x, y, z }
}

#[test]
fn constants_agree() {
    assert_eq!(UNIT as i64 * UNIT as i64, UNIT_SQUARED);
    assert_eq!(UNIT, 1 << 30);
    assert_eq!(NORM_TOLERANCE, 1 << 40);
}

#[test]
fn dot_product_is_exact() {
    let a = vector(3, -4, 5);
    let b = vector(-7, 2, 11);
    assert_eq!(a.dot_product(&b), -21 - 8 + 55);
    let x = vector(UNIT, UNIT, UNIT);
    assert_eq!(x.dot_product(&x), 3 * UNIT_SQUARED);
    let y = vector(-UNIT, -UNIT, -UNIT);
    assert_eq!(x.dot_product(&y), -3 * UNIT_SQUARED);
}

#[test]
fn unit_vectors_are_told_from_others() {
    assert!(vector(UNIT, 0, 0).is_unit_vector());
    assert!(vector(0, -UNIT, 0).is_unit_vector());
    // 0.6, 0.8, 0
    assert!(vector(644245094, 858993459, 0).is_unit_vector());
    assert!(!vector(0, 0, 0).is_unit_vector());
    assert!(!vector(UNIT, UNIT, 0).is_unit_vector());
    assert!(!vector(UNIT / 2, 0, 0).is_unit_vector());
    assert!(!vector(UNIT + 1, 0, 0).is_unit_vector());
    assert!(!vector(i32::MIN, 0, 0).is_unit_vector());
}

#[test]
fn unit_tolerance_is_sharp() {
    // x^2 = UNIT^2 - 2 * UNIT * d + d^2 for x = UNIT - d
    let inside = vector(UNIT - 511, 0, 0);
    let outside = vector(UNIT - 513, 0, 0);
    assert!(inside.is_unit_vector());
    assert!(!outside.is_unit_vector());
}

#[test]
fn bounded_vectors() {
    assert!(vector(UNIT, -UNIT, 0).is_bounded());
    assert!(!vector(UNIT + 1, 0, 0).is_bounded());
    assert!(!vector(0, -UNIT - 1, 0).is_bounded());
    assert!(!vector(0, 0, i32::MAX).is_bounded());
}

#[test]
fn separation_grows_with_the_angle() {
    let east = vector(UNIT, 0, 0);
    let north = vector(0, UNIT, 0);
    let west = vector(-UNIT, 0, 0);
    let north_east = vector(759250125, 759250125, 0);
    assert_eq!(east.separation_from(&east), 0);
    assert_eq!(east.separation_from(&north), UNIT_SQUARED as u64);
    assert_eq!(east.separation_from(&west), 2 * UNIT_SQUARED as u64);
    let near = east.separation_from(&north_east);
    assert_eq!(near, (UNIT_SQUARED - 759250125i64 * UNIT as i64) as u64);
    assert!(0 < near && near < east.separation_from(&north));
    assert_eq!(east.separation_from(&north_east), north_east.separation_from(&east));
}

#[test]
fn separation_is_clamped() {
    // longer than a unit vector: the cosine would exceed one
    let long = vector(UNIT, UNIT, 0);
    assert_eq!(long.separation_from(&long), 0);
    let opposite = vector(-UNIT, -UNIT, 0);
    assert_eq!(long.separation_from(&opposite), 2 * UNIT_SQUARED as u64);
}

#[test]
fn point_masses_are_as_far_apart_as_their_positions() {
    let a = PointMass::new(4, vector(UNIT, 0, 0), 5);
    let b = PointMass::new(9, vector(0, 0, UNIT), 1);
    assert_eq!(a.tile, 4);
    assert_eq!(a.mass, 5);
    assert_eq!(a.position, vector(UNIT, 0, 0));
    assert_eq!(a.separation_from(&b), UNIT_SQUARED as u64);
    assert_eq!(a.separation_from(&a), 0);
}
