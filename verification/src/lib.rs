//! Assembly of tectonic plates on a tiled sphere.
//!
//! The tiles of a spherical tessellation are partitioned into plates by
//! seeded region growing. Every plate carries a network of point masses, one
//! per tile, joined by springs along tile adjacency.

pub mod assembler;
pub mod assembly;
pub mod connectivity;
pub mod fraction;
pub mod particle_sphere;
pub mod plate;
pub mod point_mass;
pub mod random;
pub mod shape;
pub mod spring;
pub mod tectonics;
pub mod tile_table;
pub mod vec_utils;
