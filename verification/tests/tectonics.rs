use rand::SeedableRng;
use suz_sim::assembler::AssemblyError;
use suz_sim::fraction::Fraction;
use suz_sim::particle_sphere::{ParticleSphere, ParticleTile};
use suz_sim::plate::{Plate, PlateType};
use suz_sim::tectonics::{Tectonics, TectonicsConfiguration};
use suz_sim::vec_utils::{LatticeVec3, UNIT};

fn lattice(x: f64, y: f64, z: f64) -> LatticeVec3 {
    let scale = UNIT as f64;
    LatticeVec3 {
        x: (x * scale).round() as i32,
        y: (y * scale).round() as i32,
        z: (z * scale).round() as i32,
    }
}

fn ring(count: usize) -> ParticleSphere {
    let mut tiles = Vec::new();
    for index in 0..count {
        let angle = 2.0 * std::f64::consts::PI * (index as f64) / (count as f64);
        tiles.push(ParticleTile {
            index,
            adjacent: vec![(index + count - 1) % count, (index + 1) % count],
            normal: lattice(angle.cos(), angle.sin(), 0.0),
        });
    }
    ParticleSphere::new(tiles).unwrap()
}

/// Bands of tiles from pole to pole; each tile is next to its neighbours in
/// its band and to the tiles above and below it.
fn banded(bands: usize, per_band: usize) -> ParticleSphere {
    let mut tiles = Vec::new();
    for band in 0..bands {
        let polar = std::f64::consts::PI * (band as f64 + 0.5) / (bands as f64);
        for step in 0..per_band {
            let around = 2.0 * std::f64::consts::PI * (step as f64) / (per_band as f64);
            let index = band * per_band + step;
            let mut adjacent = vec![
                band * per_band + (step + 1) % per_band,
                band * per_band + (step + per_band - 1) % per_band,
            ];
            if band > 0 {
                adjacent.push(index - per_band);
            }
            if band + 1 < bands {
                adjacent.push(index + per_band);
            }
            tiles.push(ParticleTile {
                index,
                adjacent,
                normal: lattice(
                    polar.sin() * around.cos(),
                    polar.sin() * around.sin(),
                    polar.cos(),
                ),
            });
        }
    }
    ParticleSphere::new(tiles).unwrap()
}

fn fraction(numerator: u32, denominator: u32) -> Fraction {
    Fraction::new(numerator, denominator).unwrap()
}

fn configuration() -> TectonicsConfiguration {
    TectonicsConfiguration {
        plate_goal: 12,
        major_plate_fraction: fraction(3, 10),
        major_tile_fraction: fraction(2, 5),
        continental_rate: fraction(2, 5),
        min_plate_size: 6,
        iterations: 10,
    }
}

fn assemble(config: TectonicsConfiguration, sphere: &ParticleSphere, seed: u64) -> Result<Tectonics, AssemblyError> {
    let mut rng = rand::rngs::StdRng::seed_from_u64(seed);
    Tectonics::from_config(config, sphere, &mut rng)
}

fn tiles_of(plate: &Plate) -> Vec<usize> {
    plate.shape.point_masses.iter().map(|m| m.tile).collect()
}

fn is_adjacent(sphere: &ParticleSphere, a: usize, b: usize) -> bool {
    sphere.tiles[a].adjacent.contains(&b)
}

#[test]
fn ring_of_six_is_one_plate() {
    let sphere = ring(6);
    let config = TectonicsConfiguration {
        plate_goal: 2,
        major_plate_fraction: fraction(1, 2),
        major_tile_fraction: fraction(1, 2),
        continental_rate: fraction(2, 5),
        min_plate_size: 6,
        iterations: 0,
    };
    assert!(config.is_valid());
    assert_eq!(config.compute_major_quota(6), 6);
    for seed in 0..32u64 {
        let tectonics = assemble(config, &sphere, seed).unwrap();
        assert_eq!(tectonics.plates.len(), 1);
        assert_eq!(tectonics.plates[0].shape.point_masses.len(), 6);
        assert_eq!(tectonics.plates[0].shape.springs.len(), 6);
        assert_eq!(tectonics.plates[0].plate_type, PlateType::Continental);
        let mut tiles = tiles_of(&tectonics.plates[0]);
        tiles.sort();
        assert_eq!(tiles, vec![0, 1, 2, 3, 4, 5]);
    }
}

#[test]
fn every_tile_becomes_one_point_mass() {
    let sphere = banded(12, 20);
    let config = configuration();
    for seed in 0..24u64 {
        let tectonics = assemble(config, &sphere, seed).unwrap();
        let mut seen = vec![0usize; sphere.tiles.len()];
        let mut masses = 0;
        for plate in &tectonics.plates {
            masses += plate.shape.point_masses.len();
            for point_mass in &plate.shape.point_masses {
                seen[point_mass.tile] += 1;
            }
        }
        assert_eq!(masses, sphere.tiles.len());
        assert!(seen.iter().all(|count| *count == 1));
    }
}

#[test]
fn no_plate_is_below_the_least_size() {
    let sphere = banded(12, 20);
    let config = configuration();
    for seed in 0..24u64 {
        let tectonics = assemble(config, &sphere, seed).unwrap();
        assert!(tectonics.plates.len() > 1);
        for plate in &tectonics.plates {
            assert!(plate.shape.point_masses.len() >= config.min_plate_size);
        }
    }
}

#[test]
fn springs_join_adjacent_tiles_of_one_plate() {
    let sphere = banded(10, 16);
    let config = configuration();
    for seed in 100..112u64 {
        let tectonics = assemble(config, &sphere, seed).unwrap();
        for plate in &tectonics.plates {
            let tiles = tiles_of(plate);
            for spring in &plate.shape.springs {
                assert!(spring.anchor_a < tiles.len());
                assert!(spring.anchor_b < tiles.len());
                assert!(spring.anchor_b < spring.anchor_a);
                assert!(is_adjacent(&sphere, tiles[spring.anchor_a], tiles[spring.anchor_b]));
            }
            // one spring for every pair of adjacent tiles of the plate
            let mut pairs = 0;
            for a in 0..tiles.len() {
                for b in 0..a {
                    if is_adjacent(&sphere, tiles[a], tiles[b]) {
                        pairs += 1;
                        let found = plate
                            .shape
                            .springs
                            .iter()
                            .filter(|s| s.anchor_a == a && s.anchor_b == b)
                            .count();
                        assert_eq!(found, 1);
                    }
                }
            }
            assert_eq!(pairs, plate.shape.springs.len());
        }
    }
}

#[test]
fn point_masses_sit_on_their_tiles() {
    let sphere = banded(10, 16);
    let tectonics = assemble(configuration(), &sphere, 3).unwrap();
    for plate in &tectonics.plates {
        for point_mass in &plate.shape.point_masses {
            assert_eq!(point_mass.position, sphere.tiles[point_mass.tile].normal);
            assert!(point_mass.position.is_unit_vector());
            assert_eq!(point_mass.mass, plate.plate_type.mass());
        }
    }
}

#[test]
fn the_index_of_springs_by_mass_is_filled() {
    let sphere = banded(10, 16);
    let tectonics = assemble(configuration(), &sphere, 4).unwrap();
    for plate in &tectonics.plates {
        assert!(plate.shape.is_well_formed());
        let pairs = plate.shape.iter_point_masses_with_springs();
        assert_eq!(pairs.len(), plate.shape.point_masses.len());
        let mut seen = 0;
        for (index, (point_mass, springs)) in pairs.iter().enumerate() {
            assert_eq!(*point_mass, plate.shape.point_masses[index]);
            for spring in springs {
                assert!(spring.anchor_a == index || spring.anchor_b == index);
            }
            seen += springs.len();
        }
        assert_eq!(seen, 2 * plate.shape.springs.len());
    }
}

#[test]
fn continental_plates_come_first() {
    let sphere = banded(12, 20);
    let config = configuration();
    for seed in 0..24u64 {
        let tectonics = assemble(config, &sphere, seed).unwrap();
        assert_eq!(tectonics.plates[0].plate_type, PlateType::Continental);
        let first_oceanic = tectonics
            .plates
            .iter()
            .position(|plate| plate.plate_type == PlateType::Oceanic)
            .unwrap_or(tectonics.plates.len());
        for plate in &tectonics.plates[first_oceanic..] {
            assert_eq!(plate.plate_type, PlateType::Oceanic);
        }
        let continental: usize = tectonics.plates[..first_oceanic]
            .iter()
            .map(|plate| plate.shape.point_masses.len())
            .sum();
        // two fifths of 240 tiles
        if first_oceanic < tectonics.plates.len() {
            assert!(continental >= 95);
        }
    }
}

#[test]
fn the_same_seed_gives_the_same_plates() {
    let sphere = banded(12, 20);
    let config = configuration();
    for seed in [1u64, 2, 3, 1234567] {
        let first = assemble(config, &sphere, seed).unwrap();
        let second = assemble(config, &sphere, seed).unwrap();
        assert_eq!(first.plates.len(), second.plates.len());
        for (a, b) in first.plates.iter().zip(second.plates.iter()) {
            assert_eq!(a.plate_type, b.plate_type);
            assert_eq!(a.color, b.color);
            assert_eq!(a.axis_of_rotation, b.axis_of_rotation);
            assert_eq!(a.drift_direction, b.drift_direction);
            assert_eq!(a.shape.point_masses, b.shape.point_masses);
            assert_eq!(a.shape.springs, b.shape.springs);
            assert_eq!(a.shape.spring_map, b.shape.spring_map);
        }
    }
}

#[test]
fn seeds_make_a_difference() {
    let sphere = banded(12, 20);
    let config = configuration();
    let reference = assemble(config, &sphere, 0).unwrap();
    let mut different = 0;
    for seed in 1..9u64 {
        let other = assemble(config, &sphere, seed).unwrap();
        if tiles_of(&other.plates[0]) != tiles_of(&reference.plates[0]) {
            different += 1;
        }
    }
    assert!(different >= 7);
}

#[test]
fn the_generator_is_drawn_from_in_order() {
    let sphere = banded(6, 10);
    let config = configuration();
    let mut one = rand::rngs::StdRng::seed_from_u64(42);
    let mut other = rand::rngs::StdRng::seed_from_u64(42);
    let first = Tectonics::from_config(config, &sphere, &mut one).unwrap();
    let second = Tectonics::from_config(config, &sphere, &mut other).unwrap();
    assert_eq!(tiles_of(&first.plates[0]), tiles_of(&second.plates[0]));
    // both generators have moved on by the same draws
    let after_one = Plate::random(PlateType::Oceanic, &mut one);
    let after_other = Plate::random(PlateType::Oceanic, &mut other);
    assert_eq!(after_one.color, after_other.color);
    assert_eq!(after_one.axis_of_rotation, after_other.axis_of_rotation);
    let mut fresh = rand::rngs::StdRng::seed_from_u64(42);
    let untouched = Plate::random(PlateType::Oceanic, &mut fresh);
    assert!(
        untouched.color != after_one.color || untouched.axis_of_rotation != after_one.axis_of_rotation
    );
}

#[test]
fn the_configuration_is_kept() {
    let sphere = ring(12);
    let mut config = configuration();
    config.min_plate_size = 1;
    config.iterations = 77;
    let tectonics = assemble(config, &sphere, 8).unwrap();
    assert_eq!(tectonics.config.iterations, 77);
    assert_eq!(tectonics.config.plate_goal, 12);
    assert_eq!(tectonics.config.min_plate_size, 1);
    assert_eq!(tectonics.config.continental_rate, fraction(2, 5));
}

#[test]
fn no_tiles_no_plates() {
    let sphere = ParticleSphere::new(Vec::new()).unwrap();
    let tectonics = assemble(configuration(), &sphere, 0).unwrap();
    assert!(tectonics.plates.is_empty());
}

#[test]
fn a_single_tile_is_a_plate() {
    let sphere = ring(1);
    let mut config = configuration();
    config.min_plate_size = 1;
    config.plate_goal = 1;
    let tectonics = assemble(config, &sphere, 0).unwrap();
    assert_eq!(tectonics.plates.len(), 1);
    assert_eq!(tiles_of(&tectonics.plates[0]), vec![0]);
    // the tile of a ring of one is next to itself, twice
    assert_eq!(tectonics.plates[0].shape.springs.len(), 2);
}

#[test]
fn too_few_tiles_for_a_plate() {
    let sphere = ring(4);
    let mut config = configuration();
    config.min_plate_size = 5;
    config.plate_goal = 1;
    for seed in 0..8u64 {
        assert!(matches!(assemble(config, &sphere, seed), Err(AssemblyError::NoMergeTarget)));
    }
}

#[test]
fn too_small_a_quota_for_a_plate() {
    let sphere = ring(40);
    let mut config = configuration();
    // 40 * 0.4 / 6 / 0.3 = 8.8...
    assert_eq!(config.compute_major_quota(40), 8);
    config.min_plate_size = 9;
    for seed in 0..8u64 {
        assert!(matches!(assemble(config, &sphere, seed), Err(AssemblyError::NoMergeTarget)));
    }
    config.min_plate_size = 8;
    for seed in 0..8u64 {
        assert!(assemble(config, &sphere, seed).is_ok());
    }
}

#[test]
fn no_quota_at_all() {
    let sphere = ring(10);
    let mut config = configuration();
    config.plate_goal = 10_000;
    assert_eq!(config.compute_major_quota(10), 0);
    assert_eq!(config.compute_minor_quota(10), 0);
    for seed in 0..8u64 {
        assert!(matches!(assemble(config, &sphere, seed), Err(AssemblyError::Stalled)));
    }
}

#[test]
fn plates_without_quota_are_passed_over() {
    let sphere = banded(8, 12);
    let mut config = configuration();
    config.major_tile_fraction = fraction(1, 1);
    config.min_plate_size = 1;
    assert_eq!(config.compute_minor_quota(96), 0);
    assert!(config.compute_major_quota(96) > 0);
    for seed in 0..8u64 {
        let tectonics = assemble(config, &sphere, seed).unwrap();
        let masses: usize = tectonics.plates.iter().map(|p| p.shape.point_masses.len()).sum();
        assert_eq!(masses, 96);
    }
}

#[test]
fn an_island_joins_another_plate() {
    // a band graph and, apart from it, three tiles near its first tile
    let mut tiles = banded(6, 10).tiles;
    let base = tiles.len();
    let near = tiles[0].normal;
    for offset in 0..3 {
        let mut adjacent = Vec::new();
        if offset > 0 {
            adjacent.push(base + offset - 1);
        }
        if offset < 2 {
            adjacent.push(base + offset + 1);
        }
        tiles.push(ParticleTile { index: base + offset, adjacent, normal: near });
    }
    let sphere = ParticleSphere::new(tiles).unwrap();
    let mut config = configuration();
    config.min_plate_size = 5;
    let mut merged = 0;
    for seed in 0..40u64 {
        match assemble(config, &sphere, seed) {
            Err(error) => assert_eq!(error, AssemblyError::NoMergeTarget),
            Ok(tectonics) => {
                merged += 1;
                let masses: usize =
                    tectonics.plates.iter().map(|p| p.shape.point_masses.len()).sum();
                assert_eq!(masses, 63);
                let home = tectonics
                    .plates
                    .iter()
                    .find(|plate| tiles_of(plate).contains(&base))
                    .unwrap();
                let held = tiles_of(home);
                assert!(held.len() > 3);
                // the three tiles moved together, in the order in which they were claimed
                let first = (base..base + 3)
                    .map(|island| held.iter().position(|tile| *tile == island).unwrap())
                    .min()
                    .unwrap();
                let mut moved = held[first..first + 3].to_vec();
                moved.sort();
                assert_eq!(moved, vec![base, base + 1, base + 2]);
                assert!(first >= 5);
                for plate in &tectonics.plates {
                    assert!(plate.shape.point_masses.len() >= 5);
                    for point_mass in &plate.shape.point_masses {
                        assert_eq!(point_mass.mass, plate.plate_type.mass());
                    }
                }
            },
        }
    }
    assert!(merged > 30);
}
