use suz_sim::assembler::{find_nearest_plate, separation_of_plate, AssemblyError, PlateAssembler};
use suz_sim::assembly::Phase;
use suz_sim::fraction::Fraction;
use suz_sim::particle_sphere::{ParticleSphere, ParticleTile};
use suz_sim::plate::{Plate, PlateType};
use suz_sim::spring::Spring;
use suz_sim::tectonics::TectonicsConfiguration;
use suz_sim::tile_table::TileSlot;
use suz_sim::vec_utils::{LatticeVec3, UNIT, UNIT_SQUARED};

fn on_the_equator(degrees: f64) -> LatticeVec3 {
    let angle = degrees.to_radians();
    LatticeVec3 {
        x: (angle.cos() * UNIT as f64).round() as i32,
        y: (angle.sin() * UNIT as f64).round() as i32,
        z: 0,
    }
}

/// Paths of tiles along the equator: each group of angles is one path.
fn paths(groups: &[&[f64]]) -> ParticleSphere {
    let mut tiles = Vec::new();
    for group in groups {
        let first = tiles.len();
        for (offset, degrees) in group.iter().enumerate() {
            let index = first + offset;
            let mut adjacent = Vec::new();
            if offset > 0 {
                adjacent.push(index - 1);
            }
            if offset + 1 < group.len() {
                adjacent.push(index + 1);
            }
            tiles.push(ParticleTile { index, adjacent, normal: on_the_equator(*degrees) });
        }
    }
    ParticleSphere::new(tiles).unwrap()
}

fn fraction(numerator: u32, denominator: u32) -> Fraction {
    Fraction::new(numerator, denominator).unwrap()
}

fn configuration(min_plate_size: usize) -> TectonicsConfiguration {
    TectonicsConfiguration {
        plate_goal: 2,
        major_plate_fraction: fraction(1, 2),
        major_tile_fraction: fraction(1, 2),
        continental_rate: fraction(2, 5),
        min_plate_size,
        iterations: 0,
    }
}

fn found(assembler: &mut PlateAssembler, sphere: &ParticleSphere, pick: usize) -> Result<(), AssemblyError> {
    let plate_type = assembler.due_plate_type(sphere);
    let plate = Plate::sampled(plate_type, [pick, 1, 2, 3, 4, 5]);
    assembler.start_plate(sphere, pick, plate)
}

fn tiles_of(plate: &Plate) -> Vec<usize> {
    plate.shape.point_masses.iter().map(|m| m.tile).collect()
}

fn three_groups() -> ParticleSphere {
    paths(&[
        &[0.0, 10.0, 20.0, 30.0, 40.0],
        &[60.0, 70.0, 80.0],
        &[180.0, 190.0, 200.0, 210.0, 220.0],
    ])
}

#[test]
fn a_new_assembler_has_claimed_nothing() {
    let sphere = three_groups();
    let assembler = PlateAssembler::new(configuration(5), &sphere);
    assert_eq!(assembler.phase(), Phase::Seeding);
    assert_eq!(assembler.unclaimed_count(), 13);
    assert_eq!(assembler.frontier_count(), 0);
    assert!(assembler.plates.is_empty());
    assert_eq!(assembler.slots, vec![TileSlot::Unclaimed; 13]);
    assert_eq!(assembler.major_tile_count, 13);
    assert_eq!(assembler.minor_tile_count, 13);
    assert_eq!(assembler.generated_majors, 0);
    assert_eq!(assembler.generated_minors, 0);
}

#[test]
fn an_assembler_without_tiles_is_done() {
    let sphere = ParticleSphere::new(Vec::new()).unwrap();
    let assembler = PlateAssembler::new(configuration(5), &sphere);
    assert_eq!(assembler.phase(), Phase::Done);
    let tectonics = assembler.finish(&sphere);
    assert!(tectonics.plates.is_empty());
}

#[test]
fn founding_puts_the_seed_on_the_frontier() {
    let sphere = three_groups();
    let mut assembler = PlateAssembler::new(configuration(5), &sphere);
    assert_eq!(assembler.due_plate_type(&sphere), PlateType::Continental);
    assert_eq!(found(&mut assembler, &sphere, 6), Ok(()));
    assert_eq!(assembler.phase(), Phase::Growing);
    assert_eq!(assembler.frontier, vec![6]);
    assert_eq!(assembler.slots[6], TileSlot::Frontier);
    assert_eq!(assembler.unclaimed_count(), 12);
    assert_eq!(assembler.plates.len(), 1);
    assert_eq!(assembler.plates[0].plate_type, PlateType::Continental);
    assert_eq!(assembler.plates[0].color, 6);
    assert!(assembler.plates[0].shape.point_masses.is_empty());
    assert_eq!(assembler.remaining, 13);
    assert_eq!(assembler.generated_majors, 1);
    assert_eq!(assembler.generated_minors, 0);
}

#[test]
fn claiming_takes_the_tile_and_finds_its_neighbours() {
    let sphere = three_groups();
    let mut assembler = PlateAssembler::new(configuration(5), &sphere);
    found(&mut assembler, &sphere, 2).unwrap();
    assert_eq!(assembler.claim(&sphere, 0), Ok(()));
    assert_eq!(assembler.phase(), Phase::Growing);
    assert_eq!(tiles_of(&assembler.plates[0]), vec![2]);
    assert_eq!(assembler.frontier, vec![1, 3]);
    assert_eq!(assembler.slots[2], TileSlot::Claimed { plate: 0, mass: 0 });
    assert_eq!(assembler.slots[1], TileSlot::Frontier);
    assert_eq!(assembler.slots[3], TileSlot::Frontier);
    assert_eq!(assembler.unclaimed_count(), 10);
    assert_eq!(assembler.remaining, 12);
    // take tile 1: the last tile of the frontier takes its place
    assert_eq!(assembler.claim(&sphere, 0), Ok(()));
    assert_eq!(tiles_of(&assembler.plates[0]), vec![2, 1]);
    assert_eq!(assembler.frontier, vec![3, 0]);
    assert_eq!(assembler.plates[0].shape.springs, vec![Spring { anchor_a: 1, anchor_b: 0 }]);
}

#[test]
fn a_plate_settles_when_its_frontier_is_empty() {
    let sphere = three_groups();
    let mut assembler = PlateAssembler::new(configuration(5), &sphere);
    found(&mut assembler, &sphere, 0).unwrap();
    for _ in 0..4 {
        assert_eq!(assembler.claim(&sphere, 0), Ok(()));
        assert_eq!(assembler.phase(), Phase::Growing);
    }
    assert_eq!(assembler.claim(&sphere, 0), Ok(()));
    assert_eq!(assembler.phase(), Phase::Seeding);
    assert_eq!(tiles_of(&assembler.plates[0]), vec![0, 1, 2, 3, 4]);
    assert_eq!(assembler.frontier_count(), 0);
    assert_eq!(assembler.unclaimed_count(), 8);
    assert_eq!(assembler.remaining, 0);
}

#[test]
fn a_plate_settles_when_its_quota_is_used_up() {
    let sphere = paths(&[&[0.0, 10.0, 20.0, 30.0, 40.0, 50.0, 60.0, 70.0]]);
    let mut config = configuration(2);
    config.plate_goal = 8;
    // 8 * 0.5 / 4 / 0.5 = 2
    let mut assembler = PlateAssembler::new(config, &sphere);
    assert_eq!(assembler.major_tile_count, 2);
    found(&mut assembler, &sphere, 3).unwrap();
    assert_eq!(assembler.claim(&sphere, 0), Ok(()));
    assert_eq!(assembler.frontier, vec![2, 4]);
    assert_eq!(assembler.claim(&sphere, 1), Ok(()));
    assert_eq!(assembler.phase(), Phase::Seeding);
    assert_eq!(tiles_of(&assembler.plates[0]), vec![3, 4]);
    // tiles 2 and 5 went back from the frontier
    assert_eq!(assembler.slots[2], TileSlot::Unclaimed);
    assert_eq!(assembler.slots[5], TileSlot::Unclaimed);
    assert_eq!(assembler.unclaimed_count(), 6);
    assert_eq!(assembler.frontier_count(), 0);
}

#[test]
fn an_undersized_plate_is_merged_into_the_nearest() {
    let sphere = three_groups();
    let mut assembler = PlateAssembler::new(configuration(5), &sphere);
    // the first plate takes the tiles 0 to 4
    found(&mut assembler, &sphere, 0).unwrap();
    for _ in 0..5 {
        assembler.claim(&sphere, 0).unwrap();
    }
    // the second takes the tiles 8 to 12: tile 8 is the fourth unclaimed
    assert_eq!(assembler.due_plate_type(&sphere), PlateType::Oceanic);
    found(&mut assembler, &sphere, 3).unwrap();
    for _ in 0..5 {
        assembler.claim(&sphere, 0).unwrap();
    }
    assert_eq!(tiles_of(&assembler.plates[1]), vec![8, 9, 10, 11, 12]);
    assert_eq!(assembler.phase(), Phase::Seeding);
    // the third has only the tiles 5 to 7
    assert_eq!(assembler.due_plate_type(&sphere), PlateType::Oceanic);
    found(&mut assembler, &sphere, 1).unwrap();
    assert_eq!(assembler.frontier, vec![6]);
    assembler.claim(&sphere, 0).unwrap();
    assert_eq!(assembler.frontier, vec![5, 7]);
    assembler.claim(&sphere, 1).unwrap();
    assert_eq!(assembler.plates.len(), 3);
    assert_eq!(assembler.plates[2].plate_type, PlateType::Oceanic);
    assert_eq!(assembler.plates[2].shape.point_masses[0].mass, 1);
    let origin = sphere.tiles[6].normal;
    let nearest = find_nearest_plate(&assembler.plates, &sphere, &origin);
    assert_eq!(nearest, 2);
    let others: Vec<u64> = (0..2)
        .map(|plate| separation_of_plate(&assembler.plates[plate], &sphere, &origin))
        .collect();
    assert!(others[0] < others[1]);
    assert_eq!(assembler.claim(&sphere, 0), Ok(()));
    assert_eq!(assembler.phase(), Phase::Done);
    // the undersized plate is gone, and its masses are continental ones now
    assert_eq!(assembler.plates.len(), 2);
    assert_eq!(tiles_of(&assembler.plates[0]), vec![0, 1, 2, 3, 4, 6, 7, 5]);
    assert_eq!(tiles_of(&assembler.plates[1]), vec![8, 9, 10, 11, 12]);
    assert_eq!(assembler.plates[0].plate_type, PlateType::Continental);
    for point_mass in &assembler.plates[0].shape.point_masses {
        assert_eq!(point_mass.mass, 5);
        assert_eq!(point_mass.position, sphere.tiles[point_mass.tile].normal);
    }
    for point_mass in &assembler.plates[1].shape.point_masses {
        assert_eq!(point_mass.mass, 1);
    }
    assert_eq!(
        assembler.plates[0].shape.springs,
        vec![
            Spring { anchor_a: 1, anchor_b: 0 },
            Spring { anchor_a: 2, anchor_b: 1 },
            Spring { anchor_a: 3, anchor_b: 2 },
            Spring { anchor_a: 4, anchor_b: 3 },
            Spring { anchor_a: 6, anchor_b: 5 },
            Spring { anchor_a: 7, anchor_b: 5 },
        ]
    );
    assert_eq!(assembler.slots[6], TileSlot::Claimed { plate: 0, mass: 5 });
    assert_eq!(assembler.slots[7], TileSlot::Claimed { plate: 0, mass: 6 });
    assert_eq!(assembler.slots[5], TileSlot::Claimed { plate: 0, mass: 7 });
    assert_eq!(assembler.slots[8], TileSlot::Claimed { plate: 1, mass: 0 });
    let tectonics = assembler.finish(&sphere);
    assert_eq!(tectonics.plates.len(), 2);
    let masses: usize = tectonics.plates.iter().map(|p| p.shape.point_masses.len()).sum();
    assert_eq!(masses, 13);
}

#[test]
fn the_nearest_plate_is_the_first_of_equals() {
    // two plates at the same distance on either side of the tile at 90 degrees
    let sphere = paths(&[&[60.0, 70.0], &[110.0, 120.0], &[90.0]]);
    let mut assembler = PlateAssembler::new(configuration(2), &sphere);
    found(&mut assembler, &sphere, 2).unwrap();
    assembler.claim(&sphere, 0).unwrap();
    assembler.claim(&sphere, 0).unwrap();
    assert_eq!(tiles_of(&assembler.plates[0]), vec![2, 3]);
    found(&mut assembler, &sphere, 0).unwrap();
    assembler.claim(&sphere, 0).unwrap();
    assembler.claim(&sphere, 0).unwrap();
    assert_eq!(tiles_of(&assembler.plates[1]), vec![0, 1]);
    let origin = sphere.tiles[4].normal;
    let first = separation_of_plate(&assembler.plates[0], &sphere, &origin);
    let second = separation_of_plate(&assembler.plates[1], &sphere, &origin);
    assert_eq!(first, second);
    assert_eq!(first, sphere.tiles[2].normal.separation_from(&origin));
    assert_eq!(find_nearest_plate(&assembler.plates, &sphere, &origin), 0);
    found(&mut assembler, &sphere, 0).unwrap();
    assert_eq!(assembler.claim(&sphere, 0), Ok(()));
    assert_eq!(tiles_of(&assembler.plates[0]), vec![2, 3, 4]);
    assert_eq!(assembler.plates.len(), 2);
}

#[test]
fn separation_of_a_plate_is_that_of_its_nearest_mass() {
    let sphere = paths(&[&[0.0, 90.0, 180.0]]);
    let mut assembler = PlateAssembler::new(configuration(1), &sphere);
    found(&mut assembler, &sphere, 1).unwrap();
    assembler.claim(&sphere, 0).unwrap();
    let origin = on_the_equator(0.0);
    assert_eq!(
        separation_of_plate(&assembler.plates[0], &sphere, &origin),
        UNIT_SQUARED as u64
    );
    assembler.claim(&sphere, 1).unwrap();
    assert_eq!(tiles_of(&assembler.plates[0]), vec![1, 2]);
    assert_eq!(
        separation_of_plate(&assembler.plates[0], &sphere, &origin),
        UNIT_SQUARED as u64
    );
    assembler.claim(&sphere, 0).unwrap();
    assert_eq!(separation_of_plate(&assembler.plates[0], &sphere, &origin), 0);
    let empty = Plate::sampled(PlateType::Oceanic, [0, 0, 0, 0, 0, 0]);
    assert_eq!(separation_of_plate(&empty, &sphere, &origin), 2 * UNIT_SQUARED as u64 + 1);
}

#[test]
fn a_lone_undersized_plate_has_nowhere_to_go() {
    let sphere = paths(&[&[0.0, 10.0, 20.0], &[100.0, 110.0, 120.0, 130.0, 140.0]]);
    let mut assembler = PlateAssembler::new(configuration(5), &sphere);
    found(&mut assembler, &sphere, 0).unwrap();
    assert_eq!(assembler.claim(&sphere, 0), Ok(()));
    assert_eq!(assembler.claim(&sphere, 0), Ok(()));
    assert_eq!(assembler.claim(&sphere, 0), Err(AssemblyError::NoMergeTarget));
    assert_eq!(assembler.phase(), Phase::Failed);
    assert_eq!(tiles_of(&assembler.plates[0]), vec![0, 1, 2]);
}

#[test]
fn a_plate_without_quota_comes_to_nothing() {
    let sphere = paths(&[&[0.0, 10.0, 20.0, 30.0, 40.0, 50.0]]);
    let mut config = configuration(1);
    // every tile goes to major plates: 6 * 1 / 4 / 0.5 = 3, and nothing to minor ones
    config.major_tile_fraction = fraction(1, 1);
    config.plate_goal = 8;
    let mut assembler = PlateAssembler::new(config, &sphere);
    assert_eq!(assembler.major_tile_count, 3);
    assert_eq!(assembler.minor_tile_count, 0);
    found(&mut assembler, &sphere, 0).unwrap();
    for _ in 0..3 {
        assembler.claim(&sphere, 0).unwrap();
    }
    assert_eq!(assembler.phase(), Phase::Seeding);
    assert_eq!((assembler.generated_majors, assembler.generated_minors), (1, 0));
    // a minor plate is due, twice
    assert_eq!(found(&mut assembler, &sphere, 1), Ok(()));
    assert_eq!(assembler.phase(), Phase::Seeding);
    assert_eq!((assembler.generated_majors, assembler.generated_minors), (1, 1));
    assert_eq!(assembler.plates.len(), 1);
    assert_eq!(assembler.unclaimed_count(), 3);
    assert_eq!(assembler.frontier_count(), 0);
    assert_eq!(found(&mut assembler, &sphere, 2), Ok(()));
    assert_eq!(assembler.phase(), Phase::Seeding);
    assert_eq!((assembler.generated_majors, assembler.generated_minors), (1, 2));
    // now a major plate is due again
    assert_eq!(found(&mut assembler, &sphere, 0), Ok(()));
    assert_eq!(assembler.phase(), Phase::Growing);
    assert_eq!((assembler.generated_majors, assembler.generated_minors), (2, 2));
    assert_eq!(assembler.frontier, vec![3]);
    for _ in 0..3 {
        assembler.claim(&sphere, 0).unwrap();
    }
    assert_eq!(assembler.phase(), Phase::Done);
    assert_eq!(tiles_of(&assembler.plates[1]), vec![3, 4, 5]);
}

#[test]
fn assembly_stalls_where_no_plate_has_a_quota() {
    let sphere = paths(&[&[0.0, 10.0, 20.0]]);
    let mut config = configuration(1);
    config.plate_goal = 1000;
    let mut assembler = PlateAssembler::new(config, &sphere);
    assert_eq!(assembler.major_tile_count, 0);
    assert_eq!(assembler.minor_tile_count, 0);
    assert_eq!(found(&mut assembler, &sphere, 0), Err(AssemblyError::Stalled));
    assert_eq!(assembler.phase(), Phase::Failed);
    assert!(assembler.plates.is_empty());
    assert_eq!((assembler.generated_majors, assembler.generated_minors), (0, 0));
}

#[test]
fn assembly_stalls_where_only_minor_plates_follow_but_have_no_quota() {
    let sphere = paths(&[&[0.0, 10.0, 20.0, 30.0]]);
    let mut config = configuration(1);
    config.major_tile_fraction = fraction(1, 1);
    config.major_plate_fraction = fraction(0, 1);
    config.plate_goal = 4;
    // major plates may take any number of tiles, but the first stays the only one
    let mut assembler = PlateAssembler::new(config, &sphere);
    assert_eq!(assembler.major_tile_count, usize::MAX);
    assert_eq!(assembler.minor_tile_count, 0);
    found(&mut assembler, &sphere, 0).unwrap();
    assembler.claim(&sphere, 0).unwrap();
    assert_eq!(assembler.phase(), Phase::Growing);
    let mut whole = PlateAssembler::new(config, &sphere);
    found(&mut whole, &sphere, 2).unwrap();
    for _ in 0..4 {
        whole.claim(&sphere, 0).unwrap();
    }
    assert_eq!(whole.phase(), Phase::Done);
    // on two pieces the first plate cannot take it all
    let pieces = paths(&[&[0.0, 10.0], &[100.0, 110.0]]);
    let mut stuck = PlateAssembler::new(config, &pieces);
    found(&mut stuck, &pieces, 0).unwrap();
    stuck.claim(&pieces, 0).unwrap();
    stuck.claim(&pieces, 0).unwrap();
    assert_eq!(stuck.phase(), Phase::Seeding);
    assert_eq!(found(&mut stuck, &pieces, 0), Err(AssemblyError::Stalled));
    assert_eq!(stuck.phase(), Phase::Failed);
}
