use suz_sim::tile_table::{discover, find_unclaimed, release, TileSlot};

fn claimed(plate: usize, mass: usize) -> TileSlot {
    TileSlot::Claimed { plate, mass }
}

#[test]
fn unclaimed_tiles_are_found_by_rank() {
    let slots = vec![
        TileSlot::Frontier,
        TileSlot::Unclaimed,
        claimed(0, 0),
        TileSlot::Unclaimed,
        TileSlot::Unclaimed,
    ];
    assert_eq!(find_unclaimed(&slots, 0), 1);
    assert_eq!(find_unclaimed(&slots, 1), 3);
    assert_eq!(find_unclaimed(&slots, 2), 4);
}

#[test]
fn rank_is_the_tile_where_all_are_unclaimed() {
    let slots = vec![TileSlot::Unclaimed; 9];
    for rank in 0..9 {
        assert_eq!(find_unclaimed(&slots, rank), rank);
    }
}

#[test]
fn discovery_puts_unclaimed_neighbours_on_the_frontier() {
    let mut slots = vec![
        TileSlot::Unclaimed,
        claimed(0, 0),
        TileSlot::Frontier,
        TileSlot::Unclaimed,
        TileSlot::Unclaimed,
    ];
    let mut frontier = vec![2];
    let mut pool = 3;
    discover(&mut slots, &mut frontier, &mut pool, &vec![3, 1, 2, 0, 3]);
    assert_eq!(frontier, vec![2, 3, 0]);
    assert_eq!(pool, 1);
    assert_eq!(
        slots,
        vec![
            TileSlot::Frontier,
            claimed(0, 0),
            TileSlot::Frontier,
            TileSlot::Frontier,
            TileSlot::Unclaimed,
        ]
    );
}

#[test]
fn discovery_of_nothing_changes_nothing() {
    let mut slots = vec![TileSlot::Unclaimed, claimed(2, 5)];
    let mut frontier = Vec::new();
    let mut pool = 1;
    discover(&mut slots, &mut frontier, &mut pool, &Vec::new());
    assert_eq!(slots, vec![TileSlot::Unclaimed, claimed(2, 5)]);
    assert!(frontier.is_empty());
    assert_eq!(pool, 1);
    discover(&mut slots, &mut frontier, &mut pool, &vec![1, 1]);
    assert_eq!(slots, vec![TileSlot::Unclaimed, claimed(2, 5)]);
    assert!(frontier.is_empty());
    assert_eq!(pool, 1);
}

#[test]
fn release_hands_the_frontier_back() {
    let mut slots = vec![
        TileSlot::Frontier,
        claimed(0, 0),
        TileSlot::Frontier,
        TileSlot::Unclaimed,
    ];
    let mut frontier = vec![2, 0];
    let mut pool = 1;
    release(&mut slots, &mut frontier, &mut pool);
    assert!(frontier.is_empty());
    assert_eq!(pool, 3);
    assert_eq!(
        slots,
        vec![TileSlot::Unclaimed, claimed(0, 0), TileSlot::Unclaimed, TileSlot::Unclaimed]
    );
}

#[test]
fn release_of_an_empty_frontier() {
    let mut slots = vec![claimed(1, 0), TileSlot::Unclaimed];
    let mut frontier = Vec::new();
    let mut pool = 1;
    release(&mut slots, &mut frontier, &mut pool);
    assert_eq!(slots, vec![claimed(1, 0), TileSlot::Unclaimed]);
    assert_eq!(pool, 1);
}
