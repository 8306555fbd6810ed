//! The table that records, for every tile, where assembly has put it.
//!
//! A tile is unclaimed, waits on the frontier of the plate that is growing,
//! or has been claimed as a point mass of a plate. The table is an index from
//! tiles to masses; it lives only as long as assembly does.

use vstd::prelude::*;

verus! {

#[derive(Clone, Copy, Debug, PartialEq, Eq, Structural)]
pub enum TileSlot {
    /// No plate has the tile, and it is not on the frontier.
    Unclaimed,
    /// The tile waits on the frontier.
    Frontier,
    /// The tile is the point mass `mass` of the plate `plate`.
    Claimed { plate: usize, mass: usize },
}

/// How many tiles of the table are unclaimed.
pub open spec fn count_unclaimed(slots: Seq<TileSlot>) -> nat
    decreases slots.len(),
{
    if slots.len() == 0 {
        0
    } else {
        count_unclaimed(slots.drop_last()) + if slots.last() is Unclaimed {
            1nat
        } else {
            0nat
        }
    }
}

/// The unclaimed tile that has exactly `rank` unclaimed tiles before it.
/// Meant for `rank < count_unclaimed(slots)`.
pub open spec fn nth_unclaimed(slots: Seq<TileSlot>, rank: nat) -> int
    decreases slots.len(),
{
    if slots.len() == 0 {
        0
    } else if rank < count_unclaimed(slots.drop_last()) {
        nth_unclaimed(slots.drop_last(), rank)
    } else {
        slots.len() - 1
    }
}

/// The table with every tile of the frontier handed back.
pub open spec fn released(slots: Seq<TileSlot>) -> Seq<TileSlot> {
    Seq::new(
        slots.len(),
        |tile: int|
            if slots[tile] is Frontier {
                TileSlot::Unclaimed
            } else {
                slots[tile]
            },
    )
}

/// The table after the masses of plate `from` have moved to plate `to`, where
/// they follow the `base` masses that `to` had.
pub open spec fn relocated(slots: Seq<TileSlot>, from: usize, to: usize, base: int) -> Seq<
    TileSlot,
> {
    Seq::new(
        slots.len(),
        |tile: int|
            match slots[tile] {
                TileSlot::Claimed { plate, mass } if plate == from => TileSlot::Claimed {
                    plate: to,
                    mass: (base + mass) as usize,
                },
                slot => slot,
            },
    )
}

pub proof fn lemma_count_unclaimed_bound(slots: Seq<TileSlot>)
    ensures
        count_unclaimed(slots) <= slots.len(),
    decreases slots.len(),
{
    if slots.len() > 0 {
        lemma_count_unclaimed_bound(slots.drop_last());
    }
}

/// Changing one slot changes the count by what that slot contributes.
pub proof fn lemma_count_unclaimed_update(slots: Seq<TileSlot>, tile: int, slot: TileSlot)
    requires
        0 <= tile < slots.len(),
    ensures
        count_unclaimed(slots.update(tile, slot)) + (if slots[tile] is Unclaimed {
            1nat
        } else {
            0nat
        }) == count_unclaimed(slots) + (if slot is Unclaimed {
            1nat
        } else {
            0nat
        }),
    decreases slots.len(),
{
    let after = slots.update(tile, slot);
    if tile == slots.len() - 1 {
        assert(after.drop_last() == slots.drop_last());
    } else {
        assert(after.drop_last() == slots.drop_last().update(tile, slot));
        lemma_count_unclaimed_update(slots.drop_last(), tile, slot);
    }
}

/// A table without unclaimed tiles counts none, and the other way round.
pub proof fn lemma_count_unclaimed_zero(slots: Seq<TileSlot>)
    ensures
        count_unclaimed(slots) == 0 <==> forall|tile: int|
            0 <= tile < slots.len() ==> !(#[trigger] slots[tile] is Unclaimed),
    decreases slots.len(),
{
    if slots.len() > 0 {
        lemma_count_unclaimed_zero(slots.drop_last());
        if count_unclaimed(slots) == 0 {
            assert forall|tile: int| 0 <= tile < slots.len() implies !(#[trigger] slots[tile]
                is Unclaimed) by {
                if tile < slots.len() - 1 {
                    assert(slots.drop_last()[tile] == slots[tile]);
                }
            }
        } else {
            if count_unclaimed(slots.drop_last()) != 0 {
                let tile = choose|tile: int|
                    0 <= tile < slots.drop_last().len() && #[trigger] slots.drop_last()[tile]
                        is Unclaimed;
            }
        }
    }
}

/// The prefix of a table up to a tile counts one more when the tile is
/// unclaimed.
pub proof fn lemma_count_unclaimed_take(slots: Seq<TileSlot>, tile: int)
    requires
        0 <= tile < slots.len(),
    ensures
        count_unclaimed(slots.take(tile + 1)) == count_unclaimed(slots.take(tile)) + (if slots[tile]
            is Unclaimed {
            1nat
        } else {
            0nat
        }),
{
    assert(slots.take(tile + 1).drop_last() == slots.take(tile));
}

/// What [`nth_unclaimed`] names: the tile is unclaimed, and `rank` unclaimed
/// tiles come before it.
pub proof fn lemma_nth_unclaimed(slots: Seq<TileSlot>, rank: nat)
    requires
        rank < count_unclaimed(slots),
    ensures
        0 <= nth_unclaimed(slots, rank) < slots.len(),
        slots[nth_unclaimed(slots, rank)] is Unclaimed,
        count_unclaimed(slots.take(nth_unclaimed(slots, rank))) == rank,
    decreases slots.len(),
{
    if slots.len() > 0 {
        let shorter = slots.drop_last();
        if rank < count_unclaimed(shorter) {
            lemma_nth_unclaimed(shorter, rank);
            let tile = nth_unclaimed(shorter, rank);
            assert(shorter.take(tile) == slots.take(tile));
        }
    }
}

/// Only one tile is unclaimed with `rank` unclaimed tiles before it.
pub proof fn lemma_nth_unclaimed_unique(slots: Seq<TileSlot>, rank: nat, tile: int)
    requires
        0 <= tile < slots.len(),
        slots[tile] is Unclaimed,
        count_unclaimed(slots.take(tile)) == rank,
    ensures
        rank < count_unclaimed(slots),
        nth_unclaimed(slots, rank) == tile,
    decreases slots.len(),
{
    let shorter = slots.drop_last();
    if tile != slots.len() - 1 {
        assert(shorter.take(tile) == slots.take(tile));
        lemma_nth_unclaimed_unique(shorter, rank, tile);
    }
}

/// Finds [`nth_unclaimed`] by a scan from the first tile.
pub fn find_unclaimed(slots: &Vec<TileSlot>, rank: usize) -> (tile: usize)
    requires
        rank < count_unclaimed(slots@),
    ensures
        tile == nth_unclaimed(slots@, rank as nat),
        tile < slots@.len(),
        slots@[tile as int] is Unclaimed,
{
    let count = slots.len();
    let mut tile: usize = 0;
    let mut passed: usize = 0;
    proof {
        lemma_nth_unclaimed(slots@, rank as nat);
    }
    loop
        invariant
            count == slots@.len(),
            rank < count_unclaimed(slots@),
            tile <= nth_unclaimed(slots@, rank as nat) < slots@.len(),
            passed == count_unclaimed(slots@.take(tile as int)),
            passed <= rank,
            slots@[nth_unclaimed(slots@, rank as nat)] is Unclaimed,
            count_unclaimed(slots@.take(nth_unclaimed(slots@, rank as nat))) == rank,
        decreases slots@.len() - tile,
    {
        proof {
            lemma_count_unclaimed_take(slots@, tile as int);
        }
        let free = match slots[tile] {
            TileSlot::Unclaimed => true,
            _ => false,
        };
        if free {
            if passed == rank {
                proof {
                    lemma_nth_unclaimed_unique(slots@, rank as nat, tile as int);
                }
                return tile;
            }
            passed = passed + 1;
        }
        tile = tile + 1;
    }
}

/// The frontier lists the tiles that the table has on it, each once, and no
/// others.
pub open spec fn frontier_listed(slots: Seq<TileSlot>, frontier: Seq<usize>) -> bool {
    &&& frontier.no_duplicates()
    &&& forall|k: int|
        0 <= k < frontier.len() ==> (#[trigger] frontier[k]) < slots.len()
            && slots[frontier[k] as int] is Frontier
    &&& forall|tile: int|
        0 <= tile < slots.len() && (#[trigger] slots[tile]) is Frontier ==> frontier.contains(
            tile as usize,
        )
}

/// The two tables claim the same tiles as the same masses.
pub open spec fn same_claims(before: Seq<TileSlot>, after: Seq<TileSlot>) -> bool {
    &&& before.len() == after.len()
    &&& forall|tile: int|
        #![trigger before[tile]]
        #![trigger after[tile]]
        0 <= tile < before.len() ==> (before[tile] is Claimed || after[tile] is Claimed)
            ==> before[tile] == after[tile]
}

/// The table and the frontier after the unclaimed tiles among `adjacent`
/// have been put on the frontier, each once, in the order of `adjacent`.
pub open spec fn discovered(slots: Seq<TileSlot>, frontier: Seq<usize>, adjacent: Seq<usize>) -> (
    Seq<TileSlot>,
    Seq<usize>,
)
    decreases adjacent.len(),
{
    if adjacent.len() == 0 {
        (slots, frontier)
    } else {
        let (earlier_slots, earlier_frontier) = discovered(slots, frontier, adjacent.drop_last());
        let tile = adjacent.last();
        if earlier_slots[tile as int] is Unclaimed {
            (earlier_slots.update(tile as int, TileSlot::Frontier), earlier_frontier.push(tile))
        } else {
            (earlier_slots, earlier_frontier)
        }
    }
}

/// Puts the unclaimed tiles among `adjacent` on the frontier.
pub fn discover(
    slots: &mut Vec<TileSlot>,
    frontier: &mut Vec<usize>,
    pool: &mut usize,
    adjacent: &Vec<usize>,
)
    requires
        frontier_listed(old(slots)@, old(frontier)@),
        *old(pool) == count_unclaimed(old(slots)@),
        forall|k: int| 0 <= k < adjacent@.len() ==> (#[trigger] adjacent@[k]) < old(slots)@.len(),
    ensures
        (final(slots)@, final(frontier)@) == discovered(old(slots)@, old(frontier)@, adjacent@),
        frontier_listed(final(slots)@, final(frontier)@),
        *final(pool) == count_unclaimed(final(slots)@),
        same_claims(old(slots)@, final(slots)@),
        *final(pool) + final(frontier)@.len() == *old(pool) + old(frontier)@.len(),
        forall|k: int|
            0 <= k < adjacent@.len() ==> !(final(slots)@[(#[trigger] adjacent@[k]) as int]
                is Unclaimed),
        forall|tile: int|
            0 <= tile < old(slots)@.len() && !(old(slots)@[tile] is Unclaimed) ==> !((
            #[trigger] final(slots)@[tile]) is Unclaimed),
{
    let mut k: usize = 0;
    while k < adjacent.len()
        invariant
            k <= adjacent@.len(),
            slots@.len() == old(slots)@.len(),
            forall|j: int| 0 <= j < adjacent@.len() ==> (#[trigger] adjacent@[j]) < slots@.len(),
            (slots@, frontier@) == discovered(
                old(slots)@,
                old(frontier)@,
                adjacent@.take(k as int),
            ),
            frontier_listed(slots@, frontier@),
            *pool == count_unclaimed(slots@),
            same_claims(old(slots)@, slots@),
            *pool + frontier@.len() == *old(pool) + old(frontier)@.len(),
            forall|j: int|
                0 <= j < k ==> !(slots@[(#[trigger] adjacent@[j]) as int] is Unclaimed),
            forall|tile: int|
                0 <= tile < old(slots)@.len() && !(old(slots)@[tile] is Unclaimed) ==> !((
                #[trigger] slots@[tile]) is Unclaimed),
        decreases adjacent@.len() - k,
    {
        let tile = adjacent[k];
        proof {
            assert(adjacent@.take(k + 1).drop_last() == adjacent@.take(k as int));
            lemma_count_unclaimed_update(slots@, tile as int, TileSlot::Frontier);
        }
        let free = match slots[tile] {
            TileSlot::Unclaimed => true,
            _ => false,
        };
        if free {
            let ghost listed = frontier@;
            slots[tile] = TileSlot::Frontier;
            frontier.push(tile);
            *pool = *pool - 1;
            assert(frontier_listed(slots@, frontier@)) by {
                assert forall|t: int|
                    0 <= t < slots@.len() && (#[trigger] slots@[t]) is Frontier implies frontier@.contains(
                    t as usize,
                ) by {
                    if t == tile {
                        assert(frontier@[listed.len() as int] == tile);
                    } else {
                        let at = choose|at: int| 0 <= at < listed.len() && listed[at] == t as usize;
                        assert(frontier@[at] == t as usize);
                    }
                }
            }
        }
        k = k + 1;
    }
    assert(adjacent@.take(k as int) == adjacent@);
}

/// Hands every tile of the frontier back to the unclaimed ones.
pub fn release(slots: &mut Vec<TileSlot>, frontier: &mut Vec<usize>, pool: &mut usize)
    requires
        frontier_listed(old(slots)@, old(frontier)@),
        *old(pool) == count_unclaimed(old(slots)@),
    ensures
        final(slots)@ == released(old(slots)@),
        final(frontier)@.len() == 0,
        frontier_listed(final(slots)@, final(frontier)@),
        *final(pool) == count_unclaimed(final(slots)@),
        *final(pool) == *old(pool) + old(frontier)@.len(),
        same_claims(old(slots)@, final(slots)@),
{
    let count = slots.len();
    let mut k: usize = 0;
    while k < frontier.len()
        invariant
            count == slots@.len(),
            k <= frontier@.len(),
            frontier@ == old(frontier)@,
            frontier_listed(old(slots)@, frontier@),
            slots@.len() == old(slots)@.len(),
            forall|tile: int|
                0 <= tile < slots@.len() ==> #[trigger] slots@[tile] == (if old(slots)@[tile]
                    is Frontier && frontier@.take(k as int).contains(tile as usize) {
                    TileSlot::Unclaimed
                } else {
                    old(slots)@[tile]
                }),
            *pool == count_unclaimed(slots@),
            *pool == *old(pool) + k,
        decreases frontier@.len() - k,
    {
        let tile = frontier[k];
        let ghost before = slots@;
        proof {
            lemma_count_unclaimed_update(slots@, tile as int, TileSlot::Unclaimed);
            lemma_count_unclaimed_bound(slots@.update(tile as int, TileSlot::Unclaimed));
        }
        slots[tile] = TileSlot::Unclaimed;
        *pool = *pool + 1;
        proof {
            let shorter = frontier@.take(k as int);
            let longer = frontier@.take(k + 1);
            assert forall|t: int| 0 <= t < slots@.len() implies #[trigger] slots@[t] == (if old(
                slots,
            )@[t] is Frontier && longer.contains(t as usize) {
                TileSlot::Unclaimed
            } else {
                old(slots)@[t]
            }) by {
                if t == tile {
                    assert(longer[k as int] == tile);
                } else {
                    if shorter.contains(t as usize) {
                        let at = choose|at: int|
                            0 <= at < shorter.len() && #[trigger] shorter[at] == t as usize;
                    }
                    if longer.contains(t as usize) {
                        let at = choose|at: int|
                            0 <= at < longer.len() && #[trigger] longer[at] == t as usize;
                    }
                }
            }
        }
        k = k + 1;
    }
    proof {
        assert(frontier@.take(k as int) == frontier@);
    }
    frontier.clear();
}

/// The frontier with the tile at `pick` taken out: the last tile takes its
/// place.
pub open spec fn without(frontier: Seq<usize>, pick: int) -> Seq<usize> {
    frontier.update(pick, frontier.last()).drop_last()
}

/// A tile that leaves the frontier for a plate leaves the rest of the frontier
/// as it was listed.
pub proof fn lemma_frontier_after_claim(
    slots: Seq<TileSlot>,
    frontier: Seq<usize>,
    pick: int,
    slot: TileSlot,
)
    requires
        frontier_listed(slots, frontier),
        0 <= pick < frontier.len(),
        slot is Claimed,
        slots.len() <= usize::MAX,
    ensures
        frontier_listed(slots.update(frontier[pick] as int, slot), without(frontier, pick)),
{
    let after = slots.update(frontier[pick] as int, slot);
    let rest = without(frontier, pick);
    let last = frontier.len() - 1;
    assert forall|tile: int|
        0 <= tile < after.len() && (#[trigger] after[tile]) is Frontier implies rest.contains(
        tile as usize,
    ) by {
        let at = choose|at: int| 0 <= at < frontier.len() && frontier[at] == tile as usize;
        if at == last {
            assert(rest[pick] == tile as usize);
        } else {
            assert(rest[at] == tile as usize);
        }
    }
}


/// Two tables with the same unclaimed tiles count the same.
pub proof fn lemma_count_unclaimed_same(before: Seq<TileSlot>, after: Seq<TileSlot>)
    requires
        before.len() == after.len(),
        forall|tile: int|
            0 <= tile < before.len() ==> ((#[trigger] before[tile]) is Unclaimed <==> after[tile]
                is Unclaimed),
    ensures
        count_unclaimed(before) == count_unclaimed(after),
    decreases before.len(),
{
    if before.len() > 0 {
        lemma_count_unclaimed_same(before.drop_last(), after.drop_last());
    }
}

} // verus!
