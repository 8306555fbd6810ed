//! What assembly does, step by step, told over plain sequences.
//!
//! Assembly partitions the tiles of a sphere into plates by region growing.
//! It alternates between two kinds of step. *Founding* takes a seed from the
//! unclaimed tiles and decides the type and the quota of a new plate.
//! *Claiming* takes a tile from the frontier into the growing plate and puts
//! the unclaimed tiles next to it on the frontier. When the quota is used up
//! or the frontier is empty the plate *settles*: it stays if it is large
//! enough and is merged into the nearest plate otherwise, and the frontier
//! goes back to the unclaimed tiles.
//!
//! Every step is a function of the state before it and of one drawn number,
//! so a run of assembly is a function of the numbers drawn.

use vstd::prelude::*;
use crate::particle_sphere::ParticleSphere;
use crate::plate::{PlateType, PlateView, SAMPLE_GRID};
use crate::fraction::Fraction;
use crate::tectonics::TectonicsConfiguration;
use crate::tile_table::{
    count_unclaimed, discovered, nth_unclaimed, released, relocated, without, TileSlot,
};
use crate::vec_utils::{LatticeVec3, UNIT_SQUARED};

verus! {

#[derive(Clone, Copy, Debug, PartialEq, Eq, Structural)]
pub enum Phase {
    /// The next step founds a plate.
    Seeding,
    /// The next step claims a tile for the newest plate.
    Growing,
    /// Every tile has been claimed.
    Done,
    /// Assembly has failed and takes no further step.
    Failed,
}

/// The state of assembly.
pub struct AssemblyView {
    pub phase: Phase,
    /// Where each tile has been put.
    pub slots: Seq<TileSlot>,
    /// The tiles that the growing plate may claim next.
    pub frontier: Seq<usize>,
    /// The plates so far. While a plate grows it is the last of them.
    pub plates: Seq<PlateView>,
    /// How many tiles the growing plate may still claim.
    pub remaining: nat,
    /// How many major plates have been founded.
    pub majors: nat,
    /// How many minor plates have been founded.
    pub minors: nat,
}

/// The point masses of all the plates together.
pub open spec fn total_tiles(plates: Seq<PlateView>) -> nat
    decreases plates.len(),
{
    if plates.len() == 0 {
        0
    } else {
        total_tiles(plates.drop_last()) + plates.last().tiles.len()
    }
}

/// How far a plate with these tiles lies from `origin`: the least
/// separation of one of its tiles. A plate without tiles lies farther than
/// any that has one.
pub open spec fn plate_separation(
    sphere: ParticleSphere,
    tiles: Seq<usize>,
    origin: LatticeVec3,
) -> int
    decreases tiles.len(),
{
    if tiles.len() == 0 {
        2 * UNIT_SQUARED + 1
    } else {
        let earlier = plate_separation(sphere, tiles.drop_last(), origin);
        let newest = sphere.normal(tiles.last() as int).separation(origin);
        if newest < earlier {
            newest
        } else {
            earlier
        }
    }
}

/// The plate nearest to `origin`: the first of those at the least
/// separation.
pub open spec fn nearest_plate(
    sphere: ParticleSphere,
    plates: Seq<PlateView>,
    origin: LatticeVec3,
) -> int
    decreases plates.len(),
{
    if plates.len() <= 1 {
        0
    } else {
        let earlier = nearest_plate(sphere, plates.drop_last(), origin);
        if plate_separation(sphere, plates.last().tiles, origin) < plate_separation(
            sphere,
            plates[earlier].tiles,
            origin,
        ) {
            plates.len() - 1
        } else {
            earlier
        }
    }
}

/// The separation of a plate is that of one of its tiles, and no tile of the
/// plate is nearer.
pub proof fn lemma_plate_separation(sphere: ParticleSphere, tiles: Seq<usize>, origin: LatticeVec3)
    requires
        tiles.len() > 0,
    ensures
        exists|i: int|
            0 <= i < tiles.len() && plate_separation(sphere, tiles, origin) == sphere.normal(
                #[trigger] tiles[i] as int,
            ).separation(origin),
        forall|i: int|
            0 <= i < tiles.len() ==> plate_separation(sphere, tiles, origin) <= sphere.normal(
                #[trigger] tiles[i] as int,
            ).separation(origin),
    decreases tiles.len(),
{
    let shorter = tiles.drop_last();
    let last = tiles.len() - 1;
    if shorter.len() == 0 {
        assert(plate_separation(sphere, shorter, origin) == 2 * UNIT_SQUARED + 1);
        assert(plate_separation(sphere, tiles, origin) == sphere.normal(
            tiles[last] as int,
        ).separation(origin));
    } else {
        lemma_plate_separation(sphere, shorter, origin);
        assert forall|j: int| 0 <= j < tiles.len() implies plate_separation(sphere, tiles, origin)
            <= sphere.normal(#[trigger] tiles[j] as int).separation(origin) by {
            if j < last {
                assert(shorter[j] == tiles[j]);
            }
        }
    }
}

/// The nearest plate is one of the plates; none is nearer, and none before
/// it is as near.
pub proof fn lemma_nearest_plate(
    sphere: ParticleSphere,
    plates: Seq<PlateView>,
    origin: LatticeVec3,
)
    requires
        plates.len() > 0,
    ensures
        0 <= nearest_plate(sphere, plates, origin) < plates.len(),
        forall|p: int|
            0 <= p < plates.len() ==> plate_separation(
                sphere,
                plates[nearest_plate(sphere, plates, origin)].tiles,
                origin,
            ) <= plate_separation(sphere, (#[trigger] plates[p]).tiles, origin),
        forall|p: int|
            0 <= p < nearest_plate(sphere, plates, origin) ==> plate_separation(
                sphere,
                plates[nearest_plate(sphere, plates, origin)].tiles,
                origin,
            ) < plate_separation(sphere, (#[trigger] plates[p]).tiles, origin),
    decreases plates.len(),
{
    if plates.len() > 1 {
        let shorter = plates.drop_last();
        lemma_nearest_plate(sphere, shorter, origin);
        let best = nearest_plate(sphere, plates, origin);
        assert forall|p: int| 0 <= p < plates.len() implies plate_separation(
            sphere,
            plates[best].tiles,
            origin,
        ) <= plate_separation(sphere, (#[trigger] plates[p]).tiles, origin) by {
            if p < plates.len() - 1 {
                assert(shorter[p] == plates[p]);
            }
        }
        assert forall|p: int| 0 <= p < best implies plate_separation(
            sphere,
            plates[best].tiles,
            origin,
        ) < plate_separation(sphere, (#[trigger] plates[p]).tiles, origin) by {
            assert(shorter[p] == plates[p]);
        }
    }
}

/// Replacing one plate changes the count of point masses by the difference
/// between the two.
pub proof fn lemma_total_tiles_update(plates: Seq<PlateView>, at: int, plate: PlateView)
    requires
        0 <= at < plates.len(),
    ensures
        total_tiles(plates.update(at, plate)) + plates[at].tiles.len() == total_tiles(plates)
            + plate.tiles.len(),
    decreases plates.len(),
{
    if at == plates.len() - 1 {
        assert(plates.update(at, plate).drop_last() == plates.drop_last());
    } else {
        assert(plates.update(at, plate).drop_last() == plates.drop_last().update(at, plate));
        lemma_total_tiles_update(plates.drop_last(), at, plate);
    }
}

pub proof fn lemma_total_tiles_push(plates: Seq<PlateView>, plate: PlateView)
    ensures
        total_tiles(plates.push(plate)) == total_tiles(plates) + plate.tiles.len(),
{
    assert(plates.push(plate).drop_last() == plates);
}

/// Settling loses no point mass and makes none: whether the newest plate
/// stays or is merged into another, the plates hold as many point masses
/// after as before.
pub proof fn lemma_settling_keeps_point_masses(
    state: AssemblyView,
    sphere: ParticleSphere,
    config: TectonicsConfiguration,
)
    requires
        state.plates.len() > 0,
    ensures
        total_tiles(state.settled(sphere, config).plates) == total_tiles(state.plates),
{
    let newest = state.plates.last();
    if newest.tiles.len() < config.min_plate_size && state.plates.len() > 1 {
        let others = state.plates.drop_last();
        let target = nearest_plate(sphere, others, sphere.normal(newest.tiles[0] as int));
        lemma_nearest_plate(sphere, others, sphere.normal(newest.tiles[0] as int));
        lemma_total_tiles_update(others, target, others[target].absorbing(newest.tiles));
    }
}

/// The point masses of the continental plates together.
pub open spec fn continental_tiles(plates: Seq<PlateView>) -> nat
    decreases plates.len(),
{
    if plates.len() == 0 {
        0
    } else {
        continental_tiles(plates.drop_last()) + if plates.last().plate_type is Continental {
            plates.last().tiles.len()
        } else {
            0
        }
    }
}

/// No continental plate comes after an oceanic one.
pub open spec fn continental_first(plates: Seq<PlateView>) -> bool {
    forall|p: int, q: int|
        0 <= p < q < plates.len() && (#[trigger] plates[p]).plate_type is Oceanic ==> (
        #[trigger] plates[q]).plate_type is Oceanic
}

/// The types of the plates follow the continental rate: continental plates
/// come first, and there is an oceanic plate only where the continental
/// plates, with one more tile, hold their share of the `tile_count` tiles.
pub open spec fn types_balanced(plates: Seq<PlateView>, rate: Fraction, tile_count: nat) -> bool {
    &&& continental_first(plates)
    &&& plates.len() > 0 && plates.last().plate_type is Oceanic ==> !rate.exceeds(
        (continental_tiles(plates) + 1) as int,
        tile_count as int,
    )
}

pub proof fn lemma_continental_tiles_bound(plates: Seq<PlateView>)
    ensures
        continental_tiles(plates) <= total_tiles(plates),
        (forall|p: int| 0 <= p < plates.len() ==> (#[trigger] plates[p]).plate_type is Continental)
            ==> continental_tiles(plates) == total_tiles(plates),
    decreases plates.len(),
{
    if plates.len() > 0 {
        lemma_continental_tiles_bound(plates.drop_last());
    }
}

/// Replacing a plate by one of its type changes the count of continental
/// point masses by the difference between the two, if the type is continental.
pub proof fn lemma_continental_tiles_update(plates: Seq<PlateView>, at: int, plate: PlateView)
    requires
        0 <= at < plates.len(),
        plate.plate_type == plates[at].plate_type,
    ensures
        plate.plate_type is Continental ==> continental_tiles(plates.update(at, plate))
            + plates[at].tiles.len() == continental_tiles(plates) + plate.tiles.len(),
        plate.plate_type is Oceanic ==> continental_tiles(plates.update(at, plate))
            == continental_tiles(plates),
    decreases plates.len(),
{
    if at == plates.len() - 1 {
        assert(plates.update(at, plate).drop_last() == plates.drop_last());
    } else {
        assert(plates.update(at, plate).drop_last() == plates.drop_last().update(at, plate));
        lemma_continental_tiles_update(plates.drop_last(), at, plate);
    }
}

/// A share that a count has reached, a larger count has reached too.
pub proof fn lemma_share_reached(rate: Fraction, fewer: int, more: int, tile_count: int)
    requires
        fewer <= more,
        !rate.exceeds(fewer, tile_count),
    ensures
        !rate.exceeds(more, tile_count),
{
    let denominator = rate.denominator as int;
    assert(fewer * denominator <= more * denominator) by (nonlinear_arith)
        requires
            fewer <= more,
            denominator >= 0,
    ;
}

/// Founding keeps the types balanced: the new plate has the type that is due
/// when the plates hold `total_tiles(plates)` tiles and it takes one more.
pub proof fn lemma_founding_keeps_balance(
    plates: Seq<PlateView>,
    config: TectonicsConfiguration,
    tile_count: nat,
    plate: PlateView,
)
    requires
        types_balanced(plates, config.continental_rate, tile_count),
        plate.plate_type == config.plate_type_at(total_tiles(plates) + 1, tile_count),
        plate.tiles.len() == 0,
    ensures
        types_balanced(plates.push(plate), config.continental_rate, tile_count),
{
    let rate = config.continental_rate;
    let founded = plates.push(plate);
    assert(founded.drop_last() == plates);
    lemma_continental_tiles_bound(plates);
    if plates.len() > 0 && plates.last().plate_type is Oceanic {
        lemma_share_reached(
            rate,
            (continental_tiles(plates) + 1) as int,
            (total_tiles(plates) + 1) as int,
            tile_count as int,
        );
    }
}

/// Claiming keeps the types balanced.
pub proof fn lemma_claiming_keeps_balance(
    plates: Seq<PlateView>,
    rate: Fraction,
    tile_count: nat,
    tile: usize,
)
    requires
        plates.len() > 0,
        types_balanced(plates, rate, tile_count),
    ensures
        types_balanced(
            plates.update(plates.len() - 1, plates.last().with_tile(tile)),
            rate,
            tile_count,
        ),
{
    let newest = plates.len() - 1;
    lemma_continental_tiles_update(plates, newest, plates.last().with_tile(tile));
}

/// Merging keeps the types balanced: the newest plate leaves, and its tiles
/// join another plate.
pub proof fn lemma_merging_keeps_balance(
    plates: Seq<PlateView>,
    rate: Fraction,
    tile_count: nat,
    target: int,
)
    requires
        plates.len() >= 2,
        0 <= target < plates.len() - 1,
        types_balanced(plates, rate, tile_count),
    ensures
        types_balanced(
            plates.drop_last().update(
                target,
                plates.drop_last()[target].absorbing(plates.last().tiles),
            ),
            rate,
            tile_count,
        ),
{
    let others = plates.drop_last();
    let host = others[target].absorbing(plates.last().tiles);
    let merged = others.update(target, host);
    lemma_continental_tiles_update(others, target, host);
    if merged.len() > 0 && merged.last().plate_type is Oceanic {
        lemma_share_reached(
            rate,
            (continental_tiles(plates) + 1) as int,
            (continental_tiles(merged) + 1) as int,
            tile_count as int,
        );
    }
}

impl AssemblyView {
    /// Assembly before its first step: every tile is unclaimed.
    pub open spec fn initial(tile_count: nat) -> AssemblyView {
        AssemblyView {
            phase: if tile_count == 0 {
                Phase::Done
            } else {
                Phase::Seeding
            },
            slots: Seq::new(tile_count, |tile: int| TileSlot::Unclaimed),
            frontier: Seq::empty(),
            plates: Seq::empty(),
            remaining: 0,
            majors: 0,
            minors: 0,
        }
    }

    pub open spec fn tile_count(self) -> nat {
        self.slots.len()
    }

    /// How many tiles are unclaimed.
    pub open spec fn pool(self) -> nat {
        count_unclaimed(self.slots)
    }

    /// How many tiles have left the unclaimed ones: those that plates hold,
    /// and those on the frontier.
    pub open spec fn taken(self) -> nat {
        (self.tile_count() - self.pool()) as nat
    }

    /// The tiles that the plate due next may take.
    pub open spec fn due_quota(self, config: TectonicsConfiguration) -> nat {
        if config.minor_is_due(self.majors, self.minors) {
            config.minor_quota(self.tile_count())
        } else {
            config.major_quota(self.tile_count())
        }
    }

    /// The type of the plate due next. Its seed counts among the tiles taken.
    pub open spec fn due_type(self, config: TectonicsConfiguration) -> PlateType {
        config.plate_type_at(self.taken() + 1, self.tile_count())
    }

    /// The state with the plate due next counted among those founded.
    pub open spec fn counted(self, config: TectonicsConfiguration) -> AssemblyView {
        if config.minor_is_due(self.majors, self.minors) {
            AssemblyView { minors: self.minors + 1, ..self }
        } else {
            AssemblyView { majors: self.majors + 1, ..self }
        }
    }

    /// Founding: the plate due next is counted, and if its quota is not zero
    /// it joins the plates without tiles, with the unclaimed tile of rank
    /// `pick` as the one tile on its frontier. A plate with a quota of zero
    /// comes to nothing and its seed stays unclaimed. Where founding could
    /// never again lead to a claimed tile, assembly fails instead.
    pub open spec fn founded(
        self,
        config: TectonicsConfiguration,
        pick: nat,
        plate: PlateView,
    ) -> AssemblyView {
        if config.stalls(self.tile_count(), self.majors, self.minors) {
            AssemblyView { phase: Phase::Failed, ..self }
        } else if self.due_quota(config) == 0 {
            self.counted(config)
        } else {
            let seed = nth_unclaimed(self.slots, pick);
            AssemblyView {
                phase: Phase::Growing,
                slots: self.slots.update(seed, TileSlot::Frontier),
                frontier: seq![seed as usize],
                plates: self.plates.push(plate),
                remaining: self.due_quota(config),
                ..self.counted(config)
            }
        }
    }

    /// Claiming: the tile at `pick` leaves the frontier, the last tile of the
    /// frontier taking its place, and becomes the newest mass of the newest
    /// plate. The unclaimed tiles next to it join the frontier.
    pub open spec fn grown(self, sphere: ParticleSphere, pick: int) -> AssemblyView {
        let tile = self.frontier[pick];
        let newest = self.plates.len() - 1;
        let slots = self.slots.update(
            tile as int,
            TileSlot::Claimed {
                plate: newest as usize,
                mass: self.plates[newest].tiles.len() as usize,
            },
        );
        let frontier = without(self.frontier, pick);
        let (slots, frontier) = discovered(slots, frontier, sphere.adjacency(tile as int));
        AssemblyView {
            slots,
            frontier,
            plates: self.plates.update(newest, self.plates[newest].with_tile(tile)),
            remaining: (self.remaining - 1) as nat,
            ..self
        }
    }

    /// The state at rest between two plates: the frontier has gone back to the
    /// unclaimed tiles, and assembly is done if there are none.
    pub open spec fn rested(self, plates: Seq<PlateView>, slots: Seq<TileSlot>) -> AssemblyView {
        AssemblyView {
            phase: if count_unclaimed(released(slots)) == 0 {
                Phase::Done
            } else {
                Phase::Seeding
            },
            slots: released(slots),
            frontier: Seq::empty(),
            plates,
            remaining: 0,
            ..self
        }
    }

    /// Settling: the newest plate stays if it has `min_plate_size` masses.
    /// Otherwise its tiles join, in their order, the plate nearest to its
    /// first tile, and it leaves the plates. If there is no other plate,
    /// assembly fails.
    pub open spec fn settled(
        self,
        sphere: ParticleSphere,
        config: TectonicsConfiguration,
    ) -> AssemblyView {
        let newest = self.plates.last();
        if newest.tiles.len() >= config.min_plate_size {
            self.rested(self.plates, self.slots)
        } else if self.plates.len() == 1 {
            AssemblyView { phase: Phase::Failed, ..self }
        } else {
            let others = self.plates.drop_last();
            let target = nearest_plate(sphere, others, sphere.normal(newest.tiles[0] as int));
            self.rested(
                others.update(target, others[target].absorbing(newest.tiles)),
                relocated(
                    self.slots,
                    others.len() as usize,
                    target as usize,
                    others[target].tiles.len() as int,
                ),
            )
        }
    }

    /// One claiming step, with the settling that follows it when the quota
    /// is used up or the frontier is empty.
    pub open spec fn claimed(
        self,
        sphere: ParticleSphere,
        config: TectonicsConfiguration,
        pick: int,
    ) -> AssemblyView {
        let grown = self.grown(sphere, pick);
        if grown.remaining == 0 || grown.frontier.len() == 0 {
            grown.settled(sphere, config)
        } else {
            grown
        }
    }
}

/// A number handed to assembly, with the step that it is for.
pub enum Draw {
    /// Found a plate: `pick` chooses the seed, `plate` is the plate as it was
    /// sampled.
    Found { pick: nat, plate: PlateView },
    /// Claim the tile at `pick` of the frontier.
    Claim { pick: nat },
}

/// The plate is one that six draws below the sample grid describe.
pub open spec fn is_sample(plate: PlateView, plate_type: PlateType) -> bool {
    exists|draws: Seq<usize>|
        {
            &&& draws.len() == 6
            &&& forall|i: int| 0 <= i < 6 ==> draws[i] < SAMPLE_GRID
            &&& plate == #[trigger] PlateView::sampled(plate_type, draws)
        }
}

impl AssemblyView {
    /// The state can take the draw: it is for the step that is due, and it
    /// lies in the range that the step allows.
    pub open spec fn admits(self, config: TectonicsConfiguration, draw: Draw) -> bool {
        match draw {
            Draw::Found { pick, plate } => {
                &&& self.phase is Seeding
                &&& pick < self.pool()
                &&& is_sample(plate, self.due_type(config))
            },
            Draw::Claim { pick } => self.phase is Growing && pick < self.frontier.len(),
        }
    }

    /// The state after the draw has been taken.
    pub open spec fn step(
        self,
        sphere: ParticleSphere,
        config: TectonicsConfiguration,
        draw: Draw,
    ) -> AssemblyView {
        match draw {
            Draw::Found { pick, plate } => self.founded(config, pick, plate),
            Draw::Claim { pick } => self.claimed(sphere, config, pick as int),
        }
    }

    /// The state after the draws have been taken one after the other.
    pub open spec fn run(
        self,
        sphere: ParticleSphere,
        config: TectonicsConfiguration,
        draws: Seq<Draw>,
    ) -> AssemblyView
        decreases draws.len(),
    {
        if draws.len() == 0 {
            self
        } else {
            self.run(sphere, config, draws.drop_last()).step(sphere, config, draws.last())
        }
    }

    /// Every one of the draws can be taken when its turn comes.
    pub open spec fn follows(
        self,
        sphere: ParticleSphere,
        config: TectonicsConfiguration,
        draws: Seq<Draw>,
    ) -> bool
        decreases draws.len(),
    {
        draws.len() > 0 ==> {
            &&& self.follows(sphere, config, draws.drop_last())
            &&& self.run(sphere, config, draws.drop_last()).admits(config, draws.last())
        }
    }
}

/// The state that assembly on `sphere` reaches from its start on the draws.
pub open spec fn assembly_on(
    sphere: ParticleSphere,
    config: TectonicsConfiguration,
    draws: Seq<Draw>,
) -> AssemblyView {
    AssemblyView::initial(sphere.tile_count()).run(sphere, config, draws)
}

/// Assembly on `sphere` can take every one of the draws from its start.
pub open spec fn assembly_takes(
    sphere: ParticleSphere,
    config: TectonicsConfiguration,
    draws: Seq<Draw>,
) -> bool {
    AssemblyView::initial(sphere.tile_count()).follows(sphere, config, draws)
}

} // verus!
