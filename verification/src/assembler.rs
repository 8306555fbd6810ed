//! The assembler: the tiles of a sphere, partitioned into plates step by
//! step.
//!
//! The assembler draws nothing itself. Whoever drives it hands it the number
//! that each step needs, so that the same numbers give the same plates.

use vstd::prelude::*;
use crate::assembly::{
    lemma_claiming_keeps_balance, lemma_founding_keeps_balance, lemma_merging_keeps_balance,
    lemma_total_tiles_push, lemma_total_tiles_update, nearest_plate, plate_separation,
    total_tiles, types_balanced, AssemblyView, Phase,
};
use crate::connectivity::closed;
use crate::particle_sphere::ParticleSphere;
use crate::plate::{Plate, PlateType, PlateView};
use crate::tectonics::{Tectonics, TectonicsConfiguration};
use crate::tile_table::{
    count_unclaimed, discover, find_unclaimed, frontier_listed, lemma_count_unclaimed_update,
    lemma_frontier_after_claim, release, relocated, without, TileSlot,
};
use crate::vec_utils::{LatticeVec3, UNIT_SQUARED};

verus! {

/// Why assembly failed.
#[derive(Clone, Copy, Debug, PartialEq, Eq, Structural)]
pub enum AssemblyError {
    /// A plate came out smaller than the least plate size while there was no
    /// other plate to merge it into.
    NoMergeTarget,
    /// Tiles are left, but no plate that could still be founded has a quota
    /// to claim one.
    Stalled,
}

pub struct PlateAssembler {
    pub config: TectonicsConfiguration,
    pub phase: Phase,
    /// Where each tile has been put.
    pub slots: Vec<TileSlot>,
    /// How many tiles are unclaimed.
    pub pool: usize,
    /// The tiles that the growing plate may claim next.
    pub frontier: Vec<usize>,
    /// The plates so far. While a plate grows it is the last of them.
    pub plates: Vec<Plate>,
    /// How many tiles the growing plate may still claim.
    pub remaining: usize,
    /// The tiles that a major plate may take.
    pub major_tile_count: usize,
    /// The tiles that a minor plate may take.
    pub minor_tile_count: usize,
    pub generated_majors: u64,
    pub generated_minors: u64,
}

/// The plates without their networks.
pub open spec fn plate_views(plates: Seq<Plate>) -> Seq<PlateView> {
    Seq::new(plates.len(), |p: int| plates[p]@)
}

impl View for PlateAssembler {
    type V = AssemblyView;

    open spec fn view(&self) -> AssemblyView {
        AssemblyView {
            phase: self.phase,
            slots: self.slots@,
            frontier: self.frontier@,
            plates: plate_views(self.plates@),
            remaining: self.remaining as nat,
            majors: self.generated_majors as nat,
            minors: self.generated_minors as nat,
        }
    }
}

/// Computes [`plate_separation`] by a scan over the masses of the plate.
pub fn separation_of_plate(plate: &Plate, sphere: &ParticleSphere, origin: &LatticeVec3) -> (r: u64)
    requires
        sphere.valid(),
        plate.assembled_on(*sphere),
        origin.bounded(),
    ensures
        r == plate_separation(*sphere, plate.tiles(), *origin),
{
    let mut least: u64 = 2 * (UNIT_SQUARED as u64) + 1;
    let mut i: usize = 0;
    while i < plate.shape.point_masses.len()
        invariant
            sphere.valid(),
            plate.assembled_on(*sphere),
            origin.bounded(),
            i <= plate.tiles().len(),
            least == plate_separation(*sphere, plate.tiles().take(i as int), *origin),
        decreases plate.tiles().len() - i,
    {
        let point_mass = &plate.shape.point_masses[i];
        proof {
            assert(sphere.tile_valid(point_mass.tile as int));
            assert(plate.tiles().take(i + 1).drop_last() == plate.tiles().take(i as int));
        }
        let separation = point_mass.position.separation_from(origin);
        if separation < least {
            least = separation;
        }
        i = i + 1;
    }
    assert(plate.tiles().take(i as int) == plate.tiles());
    least
}

/// Computes [`nearest_plate`] by a scan over the plates.
pub fn find_nearest_plate(
    plates: &Vec<Plate>,
    sphere: &ParticleSphere,
    origin: &LatticeVec3,
) -> (r: usize)
    requires
        sphere.valid(),
        origin.bounded(),
        plates@.len() > 0,
        forall|p: int| 0 <= p < plates@.len() ==> (#[trigger] plates@[p]).assembled_on(*sphere),
    ensures
        r == nearest_plate(*sphere, plate_views(plates@), *origin),
        r < plates@.len(),
{
    let ghost views = plate_views(plates@);
    let mut nearest: usize = 0;
    let mut least = separation_of_plate(&plates[0], sphere, origin);
    let mut p: usize = 1;
    while p < plates.len()
        invariant
            sphere.valid(),
            origin.bounded(),
            views == plate_views(plates@),
            forall|q: int| 0 <= q < plates@.len() ==> (#[trigger] plates@[q]).assembled_on(*sphere),
            1 <= p <= plates@.len(),
            nearest < p,
            nearest == nearest_plate(*sphere, views.take(p as int), *origin),
            least == plate_separation(*sphere, views[nearest as int].tiles, *origin),
        decreases plates@.len() - p,
    {
        let separation = separation_of_plate(&plates[p], sphere, origin);
        proof {
            assert(views.take(p + 1).drop_last() == views.take(p as int));
        }
        if separation < least {
            nearest = p;
            least = separation;
        }
        p = p + 1;
    }
    assert(views.take(p as int) == views);
    nearest
}

impl PlateAssembler {
    /// Every plate has the network that its tiles give, the table knows the
    /// plates' masses and no others, and every plate that has settled is
    /// large enough.
    pub open spec fn plates_wf(self, sphere: ParticleSphere) -> bool {
        &&& forall|p: int|
            0 <= p < self.plates@.len() ==> (#[trigger] self.plates@[p]).assembled_on(sphere)
                && self.plates@[p].indexed_by(self.slots@, p as usize)
        &&& forall|tile: int|
            0 <= tile < self.slots@.len() ==> (#[trigger] self.slots@[tile] matches TileSlot::Claimed {
                plate,
                ..
            } ==> plate < self.plates@.len())
        &&& forall|p: int|
            0 <= p < self.plates@.len() && (p + 1 < self.plates@.len() || self.phase is Seeding
                || self.phase is Done) ==> (#[trigger] self.plates@[p]).tiles().len()
                >= self.config.min_plate_size
    }

    /// Every tile is unclaimed, on the frontier, or a mass of a plate.
    pub open spec fn tally(self) -> bool {
        total_tiles(self@.plates) + self.frontier@.len() + self.pool == self.slots@.len()
    }

    pub open spec fn phase_wf(self) -> bool {
        match self.phase {
            Phase::Seeding => self.frontier@.len() == 0 && self.pool > 0,
            Phase::Growing => self.frontier@.len() > 0 && self.remaining > 0 && self.plates@.len()
                > 0,
            Phase::Done => self.frontier@.len() == 0 && self.pool == 0,
            Phase::Failed => true,
        }
    }

    /// The tiles that plates hold, with the seed of a plate that has yet to
    /// claim it.
    pub open spec fn held(self) -> nat {
        if self.phase is Growing && self@.plates.last().tiles.len() == 0 {
            total_tiles(self@.plates) + 1
        } else {
            total_tiles(self@.plates)
        }
    }

    /// The counts of founded plates stay within what the tiles allow: a kind
    /// of plate with a quota has claimed a tile for each of its plates, and
    /// each count follows the other as the major plate fraction lets it.
    pub open spec fn counters_wf(self) -> bool {
        let fraction = self.config.major_plate_fraction;
        &&& self.major_tile_count > 0 ==> self.generated_majors <= self.held()
        &&& self.minor_tile_count > 0 ==> self.generated_minors <= self.held()
        &&& self.generated_majors <= self.generated_minors + 1
        &&& fraction.numerator >= 1 ==> self.generated_minors <= self.generated_majors
            * fraction.denominator + 1
        &&& self.minor_tile_count == 0 && fraction.numerator == 0 ==> self.generated_minors == 0
        &&& self.major_tile_count == 0 && self.minor_tile_count == 0 ==> self.generated_majors
            == 0 && self.generated_minors == 0
    }

    /// While a plate grows, no tile next to one of its tiles is unclaimed:
    /// each is a mass of a plate or waits on the frontier. And the first
    /// plate, if it is a major one with a quota, has claimed what its quota
    /// no longer allows.
    pub open spec fn growth_wf(self, sphere: ParticleSphere) -> bool {
        self.phase is Growing ==> {
            let newest = self.plates@.last();
            &&& self.major_tile_count >= 1 && self.plates@.len() == 1 ==> newest.tiles().len()
                + self.remaining == self.major_tile_count
            &&& forall|i: int, k: int|
                0 <= i < newest.tiles().len() && 0 <= k < sphere.adjacency(
                    newest.tiles()[i] as int,
                ).len() ==> !(self.slots@[(#[trigger] sphere.adjacency(
                    newest.tiles()[i] as int,
                )[k]) as int] is Unclaimed)
        }
    }

    /// What holds of the assembler between any two of its moves.
    pub open spec fn base_wf(self, sphere: ParticleSphere) -> bool {
        &&& sphere.valid()
        &&& self.config.valid()
        &&& self.slots@.len() == sphere.tile_count()
        &&& self.major_tile_count == self.config.major_quota(sphere.tile_count())
        &&& self.minor_tile_count == self.config.minor_quota(sphere.tile_count())
        &&& self.pool == count_unclaimed(self.slots@)
        &&& frontier_listed(self.slots@, self.frontier@)
        &&& self.plates_wf(sphere)
        &&& self.tally()
        &&& self.counters_wf()
        &&& self.major_tile_count >= 1 && self.plates@.len() == 0 ==> self.generated_majors == 0
            && self.generated_minors == 0
        &&& types_balanced(self@.plates, self.config.continental_rate, sphere.tile_count())
    }

    /// The assembler is in a state that assembly on `sphere` can reach.
    pub open spec fn wf(self, sphere: ParticleSphere) -> bool {
        &&& self.base_wf(sphere)
        &&& self.phase_wf()
        &&& self.growth_wf(sphere)
    }

    /// An assembler for `sphere` that has not taken a step.
    pub fn new(config: TectonicsConfiguration, sphere: &ParticleSphere) -> (r: PlateAssembler)
        requires
            config.valid(),
            sphere.valid(),
        ensures
            r.wf(*sphere),
            r.config == config,
            r@ == AssemblyView::initial(sphere.tile_count()),
    {
        let tile_count = sphere.tiles.len();
        let mut slots: Vec<TileSlot> = Vec::new();
        let mut tile: usize = 0;
        while tile < tile_count
            invariant
                tile <= tile_count,
                slots@.len() == tile,
                forall|t: int| 0 <= t < tile ==> #[trigger] slots@[t] == TileSlot::Unclaimed,
                count_unclaimed(slots@) == tile,
            decreases tile_count - tile,
        {
            let ghost before = slots@;
            slots.push(TileSlot::Unclaimed);
            assert(slots@.drop_last() == before);
            tile = tile + 1;
        }
        let r = PlateAssembler {
            config,
            phase: if tile_count == 0 {
                Phase::Done
            } else {
                Phase::Seeding
            },
            slots,
            pool: tile_count,
            frontier: Vec::new(),
            plates: Vec::new(),
            remaining: 0,
            major_tile_count: config.compute_major_quota(tile_count),
            minor_tile_count: config.compute_minor_quota(tile_count),
            generated_majors: 0,
            generated_minors: 0,
        };
        proof {
            assert(r@.slots =~= AssemblyView::initial(sphere.tile_count()).slots);
            assert(r@.plates =~= Seq::<PlateView>::empty());
        }
        r
    }

    pub fn phase(&self) -> (r: Phase)
        ensures
            r == self.phase,
    {
        self.phase
    }

    /// How many tiles are unclaimed: the bound of the pick that founds a
    /// plate.
    pub fn unclaimed_count(&self) -> (r: usize)
        ensures
            r == self.pool,
    {
        self.pool
    }

    /// How many tiles wait on the frontier: the bound of the pick that claims
    /// one.
    pub fn frontier_count(&self) -> (r: usize)
        ensures
            r == self.frontier@.len(),
    {
        self.frontier.len()
    }

    /// The type of the plate that is founded next.
    pub fn due_plate_type(&self, sphere: &ParticleSphere) -> (r: PlateType)
        requires
            self.wf(*sphere),
            self.phase is Seeding,
        ensures
            r == self@.due_type(self.config),
    {
        let tile_count = self.slots.len();
        self.config.plate_type_for(tile_count - self.pool + 1, tile_count)
    }

    /// At every step of assembly every tile is accounted for: it is a point
    /// mass of a plate, waits on the frontier, or is unclaimed, and the three
    /// counts add up to the tiles of the sphere.
    pub proof fn lemma_tiles_accounted(self, sphere: ParticleSphere)
        requires
            self.wf(sphere),
        ensures
            total_tiles(self@.plates) + self@.frontier.len() + self@.pool() == sphere.tile_count(),
            self.phase is Done ==> total_tiles(self@.plates) == sphere.tile_count(),
    {
    }

    /// The tiles that plates hold are tiles of the sphere, and the counts of
    /// founded plates are far from the largest number they could hold.
    pub proof fn lemma_counters_bounded(self, sphere: ParticleSphere)
        requires
            self.wf(sphere),
        ensures
            self.held() <= sphere.tile_count(),
            self.generated_majors <= sphere.tile_count() + 1,
            self.generated_minors < u64::MAX,
    {
        let fraction = self.config.major_plate_fraction;
        let majors = self.generated_majors as int;
        let denominator = fraction.denominator as int;
        assert(majors * denominator + 1 <= 0x1_0000_0000 * 0xffff_ffff + 1) by (nonlinear_arith)
            requires
                0 <= majors <= 0x1_0000_0000,
                0 <= denominator <= 0xffff_ffff,
        ;
    }

    /// Founds a plate. The plate joins the plates as it is handed in: it has
    /// the type that is due and no tiles. `pick` chooses its seed among the
    /// unclaimed tiles.
    pub fn start_plate(&mut self, sphere: &ParticleSphere, pick: usize, plate: Plate) -> (r: Result<
        (),
        AssemblyError,
    >)
        requires
            old(self).wf(*sphere),
            old(self).phase is Seeding,
            pick < old(self).pool,
            plate.plate_type == old(self)@.due_type(old(self).config),
            plate.shape.wf(),
            plate.shape.point_masses@.len() == 0,
            plate.shape.springs@.len() == 0,
        ensures
            final(self).wf(*sphere),
            final(self).config == old(self).config,
            final(self)@ == old(self)@.founded(old(self).config, pick as nat, plate@),
            r is Err <==> final(self).phase is Failed,
            r matches Err(error) ==> error == AssemblyError::Stalled,
            total_tiles(final(self)@.plates) == total_tiles(old(self)@.plates),
            final(self).phase is Seeding ==> final(self).config.idle_bound(
                sphere.tile_count(),
                final(self)@.majors,
                final(self)@.minors,
            ) < final(self).config.idle_bound(
                sphere.tile_count(),
                old(self)@.majors,
                old(self)@.minors,
            ),
    {
        proof {
            self.lemma_counters_bounded(*sphere);
        }
        let minor = self.config.is_minor_due(self.generated_majors, self.generated_minors);
        let stalled = if minor {
            self.minor_tile_count == 0 && (self.major_tile_count == 0
                || self.config.major_plate_fraction.numerator == 0)
        } else {
            self.major_tile_count == 0 && self.minor_tile_count == 0
        };
        if stalled {
            self.phase = Phase::Failed;
            return Err(AssemblyError::Stalled);
        }
        let quota = if minor {
            self.minor_tile_count
        } else {
            self.major_tile_count
        };
        proof {
            let fraction = self.config.major_plate_fraction;
            let majors = self.generated_majors as int;
            let minors = self.generated_minors as int;
            let numerator = fraction.numerator as int;
            let denominator = fraction.denominator as int;
            if minor {
                if minors > 0 && numerator >= 1 {
                    assert(minors + 1 <= majors * denominator) by (nonlinear_arith)
                        requires
                            majors * denominator > numerator * minors,
                            numerator >= 1,
                            minors > 0,
                    ;
                }
            } else {
                if minors > 0 {
                    assert(majors <= minors) by (nonlinear_arith)
                        requires
                            majors * denominator <= numerator * minors,
                            0 <= numerator <= denominator,
                            denominator > 0,
                            minors > 0,
                            majors >= 0,
                    ;
                }
                assert(majors * denominator <= (majors + 1) * denominator) by (nonlinear_arith)
                    requires
                        denominator >= 0,
                ;
            }
        }
        if minor {
            self.generated_minors = self.generated_minors + 1;
        } else {
            self.generated_majors = self.generated_majors + 1;
        }
        if quota == 0 {
            proof {
                let fraction = self.config.major_plate_fraction;
                let majors = old(self).generated_majors as int;
                let minors = old(self).generated_minors as int;
                let numerator = fraction.numerator as int;
                let denominator = fraction.denominator as int;
                if minor {
                    assert(majors * denominator - numerator * (minors + 1) < majors * denominator
                        - numerator * minors) by (nonlinear_arith)
                        requires
                            numerator >= 1,
                    ;
                } else {
                    assert(numerator * minors - (majors + 1) * denominator < numerator * minors
                        - majors * denominator) by (nonlinear_arith)
                        requires
                            denominator >= 1,
                    ;
                }
            }
            return Ok(());
        }
        let seed = find_unclaimed(&self.slots, pick);
        proof {
            lemma_count_unclaimed_update(self.slots@, seed as int, TileSlot::Frontier);
            lemma_total_tiles_push(old(self)@.plates, plate@);
            lemma_founding_keeps_balance(
                old(self)@.plates,
                self.config,
                sphere.tile_count(),
                plate@,
            );
        }
        self.slots[seed] = TileSlot::Frontier;
        self.pool = self.pool - 1;
        self.frontier.push(seed);
        self.plates.push(plate);
        self.remaining = quota;
        self.phase = Phase::Growing;
        proof {
            assert(self@.plates =~= old(self)@.plates.push(plate@));
            assert(self@.frontier =~= seq![seed]);
            assert(self.plates.len() <= usize::MAX);
            assert forall|p: int| 0 <= p < self.plates@.len() implies (#[trigger] self.plates@[p]).assembled_on(
                *sphere,
            ) && self.plates@[p].indexed_by(self.slots@, p as usize) by {
                if p >= old(self).plates@.len() {
                    assert(plate.shape.springs@ =~= Seq::<crate::spring::Spring>::empty());
                }
            }
            assert forall|tile: int|
                0 <= tile < self.slots@.len() && (#[trigger] self.slots@[tile])
                    is Frontier implies self.frontier@.contains(tile as usize) by {
                assert(self.frontier@[0] == seed);
            }
        }
        Ok(())
    }

    /// Takes the tile at `pick` from the frontier into the newest plate and
    /// puts the unclaimed tiles next to it on the frontier.
    fn claim_tile(&mut self, sphere: &ParticleSphere, pick: usize)
        requires
            old(self).wf(*sphere),
            old(self).phase is Growing,
            pick < old(self).frontier@.len(),
        ensures
            final(self).base_wf(*sphere),
            final(self).growth_wf(*sphere),
            final(self).phase is Growing,
            final(self).plates@.len() == old(self).plates@.len(),
            final(self)@.plates.last().tiles.len() > 0,
            final(self).config == old(self).config,
            final(self)@ == old(self)@.grown(*sphere, pick as int),
            total_tiles(final(self)@.plates) == total_tiles(old(self)@.plates) + 1,
    {
        let tile = self.frontier[pick];
        let newest = self.plates.len() - 1;
        let ghost mass = self.plates@[newest as int].tiles().len() as usize;
        let ghost claim = TileSlot::Claimed { plate: newest, mass };
        proof {
            assert(sphere.tile_valid(tile as int));
            lemma_count_unclaimed_update(self.slots@, tile as int, claim);
            lemma_frontier_after_claim(self.slots@, self.frontier@, pick as int, claim);
            lemma_total_tiles_update(
                old(self)@.plates,
                newest as int,
                old(self)@.plates[newest as int].with_tile(tile),
            );
            lemma_claiming_keeps_balance(
                old(self)@.plates,
                self.config.continental_rate,
                sphere.tile_count(),
                tile,
            );
        }
        self.plates[newest].add_tile(sphere, &mut self.slots, newest, tile);
        self.frontier.swap_remove(pick);
        discover(&mut self.slots, &mut self.frontier, &mut self.pool, &sphere.tiles[tile].adjacent);
        self.remaining = self.remaining - 1;
        proof {
            assert(self@.plates =~= old(self)@.plates.update(
                newest as int,
                old(self)@.plates[newest as int].with_tile(tile),
            ));
            let grown = self.plates@[newest as int];
            let grew = old(self).plates@[newest as int];
            assert forall|i: int, k: int|
                0 <= i < grown.tiles().len() && 0 <= k < sphere.adjacency(
                    grown.tiles()[i] as int,
                ).len() implies !(self.slots@[(#[trigger] sphere.adjacency(
                grown.tiles()[i] as int,
            )[k]) as int] is Unclaimed) by {
                if i < grew.tiles().len() {
                    assert(sphere.tile_valid(grew.tiles()[i] as int));
                }
            }
        }
    }

    /// Moves the tiles of the newest plate, in their order, to the plate
    /// nearest to the first of them, and drops the newest plate.
    fn merge_newest(&mut self, sphere: &ParticleSphere)
        requires
            old(self).base_wf(*sphere),
            old(self).phase is Growing,
            old(self).plates@.len() >= 2,
            old(self)@.plates.last().tiles.len() > 0,
        ensures
            final(self).base_wf(*sphere),
            final(self).phase is Growing,
            final(self).config == old(self).config,
            total_tiles(final(self)@.plates) == total_tiles(old(self)@.plates),
            forall|p: int|
                0 <= p < final(self).plates@.len() ==> (#[trigger] final(self).plates@[p]).tiles().len()
                    >= final(self).config.min_plate_size,
            ({
                let newest = old(self)@.plates.last();
                let others = old(self)@.plates.drop_last();
                let target = nearest_plate(*sphere, others, sphere.normal(newest.tiles[0] as int));
                final(self)@ == (AssemblyView {
                    plates: others.update(target, others[target].absorbing(newest.tiles)),
                    slots: relocated(
                        old(self)@.slots,
                        others.len() as usize,
                        target as usize,
                        others[target].tiles.len() as int,
                    ),
                    ..old(self)@
                })
            }),
    {
        let ghost before = old(self)@;
        let ghost others = before.plates.drop_last();
        let ghost at_entry = old(self).slots@;
        let small = self.plates.pop().unwrap();
        let from = self.plates.len();
        assert(plate_views(self.plates@) =~= others);
        let first = &small.shape.point_masses[0];
        assert(sphere.tile_valid(first.tile as int));
        let origin = first.position;
        let target = find_nearest_plate(&self.plates, sphere, &origin);
        let ghost host = self.plates@[target as int]@;
        let ghost base = host.tiles.len();
        let count = small.shape.point_masses.len();
        let mut i: usize = 0;
        while i < count
            invariant
                sphere.valid(),
                self.slots@.len() == sphere.tile_count(),
                at_entry.len() == sphere.tile_count(),
                count == small.tiles().len(),
                i <= count,
                from == self.plates@.len(),
                from + 1 == old(self).plates@.len(),
                target < from,
                small.indexed_by(at_entry, from),
                host == old(self).plates@[target as int]@,
                base == host.tiles.len(),
                forall|p: int|
                    0 <= p < from && p != target ==> #[trigger] self.plates@[p] == old(
                        self,
                    ).plates@[p],
                forall|p: int|
                    0 <= p < from ==> (#[trigger] self.plates@[p]).assembled_on(*sphere)
                        && self.plates@[p].indexed_by(self.slots@, p as usize),
                self.plates@[target as int]@ == host.absorbing(small.tiles().take(i as int)),
                forall|tile: int|
                    0 <= tile < at_entry.len() ==> #[trigger] self.slots@[tile] == (match at_entry[tile] {
                        TileSlot::Claimed { plate, mass } if plate == from && mass < i => TileSlot::Claimed {
                            plate: target,
                            mass: (base + mass) as usize,
                        },
                        slot => slot,
                    }),
                self.config == old(self).config,
                self.phase == old(self).phase,
                self.pool == old(self).pool,
                self.frontier == old(self).frontier,
                self.remaining == old(self).remaining,
                self.major_tile_count == old(self).major_tile_count,
                self.minor_tile_count == old(self).minor_tile_count,
                self.generated_majors == old(self).generated_majors,
                self.generated_minors == old(self).generated_minors,
            decreases count - i,
        {
            let tile = small.shape.point_masses[i].tile;
            proof {
                assert(small.tiles()[i as int] == tile);
            }
            self.plates[target].add_tile(sphere, &mut self.slots, target, tile);
            proof {
                let taken = small.tiles().take(i as int);
                assert(small.tiles().take(i + 1) == taken.push(tile));
            }
            i = i + 1;
        }
        proof {
            assert(small.tiles().take(i as int) == small.tiles());
            let merged = others.update(target as int, others[target as int].absorbing(small@.tiles));
            assert(self@.plates =~= merged);
            assert(self.slots@ =~= relocated(at_entry, from, target, base as int));
            lemma_merging_keeps_balance(
                before.plates,
                self.config.continental_rate,
                sphere.tile_count(),
                target as int,
            );
            lemma_total_tiles_update(others, target as int, merged[target as int]);
            crate::tile_table::lemma_count_unclaimed_same(at_entry, self.slots@);
        }
    }

    /// On a sphere that is one piece, a lone plate whose frontier has run
    /// empty holds every tile.
    proof fn lemma_lone_plate_spans(self, sphere: ParticleSphere)
        requires
            self.base_wf(sphere),
            self.growth_wf(sphere),
            self.phase is Growing,
            self.plates@.len() == 1,
            self@.plates.last().tiles.len() > 0,
            self.frontier@.len() == 0,
            sphere.connected(),
        ensures
            self.plates@[0].tiles().len() == sphere.tile_count(),
    {
        let plate = self.plates@[0];
        let slots = self.slots@;
        let graph = sphere.graph();
        let claimed = Set::new(|tile: int| 0 <= tile < slots.len() && slots[tile] is Claimed);
        assert(plate.indexed_by(slots, 0));
        assert(closed(graph, claimed)) by {
            assert forall|tile: int, k: int|
                0 <= tile < graph.len() && claimed.contains(tile) && 0 <= k
                    < graph[tile].len() implies claimed.contains(#[trigger] graph[tile][k] as int) by {
                let next = sphere.adjacency(tile)[k];
                assert(sphere.tile_valid(tile));
                match slots[tile] {
                    TileSlot::Claimed { plate: owner, mass } => {
                        assert(owner == 0);
                        assert(plate.tiles()[mass as int] == tile);
                        assert(!(slots[sphere.adjacency(plate.tiles()[mass as int] as int)[k] as int]
                            is Unclaimed));
                    },
                    _ => {},
                }
                if slots[next as int] is Frontier {
                    assert(self.frontier@.contains(next));
                }
            }
        }
        let first = plate.tiles()[0];
        assert(claimed.contains(first as int));
        assert forall|tile: int| 0 <= tile < slots.len() implies !(#[trigger] slots[tile]
            is Unclaimed) by {
            assert(claimed.contains(tile));
        }
        crate::tile_table::lemma_count_unclaimed_zero(slots);
        assert(self@.plates.drop_last() =~= Seq::<PlateView>::empty());
        assert(total_tiles(self@.plates.drop_last()) == 0);
    }

    /// Lets the newest plate settle and the frontier go back to the unclaimed
    /// tiles.
    fn settle(&mut self, sphere: &ParticleSphere) -> (r: Result<(), AssemblyError>)
        requires
            old(self).base_wf(*sphere),
            old(self).growth_wf(*sphere),
            old(self).phase is Growing,
            old(self).plates@.len() > 0,
            old(self)@.plates.last().tiles.len() > 0,
            old(self).remaining == 0 || old(self).frontier@.len() == 0,
        ensures
            final(self).wf(*sphere),
            final(self).config == old(self).config,
            final(self)@ == old(self)@.settled(*sphere, old(self).config),
            r is Err <==> final(self).phase is Failed,
            r matches Err(error) ==> error == AssemblyError::NoMergeTarget,
            r is Err ==> !old(self).config.first_plate_lasts(*sphere),
            total_tiles(final(self)@.plates) == total_tiles(old(self)@.plates),
    {
        let newest = self.plates.len() - 1;
        if self.plates[newest].shape.point_masses.len() < self.config.min_plate_size {
            if self.plates.len() == 1 {
                proof {
                    if self.config.first_plate_lasts(*sphere) {
                        self.lemma_lone_plate_spans(*sphere);
                    }
                }
                self.phase = Phase::Failed;
                return Err(AssemblyError::NoMergeTarget);
            }
            self.merge_newest(sphere);
        }
        release(&mut self.slots, &mut self.frontier, &mut self.pool);
        self.remaining = 0;
        self.phase = if self.pool == 0 {
            Phase::Done
        } else {
            Phase::Seeding
        };
        proof {
            assert(self@.frontier =~= Seq::<usize>::empty());
        }
        Ok(())
    }

    /// Claims the tile at `pick` of the frontier for the newest plate. When
    /// that uses up the plate's quota or leaves the frontier empty, the plate
    /// settles.
    pub fn claim(&mut self, sphere: &ParticleSphere, pick: usize) -> (r: Result<(), AssemblyError>)
        requires
            old(self).wf(*sphere),
            old(self).phase is Growing,
            pick < old(self).frontier@.len(),
        ensures
            final(self).wf(*sphere),
            final(self).config == old(self).config,
            final(self)@ == old(self)@.claimed(*sphere, old(self).config, pick as int),
            r is Err <==> final(self).phase is Failed,
            r matches Err(error) ==> error == AssemblyError::NoMergeTarget,
            r is Err ==> !old(self).config.first_plate_lasts(*sphere),
            total_tiles(final(self)@.plates) == total_tiles(old(self)@.plates) + 1,
    {
        self.claim_tile(sphere, pick);
        if self.remaining == 0 || self.frontier.len() == 0 {
            self.settle(sphere)
        } else {
            Ok(())
        }
    }

    /// Hands over the plates once every tile has been claimed.
    pub fn finish(self, sphere: &ParticleSphere) -> (r: Tectonics)
        requires
            self.wf(*sphere),
            self.phase is Done,
        ensures
            r.config == self.config,
            r.plates == self.plates,
            r.assembled_on(*sphere),
    {
        let r = Tectonics { config: self.config, plates: self.plates };
        proof {
            crate::tile_table::lemma_count_unclaimed_zero(self.slots@);
            assert forall|tile: int| 0 <= tile < sphere.tile_count() implies #[trigger] r.covers(
                tile,
            ) by {
                match self.slots@[tile] {
                    TileSlot::Claimed { plate, mass } => {
                        assert(r.holds(plate as int, mass as int, tile));
                    },
                    _ => {},
                }
            }
            assert forall|tile: int, plate: int, mass: int, other_plate: int, other_mass: int|
                #[trigger] r.holds(plate, mass, tile) && #[trigger] r.holds(
                    other_plate,
                    other_mass,
                    tile,
                ) implies plate == other_plate && mass == other_mass by {
                assert(self.plates.len() <= usize::MAX);
                assert(self.plates@[plate].shape.point_masses.len() <= usize::MAX);
            }
        }
        r
    }
}

} // verus!
