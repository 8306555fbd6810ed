//! The configuration of a run, and the plates that assembly hands over.

use vstd::prelude::*;
use crate::assembler::{plate_views, AssemblyError, PlateAssembler};
use crate::assembly::{
    assembly_on, assembly_takes, total_tiles, types_balanced, AssemblyView, Draw, Phase,
};
use crate::fraction::Fraction;
use crate::particle_sphere::ParticleSphere;
use crate::plate::{Plate, PlateType};
use crate::random::random_below;

verus! {

#[derive(Clone, Copy, Debug)]
pub struct TectonicsConfiguration {
    /// How many plates assembly aims at. It sizes the plates; nothing holds
    /// assembly to the number.
    pub plate_goal: usize,
    /// How many major plates there are for each minor one.
    pub major_plate_fraction: Fraction,
    /// The share of all tiles that goes to major plates.
    pub major_tile_fraction: Fraction,
    /// The share of tiles that is claimed before plates turn oceanic.
    pub continental_rate: Fraction,
    /// The fewest point masses a plate may have. A smaller plate is merged
    /// into another.
    pub min_plate_size: usize,
    /// How many steps the simulation takes.
    pub iterations: usize,
}

/// The tiles that a plate of one kind may take: `tile_count * tile_share /
/// (plate_goal / 2) / plate_share`, rounded down and held to what a `usize`
/// can count. Where the division is by zero the quota is zero if the tiles to
/// share out are none, and as large as can be otherwise.
pub open spec fn quota(
    tile_count: nat,
    tile_share: Fraction,
    plate_goal: nat,
    plate_share: Fraction,
) -> nat {
    let dividend = tile_count * tile_share.numerator * 2 * plate_share.denominator;
    let divisor = tile_share.denominator * plate_goal * plate_share.numerator;
    if dividend == 0 {
        0
    } else if divisor == 0 || dividend / divisor > usize::MAX {
        usize::MAX as nat
    } else {
        (dividend / divisor) as nat
    }
}

/// Computes [`quota`].
pub fn tile_quota(
    tile_count: usize,
    tile_share: &Fraction,
    plate_goal: usize,
    plate_share: &Fraction,
) -> (r: usize)
    requires
        tile_count <= u32::MAX,
    ensures
        r == quota(tile_count as nat, *tile_share, plate_goal as nat, *plate_share),
{
    assert(tile_count * tile_share.numerator <= 0xffff_ffff * 0xffff_ffff) by (nonlinear_arith)
        requires
            tile_count <= 0xffff_ffff,
            tile_share.numerator <= 0xffff_ffff,
    ;
    let shared: u128 = (tile_count as u128) * (tile_share.numerator as u128);
    let doubled: u128 = shared * 2;
    assert(doubled * plate_share.denominator <= 0x2_0000_0000_0000_0000 * 0xffff_ffff)
        by (nonlinear_arith)
        requires
            doubled <= 0x2_0000_0000_0000_0000,
            plate_share.denominator <= 0xffff_ffff,
    ;
    let dividend: u128 = doubled * (plate_share.denominator as u128);
    assert(tile_share.denominator * plate_share.numerator <= 0xffff_ffff * 0xffff_ffff)
        by (nonlinear_arith)
        requires
            tile_share.denominator <= 0xffff_ffff,
            plate_share.numerator <= 0xffff_ffff,
    ;
    let shares: u128 = (tile_share.denominator as u128) * (plate_share.numerator as u128);
    assert(shares * plate_goal <= 0xffff_fffe_0000_0001 * 0xffff_ffff_ffff_ffff) by (nonlinear_arith)
        requires
            shares <= 0xffff_fffe_0000_0001,
            plate_goal <= 0xffff_ffff_ffff_ffff,
    ;
    let divisor: u128 = shares * (plate_goal as u128);
    assert(divisor == tile_share.denominator * plate_goal * plate_share.numerator)
        by (nonlinear_arith)
        requires
            divisor == (tile_share.denominator * plate_share.numerator) * plate_goal,
    ;
    if dividend == 0 {
        0
    } else if divisor == 0 {
        usize::MAX
    } else {
        let whole = dividend / divisor;
        if whole > usize::MAX as u128 {
            usize::MAX
        } else {
            whole as usize
        }
    }
}

impl TectonicsConfiguration {
    /// The three fractions lie in `[0, 1]`, and a plate needs at least one
    /// point mass.
    pub open spec fn valid(self) -> bool {
        &&& self.major_plate_fraction.valid()
        &&& self.major_tile_fraction.valid()
        &&& self.continental_rate.valid()
        &&& self.min_plate_size >= 1
    }

    pub fn is_valid(&self) -> (r: bool)
        ensures
            r == self.valid(),
    {
        self.major_plate_fraction.is_valid() && self.major_tile_fraction.is_valid()
            && self.continental_rate.is_valid() && self.min_plate_size >= 1
    }

    /// The tiles that a major plate may take.
    pub open spec fn major_quota(self, tile_count: nat) -> nat {
        quota(tile_count, self.major_tile_fraction, self.plate_goal as nat, self.major_plate_fraction)
    }

    /// The tiles that a minor plate may take.
    pub open spec fn minor_quota(self, tile_count: nat) -> nat {
        quota(
            tile_count,
            self.major_tile_fraction.complemented(),
            self.plate_goal as nat,
            self.major_plate_fraction.complemented(),
        )
    }

    /// The type of a plate that is founded when `taken` of the `tile_count`
    /// tiles have left the unclaimed ones, its own first tile among them:
    /// continental as long as that share is below the continental rate.
    pub open spec fn plate_type_at(self, taken: nat, tile_count: nat) -> PlateType {
        if self.continental_rate.exceeds(taken as int, tile_count as int) {
            PlateType::Continental
        } else {
            PlateType::Oceanic
        }
    }

    /// Whether the plate founded after `majors` major and `minors` minor
    /// plates is a minor one: it is when the majors outweigh the minors by
    /// more than the major plate fraction. The first plate is a major one, and
    /// while there is no minor plate the next is a minor one.
    pub open spec fn minor_is_due(self, majors: nat, minors: nat) -> bool {
        if minors == 0 {
            majors > 0
        } else {
            self.major_plate_fraction.exceeded_by(majors as int, minors as int)
        }
    }

    /// Founding a plate of the due kind can never again lead to a claimed
    /// tile: the kind has no quota, and either the other has none, or the
    /// major plate fraction is zero so that no major plate will follow.
    pub open spec fn stalls(self, tile_count: nat, majors: nat, minors: nat) -> bool {
        if self.minor_is_due(majors, minors) {
            self.minor_quota(tile_count) == 0 && (self.major_quota(tile_count) == 0
                || self.major_plate_fraction.numerator == 0)
        } else {
            self.major_quota(tile_count) == 0 && self.minor_quota(tile_count) == 0
        }
    }

    /// Some plate that is founded on `tile_count` tiles may stall assembly:
    /// minor plates have no quota, and neither have major plates or none of
    /// them follows the first.
    pub open spec fn can_stall(self, tile_count: nat) -> bool {
        self.minor_quota(tile_count) == 0 && (self.major_quota(tile_count) == 0
            || self.major_plate_fraction.numerator == 0)
    }

    /// The first plate is sure to reach the least plate size: the sphere is
    /// one piece with tiles enough, and a major plate may take as many.
    pub open spec fn first_plate_lasts(self, sphere: ParticleSphere) -> bool {
        &&& sphere.connected()
        &&& sphere.tile_count() >= self.min_plate_size
        &&& self.major_quota(sphere.tile_count()) >= self.min_plate_size
    }

    /// The first plate is sure to stay below the least plate size: it claims
    /// a tile, but the tiles or its quota are too few.
    pub open spec fn first_plate_falls_short(self, sphere: ParticleSphere) -> bool {
        &&& sphere.tile_count() > 0
        &&& self.major_quota(sphere.tile_count()) >= 1
        &&& (self.major_quota(sphere.tile_count()) < self.min_plate_size || sphere.tile_count()
            < self.min_plate_size)
    }

    /// A bound on how many plates in a row can still be founded without one
    /// of them claiming a tile, after `majors` major and `minors` minor
    /// plates. Plates of the kind without a quota are founded only until the
    /// major plate fraction calls for the other kind.
    pub open spec fn idle_bound(self, tile_count: nat, majors: nat, minors: nat) -> nat {
        let numerator = self.major_plate_fraction.numerator as int;
        let denominator = self.major_plate_fraction.denominator as int;
        if self.major_quota(tile_count) == 0 && self.minor_quota(tile_count) > 0 {
            if minors == 0 {
                if majors == 0 {
                    1
                } else {
                    0
                }
            } else if majors * denominator <= numerator * minors {
                (numerator * minors - majors * denominator + 1) as nat
            } else {
                0
            }
        } else if self.minor_quota(tile_count) == 0 && self.major_quota(tile_count) > 0
            && numerator > 0 {
            if minors == 0 {
                (majors * denominator + 1) as nat
            } else if majors * denominator > numerator * minors {
                (majors * denominator - numerator * minors) as nat
            } else {
                0
            }
        } else {
            0
        }
    }

    pub fn compute_major_quota(&self, tile_count: usize) -> (r: usize)
        requires
            self.valid(),
            tile_count <= u32::MAX,
        ensures
            r == self.major_quota(tile_count as nat),
    {
        tile_quota(tile_count, &self.major_tile_fraction, self.plate_goal, &self.major_plate_fraction)
    }

    pub fn compute_minor_quota(&self, tile_count: usize) -> (r: usize)
        requires
            self.valid(),
            tile_count <= u32::MAX,
        ensures
            r == self.minor_quota(tile_count as nat),
    {
        let tile_share = self.major_tile_fraction.complement();
        let plate_share = self.major_plate_fraction.complement();
        tile_quota(tile_count, &tile_share, self.plate_goal, &plate_share)
    }

    /// Computes [`TectonicsConfiguration::plate_type_at`].
    pub fn plate_type_for(&self, taken: usize, tile_count: usize) -> (r: PlateType)
        ensures
            r == self.plate_type_at(taken as nat, tile_count as nat),
    {
        if self.continental_rate.is_above(taken as u64, tile_count as u64) {
            PlateType::Continental
        } else {
            PlateType::Oceanic
        }
    }

    /// Computes [`TectonicsConfiguration::minor_is_due`].
    pub fn is_minor_due(&self, majors: u64, minors: u64) -> (r: bool)
        ensures
            r == self.minor_is_due(majors as nat, minors as nat),
    {
        if minors == 0 {
            majors > 0
        } else {
            self.major_plate_fraction.is_below(majors, minors)
        }
    }
}

/// The plates of a run, with the configuration that they were assembled
/// under.
pub struct Tectonics {
    pub config: TectonicsConfiguration,
    pub plates: Vec<Plate>,
}

impl Tectonics {
    /// The point masses of all plates together.
    pub open spec fn point_mass_count(self) -> nat {
        total_tiles(plate_views(self.plates@))
    }

    /// The tile is the mass `mass` of the plate `plate`.
    pub open spec fn holds(self, plate: int, mass: int, tile: int) -> bool {
        &&& 0 <= plate < self.plates@.len()
        &&& 0 <= mass < self.plates@[plate].tiles().len()
        &&& self.plates@[plate].tiles()[mass] == tile
    }

    /// Some plate has the tile as one of its masses.
    pub open spec fn covers(self, tile: int) -> bool {
        exists|plate: int, mass: int| #[trigger] self.holds(plate, mass, tile)
    }

    /// The plates partition the tiles of the sphere: every plate has the
    /// network that its tiles give and is large enough, there are as many
    /// point masses as tiles, and every tile is a mass of one plate, once.
    /// The types of the plates follow the continental rate.
    pub open spec fn assembled_on(self, sphere: ParticleSphere) -> bool {
        &&& types_balanced(
            plate_views(self.plates@),
            self.config.continental_rate,
            sphere.tile_count(),
        )
        &&& forall|p: int|
            0 <= p < self.plates@.len() ==> (#[trigger] self.plates@[p]).assembled_on(sphere)
                && self.plates@[p].tiles().len() >= self.config.min_plate_size
        &&& self.point_mass_count() == sphere.tile_count()
        &&& forall|tile: int| 0 <= tile < sphere.tile_count() ==> #[trigger] self.covers(tile)
        &&& forall|tile: int, plate: int, mass: int, other_plate: int, other_mass: int|
            #[trigger] self.holds(plate, mass, tile) && #[trigger] self.holds(
                other_plate,
                other_mass,
                tile,
            ) ==> plate == other_plate && mass == other_mass
    }

    /// Every spring of every plate is anchored at two masses of that same
    /// plate.
    pub proof fn lemma_springs_stay_in_plate(self, sphere: ParticleSphere, plate: int, spring: int)
        requires
            self.assembled_on(sphere),
            0 <= plate < self.plates@.len(),
            0 <= spring < self.plates@[plate].shape.springs@.len(),
        ensures
            self.plates@[plate].shape.springs@[spring].anchor_a
                < self.plates@[plate].shape.point_masses@.len(),
            self.plates@[plate].shape.springs@[spring].anchor_b
                < self.plates@[plate].shape.point_masses@.len(),
    {
    }

    /// Every point mass sits on the unit sphere: its position is the unit
    /// normal of its tile.
    pub proof fn lemma_point_masses_on_sphere(self, sphere: ParticleSphere, plate: int, mass: int)
        requires
            sphere.valid(),
            self.assembled_on(sphere),
            0 <= plate < self.plates@.len(),
            0 <= mass < self.plates@[plate].shape.point_masses@.len(),
        ensures
            self.plates@[plate].shape.point_masses@[mass].position.is_unit(),
    {
        let point_mass = self.plates@[plate].shape.point_masses@[mass];
        assert(sphere.tile_valid(point_mass.tile as int));
    }

    /// The tiles of the plates decide their networks: two assemblies on one
    /// sphere whose plates are of the same types and hold the same tiles in
    /// the same order have the same point masses and the same springs.
    pub proof fn lemma_tiles_decide_networks(
        self,
        other: Tectonics,
        sphere: ParticleSphere,
        plate: int,
    )
        requires
            self.assembled_on(sphere),
            other.assembled_on(sphere),
            plate_views(self.plates@) == plate_views(other.plates@),
            0 <= plate < self.plates@.len(),
        ensures
            self.plates@[plate].shape.point_masses@ == other.plates@[plate].shape.point_masses@,
            self.plates@[plate].shape.springs@ == other.plates@[plate].shape.springs@,
            self.plates@[plate].shape.spring_index() == other.plates@[plate].shape.spring_index(),
    {
        let mine = self.plates@[plate];
        let theirs = other.plates@[plate];
        assert(plate_views(self.plates@)[plate] == mine@);
        assert forall|i: int| 0 <= i < mine.shape.point_masses@.len() implies mine.shape.point_masses@[i]
            == theirs.shape.point_masses@[i] by {
            assert(mine.tiles()[i] == theirs.tiles()[i]);
        }
    }

    /// Partitions the tiles of the sphere into plates, drawing from `rng`
    /// the seed and the looks of every plate and the tile of every claim.
    ///
    /// The plates that come back are those that assembly reaches on the
    /// numbers drawn.
    ///
    /// Assembly fails with [`AssemblyError::NoMergeTarget`] when a plate stays
    /// below the least plate size while it is the only plate. That is sure to
    /// happen where the first plate has a quota but the quota or the tiles
    /// are fewer than the least plate size. It cannot happen where the least
    /// plate size is one, nor on a sphere in one piece with tiles enough and
    /// a quota of major plates that reaches the least plate size.
    ///
    /// Assembly fails with [`AssemblyError::Stalled`] when tiles are left that
    /// no plate could claim. That is sure to happen where neither kind of
    /// plate has a quota, and cannot happen unless minor plates have none.
    pub fn from_config(
        config: TectonicsConfiguration,
        particle_sphere: &ParticleSphere,
        rng: &mut rand::rngs::StdRng,
    ) -> (r: Result<Tectonics, AssemblyError>)
        requires
            config.valid(),
            particle_sphere.valid(),
        ensures
            r matches Ok(tectonics) ==> tectonics.config == config && tectonics.assembled_on(
                *particle_sphere,
            ),
            exists|draws: Seq<Draw>|
                {
                    let end = #[trigger] assembly_on(*particle_sphere, config, draws);
                    &&& assembly_takes(*particle_sphere, config, draws)
                    &&& match r {
                        Ok(tectonics) => end.phase is Done && plate_views(tectonics.plates@)
                            == end.plates,
                        Err(_) => end.phase is Failed,
                    }
                },
            r matches Err(error) ==> {
                &&& error == AssemblyError::Stalled ==> config.can_stall(
                    particle_sphere.tile_count(),
                )
                &&& error == AssemblyError::NoMergeTarget ==> config.min_plate_size > 1
            },
            (config.min_plate_size == 1 || config.first_plate_lasts(*particle_sphere))
                && !config.can_stall(particle_sphere.tile_count()) ==> r is Ok,
            particle_sphere.tile_count() == 0 ==> r is Ok,
            config.first_plate_falls_short(*particle_sphere) ==> r == Err::<
                Tectonics,
                AssemblyError,
            >(AssemblyError::NoMergeTarget),
            particle_sphere.tile_count() > 0 && config.major_quota(particle_sphere.tile_count())
                == 0 && config.minor_quota(particle_sphere.tile_count()) == 0 ==> r == Err::<
                Tectonics,
                AssemblyError,
            >(AssemblyError::Stalled),
    {
        let ghost start = AssemblyView::initial(particle_sphere.tile_count());
        let ghost tile_count = particle_sphere.tile_count();
        let mut assembler = PlateAssembler::new(config, particle_sphere);
        let ghost mut draws: Seq<Draw> = Seq::empty();
        loop
            invariant
                config.valid(),
                particle_sphere.valid(),
                tile_count == particle_sphere.tile_count(),
                start == AssemblyView::initial(tile_count),
                assembler.wf(*particle_sphere),
                assembler.config == config,
                !(assembler.phase is Failed),
                start.follows(*particle_sphere, config, draws),
                assembler@ == start.run(*particle_sphere, config, draws),
                tile_count == 0 ==> assembler.phase is Done,
                config.major_quota(tile_count) == 0 && config.minor_quota(tile_count) == 0
                    && tile_count > 0 ==> assembler.phase is Seeding,
                config.first_plate_falls_short(*particle_sphere) ==> (assembler.phase is Seeding
                    && assembler.plates@.len() == 0) || (assembler.phase is Growing
                    && assembler.plates@.len() == 1),
            decreases
                    tile_count - total_tiles(assembler@.plates),
                    (if assembler.phase is Seeding {
                        1 + config.idle_bound(tile_count, assembler@.majors, assembler@.minors)
                    } else {
                        0
                    }),
        {
            let ghost before = assembler@;
            let phase = assembler.phase();
            if phase == Phase::Seeding {
                let pick = random_below(rng, assembler.unclaimed_count());
                let plate_type = assembler.due_plate_type(particle_sphere);
                let plate = Plate::random(plate_type, rng);
                let ghost draw = Draw::Found { pick: pick as nat, plate: plate@ };
                proof {
                    assert(plate.tiles().len() == 0);
                }
                let founded = assembler.start_plate(particle_sphere, pick, plate);
                proof {
                    assert(draws.push(draw).drop_last() == draws);
                    draws = draws.push(draw);
                    assert(assembly_on(*particle_sphere, config, draws) == assembler@);
                }
                if let Err(error) = founded {
                    return Err(error);
                }
            } else if phase == Phase::Growing {
                let pick = random_below(rng, assembler.frontier_count());
                let ghost draw = Draw::Claim { pick: pick as nat };
                let claimed = assembler.claim(particle_sphere, pick);
                proof {
                    assert(draws.push(draw).drop_last() == draws);
                    draws = draws.push(draw);
                }
                if let Err(error) = claimed {
                    return Err(error);
                }
            } else {
                let tectonics = assembler.finish(particle_sphere);
                proof {
                    assert(assembly_on(*particle_sphere, config, draws) == before);
                }
                return Ok(tectonics);
            }
        }
    }
}

} // verus!
