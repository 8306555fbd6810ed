//! Plates: groups of tiles that drift together.
//!
//! A plate is oceanic or continental, has a colour to tell it from its
//! neighbours, a rotation axis, the direction in which that axis drifts, and
//! the network of masses and springs built from its tiles.

use vstd::prelude::*;
use crate::particle_sphere::ParticleSphere;
use crate::point_mass::PointMass;
use crate::random::random_below;
use crate::shape::Shape;
use crate::spring::Spring;
use crate::tile_table::TileSlot;
use crate::vec_utils::{LatticeVec2, LatticeVec3};

verus! {

/// The mass of a point mass of an oceanic plate.
pub const OCEANIC_PARTICLE_MASS: u32 = 1;

/// The mass of a point mass of a continental plate.
pub const CONTINENTAL_PARTICLE_MASS: u32 = 5;

/// How many values a drawn coordinate or colour can take.
pub const SAMPLE_GRID: usize = 16777216;

#[derive(Clone, Copy, Debug, PartialEq, Eq, Structural)]
pub enum PlateType {
    Oceanic,
    Continental,
}

impl PlateType {
    pub open spec fn particle_mass(self) -> u32 {
        match self {
            PlateType::Oceanic => OCEANIC_PARTICLE_MASS,
            PlateType::Continental => CONTINENTAL_PARTICLE_MASS,
        }
    }

    /// The mass of every point mass of a plate of this type.
    pub fn mass(&self) -> (r: u32)
        ensures
            r == self.particle_mass(),
    {
        match self {
            PlateType::Oceanic => OCEANIC_PARTICLE_MASS,
            PlateType::Continental => CONTINENTAL_PARTICLE_MASS,
        }
    }
}

/// The coordinate that a draw below [`SAMPLE_GRID`] stands for. The
/// coordinates are the odd numbers between `-SAMPLE_GRID` and `SAMPLE_GRID`:
/// evenly spaced, symmetric about zero, and never zero.
pub open spec fn centred_spec(draw: int) -> int {
    2 * draw + 1 - SAMPLE_GRID
}

/// Computes [`centred_spec`].
pub fn centred(draw: usize) -> (r: i32)
    requires
        draw < SAMPLE_GRID,
    ensures
        r == centred_spec(draw as int),
        -(SAMPLE_GRID as int) < r < SAMPLE_GRID,
        r != 0,
{
    (2 * (draw as i64) + 1 - (SAMPLE_GRID as i64)) as i32
}

pub struct Plate {
    pub plate_type: PlateType,
    /// Tells plates apart when they are drawn: 24 bits of red, green, blue.
    pub color: u32,
    /// The direction of the axis that the plate turns about. The axis is the
    /// unit vector along it.
    pub axis_of_rotation: LatticeVec3,
    /// The direction in which the axis drifts. The drift is the unit vector
    /// along it.
    pub drift_direction: LatticeVec2,
    pub shape: Shape,
}

/// A plate without its network: what it is, and the tiles it holds in the
/// order in which they joined.
pub struct PlateView {
    pub plate_type: PlateType,
    pub color: u32,
    pub axis_of_rotation: LatticeVec3,
    pub drift_direction: LatticeVec2,
    pub tiles: Seq<usize>,
}

impl PlateView {
    pub open spec fn with_tile(self, tile: usize) -> PlateView {
        PlateView { tiles: self.tiles.push(tile), ..self }
    }

    /// The plate after the given tiles have joined it, in their order.
    pub open spec fn absorbing(self, tiles: Seq<usize>) -> PlateView {
        PlateView { tiles: self.tiles + tiles, ..self }
    }

    /// The plate that the six draws describe, before any tile has joined.
    pub open spec fn sampled(plate_type: PlateType, draws: Seq<usize>) -> PlateView {
        PlateView {
            plate_type,
            color: draws[0] as u32,
            axis_of_rotation: LatticeVec3 {
                x: centred_spec(draws[1] as int) as i32,
                y: centred_spec(draws[2] as int) as i32,
                z: centred_spec(draws[3] as int) as i32,
            },
            drift_direction: LatticeVec2 {
                x: centred_spec(draws[4] as int) as i32,
                y: centred_spec(draws[5] as int) as i32,
            },
            tiles: Seq::empty(),
        }
    }
}

/// Where `tile` stands among `members`, or -1 if it is not one of them.
pub open spec fn position_of(members: Seq<usize>, tile: usize) -> int
    decreases members.len(),
{
    if members.len() == 0 {
        -1
    } else {
        let earlier = position_of(members.drop_last(), tile);
        if earlier >= 0 {
            earlier
        } else if members.last() == tile {
            members.len() - 1
        } else {
            -1
        }
    }
}

/// The springs that the newest of `members` gets: one to each member named
/// in `adjacent`, in the order of `adjacent`. The spring runs from the newest
/// mass to the mass of the adjacent tile.
pub open spec fn links(adjacent: Seq<usize>, members: Seq<usize>) -> Seq<Spring>
    decreases adjacent.len(),
{
    if adjacent.len() == 0 {
        Seq::empty()
    } else {
        let earlier = links(adjacent.drop_last(), members);
        let partner = position_of(members, adjacent.last());
        if partner >= 0 {
            earlier.push(
                Spring { anchor_a: (members.len() - 1) as usize, anchor_b: partner as usize },
            )
        } else {
            earlier
        }
    }
}

/// The springs of a plate whose tiles joined in the order of `members`: each
/// tile, as it joined, was linked to the members next to it.
pub open spec fn network(sphere: ParticleSphere, members: Seq<usize>) -> Seq<Spring>
    decreases members.len(),
{
    if members.len() == 0 {
        Seq::empty()
    } else {
        network(sphere, members.drop_last()) + links(
            sphere.adjacency(members.last() as int),
            members,
        )
    }
}

pub proof fn lemma_position_of(members: Seq<usize>, tile: usize)
    ensures
        -1 <= position_of(members, tile) < members.len(),
        position_of(members, tile) >= 0 ==> members[position_of(members, tile)] == tile,
        position_of(members, tile) < 0 ==> !members.contains(tile),
    decreases members.len(),
{
    if members.len() > 0 {
        lemma_position_of(members.drop_last(), tile);
        if position_of(members, tile) < 0 {
            assert forall|i: int| 0 <= i < members.len() implies members[i] != tile by {
                if i < members.len() - 1 {
                    assert(members.drop_last()[i] == members[i]);
                }
            }
        }
    }
}

/// Among distinct members a tile stands where it is found.
pub proof fn lemma_position_of_member(members: Seq<usize>, at: int)
    requires
        members.no_duplicates(),
        0 <= at < members.len(),
    ensures
        position_of(members, members[at]) == at,
{
    lemma_position_of(members, members[at]);
}

/// The springs that a tile gets when it joins run from its own mass to
/// masses of the plate.
pub proof fn lemma_links_anchored(adjacent: Seq<usize>, members: Seq<usize>)
    requires
        0 < members.len() <= usize::MAX,
    ensures
        forall|k: int|
            0 <= k < links(adjacent, members).len() ==> {
                &&& (#[trigger] links(adjacent, members)[k]).anchor_a == members.len() - 1
                &&& links(adjacent, members)[k].anchor_b < members.len()
            },
    decreases adjacent.len(),
{
    if adjacent.len() > 0 {
        lemma_links_anchored(adjacent.drop_last(), members);
        lemma_position_of(members, adjacent.last());
        let earlier = links(adjacent.drop_last(), members);
        assert forall|k: int| 0 <= k < links(adjacent, members).len() implies {
            &&& (#[trigger] links(adjacent, members)[k]).anchor_a == members.len() - 1
            &&& links(adjacent, members)[k].anchor_b < members.len()
        } by {
            if k < earlier.len() {
                assert(links(adjacent, members)[k] == earlier[k]);
            }
        }
    }
}

/// Both anchors of every spring of a plate's network are masses of that
/// plate: no spring leaves its plate.
pub proof fn lemma_network_anchored(sphere: ParticleSphere, members: Seq<usize>)
    requires
        members.len() <= usize::MAX,
    ensures
        forall|k: int|
            0 <= k < network(sphere, members).len() ==> {
                &&& (#[trigger] network(sphere, members)[k]).anchor_a < members.len()
                &&& network(sphere, members)[k].anchor_b < members.len()
            },
    decreases members.len(),
{
    if members.len() > 0 {
        lemma_network_anchored(sphere, members.drop_last());
        lemma_links_anchored(sphere.adjacency(members.last() as int), members);
        let earlier = network(sphere, members.drop_last());
        let newest = links(sphere.adjacency(members.last() as int), members);
        assert forall|k: int| 0 <= k < network(sphere, members).len() implies {
            &&& (#[trigger] network(sphere, members)[k]).anchor_a < members.len()
            &&& network(sphere, members)[k].anchor_b < members.len()
        } by {
            if k < earlier.len() {
                assert(network(sphere, members)[k] == earlier[k]);
            } else {
                assert(network(sphere, members)[k] == newest[k - earlier.len()]);
            }
        }
    }
}

/// Every spring that a tile gets when it joins leads to a member named in
/// `adjacent`.
pub proof fn lemma_links_lead_to_neighbours(adjacent: Seq<usize>, members: Seq<usize>)
    requires
        0 < members.len() <= usize::MAX,
    ensures
        forall|k: int|
            0 <= k < links(adjacent, members).len() ==> {
                let spring = #[trigger] links(adjacent, members)[k];
                &&& spring.anchor_b < members.len()
                &&& adjacent.contains(members[spring.anchor_b as int])
            },
    decreases adjacent.len(),
{
    if adjacent.len() > 0 {
        let shorter = adjacent.drop_last();
        lemma_links_lead_to_neighbours(shorter, members);
        lemma_position_of(members, adjacent.last());
        let earlier = links(shorter, members);
        let all = links(adjacent, members);
        assert forall|k: int| 0 <= k < all.len() implies {
            let spring = #[trigger] all[k];
            &&& spring.anchor_b < members.len()
            &&& adjacent.contains(members[spring.anchor_b as int])
        } by {
            if k < earlier.len() {
                assert(all[k] == earlier[k]);
                let at = choose|at: int|
                    0 <= at < shorter.len() && shorter[at] == members[earlier[k].anchor_b as int];
                assert(adjacent[at] == shorter[at]);
            } else {
                assert(adjacent[adjacent.len() - 1] == members[all[k].anchor_b as int]);
            }
        }
    }
}

/// Every spring of a plate's network joins a mass to a mass that joined
/// no later, and the tile of the second is next to the tile of the first.
pub proof fn lemma_springs_join_neighbours(sphere: ParticleSphere, members: Seq<usize>)
    requires
        members.len() <= usize::MAX,
    ensures
        forall|k: int|
            0 <= k < network(sphere, members).len() ==> {
                let spring = #[trigger] network(sphere, members)[k];
                &&& spring.anchor_b <= spring.anchor_a < members.len()
                &&& sphere.adjacency(members[spring.anchor_a as int] as int).contains(
                    members[spring.anchor_b as int],
                )
            },
    decreases members.len(),
{
    if members.len() > 0 {
        let shorter = members.drop_last();
        let adjacent = sphere.adjacency(members.last() as int);
        lemma_springs_join_neighbours(sphere, shorter);
        lemma_links_anchored(adjacent, members);
        lemma_links_lead_to_neighbours(adjacent, members);
        let earlier = network(sphere, shorter);
        let newest = links(adjacent, members);
        let all = network(sphere, members);
        assert forall|k: int| 0 <= k < all.len() implies {
            let spring = #[trigger] all[k];
            &&& spring.anchor_b <= spring.anchor_a < members.len()
            &&& sphere.adjacency(members[spring.anchor_a as int] as int).contains(
                members[spring.anchor_b as int],
            )
        } by {
            if k < earlier.len() {
                assert(all[k] == earlier[k]);
                assert(shorter[earlier[k].anchor_a as int] == members[earlier[k].anchor_a as int]);
                assert(shorter[earlier[k].anchor_b as int] == members[earlier[k].anchor_b as int]);
            } else {
                assert(all[k] == newest[k - earlier.len()]);
            }
        }
    }
}

/// A tile that joins gets a spring to every member named in `adjacent`.
pub proof fn lemma_links_reach_neighbours(adjacent: Seq<usize>, members: Seq<usize>, at: int)
    requires
        0 < members.len() <= usize::MAX,
        0 <= at < adjacent.len(),
        position_of(members, adjacent[at]) >= 0,
    ensures
        links(adjacent, members).contains(
            Spring {
                anchor_a: (members.len() - 1) as usize,
                anchor_b: position_of(members, adjacent[at]) as usize,
            },
        ),
    decreases adjacent.len(),
{
    let all = links(adjacent, members);
    let spring = Spring {
        anchor_a: (members.len() - 1) as usize,
        anchor_b: position_of(members, adjacent[at]) as usize,
    };
    if at == adjacent.len() - 1 {
        assert(all[all.len() - 1] == spring);
    } else {
        let shorter = adjacent.drop_last();
        assert(shorter[at] == adjacent[at]);
        lemma_links_reach_neighbours(shorter, members, at);
        let earlier = links(shorter, members);
        let k = choose|k: int| 0 <= k < earlier.len() && earlier[k] == spring;
        assert(all[k] == spring);
    }
}

/// Two masses of a plate whose tiles are distinct members are joined by a
/// spring if the tile of the one that joined first is next to the tile of the
/// other. A tile that is next to itself has a spring from its mass to itself.
pub proof fn lemma_neighbours_are_joined(
    sphere: ParticleSphere,
    members: Seq<usize>,
    later: int,
    earlier: int,
)
    requires
        members.len() <= usize::MAX,
        members.no_duplicates(),
        0 <= earlier <= later < members.len(),
        sphere.adjacency(members[later] as int).contains(members[earlier]),
    ensures
        network(sphere, members).contains(
            Spring { anchor_a: later as usize, anchor_b: earlier as usize },
        ),
    decreases members.len(),
{
    let spring = Spring { anchor_a: later as usize, anchor_b: earlier as usize };
    let shorter = members.drop_last();
    let before = network(sphere, shorter);
    let adjacent = sphere.adjacency(members.last() as int);
    let newest = links(adjacent, members);
    let all = network(sphere, members);
    if later == members.len() - 1 {
        let at = choose|at: int| 0 <= at < adjacent.len() && adjacent[at] == members[earlier];
        lemma_position_of_member(members, earlier);
        lemma_links_reach_neighbours(adjacent, members, at);
        let k = choose|k: int| 0 <= k < newest.len() && newest[k] == spring;
        assert(all[before.len() + k] == spring);
    } else {
        assert(shorter[later] == members[later]);
        assert(shorter[earlier] == members[earlier]);
        lemma_neighbours_are_joined(sphere, shorter, later, earlier);
        let k = choose|k: int| 0 <= k < before.len() && before[k] == spring;
        assert(all[k] == spring);
    }
}

/// Where no tile is named twice in `adjacent`, no two of the springs that a
/// tile gets when it joins lead to the same mass.
pub proof fn lemma_links_distinct(adjacent: Seq<usize>, members: Seq<usize>)
    requires
        0 < members.len() <= usize::MAX,
        adjacent.no_duplicates(),
    ensures
        links(adjacent, members).no_duplicates(),
    decreases adjacent.len(),
{
    if adjacent.len() > 0 {
        let shorter = adjacent.drop_last();
        lemma_links_distinct(shorter, members);
        lemma_links_lead_to_neighbours(shorter, members);
        lemma_position_of(members, adjacent.last());
        let earlier = links(shorter, members);
        let all = links(adjacent, members);
        assert forall|i: int, j: int| 0 <= i < all.len() && 0 <= j < all.len() && i != j implies all[i]
            != all[j] by {
            if i < earlier.len() && j < earlier.len() {
                assert(all[i] == earlier[i] && all[j] == earlier[j]);
            } else {
                let old = if i < earlier.len() {
                    i
                } else {
                    j
                };
                assert(all[old] == earlier[old]);
                let at = choose|at: int|
                    0 <= at < shorter.len() && shorter[at] == members[earlier[old].anchor_b as int];
                assert(adjacent[at] == shorter[at]);
                assert(adjacent[at] != adjacent[adjacent.len() - 1]);
            }
        }
    }
}

/// Where the tiles next to a tile are named once each, no two masses of a
/// plate are joined by more than one spring in the same direction: with
/// [`lemma_neighbours_are_joined`], a pair of adjacent tiles of a plate has
/// exactly one spring from the later to the earlier.
pub proof fn lemma_network_springs_distinct(sphere: ParticleSphere, members: Seq<usize>)
    requires
        members.len() <= usize::MAX,
        forall|i: int|
            0 <= i < members.len() ==> (#[trigger] sphere.adjacency(
                members[i] as int,
            )).no_duplicates(),
    ensures
        network(sphere, members).no_duplicates(),
    decreases members.len(),
{
    if members.len() > 0 {
        let shorter = members.drop_last();
        let adjacent = sphere.adjacency(members.last() as int);
        assert forall|i: int| 0 <= i < shorter.len() implies (#[trigger] sphere.adjacency(
            shorter[i] as int,
        )).no_duplicates() by {
            assert(shorter[i] == members[i]);
            assert(sphere.adjacency(members[i] as int).no_duplicates());
        }
        lemma_network_springs_distinct(sphere, shorter);
        lemma_network_anchored(sphere, shorter);
        assert(adjacent == sphere.adjacency(members[members.len() - 1] as int));
        lemma_links_distinct(adjacent, members);
        lemma_links_anchored(adjacent, members);
        let earlier = network(sphere, shorter);
        let newest = links(adjacent, members);
        let all = network(sphere, members);
        assert forall|i: int, j: int| 0 <= i < all.len() && 0 <= j < all.len() && i != j implies all[i]
            != all[j] by {
            if i < earlier.len() {
                assert(all[i] == earlier[i]);
            } else {
                assert(all[i] == newest[i - earlier.len()]);
            }
            if j < earlier.len() {
                assert(all[j] == earlier[j]);
            } else {
                assert(all[j] == newest[j - earlier.len()]);
            }
        }
    }
}

impl View for Plate {
    type V = PlateView;

    open spec fn view(&self) -> PlateView {
        PlateView {
            plate_type: self.plate_type,
            color: self.color,
            axis_of_rotation: self.axis_of_rotation,
            drift_direction: self.drift_direction,
            tiles: self.tiles(),
        }
    }
}

impl Plate {
    /// The tiles of the plate's masses, in the order of the masses.
    pub open spec fn tiles(self) -> Seq<usize> {
        Seq::new(self.shape.point_masses@.len(), |i: int| self.shape.point_masses@[i].tile)
    }

    /// The network is the one that the plate's tiles give on this sphere:
    /// every mass sits at the normal of its tile with the mass of the plate's
    /// type, and the springs are those of [`network`].
    pub open spec fn assembled_on(self, sphere: ParticleSphere) -> bool {
        &&& self.shape.wf()
        &&& forall|i: int|
            0 <= i < self.shape.point_masses@.len() ==> {
                let point_mass = #[trigger] self.shape.point_masses@[i];
                &&& point_mass.tile < sphere.tile_count()
                &&& point_mass.position == sphere.normal(point_mass.tile as int)
                &&& point_mass.mass == self.plate_type.particle_mass()
            }
        &&& self.shape.springs@ == network(sphere, self.tiles())
    }

    /// The table names exactly this plate's masses as those of plate `index`.
    pub open spec fn indexed_by(self, slots: Seq<TileSlot>, index: usize) -> bool {
        &&& forall|i: int|
            0 <= i < self.tiles().len() ==> (#[trigger] self.tiles()[i]) < slots.len()
                && slots[self.tiles()[i] as int] == (TileSlot::Claimed {
                plate: index,
                mass: i as usize,
            })
        &&& forall|tile: int|
            0 <= tile < slots.len() ==> (#[trigger] slots[tile] matches TileSlot::Claimed {
                plate,
                mass,
            } ==> plate == index ==> mass < self.tiles().len() && self.tiles()[mass as int]
                == tile)
    }

    /// The plate that six draws below [`SAMPLE_GRID`] describe: the first is
    /// its colour, the next three the direction of its axis, the last two the
    /// direction of its drift. It has no tiles yet.
    pub fn sampled(plate_type: PlateType, draws: [usize; 6]) -> (r: Plate)
        requires
            forall|i: int| 0 <= i < 6 ==> draws@[i] < SAMPLE_GRID,
        ensures
            r@ == PlateView::sampled(plate_type, draws@),
            r.shape.wf(),
            r.shape.springs@.len() == 0,
    {
        let r = Plate {
            plate_type,
            color: draws[0] as u32,
            axis_of_rotation: LatticeVec3 {
                x: centred(draws[1]),
                y: centred(draws[2]),
                z: centred(draws[3]),
            },
            drift_direction: LatticeVec2 { x: centred(draws[4]), y: centred(draws[5]) },
            shape: Shape::new(),
        };
        assert(r@.tiles =~= Seq::<usize>::empty());
        r
    }

    /// A plate of the given type with a drawn colour, axis and drift: six
    /// draws from the generator, handed to [`Plate::sampled`] in the order in
    /// which they were drawn.
    pub fn random(plate_type: PlateType, rng: &mut rand::rngs::StdRng) -> (r: Plate)
        ensures
            exists|draws: Seq<usize>|
                {
                    &&& draws.len() == 6
                    &&& forall|i: int| 0 <= i < 6 ==> draws[i] < SAMPLE_GRID
                    &&& r@ == #[trigger] PlateView::sampled(plate_type, draws)
                },
            r.shape.wf(),
            r.shape.springs@.len() == 0,
    {
        let color = random_below(rng, SAMPLE_GRID);
        let axis_x = random_below(rng, SAMPLE_GRID);
        let axis_y = random_below(rng, SAMPLE_GRID);
        let axis_z = random_below(rng, SAMPLE_GRID);
        let drift_x = random_below(rng, SAMPLE_GRID);
        let drift_y = random_below(rng, SAMPLE_GRID);
        let draws = [color, axis_x, axis_y, axis_z, drift_x, drift_y];
        Plate::sampled(plate_type, draws)
    }

    /// Claims `tile` for this plate, which the table knows as plate `index`:
    /// the tile becomes the plate's newest mass, and a spring joins it to the
    /// mass of every adjacent tile that the plate already holds, the tile
    /// itself among them if it is listed as its own neighbour.
    pub fn add_tile(
        &mut self,
        sphere: &ParticleSphere,
        slots: &mut Vec<TileSlot>,
        index: usize,
        tile: usize,
    )
        requires
            sphere.valid(),
            old(slots)@.len() == sphere.tile_count(),
            tile < sphere.tile_count(),
            old(self).assembled_on(*sphere),
            old(self).indexed_by(old(slots)@, index),
            !(old(slots)@[tile as int] matches TileSlot::Claimed { plate, .. } && plate == index),
        ensures
            final(self)@ == old(self)@.with_tile(tile),
            final(self).assembled_on(*sphere),
            final(self).indexed_by(final(slots)@, index),
            final(slots)@ == old(slots)@.update(
                tile as int,
                TileSlot::Claimed { plate: index, mass: old(self).tiles().len() as usize },
            ),
    {
        let mass_index = self.shape.point_masses.len();
        let position = sphere.tiles[tile].normal;
        self.shape.add_point_mass(PointMass::new(tile, position, self.plate_type.mass()));
        slots[tile] = TileSlot::Claimed { plate: index, mass: mass_index };
        let ghost members = old(self).tiles().push(tile);
        assert(self.tiles() =~= members);
        assert(members.drop_last() == old(self).tiles());
        let adjacent = &sphere.tiles[tile].adjacent;
        let mut k: usize = 0;
        while k < adjacent.len()
            invariant
                sphere.valid(),
                tile < sphere.tile_count(),
                slots@.len() == sphere.tile_count(),
                adjacent@ == sphere.adjacency(tile as int),
                k <= adjacent@.len(),
                members == self.tiles(),
                members.no_duplicates(),
                members.len() == mass_index + 1,
                self.shape.wf(),
                self.shape.point_masses@.len() == mass_index + 1,
                self.indexed_by(slots@, index),
                self.shape.springs@ == network(*sphere, old(self).tiles()) + links(
                    adjacent@.take(k as int),
                    members,
                ),
                self.shape.point_masses@ == old(self).shape.point_masses@.push(
                    PointMass { tile, position, mass: self.plate_type.particle_mass() },
                ),
                self.plate_type == old(self).plate_type,
                self.color == old(self).color,
                self.axis_of_rotation == old(self).axis_of_rotation,
                self.drift_direction == old(self).drift_direction,
            decreases adjacent@.len() - k,
        {
            let neighbour = adjacent[k];
            proof {
                assert(sphere.tile_valid(tile as int));
                lemma_position_of(members, neighbour);
                assert(adjacent@.take(k + 1).drop_last() == adjacent@.take(k as int));
            }
            match slots[neighbour] {
                TileSlot::Claimed { plate, mass } if plate == index => {
                    self.shape.add_spring(Spring { anchor_a: mass_index, anchor_b: mass });
                },
                _ => {},
            }
            k = k + 1;
        }
        assert(adjacent@.take(k as int) == adjacent@);
    }
}

} // verus!
