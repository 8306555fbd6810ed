//! The tiled sphere that plates are assembled on.
//!
//! The sphere is an indexable list of tiles. Each tile has the unit normal of
//! its face and the indices of the tiles next to it.

use vstd::prelude::*;
use crate::connectivity::{connected, is_connected, lists};
use crate::vec_utils::LatticeVec3;

verus! {

/// A face of the tessellation.
#[derive(Clone, Debug)]
pub struct ParticleTile {
    /// The position of this tile in the sphere's list.
    pub index: usize,
    /// Indices of the tiles next to this one.
    pub adjacent: Vec<usize>,
    /// The unit normal of the face.
    pub normal: LatticeVec3,
}

pub struct ParticleSphere {
    pub tiles: Vec<ParticleTile>,
}

impl ParticleSphere {
    pub open spec fn tile_count(self) -> nat {
        self.tiles@.len()
    }

    /// The tiles next to tile `tile`.
    pub open spec fn adjacency(self, tile: int) -> Seq<usize> {
        self.tiles@[tile].adjacent@
    }

    pub open spec fn normal(self, tile: int) -> LatticeVec3 {
        self.tiles@[tile].normal
    }

    /// The tile sits at its own index, its normal is a unit vector, and the
    /// tiles next to it exist.
    pub open spec fn tile_valid(self, tile: int) -> bool {
        &&& self.tiles@[tile].index == tile
        &&& self.normal(tile).is_unit()
        &&& forall|k: int|
            0 <= k < self.adjacency(tile).len() ==> (#[trigger] self.adjacency(tile)[k])
                < self.tile_count()
    }

    /// Every tile is valid, and the tiles can be counted in 32 bits.
    pub open spec fn valid(self) -> bool {
        &&& self.tile_count() <= u32::MAX
        &&& forall|tile: int| 0 <= tile < self.tile_count() ==> #[trigger] self.tile_valid(tile)
    }

    /// The tiles as the nodes of a graph, with an edge from every tile to each
    /// of the tiles next to it.
    pub open spec fn graph(self) -> Seq<Seq<usize>> {
        Seq::new(self.tile_count(), |tile: int| self.adjacency(tile))
    }

    /// The sphere is one piece: from any tile every tile can be reached by
    /// going from tile to adjacent tile.
    pub open spec fn connected(self) -> bool {
        connected(self.graph())
    }

    /// Takes the tiles as a sphere when they form a valid one.
    pub fn new(tiles: Vec<ParticleTile>) -> (r: Option<ParticleSphere>)
        ensures
            r.is_some() <==> (ParticleSphere { tiles }).valid(),
            r matches Some(sphere) ==> sphere.tiles == tiles,
    {
        let sphere = ParticleSphere { tiles };
        if sphere.is_valid() {
            Some(sphere)
        } else {
            None
        }
    }

    pub fn is_valid(&self) -> (r: bool)
        ensures
            r == self.valid(),
    {
        let count = self.tiles.len();
        if count > u32::MAX as usize {
            return false;
        }
        let mut tile: usize = 0;
        while tile < count
            invariant
                count == self.tile_count(),
                tile <= count,
                forall|t: int| 0 <= t < tile ==> #[trigger] self.tile_valid(t),
            decreases count - tile,
        {
            if !self.is_tile_valid(tile) {
                return false;
            }
            tile = tile + 1;
        }
        true
    }

    /// Decides [`ParticleSphere::connected`].
    pub fn is_connected(&self) -> (r: bool)
        requires
            self.valid(),
        ensures
            r == self.connected(),
    {
        let graph = self.adjacency_lists();
        proof {
            assert forall|node: int, k: int|
                0 <= node < self.graph().len() && 0 <= k < self.graph()[node].len() implies (
            #[trigger] self.graph()[node][k]) < self.graph().len() by {
                assert(self.tile_valid(node));
            }
        }
        is_connected(&graph)
    }

    /// A copy of the lists of adjacent tiles.
    pub fn adjacency_lists(&self) -> (r: Vec<Vec<usize>>)
        ensures
            lists(r@) == self.graph(),
    {
        let mut graph: Vec<Vec<usize>> = Vec::new();
        let mut tile: usize = 0;
        while tile < self.tiles.len()
            invariant
                tile <= self.tile_count(),
                graph@.len() == tile,
                forall|t: int| 0 <= t < tile ==> (#[trigger] graph@[t])@ == self.adjacency(t),
            decreases self.tile_count() - tile,
        {
            let adjacent = &self.tiles[tile].adjacent;
            let mut copy: Vec<usize> = Vec::new();
            let mut k: usize = 0;
            while k < adjacent.len()
                invariant
                    k <= adjacent@.len(),
                    copy@ == adjacent@.take(k as int),
                decreases adjacent@.len() - k,
            {
                copy.push(adjacent[k]);
                k = k + 1;
            }
            graph.push(copy);
            tile = tile + 1;
        }
        graph
    }

    fn is_tile_valid(&self, tile: usize) -> (r: bool)
        requires
            tile < self.tile_count(),
        ensures
            r == self.tile_valid(tile as int),
    {
        let entry = &self.tiles[tile];
        if entry.index != tile || !entry.normal.is_unit_vector() {
            return false;
        }
        let count = self.tiles.len();
        let mut k: usize = 0;
        while k < entry.adjacent.len()
            invariant
                count == self.tile_count(),
                tile < self.tile_count(),
                entry == self.tiles@[tile as int],
                k <= entry.adjacent@.len(),
                forall|j: int|
                    0 <= j < k ==> (#[trigger] self.adjacency(tile as int)[j]) < self.tile_count(),
            decreases entry.adjacent@.len() - k,
        {
            if entry.adjacent[k] >= count {
                assert(self.adjacency(tile as int)[k as int] >= self.tile_count());
                return false;
            }
            k = k + 1;
        }
        true
    }
}

} // verus!
