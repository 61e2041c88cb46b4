//! Tile maps: tile ids, chunks of tile cells, and the lookup of a cell's
//! tile and of a tile's data.
use crate::chunked_grid::{chunk_key, subindex_of, to_chunk_and_subindices, to_chunk_defined};
use std::collections::HashMap;
use vstd::prelude::*;

verus! {

/// A tile: its global id in the map's tile sheets, which is never zero.
#[derive(Debug, Clone, Copy, PartialEq, Eq, Hash, PartialOrd, Ord)]
pub struct TileId(u32);

impl TileId {
    #[verifier::type_invariant]
    spec fn nonzero(self) -> bool {
        self.0 != 0
    }

    /// The global id.
    pub closed spec fn gid(self) -> u32 {
        self.0
    }

    /// The tile with global id `gid`, which must not be zero.
    pub fn new(gid: u32) -> (r: Self)
        requires
            gid != 0,
        ensures
            r.gid() == gid,
    {
        TileId(gid)
    }

    /// The tile's position in the tile data table: its global id less one.
    pub fn get(&self) -> (r: usize)
        ensures
            r == self.gid() - 1,
    {
        proof {
            use_type_invariant(self);
        }
        (self.0 - 1) as usize
    }
}

/// The cells of one chunk of a tile grid, in row-major order.
#[derive(Debug)]
pub struct Chunk {
    pub(crate) tiles: Vec<Option<TileId>>,
}

impl Chunk {
    /// The cells.
    pub closed spec fn cells(&self) -> Seq<Option<TileId>> {
        self.tiles@
    }
}

/// A grid of tiles in square chunks, with per-tile data.
#[derive(Debug)]
pub struct TileGrid<T> {
    chunk_size: u16,
    tiles: Vec<T>,
    chunks: HashMap<u64, Chunk>,
}

impl<T> TileGrid<T> {
    /// The side length of the chunks.
    pub closed spec fn spec_chunk_size(&self) -> u16 {
        self.chunk_size
    }

    /// The per-tile data, indexed by `TileId::get`.
    pub closed spec fn tile_table(&self) -> Seq<T> {
        self.tiles@
    }

    /// The chunks, by chunk coordinates.
    pub closed spec fn chunks(&self) -> Map<(i32, i32), Seq<Option<TileId>>> {
        Map::new(
            |c: (i32, i32)| self.chunks@.contains_key(chunk_key(c)),
            |c: (i32, i32)| self.chunks@[chunk_key(c)].tiles@,
        )
    }

    /// An empty grid with chunks of side `chunk_size`.
    pub fn new(chunk_size: u16) -> (r: Self)
        ensures
            r.spec_chunk_size() == chunk_size,
            r.tile_table() == Seq::<T>::empty(),
            r.chunks() == Map::<(i32, i32), Seq<Option<TileId>>>::empty(),
    {
        let r = TileGrid { chunk_size, tiles: Vec::new(), chunks: HashMap::new() };
        assert(r.chunks() =~= Map::<(i32, i32), Seq<Option<TileId>>>::empty());
        r
    }

    /// The tile at cell `coords`; its chunk must exist.
    pub fn tile_at(&self, coords: (i32, i32)) -> (r: Option<TileId>)
        requires
            to_chunk_defined(self.spec_chunk_size(), coords),
            self.chunks().contains_key(crate::chunked_grid::chunk_cell(self.spec_chunk_size(), coords)),
            subindex_of(self.spec_chunk_size(), coords) < self.chunks()[crate::chunked_grid::chunk_cell(
                self.spec_chunk_size(),
                coords,
            )].len(),
        ensures
            r == self.chunks()[crate::chunked_grid::chunk_cell(self.spec_chunk_size(), coords)][subindex_of(
                self.spec_chunk_size(),
                coords,
            )],
    {
        broadcast use vstd::std_specs::hash::group_hash_axioms;

        let (chunk, offset) = to_chunk_and_subindices(self.chunk_size, coords);
        let key = crate::chunked_grid::to_chunk_key(chunk);
        proof {
            crate::chunked_grid::lemma_chunk_in_range(self.chunk_size, coords);
        }
        let c = self.chunks.get(&key).unwrap();
        c.tiles[offset]
    }

    /// The data of tile `id`.
    pub fn tile_data(&self, id: TileId) -> (r: &T)
        requires
            id.gid() - 1 < self.tile_table().len(),
        ensures
            *r == self.tile_table()[id.gid() - 1],
    {
        &self.tiles[id.get()]
    }
}

} // verus!
