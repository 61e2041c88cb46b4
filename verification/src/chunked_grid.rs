use crate::bitset::{
    bitset_clone, bitset_union_with, bitset_indices, bitset_add, bitset_clear, bitset_contains, bitset_index_limit, bitset_is_empty, bitset_members,
    bitset_remove, bitset_with_capacity,
};
use hibitset::BitSet;
use vstd::std_specs::iter::IteratorSpec;
use std::collections::hash_map::Entry;
use std::collections::HashMap;
use vstd::prelude::*;

verus! {

/// The chunk size used by grids that are not given one.
pub const DEFAULT_CHUNK_SIZE: u16 = 64;

/// The chunk that holds cell `(x, y)`: Euclidean division of each coordinate.
pub open spec fn chunk_of(chunk_size: u16, coords: (i32, i32)) -> (int, int) {
    (coords.0 as int / chunk_size as int, coords.1 as int / chunk_size as int)
}

/// The offset of cell `(x, y)` inside its chunk, in row-major order.
pub open spec fn subindex_of(chunk_size: u16, coords: (i32, i32)) -> int {
    coords.0 as int % chunk_size as int + (coords.1 as int % chunk_size as int) * chunk_size as int
}

/// The inputs on which `to_chunk_and_subindices` computes without overflow.
pub open spec fn to_chunk_defined(chunk_size: u16, coords: (i32, i32)) -> bool {
    &&& chunk_size > 0
    &&& subindex_of(chunk_size, coords) <= i32::MAX
}

/// `subindex` read as an `i32` (two's complement reinterpretation).
pub open spec fn as_signed(subindex: u32) -> int {
    if subindex <= i32::MAX { subindex as int } else { subindex as int - 0x1_0000_0000 }
}

/// The cell that lies at `subindex` of chunk `chunk`.
pub open spec fn cell_of(chunk_size: u16, chunk: (i32, i32), subindex: u32) -> (int, int) {
    let cs = chunk_size as int;
    (
        chunk.0 as int * cs + as_signed(subindex) % cs,
        chunk.1 as int * cs + as_signed(subindex) / cs,
    )
}

/// The inputs on which `from_chunk_and_subindices` computes without overflow.
pub open spec fn from_chunk_defined(chunk_size: u16, chunk: (i32, i32), subindex: u32) -> bool {
    let c = cell_of(chunk_size, chunk, subindex);
    &&& chunk_size > 0
    &&& i32::MIN <= chunk.0 as int * chunk_size as int <= i32::MAX
    &&& i32::MIN <= chunk.1 as int * chunk_size as int <= i32::MAX
    &&& i32::MIN <= c.0 <= i32::MAX
    &&& i32::MIN <= c.1 <= i32::MAX
}

/// Splits cell coordinates into the coordinates of the chunk holding the cell
/// and the cell's row-major offset inside that chunk.
pub fn to_chunk_and_subindices(chunk_size: u16, coords: (i32, i32)) -> (r: ((i32, i32), usize))
    requires
        to_chunk_defined(chunk_size, coords),
    ensures
        r.0.0 == chunk_of(chunk_size, coords).0,
        r.0.1 == chunk_of(chunk_size, coords).1,
        r.1 == subindex_of(chunk_size, coords),
        r.1 < chunk_size as int * chunk_size as int,
{
    let (x, y) = coords;
    let cs = chunk_size as i32;
    proof {
        lemma_euclid_ranges(x as int, cs as int);
        lemma_euclid_ranges(y as int, cs as int);
        lemma_subindex_bound(chunk_size, coords);
    }
    let chunk_index = (x.checked_div_euclid(cs).unwrap(), y.checked_div_euclid(cs).unwrap());
    let lx = x.checked_rem_euclid(cs).unwrap();
    let ly = y.checked_rem_euclid(cs).unwrap();
    proof {
        vstd::arithmetic::mul::lemma_mul_inequality(ly as int, cs as int - 1, cs as int);
        vstd::arithmetic::mul::lemma_mul_nonnegative(ly as int, cs as int);
    }
    let tile_index = (lx + ly * cs) as usize;
    (chunk_index, tile_index)
}

/// Joins chunk coordinates and an offset inside the chunk back into cell
/// coordinates.
pub fn from_chunk_and_subindices(chunk_size: u16, chunk: (i32, i32), subindex: u32) -> (r: (
    i32,
    i32,
))
    requires
        from_chunk_defined(chunk_size, chunk, subindex),
    ensures
        r.0 == cell_of(chunk_size, chunk, subindex).0,
        r.1 == cell_of(chunk_size, chunk, subindex).1,
{
    let (chunk_x, chunk_y) = chunk;
    let cs = chunk_size as i32;
    let signed: i32 = if subindex <= 2147483647 {
        subindex as i32
    } else {
        (subindex as i64 - 4294967296) as i32
    };
    proof {
        lemma_euclid_ranges(signed as int, cs as int);
    }
    let sub_x = signed.checked_rem_euclid(cs).unwrap();
    let sub_y = signed.checked_div_euclid(cs).unwrap();
    (chunk_x * cs + sub_x, chunk_y * cs + sub_y)
}


/// Law: splitting a cell into chunk and offset and joining them again gives
/// back the cell.
pub proof fn lemma_split_then_join(chunk_size: u16, coords: (i32, i32))
    requires
        to_chunk_defined(chunk_size, coords),
        from_chunk_defined(
            chunk_size,
            (chunk_of(chunk_size, coords).0 as i32, chunk_of(chunk_size, coords).1 as i32),
            subindex_of(chunk_size, coords) as u32,
        ),
    ensures
        cell_of(
            chunk_size,
            (chunk_of(chunk_size, coords).0 as i32, chunk_of(chunk_size, coords).1 as i32),
            subindex_of(chunk_size, coords) as u32,
        ) == (coords.0 as int, coords.1 as int),
{
    let cs = chunk_size as int;
    let (x, y) = (coords.0 as int, coords.1 as int);
    lemma_euclid_ranges(x, cs);
    lemma_euclid_ranges(y, cs);
    lemma_subindex_bound(chunk_size, coords);
    let i = subindex_of(chunk_size, coords);
    assert(as_signed(i as u32) == i);
    vstd::arithmetic::div_mod::lemma_fundamental_div_mod_converse(i, cs, y % cs, x % cs);
    assert(x / cs * cs == cs * (x / cs)) by (nonlinear_arith);
    assert(y / cs * cs == cs * (y / cs)) by (nonlinear_arith);
}

/// Law: joining a chunk and an in-chunk offset into a cell and splitting that
/// cell again gives back the chunk and the offset.
pub proof fn lemma_join_then_split(chunk_size: u16, chunk: (i32, i32), subindex: u32)
    requires
        from_chunk_defined(chunk_size, chunk, subindex),
        (subindex as int) < chunk_size as int * chunk_size as int,
        subindex <= i32::MAX,
    ensures
        ({
            let c = cell_of(chunk_size, chunk, subindex);
            let cell = (c.0 as i32, c.1 as i32);
            &&& to_chunk_defined(chunk_size, cell)
            &&& chunk_of(chunk_size, cell) == (chunk.0 as int, chunk.1 as int)
            &&& subindex_of(chunk_size, cell) == subindex as int
        }),
{
    let cs = chunk_size as int;
    let i = subindex as int;
    assert(as_signed(subindex) == i);
    lemma_euclid_ranges(i, cs);
    let sx = i % cs;
    let sy = i / cs;
    assert(sy < cs) by (nonlinear_arith)
        requires i == cs * sy + sx, 0 <= sx, i < cs * cs, cs > 0;
    let cx = chunk.0 as int * cs + sx;
    let cy = chunk.1 as int * cs + sy;
    vstd::arithmetic::div_mod::lemma_fundamental_div_mod_converse(cx, cs, chunk.0 as int, sx);
    vstd::arithmetic::div_mod::lemma_fundamental_div_mod_converse(cy, cs, chunk.1 as int, sy);
    assert(sx + sy * cs == i) by (nonlinear_arith)
        requires i == cs * sy + sx;
}


/// The key under which the chunk at `chunk` is stored: the two coordinates,
/// each shifted into `0..2^32`, side by side in one `u64`.
pub open spec fn chunk_key(chunk: (i32, i32)) -> u64 {
    ((chunk.0 as int + 0x8000_0000) * 0x1_0000_0000 + (chunk.1 as int + 0x8000_0000)) as u64
}

/// The chunk coordinates stored under `key`.
pub open spec fn key_chunk(key: u64) -> (i32, i32) {
    ((key as int / 0x1_0000_0000 - 0x8000_0000) as i32, (key as int % 0x1_0000_0000
        - 0x8000_0000) as i32)
}

/// Chunk coordinates and keys are in one-to-one correspondence.
pub proof fn lemma_chunk_key_bijective(chunk: (i32, i32), key: u64)
    ensures
        key_chunk(chunk_key(chunk)) == chunk,
        chunk_key(key_chunk(key)) == key,
{
    let a = chunk.0 as int + 0x8000_0000;
    let b = chunk.1 as int + 0x8000_0000;
    assert(0 <= a * 0x1_0000_0000 + b <= u64::MAX) by (nonlinear_arith)
        requires 0 <= a < 0x1_0000_0000, 0 <= b < 0x1_0000_0000;
    vstd::arithmetic::div_mod::lemma_fundamental_div_mod_converse(
        a * 0x1_0000_0000 + b,
        0x1_0000_0000,
        a,
        b,
    );
    let k = key as int;
    vstd::arithmetic::div_mod::lemma_fundamental_div_mod(k, 0x1_0000_0000);
    vstd::arithmetic::div_mod::lemma_mod_bound(k, 0x1_0000_0000);
    assert(0 <= k / 0x1_0000_0000 < 0x1_0000_0000) by (nonlinear_arith)
        requires k == 0x1_0000_0000 * (k / 0x1_0000_0000) + k % 0x1_0000_0000,
            0 <= k % 0x1_0000_0000 < 0x1_0000_0000, 0 <= k <= u64::MAX;
}

pub(crate) fn to_chunk_key(chunk: (i32, i32)) -> (k: u64)
    ensures
        k == chunk_key(chunk),
{
    let a = (chunk.0 as i64 + 2147483648) as u64;
    let b = (chunk.1 as i64 + 2147483648) as u64;
    proof {
        assert(0 <= a * 0x1_0000_0000 + b <= u64::MAX) by (nonlinear_arith)
            requires 0 <= a < 0x1_0000_0000, 0 <= b < 0x1_0000_0000;
    }
    a * 4294967296 + b
}


fn from_chunk_key(key: u64) -> (c: (i32, i32))
    ensures
        c == key_chunk(key),
{
    let hi = key / 4294967296;
    let lo = key % 4294967296;
    proof {
        assert(hi <= 0xffff_ffff) by (nonlinear_arith)
            requires hi == key / 4294967296, key <= u64::MAX;
    }
    ((hi as i64 - 2147483648) as i32, (lo as i64 - 2147483648) as i32)
}

/// One square block of a chunked grid, its cells in row-major order.
#[derive(Debug, Clone)]
pub struct Chunk<T: Default> {
    pub(crate) elements: Vec<T>,
}

impl<T: Default> Chunk<T> {
    /// The cells of the chunk.
    pub closed spec fn cells(&self) -> Seq<T> {
        self.elements@
    }

    /// A chunk of `chunk_size` by `chunk_size` cells, each a value that
    /// `T::default` gave.
    pub fn empty(chunk_size: u16) -> (r: Self)
        ensures
            r.cells().len() == chunk_size as int * chunk_size as int,
            forall|k: int|
                0 <= k < chunk_size as int * chunk_size as int ==> call_ensures(
                    T::default,
                    (),
                    #[trigger] r.cells()[k],
                ),
    {
        let c: u32 = chunk_size as u32;
        assert(c * c <= 65535 * 65535) by (nonlinear_arith)
            requires
                c <= 65535,
        ;
        let n: u32 = c * c;
        let mut elements: Vec<T> = Vec::new();
        let mut i: u32 = 0;
        while i < n
            invariant
                i <= n,
                n == chunk_size as int * chunk_size as int,
                elements@.len() == i,
                forall|k: int| 0 <= k < i ==> call_ensures(T::default, (), #[trigger] elements@[k]),
            decreases n - i,
        {
            let d = T::default();
            elements.push(d);
            i = i + 1;
        }
        Self { elements }
    }
}

/// A sparse two-dimensional grid of cells, allocated a chunk at a time.
#[derive(Debug, Clone)]
pub struct ChunkedGrid<T: Default> {
    chunk_size: u16,
    chunks: HashMap<u64, Chunk<T>>,
}

impl<T: Default> ChunkedGrid<T> {
    /// The side length of the grid's chunks.
    pub closed spec fn spec_chunk_size(&self) -> u16 {
        self.chunk_size
    }

    /// The allocated chunks, by chunk coordinates, with their cells.
    pub closed spec fn chunks(&self) -> Map<(i32, i32), Seq<T>> {
        Map::new(
            |c: (i32, i32)| self.chunks@.contains_key(chunk_key(c)),
            |c: (i32, i32)| self.chunks@[chunk_key(c)].elements@,
        )
    }

    /// The value of cell `coords`: present when its chunk is allocated.
    pub open spec fn cell(&self, coords: (i32, i32)) -> Option<T> {
        let ch = chunk_cell(self.spec_chunk_size(), coords);
        let i = subindex_of(self.spec_chunk_size(), coords);
        if to_chunk_defined(self.spec_chunk_size(), coords) && self.chunks().contains_key(ch) && i
            < self.chunks()[ch].len() {
            Some(self.chunks()[ch][i])
        } else {
            None
        }
    }

    /// Every allocated chunk holds `chunk_size` by `chunk_size` cells.
    pub closed spec fn wf(&self) -> bool {
        forall|k: u64| #[trigger]
            self.chunks@.contains_key(k) ==> self.chunks@[k].elements@.len()
                == self.chunk_size as int * self.chunk_size as int
    }

    /// An empty grid with chunks of the default size.
    pub fn new() -> (r: Self)
        ensures
            r.wf(),
            r.spec_chunk_size() == DEFAULT_CHUNK_SIZE,
            r.chunks() == Map::<(i32, i32), Seq<T>>::empty(),
    {
        Self::with_chunk_size(DEFAULT_CHUNK_SIZE)
    }

    /// An empty grid with chunks of side `chunk_size`.
    pub fn with_chunk_size(chunk_size: u16) -> (r: Self)
        ensures
            r.wf(),
            r.spec_chunk_size() == chunk_size,
            r.chunks() == Map::<(i32, i32), Seq<T>>::empty(),
    {
        let r = Self { chunk_size, chunks: HashMap::new() };
        assert(r.chunks() =~= Map::<(i32, i32), Seq<T>>::empty());
        r
    }

    /// The cell at `coords`, if its chunk is allocated.
    pub fn get(&self, coords: (i32, i32)) -> (r: Option<&T>)
        requires
            self.wf(),
            to_chunk_defined(self.spec_chunk_size(), coords),
        ensures
            ({
                let c = chunk_cell(self.spec_chunk_size(), coords);
                match r {
                    Some(v) => self.chunks().contains_key(c) && *v == self.chunks()[c][subindex_of(
                        self.spec_chunk_size(),
                        coords,
                    )],
                    None => !self.chunks().contains_key(c),
                }
            }),
            match r {
                Some(v) => self.cell(coords) == Some(*v),
                None => self.cell(coords) is None,
            },
    {
        broadcast use vstd::std_specs::hash::group_hash_axioms;

        let (chunk, offset) = to_chunk_and_subindices(self.chunk_size, coords);
        let key = to_chunk_key(chunk);
        proof {
            lemma_chunk_in_range(self.chunk_size, coords);
            lemma_subindex_bound(self.chunk_size, coords);
        }
        match self.chunks.get(&key) {
            Some(c) => Some(&c.elements[offset]),
            None => None,
        }
    }

    /// The cell at `coords`, for change in place, if its chunk is allocated.
    pub fn get_mut(&mut self, coords: (i32, i32)) -> (r: Option<&mut T>)
        requires
            old(self).wf(),
            to_chunk_defined(old(self).spec_chunk_size(), coords),
        ensures
            final(self).wf(),
            final(self).spec_chunk_size() == old(self).spec_chunk_size(),
            ({
                let c = chunk_cell(old(self).spec_chunk_size(), coords);
                let i = subindex_of(old(self).spec_chunk_size(), coords);
                match r {
                    Some(v) => old(self).cell(coords) == Some(*v) && final(self).chunks()
                        == old(self).chunks().insert(c, old(self).chunks()[c].update(i, *final(v))),
                    None => old(self).cell(coords) is None && final(self).chunks() == old(self).chunks(),
                }
            }),
    {
        broadcast use vstd::std_specs::hash::group_hash_axioms;

        let chunk_size = self.chunk_size;
        let (chunk, offset) = to_chunk_and_subindices(chunk_size, coords);
        let key = to_chunk_key(chunk);
        proof {
            lemma_chunk_in_range(chunk_size, coords);
            lemma_subindex_bound(chunk_size, coords);
        }
        match self.chunks.entry(key) {
            Entry::Occupied(o) => {
                let c = o.into_mut();
                Some(&mut c.elements[offset])
            },
            Entry::Vacant(_) => None,
        }
    }

    /// Sets the cell at `coords` to `value`, allocating its chunk (filled
    /// with default cells) if needed.
    pub fn set(&mut self, coords: (i32, i32), value: T)
        requires
            old(self).wf(),
            to_chunk_defined(old(self).spec_chunk_size(), coords),
        ensures
            final(self).wf(),
            final(self).spec_chunk_size() == old(self).spec_chunk_size(),
            final(self).cell(coords) == Some(value),
            forall|d: (i32, i32)|
                d != coords && old(self).cell(d) is Some ==> #[trigger] final(self).cell(d)
                    == old(self).cell(d),
            ({
                let c = chunk_cell(old(self).spec_chunk_size(), coords);
                let i = subindex_of(old(self).spec_chunk_size(), coords);
                &&& final(self).chunks().dom() == old(self).chunks().dom().insert(c)
                &&& forall|d: (i32, i32)|
                    #![trigger final(self).chunks()[d]]
                    d != c && old(self).chunks().contains_key(d) ==> final(self).chunks()[d]
                        == old(self).chunks()[d]
                &&& final(self).chunks()[c].len() == old(self).spec_chunk_size() as int * old(
                    self,
                ).spec_chunk_size() as int
                &&& final(self).chunks()[c][i] == value
                &&& old(self).chunks().contains_key(c) ==> final(self).chunks()[c]
                    == old(self).chunks()[c].update(i, value)
                &&& !old(self).chunks().contains_key(c) ==> forall|k: int|
                    0 <= k < old(self).spec_chunk_size() as int * old(self).spec_chunk_size() as int && k
                        != i ==> call_ensures(
                        T::default,
                        (),
                        #[trigger] final(self).chunks()[c][k],
                    )
            }),
    {
        broadcast use vstd::std_specs::hash::group_hash_axioms;

        let chunk_size = self.chunk_size;
        let (chunk, offset) = to_chunk_and_subindices(chunk_size, coords);
        let key = to_chunk_key(chunk);
        proof {
            lemma_chunk_in_range(chunk_size, coords);
            lemma_subindex_bound(chunk_size, coords);
        }
        let ghost old_map = self.chunks@;
        let mut target = match self.chunks.remove(&key) {
            Some(c) => c,
            None => Chunk::empty(chunk_size),
        };
        target.elements.set(offset, value);
        self.chunks.insert(key, target);
        proof {
            let c = chunk_cell(chunk_size, coords);
            assert(c == (chunk.0, chunk.1));
            assert forall|d: (i32, i32)| #![auto] d != c implies chunk_key(d) != key by {
                lemma_chunk_key_bijective(d, key);
                lemma_chunk_key_bijective(c, key);
            }
            assert(self.chunks().dom() =~= old(self).chunks().dom().insert(c));
            let cs = chunk_size;
            let i = subindex_of(cs, coords);
            assert forall|d: (i32, i32)|
                d != coords && old(self).cell(d) is Some implies #[trigger] self.cell(d) == old(
                self,
            ).cell(d) by {
                lemma_chunk_in_range(cs, d);
                if chunk_cell(cs, d) == c && subindex_of(cs, d) == i {
                    lemma_cell_injective(cs, d, coords);
                }
            }
        }
    }
}


/// The keys of `m`, each once, in the map's walk order.
fn key_list<V>(m: &HashMap<u64, V>) -> (r: Vec<u64>)
    ensures
        r@.to_set() == m@.dom(),
        r@.no_duplicates(),
{
    broadcast use vstd::std_specs::hash::group_hash_axioms;

    let mut r: Vec<u64> = Vec::new();
    let ghost full = vstd::std_specs::hash::spec_keys_iter(m).remaining().map_values(
        |x: &u64| *x,
    );
    proof {
        assert(full.to_set() =~= m@.dom()) by {
            assert forall|k: u64| full.to_set().contains(k) <==> m@.dom().contains(k) by {
                let u = vstd::std_specs::hash::spec_keys_iter(m).remaining().unref();
                if m@.dom().contains(k) {
                    assert(u.to_set().contains(k));
                    let j = u.index_of(k);
                    assert(full[j] == k);
                }
                if full.to_set().contains(k) {
                    let j = full.index_of(k);
                    assert(u[j] == k);
                }
            }
        }
    }
    for k in it: m.keys()
        invariant
            it.seq().map_values(|x: &u64| *x) == full,
            r@ == full.take(it.index() as int),
    {
        r.push(*k);
        proof {
            assert(r@ =~= full.take(it.index() + 1));
        }
    }
    proof {
        assert(r@ =~= full);
    }
    r
}

/// A sparse two-dimensional grid of booleans, allocated a chunk at a time;
/// each chunk is a bit set over the chunk's row-major cell offsets.
#[derive(Debug, Clone)]
pub struct ChunkedBitGrid {
    chunk_size: u16,
    chunks: HashMap<u64, BitSet>,
}

/// The cells set in a chunk map: `(x, y)` is set when its chunk is allocated
/// and holds the cell's offset.
pub open spec fn bit_cells(chunk_size: u16, chunks: Map<(i32, i32), Set<u32>>) -> Set<(i32, i32)> {
    Set::new(
        |c: (i32, i32)|
            {
                let ch = chunk_cell(chunk_size, c);
                &&& to_chunk_defined(chunk_size, c)
                &&& chunks.contains_key(ch)
                &&& chunks[ch].contains(subindex_of(chunk_size, c) as u32)
            },
    )
}

impl ChunkedBitGrid {
    /// The side length of the grid's chunks.
    pub closed spec fn spec_chunk_size(&self) -> u16 {
        self.chunk_size
    }

    /// The allocated chunks, by chunk coordinates, with the offsets set in
    /// each.
    pub closed spec fn chunks(&self) -> Map<(i32, i32), Set<u32>> {
        Map::new(
            |c: (i32, i32)| self.chunks@.contains_key(chunk_key(c)),
            |c: (i32, i32)| bitset_members(self.chunks@[chunk_key(c)]),
        )
    }

    /// An empty grid with chunks of the default size.
    pub fn new() -> (r: Self)
        ensures
            r.spec_chunk_size() == DEFAULT_CHUNK_SIZE,
            r.chunks() == Map::<(i32, i32), Set<u32>>::empty(),
    {
        Self::with_chunk_size(DEFAULT_CHUNK_SIZE)
    }

    /// An empty grid with chunks of side `chunk_size`.
    pub fn with_chunk_size(chunk_size: u16) -> (r: Self)
        ensures
            r.spec_chunk_size() == chunk_size,
            r.chunks() == Map::<(i32, i32), Set<u32>>::empty(),
    {
        let r = Self { chunk_size, chunks: HashMap::new() };
        assert(r.chunks() =~= Map::<(i32, i32), Set<u32>>::empty());
        r
    }

    /// The side length of the grid's chunks.
    pub fn chunk_size(&self) -> (r: u16)
        ensures
            r == self.spec_chunk_size(),
    {
        self.chunk_size
    }

    /// Unsets every cell, keeping every allocated chunk.
    pub fn clear(&mut self)
        ensures
            final(self).spec_chunk_size() == old(self).spec_chunk_size(),
            final(self).chunks().dom() == old(self).chunks().dom(),
            forall|c: (i32, i32)| #[trigger]
                final(self).chunks().contains_key(c) ==> final(self).chunks()[c]
                    == Set::<u32>::empty(),
    {
        broadcast use vstd::std_specs::hash::group_hash_axioms;

        let keys = key_list(&self.chunks);
        let ghost old_map = self.chunks@;
        let mut i: usize = 0;
        while i < keys.len()
            invariant
                0 <= i <= keys@.len(),
                keys@.to_set() == old_map.dom(),
                keys@.no_duplicates(),
                self.chunks@.dom() == old_map.dom(),
                self.chunk_size == old(self).chunk_size,
                forall|j: int| 0 <= j < i ==> bitset_members(#[trigger] self.chunks@[keys@[j]])
                    == Set::<u32>::empty(),
            decreases keys@.len() - i,
        {
            let k = keys[i];
            assert(keys@.to_set().contains(k));
            let mut chunk = self.chunks.remove(&k).unwrap();
            bitset_clear(&mut chunk);
            self.chunks.insert(k, chunk);
            assert(self.chunks@.dom() =~= old_map.dom());
            proof {
                assert forall|j: int| 0 <= j < i + 1 implies bitset_members(
                    #[trigger] self.chunks@[keys@[j]],
                ) == Set::<u32>::empty() by {
                    if j < i {
                        assert(keys@[j] != k);
                    }
                }
            }
            i = i + 1;
        }
        proof {
            assert forall|k: u64| #[trigger] self.chunks@.contains_key(k) implies bitset_members(
                self.chunks@[k],
            ) == Set::<u32>::empty() by {
                assert(keys@.to_set().contains(k));
                let j = keys@.index_of(k);
            }
            assert(self.chunks().dom() =~= old(self).chunks().dom());
        }
    }

    /// Drops every allocated chunk in which no cell is set.
    pub fn sweep_chunks(&mut self)
        ensures
            final(self).spec_chunk_size() == old(self).spec_chunk_size(),
            final(self).chunks() == old(self).chunks().restrict(
                old(self).chunks().dom().filter(
                    |c: (i32, i32)| old(self).chunks()[c] != Set::<u32>::empty(),
                ),
            ),
    {
        broadcast use vstd::std_specs::hash::group_hash_axioms;

        let keys = key_list(&self.chunks);
        let ghost old_map = self.chunks@;
        let mut i: usize = 0;
        while i < keys.len()
            invariant
                0 <= i <= keys@.len(),
                keys@.to_set() == old_map.dom(),
                keys@.no_duplicates(),
                self.chunk_size == old(self).chunk_size,
                forall|k: u64| #[trigger]
                    self.chunks@.contains_key(k) ==> old_map.contains_key(k) && self.chunks@[k]
                        == old_map[k],
                forall|j: int|
                    #![trigger keys@[j]]
                    0 <= j < keys@.len() ==> (self.chunks@.contains_key(keys@[j]) <==> (i <= j
                        || bitset_members(old_map[keys@[j]]) != Set::<u32>::empty())),
            decreases keys@.len() - i,
        {
            let k = keys[i];
            assert(keys@.to_set().contains(k));
            let empty = bitset_is_empty(self.chunks.get(&k).unwrap());
            if empty {
                self.chunks.remove(&k);
            }
            proof {
                assert forall|j: int| #![trigger keys@[j]] 0 <= j < keys@.len() implies (
                self.chunks@.contains_key(keys@[j]) <==> (i + 1 <= j || bitset_members(
                    old_map[keys@[j]],
                ) != Set::<u32>::empty())) by {
                    if j != i {
                        assert(keys@[j] != k);
                    }
                }
            }
            i = i + 1;
        }
        proof {
            let kept = old(self).chunks().dom().filter(
                |c: (i32, i32)| old(self).chunks()[c] != Set::<u32>::empty(),
            );
            assert forall|c: (i32, i32)| #![auto]
                self.chunks().contains_key(c) <==> old(self).chunks().restrict(kept).contains_key(
                    c,
                ) by {
                let k = chunk_key(c);
                if old_map.contains_key(k) {
                    assert(keys@.to_set().contains(k));
                    let j = keys@.index_of(k);
                    assert(keys@[j] == k);
                }
            }
            assert(self.chunks() =~= old(self).chunks().restrict(kept));
        }
    }


    /// Every set bit of every allocated chunk names a cell whose coordinates
    /// fit in `i32`.
    pub open spec fn cells_representable(&self) -> bool {
        forall|c: (i32, i32), b: u32|
            #![trigger self.chunks()[c].contains(b)]
            self.chunks().contains_key(c) && self.chunks()[c].contains(b) ==> from_chunk_defined(
                self.spec_chunk_size(),
                c,
                b,
            )
    }

    /// The cells named by the set bits of the allocated chunks.
    pub open spec fn listed_cells(&self) -> Set<(i32, i32)> {
        Set::new(
            |p: (i32, i32)|
                exists|c: (i32, i32), b: u32|
                    #![trigger self.chunks()[c].contains(b), cell_of(self.spec_chunk_size(), c, b)]
                    self.chunks().contains_key(c) && self.chunks()[c].contains(b) && p == (
                        cell_of(self.spec_chunk_size(), c, b).0 as i32,
                        cell_of(self.spec_chunk_size(), c, b).1 as i32,
                    ),
        )
    }


    /// Appends the cells named by `bits` in chunk `chunk_coords`.
    fn push_chunk_cells(&self, chunk_coords: (i32, i32), bits: &Vec<u32>, r: &mut Vec<(i32, i32)>)
        requires
            self.cells_representable(),
            self.chunks().contains_key(chunk_coords),
            bits@.to_set() == self.chunks()[chunk_coords],
            forall|p: (i32, i32)| #[trigger]
                old(r)@.contains(p) ==> self.listed_cells().contains(p),
        ensures
            forall|p: (i32, i32)| #[trigger] old(r)@.contains(p) ==> final(r)@.contains(p),
            forall|p: (i32, i32)| #[trigger]
                final(r)@.contains(p) ==> self.listed_cells().contains(p),
            forall|b: u32| #[trigger]
                self.chunks()[chunk_coords].contains(b) ==> final(r)@.contains(
                    (
                        cell_of(self.spec_chunk_size(), chunk_coords, b).0 as i32,
                        cell_of(self.spec_chunk_size(), chunk_coords, b).1 as i32,
                    ),
                ),
    {
        let chunk_size = self.chunk_size;
        let ghost r0 = r@;
        let mut n: usize = 0;
        while n < bits.len()
            invariant
                0 <= n <= bits@.len(),
                bits@.to_set() == self.chunks()[chunk_coords],
                self.chunks().contains_key(chunk_coords),
                chunk_size == self.chunk_size,
                self.cells_representable(),
                forall|p: (i32, i32)| #[trigger] r0.contains(p) ==> r@.contains(p),
                forall|p: (i32, i32)| #[trigger] r@.contains(p) ==> self.listed_cells().contains(p),
                forall|m: int|
                    #![trigger bits@[m]]
                    0 <= m < n ==> r@.contains(
                        (
                            cell_of(chunk_size, chunk_coords, bits@[m]).0 as i32,
                            cell_of(chunk_size, chunk_coords, bits@[m]).1 as i32,
                        ),
                    ),
            decreases bits@.len() - n,
        {
            let b = bits[n];
            proof {
                assert(bits@.to_set().contains(b));
                assert(self.chunks()[chunk_coords].contains(b));
            }
            let cell = from_chunk_and_subindices(chunk_size, chunk_coords, b);
            let ghost r_prev = r@;
            r.push(cell);
            proof {
                assert(self.listed_cells().contains(cell));
                assert forall|p: (i32, i32)| r_prev.contains(p) implies r@.contains(p) by {
                    let j = r_prev.index_of(p);
                    assert(r@[j] == p);
                }
                assert(r@[r@.len() - 1] == cell);
                assert forall|p: (i32, i32)| r@.contains(p) implies self.listed_cells().contains(
                    p,
                ) by {
                    if p != cell {
                        assert(r@ == r_prev.push(cell));
                        let j = r@.index_of(p);
                        assert(r@[j] == p);
                        assert(j < r_prev.len());
                        assert(r_prev[j] == p);
                        assert(r_prev.contains(p));
                    }
                }
            }
            n = n + 1;
        }
        proof {
            assert forall|b: u32| #[trigger]
                self.chunks()[chunk_coords].contains(b) implies r@.contains(
                (
                    cell_of(self.spec_chunk_size(), chunk_coords, b).0 as i32,
                    cell_of(self.spec_chunk_size(), chunk_coords, b).1 as i32,
                ),
            ) by {
                assert(bits@.to_set().contains(b));
                let m = bits@.index_of(b);
                assert(bits@[m] == b);
            }
        }
    }

    /// The set cells: for each allocated chunk, in the map's walk order,
    /// the cells of its set offsets in increasing order.
    pub fn iter(&self) -> (r: Vec<(i32, i32)>)
        requires
            self.cells_representable(),
        ensures
            r@.to_set() == self.listed_cells(),
    {
        broadcast use vstd::std_specs::hash::group_hash_axioms;

        let chunk_size = self.chunk_size;
        let keys = key_list(&self.chunks);
        let mut r: Vec<(i32, i32)> = Vec::new();
        let mut i: usize = 0;
        while i < keys.len()
            invariant
                0 <= i <= keys@.len(),
                keys@.to_set() == self.chunks@.dom(),
                chunk_size == self.chunk_size,
                self.cells_representable(),
                forall|p: (i32, i32)| #[trigger]
                    r@.contains(p) ==> self.listed_cells().contains(p),
                forall|j: int, b: u32|
                    #![trigger bitset_members(self.chunks@[keys@[j]]).contains(b)]
                    0 <= j < i && bitset_members(self.chunks@[keys@[j]]).contains(b) ==> r@.contains(
                        (
                            cell_of(chunk_size, key_chunk(keys@[j]), b).0 as i32,
                            cell_of(chunk_size, key_chunk(keys@[j]), b).1 as i32,
                        ),
                    ),
            decreases keys@.len() - i,
        {
            let k = keys[i];
            assert(keys@.to_set().contains(k));
            let chunk_coords = from_chunk_key(k);
            proof {
                lemma_chunk_key_bijective(chunk_coords, k);
            }
            let chunk = self.chunks.get(&k).unwrap();
            let bits = bitset_indices(chunk);
            self.push_chunk_cells(chunk_coords, &bits, &mut r);
            proof {
                assert(self.chunks()[chunk_coords] == bitset_members(*chunk));
            }
            proof {
                assert forall|j: int, b: u32|
                    #![trigger bitset_members(self.chunks@[keys@[j]]).contains(b)]
                    0 <= j < i + 1 && bitset_members(self.chunks@[keys@[j]]).contains(b)
                        implies r@.contains(
                    (
                        cell_of(chunk_size, key_chunk(keys@[j]), b).0 as i32,
                        cell_of(chunk_size, key_chunk(keys@[j]), b).1 as i32,
                    ),
                ) by {
                    if j == i {
                        assert(self.chunks()[key_chunk(keys@[j])].contains(b));
                    }
                }
            }
            i = i + 1;
        }
        proof {
            assert forall|p: (i32, i32)| self.listed_cells().contains(p) implies r@.contains(p) by {
                let (c, b) = choose|c: (i32, i32), b: u32|
                    #![trigger self.chunks()[c].contains(b), cell_of(self.spec_chunk_size(), c, b)]
                    self.chunks().contains_key(c) && self.chunks()[c].contains(b) && p == (
                        cell_of(self.spec_chunk_size(), c, b).0 as i32,
                        cell_of(self.spec_chunk_size(), c, b).1 as i32,
                    );
                let k = chunk_key(c);
                lemma_chunk_key_bijective(c, k);
                assert(keys@.to_set().contains(k));
                let j = keys@.index_of(k);
                assert(keys@[j] == k);
                assert(bitset_members(self.chunks@[keys@[j]]).contains(b));
            }
            assert(r@.to_set() =~= self.listed_cells());
        }
        r
    }


    /// Takes in the offsets set in `other`'s chunk `c`, if `other` has it.
    fn absorb_chunk(&mut self, c: (i32, i32), other: &ChunkedBitGrid)
        ensures
            final(self).spec_chunk_size() == old(self).spec_chunk_size(),
            final(self).chunks() == absorb(
                old(self).chunks(),
                other.chunks(),
                |d: (i32, i32)| d == c,
            ),
    {
        broadcast use vstd::std_specs::hash::group_hash_axioms;

        let key = to_chunk_key(c);
        match other.chunks.get(&key) {
            Some(other_chunk) => {
                let target = match self.chunks.remove(&key) {
                    Some(mut chunk) => {
                        bitset_union_with(&mut chunk, other_chunk);
                        chunk
                    },
                    None => bitset_clone(other_chunk),
                };
                self.chunks.insert(key, target);
                proof {
                    assert forall|d: (i32, i32)| #![auto] d != c implies chunk_key(d) != key by {
                        lemma_chunk_key_bijective(d, key);
                        lemma_chunk_key_bijective(c, key);
                    }
                    let want = absorb(old(self).chunks(), other.chunks(), |d: (i32, i32)| d == c);
                    assert(self.chunks().dom() =~= want.dom());
                    assert(want[c] =~= self.chunks()[c]);
                    assert(self.chunks() =~= want);
                }
            },
            None => {
                proof {
                    assert(!other.chunks().contains_key(c));
                    assert(self.chunks() =~= absorb(
                        old(self).chunks(),
                        other.chunks(),
                        |d: (i32, i32)| d == c,
                    ));
                }
            },
        }
    }

    /// Sets every cell that is set in `other`: `self |= other`. Both grids
    /// must use the same chunk size.
    pub fn bitor_assign(&mut self, other: &ChunkedBitGrid)
        requires
            old(self).spec_chunk_size() == other.spec_chunk_size(),
        ensures
            final(self).spec_chunk_size() == old(self).spec_chunk_size(),
            final(self).chunks() == absorb(
                old(self).chunks(),
                other.chunks(),
                |c: (i32, i32)| true,
            ),
    {
        broadcast use vstd::std_specs::hash::group_hash_axioms;

        let keys = key_list(&other.chunks);
        let mut i: usize = 0;
        let ghost seen = |c: (i32, i32)| false;
        proof {
            assert(self.chunks() =~= absorb(old(self).chunks(), other.chunks(), seen));
        }
        while i < keys.len()
            invariant
                0 <= i <= keys@.len(),
                keys@.to_set() == other.chunks@.dom(),
                self.chunk_size == old(self).chunk_size,
                self.chunks() == absorb(
                    old(self).chunks(),
                    other.chunks(),
                    |c: (i32, i32)| exists|j: int| 0 <= j < i && #[trigger] keys@[j] == chunk_key(c),
                ),
            decreases keys@.len() - i,
        {
            let k = keys[i];
            let c = from_chunk_key(k);
            proof {
                lemma_chunk_key_bijective(c, k);
            }
            let ghost before = |d: (i32, i32)|
                exists|j: int| 0 <= j < i && #[trigger] keys@[j] == chunk_key(d);
            let ghost after = |d: (i32, i32)|
                exists|j: int| 0 <= j < i + 1 && #[trigger] keys@[j] == chunk_key(d);
            self.absorb_chunk(c, other);
            proof {
                assert forall|d: (i32, i32)| #[trigger] after(d) == (before(d) || d == c) by {
                    if d == c {
                        assert(keys@[i as int] == chunk_key(d));
                    }
                    if after(d) && !before(d) {
                        let j = choose|j: int| 0 <= j < i + 1 && #[trigger] keys@[j] == chunk_key(d);
                        assert(j == i);
                        lemma_chunk_key_bijective(d, k);
                    }
                }
                lemma_absorb_one_more(old(self).chunks(), other.chunks(), before, c, after);
            }
            i = i + 1;
        }
        proof {
            let done = |c: (i32, i32)|
                exists|j: int| 0 <= j < keys@.len() && #[trigger] keys@[j] == chunk_key(c);
            assert forall|c: (i32, i32)| #[trigger]
                other.chunks().contains_key(c) implies done(c) by {
                assert(keys@.to_set().contains(chunk_key(c)));
                let j = keys@.index_of(chunk_key(c));
                assert(keys@[j] == chunk_key(c));
            }
            let all = |c: (i32, i32)| true;
            assert(self.chunks() =~= absorb(old(self).chunks(), other.chunks(), all));
        }
    }

    /// For each grid of `others` in turn, takes in its chunks whose
    /// coordinates `(x, y)` satisfy `x_start <= x < x_end` and
    /// `y_start <= y < y_end`.
    pub fn union_region(
        &mut self,
        others: &Vec<&ChunkedBitGrid>,
        x_start: i32,
        x_end: i32,
        y_start: i32,
        y_end: i32,
    )
        ensures
            final(self).spec_chunk_size() == old(self).spec_chunk_size(),
            final(self).chunks() == absorb_all(
                old(self).chunks(),
                others@.map_values(|g: &ChunkedBitGrid| g.chunks()),
                chunk_range(x_start, x_end, y_start, y_end),
            ),
    {
        let ghost region = chunk_range(x_start, x_end, y_start, y_end);
        let ghost maps = others@.map_values(|g: &ChunkedBitGrid| g.chunks());
        let mut i: usize = 0;
        while i < others.len()
            invariant
                0 <= i <= others@.len(),
                maps == others@.map_values(|g: &ChunkedBitGrid| g.chunks()),
                region == chunk_range(x_start, x_end, y_start, y_end),
                self.chunk_size == old(self).chunk_size,
                self.chunks() == absorb_all(old(self).chunks(), maps.take(i as int), region),
            decreases others@.len() - i,
        {
            let other = others[i];
            let ghost start = absorb_all(old(self).chunks(), maps.take(i as int), region);
            proof {
                let none = |d: (i32, i32)| false;
                assert(self.chunks() =~= absorb(start, other.chunks(), none));
            }
            let mut x = x_start;
            while x < x_end
                invariant
                    x_start <= x,
                    x <= x_end || x == x_start,
                    self.chunk_size == old(self).chunk_size,
                    self.chunks() == absorb(
                        start,
                        other.chunks(),
                        |d: (i32, i32)| region(d) && d.0 < x,
                    ),
                    region == chunk_range(x_start, x_end, y_start, y_end),
                decreases x_end - x,
            {
                let mut y = y_start;
                proof {
                    lemma_absorb_same_region(
                        start,
                        other.chunks(),
                        |d: (i32, i32)| region(d) && d.0 < x,
                        |d: (i32, i32)| region(d) && (d.0 < x || (d.0 == x && d.1 < y)),
                    );
                }
                while y < y_end
                    invariant
                        x_start <= x < x_end,
                        y_start <= y,
                        y <= y_end || y == y_start,
                        self.chunk_size == old(self).chunk_size,
                        self.chunks() == absorb(
                            start,
                            other.chunks(),
                            |d: (i32, i32)| region(d) && (d.0 < x || (d.0 == x && d.1 < y)),
                        ),
                        region == chunk_range(x_start, x_end, y_start, y_end),
                    decreases y_end - y,
                {
                    let ghost before = |d: (i32, i32)|
                        region(d) && (d.0 < x || (d.0 == x && d.1 < y));
                    let ghost after = |d: (i32, i32)|
                        region(d) && (d.0 < x || (d.0 == x && d.1 < y + 1));
                    self.absorb_chunk((x, y), other);
                    proof {
                        assert(region((x, y)));
                        assert forall|d: (i32, i32)| #[trigger]
                            after(d) == (before(d) || d == (x, y)) by {}
                        lemma_absorb_one_more(start, other.chunks(), before, (x, y), after);
                    }
                    y = y + 1;
                }
                proof {
                    lemma_absorb_same_region(
                        start,
                        other.chunks(),
                        |d: (i32, i32)| region(d) && (d.0 < x || (d.0 == x && d.1 < y)),
                        |d: (i32, i32)| region(d) && d.0 < x + 1,
                    );
                }
                x = x + 1;
            }
            proof {
                lemma_absorb_same_region(
                    start,
                    other.chunks(),
                    |d: (i32, i32)| region(d) && d.0 < x,
                    region,
                );
                assert(maps.take(i + 1).drop_last() =~= maps.take(i as int));
                assert(maps.take(i + 1).last() == other.chunks());
            }
            i = i + 1;
        }
        proof {
            assert(maps.take(others@.len() as int) =~= maps);
        }
    }

    /// Whether the cell at `coords` is set.
    pub fn get(&self, coords: (i32, i32)) -> (r: bool)
        requires
            to_chunk_defined(self.spec_chunk_size(), coords),
        ensures
            r == bit_cells(self.spec_chunk_size(), self.chunks()).contains(coords),
    {
        broadcast use vstd::std_specs::hash::group_hash_axioms;

        let (chunk, offset) = to_chunk_and_subindices(self.chunk_size, coords);
        let key = to_chunk_key(chunk);
        proof {
            lemma_chunk_in_range(self.chunk_size, coords);
            lemma_subindex_bound(self.chunk_size, coords);
        }
        match self.chunks.get(&key) {
            Some(c) => bitset_contains(c, offset as u32),
            None => false,
        }
    }

    /// Sets or unsets the cell at `coords`, allocating its chunk if needed.
    pub fn set(&mut self, coords: (i32, i32), value: bool)
        requires
            to_chunk_defined(old(self).spec_chunk_size(), coords),
            old(self).spec_chunk_size() as int * old(self).spec_chunk_size() as int
                <= bitset_index_limit(),
        ensures
            final(self).spec_chunk_size() == old(self).spec_chunk_size(),
            bit_cells(final(self).spec_chunk_size(), final(self).chunks()) == if value {
                bit_cells(old(self).spec_chunk_size(), old(self).chunks()).insert(coords)
            } else {
                bit_cells(old(self).spec_chunk_size(), old(self).chunks()).remove(coords)
            },
            ({
                let c = chunk_cell(old(self).spec_chunk_size(), coords);
                let i = subindex_of(old(self).spec_chunk_size(), coords) as u32;
                let before = if old(self).chunks().contains_key(c) {
                    old(self).chunks()[c]
                } else {
                    Set::<u32>::empty()
                };
                final(self).chunks() == old(self).chunks().insert(
                    c,
                    if value {
                        before.insert(i)
                    } else {
                        before.remove(i)
                    },
                )
            }),
    {
        broadcast use vstd::std_specs::hash::group_hash_axioms;

        let chunk_size = self.chunk_size;
        let (chunk, offset) = to_chunk_and_subindices(chunk_size, coords);
        let key = to_chunk_key(chunk);
        proof {
            lemma_chunk_in_range(chunk_size, coords);
            lemma_subindex_bound(chunk_size, coords);
        }
        let ghost old_map = self.chunks@;
        let capacity = (chunk_size as u32) * (chunk_size as u32);
        let mut target = match self.chunks.remove(&key) {
            Some(c) => c,
            None => bitset_with_capacity(capacity),
        };
        if value {
            bitset_add(&mut target, offset as u32);
        } else {
            bitset_remove(&mut target, offset as u32);
        }
        self.chunks.insert(key, target);
        proof {
            let c = chunk_cell(chunk_size, coords);
            assert(c == (chunk.0, chunk.1));
            assert forall|d: (i32, i32)| #![auto] d != c implies chunk_key(d) != key by {
                lemma_chunk_key_bijective(d, key);
                lemma_chunk_key_bijective(c, key);
            }
            let i = subindex_of(chunk_size, coords) as u32;
            let before = if old(self).chunks().contains_key(c) {
                old(self).chunks()[c]
            } else {
                Set::<u32>::empty()
            };
            assert(self.chunks() =~= old(self).chunks().insert(
                c,
                if value {
                    before.insert(i)
                } else {
                    before.remove(i)
                },
            ));
            let cs = chunk_size;
            let s0 = bit_cells(cs, old(self).chunks());
            let s1 = bit_cells(cs, self.chunks());
            assert forall|d: (i32, i32)| #[trigger] s1.contains(d) == (if value {
                s0.insert(coords)
            } else {
                s0.remove(coords)
            }).contains(d) by {
                if d != coords && to_chunk_defined(cs, d) {
                    lemma_chunk_in_range(cs, d);
                    lemma_subindex_bound(cs, d);
                    if chunk_cell(cs, d) == c && subindex_of(cs, d) as u32 == i {
                        lemma_cell_injective(cs, d, coords);
                    }
                }
            }
            assert(s1 =~= (if value {
                s0.insert(coords)
            } else {
                s0.remove(coords)
            }));
        }
    }
}


/// The offsets set in chunk `c` of `chunks`, empty when `c` is not allocated.
pub open spec fn chunk_or_empty(chunks: Map<(i32, i32), Set<u32>>, c: (i32, i32)) -> Set<u32> {
    if chunks.contains_key(c) {
        chunks[c]
    } else {
        Set::empty()
    }
}

/// `base` after taking in, for every chunk that `region` admits and `other`
/// allocates, the offsets set in `other`'s chunk.
pub open spec fn absorb(
    base: Map<(i32, i32), Set<u32>>,
    other: Map<(i32, i32), Set<u32>>,
    region: spec_fn((i32, i32)) -> bool,
) -> Map<(i32, i32), Set<u32>> {
    Map::new(
        |c: (i32, i32)| base.contains_key(c) || (region(c) && other.contains_key(c)),
        |c: (i32, i32)|
            if region(c) && other.contains_key(c) {
                chunk_or_empty(base, c).union(other[c])
            } else {
                base[c]
            },
    )
}

/// `base` after absorbing each map of `others` in turn.
pub open spec fn absorb_all(
    base: Map<(i32, i32), Set<u32>>,
    others: Seq<Map<(i32, i32), Set<u32>>>,
    region: spec_fn((i32, i32)) -> bool,
) -> Map<(i32, i32), Set<u32>>
    decreases others.len(),
{
    if others.len() == 0 {
        base
    } else {
        absorb(absorb_all(base, others.drop_last(), region), others.last(), region)
    }
}

/// Taking in the chunks of `others` over the chunk region `x_start..x_end`
/// by `y_start..y_end` (ends excluded) leaves every chunk outside the region
/// as it was, allocated exactly when it was; inside the region a chunk is
/// allocated exactly when the grid or one of `others` has it, and holds a
/// bit exactly when the grid or one of `others` holds it there.
pub proof fn lemma_union_region(
    base: Map<(i32, i32), Set<u32>>,
    others: Seq<Map<(i32, i32), Set<u32>>>,
    x_start: i32,
    x_end: i32,
    y_start: i32,
    y_end: i32,
    c: (i32, i32),
)
    ensures
        !(x_start <= c.0 && c.0 < x_end && y_start <= c.1 && c.1 < y_end) ==> {
            &&& absorb_all(base, others, chunk_range(x_start, x_end, y_start, y_end)).contains_key(c)
                == base.contains_key(c)
            &&& base.contains_key(c) ==> absorb_all(base, others, chunk_range(x_start, x_end, y_start, y_end))[c]
                == base[c]
        },
        x_start <= c.0 && c.0 < x_end && y_start <= c.1 && c.1 < y_end ==> {
            &&& absorb_all(base, others, chunk_range(x_start, x_end, y_start, y_end)).contains_key(c) <==> (
            base.contains_key(c) || exists|k: int| 0 <= k < others.len() && (#[trigger] others[k]).contains_key(c))
            &&& forall|b: u32|
                #[trigger] chunk_or_empty(absorb_all(base, others, chunk_range(x_start, x_end, y_start, y_end)), c).contains(b)
                    <==> (chunk_or_empty(base, c).contains(b) || exists|k: int|
                    0 <= k < others.len() && chunk_or_empty(#[trigger] others[k], c).contains(b))
        },
    decreases others.len(),
{
    let region = chunk_range(x_start, x_end, y_start, y_end);
    if others.len() > 0 {
        let init = others.drop_last();
        let last = others.last();
        lemma_union_region(base, init, x_start, x_end, y_start, y_end, c);
        let m = absorb_all(base, init, region);
        let r = absorb_all(base, others, region);
        assert(r == absorb(m, last, region));
        let inside = x_start <= c.0 && c.0 < x_end && y_start <= c.1 && c.1 < y_end;
        assert(region(c) == inside);
        if inside {
            if exists|k: int| 0 <= k < others.len() && (#[trigger] others[k]).contains_key(c) {
                let k = choose|k: int| 0 <= k < others.len() && (#[trigger] others[k]).contains_key(c);
                if k < init.len() {
                    assert(init[k] == others[k]);
                }
            }
            if exists|k: int| 0 <= k < init.len() && (#[trigger] init[k]).contains_key(c) {
                let k = choose|k: int| 0 <= k < init.len() && (#[trigger] init[k]).contains_key(c);
                assert(others[k] == init[k]);
            }
            assert forall|b: u32| #[trigger] chunk_or_empty(r, c).contains(b) <==> (chunk_or_empty(base, c).contains(b)
                || exists|k: int| 0 <= k < others.len() && chunk_or_empty(#[trigger] others[k], c).contains(b)) by {
                assert(chunk_or_empty(m, c).contains(b) <==> (chunk_or_empty(base, c).contains(b) || exists|k: int|
                    0 <= k < init.len() && chunk_or_empty(#[trigger] init[k], c).contains(b)));
                if exists|k: int| 0 <= k < others.len() && chunk_or_empty(#[trigger] others[k], c).contains(b) {
                    let k = choose|k: int| 0 <= k < others.len() && chunk_or_empty(#[trigger] others[k], c).contains(b);
                    if k < init.len() {
                        assert(init[k] == others[k]);
                    } else {
                        assert(others[k] == last);
                    }
                }
                if exists|k: int| 0 <= k < init.len() && chunk_or_empty(#[trigger] init[k], c).contains(b) {
                    let k = choose|k: int| 0 <= k < init.len() && chunk_or_empty(#[trigger] init[k], c).contains(b);
                    assert(others[k] == init[k]);
                }
                if chunk_or_empty(last, c).contains(b) {
                    assert(others[others.len() - 1] == last);
                }
            }
        }
    }
}

/// Taking in every chunk of `other` (`bitor_assign`) allocates a chunk
/// exactly when either grid has it, and sets a bit exactly when either grid
/// sets it there: the union of the two grids.
pub proof fn lemma_absorb_everything(
    base: Map<(i32, i32), Set<u32>>,
    other: Map<(i32, i32), Set<u32>>,
    everywhere: spec_fn((i32, i32)) -> bool,
    c: (i32, i32),
)
    requires
        forall|d: (i32, i32)| #[trigger] everywhere(d),
    ensures
        absorb(base, other, everywhere).contains_key(c) == (base.contains_key(c) || other.contains_key(c)),
        forall|b: u32|
            #[trigger] chunk_or_empty(absorb(base, other, everywhere), c).contains(b) == (chunk_or_empty(
                base,
                c,
            ).contains(b) || chunk_or_empty(other, c).contains(b)),
{
    assert(everywhere(c));
}

/// The chunks `(x, y)` with `x_start <= x < x_end` and `y_start <= y < y_end`.
pub open spec fn chunk_range(x_start: i32, x_end: i32, y_start: i32, y_end: i32) -> spec_fn(
    (i32, i32),
) -> bool {
    |c: (i32, i32)| x_start <= c.0 < x_end && y_start <= c.1 < y_end
}

/// Absorbing one more chunk is absorbing over the larger region.
proof fn lemma_absorb_one_more(
    base: Map<(i32, i32), Set<u32>>,
    other: Map<(i32, i32), Set<u32>>,
    region: spec_fn((i32, i32)) -> bool,
    c: (i32, i32),
    larger: spec_fn((i32, i32)) -> bool,
)
    requires
        forall|d: (i32, i32)| #[trigger] larger(d) == (region(d) || d == c),
    ensures
        absorb(absorb(base, other, region), other, |d: (i32, i32)| d == c) == absorb(
            base,
            other,
            larger,
        ),
{
    let lhs = absorb(absorb(base, other, region), other, |d: (i32, i32)| d == c);
    let rhs = absorb(base, other, larger);
    assert forall|d: (i32, i32)| #[trigger] lhs.contains_key(d) implies lhs[d] == rhs[d] by {
        if d == c && other.contains_key(c) && region(c) {
            assert(lhs[d] =~= rhs[d]);
        }
    }
    assert(lhs =~= rhs);
}

/// Absorbing depends on the region only through which chunks it admits.
proof fn lemma_absorb_same_region(
    base: Map<(i32, i32), Set<u32>>,
    other: Map<(i32, i32), Set<u32>>,
    r1: spec_fn((i32, i32)) -> bool,
    r2: spec_fn((i32, i32)) -> bool,
)
    requires
        forall|d: (i32, i32)| #[trigger] r1(d) == r2(d),
    ensures
        absorb(base, other, r1) == absorb(base, other, r2),
{
    assert(absorb(base, other, r1) =~= absorb(base, other, r2));
}

/// The chunk coordinates of cell `coords`, as `i32`s.
pub open spec fn chunk_cell(chunk_size: u16, coords: (i32, i32)) -> (i32, i32) {
    (chunk_of(chunk_size, coords).0 as i32, chunk_of(chunk_size, coords).1 as i32)
}

pub(crate) proof fn lemma_chunk_in_range(chunk_size: u16, coords: (i32, i32))
    requires
        chunk_size > 0,
    ensures
        chunk_cell(chunk_size, coords).0 == chunk_of(chunk_size, coords).0,
        chunk_cell(chunk_size, coords).1 == chunk_of(chunk_size, coords).1,
{
    lemma_euclid_ranges(coords.0 as int, chunk_size as int);
    lemma_euclid_ranges(coords.1 as int, chunk_size as int);
}


/// Law: distinct cells differ in their chunk or in their offset inside it.
pub proof fn lemma_cell_injective(chunk_size: u16, a: (i32, i32), b: (i32, i32))
    requires
        to_chunk_defined(chunk_size, a),
        to_chunk_defined(chunk_size, b),
        chunk_of(chunk_size, a) == chunk_of(chunk_size, b),
        subindex_of(chunk_size, a) == subindex_of(chunk_size, b),
    ensures
        a == b,
{
    let cs = chunk_size as int;
    lemma_euclid_ranges(a.0 as int, cs);
    lemma_euclid_ranges(a.1 as int, cs);
    lemma_euclid_ranges(b.0 as int, cs);
    lemma_euclid_ranges(b.1 as int, cs);
    let i = subindex_of(chunk_size, a);
    vstd::arithmetic::div_mod::lemma_fundamental_div_mod_converse(
        i,
        cs,
        a.1 as int % cs,
        a.0 as int % cs,
    );
    vstd::arithmetic::div_mod::lemma_fundamental_div_mod_converse(
        i,
        cs,
        b.1 as int % cs,
        b.0 as int % cs,
    );
}

/// Range facts of Euclidean division by a positive divisor.
proof fn lemma_euclid_ranges(x: int, d: int)
    requires
        0 < d,
    ensures
        0 <= x % d < d,
        x == d * (x / d) + x % d,
        x >= 0 ==> 0 <= x / d <= x,
        x < 0 ==> x <= x / d < 0,
{
    vstd::arithmetic::div_mod::lemma_fundamental_div_mod(x, d);
    vstd::arithmetic::div_mod::lemma_mod_bound(x, d);
    if x >= 0 {
        vstd::arithmetic::div_mod::lemma_div_pos_is_pos(x, d);
        vstd::arithmetic::div_mod::lemma_div_is_ordered_by_denominator(x, 1, d);
    } else {
        assert(x / d < 0) by (nonlinear_arith)
            requires x == d * (x / d) + x % d, 0 <= x % d < d, x < 0, d > 0;
        assert(x <= x / d) by (nonlinear_arith)
            requires x == d * (x / d) + x % d, 0 <= x % d < d, x / d < 0, d > 0;
    }
}

proof fn lemma_subindex_bound(chunk_size: u16, coords: (i32, i32))
    requires
        chunk_size > 0,
    ensures
        0 <= subindex_of(chunk_size, coords) < chunk_size as int * chunk_size as int,
{
    let cs = chunk_size as int;
    let lx = coords.0 as int % cs;
    let ly = coords.1 as int % cs;
    lemma_euclid_ranges(coords.0 as int, cs);
    lemma_euclid_ranges(coords.1 as int, cs);
    assert(0 <= lx + ly * cs < cs * cs) by (nonlinear_arith)
        requires 0 <= lx < cs, 0 <= ly < cs;
}

} // verus!
