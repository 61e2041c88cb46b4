//! Spatial hashing of objects into square buckets of a grid, by the cells
//! that their bounds touch, so that the objects near a region are found
//! from the buckets of the region's cells.
use crate::chunked_grid::{chunk_key, lemma_chunk_key_bijective, to_chunk_key};
use std::collections::HashMap;
use vstd::prelude::*;

verus! {

/// The handle of an object in a [`SpatialHasher`]: a slot and the
/// generation of the slot's occupant.
#[derive(Debug, Clone, Copy, PartialEq, Eq, Hash)]
pub struct ObjectIndex {
    slot: u32,
    generation: u32,
}

impl ObjectIndex {
    /// The slot of the object.
    pub closed spec fn slot(self) -> u32 {
        self.slot
    }

    /// The generation of the slot's occupant.
    pub closed spec fn generation(self) -> u32 {
        self.generation
    }
}

/// Handles are ordered by slot, then by generation.
pub open spec fn index_lt(a: ObjectIndex, b: ObjectIndex) -> bool {
    a.slot() < b.slot() || (a.slot() == b.slot() && a.generation() < b.generation())
}

fn index_less(a: ObjectIndex, b: ObjectIndex) -> (r: bool)
    ensures
        r == index_lt(a, b),
{
    a.slot < b.slot || (a.slot == b.slot && a.generation < b.generation)
}

proof fn lemma_index_order(a: ObjectIndex, b: ObjectIndex)
    ensures
        !index_lt(a, a),
        index_lt(a, b) ==> !index_lt(b, a),
        a != b ==> index_lt(a, b) || index_lt(b, a),
{
}

/// The handles of `s` never decrease.
pub open spec fn sorted(s: Seq<ObjectIndex>) -> bool {
    forall|i: int, j: int| 0 <= i < j < s.len() ==> !index_lt(#[trigger] s[j], #[trigger] s[i])
}

/// The position of the first handle of `s` that is not below `id`: where a
/// binary search finds `id`, or would insert it.
pub open spec fn lower_bound(s: Seq<ObjectIndex>, id: ObjectIndex) -> int
    decreases s.len(),
{
    if s.len() == 0 {
        0
    } else if index_lt(s.last(), id) {
        s.len() as int
    } else {
        lower_bound(s.drop_last(), id)
    }
}

/// `s` with `id` put at its lower bound.
pub open spec fn insert_sorted(s: Seq<ObjectIndex>, id: ObjectIndex) -> Seq<ObjectIndex> {
    s.insert(lower_bound(s, id), id)
}

/// `s` with the handle at the lower bound of `id` taken out: `id` itself
/// where `s` holds it, else the next larger handle.
pub open spec fn remove_at_bound(s: Seq<ObjectIndex>, id: ObjectIndex) -> Seq<ObjectIndex> {
    s.remove(lower_bound(s, id))
}

proof fn lemma_lower_bound(s: Seq<ObjectIndex>, id: ObjectIndex)
    requires
        sorted(s),
    ensures
        0 <= lower_bound(s, id) <= s.len(),
        forall|k: int| 0 <= k < lower_bound(s, id) ==> index_lt(#[trigger] s[k], id),
        forall|k: int| lower_bound(s, id) <= k < s.len() ==> !index_lt(#[trigger] s[k], id),
    decreases s.len(),
{
    if s.len() > 0 {
        if index_lt(s.last(), id) {
            assert forall|k: int| 0 <= k < s.len() implies index_lt(#[trigger] s[k], id) by {
                if k < s.len() - 1 {
                    assert(!index_lt(s[s.len() - 1], s[k]));
                }
            }
        } else {
            lemma_lower_bound(s.drop_last(), id);
            assert forall|k: int| 0 <= k < lower_bound(s, id) implies index_lt(#[trigger] s[k], id) by {
                assert(s[k] == s.drop_last()[k]);
            }
            assert forall|k: int| lower_bound(s, id) <= k < s.len() implies !index_lt(#[trigger] s[k], id) by {
                if k < s.len() - 1 {
                    assert(s[k] == s.drop_last()[k]);
                }
            }
        }
    }
}

proof fn lemma_lower_bound_unique(s: Seq<ObjectIndex>, id: ObjectIndex, i: int)
    requires
        sorted(s),
        0 <= i <= s.len(),
        forall|k: int| 0 <= k < i ==> index_lt(#[trigger] s[k], id),
        forall|k: int| i <= k < s.len() ==> !index_lt(#[trigger] s[k], id),
    ensures
        lower_bound(s, id) == i,
{
    lemma_lower_bound(s, id);
    let b = lower_bound(s, id);
    if b < i {
        assert(index_lt(s[b], id));
    } else if i < b {
        assert(!index_lt(s[i], id));
    }
}

/// Binary search for the lower bound of `id` in a sorted list.
fn search(list: &Vec<ObjectIndex>, id: ObjectIndex) -> (r: usize)
    requires
        sorted(list@),
    ensures
        r == lower_bound(list@, id),
{
    let mut lo: usize = 0;
    let mut hi: usize = list.len();
    while lo < hi
        invariant
            0 <= lo <= hi <= list@.len(),
            sorted(list@),
            forall|k: int| 0 <= k < lo ==> index_lt(#[trigger] list@[k], id),
            forall|k: int| hi <= k < list@.len() ==> !index_lt(#[trigger] list@[k], id),
        decreases hi - lo,
    {
        let mid = lo + (hi - lo) / 2;
        if index_less(list[mid], id) {
            assert forall|k: int| 0 <= k < mid + 1 implies index_lt(#[trigger] list@[k], id) by {
                if k < mid {
                    assert(!index_lt(list@[mid as int], list@[k]));
                    lemma_index_order(list@[k], list@[mid as int]);
                    if list@[k] != list@[mid as int] {
                        assert(index_lt(list@[k], list@[mid as int]));
                    }
                }
            }
            lo = mid + 1;
        } else {
            assert forall|k: int| mid <= k < list@.len() implies !index_lt(#[trigger] list@[k], id) by {
                if k > mid {
                    assert(!index_lt(list@[k], list@[mid as int]));
                }
            }
            hi = mid;
        }
    }
    proof {
        lemma_lower_bound_unique(list@, id, lo as int);
    }
    lo
}

proof fn lemma_insert_sorted(s: Seq<ObjectIndex>, id: ObjectIndex)
    requires
        sorted(s),
    ensures
        sorted(insert_sorted(s, id)),
{
    lemma_lower_bound(s, id);
    let b = lower_bound(s, id);
    let t = insert_sorted(s, id);
    assert forall|i: int, j: int| 0 <= i < j < t.len() implies !index_lt(#[trigger] t[j], #[trigger] t[i]) by {
        if i < b && j < b {
        } else if i < b && j == b {
            lemma_index_order(t[i], id);
        } else if i < b {
            assert(t[j] == s[j - 1]);
            lemma_index_order(s[i], id);
        } else if i == b {
            assert(t[j] == s[j - 1]);
        } else {
            assert(t[j] == s[j - 1] && t[i] == s[i - 1]);
        }
    }
}

proof fn lemma_remove_sorted(s: Seq<ObjectIndex>, k: int)
    requires
        sorted(s),
        0 <= k < s.len(),
    ensures
        sorted(s.remove(k)),
{
    let t = s.remove(k);
    assert forall|i: int, j: int| 0 <= i < j < t.len() implies !index_lt(#[trigger] t[j], #[trigger] t[i]) by {
        let si = if i < k { i } else { i + 1 };
        let sj = if j < k { j } else { j + 1 };
        assert(t[i] == s[si] && t[j] == s[sj]);
    }
}

/// A rectangle of cells: the columns `x_start..x_end` of the rows
/// `y_start..y_end`.
#[derive(Debug, Clone, Copy, PartialEq, Eq)]
pub struct CellRange {
    pub x_start: i32,
    pub x_end: i32,
    pub y_start: i32,
    pub y_end: i32,
}

impl CellRange {
    /// Whether cell `c` lies in the rectangle.
    pub open spec fn has(self, c: (i32, i32)) -> bool {
        self.x_start <= c.0 < self.x_end && self.y_start <= c.1 < self.y_end
    }
}

/// The cells of column `x` from row `ys` up to, not including, row `ye`.
pub open spec fn column(x: int, ys: int, ye: int) -> Seq<(i32, i32)> {
    Seq::new(
        if ys < ye {
            (ye - ys) as nat
        } else {
            0
        },
        |j: int| (x as i32, (ys + j) as i32),
    )
}

/// The cells of the columns `xs..xe` of the rows `ys..ye`, column by column.
pub open spec fn cells_between(xs: int, xe: int, ys: int, ye: int) -> Seq<(i32, i32)>
    decreases xe - xs,
{
    if xe <= xs {
        Seq::empty()
    } else {
        cells_between(xs, xe - 1, ys, ye) + column(xe - 1, ys, ye)
    }
}

/// The cells of `r`, column by column.
pub open spec fn range_cells(r: CellRange) -> Seq<(i32, i32)> {
    cells_between(r.x_start as int, r.x_end as int, r.y_start as int, r.y_end as int)
}

/// The cells of `r`, column by column.
pub fn cell_list(r: CellRange) -> (v: Vec<(i32, i32)>)
    ensures
        v@ == range_cells(r),
{
    let mut v: Vec<(i32, i32)> = Vec::new();
    if r.x_start >= r.x_end {
        return v;
    }
    let mut x = r.x_start;
    while x < r.x_end
        invariant
            r.x_start <= x <= r.x_end,
            v@ == cells_between(r.x_start as int, x as int, r.y_start as int, r.y_end as int),
        decreases r.x_end - x,
    {
        let ghost before = v@;
        let mut y = r.y_start;
        while y < r.y_end
            invariant
                r.x_start <= x < r.x_end,
                r.y_start <= r.y_end ==> r.y_start <= y <= r.y_end,
                r.y_start > r.y_end ==> y == r.y_start,
                v@ == before + column(x as int, r.y_start as int, y as int),
            decreases r.y_end - y,
        {
            v.push((x, y));
            assert(column(x as int, r.y_start as int, y + 1) =~= column(
                x as int,
                r.y_start as int,
                y as int,
            ).push((x, y)));
            y = y + 1;
        }
        assert(column(x as int, r.y_start as int, y as int) =~= column(
            x as int,
            r.y_start as int,
            r.y_end as int,
        ));
        x = x + 1;
    }
    v
}

/// The bucket of cell `c` in `m`, empty where it has none.
pub open spec fn bucket_or_empty(m: Map<(i32, i32), Seq<ObjectIndex>>, c: (i32, i32)) -> Seq<ObjectIndex> {
    if m.contains_key(c) {
        m[c]
    } else {
        Seq::empty()
    }
}

/// `id` put into the buckets of `cells`, one cell after the other.
pub open spec fn insert_into(
    m: Map<(i32, i32), Seq<ObjectIndex>>,
    cells: Seq<(i32, i32)>,
    id: ObjectIndex,
) -> Map<(i32, i32), Seq<ObjectIndex>>
    decreases cells.len(),
{
    if cells.len() == 0 {
        m
    } else {
        let m1 = insert_into(m, cells.drop_last(), id);
        m1.insert(cells.last(), insert_sorted(bucket_or_empty(m1, cells.last()), id))
    }
}

/// The buckets of `cells` exist and, one cell after the other, have a
/// handle at the lower bound of `id` to take out.
pub open spec fn removable(m: Map<(i32, i32), Seq<ObjectIndex>>, cells: Seq<(i32, i32)>, id: ObjectIndex) -> bool
    decreases cells.len(),
{
    if cells.len() == 0 {
        true
    } else {
        let m1 = remove_from(m, cells.drop_last(), id);
        &&& removable(m, cells.drop_last(), id)
        &&& m1.contains_key(cells.last())
        &&& lower_bound(m1[cells.last()], id) < m1[cells.last()].len()
    }
}

/// The handle at the lower bound of `id` taken out of the buckets of
/// `cells`, one cell after the other.
pub open spec fn remove_from(
    m: Map<(i32, i32), Seq<ObjectIndex>>,
    cells: Seq<(i32, i32)>,
    id: ObjectIndex,
) -> Map<(i32, i32), Seq<ObjectIndex>>
    decreases cells.len(),
{
    if cells.len() == 0 {
        m
    } else {
        let m1 = remove_from(m, cells.drop_last(), id);
        m1.insert(cells.last(), remove_at_bound(bucket_or_empty(m1, cells.last()), id))
    }
}

/// `id` taken out of the buckets of those of `cells` that lie outside
/// `touching` and hold it, one cell after the other.
pub open spec fn drop_outside(
    m: Map<(i32, i32), Seq<ObjectIndex>>,
    cells: Seq<(i32, i32)>,
    touching: CellRange,
    id: ObjectIndex,
) -> Map<(i32, i32), Seq<ObjectIndex>>
    decreases cells.len(),
{
    if cells.len() == 0 {
        m
    } else {
        let m1 = drop_outside(m, cells.drop_last(), touching, id);
        let c = cells.last();
        if !touching.has(c) && bucket_or_empty(m1, c).contains(id) {
            m1.insert(c, remove_at_bound(m1[c], id))
        } else {
            m1
        }
    }
}

/// Whether `drop_outside` takes `id` out of at least one bucket.
pub open spec fn drops_any(
    m: Map<(i32, i32), Seq<ObjectIndex>>,
    cells: Seq<(i32, i32)>,
    touching: CellRange,
    id: ObjectIndex,
) -> bool
    decreases cells.len(),
{
    if cells.len() == 0 {
        false
    } else {
        let c = cells.last();
        drops_any(m, cells.drop_last(), touching, id) || (!touching.has(c) && bucket_or_empty(
            drop_outside(m, cells.drop_last(), touching, id),
            c,
        ).contains(id))
    }
}

/// `id` put into the buckets of those of `cells` that do not hold it, one
/// cell after the other, and those cells in order.
pub open spec fn add_missing(
    m: Map<(i32, i32), Seq<ObjectIndex>>,
    cells: Seq<(i32, i32)>,
    id: ObjectIndex,
) -> (Map<(i32, i32), Seq<ObjectIndex>>, Seq<(i32, i32)>)
    decreases cells.len(),
{
    if cells.len() == 0 {
        (m, Seq::empty())
    } else {
        let (m1, added) = add_missing(m, cells.drop_last(), id);
        let c = cells.last();
        if bucket_or_empty(m1, c).contains(id) {
            (m1, added)
        } else {
            (m1.insert(c, insert_sorted(bucket_or_empty(m1, c), id)), added.push(c))
        }
    }
}

/// The handles in the buckets of `cells`, bucket after bucket.
pub open spec fn gather(m: Map<(i32, i32), Seq<ObjectIndex>>, cells: Seq<(i32, i32)>) -> Seq<ObjectIndex>
    decreases cells.len(),
{
    if cells.len() == 0 {
        Seq::empty()
    } else {
        gather(m, cells.drop_last()) + bucket_or_empty(m, cells.last())
    }
}

proof fn lemma_removable_prefix(
    m: Map<(i32, i32), Seq<ObjectIndex>>,
    cells: Seq<(i32, i32)>,
    id: ObjectIndex,
    i: int,
)
    requires
        removable(m, cells, id),
        0 <= i <= cells.len(),
    ensures
        removable(m, cells.take(i), id),
    decreases cells.len(),
{
    if i == cells.len() {
        assert(cells.take(i) =~= cells);
    } else {
        lemma_removable_prefix(m, cells.drop_last(), id, i);
        assert(cells.drop_last().take(i) =~= cells.take(i));
    }
}

/// Where cell `c` stands in `v`, if it does.
fn find_cell(v: &Vec<(i32, i32)>, c: (i32, i32)) -> (r: Option<usize>)
    ensures
        match r {
            Some(k) => k < v.len() && v@[k as int] == c,
            None => !v@.contains(c),
        },
{
    let mut i: usize = 0;
    while i < v.len()
        invariant
            i <= v.len(),
            forall|k: int| 0 <= k < i ==> v@[k] != c,
        decreases v.len() - i,
    {
        if v[i].0 == c.0 && v[i].1 == c.1 {
            return Some(i);
        }
        i += 1;
    }
    None
}

/// A copy of the handles of `v`.
fn copy_handles(v: &Vec<ObjectIndex>) -> (r: Vec<ObjectIndex>)
    ensures
        r@ == v@,
{
    let mut r: Vec<ObjectIndex> = Vec::new();
    let mut i: usize = 0;
    while i < v.len()
        invariant
            i <= v.len(),
            r@ == v@.take(i as int),
        decreases v.len() - i,
    {
        r.push(v[i]);
        assert(r@ =~= v@.take(i + 1));
        i += 1;
    }
    assert(v@.take(v@.len() as int) =~= v@);
    r
}

/// Taking handles out of the buckets of `cells` leaves the bucket of every
/// other cell as it was.
proof fn lemma_remove_from_elsewhere(
    m: Map<(i32, i32), Seq<ObjectIndex>>,
    cells: Seq<(i32, i32)>,
    id: ObjectIndex,
    c: (i32, i32),
)
    requires
        !cells.contains(c),
    ensures
        remove_from(m, cells, id).contains_key(c) == m.contains_key(c),
        m.contains_key(c) ==> remove_from(m, cells, id)[c] == m[c],
    decreases cells.len(),
{
    if cells.len() > 0 {
        assert(!cells.drop_last().contains(c)) by {
            if cells.drop_last().contains(c) {
                let k = choose|k: int| 0 <= k < cells.drop_last().len() && cells.drop_last()[k] == c;
                assert(cells[k] == c);
            }
        }
        assert(cells[cells.len() - 1] != c);
        lemma_remove_from_elsewhere(m, cells.drop_last(), id, c);
    }
}

proof fn lemma_sorted_contains(s: Seq<ObjectIndex>, id: ObjectIndex)
    requires
        sorted(s),
    ensures
        s.contains(id) <==> (lower_bound(s, id) < s.len() && s[lower_bound(s, id)] == id),
{
    lemma_lower_bound(s, id);
    let b = lower_bound(s, id);
    if s.contains(id) {
        let k = s.index_of(id);
        assert(!index_lt(s[k], id));
        if b < s.len() {
            assert(!index_lt(s[b], id));
            if b < k {
                assert(!index_lt(s[k], s[b]));
            }
            lemma_index_order(s[b], id);
        }
    }
}

fn same_index(a: ObjectIndex, b: ObjectIndex) -> (r: bool)
    ensures
        r == (a == b),
{
    a.slot == b.slot && a.generation == b.generation
}

struct Entry<T> {
    cells: Vec<(i32, i32)>,
    userdata: T,
}

/// Objects with user data, hashed into the buckets of the grid cells
/// that their bounds touch.
pub struct SpatialHasher<T> {
    buckets: HashMap<u64, Vec<ObjectIndex>>,
    objects: Vec<Option<Entry<T>>>,
    generations: Vec<u32>,
    free: Vec<u32>,
}

impl<T> SpatialHasher<T> {
    /// The buckets, by cell: their handles in increasing order.
    pub closed spec fn members(&self) -> Map<(i32, i32), Seq<ObjectIndex>> {
        Map::new(
            |c: (i32, i32)| self.buckets@.contains_key(chunk_key(c)),
            |c: (i32, i32)| self.buckets@[chunk_key(c)]@,
        )
    }

    /// Whether `id` names an object.
    pub closed spec fn contains(&self, id: ObjectIndex) -> bool {
        &&& (id.slot as int) < self.objects@.len()
        &&& (id.slot as int) < self.generations@.len()
        &&& self.generations@[id.slot as int] == id.generation
        &&& self.objects@[id.slot as int] is Some
    }

    spec fn entry(&self, id: ObjectIndex) -> Entry<T> {
        self.objects@[id.slot as int]->Some_0
    }

    /// The user data of object `id`.
    pub closed spec fn data_of(&self, id: ObjectIndex) -> T {
        self.entry(id).userdata
    }

    /// The cells whose buckets object `id` was put into, in order.
    pub closed spec fn object_cells(&self, id: ObjectIndex) -> Seq<(i32, i32)> {
        self.entry(id).cells@
    }

    /// Whether one more object fits.
    pub closed spec fn has_room(&self) -> bool {
        self.free@.len() > 0 || self.objects@.len() < u32::MAX
    }

    /// The internal invariant.
    pub closed spec fn wf(&self) -> bool {
        &&& self.objects@.len() == self.generations@.len()
        &&& self.objects@.len() <= u32::MAX
        &&& forall|i: int|
            0 <= i < self.free@.len() ==> (#[trigger] self.free@[i] as int) < self.objects@.len()
                && self.objects@[self.free@[i] as int] is None
        &&& self.free@.no_duplicates()
        &&& forall|c: (i32, i32)| #[trigger] self.members().contains_key(c) ==> sorted(self.members()[c])
        &&& forall|id: ObjectIndex, k: int|
            #![trigger self.object_cells(id)[k]]
            self.contains(id) && 0 <= k < self.object_cells(id).len() ==> self.members().contains_key(
                self.object_cells(id)[k],
            )
    }

    /// No objects and no buckets.
    pub fn new() -> (r: Self)
        ensures
            r.wf(),
            r.members() == Map::<(i32, i32), Seq<ObjectIndex>>::empty(),
            forall|id: ObjectIndex| !r.contains(id),
    {
        let r = SpatialHasher {
            buckets: HashMap::new(),
            objects: Vec::new(),
            generations: Vec::new(),
            free: Vec::new(),
        };
        assert(r.members() =~= Map::<(i32, i32), Seq<ObjectIndex>>::empty());
        r
    }

    /// Whether `id` names an object.
    pub fn contains_object(&self, id: ObjectIndex) -> (r: bool)
        requires
            self.wf(),
        ensures
            r == self.contains(id),
    {
        let s = id.slot as usize;
        s < self.objects.len() && self.generations[s] == id.generation && self.objects[s].is_some()
    }

    /// The user data of object `id`.
    pub fn userdata(&self, id: ObjectIndex) -> (r: &T)
        requires
            self.contains(id),
        ensures
            *r == self.data_of(id),
    {
        &self.objects[id.slot as usize].as_ref().unwrap().userdata
    }

    /// The handles in the bucket of `cell`, in increasing order, if it has
    /// a bucket.
    pub fn bucket_members(&self, cell: (i32, i32)) -> (r: Option<&Vec<ObjectIndex>>)
        ensures
            match r {
                Some(v) => self.members().contains_key(cell) && v@ == self.members()[cell],
                None => !self.members().contains_key(cell),
            },
    {
        broadcast use vstd::std_specs::hash::group_hash_axioms;

        self.buckets.get(&to_chunk_key(cell))
    }

    /// Every bucket is in increasing order.
    pub open spec fn buckets_sorted(&self) -> bool {
        forall|c: (i32, i32)| #[trigger] self.members().contains_key(c) ==> sorted(self.members()[c])
    }

    /// Puts `list` as the bucket of `cell`.
    fn put_bucket(&mut self, cell: (i32, i32), list: Vec<ObjectIndex>)
        ensures
            final(self).members() == old(self).members().insert(cell, list@),
            final(self).objects == old(self).objects,
            final(self).generations == old(self).generations,
            final(self).free == old(self).free,
    {
        broadcast use vstd::std_specs::hash::group_hash_axioms;

        let key = to_chunk_key(cell);
        self.buckets.insert(key, list);
        proof {
            assert forall|d: (i32, i32)| #![auto] d != cell implies chunk_key(d) != key by {
                lemma_chunk_key_bijective(d, key);
                lemma_chunk_key_bijective(cell, key);
            }
            assert(self.members() =~= old(self).members().insert(cell, list@));
        }
    }

    /// Takes the bucket of `cell` out, empty where there is none.
    fn take_bucket(&mut self, cell: (i32, i32)) -> (list: Vec<ObjectIndex>)
        ensures
            list@ == bucket_or_empty(old(self).members(), cell),
            final(self).members() == old(self).members().remove(cell),
            final(self).objects == old(self).objects,
            final(self).generations == old(self).generations,
            final(self).free == old(self).free,
    {
        broadcast use vstd::std_specs::hash::group_hash_axioms;

        let key = to_chunk_key(cell);
        let list = match self.buckets.remove(&key) {
            Some(l) => l,
            None => Vec::new(),
        };
        proof {
            assert forall|d: (i32, i32)| #![auto] d != cell implies chunk_key(d) != key by {
                lemma_chunk_key_bijective(d, key);
                lemma_chunk_key_bijective(cell, key);
            }
            assert(self.members() =~= old(self).members().remove(cell));
        }
        list
    }

    /// Puts `id` into the bucket of `cell` at its lower bound, making the
    /// bucket where there is none.
    fn add_to_bucket(&mut self, cell: (i32, i32), id: ObjectIndex)
        requires
            old(self).buckets_sorted(),
        ensures
            final(self).buckets_sorted(),
            final(self).members() == old(self).members().insert(
                cell,
                insert_sorted(bucket_or_empty(old(self).members(), cell), id),
            ),
            final(self).objects == old(self).objects,
            final(self).generations == old(self).generations,
            final(self).free == old(self).free,
    {
        let mut list = self.take_bucket(cell);
        proof {
            if old(self).members().contains_key(cell) {
                assert(sorted(old(self).members()[cell]));
            }
        }
        let i = search(&list, id);
        proof {
            lemma_lower_bound(list@, id);
            lemma_insert_sorted(list@, id);
        }
        list.insert(i, id);
        self.put_bucket(cell, list);
        proof {
            assert forall|c: (i32, i32)| #[trigger] self.members().contains_key(c) implies sorted(self.members()[c]) by {
                if c != cell {
                    assert(old(self).members().contains_key(c));
                }
            }
        }
    }

    /// Takes the handle at the lower bound of `id` out of the bucket of
    /// `cell`.
    fn remove_from_bucket(&mut self, cell: (i32, i32), id: ObjectIndex)
        requires
            old(self).buckets_sorted(),
            old(self).members().contains_key(cell),
            lower_bound(old(self).members()[cell], id) < old(self).members()[cell].len(),
        ensures
            final(self).buckets_sorted(),
            final(self).members() == old(self).members().insert(
                cell,
                remove_at_bound(old(self).members()[cell], id),
            ),
            final(self).objects == old(self).objects,
            final(self).generations == old(self).generations,
            final(self).free == old(self).free,
    {
        let mut list = self.take_bucket(cell);
        proof {
            assert(sorted(old(self).members()[cell]));
        }
        let i = search(&list, id);
        proof {
            lemma_remove_sorted(list@, i as int);
        }
        list.remove(i);
        self.put_bucket(cell, list);
        proof {
            assert forall|c: (i32, i32)| #[trigger] self.members().contains_key(c) implies sorted(self.members()[c]) by {
                if c != cell {
                    assert(old(self).members().contains_key(c));
                }
            }
        }
    }

    /// Adds an object with `userdata`, put into the bucket of every cell of
    /// `cells` (a bucket is made for each cell that has none), and hands
    /// back its handle.
    pub fn insert(&mut self, cells: CellRange, userdata: T) -> (id: ObjectIndex)
        requires
            old(self).wf(),
            old(self).has_room(),
        ensures
            final(self).wf(),
            !old(self).contains(id),
            final(self).contains(id),
            final(self).data_of(id) == userdata,
            final(self).object_cells(id) == range_cells(cells),
            final(self).members() == insert_into(old(self).members(), range_cells(cells), id),
            forall|x: ObjectIndex| x != id ==> #[trigger] final(self).contains(x) == old(self).contains(x),
            forall|x: ObjectIndex| #[trigger]
                old(self).contains(x) ==> final(self).data_of(x) == old(self).data_of(x)
                    && final(self).object_cells(x) == old(self).object_cells(x),
    {
        let list = cell_list(cells);
        let entry = Entry { cells: Vec::new(), userdata };
        let id;
        if self.free.len() > 0 {
            let slot = self.free.pop().unwrap();
            proof {
                assert(self.free@ == old(self).free@.drop_last());
                assert(old(self).free@.contains(slot));
            }
            let g = self.generations[slot as usize];
            let next = if g < u32::MAX {
                g + 1
            } else {
                1
            };
            self.generations.set(slot as usize, next);
            self.objects.set(slot as usize, Some(entry));
            id = ObjectIndex { slot, generation: next };
            proof {
                assert forall|i: int| 0 <= i < self.free@.len() implies (#[trigger] self.free@[i] as int)
                    < self.objects@.len() && self.objects@[self.free@[i] as int] is None by {
                    assert(old(self).free@[i] == self.free@[i]);
                    assert(old(self).free@[old(self).free@.len() - 1] == slot);
                }
            }
        } else {
            let slot = self.objects.len() as u32;
            self.objects.push(Some(entry));
            self.generations.push(1);
            id = ObjectIndex { slot, generation: 1 };
        }
        let ghost m0 = old(self).members();
        let ghost placed = *self;
        let mut i: usize = 0;
        while i < list.len()
            invariant
                0 <= i <= list@.len(),
                list@ == range_cells(cells),
                self.buckets_sorted(),
                self.members() == insert_into(m0, list@.take(i as int), id),
                forall|c: (i32, i32)| #[trigger] m0.contains_key(c) ==> self.members().contains_key(c),
                forall|k: int| 0 <= k < i ==> self.members().contains_key(#[trigger] list@[k]),
                self.objects == placed.objects,
                self.generations == placed.generations,
                self.free == placed.free,
            decreases list@.len() - i,
        {
            let cell = list[i];
            self.add_to_bucket(cell, id);
            proof {
                assert(list@.take(i + 1).drop_last() =~= list@.take(i as int));
                assert(list@.take(i + 1).last() == cell);
            }
            i = i + 1;
        }
        proof {
            assert(list@.take(list@.len() as int) =~= list@);
        }
        let slot = id.slot as usize;
        let mut e = self.objects[slot].take().unwrap();
        e.cells = list;
        self.objects.set(slot, Some(e));
        proof {
            assert forall|x: ObjectIndex, k: int|
                #![trigger self.object_cells(x)[k]]
                self.contains(x) && 0 <= k < self.object_cells(x).len() implies self.members().contains_key(
                self.object_cells(x)[k],
            ) by {
                if x != id {
                    assert(old(self).contains(x));
                    assert(old(self).object_cells(x)[k] == self.object_cells(x)[k]);
                    assert(m0.contains_key(old(self).object_cells(x)[k]));
                }
            }
        }
        id
    }

    /// Whether `remove` may be called for `id`: `id` names an object, and
    /// one cell after the other, the bucket of each of its cells has a handle
    /// at the lower bound of `id` to take out.
    pub fn can_remove(&self, id: ObjectIndex) -> (r: bool)
        requires
            self.wf(),
        ensures
            r == (self.contains(id) && removable(self.members(), self.object_cells(id), id)),
    {
        if !self.contains_object(id) {
            return false;
        }
        let entry = match &self.objects[id.slot as usize] {
            Some(e) => e,
            None => return false,
        };
        let cells = &entry.cells;
        let ghost m = self.members();
        let ghost cs = cells@;
        assert(cs == self.object_cells(id));
        let mut touched_cells: Vec<(i32, i32)> = Vec::new();
        let mut touched: Vec<Vec<ObjectIndex>> = Vec::new();
        let mut k: usize = 0;
        assert(cs.take(0) =~= Seq::<(i32, i32)>::empty());
        while k < cells.len()
            invariant
                self.wf(),
                m == self.members(),
                cs == cells@,
                cs == self.object_cells(id),
                self.contains(id),
                k <= cells.len(),
                touched_cells.len() == touched.len(),
                removable(m, cs.take(k as int), id),
                forall|c: (i32, i32)| touched_cells@.contains(c) <==> cs.take(k as int).contains(c),
                forall|j: int|
                    0 <= j < touched.len() ==> remove_from(m, cs.take(k as int), id).contains_key(
                        #[trigger] touched_cells@[j],
                    ) && touched@[j]@ == remove_from(m, cs.take(k as int), id)[touched_cells@[j]] && sorted(
                        touched@[j]@,
                    ),
                forall|a: int, b: int|
                    0 <= a < b < touched_cells.len() ==> touched_cells@[a] != touched_cells@[b],
            decreases cells.len() - k,
        {
            let c = cells[k];
            let ghost mk = remove_from(m, cs.take(k as int), id);
            proof {
                assert(cs.take(k + 1).drop_last() =~= cs.take(k as int));
                assert(cs.take(k + 1).last() == c);
            }
            match find_cell(&touched_cells, c) {
                Some(j) => {
                    let ghost t_orig = touched@;
                    let mut list = touched.remove(j);
                    assert(list@ == mk[c]);
                    let lb = search(&list, id);
                    if lb >= list.len() {
                        proof {
                            if removable(m, cs, id) {
                                lemma_removable_prefix(m, cs, id, k + 1);
                                assert(removable(m, cs.take(k + 1), id));
                                assert(remove_from(m, cs.take(k + 1).drop_last(), id) == mk);
                            }
                        }
                        return false;
                    }
                    proof {
                        lemma_remove_sorted(list@, lb as int);
                    }
                    let ghost t0 = touched@;
                    let ghost tc = touched_cells@;
                    list.remove(lb);
                    let ghost nl = list@;
                    touched.insert(j, list);
                    proof {
                        let mk1 = remove_from(m, cs.take(k + 1), id);
                        assert(mk1 == mk.insert(c, remove_at_bound(mk[c], id)));
                        assert(touched@.len() == tc.len());
                        assert forall|jj: int| 0 <= jj < touched@.len() implies mk1.contains_key(#[trigger] touched_cells@[jj])
                            && touched@[jj]@ == mk1[touched_cells@[jj]] && sorted(touched@[jj]@) by {
                            if jj == j {
                                assert(touched@[jj]@ == nl);
                            } else {
                                assert(tc[jj] != c);
                                assert(touched@ =~= t_orig.update(j as int, touched@[j as int]));
                                assert(touched@[jj] == t_orig[jj]);
                            }
                        }
                        assert forall|c2: (i32, i32)| touched_cells@.contains(c2) <==> cs.take(k + 1).contains(c2) by {
                            if cs.take(k as int).contains(c2) {
                                let w = choose|w: int| 0 <= w < k && #[trigger] cs.take(k as int)[w] == c2;
                                assert(cs.take(k + 1)[w] == c2);
                            }
                            if cs.take(k + 1).contains(c2) && c2 != c {
                                let w = choose|w: int| 0 <= w < k + 1 && #[trigger] cs.take(k + 1)[w] == c2;
                                assert(cs.take(k as int)[w] == c2);
                            }
                        }
                    }
                },
                None => {
                    proof {
                        assert(!cs.take(k as int).contains(c));
                        lemma_remove_from_elsewhere(m, cs.take(k as int), id, c);
                    }
                    match self.bucket_members(c) {
                        None => {
                            proof {
                                if removable(m, cs, id) {
                                    lemma_removable_prefix(m, cs, id, k + 1);
                                }
                            }
                            return false;
                        },
                        Some(b) => {
                            let mut list = copy_handles(b);
                            assert(list@ == mk[c]);
                            let lb = search(&list, id);
                            if lb >= list.len() {
                                proof {
                                    if removable(m, cs, id) {
                                        lemma_removable_prefix(m, cs, id, k + 1);
                                    }
                                }
                                return false;
                            }
                            proof {
                                lemma_remove_sorted(list@, lb as int);
                            }
                            list.remove(lb);
                            let ghost tc0 = touched_cells@;
                            touched_cells.push(c);
                            touched.push(list);
                            assert(touched_cells@ == tc0.push(c));
                            proof {
                                let mk1 = remove_from(m, cs.take(k + 1), id);
                                assert(mk1 == mk.insert(c, remove_at_bound(mk[c], id)));
                                assert forall|c2: (i32, i32)| touched_cells@.contains(c2) <==> cs.take(k + 1).contains(
                                    c2,
                                ) by {
                                    if cs.take(k as int).contains(c2) {
                                        let w = choose|w: int| 0 <= w < k && #[trigger] cs.take(k as int)[w] == c2;
                                        assert(cs.take(k + 1)[w] == c2);
                                    }
                                    if cs.take(k + 1).contains(c2) && c2 != c {
                                        let w = choose|w: int| 0 <= w < k + 1 && #[trigger] cs.take(k + 1)[w] == c2;
                                        assert(cs.take(k as int)[w] == c2);
                                        assert(tc0.contains(c2));
                                        let w3 = choose|w3: int| 0 <= w3 < tc0.len() && #[trigger] tc0[w3] == c2;
                                        assert(touched_cells@[w3] == c2);
                                    }
                                    if touched_cells@.contains(c2) && c2 != c {
                                        let w = choose|w: int| 0 <= w < touched_cells@.len() && #[trigger] touched_cells@[w] == c2;
                                        assert(w < touched_cells@.len() - 1);
                                        assert(tc0[w] == c2);
                                        assert(tc0.contains(c2));
                                        assert(cs.take(k as int).contains(c2));
                                        let w2 = choose|w2: int| 0 <= w2 < k && #[trigger] cs.take(k as int)[w2] == c2;
                                        assert(cs.take(k + 1)[w2] == c2);
                                    }
                                    if c2 == c {
                                        assert(touched_cells@[touched_cells@.len() - 1] == c);
                                    }
                                }
                            }
                        },
                    }
                },
            }
            k += 1;
        }
        proof {
            assert(cs.take(cs.len() as int) =~= cs);
        }
        true
    }

    /// Removes object `id`. The handle at the lower bound of `id` is taken
    /// out of the bucket of each of its cells, one cell after the other:
    /// its own handle where the bucket still holds it, else the next
    /// larger one. Each of those buckets must have such a handle.
    pub fn remove(&mut self, id: ObjectIndex)
        requires
            old(self).wf(),
            old(self).contains(id),
            removable(old(self).members(), old(self).object_cells(id), id),
        ensures
            final(self).wf(),
            !final(self).contains(id),
            final(self).members() == remove_from(old(self).members(), old(self).object_cells(id), id),
            final(self).has_room(),
            forall|x: ObjectIndex| x != id ==> #[trigger] final(self).contains(x) == old(self).contains(x),
            forall|x: ObjectIndex| #[trigger]
                final(self).contains(x) ==> final(self).data_of(x) == old(self).data_of(x)
                    && final(self).object_cells(x) == old(self).object_cells(x),
    {
        let slot = id.slot as usize;
        let e = self.objects[slot].take().unwrap();
        let ghost m0 = old(self).members();
        let ghost cells = e.cells@;
        let ghost taken = *self;
        assert(cells == old(self).object_cells(id));
        let mut i: usize = 0;
        while i < e.cells.len()
            invariant
                0 <= i <= cells.len(),
                e.cells@ == cells,
                removable(m0, cells, id),
                self.buckets_sorted(),
                self.members() == remove_from(m0, cells.take(i as int), id),
                self.members().dom() == m0.dom(),
                self.objects == taken.objects,
                self.generations == taken.generations,
                self.free == taken.free,
            decreases cells.len() - i,
        {
            let cell = e.cells[i];
            proof {
                lemma_removable_prefix(m0, cells, id, i + 1);
                assert(cells.take(i + 1).drop_last() =~= cells.take(i as int));
                assert(cells.take(i + 1).last() == cell);
            }
            self.remove_from_bucket(cell, id);
            proof {
                assert(self.members().dom() =~= m0.dom());
            }
            i = i + 1;
        }
        proof {
            assert(cells.take(cells.len() as int) =~= cells);
        }
        self.free.push(id.slot);
        proof {
            assert forall|k: int| 0 <= k < self.free@.len() implies (#[trigger] self.free@[k] as int)
                < self.objects@.len() && self.objects@[self.free@[k] as int] is None by {
                if k < old(self).free@.len() {
                    assert(old(self).free@[k] == self.free@[k]);
                }
            }
            assert(!old(self).free@.contains(id.slot)) by {
                if old(self).free@.contains(id.slot) {
                    let k = old(self).free@.index_of(id.slot);
                    assert(old(self).objects@[old(self).free@[k] as int] is None);
                }
            }
            assert forall|x: ObjectIndex, k: int|
                #![trigger self.object_cells(x)[k]]
                self.contains(x) && 0 <= k < self.object_cells(x).len() implies self.members().contains_key(
                self.object_cells(x)[k],
            ) by {
                assert(old(self).contains(x));
                assert(old(self).object_cells(x)[k] == self.object_cells(x)[k]);
            }
        }
    }

    /// Whether the bucket of `cell` holds `id`.
    fn bucket_holds(&self, cell: (i32, i32), id: ObjectIndex) -> (r: bool)
        requires
            self.buckets_sorted(),
        ensures
            r == bucket_or_empty(self.members(), cell).contains(id),
    {
        match self.bucket_members(cell) {
            None => false,
            Some(list) => {
                proof {
                    assert(sorted(list@));
                    lemma_sorted_contains(list@, id);
                }
                let i = search(list, id);
                i < list.len() && same_index(list[i], id)
            },
        }
    }

    /// Moves object `id` to the cells `cells`. First its handle is taken
    /// out of the bucket of each of its cells that lies outside `touching`
    /// (the cells whose bounds its new bounds touch) and holds it; then it
    /// is put into the bucket of each cell of `cells` that does not hold it,
    /// a bucket being made where there is none, and those cells are added
    /// to its cells. Its cells are otherwise kept, also those whose
    /// buckets no longer hold it. Whether a bucket lost or gained the
    /// object is handed back.
    pub fn update(&mut self, id: ObjectIndex, cells: CellRange, touching: CellRange) -> (changed: bool)
        requires
            old(self).wf(),
            old(self).contains(id),
        ensures
            final(self).wf(),
            ({
                let dropped = drop_outside(old(self).members(), old(self).object_cells(id), touching, id);
                let (m, added) = add_missing(dropped, range_cells(cells), id);
                &&& final(self).members() == m
                &&& final(self).object_cells(id) == old(self).object_cells(id) + added
                &&& changed == (drops_any(old(self).members(), old(self).object_cells(id), touching, id)
                    || added.len() > 0)
            }),
            final(self).data_of(id) == old(self).data_of(id),
            final(self).has_room() == old(self).has_room(),
            forall|x: ObjectIndex| #[trigger] final(self).contains(x) == old(self).contains(x),
            forall|x: ObjectIndex| #[trigger]
                old(self).contains(x) && x != id ==> final(self).data_of(x) == old(self).data_of(x)
                    && final(self).object_cells(x) == old(self).object_cells(x),
    {
        let slot = id.slot as usize;
        let mut e = self.objects[slot].take().unwrap();
        let ghost m0 = old(self).members();
        let ghost old_cells = e.cells@;
        let ghost taken = *self;
        let mut changed = false;
        let mut i: usize = 0;
        while i < e.cells.len()
            invariant
                0 <= i <= old_cells.len(),
                e.cells@ == old_cells,
                changed == drops_any(m0, old_cells.take(i as int), touching, id),
                e.userdata == old(self).data_of(id),
                self.buckets_sorted(),
                self.members() == drop_outside(m0, old_cells.take(i as int), touching, id),
                self.members().dom() == m0.dom(),
                self.objects == taken.objects,
                self.generations == taken.generations,
                self.free == taken.free,
            decreases old_cells.len() - i,
        {
            let cell = e.cells[i];
            proof {
                assert(old_cells.take(i + 1).drop_last() =~= old_cells.take(i as int));
                assert(old_cells.take(i + 1).last() == cell);
            }
            let outside = !(touching.x_start <= cell.0 && cell.0 < touching.x_end && touching.y_start
                <= cell.1 && cell.1 < touching.y_end);
            if outside && self.bucket_holds(cell, id) {
                proof {
                    let b = self.members()[cell];
                    assert(sorted(b));
                    lemma_sorted_contains(b, id);
                }
                self.remove_from_bucket(cell, id);
                changed = true;
                proof {
                    assert(self.members().dom() =~= m0.dom());
                }
            }
            i = i + 1;
        }
        proof {
            assert(old_cells.take(old_cells.len() as int) =~= old_cells);
            assert forall|k: int| 0 <= k < e.cells@.len() implies self.members().contains_key(#[trigger] e.cells@[k]) by {
                assert(old(self).object_cells(id)[k] == e.cells@[k]);
                assert(m0.contains_key(old(self).object_cells(id)[k]));
            }
        }
        let ghost m1 = self.members();
        let ghost dropped_any = changed;
        let list = cell_list(cells);
        let mut j: usize = 0;
        while j < list.len()
            invariant
                0 <= j <= list@.len(),
                list@ == range_cells(cells),
                changed == (dropped_any || add_missing(m1, list@.take(j as int), id).1.len() > 0),
                e.userdata == old(self).data_of(id),
                self.buckets_sorted(),
                ({
                    let (m, added) = add_missing(m1, list@.take(j as int), id);
                    &&& self.members() == m
                    &&& e.cells@ == old_cells + added
                }),
                forall|c: (i32, i32)| #[trigger] m1.contains_key(c) ==> self.members().contains_key(c),
                forall|k: int| 0 <= k < e.cells@.len() ==> self.members().contains_key(#[trigger] e.cells@[k]),
                self.objects == taken.objects,
                self.generations == taken.generations,
                self.free == taken.free,
            decreases list@.len() - j,
        {
            let cell = list[j];
            proof {
                assert(list@.take(j + 1).drop_last() =~= list@.take(j as int));
                assert(list@.take(j + 1).last() == cell);
            }
            if !self.bucket_holds(cell, id) {
                self.add_to_bucket(cell, id);
                e.cells.push(cell);
                changed = true;
                proof {
                    let (m, added) = add_missing(m1, list@.take(j as int), id);
                    assert(e.cells@ =~= old_cells + added.push(cell));
                }
            }
            j = j + 1;
        }
        proof {
            assert(list@.take(list@.len() as int) =~= list@);
        }
        self.objects.set(slot, Some(e));
        proof {
            assert forall|x: ObjectIndex, k: int|
                #![trigger self.object_cells(x)[k]]
                self.contains(x) && 0 <= k < self.object_cells(x).len() implies self.members().contains_key(
                self.object_cells(x)[k],
            ) by {
                if x != id {
                    assert(old(self).contains(x));
                    assert(old(self).object_cells(x)[k] == self.object_cells(x)[k]);
                    assert(m0.contains_key(old(self).object_cells(x)[k]));
                }
            }
        }
        changed
    }

    /// The handles in the buckets of the cells of `cells`, bucket after
    /// bucket, cells column by column; a handle is listed once for each
    /// bucket that holds it.
    pub fn query(&self, cells: CellRange) -> (r: Vec<ObjectIndex>)
        ensures
            r@ == gather(self.members(), range_cells(cells)),
    {
        let list = cell_list(cells);
        let mut r: Vec<ObjectIndex> = Vec::new();
        let mut i: usize = 0;
        while i < list.len()
            invariant
                0 <= i <= list@.len(),
                list@ == range_cells(cells),
                r@ == gather(self.members(), list@.take(i as int)),
            decreases list@.len() - i,
        {
            let cell = list[i];
            proof {
                assert(list@.take(i + 1).drop_last() =~= list@.take(i as int));
                assert(list@.take(i + 1).last() == cell);
            }
            match self.bucket_members(cell) {
                Some(members) => {
                    let mut k: usize = 0;
                    let ghost before = r@;
                    while k < members.len()
                        invariant
                            0 <= k <= members@.len(),
                            r@ == before + members@.take(k as int),
                        decreases members@.len() - k,
                    {
                        r.push(members[k]);
                        assert(members@.take(k + 1) =~= members@.take(k as int).push(members@[k as int]));
                        k = k + 1;
                    }
                    assert(members@.take(members@.len() as int) =~= members@);
                },
                None => {
                    assert(r@ =~= r@ + Seq::<ObjectIndex>::empty());
                },
            }
            i = i + 1;
        }
        proof {
            assert(list@.take(list@.len() as int) =~= list@);
        }
        r
    }

    /// `self` is `other` with at most the user data of object `id` changed.
    pub closed spec fn differs_in_data_only(&self, other: &Self, id: ObjectIndex) -> bool {
        &&& self.objects@.len() == other.objects@.len()
        &&& forall|s: int|
            0 <= s < self.objects@.len() && s != id.slot ==> #[trigger] self.objects@[s] == other.objects@[s]
        &&& self.objects@[id.slot as int] is Some
        &&& self.entry(id).cells == other.entry(id).cells
        &&& self.buckets == other.buckets
        &&& self.generations == other.generations
        &&& self.free == other.free
    }

    /// Changing only the user data of an object keeps the invariant, the
    /// buckets, the objects and their cells, and the data of the others.
    pub proof fn lemma_data_change(&self, other: &Self, id: ObjectIndex)
        requires
            other.wf(),
            other.contains(id),
            self.differs_in_data_only(other, id),
        ensures
            self.wf(),
            self.members() == other.members(),
            self.has_room() == other.has_room(),
            forall|x: ObjectIndex| #[trigger] self.contains(x) == other.contains(x),
            forall|x: ObjectIndex| #[trigger]
                other.contains(x) ==> self.object_cells(x) == other.object_cells(x) && (x != id
                    ==> self.data_of(x) == other.data_of(x)),
    {
        assert(self.members() =~= other.members());
        assert forall|x: ObjectIndex| #[trigger] self.contains(x) == other.contains(x) by {
            if (x.slot as int) < self.objects@.len() && x.slot != id.slot {
                assert(self.objects@[x.slot as int] == other.objects@[x.slot as int]);
            }
        }
        assert forall|x: ObjectIndex| #[trigger] other.contains(x) implies self.object_cells(x)
            == other.object_cells(x) && (x != id ==> self.data_of(x) == other.data_of(x)) by {
            if x.slot != id.slot {
                assert(self.objects@[x.slot as int] == other.objects@[x.slot as int]);
            }
        }
        assert forall|x: ObjectIndex, k: int|
            #![trigger self.object_cells(x)[k]]
            self.contains(x) && 0 <= k < self.object_cells(x).len() implies self.members().contains_key(
            self.object_cells(x)[k],
        ) by {
            assert(other.contains(x));
            assert(other.object_cells(x)[k] == self.object_cells(x)[k]);
        }
    }

    /// The user data of object `id`, for change in place.
    pub fn userdata_mut(&mut self, id: ObjectIndex) -> (r: &mut T)
        requires
            old(self).contains(id),
        ensures
            *r == old(self).data_of(id),
            final(self).differs_in_data_only(old(self), id),
            final(self).data_of(id) == *final(r),
    {
        let e = self.objects[id.slot as usize].as_mut().unwrap();
        &mut e.userdata
    }
}

} // verus!
