use vstd::prelude::*;

verus! {

/// The handle of an object in a [`SceneGraph`]: a slot and the generation
/// of the slot's occupant, so that a handle to a removed object never names
/// the object that later reuses its slot (until the generation counter
/// wraps around).
#[derive(Debug, Clone, Copy, PartialEq, Eq, Hash)]
pub struct ObjectId {
    slot: u32,
    generation: u32,
}

impl ObjectId {
    /// The slot of the object.
    pub closed spec fn slot(self) -> nat {
        self.slot as nat
    }
}


/// The slots of `s` strictly increase.
pub open spec fn slots_increasing(s: Seq<ObjectId>) -> bool {
    forall|i: int, j: int| 0 <= i < j < s.len() ==> (#[trigger] s[i]).slot() < (#[trigger] s[j]).slot()
}

/// Binary search for `slot` in a list of handles in strictly increasing slot
/// order: `Ok(i)` when entry `i` has the slot, else `Err(i)` with `i` the
/// position where an entry with that slot would go.
fn search_slot(list: &Vec<ObjectId>, slot: u32) -> (r: Result<usize, usize>)
    requires
        slots_increasing(list@),
    ensures
        match r {
            Ok(i) => i < list@.len() && list@[i as int].slot() == slot,
            Err(i) => i <= list@.len() && (forall|k: int| 0 <= k < i ==> (#[trigger] list@[k]).slot()
                < slot) && (forall|k: int| i <= k < list@.len() ==> (#[trigger] list@[k]).slot()
                > slot),
        },
{
    let mut lo: usize = 0;
    let mut hi: usize = list.len();
    while lo < hi
        invariant
            0 <= lo <= hi <= list@.len(),
            slots_increasing(list@),
            forall|k: int| 0 <= k < lo ==> (#[trigger] list@[k]).slot() < slot,
            forall|k: int| hi <= k < list@.len() ==> (#[trigger] list@[k]).slot() > slot,
        decreases hi - lo,
    {
        let mid = lo + (hi - lo) / 2;
        let m = list[mid].slot;
        if m == slot {
            return Ok(mid);
        } else if m < slot {
            lo = mid + 1;
        } else {
            hi = mid;
        }
    }
    Err(lo)
}


/// Puts `id` into a list in strictly increasing slot order, unless it is
/// there already.
fn insert_by_slot(list: &mut Vec<ObjectId>, id: ObjectId)
    requires
        slots_increasing(old(list)@),
        forall|k: int|
            0 <= k < old(list)@.len() && (#[trigger] old(list)@[k]).slot() == id.slot() ==> old(
                list,
            )@[k] == id,
    ensures
        slots_increasing(final(list)@),
        final(list)@.to_set() == old(list)@.to_set().insert(id),
{
    match search_slot(list, id.slot) {
        Ok(i) => {
            proof {
                assert(old(list)@.to_set().insert(id) =~= old(list)@.to_set());
            }
        },
        Err(i) => {
            let ghost before = list@;
            list.insert(i, id);
            proof {
                assert(list@.to_set() =~= before.to_set().insert(id)) by {
                    assert forall|x: ObjectId| list@.to_set().contains(x) <==> before.to_set().insert(
                        id,
                    ).contains(x) by {
                        if list@.contains(x) {
                            let k = list@.index_of(x);
                            if k < i {
                                assert(before[k] == x);
                            } else if k > i {
                                assert(before[k - 1] == x);
                            }
                        }
                        if before.contains(x) {
                            let k = before.index_of(x);
                            if k < i {
                                assert(list@[k] == x);
                            } else {
                                assert(list@[k + 1] == x);
                            }
                        }
                        if x == id {
                            assert(list@[i as int] == id);
                        }
                    }
                }
            }
        },
    }
}

/// Takes `id` out of a list in strictly increasing slot order that holds it.
fn remove_by_slot(list: &mut Vec<ObjectId>, id: ObjectId)
    requires
        slots_increasing(old(list)@),
        old(list)@.contains(id),
    ensures
        slots_increasing(final(list)@),
        final(list)@.to_set() == old(list)@.to_set().remove(id),
        final(list)@.len() == old(list)@.len() - 1,
{
    let ghost before = list@;
    let ghost k = before.index_of(id);
    let found = search_slot(list, id.slot);
    let i = match found {
        Ok(i) => i,
        Err(i) => {
            proof {
                assert(before[k].slot() == id.slot());
            }
            i
        },
    };
    proof {
        if k != i {
            assert(before[k].slot() == before[i as int].slot());
        }
        assert(before[i as int] == id);
    }
    list.remove(i);
    proof {
        assert(list@.to_set() =~= before.to_set().remove(id)) by {
            assert forall|x: ObjectId| list@.to_set().contains(x) <==> before.to_set().remove(
                id,
            ).contains(x) by {
                if list@.contains(x) {
                    let m = list@.index_of(x);
                    if m < i {
                        assert(before[m] == x);
                    } else {
                        assert(before[m + 1] == x);
                    }
                }
                if before.contains(x) && x != id {
                    let m = before.index_of(x);
                    if m < i {
                        assert(list@[m] == x);
                    } else {
                        assert(list@[m - 1] == x);
                    }
                }
            }
        }
    }
}

struct Node<T> {
    value: T,
    layer: i32,
    parent: Option<ObjectId>,
    children: Vec<ObjectId>,
}

/// A forest of objects, each with a draw layer, to be listed parents before
/// children and siblings by layer.
pub struct SceneGraph<T> {
    nodes: Vec<Option<Node<T>>>,
    generations: Vec<u32>,
    free: Vec<u32>,
    sorted: Vec<ObjectId>,
    dirty: bool,
}

/// `a` comes before `b` among siblings: lower layer first, then lower slot.
pub open spec fn sibling_order<T>(g: &SceneGraph<T>, a: ObjectId, b: ObjectId) -> bool {
    g.layer(a) < g.layer(b) || (g.layer(a) == g.layer(b) && a.slot() < b.slot())
}

impl<T> SceneGraph<T> {
    /// Whether `id` names an object of the graph.
    pub closed spec fn contains(&self, id: ObjectId) -> bool {
        &&& (id.slot as int) < self.nodes@.len()
        &&& (id.slot as int) < self.generations@.len()
        &&& self.generations@[id.slot as int] == id.generation
        &&& self.nodes@[id.slot as int] is Some
    }

    spec fn node(&self, id: ObjectId) -> Node<T> {
        self.nodes@[id.slot as int]->Some_0
    }

    /// The value of object `id`.
    pub closed spec fn value(&self, id: ObjectId) -> T {
        self.node(id).value
    }

    /// The layer of object `id`.
    pub closed spec fn layer(&self, id: ObjectId) -> i32 {
        self.node(id).layer
    }

    /// The parent of object `id`, if it has one.
    pub closed spec fn parent(&self, id: ObjectId) -> Option<ObjectId> {
        self.node(id).parent
    }

    /// The children listed by object `id`, in increasing slot order.
    pub closed spec fn children(&self, id: ObjectId) -> Seq<ObjectId> {
        self.node(id).children@
    }

    /// Whether one more object fits: a slot is free or fewer than `u32::MAX`
    /// slots are in use.
    pub closed spec fn has_room(&self) -> bool {
        self.free@.len() > 0 || self.nodes@.len() < u32::MAX
    }

    /// Whether the sorted listing is out of date.
    pub closed spec fn is_dirty(&self) -> bool {
        self.dirty
    }

    /// Object `id` is in the children list of its parent, if it has one.
    pub open spec fn consistent(&self, id: ObjectId) -> bool {
        match self.parent(id) {
            Some(p) => self.contains(p) && self.children(p).contains(id),
            None => true,
        }
    }

    /// The children list of `p` is in strictly increasing slot order and
    /// names live objects whose parent is `p`.
    pub open spec fn children_ok(&self, p: ObjectId) -> bool {
        &&& slots_increasing(self.children(p))
        &&& forall|c: ObjectId| #[trigger]
            self.children(p).contains(c) ==> self.contains(c) && self.parent(c) == Some(p)
    }

    /// The objects without a parent.
    pub open spec fn is_root(&self, id: ObjectId) -> bool {
        self.contains(id) && self.parent(id) is None
    }

    /// `a` is `x`, or an ancestor of `x` at most `n` parent links up.
    pub open spec fn ancestor_within(&self, a: ObjectId, x: ObjectId, n: nat) -> bool
        decreases n,
    {
        x == a || (n > 0 && self.parent(x) is Some && self.ancestor_within(
            a,
            self.parent(x)->Some_0,
            (n - 1) as nat,
        ))
    }

    /// `a` is `x` or one of its ancestors.
    pub open spec fn is_ancestor_or_self(&self, a: ObjectId, x: ObjectId) -> bool {
        exists|n: nat| #[trigger] self.ancestor_within(a, x, n)
    }

    /// `s` lists the objects reachable from the roots through children
    /// lists, once each, every object after its parent and siblings in
    /// `sibling_order`, depth first: the parent of each object is the
    /// object listed just before it or one of that object's ancestors, so
    /// that every subtree is listed in one piece right after its root.
    pub open spec fn is_sorted_listing(&self, s: Seq<ObjectId>) -> bool {
        &&& s.no_duplicates()
        &&& forall|i: int| 0 <= i < s.len() ==> self.contains(#[trigger] s[i])
        &&& forall|r: ObjectId| #[trigger] self.is_root(r) ==> s.contains(r)
        &&& forall|i: int, k: int|
            0 <= i < s.len() && 0 <= k < self.children(s[i]).len() ==> s.contains(
                #[trigger] self.children(#[trigger] s[i])[k],
            )
        &&& forall|i: int|
            #![trigger s[i]]
            0 <= i < s.len() && self.parent(s[i]) is Some ==> {
                let p = self.parent(s[i])->Some_0;
                exists|j: int| 0 <= j < i && s[j] == p && self.children(p).contains(s[i])
            }
        &&& forall|i: int, j: int|
            #![trigger s[i], s[j]]
            0 <= i < s.len() && 0 <= j < s.len() && self.parent(s[i]) == self.parent(s[j])
                && sibling_order(self, s[i], s[j]) ==> i < j
        &&& forall|i: int|
            #![trigger s[i]]
            0 < i < s.len() && self.parent(s[i]) is Some ==> self.is_ancestor_or_self(
                self.parent(s[i])->Some_0,
                s[i - 1],
            )
    }

    /// The internal invariant of the graph.
    pub closed spec fn wf(&self) -> bool {
        &&& self.nodes@.len() == self.generations@.len()
        &&& self.nodes@.len() <= u32::MAX
        &&& forall|i: int|
            0 <= i < self.free@.len() ==> (#[trigger] self.free@[i] as int) < self.nodes@.len()
                && self.nodes@[self.free@[i] as int] is None
        &&& self.free@.no_duplicates()
        &&& forall|p: ObjectId| #[trigger] self.contains(p) ==> self.children_ok(p)
        &&& !self.dirty ==> self.is_sorted_listing(self.sorted@)
    }


    /// Object `id` has the same value, layer, parent and children in `self`
    /// as in `other`.
    pub open spec fn same_object(&self, other: &Self, id: ObjectId) -> bool {
        &&& self.value(id) == other.value(id)
        &&& self.layer(id) == other.layer(id)
        &&& self.parent(id) == other.parent(id)
        &&& self.children(id) == other.children(id)
    }

    /// Takes the node of live object `id` out of its slot.
    fn take_node(&mut self, id: ObjectId) -> (n: Node<T>)
        requires
            old(self).contains(id),
        ensures
            n == old(self).node(id),
            final(self).nodes@ == old(self).nodes@.update(id.slot as int, None),
            final(self).generations@ == old(self).generations@,
            final(self).free@ == old(self).free@,
            final(self).sorted@ == old(self).sorted@,
            final(self).dirty == old(self).dirty,
    {
        let taken = self.nodes[id.slot as usize].take();
        taken.unwrap()
    }

    /// The value of object `id`.
    pub fn get(&self, id: ObjectId) -> (r: &T)
        requires
            self.contains(id),
        ensures
            *r == self.value(id),
    {
        &self.nodes[id.slot as usize].as_ref().unwrap().value
    }


    /// `self` is `other` with at most the value of object `id` changed.
    pub closed spec fn differs_in_value_only(&self, other: &Self, id: ObjectId) -> bool {
        &&& self.nodes@.len() == other.nodes@.len()
        &&& forall|s: int|
            0 <= s < self.nodes@.len() && s != id.slot ==> #[trigger] self.nodes@[s] == other.nodes@[s]
        &&& self.nodes@[id.slot as int] is Some
        &&& self.node(id).layer == other.node(id).layer
        &&& self.node(id).parent == other.node(id).parent
        &&& self.node(id).children == other.node(id).children
        &&& self.generations@ == other.generations@
        &&& self.free@ == other.free@
        &&& self.sorted@ == other.sorted@
        &&& self.dirty == other.dirty
    }

    /// Changing only a value keeps the graph's invariant and every object
    /// other than the value itself.
    pub proof fn lemma_value_change(&self, other: &Self, id: ObjectId)
        requires
            other.wf(),
            other.contains(id),
            self.differs_in_value_only(other, id),
        ensures
            self.wf(),
            self.is_dirty() == other.is_dirty(),
            self.has_room() == other.has_room(),
            self.sorted_ids() == other.sorted_ids(),
            forall|x: ObjectId| #[trigger] self.contains(x) == other.contains(x),
            forall|x: ObjectId| #[trigger]
                other.contains(x) ==> {
                    &&& self.layer(x) == other.layer(x)
                    &&& self.parent(x) == other.parent(x)
                    &&& self.children(x) == other.children(x)
                    &&& (x != id ==> self.value(x) == other.value(x))
                },
    {
        assert forall|x: ObjectId| #[trigger] self.contains(x) == other.contains(x) by {
            if (x.slot as int) < self.nodes@.len() && x.slot != id.slot {
                assert(self.nodes@[x.slot as int] == other.nodes@[x.slot as int]);
            }
        }
        assert forall|x: ObjectId| #[trigger] other.contains(x) implies {
            &&& self.layer(x) == other.layer(x)
            &&& self.parent(x) == other.parent(x)
            &&& self.children(x) == other.children(x)
            &&& (x != id ==> self.value(x) == other.value(x))
        } by {
            if x.slot != id.slot {
                assert(self.nodes@[x.slot as int] == other.nodes@[x.slot as int]);
            }
        }
        assert forall|p: ObjectId| #[trigger] self.contains(p) implies self.children_ok(p) by {
            assert(other.children_ok(p));
            assert forall|c: ObjectId| #[trigger] self.children(p).contains(c) implies self.contains(c)
                && self.parent(c) == Some(p) by {
                assert(other.children(p).contains(c));
            }
        }
        if !self.dirty {
            other.lemma_listing_frame_objects(self, self.sorted@);
        }
    }

    /// The value of object `id`, for change in place.
    pub fn get_mut(&mut self, id: ObjectId) -> (r: &mut T)
        requires
            old(self).wf(),
            old(self).contains(id),
        ensures
            *r == old(self).value(id),
            final(self).differs_in_value_only(old(self), id),
            final(self).value(id) == *final(r),
    {
        let node = self.nodes[id.slot as usize].as_mut().unwrap();
        &mut node.value
    }

    /// Puts object `id` on `layer`.
    pub fn set_layer(&mut self, id: ObjectId, layer: i32)
        requires
            old(self).wf(),
            old(self).contains(id),
        ensures
            final(self).wf(),
            final(self).is_dirty(),
            final(self).has_room() == old(self).has_room(),
            final(self).layer(id) == layer,
            final(self).value(id) == old(self).value(id),
            final(self).parent(id) == old(self).parent(id),
            final(self).children(id) == old(self).children(id),
            forall|x: ObjectId| #[trigger] final(self).contains(x) == old(self).contains(x),
            forall|x: ObjectId| #[trigger]
                old(self).contains(x) && x != id ==> final(self).same_object(old(self), x),
    {
        let mut n = self.take_node(id);
        n.layer = layer;
        self.nodes.set(id.slot as usize, Some(n));
        self.dirty = true;
        proof {
            assert forall|p: ObjectId| #[trigger] self.contains(p) implies self.children_ok(p) by {
                assert(old(self).contains(p));
                assert(old(self).children_ok(p));
                assert forall|c: ObjectId| #[trigger] self.children(p).contains(c) implies self.contains(c)
                    && self.parent(c) == Some(p) by {
                    assert(old(self).contains(c));
                }
            }
        }
    }



    /// Whether `id` names an object of the graph.
    pub fn contains_object(&self, id: ObjectId) -> (r: bool)
        requires
            self.wf(),
        ensures
            r == self.contains(id),
    {
        let s = id.slot as usize;
        s < self.nodes.len() && self.generations[s] == id.generation && self.nodes[s].is_some()
    }

    /// Whether object `id` is in the children list of its parent, if it has
    /// one: what `set_parent` and `remove` ask of it.
    pub fn is_consistent(&self, id: ObjectId) -> (r: bool)
        requires
            self.wf(),
            self.contains(id),
        ensures
            r == self.consistent(id),
    {
        let s = id.slot as usize;
        let parent = match &self.nodes[s] {
            Some(n) => n.parent,
            None => return true,
        };
        match parent {
            None => true,
            Some(p) => {
                if !self.contains_object(p) {
                    return false;
                }
                let ps = p.slot as usize;
                match &self.nodes[ps] {
                    Some(pn) => {
                        assert(pn.children@ == self.children(p));
                        assert(self.parent(id) == Some(p));
                        let mut i: usize = 0;
                        while i < pn.children.len()
                            invariant
                                i <= pn.children.len(),
                                pn.children@ == self.children(p),
                                self.parent(id) == Some(p),
                                self.contains(p),
                                forall|k: int| 0 <= k < i ==> pn.children@[k] != id,
                            decreases pn.children.len() - i,
                        {
                            let c = pn.children[i];
                            if c.slot == id.slot && c.generation == id.generation {
                                assert(pn.children@[i as int] == id);
                                assert(self.children(p).contains(id));
                                assert(self.parent(id) == Some(p));
                                return true;
                            }
                            i += 1;
                        }
                        false
                    },
                    None => false,
                }
            },
        }
    }

    /// Removes object `id` and hands back its value, or `None` when `id`
    /// names no object. Its children lose their parent, and it leaves the
    /// children list of its parent.
    #[verifier::rlimit(40)]
    pub fn remove(&mut self, id: ObjectId) -> (r: Option<T>)
        requires
            old(self).wf(),
            old(self).contains(id) ==> old(self).consistent(id) && old(self).parent(id) != Some(
                id,
            ),
        ensures
            final(self).wf(),
            !old(self).contains(id) ==> r is None && *final(self) == *old(self),
            old(self).contains(id) ==> {
                &&& r == Some(old(self).value(id))
                &&& final(self).is_dirty()
                &&& final(self).has_room()
                &&& !final(self).contains(id)
                &&& forall|x: ObjectId|
                    x != id ==> #[trigger] final(self).contains(x) == old(self).contains(x)
                &&& forall|x: ObjectId| #[trigger]
                    old(self).contains(x) && x != id ==> {
                        &&& final(self).value(x) == old(self).value(x)
                        &&& final(self).layer(x) == old(self).layer(x)
                        &&& final(self).parent(x) == if old(self).children(id).contains(x) {
                            None
                        } else {
                            old(self).parent(x)
                        }
                        &&& final(self).children(x).to_set() == if old(self).parent(id) == Some(x) {
                            old(self).children(x).to_set().remove(id)
                        } else {
                            old(self).children(x).to_set()
                        }
                        &&& old(self).parent(id) != Some(x) ==> final(self).children(x)
                            == old(self).children(x)
                    }
            },
    {
        if !self.contains_object(id) {
            return None;
        }
        let ghost g0 = *old(self);
        proof {
            assert(g0.children_ok(id));
        }
        let node = self.take_node(id);
        self.free.push(id.slot);
        proof {
            assert forall|i: int| 0 <= i < self.free@.len() implies (
            #[trigger] self.free@[i] as int) < self.nodes@.len() && self.nodes@[self.free@[i] as int] is None by {
                if i < old(self).free@.len() {
                    assert(old(self).free@[i] == self.free@[i]);
                }
            }
            assert(!old(self).free@.contains(id.slot)) by {
                if old(self).free@.contains(id.slot) {
                    let i = old(self).free@.index_of(id.slot);
                }
            }
        }
        let mut k: usize = 0;
        while k < node.children.len()
            invariant
                0 <= k <= node.children@.len(),
                node == g0.node(id),
                g0.wf(),
                g0.contains(id),
                g0.children_ok(id),
                g0.parent(id) != Some(id),
                self.nodes@.len() == g0.nodes@.len(),
                self.generations@ == g0.generations@,
                self.sorted@ == g0.sorted@,
                self.dirty == g0.dirty,
                self.free@ == g0.free@.push(id.slot),
                self.free@.no_duplicates(),
                self.nodes@[id.slot as int] is None,
                forall|s: int|
                    0 <= s < self.nodes@.len() && s != id.slot ==> (#[trigger] self.nodes@[s] is Some)
                        == (g0.nodes@[s] is Some),
                forall|x: ObjectId| #[trigger]
                    g0.contains(x) && x != id ==> {
                        &&& self.value(x) == g0.value(x)
                        &&& self.layer(x) == g0.layer(x)
                        &&& self.children(x) == g0.children(x)
                        &&& self.parent(x) == if node.children@.take(k as int).contains(x) {
                            None
                        } else {
                            g0.parent(x)
                        }
                    },
            decreases node.children@.len() - k,
        {
            let c = node.children[k];
            proof {
                assert(g0.children(id).contains(c));
                assert(c != id);
                assert(self.contains(c));
            }
            let mut cn = self.take_node(c);
            cn.parent = None;
            self.nodes.set(c.slot as usize, Some(cn));
            proof {
                assert forall|x: ObjectId| #[trigger] g0.contains(x) && x != id implies
                    self.parent(x) == if node.children@.take(k + 1).contains(x) {
                        None
                    } else {
                        g0.parent(x)
                    } by {
                    if x == c {
                        assert(node.children@.take(k + 1)[k as int] == c);
                    } else {
                        if node.children@.take(k + 1).contains(x) {
                            let m = node.children@.take(k + 1).index_of(x);
                            assert(node.children@.take(k as int)[m] == x);
                        }
                        if node.children@.take(k as int).contains(x) {
                            let m = node.children@.take(k as int).index_of(x);
                            assert(node.children@.take(k + 1)[m] == x);
                        }
                        g0.lemma_slot_distinct(x, c);
                    }
                }
            }
            k = k + 1;
        }
        proof {
            assert(node.children@.take(node.children@.len() as int) == node.children@);
        }
        match node.parent {
            Some(q) => {
                proof {
                    assert(q != id);
                    assert(g0.contains(q));
                    assert(g0.children_ok(q));
                    assert(self.contains(q));
                }
                let mut qn = self.take_node(q);
                remove_by_slot(&mut qn.children, id);
                self.nodes.set(q.slot as usize, Some(qn));
            },
            None => {},
        }
        self.dirty = true;
        proof {
            assert forall|i: int| 0 <= i < self.free@.len() implies (
            #[trigger] self.free@[i] as int) < self.nodes@.len() && self.nodes@[self.free@[i] as int] is None by {
                if i < g0.free@.len() {
                    assert(g0.free@[i] == self.free@[i]);
                    assert(g0.nodes@[g0.free@[i] as int] is None);
                }
            }
            assert forall|x: ObjectId| x != id implies #[trigger] self.contains(x) == g0.contains(x) by {
                if (x.slot as int) < self.nodes@.len() && x.slot != id.slot {
                    assert((self.nodes@[x.slot as int] is Some) == (g0.nodes@[x.slot as int] is Some));
                }
            }
            assert forall|x: ObjectId| #[trigger] self.contains(x) implies self.children_ok(x) by {
                assert(g0.contains(x));
                assert(g0.children_ok(x));
                assert forall|c: ObjectId| #[trigger] self.children(x).contains(c) implies self.contains(c)
                    && self.parent(c) == Some(x) by {
                    assert(self.children(x).to_set().contains(c));
                    assert(g0.children(x).to_set().contains(c));
                    assert(g0.contains(c));
                    if c == id {
                        assert(g0.parent(id) == Some(x));
                    }
                    if node.children@.contains(c) {
                        assert(g0.children(id).contains(c));
                    }
                }
            }
        }
        Some(node.value)
    }

    /// Live handles with different slots are different handles, and vice
    /// versa.
    proof fn lemma_slot_distinct(&self, a: ObjectId, b: ObjectId)
        requires
            self.contains(a),
            self.contains(b),
            a != b,
        ensures
            a.slot != b.slot,
    {
    }


    /// The state of the depth-first listing: `s` is the output so far, `k`
    /// the stack of objects still to visit (its top last).
    spec fn dfs_inv(&self, s: Seq<ObjectId>, k: Seq<ObjectId>) -> bool {
        &&& s.no_duplicates()
        &&& k.no_duplicates()
        &&& forall|x: ObjectId| #[trigger] s.contains(x) ==> !k.contains(x)
        &&& forall|i: int| 0 <= i < s.len() ==> self.contains(#[trigger] s[i])
        &&& forall|i: int| 0 <= i < k.len() ==> self.contains(#[trigger] k[i])
        &&& forall|r: ObjectId| #[trigger] self.is_root(r) ==> s.contains(r) || k.contains(r)
        &&& forall|i: int, c: ObjectId|
            0 <= i < s.len() && #[trigger] self.children(#[trigger] s[i]).contains(c) ==> s.contains(c)
                || k.contains(c)
        &&& forall|i: int|
            #![trigger s[i]]
            0 <= i < s.len() && self.parent(s[i]) is Some ==> {
                let p = self.parent(s[i])->Some_0;
                exists|j: int| 0 <= j < i && s[j] == p && self.children(p).contains(s[i])
            }
        &&& forall|i: int|
            #![trigger k[i]]
            0 <= i < k.len() && self.parent(k[i]) is Some ==> {
                let p = self.parent(k[i])->Some_0;
                s.contains(p) && self.children(p).contains(k[i])
            }
        &&& forall|i: int, j: int|
            #![trigger s[i], s[j]]
            0 <= i < s.len() && 0 <= j < s.len() && self.parent(s[i]) == self.parent(s[j])
                && sibling_order(self, s[i], s[j]) ==> i < j
        &&& forall|i: int, j: int|
            #![trigger k[i], s[j]]
            0 <= i < k.len() && 0 <= j < s.len() && self.parent(k[i]) == self.parent(s[j])
                ==> !sibling_order(self, k[i], s[j])
        &&& forall|i: int, j: int|
            #![trigger k[i], k[j]]
            0 <= i < k.len() && 0 <= j < k.len() && self.parent(k[i]) == self.parent(k[j])
                && sibling_order(self, k[i], k[j]) ==> i > j
    }

    /// The layer of live object `id`.
    fn layer_of(&self, id: ObjectId) -> (r: i32)
        requires
            self.contains(id),
        ensures
            r == self.layer(id),
    {
        self.nodes[id.slot as usize].as_ref().unwrap().layer
    }

    /// `a` comes before `b` among siblings.
    fn before(&self, a: ObjectId, b: ObjectId) -> (r: bool)
        requires
            self.contains(a),
            self.contains(b),
        ensures
            r == sibling_order(self, a, b),
    {
        let la = self.layer_of(a);
        let lb = self.layer_of(b);
        la < lb || (la == lb && a.slot < b.slot)
    }

    /// `ids`, live and distinct, rearranged into sibling order.
    fn order_siblings(&self, ids: &Vec<ObjectId>) -> (r: Vec<ObjectId>)
        requires
            forall|i: int| 0 <= i < ids@.len() ==> self.contains(#[trigger] ids@[i]),
            ids@.no_duplicates(),
        ensures
            r@.to_set() == ids@.to_set(),
            r@.len() == ids@.len(),
            forall|i: int, j: int|
                0 <= i < j < r@.len() ==> sibling_order(self, #[trigger] r@[i], #[trigger] r@[j]),
            r@.no_duplicates(),
    {
        let mut r: Vec<ObjectId> = Vec::new();
        let mut n: usize = 0;
        while n < ids.len()
            invariant
                0 <= n <= ids@.len(),
                forall|i: int| 0 <= i < ids@.len() ==> self.contains(#[trigger] ids@[i]),
                ids@.no_duplicates(),
                r@.to_set() == ids@.take(n as int).to_set(),
                r@.len() == n,
                forall|i: int, j: int|
                    0 <= i < j < r@.len() ==> sibling_order(self, #[trigger] r@[i], #[trigger] r@[j]),
            decreases ids@.len() - n,
        {
            let x = ids[n];
            proof {
                assert forall|i: int| 0 <= i < r@.len() implies self.contains(#[trigger] r@[i]) && r@[i] != x by {
                    assert(r@.to_set().contains(r@[i]));
                    assert(ids@.take(n as int).to_set().contains(r@[i]));
                    let m = ids@.take(n as int).index_of(r@[i]);
                    assert(ids@[m] == r@[i]);
                }
            }
            let mut pos: usize = 0;
            while pos < r.len() && self.before(r[pos], x)
                invariant
                    0 <= pos <= r@.len(),
                    self.contains(x),
                    forall|i: int| 0 <= i < r@.len() ==> self.contains(#[trigger] r@[i]) && r@[i] != x,
                    forall|i: int| 0 <= i < pos ==> sibling_order(self, #[trigger] r@[i], x),
                decreases r@.len() - pos,
            {
                pos = pos + 1;
            }
            proof {
                assert forall|i: int| pos <= i < r@.len() implies sibling_order(self, x, #[trigger] r@[i]) by {
                    if pos < r@.len() {
                        assert(!sibling_order(self, r@[pos as int], x));
                        assert(r@[pos as int] != x);
                        self.lemma_slot_distinct(r@[pos as int], x);
                        if i > pos {
                            assert(sibling_order(self, r@[pos as int], r@[i]));
                        }
                    }
                }
            }
            let ghost before = r@;
            r.insert(pos, x);
            proof {
                assert(r@.to_set() =~= ids@.take(n + 1).to_set()) by {
                    assert(ids@.take(n + 1) =~= ids@.take(n as int).push(x));
                    assert forall|y: ObjectId| r@.to_set().contains(y) <==> ids@.take(n + 1).to_set().contains(y) by {
                        let t0 = ids@.take(n as int);
                        let t1 = ids@.take(n + 1);
                        assert(t1[n as int] == x);
                        if r@.contains(y) {
                            let m = r@.index_of(y);
                            if m == pos {
                                assert(t1.contains(y));
                            } else {
                                if m < pos {
                                    assert(before[m] == y);
                                } else {
                                    assert(before[m - 1] == y);
                                }
                                assert(before.to_set().contains(y));
                                assert(t0.to_set().contains(y));
                                let q = t0.index_of(y);
                                assert(t1[q] == y);
                            }
                        }
                        if t1.contains(y) {
                            let q = t1.index_of(y);
                            if q == n {
                                assert(r@[pos as int] == x);
                            } else {
                                assert(t0[q] == y);
                                assert(t0.to_set().contains(y));
                                assert(before.to_set().contains(y));
                                let m = before.index_of(y);
                                if m < pos {
                                    assert(r@[m] == y);
                                } else {
                                    assert(r@[m + 1] == y);
                                }
                            }
                        }
                    }
                }
                assert forall|i: int, j: int|
                    0 <= i < j < r@.len() implies sibling_order(self, #[trigger] r@[i], #[trigger] r@[j]) by {
                    if i < pos && j == pos {
                    } else if i == pos && j > pos {
                        assert(r@[j] == before[j - 1]);
                    } else if i < pos && j > pos {
                        assert(r@[j] == before[j - 1]);
                    } else if i > pos {
                        assert(r@[i] == before[i - 1]);
                        assert(r@[j] == before[j - 1]);
                    }
                }
            }
            n = n + 1;
        }
        proof {
            assert(ids@.take(ids@.len() as int) == ids@);
            assert(r@.no_duplicates()) by {
                assert forall|i: int, j: int| 0 <= i < j < r@.len() implies r@[i] != r@[j] by {
                    assert(sibling_order(self, r@[i], r@[j]));
                }
            }
        }
        r
    }


    /// The objects without a parent, in increasing slot order.
    fn collect_roots(&self) -> (r: Vec<ObjectId>)
        requires
            self.wf(),
        ensures
            forall|i: int| 0 <= i < r@.len() ==> self.is_root(#[trigger] r@[i]),
            forall|x: ObjectId| #[trigger] self.is_root(x) ==> r@.contains(x),
            r@.no_duplicates(),
    {
        let mut r: Vec<ObjectId> = Vec::new();
        let mut s: usize = 0;
        while s < self.nodes.len()
            invariant
                self.wf(),
                0 <= s <= self.nodes@.len(),
                forall|i: int| 0 <= i < r@.len() ==> self.is_root(#[trigger] r@[i]) && r@[i].slot() < s,
                forall|x: ObjectId| #[trigger] self.is_root(x) && x.slot() < s ==> r@.contains(x),
                slots_increasing(r@),
            decreases self.nodes@.len() - s,
        {
            match &self.nodes[s] {
                Some(node) => {
                    if node.parent.is_none() {
                        let id = ObjectId { slot: s as u32, generation: self.generations[s] };
                        let ghost before = r@;
                        r.push(id);
                        proof {
                            assert forall|x: ObjectId| #[trigger] self.is_root(x) && x.slot() < s + 1 implies r@.contains(x) by {
                                if x.slot() == s {
                                    assert(r@[r@.len() - 1] == id);
                                } else {
                                    let m = before.index_of(x);
                                    assert(r@[m] == x);
                                }
                            }
                        }
                    } else {
                        proof {
                            assert forall|x: ObjectId| #[trigger] self.is_root(x) && x.slot() < s + 1 implies r@.contains(x) by {
                                if x.slot() == s {
                                    assert(self.parent(x) is Some);
                                }
                            }
                        }
                    }
                },
                None => {},
            }
            s = s + 1;
        }
        proof {
            assert forall|i: int, j: int| 0 <= i < j < r@.len() implies r@[i] != r@[j] by {
                assert(r@[i].slot() < r@[j].slot());
            }
        }
        r
    }

    /// A duplicate-free list of live objects is no longer than the slot
    /// table.
    proof fn lemma_listing_bound(&self, s: Seq<ObjectId>)
        requires
            self.wf(),
            s.no_duplicates(),
            forall|i: int| 0 <= i < s.len() ==> self.contains(#[trigger] s[i]),
        ensures
            s.len() <= self.nodes@.len(),
    {
        let slots = s.map_values(|x: ObjectId| x.slot() as int);
        assert(slots.no_duplicates()) by {
            assert forall|i: int, j: int| 0 <= i < slots.len() && 0 <= j < slots.len() && i != j implies slots[i] != slots[j] by {
                if slots[i] == slots[j] {
                    self.lemma_same_slot(s[i], s[j]);
                }
            }
        }
        slots.unique_seq_to_set();
        vstd::set_lib::lemma_int_range(0, self.nodes@.len() as int);
        assert(slots.to_set().subset_of(vstd::set_lib::set_int_range(0, self.nodes@.len() as int))) by {
            assert forall|v: int| slots.to_set().contains(v) implies vstd::set_lib::set_int_range(0, self.nodes@.len() as int).contains(v) by {
                let i = slots.index_of(v);
                assert(self.contains(s[i]));
            }
        }
        vstd::set_lib::lemma_len_subset(
            slots.to_set(),
            vstd::set_lib::set_int_range(0, self.nodes@.len() as int),
        );
    }


    /// The stack start: the roots, in sibling order with the first on top.
    proof fn lemma_dfs_start(&self, o: Seq<ObjectId>)
        requires
            self.wf(),
            forall|i: int| 0 <= i < o.len() ==> self.is_root(#[trigger] o[i]),
            forall|x: ObjectId| #[trigger] self.is_root(x) ==> o.to_set().contains(x),
            o.no_duplicates(),
            forall|i: int, j: int|
                0 <= i < j < o.len() ==> sibling_order(self, #[trigger] o[i], #[trigger] o[j]),
        ensures
            self.dfs_inv(Seq::empty(), o.reverse()),
    {
        let k = o.reverse();
        let n = o.len();
        assert forall|i: int| 0 <= i < k.len() implies #[trigger] k[i] == o[n - 1 - i] by {}
        assert(k.no_duplicates()) by {
            assert forall|i: int, j: int| 0 <= i < k.len() && 0 <= j < k.len() && i != j implies k[i] != k[j] by {
                assert(k[i] == o[n - 1 - i]);
                assert(k[j] == o[n - 1 - j]);
            }
        }
        assert forall|r: ObjectId| #[trigger] self.is_root(r) implies k.contains(r) by {
            assert(o.to_set().contains(r));
            let m = o.index_of(r);
            assert(k[n - 1 - m] == r);
        }
        assert forall|i: int| 0 <= i < k.len() implies self.contains(#[trigger] k[i]) by {
            assert(self.is_root(o[n - 1 - i]));
        }
        assert forall|i: int| #![trigger k[i]] 0 <= i < k.len() implies self.parent(k[i]) is None by {
            assert(self.is_root(o[n - 1 - i]));
        }
        assert forall|i: int, j: int|
            #![trigger k[i], k[j]]
            0 <= i < k.len() && 0 <= j < k.len() && self.parent(k[i]) == self.parent(k[j])
                && sibling_order(self, k[i], k[j]) implies i > j by {
            if i <= j {
                if i == j {
                    assert(!sibling_order(self, k[i], k[i]));
                } else {
                    assert(sibling_order(self, o[n - 1 - j], o[n - 1 - i]));
                    self.lemma_order_asymmetric(k[i], k[j]);
                }
            }
        }
    }

    /// `sibling_order` is irreflexive and asymmetric.
    proof fn lemma_order_asymmetric(&self, a: ObjectId, b: ObjectId)
        ensures
            !(sibling_order(self, a, b) && sibling_order(self, b, a)),
            !sibling_order(self, a, a),
    {
    }

    /// One step of the listing: pop `t`, emit it, push its children in
    /// sibling order with the first on top.
    #[verifier::rlimit(80)]
    proof fn lemma_dfs_step(&self, s: Seq<ObjectId>, k: Seq<ObjectId>, b: Seq<ObjectId>)
        requires
            self.wf(),
            self.dfs_inv(s, k),
            k.len() > 0,
            b.to_set() == self.children(k.last()).to_set(),
            b.no_duplicates(),
            forall|i: int, j: int|
                0 <= i < j < b.len() ==> sibling_order(self, #[trigger] b[i], #[trigger] b[j]),
        ensures
            self.dfs_inv(s.push(k.last()), k.drop_last() + b.reverse()),
    {
        let t = k.last();
        let m = k.len() - 1;
        let n = b.len();
        let s2 = s.push(t);
        let kd = k.drop_last();
        let br = b.reverse();
        let k2 = kd + br;
        assert(self.contains(t)) by {
            assert(self.contains(k[m]));
        }
        assert(self.children_ok(t));
        assert forall|i: int| 0 <= i < br.len() implies #[trigger] br[i] == b[n - 1 - i] by {}
        assert forall|i: int| 0 <= i < k2.len() implies #[trigger] k2[i] == if i < m {
            k[i]
        } else {
            b[n - 1 - (i - m)]
        } by {}
        // Children of `t` are live, have parent `t`, and are not yet listed.
        assert forall|c: ObjectId| #[trigger] b.contains(c) implies self.contains(c) && self.parent(c)
            == Some(t) && !s.contains(c) && !k.contains(c) by {
            assert(b.to_set().contains(c));
            assert(self.children(t).to_set().contains(c));
            assert(self.children(t).contains(c));
            if s.contains(c) {
                let i = s.index_of(c);
                assert(s[i] == c);
                let j = choose|j: int| 0 <= j < i && s[j] == t && self.children(t).contains(s[i]);
                assert(s.contains(t));
            }
            if k.contains(c) {
                let i = k.index_of(c);
                assert(k[i] == c);
                assert(s.contains(t));
            }
        }
        assert(!s.contains(t)) by {
            assert(k.contains(t));
        }
        assert(!kd.contains(t)) by {
            if kd.contains(t) {
                let i = kd.index_of(t);
                assert(k[i] == t);
                assert(k[m] == t);
            }
        }
        assert(!b.contains(t)) by {
            if b.contains(t) {
                assert(self.parent(t) == Some(t));
                assert(k[m] == t);
                assert(s.contains(t));
            }
        }
        assert forall|i: int| 0 <= i < b.len() implies b.contains(#[trigger] b[i]) by {}
        assert forall|i: int| 0 <= i < kd.len() implies #[trigger] kd[i] == k[i] && k.contains(kd[i]) by {}
        // Membership in the new stack.
        assert forall|x: ObjectId| #[trigger] k2.contains(x) <==> (kd.contains(x) || b.contains(x)) by {
            if k2.contains(x) {
                let i = k2.index_of(x);
                if i < m {
                    assert(kd[i] == x);
                } else {
                    assert(b[n - 1 - (i - m)] == x);
                }
            }
            if kd.contains(x) {
                let i = kd.index_of(x);
                assert(k2[i] == x);
            }
            if b.contains(x) {
                let i = b.index_of(x);
                assert(k2[m + (n - 1 - i)] == x);
            }
        }
        assert forall|x: ObjectId| #[trigger] kd.contains(x) implies k.contains(x) && x != t by {
            {
                let i = kd.index_of(x);
                assert(k[i] == x);
                if x == t {
                    assert(k[m] == t);
                }
            }
        }
        assert(s2.no_duplicates());
        assert(k2.no_duplicates()) by {
            assert forall|i: int, j: int| 0 <= i < k2.len() && 0 <= j < k2.len() && i != j implies k2[i] != k2[j] by {
                if i < m && j < m {
                } else if i >= m && j >= m {
                } else if i < m {
                    assert(b.contains(k2[j]));
                    assert(k.contains(k2[i]));
                } else {
                    assert(b.contains(k2[i]));
                    assert(k.contains(k2[j]));
                }
            }
        }
        assert forall|x: ObjectId| #[trigger] s2.contains(x) implies !k2.contains(x) by {
            if x != t {
                assert(s.contains(x));
            }
        }
        assert forall|i: int| 0 <= i < s2.len() implies self.contains(#[trigger] s2[i]) by {
            if i < s.len() {
                assert(s2[i] == s[i]);
            }
        }
        assert forall|i: int| 0 <= i < k2.len() implies self.contains(#[trigger] k2[i]) by {
            if i < m {
                assert(self.contains(k[i]));
            } else {
                assert(b.contains(k2[i]));
            }
        }
        assert forall|r: ObjectId| #[trigger] self.is_root(r) implies s2.contains(r) || k2.contains(r) by {
            if s.contains(r) {
                let i = s.index_of(r);
                assert(s2[i] == r);
            } else if r == t {
                assert(s2[s.len() as int] == t);
            } else {
                assert(k.contains(r));
                let i = k.index_of(r);
                assert(i != m);
                assert(kd[i] == r);
            }
        }
        assert forall|i: int, c: ObjectId|
            0 <= i < s2.len() && #[trigger] self.children(#[trigger] s2[i]).contains(c) implies s2.contains(c)
                || k2.contains(c) by {
            if i < s.len() {
                assert(s2[i] == s[i]);
                if s.contains(c) {
                    let j = s.index_of(c);
                    assert(s2[j] == c);
                } else if c == t {
                    assert(s2[s.len() as int] == t);
                } else {
                    assert(k.contains(c));
                    let j = k.index_of(c);
                    assert(kd[j] == c);
                }
            } else {
                assert(self.children(t).to_set().contains(c));
                assert(b.to_set().contains(c));
            }
        }
        assert forall|i: int|
            #![trigger s2[i]]
            0 <= i < s2.len() && self.parent(s2[i]) is Some implies {
                let p = self.parent(s2[i])->Some_0;
                exists|j: int| 0 <= j < i && s2[j] == p && self.children(p).contains(s2[i])
            } by {
            let p = self.parent(s2[i])->Some_0;
            if i < s.len() {
                assert(s2[i] == s[i]);
                let j = choose|j: int| 0 <= j < i && s[j] == p && self.children(p).contains(s[i]);
                assert(s2[j] == p);
            } else {
                assert(s2[i] == t);
                assert(self.parent(k[m]) is Some);
                assert(s.contains(p));
                let j = s.index_of(p);
                assert(s2[j] == p);
            }
        }
        assert forall|i: int|
            #![trigger k2[i]]
            0 <= i < k2.len() && self.parent(k2[i]) is Some implies {
                let p = self.parent(k2[i])->Some_0;
                s2.contains(p) && self.children(p).contains(k2[i])
            } by {
            if i < m {
                assert(k2[i] == k[i]);
                let p = self.parent(k[i])->Some_0;
                let j = s.index_of(p);
                assert(s2[j] == p);
            } else {
                assert(b.contains(k2[i]));
                assert(s2[s.len() as int] == t);
                assert(b.to_set().contains(k2[i]));
                assert(self.children(t).to_set().contains(k2[i]));
            }
        }
        assert forall|i: int, j: int|
            #![trigger s2[i], s2[j]]
            0 <= i < s2.len() && 0 <= j < s2.len() && self.parent(s2[i]) == self.parent(s2[j])
                && sibling_order(self, s2[i], s2[j]) implies i < j by {
            if i < s.len() && j < s.len() {
                assert(s2[i] == s[i] && s2[j] == s[j]);
            } else if i == s.len() && j < s.len() {
                assert(s2[j] == s[j]);
                assert(k[m] == t);
                assert(!sibling_order(self, k[m], s[j]));
            } else if i == s.len() && j == s.len() {
                self.lemma_order_asymmetric(t, t);
            }
        }
        assert forall|i: int, j: int|
            #![trigger k2[i], s2[j]]
            0 <= i < k2.len() && 0 <= j < s2.len() && self.parent(k2[i]) == self.parent(s2[j])
                implies !sibling_order(self, k2[i], s2[j]) by {
            if i < m {
                assert(k2[i] == k[i]);
                if j < s.len() {
                    assert(s2[j] == s[j]);
                } else {
                    assert(s2[j] == t);
                    assert(k[m] == t);
                    if sibling_order(self, k[i], k[m]) {
                        assert(i > m);
                    }
                }
            } else {
                let c = k2[i];
                assert(b.contains(c));
                if j < s.len() {
                    assert(s2[j] == s[j]);
                    assert(self.parent(s[j]) == Some(t));
                    let jj = choose|jj: int| 0 <= jj < j && s[jj] == t && self.children(t).contains(s[j]);
                    assert(s.contains(t));
                } else {
                    assert(s2[j] == t);
                    assert(self.parent(t) == Some(t));
                    assert(self.parent(k[m]) is Some);
                    assert(s.contains(t));
                }
            }
        }
        assert forall|i: int, j: int|
            #![trigger k2[i], k2[j]]
            0 <= i < k2.len() && 0 <= j < k2.len() && self.parent(k2[i]) == self.parent(k2[j])
                && sibling_order(self, k2[i], k2[j]) implies i > j by {
            if i < m && j < m {
                assert(k2[i] == k[i] && k2[j] == k[j]);
            } else if i >= m && j >= m {
                let bi = n - 1 - (i - m);
                let bj = n - 1 - (j - m);
                assert(k2[i] == b[bi] && k2[j] == b[bj]);
                if i <= j {
                    if i == j {
                        self.lemma_order_asymmetric(k2[i], k2[j]);
                    } else {
                        assert(sibling_order(self, b[bj], b[bi]));
                        self.lemma_order_asymmetric(k2[i], k2[j]);
                    }
                }
            } else if i < m {
                assert(b.contains(k2[j]));
                assert(self.parent(k2[j]) == Some(t));
                assert(k2[i] == k[i]);
                assert(s.contains(t));
            } else {
                assert(b.contains(k2[i]));
                assert(self.parent(k2[i]) == Some(t));
                assert(k2[j] == k[j]);
                assert(s.contains(t));
            }
        }
    }


    /// A finished listing (empty stack) is a sorted listing.
    /// The ancestor relation, followed from a listed object, depends only
    /// on the parent links of the listed objects.
    proof fn lemma_ancestor_frame(&self, other: &Self, s: Seq<ObjectId>, a: ObjectId, x: ObjectId, n: nat)
        requires
            forall|i: int|
                0 <= i < s.len() && self.parent(#[trigger] s[i]) is Some ==> s.contains(
                    self.parent(s[i])->Some_0,
                ),
            forall|i: int| 0 <= i < s.len() ==> other.parent(#[trigger] s[i]) == self.parent(s[i]),
            s.contains(x),
        ensures
            other.ancestor_within(a, x, n) == self.ancestor_within(a, x, n),
        decreases n,
    {
        let k = s.index_of(x);
        assert(other.parent(s[k]) == self.parent(s[k]));
        if n > 0 && self.parent(x) is Some {
            self.lemma_ancestor_frame(other, s, a, self.parent(x)->Some_0, (n - 1) as nat);
        }
    }

    /// The depth-first preorder of a listing carries over to a graph in
    /// which the listed objects have the same parents.
    proof fn lemma_preorder_frame(&self, other: &Self, s: Seq<ObjectId>)
        requires
            forall|i: int|
                0 <= i < s.len() && self.parent(#[trigger] s[i]) is Some ==> s.contains(
                    self.parent(s[i])->Some_0,
                ),
            forall|i: int| 0 <= i < s.len() ==> other.parent(#[trigger] s[i]) == self.parent(s[i]),
            forall|i: int|
                #![trigger s[i]]
                0 < i < s.len() && self.parent(s[i]) is Some ==> self.is_ancestor_or_self(
                    self.parent(s[i])->Some_0,
                    s[i - 1],
                ),
        ensures
            forall|i: int|
                #![trigger s[i]]
                0 < i < s.len() && other.parent(s[i]) is Some ==> other.is_ancestor_or_self(
                    other.parent(s[i])->Some_0,
                    s[i - 1],
                ),
    {
        assert forall|i: int|
            #![trigger s[i]]
            0 < i < s.len() && other.parent(s[i]) is Some implies other.is_ancestor_or_self(
                other.parent(s[i])->Some_0,
                s[i - 1],
            ) by {
            assert(self.parent(s[i]) == other.parent(s[i]));
            let p = self.parent(s[i])->Some_0;
            let n = choose|n: nat| #[trigger] self.ancestor_within(p, s[i - 1], n);
            assert(s.contains(s[i - 1]));
            self.lemma_ancestor_frame(other, s, p, s[i - 1], n);
        }
    }

    /// In a sorted listing the parent of every listed object is listed.
    proof fn lemma_listing_parents(&self, s: Seq<ObjectId>)
        requires
            self.is_sorted_listing(s),
        ensures
            forall|i: int|
                0 <= i < s.len() && self.parent(#[trigger] s[i]) is Some ==> s.contains(
                    self.parent(s[i])->Some_0,
                ),
    {
        assert forall|i: int|
            0 <= i < s.len() && self.parent(#[trigger] s[i]) is Some implies s.contains(
            self.parent(s[i])->Some_0,
        ) by {
            let p = self.parent(s[i])->Some_0;
            let j = choose|j: int| 0 <= j < i && s[j] == p && self.children(p).contains(s[i]);
            assert(s[j] == p);
        }
    }

    /// The path of the depth-first listing: each listed object's parent is
    /// the object listed before it or an ancestor of that one; the parents
    /// of the stacked objects are ancestors of the last listed object and
    /// run down one path of the tree from the bottom of the stack to its
    /// top, roots lying below all others.
    spec fn dfs_chain(&self, s: Seq<ObjectId>, k: Seq<ObjectId>) -> bool {
        &&& forall|i: int|
            #![trigger s[i]]
            0 < i < s.len() && self.parent(s[i]) is Some ==> self.is_ancestor_or_self(
                self.parent(s[i])->Some_0,
                s[i - 1],
            )
        &&& forall|i: int|
            #![trigger k[i]]
            0 <= i < k.len() && self.parent(k[i]) is Some ==> s.len() > 0 && self.is_ancestor_or_self(
                self.parent(k[i])->Some_0,
                s.last(),
            )
        &&& forall|i: int, j: int|
            #![trigger k[i], k[j]]
            0 <= i < j < k.len() && self.parent(k[i]) is Some && self.parent(k[j]) is Some
                ==> self.is_ancestor_or_self(self.parent(k[i])->Some_0, self.parent(k[j])->Some_0)
        &&& forall|i: int, j: int|
            #![trigger k[i], k[j]]
            0 <= i < j < k.len() && self.parent(k[j]) is None ==> self.parent(k[i]) is None
    }

    /// `a` is an ancestor-or-self of the parent of `x`, so of `x`.
    proof fn lemma_ancestor_step(&self, a: ObjectId, x: ObjectId)
        requires
            self.parent(x) is Some,
            self.is_ancestor_or_self(a, self.parent(x)->Some_0),
        ensures
            self.is_ancestor_or_self(a, x),
    {
        let n = choose|n: nat| #[trigger] self.ancestor_within(a, self.parent(x)->Some_0, n);
        assert(self.ancestor_within(a, x, n + 1));
    }

    /// The path at the start: nothing listed, the roots stacked.
    proof fn lemma_chain_start(&self, k: Seq<ObjectId>)
        requires
            forall|i: int| 0 <= i < k.len() ==> self.parent(#[trigger] k[i]) is None,
        ensures
            self.dfs_chain(Seq::empty(), k),
    {
    }

    /// The path after one step: `t` popped and listed, its children `b`
    /// pushed.
    proof fn lemma_chain_step(&self, s: Seq<ObjectId>, k: Seq<ObjectId>, b: Seq<ObjectId>)
        requires
            self.dfs_chain(s, k),
            k.len() > 0,
            forall|i: int| 0 <= i < b.len() ==> self.parent(#[trigger] b[i]) == Some(k.last()),
        ensures
            self.dfs_chain(s.push(k.last()), k.drop_last() + b.reverse()),
    {
        let t = k.last();
        let m = k.len() - 1;
        let s2 = s.push(t);
        let kd = k.drop_last();
        let br = b.reverse();
        let k2 = kd + br;
        assert(self.ancestor_within(t, t, 0));
        assert forall|i: int| 0 <= i < br.len() implies self.parent(#[trigger] br[i]) == Some(t) by {
            assert(br[i] == b[b.len() - 1 - i]);
        }
        assert forall|i: int|
            #![trigger s2[i]]
            0 < i < s2.len() && self.parent(s2[i]) is Some implies self.is_ancestor_or_self(
                self.parent(s2[i])->Some_0,
                s2[i - 1],
            ) by {
            if i == s.len() {
                assert(s2[i] == k[m]);
            } else {
                assert(s2[i] == s[i] && s2[i - 1] == s[i - 1]);
            }
        }
        assert forall|i: int| 0 <= i < kd.len() && self.parent(#[trigger] kd[i]) is Some implies self.is_ancestor_or_self(
            self.parent(kd[i])->Some_0,
            t,
        ) by {
            assert(kd[i] == k[i]);
            if self.parent(t) is Some {
                assert(self.is_ancestor_or_self(self.parent(k[i])->Some_0, self.parent(k[m])->Some_0));
                self.lemma_ancestor_step(self.parent(kd[i])->Some_0, t);
            } else {
                assert(self.parent(k[i]) is None);
            }
        }
        assert forall|i: int|
            #![trigger k2[i]]
            0 <= i < k2.len() && self.parent(k2[i]) is Some implies s2.len() > 0 && self.is_ancestor_or_self(
                self.parent(k2[i])->Some_0,
                s2.last(),
            ) by {
            if i < kd.len() {
                assert(k2[i] == kd[i]);
            } else {
                assert(k2[i] == br[i - kd.len()]);
            }
        }
        assert forall|i: int, j: int|
            #![trigger k2[i], k2[j]]
            0 <= i < j < k2.len() && self.parent(k2[i]) is Some && self.parent(k2[j]) is Some
                implies self.is_ancestor_or_self(self.parent(k2[i])->Some_0, self.parent(k2[j])->Some_0) by {
            if j < kd.len() {
                assert(k2[i] == k[i] && k2[j] == k[j]);
            } else if i < kd.len() {
                assert(k2[i] == kd[i]);
                assert(k2[j] == br[j - kd.len()]);
            } else {
                assert(k2[i] == br[i - kd.len()]);
                assert(k2[j] == br[j - kd.len()]);
            }
        }
        assert forall|i: int, j: int|
            #![trigger k2[i], k2[j]]
            0 <= i < j < k2.len() && self.parent(k2[j]) is None implies self.parent(k2[i]) is None by {
            if j < kd.len() {
                assert(k2[i] == k[i] && k2[j] == k[j]);
            } else {
                assert(k2[j] == br[j - kd.len()]);
            }
        }
    }

    proof fn lemma_dfs_done(&self, s: Seq<ObjectId>)
        requires
            self.dfs_inv(s, Seq::empty()),
            self.dfs_chain(s, Seq::empty()),
        ensures
            self.is_sorted_listing(s),
    {
        assert forall|i: int, k: int|
            0 <= i < s.len() && 0 <= k < self.children(s[i]).len() implies s.contains(
            #[trigger] self.children(#[trigger] s[i])[k],
        ) by {
            assert(self.children(s[i]).contains(self.children(s[i])[k]));
        }
    }

    /// The handles of the current sorted listing.
    pub closed spec fn sorted_ids(&self) -> Seq<ObjectId> {
        self.sorted@
    }

    /// Recomputes the sorted listing: the roots in sibling order, each
    /// followed depth-first by its subtree, children in sibling order.
    pub fn sort(&mut self)
        requires
            old(self).wf(),
        ensures
            final(self).wf(),
            !final(self).is_dirty(),
            final(self).is_sorted_listing(final(self).sorted_ids()),
            final(self).has_room() == old(self).has_room(),
            forall|x: ObjectId| #[trigger] final(self).contains(x) == old(self).contains(x),
            forall|x: ObjectId| #[trigger] old(self).contains(x) ==> final(self).same_object(old(self), x),
    {
        let roots = self.collect_roots();
        proof {
            assert forall|i: int| 0 <= i < roots@.len() implies self.contains(#[trigger] roots@[i]) by {
                assert(self.is_root(roots@[i]));
            }
        }
        let ordered = self.order_siblings(&roots);
        proof {
            assert forall|i: int| 0 <= i < ordered@.len() implies self.is_root(#[trigger] ordered@[i]) by {
                assert(ordered@.to_set().contains(ordered@[i]));
                assert(roots@.to_set().contains(ordered@[i]));
                let j = roots@.index_of(ordered@[i]);
                assert(self.is_root(roots@[j]));
            }
            assert forall|x: ObjectId| #[trigger] self.is_root(x) implies ordered@.to_set().contains(x) by {
                assert(roots@.contains(x));
                assert(roots@.to_set().contains(x));
            }
            self.lemma_dfs_start(ordered@);
            assert forall|i: int| 0 <= i < ordered@.reverse().len() implies self.parent(
                #[trigger] ordered@.reverse()[i],
            ) is None by {
                assert(self.is_root(ordered@[ordered@.len() - 1 - i]));
            }
            self.lemma_chain_start(ordered@.reverse());
        }
        let mut stack: Vec<ObjectId> = Vec::new();
        let mut j = ordered.len();
        while j > 0
            invariant
                0 <= j <= ordered@.len(),
                stack@ == ordered@.subrange(j as int, ordered@.len() as int).reverse(),
            decreases j,
        {
            j = j - 1;
            stack.push(ordered[j]);
            proof {
                assert(stack@ =~= ordered@.subrange(j as int, ordered@.len() as int).reverse());
            }
        }
        proof {
            assert(ordered@.subrange(0, ordered@.len() as int) =~= ordered@);
        }
        let mut out: Vec<ObjectId> = Vec::new();
        while stack.len() > 0
            invariant
                self.wf(),
                self.dfs_inv(out@, stack@),
                self.dfs_chain(out@, stack@),
                out@.len() <= self.nodes@.len(),
            decreases self.nodes@.len() - out@.len(),
        {
            let ghost s0 = out@;
            let ghost k0 = stack@;
            let t = stack.pop().unwrap();
            proof {
                assert(t == k0.last());
                assert(self.contains(k0[k0.len() - 1]));
                assert(self.children_ok(t));
            }
            let children = &self.nodes[t.slot as usize].as_ref().unwrap().children;
            proof {
                assert(children@ == self.children(t));
                assert forall|i: int| 0 <= i < children@.len() implies self.contains(#[trigger] children@[i]) by {
                    assert(self.children(t).contains(children@[i]));
                }
                assert(children@.no_duplicates()) by {
                    assert forall|a: int, b: int| 0 <= a < children@.len() && 0 <= b < children@.len() && a != b implies children@[a] != children@[b] by {
                        if a < b {
                            assert(children@[a].slot() < children@[b].slot());
                        } else {
                            assert(children@[b].slot() < children@[a].slot());
                        }
                    }
                }
            }
            let buf = self.order_siblings(children);
            out.push(t);
            let mut j = buf.len();
            let ghost kd = stack@;
            while j > 0
                invariant
                    0 <= j <= buf@.len(),
                    stack@ == kd + buf@.subrange(j as int, buf@.len() as int).reverse(),
                decreases j,
            {
                j = j - 1;
                stack.push(buf[j]);
                proof {
                    assert(stack@ =~= kd + buf@.subrange(j as int, buf@.len() as int).reverse());
                }
            }
            proof {
                assert(buf@.subrange(0, buf@.len() as int) =~= buf@);
                assert(kd == k0.drop_last());
                self.lemma_dfs_step(s0, k0, buf@);
                assert forall|i: int| 0 <= i < buf@.len() implies self.parent(#[trigger] buf@[i]) == Some(
                    k0.last(),
                ) by {
                    assert(buf@.to_set().contains(buf@[i]));
                    assert(children@.to_set().contains(buf@[i]));
                    assert(self.children(t).contains(buf@[i]));
                }
                self.lemma_chain_step(s0, k0, buf@);
                assert(out@ == s0.push(k0.last()));
                self.lemma_listing_bound(out@);
            }
        }
        proof {
            assert(stack@ =~= Seq::<ObjectId>::empty());
            self.lemma_dfs_done(out@);
        }
        let ghost g1 = *self;
        self.sorted = out;
        self.dirty = false;
        proof {
            g1.lemma_listing_frame(self, self.sorted@);
            assert forall|p: ObjectId| #[trigger] self.contains(p) implies self.children_ok(p) by {
                assert(g1.contains(p));
                assert(g1.children_ok(p));
                assert forall|c: ObjectId| #[trigger] self.children(p).contains(c) implies self.contains(c)
                    && self.parent(c) == Some(p) by {
                    assert(g1.children(p).contains(c));
                }
            }
        }
    }

    /// The sorted-listing property depends only on membership, layers,
    /// parents and children.
    proof fn lemma_listing_frame_objects(&self, other: &Self, s: Seq<ObjectId>)
        requires
            self.is_sorted_listing(s),
            forall|x: ObjectId| #[trigger] other.contains(x) == self.contains(x),
            forall|x: ObjectId| #[trigger]
                self.contains(x) ==> other.children(x) == self.children(x) && other.parent(x)
                    == self.parent(x) && other.layer(x) == self.layer(x),
        ensures
            other.is_sorted_listing(s),
    {
        self.lemma_listing_parents(s);
        self.lemma_preorder_frame(other, s);
        assert forall|x: ObjectId| #[trigger] other.is_root(x) == self.is_root(x) by {}
        assert forall|i: int, j: int|
            #![trigger s[i], s[j]]
            0 <= i < s.len() && 0 <= j < s.len() && other.parent(s[i]) == other.parent(s[j])
                && sibling_order(other, s[i], s[j]) implies i < j by {
            assert(self.contains(s[i]) && self.contains(s[j]));
        }
        assert forall|i: int| #![trigger s[i]]
            0 <= i < s.len() && other.parent(s[i]) is Some implies {
                let p = other.parent(s[i])->Some_0;
                exists|j: int| 0 <= j < i && s[j] == p && other.children(p).contains(s[i])
            } by {
            assert(self.contains(s[i]));
            let p = self.parent(s[i])->Some_0;
            let j = choose|j: int| 0 <= j < i && s[j] == p && self.children(p).contains(s[i]);
            assert(self.contains(s[j]));
        }
        assert forall|i: int, k: int|
            0 <= i < s.len() && 0 <= k < other.children(s[i]).len() implies s.contains(
            #[trigger] other.children(#[trigger] s[i])[k],
        ) by {
            assert(self.contains(s[i]));
        }
    }

    /// The sorted-listing property depends only on the objects.
    proof fn lemma_listing_frame(&self, other: &Self, s: Seq<ObjectId>)
        requires
            self.is_sorted_listing(s),
            self.nodes@ == other.nodes@,
            self.generations@ == other.generations@,
        ensures
            other.is_sorted_listing(s),
    {
        assert forall|x: ObjectId| #[trigger] other.contains(x) == self.contains(x) && other.children(x)
            == self.children(x) && other.parent(x) == self.parent(x) && other.layer(x) == self.layer(x) by {}
        self.lemma_listing_parents(s);
        self.lemma_preorder_frame(other, s);
        assert forall|x: ObjectId| #[trigger] other.is_root(x) == self.is_root(x) by {}
        assert forall|a: ObjectId, b: ObjectId| #[trigger] sibling_order(other, a, b) == sibling_order(self, a, b) by {
            assert(other.layer(a) == self.layer(a));
            assert(other.layer(b) == self.layer(b));
        }
        assert forall|i: int| #![trigger s[i]]
            0 <= i < s.len() && other.parent(s[i]) is Some implies {
                let p = other.parent(s[i])->Some_0;
                exists|j: int| 0 <= j < i && s[j] == p && other.children(p).contains(s[i])
            } by {
            let p = self.parent(s[i])->Some_0;
            assert(self.parent(s[i]) is Some);
            let j = choose|j: int| 0 <= j < i && s[j] == p && self.children(p).contains(s[i]);
            assert(other.children(p) == self.children(p));
        }
        assert forall|i: int, j: int|
            #![trigger s[i], s[j]]
            0 <= i < s.len() && 0 <= j < s.len() && other.parent(s[i]) == other.parent(s[j])
                && sibling_order(other, s[i], s[j]) implies i < j by {
            assert(other.parent(s[i]) == self.parent(s[i]));
            assert(other.parent(s[j]) == self.parent(s[j]));
            assert(sibling_order(other, s[i], s[j]) == sibling_order(self, s[i], s[j]));
        }
        assert forall|i: int, k: int|
            0 <= i < s.len() && 0 <= k < other.children(s[i]).len() implies s.contains(
            #[trigger] other.children(#[trigger] s[i])[k],
        ) by {
            assert(other.children(s[i]) == self.children(s[i]));
        }
    }

    /// The values of the objects in sorted-listing order, sorting first
    /// when the listing is out of date.
    pub fn sorted(&mut self) -> (r: Vec<&T>)
        requires
            old(self).wf(),
        ensures
            final(self).wf(),
            !final(self).is_dirty(),
            final(self).is_sorted_listing(final(self).sorted_ids()),
            forall|x: ObjectId| #[trigger] final(self).contains(x) == old(self).contains(x),
            forall|x: ObjectId| #[trigger] old(self).contains(x) ==> final(self).same_object(old(self), x),
            final(self).has_room() == old(self).has_room(),
            !old(self).is_dirty() ==> final(self).sorted_ids() == old(self).sorted_ids(),
            r@.len() == final(self).sorted_ids().len(),
            forall|i: int| 0 <= i < r@.len() ==> *r@[i] == final(self).value(
                #[trigger] final(self).sorted_ids()[i],
            ),
    {
        if self.dirty {
            self.sort();
        }
        let mut r: Vec<&T> = Vec::new();
        let mut i: usize = 0;
        while i < self.sorted.len()
            invariant
                self.wf(),
                !self.dirty,
                0 <= i <= self.sorted@.len(),
                r@.len() == i,
                forall|k: int| 0 <= k < i ==> *r@[k] == self.value(#[trigger] self.sorted@[k]),
            decreases self.sorted@.len() - i,
        {
            let id = self.sorted[i];
            proof {
                assert(self.contains(self.sorted@[i as int]));
            }
            r.push(self.get(id));
            i = i + 1;
        }
        r
    }

    /// Live handles with the same slot are the same handle.
    proof fn lemma_same_slot(&self, a: ObjectId, b: ObjectId)
        requires
            self.contains(a),
            self.contains(b),
            a.slot() == b.slot(),
        ensures
            a == b,
    {
    }

    #[verifier::rlimit(40)]
    /// Makes `parent` the parent of `id`: `id` goes into `parent`'s children
    /// list unless it is there already, and leaves the list of its former
    /// parent when that is another object.
    pub fn set_parent(&mut self, id: ObjectId, parent: ObjectId)
        requires
            old(self).wf(),
            old(self).contains(id),
            old(self).contains(parent),
            old(self).consistent(id),
        ensures
            final(self).wf(),
            final(self).is_dirty(),
            final(self).has_room() == old(self).has_room(),
            forall|x: ObjectId| #[trigger] final(self).contains(x) == old(self).contains(x),
            final(self).parent(id) == Some(parent),
            final(self).children(parent).to_set() == old(self).children(parent).to_set().insert(id),
            forall|q: ObjectId|
                old(self).parent(id) == Some(q) && q != parent ==> #[trigger] final(self).children(
                    q,
                ).to_set() == old(self).children(q).to_set().remove(id),
            forall|x: ObjectId| #[trigger]
                old(self).contains(x) ==> {
                    &&& final(self).value(x) == old(self).value(x)
                    &&& final(self).layer(x) == old(self).layer(x)
                    &&& (x != id ==> final(self).parent(x) == old(self).parent(x))
                    &&& (x != parent && old(self).parent(id) != Some(x) ==> final(self).children(x)
                        == old(self).children(x))
                },
    {
        let ghost g0 = *old(self);
        // Enter `id` into the children list of `parent`.
        let mut pn = self.take_node(parent);
        proof {
            assert(g0.children_ok(parent));
            assert forall|k: int| 0 <= k < pn.children@.len() && (#[trigger] pn.children@[k]).slot()
                == id.slot() implies pn.children@[k] == id by {
                assert(g0.children(parent).contains(pn.children@[k]));
                g0.lemma_same_slot(pn.children@[k], id);
            }
        }
        insert_by_slot(&mut pn.children, id);
        let ghost list1 = pn.children@;
        self.nodes.set(parent.slot as usize, Some(pn));
        // Record `parent` as the parent of `id`.
        let mut n = self.take_node(id);
        let old_parent = n.parent;
        n.parent = Some(parent);
        self.nodes.set(id.slot as usize, Some(n));
        // Leave the children list of the former parent.
        match old_parent {
            Some(q) => {
                if q.slot != parent.slot || q.generation != parent.generation {
                    proof {
                        assert(q != parent);
                        assert(g0.contains(q));
                        assert(g0.children_ok(q));
                    }
                    let mut qn = self.take_node(q);
                    proof {
                        assert(qn.children@ == g0.children(q));
                    }
                    remove_by_slot(&mut qn.children, id);
                    self.nodes.set(q.slot as usize, Some(qn));
                }
            },
            None => {},
        }
        self.dirty = true;
        proof {
            assert forall|x: ObjectId| #[trigger] self.contains(x) implies self.children_ok(x) by {
                assert(g0.contains(x));
                assert(g0.children_ok(x));
                assert forall|c: ObjectId| #[trigger] self.children(x).contains(c) implies self.contains(c)
                    && self.parent(c) == Some(x) by {
                    assert(self.children(x).to_set().contains(c));
                    if x == parent {
                        if c != id {
                            assert(g0.children(x).to_set().contains(c));
                        }
                    } else if old_parent == Some(x) {
                        assert(g0.children(x).to_set().contains(c));
                    } else {
                        if c == id {
                            assert(g0.parent(id) == Some(x));
                        }
                    }
                }
            }
        }
    }

    /// An empty graph.
    pub fn new() -> (r: Self)
        ensures
            r.wf(),
            forall|id: ObjectId| !r.contains(id),
    {
        SceneGraph {
            nodes: Vec::new(),
            generations: Vec::new(),
            free: Vec::new(),
            sorted: Vec::new(),
            dirty: true,
        }
    }

    /// Adds `value` as a new object on layer 0, without parent or children.
    pub fn insert(&mut self, value: T) -> (r: ObjectId)
        requires
            old(self).wf(),
            old(self).has_room(),
        ensures
            final(self).wf(),
            final(self).is_dirty(),
            !old(self).contains(r),
            final(self).contains(r),
            final(self).value(r) == value,
            final(self).layer(r) == 0,
            final(self).parent(r) is None,
            final(self).children(r) == Seq::<ObjectId>::empty(),
            forall|id: ObjectId| id != r ==> #[trigger] final(self).contains(id) == old(self).contains(id),
            forall|id: ObjectId| #[trigger] old(self).contains(id) ==> {
                &&& final(self).value(id) == old(self).value(id)
                &&& final(self).layer(id) == old(self).layer(id)
                &&& final(self).parent(id) == old(self).parent(id)
                &&& final(self).children(id) == old(self).children(id)
            },
    {
        let node = Node { value, layer: 0, parent: None, children: Vec::new() };
        let r;
        if self.free.len() > 0 {
            let slot = self.free.pop().unwrap();
            proof {
                assert(self.free@ == old(self).free@.drop_last());
                assert(old(self).free@.contains(slot));
            }
            let g = self.generations[slot as usize];
            let next = if g < u32::MAX { g + 1 } else { 1 };
            self.generations.set(slot as usize, next);
            self.nodes.set(slot as usize, Some(node));
            r = ObjectId { slot, generation: next };
            proof {
                assert forall|i: int| 0 <= i < self.free@.len() implies (
                #[trigger] self.free@[i] as int) < self.nodes@.len() && self.nodes@[self.free@[i] as int] is None by {
                    assert(old(self).free@[i] == self.free@[i]);
                    assert(old(self).free@[old(self).free@.len() - 1] == slot);
                }
            }
        } else {
            let slot = self.nodes.len() as u32;
            self.nodes.push(Some(node));
            self.generations.push(1);
            r = ObjectId { slot, generation: 1 };
        }
        self.dirty = true;
        proof {
            assert forall|p: ObjectId| #[trigger] self.contains(p) implies self.children_ok(p) by {
                if p != r {
                    assert(old(self).contains(p));
                    assert(old(self).children_ok(p));
                    assert forall|c: ObjectId| #[trigger] self.children(p).contains(c) implies self.contains(c)
                        && self.parent(c) == Some(p) by {
                        assert(old(self).contains(c));
                    }
                }
            }
        }
        r
    }
}

} // verus!
