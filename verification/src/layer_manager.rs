//! The draw layers of entities: which entities are on which layer, kept up
//! to date from the changes made to their layer components.
use std::collections::BTreeMap;
use std::collections::HashMap;
use vstd::prelude::*;

verus! {

/// The draw layer of an entity; lower layers are drawn first.
#[derive(Debug, Copy, Clone)]
pub struct LayerIndex {
    pub layer: i32,
}

/// A change to the layer component of an entity (named by its bits), with
/// the layer that the component holds when the change is handled, or
/// `None` where it could not be read.
#[derive(Debug, Copy, Clone, PartialEq, Eq, Structural)]
pub enum LayerEvent {
    Inserted(u64, Option<i32>),
    Modified(u64, Option<i32>),
    Removed(u64, Option<i32>),
}

/// `list` with the first occurrence of `e` swapped out for its last entry,
/// where `e` occurs.
pub open spec fn swap_out(list: Seq<u64>, e: u64) -> Seq<u64> {
    match list.index_of_first(e) {
        Some(i) => list.update(i, list.last()).drop_last(),
        None => list,
    }
}

/// The list of `layer` in `layers`, empty where there is none.
pub open spec fn list_or_empty(layers: Map<i32, Seq<u64>>, layer: i32) -> Seq<u64> {
    if layers.contains_key(layer) {
        layers[layer]
    } else {
        Seq::empty()
    }
}

/// The layers and the current layers of the entities after one event.
pub open spec fn after_event(
    layers: Map<i32, Seq<u64>>,
    current: Map<u64, i32>,
    event: LayerEvent,
) -> (Map<i32, Seq<u64>>, Map<u64, i32>) {
    match event {
        LayerEvent::Inserted(e, Some(l)) => (
            layers.insert(l, list_or_empty(layers, l).push(e)),
            current.insert(e, l),
        ),
        LayerEvent::Modified(e, Some(l)) => {
            let moved = if current.contains_key(e) && current[e] != l {
                layers.insert(current[e], swap_out(layers[current[e]], e))
            } else {
                layers
            };
            (moved.insert(l, list_or_empty(moved, l).push(e)), current.insert(e, l))
        },
        LayerEvent::Removed(e, Some(l)) => (
            layers.insert(l, swap_out(layers[l], e)),
            current.remove(e),
        ),
        _ => (layers, current),
    }
}

/// The event can be handled: a removal names a layer that has a list.
pub open spec fn event_ok(layers: Map<i32, Seq<u64>>, event: LayerEvent) -> bool {
    match event {
        LayerEvent::Removed(_, Some(l)) => layers.contains_key(l),
        _ => true,
    }
}

/// The layers and current layers after the events, one after the other.
pub open spec fn after_events(
    layers: Map<i32, Seq<u64>>,
    current: Map<u64, i32>,
    events: Seq<LayerEvent>,
) -> (Map<i32, Seq<u64>>, Map<u64, i32>)
    decreases events.len(),
{
    if events.len() == 0 {
        (layers, current)
    } else {
        let (l1, c1) = after_events(layers, current, events.drop_last());
        after_event(l1, c1, events.last())
    }
}

/// Every event can be handled when its turn comes.
pub open spec fn events_ok(layers: Map<i32, Seq<u64>>, current: Map<u64, i32>, events: Seq<LayerEvent>) -> bool
    decreases events.len(),
{
    if events.len() == 0 {
        true
    } else {
        events_ok(layers, current, events.drop_last()) && event_ok(
            after_events(layers, current, events.drop_last()).0,
            events.last(),
        )
    }
}

/// The entities of each layer, and the layer each entity is on.
pub struct LayerManager {
    layers: BTreeMap<i32, Vec<u64>>,
    current_layers: HashMap<u64, i32>,
}

impl LayerManager {
    /// The entities of each layer, in the order the lists hold them.
    pub closed spec fn layers(&self) -> Map<i32, Seq<u64>> {
        self.layers@.map_values(|v: Vec<u64>| v@)
    }

    /// The layer each entity is on.
    pub closed spec fn current(&self) -> Map<u64, i32> {
        self.current_layers@
    }

    /// Every entity's layer has a list.
    pub closed spec fn wf(&self) -> bool {
        forall|e: u64| #[trigger] self.current().contains_key(e) ==> self.layers().contains_key(self.current()[e])
    }

    /// Puts `list` as the list of `layer`.
    fn put_list(&mut self, layer: i32, list: Vec<u64>)
        ensures
            final(self).layers() == old(self).layers().insert(layer, list@),
            final(self).current() == old(self).current(),
    {
        broadcast use vstd::laws_cmp::group_laws_cmp;

        self.layers.insert(layer, list);
        proof {
            assert(self.layers() =~= old(self).layers().insert(layer, list@));
        }
    }

    /// Takes the list of `layer` out, empty where there is none.
    fn take_list(&mut self, layer: i32) -> (list: Vec<u64>)
        ensures
            list@ == list_or_empty(old(self).layers(), layer),
            final(self).layers() == old(self).layers().remove(layer),
            final(self).current() == old(self).current(),
    {
        broadcast use vstd::laws_cmp::group_laws_cmp;
        broadcast use vstd::std_specs::btree::axiom_deref_key_removed;
        broadcast use vstd::std_specs::btree::axiom_maps_deref_key_to_value;
        broadcast use vstd::std_specs::btree::axiom_contains_deref_key;

        let list = match self.layers.remove(&layer) {
            Some(l) => l,
            None => Vec::new(),
        };
        proof {
            assert(self.layers() =~= old(self).layers().remove(layer));
        }
        list
    }

    /// A manager of the entities already on layers, in the order given.
    pub fn new(initial: &Vec<(u64, i32)>) -> (r: Self)
        ensures
            r.wf(),
            (r.layers(), r.current()) == after_events(
                Map::empty(),
                Map::empty(),
                initial@.map_values(|p: (u64, i32)| LayerEvent::Inserted(p.0, Some(p.1))),
            ),
    {
        let mut r = LayerManager { layers: BTreeMap::new(), current_layers: HashMap::new() };
        proof {
            assert(r.layers() =~= Map::<i32, Seq<u64>>::empty());
        }
        let ghost events = initial@.map_values(|p: (u64, i32)| LayerEvent::Inserted(p.0, Some(p.1)));
        let mut i: usize = 0;
        while i < initial.len()
            invariant
                0 <= i <= initial@.len(),
                events == initial@.map_values(|p: (u64, i32)| LayerEvent::Inserted(p.0, Some(p.1))),
                r.wf(),
                (r.layers(), r.current()) == after_events(Map::empty(), Map::empty(), events.take(i as int)),
            decreases initial@.len() - i,
        {
            let (e, l) = initial[i];
            r.apply(LayerEvent::Inserted(e, Some(l)));
            proof {
                assert(events.take(i + 1).drop_last() =~= events.take(i as int));
                assert(events.take(i + 1).last() == events[i as int]);
            }
            i = i + 1;
        }
        proof {
            assert(events.take(initial@.len() as int) =~= events);
        }
        r
    }

    /// Handles one event.
    fn apply(&mut self, event: LayerEvent)
        requires
            old(self).wf(),
            event_ok(old(self).layers(), event),
        ensures
            final(self).wf(),
            (final(self).layers(), final(self).current()) == after_event(
                old(self).layers(),
                old(self).current(),
                event,
            ),
    {
        broadcast use vstd::std_specs::hash::group_hash_axioms;

        match event {
            LayerEvent::Inserted(e, Some(l)) => {
                let mut list = self.take_list(l);
                list.push(e);
                self.put_list(l, list);
                self.current_layers.insert(e, l);
            },
            LayerEvent::Modified(e, Some(l)) => {
                match self.current_layers.get(&e) {
                    Some(old_ref) => {
                        let old_layer = *old_ref;
                        if old_layer != l {
                            let mut list = self.take_list(old_layer);
                            remove_first(&mut list, e);
                            self.put_list(old_layer, list);
                        }
                    },
                    None => {},
                }
                let mut list = self.take_list(l);
                list.push(e);
                self.put_list(l, list);
                self.current_layers.insert(e, l);
            },
            LayerEvent::Removed(e, Some(l)) => {
                let mut list = self.take_list(l);
                remove_first(&mut list, e);
                self.put_list(l, list);
                self.current_layers.remove(&e);
            },
            _ => {},
        }
        proof {
            assert forall|x: u64| #[trigger] self.current().contains_key(x) implies self.layers().contains_key(
                self.current()[x],
            ) by {
                assert(old(self).current().contains_key(x) ==> old(self).layers().contains_key(old(self).current()[x]));
            }
        }
    }

    /// Handles the events, one after the other: an inserted entity joins
    /// the list of its layer; a modified one leaves the list of its former
    /// layer when the layer changed and joins that of its layer (again,
    /// when it did not change); a removed one leaves the list of the layer
    /// its component holds. An event whose layer could not be read is
    /// passed over. Each removal must name a layer that has a list.
    pub fn update(&mut self, events: &Vec<LayerEvent>)
        requires
            old(self).wf(),
            events_ok(old(self).layers(), old(self).current(), events@),
        ensures
            final(self).wf(),
            (final(self).layers(), final(self).current()) == after_events(
                old(self).layers(),
                old(self).current(),
                events@,
            ),
    {
        let ghost l0 = self.layers();
        let ghost c0 = self.current();
        let mut i: usize = 0;
        while i < events.len()
            invariant
                0 <= i <= events@.len(),
                l0 == old(self).layers(),
                c0 == old(self).current(),
                events_ok(l0, c0, events@),
                self.wf(),
                (self.layers(), self.current()) == after_events(l0, c0, events@.take(i as int)),
            decreases events@.len() - i,
        {
            proof {
                lemma_events_ok_prefix(l0, c0, events@, i + 1);
                assert(events@.take(i + 1).drop_last() =~= events@.take(i as int));
                assert(events@.take(i + 1).last() == events@[i as int]);
            }
            self.apply(events[i]);
            i = i + 1;
        }
        proof {
            assert(events@.take(events@.len() as int) =~= events@);
        }
    }

    /// The entities on `layer`, if it has a list.
    pub fn entities_on(&self, layer: i32) -> (r: Option<&Vec<u64>>)
        ensures
            match r {
                Some(v) => self.layers().contains_key(layer) && v@ == self.layers()[layer],
                None => !self.layers().contains_key(layer),
            },
    {
        broadcast use vstd::laws_cmp::group_laws_cmp;
        broadcast use vstd::std_specs::btree::axiom_maps_deref_key_to_value;
        broadcast use vstd::std_specs::btree::axiom_contains_deref_key;

        self.layers.get(&layer)
    }

    /// The layer `entity` is on, if any.
    pub fn current_layer(&self, entity: u64) -> (r: Option<i32>)
        ensures
            match r {
                Some(l) => self.current().contains_key(entity) && l == self.current()[entity],
                None => !self.current().contains_key(entity),
            },
    {
        broadcast use vstd::std_specs::hash::group_hash_axioms;

        match self.current_layers.get(&entity) {
            Some(l) => Some(*l),
            None => None,
        }
    }
}

proof fn lemma_events_ok_prefix(
    layers: Map<i32, Seq<u64>>,
    current: Map<u64, i32>,
    events: Seq<LayerEvent>,
    i: int,
)
    requires
        events_ok(layers, current, events),
        0 <= i <= events.len(),
    ensures
        events_ok(layers, current, events.take(i)),
    decreases events.len(),
{
    if i == events.len() {
        assert(events.take(i) =~= events);
    } else {
        lemma_events_ok_prefix(layers, current, events.drop_last(), i);
        assert(events.drop_last().take(i) =~= events.take(i));
    }
}

/// Takes the first occurrence of `e` out of `list`, the last entry taking
/// its place, where `e` occurs.
fn remove_first(list: &mut Vec<u64>, e: u64)
    ensures
        final(list)@ == swap_out(old(list)@, e),
{
    let mut i: usize = 0;
    while i < list.len()
        invariant
            0 <= i <= list@.len(),
            list@ == old(list)@,
            forall|k: int| 0 <= k < i ==> list@[k] != e,
        decreases list@.len() - i,
    {
        if list[i] == e {
            proof {
                list@.index_of_first_ensures(e);
                assert(list@.contains(e));
                let j = list@.index_of_first(e)->Some_0;
                if j < i {
                    assert(list@[j] != e);
                }
                if j > i {
                    assert(list@[i as int] != e);
                }
            }
            list.swap_remove(i);
            return;
        }
        i = i + 1;
    }
    proof {
        list@.index_of_first_ensures(e);
    }
}

} // verus!
