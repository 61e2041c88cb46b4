//! Named values with dependencies between them, listed so that every value
//! comes after the values it depends on.
use petgraph::graph::NodeIndex;
use petgraph::stable_graph::StableGraph;
use vstd::prelude::*;

verus! {

/// `order` lists each live node once and puts the source of every edge
/// before its target.
pub open spec fn is_topological_order(
    live: Seq<bool>,
    edges: Seq<(usize, usize)>,
    order: Seq<usize>,
) -> bool {
    &&& order.no_duplicates()
    &&& forall|i: int| 0 <= i < order.len() ==> (#[trigger] order[i] as int) < live.len() && live[order[i] as int]
    &&& forall|n: int| 0 <= n < live.len() && live[n] ==> #[trigger] order.contains(n as usize)
    &&& forall|e: int|
        0 <= e < edges.len() ==> exists|i: int, j: int|
            0 <= i < j < order.len() && #[trigger] order[i] == (#[trigger] edges[e]).0 && #[trigger] order[j]
                == edges[e].1
}

/// Which of `node_count` node indices are in use, given the vacant ones.
pub open spec fn live_of(node_count: nat, vacant: Seq<usize>) -> Seq<bool> {
    Seq::new(node_count, |i: int| !vacant.contains(i as usize))
}

/// What `petgraph::algo::toposort` returns for the stable graph with
/// `node_count` node indices, of which those in `vacant` are removed, and
/// with `edges` added in order: node indices as `usize`, and the node of the
/// `Cycle` error.
pub uninterp spec fn petgraph_toposort(
    node_count: usize,
    vacant: Seq<usize>,
    edges: Seq<(usize, usize)>,
) -> Result<Seq<usize>, usize>;

/// `petgraph::algo::toposort` on a `StableGraph` built from plain values: as
/// its documentation states, a topological order of the nodes, or, when the
/// graph has a cycle, the index of a node on it. What order it picks among
/// the valid ones (a depth-first order from petgraph's source) is not
/// stated; it is named.
#[verifier::external_body]
fn toposort(node_count: usize, vacant: &Vec<usize>, edges: &Vec<(usize, usize)>) -> (r: Result<
    Vec<usize>,
    usize,
>)
    requires
        node_count < u32::MAX,
        edges@.len() < u32::MAX,
        vacant@.no_duplicates(),
        forall|i: int| 0 <= i < vacant@.len() ==> #[trigger] vacant@[i] < node_count,
        forall|e: int|
            0 <= e < edges@.len() ==> (#[trigger] edges@[e]).0 < node_count && edges@[e].1 < node_count
                && !vacant@.contains(edges@[e].0) && !vacant@.contains(edges@[e].1),
    ensures
        match r {
            Ok(order) => petgraph_toposort(node_count, vacant@, edges@) == Ok::<Seq<usize>, usize>(order@)
                && is_topological_order(live_of(node_count as nat, vacant@), edges@, order@),
            Err(c) => petgraph_toposort(node_count, vacant@, edges@) == Err::<Seq<usize>, usize>(c) && c
                < node_count && !vacant@.contains(c) && forall|o: Seq<usize>|
                !is_topological_order(live_of(node_count as nat, vacant@), edges@, o),
        },
{
    let mut g: StableGraph<(), ()> = StableGraph::with_capacity(node_count, edges.len());
    for _ in 0..node_count {
        g.add_node(());
    }
    for &i in vacant.iter() {
        g.remove_node(NodeIndex::new(i));
    }
    for &(a, b) in edges.iter() {
        g.add_edge(NodeIndex::new(a), NodeIndex::new(b), ());
    }
    match petgraph::algo::toposort(&g, None) {
        Ok(order) => Ok(order.iter().map(|n| n.index()).collect()),
        Err(cycle) => Err(cycle.node_id().index()),
    }
}



/// `edges` without those that start or end at node `n`.
pub open spec fn drop_incident(edges: Seq<(usize, usize)>, n: usize) -> Seq<(usize, usize)>
    decreases edges.len(),
{
    if edges.len() == 0 {
        edges
    } else {
        let rest = drop_incident(edges.drop_last(), n);
        let e = edges.last();
        if e.0 == n || e.1 == n {
            rest
        } else {
            rest.push(e)
        }
    }
}


/// The position of the first name in `deps` that `names` lacks.
pub open spec fn first_missing(deps: Seq<&str>, names: Map<Seq<char>, usize>) -> int {
    choose|j: int|
        0 <= j < deps.len() && !names.contains_key(#[trigger] deps[j]@) && forall|i: int|
            0 <= i < j ==> names.contains_key(#[trigger] deps[i]@)
}

/// The edges from each named dependency to node `k`.
pub open spec fn dep_edges(deps: Seq<&str>, names: Map<Seq<char>, usize>, k: usize) -> Seq<(usize, usize)> {
    Seq::new(deps.len(), |i: int| (names[deps[i]@], k))
}

/// Every edge of `drop_incident(edges, n)` is an edge of `edges` that avoids
/// `n`, and vice versa.
proof fn lemma_drop_incident(edges: Seq<(usize, usize)>, n: usize)
    ensures
        forall|e: (usize, usize)| #[trigger] drop_incident(edges, n).contains(e) <==> (edges.contains(e) && e.0 != n && e.1 != n),
    decreases edges.len(),
{
    if edges.len() > 0 {
        lemma_drop_incident(edges.drop_last(), n);
        let rest = drop_incident(edges.drop_last(), n);
        assert forall|e: (usize, usize)| #[trigger] drop_incident(edges, n).contains(e) <==> (edges.contains(e) && e.0 != n && e.1 != n) by {
            if edges.contains(e) {
                let i = edges.index_of(e);
                if i < edges.len() - 1 {
                    assert(edges.drop_last()[i] == e);
                }
            }
            if edges.drop_last().contains(e) {
                let i = edges.drop_last().index_of(e);
                assert(edges[i] == e);
            }
            let l = edges.last();
            if !(l.0 == n || l.1 == n) {
                assert(rest.push(l).last() == l);
                if rest.push(l).contains(e) && e != l {
                    let i = rest.push(l).index_of(e);
                    assert(rest[i] == e);
                }
                if rest.contains(e) {
                    let i = rest.index_of(e);
                    assert(rest.push(l)[i] == e);
                }
            }
        }
    }
}



proof fn lemma_drop_incident_len(edges: Seq<(usize, usize)>, n: usize)
    ensures
        drop_incident(edges, n).len() <= edges.len(),
    decreases edges.len(),
{
    if edges.len() > 0 {
        lemma_drop_incident_len(edges.drop_last(), n);
    }
}

/// `edges` without those that start or end at node `n`.
fn drop_incident_vec(edges: &Vec<(usize, usize)>, n: usize) -> (r: Vec<(usize, usize)>)
    ensures
        r@ == drop_incident(edges@, n),
{
    let mut r: Vec<(usize, usize)> = Vec::new();
    let mut i: usize = 0;
    while i < edges.len()
        invariant
            0 <= i <= edges@.len(),
            r@ == drop_incident(edges@.take(i as int), n),
        decreases edges@.len() - i,
    {
        let e = edges[i];
        proof {
            assert(edges@.take(i + 1).drop_last() =~= edges@.take(i as int));
        }
        if e.0 != n && e.1 != n {
            r.push(e);
        }
        i = i + 1;
    }
    proof {
        assert(edges@.take(edges@.len() as int) =~= edges@);
    }
    r
}

/// Why a dependency graph refused an operation.
#[derive(Debug, Clone, PartialEq, Eq)]
pub enum DependencyError {
    /// A dependency named a value that is not in the graph.
    NoSuchDependency(String),
    /// The dependencies form a cycle through the named value.
    Cycle(String),
}

/// Named values and the dependencies between them.
pub struct DependencyGraph<T> {
    slots: Vec<Option<(String, T)>>,
    vacant: Vec<usize>,
    edges: Vec<(usize, usize)>,
    indices: Vec<(String, usize)>,
    sorted: Vec<usize>,
    changed: bool,
}

impl<T> DependencyGraph<T> {
    /// The node table: per node index, its name and value, or `None` when
    /// the index is vacant.
    pub closed spec fn slots(&self) -> Seq<Option<(Seq<char>, T)>> {
        self.slots@.map_values(|s: Option<(String, T)>| match s {
            Some((n, v)) => Some((n@, v)),
            None => None,
        })
    }

    /// The vacant node indices, the one to be reused next last.
    pub closed spec fn vacant(&self) -> Seq<usize> {
        self.vacant@
    }

    /// The dependency edges `(dependency, dependent)`, oldest first.
    pub closed spec fn edges(&self) -> Seq<(usize, usize)> {
        self.edges@
    }

    /// The node each name was last given.
    pub closed spec fn names(&self) -> Map<Seq<char>, usize> {
        Map::new(
            |k: Seq<char>| exists|i: int| 0 <= i < self.indices@.len() && #[trigger] self.indices@[i].0@ == k,
            |k: Seq<char>|
                self.indices@[choose|i: int| 0 <= i < self.indices@.len() && #[trigger] self.indices@[i].0@ == k].1,
        )
    }

    /// The last computed order of the nodes.
    pub closed spec fn sorted_ids(&self) -> Seq<usize> {
        self.sorted@
    }

    /// Whether the graph changed since the order was last computed.
    pub closed spec fn is_changed(&self) -> bool {
        self.changed
    }

    /// Which node indices are in use.
    pub open spec fn live(&self) -> Seq<bool> {
        self.slots().map_values(|s: Option<(Seq<char>, T)>| s is Some)
    }

    /// The internal invariant.
    pub closed spec fn wf(&self) -> bool {
        &&& self.slots@.len() < u32::MAX
        &&& self.edges@.len() < u32::MAX
        &&& self.vacant@.no_duplicates()
        &&& forall|i: int| 0 <= i < self.vacant@.len() ==> (#[trigger] self.vacant@[i] as int) < self.slots@.len()
        &&& forall|n: int| 0 <= n < self.slots@.len() ==> (#[trigger] self.slots@[n] is None <==> self.vacant@.contains(n as usize))
        &&& forall|e: int|
            0 <= e < self.edges@.len() ==> (#[trigger] self.edges@[e]).0 < self.slots@.len()
                && self.edges@[e].1 < self.slots@.len() && self.slots@[self.edges@[e].0 as int] is Some
                && self.slots@[self.edges@[e].1 as int] is Some
        &&& forall|i: int, j: int|
            0 <= i < j < self.indices@.len() ==> (#[trigger] self.indices@[i]).0@ != (#[trigger] self.indices@[j]).0@
        &&& forall|i: int|
            0 <= i < self.indices@.len() ==> (#[trigger] self.indices@[i]).1 < self.slots@.len()
                && self.slots@[self.indices@[i].1 as int] is Some
        &&& forall|i: int, j: int|
            0 <= i < j < self.indices@.len() ==> (#[trigger] self.indices@[i]).1 != (#[trigger] self.indices@[j]).1
        &&& !self.changed ==> forall|i: int|
            0 <= i < self.sorted@.len() ==> (#[trigger] self.sorted@[i] as int) < self.slots@.len()
                && self.slots@[self.sorted@[i] as int] is Some
    }

    /// An empty graph.
    pub fn new() -> (r: Self)
        ensures
            r.wf(),
            r.slots() == Seq::<Option<(Seq<char>, T)>>::empty(),
            r.vacant() == Seq::<usize>::empty(),
            r.edges() == Seq::<(usize, usize)>::empty(),
            r.names() == Map::<Seq<char>, usize>::empty(),
            !r.is_changed(),
            r.sorted_ids() == Seq::<usize>::empty(),
    {
        let r = DependencyGraph {
            slots: Vec::new(),
            vacant: Vec::new(),
            edges: Vec::new(),
            indices: Vec::new(),
            sorted: Vec::new(),
            changed: false,
        };
        proof {
            assert(r.slots() =~= Seq::<Option<(Seq<char>, T)>>::empty());
            assert(r.names() =~= Map::<Seq<char>, usize>::empty());
            assert(r.live() =~= Seq::<bool>::empty());
        }
        r
    }

    /// Whether the graph changed since the order was last computed.
    pub fn is_dirty(&self) -> (r: bool)
        ensures
            r == self.is_changed(),
    {
        self.changed
    }

    /// Position of `name` in the name table.
    fn find_name(&self, name: &String) -> (r: Option<usize>)
        requires
            self.wf(),
        ensures
            match r {
                Some(i) => i < self.indices@.len() && self.indices@[i as int].0@ == name@
                    && self.names().contains_key(name@) && self.names()[name@] == self.indices@[i as int].1,
                None => !self.names().contains_key(name@),
            },
    {
        let mut i: usize = 0;
        while i < self.indices.len()
            invariant
                self.wf(),
                0 <= i <= self.indices@.len(),
                forall|j: int| 0 <= j < i ==> (#[trigger] self.indices@[j]).0@ != name@,
            decreases self.indices@.len() - i,
        {
            if self.indices[i].0 == *name {
                proof {
                    let k = choose|j: int| 0 <= j < self.indices@.len() && #[trigger] self.indices@[j].0@ == name@;
                    if k != i {
                        assert(self.indices@[k].0@ == self.indices@[i as int].0@);
                    }
                }
                return Some(i);
            }
            i = i + 1;
        }
        None
    }
    proof fn lemma_live(&self)
        requires
            self.wf(),
        ensures
            live_of(self.slots@.len(), self.vacant@) == self.live(),
            self.live().len() == self.slots@.len(),
            forall|n: int| 0 <= n < self.slots@.len() ==> #[trigger] self.live()[n] == self.slots@[n] is Some,
    {
        assert(live_of(self.slots@.len(), self.vacant@) =~= self.live());
    }

    /// The name of live node `n`.
    pub open spec fn name_of(&self, n: usize) -> Seq<char> {
        self.slots()[n as int]->Some_0.0
    }

    /// Computes the order of the nodes if the graph changed since it was
    /// last computed: `Ok(true)` when it did so, `Ok(false)` when nothing
    /// changed, and an error naming a node on a cycle when the dependencies
    /// are cyclic.
    pub fn update(&mut self) -> (r: Result<bool, DependencyError>)
        requires
            old(self).wf(),
        ensures
            final(self).wf(),
            final(self).slots() == old(self).slots(),
            final(self).vacant() == old(self).vacant(),
            final(self).edges() == old(self).edges(),
            final(self).names() == old(self).names(),
            !old(self).is_changed() ==> r == Ok::<bool, DependencyError>(false) && !final(self).is_changed()
                && final(self).sorted_ids() == old(self).sorted_ids(),
            old(self).is_changed() ==> match petgraph_toposort(
                old(self).slots().len() as usize,
                old(self).vacant(),
                old(self).edges(),
            ) {
                Ok(order) => r == Ok::<bool, DependencyError>(true) && !final(self).is_changed()
                    && final(self).sorted_ids() == order,
                Err(c) => (r matches Err(DependencyError::Cycle(n)) && n@ == old(self).name_of(c))
                    && final(self).is_changed() && final(self).sorted_ids() == old(self).sorted_ids(),
            },
            r == Ok::<bool, DependencyError>(true) ==> is_topological_order(
                final(self).live(),
                final(self).edges(),
                final(self).sorted_ids(),
            ),
            r is Err ==> forall|o: Seq<usize>| !is_topological_order(old(self).live(), old(self).edges(), o),
    {
        if !self.changed {
            return Ok(false);
        }
        proof {
            self.lemma_live();
            assert forall|e: int| 0 <= e < self.edges@.len() implies !self.vacant@.contains((#[trigger] self.edges@[e]).0)
                && !self.vacant@.contains(self.edges@[e].1) by {
                assert(self.slots@[self.edges@[e].0 as int] is Some);
                assert(self.slots@[self.edges@[e].1 as int] is Some);
            }
        }
        match toposort(self.slots.len(), &self.vacant, &self.edges) {
            Ok(order) => {
                self.sorted = order;
                self.changed = false;
                proof {
                    assert forall|i: int| 0 <= i < self.sorted@.len() implies (#[trigger] self.sorted@[i] as int) < self.slots@.len()
                        && self.slots@[self.sorted@[i] as int] is Some by {
                        assert(self.live()[self.sorted@[i] as int]);
                    }
                }
                Ok(true)
            },
            Err(c) => {
                proof {
                    assert(!self.vacant@.contains(c));
                    assert(self.slots@[c as int] is Some);
                }
                let name = self.slots[c].as_ref().unwrap().0.clone();
                Err(DependencyError::Cycle(name))
            },
        }
    }

    /// The names and values in the computed order.
    pub fn sorted(&self) -> (r: Vec<(&str, &T)>)
        requires
            self.wf(),
            !self.is_changed(),
        ensures
            r@.len() == self.sorted_ids().len(),
            forall|i: int|
                #![trigger r@[i]]
                0 <= i < r@.len() ==> r@[i].0@ == self.name_of(self.sorted_ids()[i]) && *r@[i].1
                    == self.slots()[self.sorted_ids()[i] as int]->Some_0.1,
    {
        let mut r: Vec<(&str, &T)> = Vec::new();
        let mut i: usize = 0;
        proof {
            self.lemma_live();
        }
        while i < self.sorted.len()
            invariant
                self.wf(),
                !self.changed,
                forall|i: int| 0 <= i < self.sorted@.len() ==> (#[trigger] self.sorted@[i] as int) < self.slots@.len()
                    && self.slots@[self.sorted@[i] as int] is Some,
                0 <= i <= self.sorted@.len(),
                r@.len() == i,
                forall|k: int|
                    #![trigger r@[k]]
                    0 <= k < i ==> r@[k].0@ == self.name_of(self.sorted@[k]) && *r@[k].1
                        == self.slots()[self.sorted@[k] as int]->Some_0.1,
            decreases self.sorted@.len() - i,
        {
            let n = self.sorted[i];
            let entry = self.slots[n].as_ref().unwrap();
            r.push((entry.0.as_str(), &entry.1));
            i = i + 1;
        }
        r
    }
    /// The node index the next added node takes: the last vacated one, or a
    /// fresh one.
    pub open spec fn next_index(&self) -> usize {
        if self.vacant().len() > 0 {
            self.vacant().last()
        } else {
            self.slots().len() as usize
        }
    }

    /// The node table after adding `name` and `value` at `next_index()`.
    pub open spec fn slots_with(&self, name: Seq<char>, value: T) -> Seq<Option<(Seq<char>, T)>> {
        if self.vacant().len() > 0 {
            self.slots().update(self.next_index() as int, Some((name, value)))
        } else {
            self.slots().push(Some((name, value)))
        }
    }

    /// Room for one more node and `deps` more edges.
    pub open spec fn has_room(&self, deps: nat) -> bool {
        &&& self.slots().len() + 1 < u32::MAX
        &&& self.edges().len() + deps < u32::MAX
    }

    /// `after` and `r` are what `insert(value, name, deps)` leaves and
    /// hands back on this graph: the new node takes `next_index()` and the
    /// name; a value already under the name is removed with its edges and
    /// handed back; a dependency that names no value stops the insertion
    /// there with an error naming it, keeping what was done before.
    pub open spec fn inserted(
        &self,
        after: &Self,
        value: T,
        name: Seq<char>,
        deps: Seq<&str>,
        r: Result<Option<T>, DependencyError>,
    ) -> bool {
        let k = self.next_index();
        let names1 = self.names().insert(name, k);
        let slots1 = self.slots_with(name, value);
        let vacant1 = if self.vacant().len() > 0 {
            self.vacant().drop_last()
        } else {
            self.vacant()
        };
        let edges1 = self.edges() + dep_edges(deps, names1, k);
        match r {
            Ok(prev) => {
                &&& forall|j: int| 0 <= j < deps.len() ==> names1.contains_key(#[trigger] deps[j]@)
                &&& after.names() == names1
                &&& after.is_changed()
                &&& if self.names().contains_key(name) {
                    let o = self.names()[name];
                    &&& prev == Some(self.slots()[o as int]->Some_0.1)
                    &&& after.slots() == slots1.update(o as int, None)
                    &&& after.vacant() == vacant1.push(o)
                    &&& after.edges() == drop_incident(edges1, o)
                } else {
                    &&& prev is None
                    &&& after.slots() == slots1
                    &&& after.vacant() == vacant1
                    &&& after.edges() == edges1
                }
            },
            Err(e) => {
                let j = first_missing(deps, names1);
                &&& 0 <= j < deps.len()
                &&& !names1.contains_key(deps[j]@)
                &&& forall|i: int| 0 <= i < j ==> names1.contains_key(#[trigger] deps[i]@)
                &&& e matches DependencyError::NoSuchDependency(d) && d@ == deps[j]@
                &&& after.slots() == slots1
                &&& after.vacant() == vacant1
                &&& after.names() == names1
                &&& after.edges() == self.edges() + dep_edges(deps, names1, k).take(j)
                &&& after.is_changed() == self.is_changed()
            },
        }
    }

    /// Adds `value` under `name`, depending on the values named in `deps`.
    /// A value already under `name` is removed, with its edges, after the
    /// new one is added, and handed back. When a dependency names no value,
    /// the error names it and the graph keeps what was done up to that
    /// dependency: the new node, the name, and the edges of the
    /// dependencies before it.
    #[verifier::rlimit(60)]
    pub fn insert(&mut self, value: T, name: &str, deps: &[&str]) -> (r: Result<Option<T>, DependencyError>)
        requires
            old(self).wf(),
            old(self).has_room(deps@.len()),
        ensures
            final(self).wf(),
            old(self).inserted(&*final(self), value, name@, deps@, r),
    {
        let ghost g0 = *old(self);
        // Add the node.
        let node_name = name.to_owned();
        let k = if self.vacant.len() > 0 {
            let k = self.vacant.pop().unwrap();
            proof {
                assert(g0.vacant@.contains(k));
            }
            self.slots.set(k, Some((node_name, value)));
            k
        } else {
            self.slots.push(Some((node_name, value)));
            self.slots.len() - 1
        };
        proof {
            assert(self.slots() =~= g0.slots_with(name@, value));
            assert forall|n: int| 0 <= n < self.slots@.len() implies (#[trigger] self.slots@[n] is None <==> self.vacant@.contains(n as usize)) by {
                if n < g0.slots@.len() && n != k {
                    assert(g0.slots@[n] == self.slots@[n]);
                    if g0.vacant@.contains(n as usize) {
                        let i = g0.vacant@.index_of(n as usize);
                        assert(self.vacant@[i] == n);
                    }
                    if self.vacant@.contains(n as usize) {
                        let i = self.vacant@.index_of(n as usize);
                        assert(g0.vacant@[i] == n);
                    }
                }
                if n == k {
                    if self.vacant@.contains(k) {
                        let i = self.vacant@.index_of(k);
                        assert(g0.vacant@[i] == k);
                    }
                }
            }
        }
        // Record the name.
        let key = name.to_owned();
        let ghost pos: int;
        let previous = match self.find_name(&key) {
            Some(i) => {
                let o = self.indices[i].1;
                self.indices.set(i, (key, k));
                proof {
                    pos = i as int;
                }
                Some(o)
            },
            None => {
                self.indices.push((key, k));
                proof {
                    pos = self.indices@.len() - 1;
                }
                None
            },
        };
        let ghost names1 = g0.names().insert(name@, k);
        proof {
            assert(self.indices@[pos].0@ == name@);
            assert forall|q: Seq<char>| #![auto] self.names().contains_key(q) == names1.contains_key(q) by {
                if g0.names().contains_key(q) {
                    let j = choose|j: int| 0 <= j < g0.indices@.len() && #[trigger] g0.indices@[j].0@ == q;
                    if j != pos {
                        assert(self.indices@[j].0@ == q);
                    }
                }
                if self.names().contains_key(q) && q != name@ {
                    let j = choose|j: int| 0 <= j < self.indices@.len() && #[trigger] self.indices@[j].0@ == q;
                    assert(g0.indices@[j].0@ == q);
                }
            }
            assert forall|q: Seq<char>| #[trigger] self.names().contains_key(q) implies self.names()[q] == names1[q] by {
                let j = choose|j: int| 0 <= j < self.indices@.len() && #[trigger] self.indices@[j].0@ == q;
                if q != name@ {
                    let j0 = choose|j0: int| 0 <= j0 < g0.indices@.len() && #[trigger] g0.indices@[j0].0@ == q;
                    assert(g0.indices@[j].0@ == q);
                    assert(j == j0);
                } else {
                    if j != pos {
                        assert(self.indices@[j].0@ == self.indices@[pos].0@);
                    }
                }
            }
            assert(self.names() =~= names1);
            assert(previous == (if g0.names().contains_key(name@) {
                Some(g0.names()[name@])
            } else {
                None::<usize>
            }));
            assert forall|a: int, b: int| 0 <= a < b < self.indices@.len() implies (#[trigger] self.indices@[a]).0@
                != (#[trigger] self.indices@[b]).0@ by {
                if a != pos && b != pos {
                    assert(g0.indices@[a] == self.indices@[a]);
                    assert(g0.indices@[b] == self.indices@[b]);
                } else if a == pos {
                    assert(g0.indices@[b] == self.indices@[b]);
                    if previous is None {
                        assert(g0.indices@[b].0@ != name@);
                    }
                } else {
                    assert(g0.indices@[a] == self.indices@[a]);
                    if previous is None {
                        assert(g0.indices@[a].0@ != name@);
                    }
                }
            }
            assert forall|a: int| 0 <= a < self.indices@.len() implies (#[trigger] self.indices@[a]).1 < self.slots@.len()
                && self.slots@[self.indices@[a].1 as int] is Some && (a != pos ==> self.indices@[a].1 != k) by {
                if a != pos {
                    assert(g0.indices@[a] == self.indices@[a]);
                    let n = g0.indices@[a].1;
                    assert(g0.slots@[n as int] is Some);
                    if n == k && g0.vacant@.len() > 0 {
                        assert(g0.vacant@.contains(k));
                    }
                    if n != k {
                        assert(g0.slots@[n as int] == self.slots@[n as int]);
                    }
                }
            }
            assert forall|a: int, b: int| 0 <= a < b < self.indices@.len() implies (#[trigger] self.indices@[a]).1
                != (#[trigger] self.indices@[b]).1 by {
                if a != pos && b != pos {
                    assert(g0.indices@[a] == self.indices@[a]);
                    assert(g0.indices@[b] == self.indices@[b]);
                }
            }
            assert forall|e: int| 0 <= e < self.edges@.len() implies (#[trigger] self.edges@[e]).0 < self.slots@.len()
                && self.edges@[e].1 < self.slots@.len() && self.slots@[self.edges@[e].0 as int] is Some
                && self.slots@[self.edges@[e].1 as int] is Some by {
                assert(g0.edges@[e] == self.edges@[e]);
                if self.edges@[e].0 != k {
                    assert(g0.slots@[self.edges@[e].0 as int] == self.slots@[self.edges@[e].0 as int]);
                }
                if self.edges@[e].1 != k {
                    assert(g0.slots@[self.edges@[e].1 as int] == self.slots@[self.edges@[e].1 as int]);
                }
            }
            assert forall|i: int| !self.changed && 0 <= i < self.sorted@.len() implies (#[trigger] self.sorted@[i] as int) < self.slots@.len()
                && self.slots@[self.sorted@[i] as int] is Some by {
                let n = self.sorted@[i];
                if n != k {
                    assert(g0.slots@[n as int] == self.slots@[n as int]);
                }
            }
            assert(self.wf());
        }
        // Add the dependency edges.
        proof {
            assert(k == g0.next_index());
            assert(self.slots() =~= g0.slots_with(name@, value));
        }
        let ghost e0 = self.edges@;
        let ghost s1 = *self;
        let mut j: usize = 0;
        while j < deps.len()
            invariant
                0 <= j <= deps@.len(),
                self.wf(),
                self.slots@ == s1.slots@,
                self.vacant@ == s1.vacant@,
                self.indices@ == s1.indices@,
                self.sorted@ == s1.sorted@,
                self.changed == s1.changed,
                (k as int) < self.slots@.len(),
                self.slots@[k as int] is Some,
                e0.len() + deps@.len() < u32::MAX,
                self.edges@ == e0 + dep_edges(deps@, names1, k).take(j as int),
                forall|i: int| 0 <= i < j ==> names1.contains_key(#[trigger] deps@[i]@),
                self.names() == names1,
                self.slots() == g0.slots_with(name@, value),
                e0 == g0.edges@,
                g0 == *old(self),
                k == g0.next_index(),
                names1 == g0.names().insert(name@, k),
                self.changed == g0.changed,
                self.vacant@ == (if g0.vacant@.len() > 0 {
                    g0.vacant@.drop_last()
                } else {
                    g0.vacant@
                }),
            decreases deps@.len() - j,
        {
            let d = deps[j].to_owned();
            match self.find_name(&d) {
                Some(i) => {
                    let dn = self.indices[i].1;
                    self.edges.push((dn, k));
                    proof {
                        assert(self.edges@ =~= e0 + dep_edges(deps@, names1, k).take(j + 1));
                        assert forall|e: int| 0 <= e < self.edges@.len() implies (#[trigger] self.edges@[e]).0 < self.slots@.len()
                            && self.edges@[e].1 < self.slots@.len() && self.slots@[self.edges@[e].0 as int] is Some
                            && self.slots@[self.edges@[e].1 as int] is Some by {
                            if e < self.edges@.len() - 1 {
                            }
                        }
                    }
                },
                None => {
                    proof {
                        let jj = j as int;
                        assert(!names1.contains_key(deps@[jj]@));
                        assert(e0 == g0.edges@);
                        assert(self.vacant@ == (if g0.vacant@.len() > 0 {
                            g0.vacant@.drop_last()
                        } else {
                            g0.vacant@
                        }));
                        assert(d@ == deps@[jj]@);
                        assert(k == g0.next_index());
                        assert(self.edges() == g0.edges() + dep_edges(deps@, names1, k).take(jj));
                        assert(self.vacant() == (if g0.vacant().len() > 0 {
                            g0.vacant().drop_last()
                        } else {
                            g0.vacant()
                        }));
                        assert(self.slots() == g0.slots_with(name@, value));
                        assert(self.names() == names1);
                        assert(self.is_changed() == g0.is_changed());
                    }
                    let err = DependencyError::NoSuchDependency(d);
                    proof {
                        let jj = j as int;
                        assert(0 <= jj < deps@.len() && !names1.contains_key(deps@[jj]@) && (forall|i: int|
                            0 <= i < jj ==> names1.contains_key(#[trigger] deps@[i]@)) && (err matches DependencyError::NoSuchDependency(x)
                            && x@ == deps@[jj]@));
                        let slots1 = g0.slots_with(name@, value);
                        assert(self.slots() == slots1);
                        assert(0 <= jj < deps@.len() && !names1.contains_key(deps@[jj]@) && forall|i: int| 0 <= i < jj ==> names1.contains_key(#[trigger] deps@[i]@));
                        assert(exists|j: int|
                            0 <= j < deps@.len() && !names1.contains_key(#[trigger] deps@[j]@) && forall|i: int|
                                0 <= i < j ==> names1.contains_key(#[trigger] deps@[i]@));
                        let w = first_missing(deps@, names1);
                        if w != jj {
                            if w < jj {
                                assert(names1.contains_key(deps@[w]@));
                            } else {
                                assert(names1.contains_key(deps@[jj]@));
                            }
                        }
                    }
                    return Err(err);
                },
            }
            j = j + 1;
        }
        proof {
            assert(dep_edges(deps@, names1, k).take(deps@.len() as int) =~= dep_edges(deps@, names1, k));
        }
        self.changed = true;
        match previous {
            Some(o) => {
                proof {
                    assert(g0.names().contains_key(name@));
                    let q = choose|q: int| 0 <= q < g0.indices@.len() && #[trigger] g0.indices@[q].0@ == name@;
                    assert(g0.slots@[o as int] is Some);
                    assert(o != k) by {
                        if o == k && g0.vacant@.len() > 0 {
                            assert(g0.vacant@.contains(k));
                        }
                    }
                    assert(self.slots@[o as int] == g0.slots@[o as int]);
                }
                let ghost before = *self;
                let taken = self.slots[o].take();
                self.vacant.push(o);
                let kept = drop_incident_vec(&self.edges, o);
                self.edges = kept;
                proof {
                    lemma_drop_incident(before.edges@, o);
                    lemma_drop_incident_len(before.edges@, o);
                    assert forall|i: int| 0 <= i < self.vacant@.len() implies (#[trigger] self.vacant@[i] as int) < self.slots@.len() by {
                        if i < before.vacant@.len() {
                            assert(before.vacant@[i] == self.vacant@[i]);
                        }
                    }
                    assert(self.slots() =~= g0.slots_with(name@, value).update(o as int, None));
                    assert(!before.vacant@.contains(o));
                    assert forall|n: int| 0 <= n < self.slots@.len() implies (#[trigger] self.slots@[n] is None
                        <==> self.vacant@.contains(n as usize)) by {
                        if n != o {
                            assert(before.slots@[n] == self.slots@[n]);
                            if before.vacant@.contains(n as usize) {
                                let i = before.vacant@.index_of(n as usize);
                                assert(self.vacant@[i] == n);
                            }
                            if self.vacant@.contains(n as usize) {
                                let i = self.vacant@.index_of(n as usize);
                                assert(before.vacant@[i] == n);
                            }
                        } else {
                            assert(self.vacant@.last() == o);
                        }
                    }
                    assert forall|e: int| 0 <= e < self.edges@.len() implies (#[trigger] self.edges@[e]).0 < self.slots@.len()
                        && self.edges@[e].1 < self.slots@.len() && self.slots@[self.edges@[e].0 as int] is Some
                        && self.slots@[self.edges@[e].1 as int] is Some by {
                        let x = self.edges@[e];
                        assert(drop_incident(before.edges@, o).contains(x));
                        let i = before.edges@.index_of(x);
                        assert(before.edges@[i] == x);
                    }
                    assert forall|a: int| 0 <= a < self.indices@.len() implies (#[trigger] self.indices@[a]).1 < self.slots@.len()
                        && self.slots@[self.indices@[a].1 as int] is Some by {
                        assert(before.indices@[a] == self.indices@[a]);
                        if self.indices@[a].1 == o {
                            if a != pos {
                                assert(g0.indices@[a] == self.indices@[a]);
                                let q = choose|q: int| 0 <= q < g0.indices@.len() && #[trigger] g0.indices@[q].0@ == name@;
                                assert(g0.indices@[q].1 == o);
                                assert(q == pos);
                            }
                        } else {
                            let n = self.indices@[a].1;
                            assert(before.slots@[n as int] == self.slots@[n as int]);
                        }
                    }
                    assert(self.wf());
                }
                Ok(Some(taken.unwrap().1))
            },
            None => {
                proof {
                    assert(self.slots() =~= g0.slots_with(name@, value));
                }
                Ok(None)
            },
        }
    }
}

} // verus!
