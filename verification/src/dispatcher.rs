//! The order in which the engine's systems are initialized and run: each
//! system is registered under a name with the names of the systems it
//! depends on, and runs after them.
use crate::dependency_graph::{petgraph_toposort, DependencyError, DependencyGraph};
use vstd::prelude::*;

verus! {

/// Why the dispatcher refused a request.
#[derive(Debug, Clone, PartialEq, Eq)]
pub enum DispatchError {
    /// The dependency graph refused the system: a dependency names no
    /// system, or the dependencies form a cycle.
    Dependency(DependencyError),
    /// A system was already registered under the name; the new one took
    /// its place.
    AlreadyExists,
    /// Systems were registered since the order was last refreshed.
    NotRefreshed,
}

/// Systems under their names, with their dependencies.
pub struct Dispatcher<S> {
    dependency_graph: DependencyGraph<S>,
}

impl<S> Dispatcher<S> {
    /// The graph of the systems and their dependencies.
    pub closed spec fn graph(&self) -> DependencyGraph<S> {
        self.dependency_graph
    }

    /// No systems.
    pub fn new() -> (r: Self)
        ensures
            r.graph().wf(),
            r.graph().slots() == Seq::<Option<(Seq<char>, S)>>::empty(),
            r.graph().names() == Map::<Seq<char>, usize>::empty(),
            !r.graph().is_changed(),
    {
        Dispatcher { dependency_graph: DependencyGraph::new() }
    }

    /// Registers `system` under `name`, to run after the systems named in
    /// `deps`. Refused when a dependency names no system, and when a
    /// system was already registered under `name` (the new one takes its
    /// place all the same).
    pub fn register(&mut self, system: S, name: &str, deps: &[&str]) -> (r: Result<(), DispatchError>)
        requires
            old(self).graph().wf(),
            old(self).graph().has_room(deps@.len()),
        ensures
            final(self).graph().wf(),
            exists|out: Result<Option<S>, DependencyError>|
                {
                    &&& #[trigger] old(self).graph().inserted(&final(self).graph(), system, name@, deps@, out)
                    &&& match out {
                        Ok(None) => r == Ok::<(), DispatchError>(()),
                        Ok(Some(_)) => r == Err::<(), DispatchError>(DispatchError::AlreadyExists),
                        Err(e) => r == Err::<(), DispatchError>(DispatchError::Dependency(e)),
                    }
                },
    {
        let out = self.dependency_graph.insert(system, name, deps);
        let r = match out {
            Ok(None) => Ok(()),
            Ok(Some(_)) => Err(DispatchError::AlreadyExists),
            Err(e) => Err(DispatchError::Dependency(e)),
        };
        proof {
            assert(old(self).graph().inserted(&self.graph(), system, name@, deps@, out));
        }
        r
    }

    /// Recomputes the order of the systems if any was registered since it
    /// was last computed: `Ok(true)` when it did, and then every system is
    /// to be initialized again in the new order; `Ok(false)` when nothing
    /// changed; refused when the dependencies form a cycle.
    pub fn refresh(&mut self) -> (r: Result<bool, DispatchError>)
        requires
            old(self).graph().wf(),
        ensures
            final(self).graph().wf(),
            final(self).graph().slots() == old(self).graph().slots(),
            final(self).graph().names() == old(self).graph().names(),
            final(self).graph().edges() == old(self).graph().edges(),
            match r {
                Ok(b) => b == old(self).graph().is_changed() && !final(self).graph().is_changed() && (b
                    ==> crate::dependency_graph::is_topological_order(
                    final(self).graph().live(),
                    final(self).graph().edges(),
                    final(self).graph().sorted_ids(),
                )) && (!b ==> final(self).graph().sorted_ids() == old(self).graph().sorted_ids()),
                Err(e) => old(self).graph().is_changed() && (match petgraph_toposort(
                    old(self).graph().slots().len() as usize,
                    old(self).graph().vacant(),
                    old(self).graph().edges(),
                ) {
                    Ok(_) => false,
                    Err(c) => e matches DispatchError::Dependency(DependencyError::Cycle(n)) && n@
                        == old(self).graph().name_of(c),
                }) && final(self).graph().is_changed() && forall|o: Seq<usize>|
                    !crate::dependency_graph::is_topological_order(
                        old(self).graph().live(),
                        old(self).graph().edges(),
                        o,
                    ),
            },
    {
        match self.dependency_graph.update() {
            Ok(b) => Ok(b),
            Err(e) => Err(DispatchError::Dependency(e)),
        }
    }

    /// The systems, with their names, in the order in which they run:
    /// every system after the systems it depends on. Refused when systems
    /// were registered since the order was last refreshed.
    pub fn update(&self) -> (r: Result<Vec<(&str, &S)>, DispatchError>)
        requires
            self.graph().wf(),
        ensures
            self.graph().is_changed() ==> r == Err::<Vec<(&str, &S)>, DispatchError>(
                DispatchError::NotRefreshed,
            ),
            !self.graph().is_changed() ==> (r matches Ok(v) && v@.len() == self.graph().sorted_ids().len()
                && forall|i: int|
                #![trigger v@[i]]
                0 <= i < v@.len() ==> v@[i].0@ == self.graph().name_of(self.graph().sorted_ids()[i])
                    && *v@[i].1 == self.graph().slots()[self.graph().sorted_ids()[i] as int]->Some_0.1),
    {
        if self.dependency_graph.is_dirty() {
            return Err(DispatchError::NotRefreshed);
        }
        Ok(self.dependency_graph.sorted())
    }
}

} // verus!
