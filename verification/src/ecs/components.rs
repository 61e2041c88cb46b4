//! The parent component of the ECS layer.
use crate::hierarchy::ParentComponent;
use hecs::Entity;
use vstd::prelude::*;

verus! {

/// The component that links an entity to its parent.
#[derive(Debug, Clone, Copy)]
pub struct Parent {
    pub parent_entity: Entity,
}

impl Parent {
    /// A link to `parent_entity`.
    pub fn new(parent_entity: Entity) -> (r: Self)
        ensures
            r.parent_entity == parent_entity,
    {
        Self { parent_entity }
    }
}

impl ParentComponent for Parent {
    fn parent_entity(&self) -> (r: Entity)
        ensures
            r == self.parent_entity,
    {
        self.parent_entity
    }
}

} // verus!
