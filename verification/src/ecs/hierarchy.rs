//! The parent component that the ECS hierarchy tracks.
use hecs::Entity;
use vstd::prelude::*;

verus! {

/// The parent of the entity that holds this component; it is set only by
/// the hierarchy that tracks it.
#[derive(Debug, Clone, Copy)]
pub struct Parent {
    id: Entity,
}

impl Parent {
    /// The parent entity.
    pub closed spec fn parent(self) -> Entity {
        self.id
    }
}

} // verus!
