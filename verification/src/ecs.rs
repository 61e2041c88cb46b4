//! Components of the entity-component system: parent links and the
//! hierarchy's own parent component.
pub mod components;
pub mod hierarchy;
