//! An archetype-bucketed columnar store for an entity-component system:
//! slabs of fixed-stride rows with per-column borrow counters and per-row
//! locks, a quiescence-driven resize protocol, and a generational entity
//! directory.

pub mod arche;
pub mod component;
pub mod component_ref;
pub mod entity;
pub mod entity_set;
pub mod queue;
pub mod sets;
pub mod world;
