//! Entity ids, their per-id metadata, and locations inside archetypes.

use vstd::prelude::*;

verus! {

/// A stable entity id: a directory index paired with the generation the
/// index had when the id was issued. The generation is never zero, so a
/// freed-and-reissued index can be told apart from a stale copy.
#[derive(Clone, Copy, Debug, PartialEq, Eq, Structural)]
pub struct Entity {
    /// Generation of the directory slot at issue time; never zero.
    pub generation: u32,
    /// Index into the entity directory.
    pub id: u32,
}

impl Entity {
    pub open spec fn wf(&self) -> bool {
        self.generation != 0
    }
}

impl From<u32> for Entity {
    /// An id handle for a fresh slot: generation one.
    fn from(id: u32) -> (r: Entity) {
        Entity { generation: 1, id }
    }
}

impl vstd::std_specs::convert::FromSpecImpl<u32> for Entity {
    open spec fn obeys_from_spec() -> bool {
        true
    }

    open spec fn from_spec(id: u32) -> Entity {
        Entity { generation: 1, id }
    }
}

/// Where an entity's row lives: the owning archetype and the slot index
/// inside that archetype's slab.
#[derive(Clone, Copy, Debug, PartialEq, Eq, Structural)]
pub struct EntityLocation {
    /// Key of the owning archetype. Rarely changes.
    pub archetype: u32,
    /// Slot index inside the archetype; changes when an entity is moved.
    pub index: u32,
}

impl Default for EntityLocation {
    fn default() -> (r: EntityLocation)
        ensures
            r == (EntityLocation { archetype: 0, index: 0 }),
    {
        EntityLocation { archetype: 0, index: 0 }
    }
}

/// Per-id record in the entity directory.
#[derive(Clone, Copy, Debug, PartialEq, Eq, Structural)]
pub struct EntityMeta {
    /// Current generation of this slot; never zero, bumped on every free.
    pub generation: u32,
    /// Whether the slot currently backs a live entity.
    pub in_use: bool,
    /// Location of the live entity's row.
    pub location: EntityLocation,
}

impl EntityMeta {
    pub open spec fn wf(&self) -> bool {
        self.generation != 0
    }
}

impl Default for EntityMeta {
    fn default() -> (r: EntityMeta)
        ensures
            r == (EntityMeta {
                generation: 1u32,
                in_use: false,
                location: EntityLocation { archetype: 0, index: 0 },
            }),
    {
        EntityMeta { generation: 1, in_use: false, location: EntityLocation { archetype: 0, index: 0 } }
    }
}

} // verus!
