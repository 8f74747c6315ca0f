//! The world: one entity directory and a map from archetype keys to
//! slabs, orchestrating allocation, insertion, removal and growth.

use vstd::prelude::*;

use crate::arche::{
    add_post, bundle_fits, remove_busy_post, remove_ok_post, spec_insert_slot, Archetype,
    ArchetypeInner,
};
use crate::component::{distinct_ids, total_size, Bundle, ComponentInfo};
use crate::entity::{Entity, EntityLocation, EntityMeta};
use crate::entity_set::{EntitySet, EntitySetInner};

verus! {

/// Why the world refused an operation.
#[derive(Clone, Copy, Debug, PartialEq, Eq, Structural)]
pub enum WorldError {
    /// The archetype is not in the map; it may be out for reallocation.
    ArchetypeNotFound,
    /// The entity directory has no room for another id.
    TooManyEntitiesInWorld,
    /// The archetype's slab is full; the caller must drive a resize.
    TooManyEntitiesInArchetype,
    /// The directory is locked for growth; refresh and retry.
    EntitySetLocked,
}

/// The central access point to the store: the slabs, keyed by archetype
/// id, and the entity directory.
pub struct World {
    /// One slab per registered archetype, with distinct keys.
    pub archetypes: Vec<(u32, Archetype)>,
    /// The generational id directory.
    pub entities: EntitySet,
}

impl World {
    pub open spec fn wf(&self) -> bool {
        &&& self.entities.wf()
        &&& forall|k1: int, k2: int|
            0 <= k1 < k2 < self.archetypes@.len() ==> (self.archetypes@[k1].0) != (
            self.archetypes@[k2].0)
        &&& forall|k: int|
            0 <= k < self.archetypes@.len() ==> (#[trigger] self.archetypes@[k]).1.wf()
    }

    pub open spec fn has_archetype(&self, archetype_id: u32) -> bool {
        exists|k: int|
            0 <= k < self.archetypes@.len() && (#[trigger] self.archetypes@[k]).0 == archetype_id
    }

    pub open spec fn archetype_index(&self, archetype_id: u32) -> int {
        choose|k: int|
            0 <= k < self.archetypes@.len() && (#[trigger] self.archetypes@[k]).0 == archetype_id
    }

    pub open spec fn spec_archetype(&self, archetype_id: u32) -> Archetype {
        self.archetypes@[self.archetype_index(archetype_id)].1
    }

    /// Creates a world with room for `entity_size` entity ids and no
    /// archetypes.
    pub fn new(entity_size: u32) -> (r: World)
        ensures
            r.wf(),
            r.archetypes@.len() == 0,
            r.entities.0.capacity() == entity_size,
            r.entities.0.length == 0,
            !r.entities.0.locked,
            r.entities.0.free_len == 0,
            forall|i: int|
                0 <= i < entity_size ==> #[trigger] r.entities.0.entities@[i] == (EntityMeta {
                    generation: 1u32,
                    in_use: false,
                    location: EntityLocation { archetype: 0u32, index: 0u32 },
                }),
    {
        World { archetypes: Vec::new(), entities: EntitySet(EntitySetInner::new(entity_size)) }
    }

    /// Looks the key up in the map.
    fn find_archetype_index(&self, archetype_id: u32) -> (r: Option<usize>)
        requires
            self.wf(),
        ensures
            match r {
                Some(k) => k < self.archetypes@.len() && (self.archetypes@[k as int].0)
                    == archetype_id && self.has_archetype(archetype_id) && k as int
                    == self.archetype_index(archetype_id),
                None => !self.has_archetype(archetype_id),
            },
    {
        let n = self.archetypes.len();
        let mut k: usize = 0;
        while k < n
            invariant
                self.wf(),
                k <= n,
                n == self.archetypes@.len(),
                forall|m: int| 0 <= m < k ==> (#[trigger] self.archetypes@[m]).0 != archetype_id,
            decreases n - k,
        {
            if self.archetypes[k].0 == archetype_id {
                proof {
                    lemma_key_index_unique(self, archetype_id, k as int);
                }
                return Some(k);
            }
            k += 1;
        }
        None
    }

    /// Inserts a slab under the given key, replacing any slab already
    /// registered there.
    pub fn push_archetype(&mut self, archetype_id: u32, archetype: Archetype)
        requires
            old(self).wf(),
            archetype.wf(),
        ensures
            final(self).wf(),
            final(self).has_archetype(archetype_id),
            final(self).spec_archetype(archetype_id) == archetype,
            final(self).entities == old(self).entities,
            forall|id2: u32|
                id2 != archetype_id ==> #[trigger] final(self).has_archetype(id2) == old(self).has_archetype(id2),
            forall|id2: u32|
                id2 != archetype_id && old(self).has_archetype(id2) ==> #[trigger] final(self).spec_archetype(id2) == old(self).spec_archetype(id2),
    {
        let at = self.find_archetype_index(archetype_id);
        match at {
            Some(k) => {
                self.archetypes[k] = (archetype_id, archetype);
                proof {
                    lemma_lookup_after_update(old(self), self, k as int, archetype_id);
                }
            },
            None => {
                let ghost pre = *self;
                self.archetypes.push((archetype_id, archetype));
                proof {
                    let n = pre.archetypes@.len() as int;
                    assert(self.archetypes@[n].0 == archetype_id);
                    lemma_lookup_after_update(&pre, self, n, archetype_id);
                }
            },
        }
    }

    /// Registers a new archetype: builds a slab for the signature with
    /// `size` rows and inserts it under the key.
    pub fn add_archetype(&mut self, archetype_id: u32, components: Vec<ComponentInfo>, size: usize)
        requires
            old(self).wf(),
            distinct_ids(components@),
            components@.len() <= u32::MAX,
            total_size(components@) <= usize::MAX,
            size <= u32::MAX,
        ensures
            final(self).wf(),
            final(self).has_archetype(archetype_id),
            final(self).entities == old(self).entities,
            ({
                let s = final(self).spec_archetype(archetype_id).0;
                &&& s.components@.to_multiset() == components@.to_multiset()
                &&& s.entities_len == 0
                &&& s.free_list@.len() == 0
                &&& s.capacity() == size
                &&& s.row_stride == total_size(components@)
                &&& forall|i: int|
                    0 <= i < size ==> s.row_entity(i) is None && (
                    #[trigger] s.entity_data@[i]).locked == 0 && s.entity_data@[i].all_idle()
                        && forall|p: int|
                        0 <= p < s.entity_data@[i].row@.len() ==> s.entity_data@[i].row@[p] == 0u8
            }),
            forall|id2: u32|
                id2 != archetype_id ==> #[trigger] final(self).has_archetype(id2) == old(self).has_archetype(id2),
            forall|id2: u32|
                id2 != archetype_id && old(self).has_archetype(id2) ==> #[trigger] final(self).spec_archetype(id2) == old(self).spec_archetype(id2),
    {
        let inner = ArchetypeInner::new(components, size);
        self.push_archetype(archetype_id, Archetype(inner));
    }

    /// Removes the slab from the map, handing the caller exclusive
    /// ownership — the precondition of a resize. While it is out,
    /// `add_entity` for this archetype answers `ArchetypeNotFound`.
    pub fn take_archetype(&mut self, archetype_id: u32) -> (r: Option<Archetype>)
        requires
            old(self).wf(),
        ensures
            final(self).wf(),
            final(self).entities == old(self).entities,
            match r {
                Some(a) => old(self).has_archetype(archetype_id) && a == old(self).spec_archetype(
                    archetype_id,
                ) && !final(self).has_archetype(archetype_id),
                None => !old(self).has_archetype(archetype_id) && *final(self) == *old(self),
            },
            forall|id2: u32|
                id2 != archetype_id ==> #[trigger] final(self).has_archetype(id2) == old(self).has_archetype(id2),
            forall|id2: u32|
                id2 != archetype_id && old(self).has_archetype(id2) ==> #[trigger] final(self).spec_archetype(id2) == old(self).spec_archetype(id2),
    {
        match self.find_archetype_index(archetype_id) {
            None => None,
            Some(k) => {
                let ghost pre = *self;
                let (_, slab) = self.archetypes.remove(k);
                proof {
                    assert(!self.has_archetype(archetype_id)) by {
                        if self.has_archetype(archetype_id) {
                            let w = choose|w: int|
                                0 <= w < self.archetypes@.len() && (
                                #[trigger] self.archetypes@[w]).0 == archetype_id;
                            if w < k as int {
                                assert(pre.archetypes@[w].0 == archetype_id);
                            } else {
                                assert(pre.archetypes@[w + 1].0 == archetype_id);
                            }
                        }
                    }
                    assert forall|id2: u32| id2 != archetype_id implies #[trigger] self
                        .has_archetype(id2) == pre.has_archetype(id2) by {
                        if pre.has_archetype(id2) {
                            let w = pre.archetype_index(id2);
                            if w < k as int {
                                assert(self.archetypes@[w].0 == id2);
                            } else {
                                assert(self.archetypes@[w - 1].0 == id2);
                            }
                        }
                        if self.has_archetype(id2) {
                            let w = choose|w: int|
                                0 <= w < self.archetypes@.len() && (
                                #[trigger] self.archetypes@[w]).0 == id2;
                            if w < k as int {
                                assert(pre.archetypes@[w].0 == id2);
                            } else {
                                assert(pre.archetypes@[w + 1].0 == id2);
                            }
                        }
                    }
                    assert forall|id2: u32|
                        id2 != archetype_id && pre.has_archetype(id2) implies #[trigger] self
                        .spec_archetype(id2) == pre.spec_archetype(id2) by {
                        let w = pre.archetype_index(id2);
                        lemma_key_index_unique(&pre, id2, w);
                        if w < k as int {
                            assert(self.archetypes@[w].0 == id2);
                            lemma_key_index_unique(self, id2, w);
                        } else {
                            assert(self.archetypes@[w - 1].0 == id2);
                            lemma_key_index_unique(self, id2, w - 1);
                        }
                    }
                }
                Some(slab)
            },
        }
    }

    /// A shared read of one slab.
    pub fn get_archetype(&self, archetype_id: u32) -> (r: Option<&Archetype>)
        requires
            self.wf(),
        ensures
            match r {
                Some(a) => self.has_archetype(archetype_id) && *a == self.spec_archetype(
                    archetype_id,
                ),
                None => !self.has_archetype(archetype_id),
            },
    {
        match self.find_archetype_index(archetype_id) {
            None => None,
            Some(k) => Some(&self.archetypes[k].1),
        }
    }

    pub fn get_entities(&self) -> (r: &EntitySet)
        ensures
            r == &self.entities,
    {
        &self.entities
    }

    /// Grows the entity directory by `increase` ids (by its own capacity
    /// when `None`). The old table is locked, copied — metadata, cursor
    /// and free list — into a larger table, and swapped out.
    pub fn increase_entities(&mut self, increase: Option<u32>) -> (r: Result<(), WorldError>)
        requires
            old(self).wf(),
            old(self).entities.0.capacity() + (match increase {
                Option::Some(v) => v as int,
                Option::None => old(self).entities.0.capacity(),
            }) <= u32::MAX,
        ensures
            final(self).wf(),
            r is Ok,
            final(self).archetypes == old(self).archetypes,
            ({
                let a = old(self).entities.0;
                let b = final(self).entities.0;
                &&& b.capacity() == a.capacity() + (match increase {
                    Option::Some(v) => v as int,
                    Option::None => a.capacity(),
                })
                &&& b.length == a.length
                &&& !b.locked
                &&& b.free_len == a.free_len
                &&& b.qv() == a.qv()
                &&& forall|i: int|
                    0 <= i < a.capacity() ==> #[trigger] b.entities@[i] == a.entities@[i]
            }),
    {
        let cap = self.entities.0.entities.len();
        let add: u32 = match increase {
            Some(v) => v,
            None => cap as u32,
        };
        self.entities.0.locked = true;
        let inner = self.entities.0.reallocate(add);
        self.entities = EntitySet(inner);
        Ok(())
    }

    /// Removes an entity: frees its id in the directory — committed even
    /// if the slab is still busy — and then reclaims the slab row. A
    /// `false` result means the row was left in the locking state,
    /// orphaned pending a retry once its readers drain.
    pub fn remove_entity(&mut self, entity: Entity) -> (removed: bool)
        requires
            old(self).wf(),
            !old(self).entities.0.locked,
            (entity.id as int) < old(self).entities.0.capacity(),
            old(self).entities.0.entities@[entity.id as int].in_use,
            old(self).has_archetype(
                old(self).entities.0.entities@[entity.id as int].location.archetype,
            ),
            (old(self).entities.0.entities@[entity.id as int].location.index as int) < old(self).spec_archetype(
                old(self).entities.0.entities@[entity.id as int].location.archetype,
            ).0.capacity(),
        ensures
            final(self).wf(),
            ({
                let loc = old(self).entities.0.entities@[entity.id as int].location;
                let k = old(self).archetype_index(loc.archetype);
                let pre_slab = old(self).spec_archetype(loc.archetype).0;
                let post_slab = final(self).archetypes@[k].1.0;
                &&& crate::entity_set::free_post(
                    old(self).entities.0,
                    final(self).entities.0,
                    entity.id,
                )
                &&& final(self).archetypes@.len() == old(self).archetypes@.len()
                &&& forall|m: int|
                    0 <= m < old(self).archetypes@.len() && m != k
                        ==> #[trigger] final(self).archetypes@[m] == old(self).archetypes@[m]
                &&& final(self).archetypes@[k].0 == loc.archetype
                &&& removed == pre_slab.entity_data@[loc.index as int].all_idle()
                &&& removed ==> remove_ok_post(pre_slab, post_slab, loc.index as int)
                &&& !removed ==> remove_busy_post(pre_slab, post_slab, loc.index as int)
            }),
    {
        let freed = self.entities.free(entity.id);
        let (index, arch) = match freed {
            Some(p) => p,
            None => {
                proof {
                    assert(false);
                }
                (0, 0)
            },
        };
        let k = match self.find_archetype_index(arch) {
            Some(k) => k,
            None => {
                proof {
                    assert(false);
                }
                0
            },
        };
        proof {
            lemma_key_index_unique(old(self), arch, k as int);
        }
        let slab = &mut self.archetypes[k].1;
        let r = slab.remove(index);
        proof {
            assert forall|m: int|
                0 <= m < self.archetypes@.len() implies (#[trigger] self.archetypes@[m]).1.wf() by {
                if m != k as int {
                    assert(self.archetypes@[m] == old(self).archetypes@[m]);
                }
            }
        }
        r.is_ok()
    }

    /// Adds an entity carrying the bundle: checks the directory's lock
    /// and room, the slab's presence and room; allocates an id, emplaces
    /// the bundle into a slab row, and records the location.
    pub fn add_entity(&mut self, bundle: &Bundle) -> (r: Result<
        (Entity, EntityLocation),
        WorldError,
    >)
        requires
            old(self).wf(),
            bundle.wf(),
            old(self).has_archetype(bundle.archetype_id) ==> bundle_fits(
                old(self).spec_archetype(bundle.archetype_id).0,
                *bundle,
            ),
        ensures
            final(self).wf(),
            ({
                let pre = *old(self);
                match r {
                    Result::Err(e) => *final(self) == pre && ((e == WorldError::EntitySetLocked
                        && pre.entities.0.locked) || (e == WorldError::TooManyEntitiesInWorld
                        && !pre.entities.0.locked && !pre.entities.spec_entities_left()) || (e
                        == WorldError::ArchetypeNotFound && !pre.entities.0.locked
                        && pre.entities.spec_entities_left() && !pre.has_archetype(
                        bundle.archetype_id,
                    )) || (e == WorldError::TooManyEntitiesInArchetype && !pre.entities.0.locked
                        && pre.entities.spec_entities_left() && pre.has_archetype(
                        bundle.archetype_id,
                    ) && !pre.spec_archetype(bundle.archetype_id).spec_entities_left())),
                    Result::Ok(p) => !pre.entities.0.locked && pre.entities.spec_entities_left()
                        && pre.has_archetype(bundle.archetype_id) && pre.spec_archetype(
                        bundle.archetype_id,
                    ).spec_entities_left() && world_add_post(pre, *final(self), p.0, p.1, *bundle),
                }
            }),
    {
        if self.entities.is_locked() {
            return Err(WorldError::EntitySetLocked);
        }
        if !self.entities.entities_left() {
            return Err(WorldError::TooManyEntitiesInWorld);
        }
        let k = match self.find_archetype_index(bundle.archetype_id) {
            None => {
                return Err(WorldError::ArchetypeNotFound);
            },
            Some(k) => k,
        };
        proof {
            lemma_key_index_unique(old(self), bundle.archetype_id, k as int);
        }
        if !self.archetypes[k].1.entities_left() {
            return Err(WorldError::TooManyEntitiesInArchetype);
        }
        let entity = self.entities.allocate();
        let ghost mid = *self;
        let slab = &mut self.archetypes[k].1;
        let slot = slab.add_entity(entity.id, bundle);
        let location = EntityLocation { archetype: bundle.archetype_id, index: slot };
        proof {
            assert forall|m: int|
                0 <= m < self.archetypes@.len() implies (#[trigger] self.archetypes@[m]).1.wf() by {
                if m != k as int {
                    assert(self.archetypes@[m] == old(self).archetypes@[m]);
                }
            }
        }
        self.entities.push_location(&entity, location);
        proof {
            assert(final(self).entities.0.entities@ == old(self).entities.0.entities@.update(
                entity.id as int,
                (EntityMeta {
                    in_use: true,
                    location,
                    generation: old(self).entities.0.entities@[entity.id as int].generation,
                }),
            )) by {
                assert(final(self).entities.0.entities@ =~= old(self).entities.0.entities@.update(
                    entity.id as int,
                    (EntityMeta {
                        in_use: true,
                        location,
                        generation: old(self).entities.0.entities@[entity.id as int].generation,
                    }),
                ));
            }
        }
        Ok((entity, location))
    }
}

/// After an add, the directory records the new entity at its slab slot,
/// the slab holds the bundle's bytes in that row, and nothing else moved.
pub open spec fn world_add_post(
    pre: World,
    post: World,
    e: Entity,
    loc: EntityLocation,
    bundle: Bundle,
) -> bool {
    let k = pre.archetype_index(bundle.archetype_id);
    let pre_slab = pre.spec_archetype(bundle.archetype_id).0;
    &&& loc.archetype == bundle.archetype_id
    &&& loc.index as int == spec_insert_slot(pre_slab)
    &&& 0 <= (e.id as int) < pre.entities.0.entities@.len()
    &&& e.generation == pre.entities.0.entities@[e.id as int].generation
    &&& e.generation != 0
    &&& if pre.entities.0.qv().len() > 0 {
        e.id as int == pre.entities.0.qv().first() && post.entities.0.qv()
            == pre.entities.0.qv().drop_first() && post.entities.0.free_len
            == pre.entities.0.free_len - 1 && post.entities.0.length == pre.entities.0.length
    } else {
        e.id == pre.entities.0.length && post.entities.0.qv() == pre.entities.0.qv()
            && post.entities.0.free_len == pre.entities.0.free_len && post.entities.0.length
            == pre.entities.0.length + 1
    }
    &&& post.entities.0.entities@ == pre.entities.0.entities@.update(
        e.id as int,
        (EntityMeta {
            in_use: true,
            location: loc,
            generation: pre.entities.0.entities@[e.id as int].generation,
        }),
    )
    &&& post.entities.0.locked == pre.entities.0.locked
    &&& post.archetypes@.len() == pre.archetypes@.len()
    &&& forall|m: int|
        0 <= m < pre.archetypes@.len() && m != k ==> #[trigger] post.archetypes@[m]
            == pre.archetypes@[m]
    &&& post.archetypes@[k].0 == bundle.archetype_id
    &&& add_post(pre_slab, post.archetypes@[k].1.0, e.id, bundle, loc.index)
}

/// Any index holding the key is the chosen index of the key.
proof fn lemma_key_index_unique(w: &World, archetype_id: u32, k: int)
    requires
        w.wf(),
        0 <= k < w.archetypes@.len(),
        (w.archetypes@[k].0) == archetype_id,
    ensures
        w.archetype_index(archetype_id) == k,
{
    let v = w.archetype_index(archetype_id);
    assert(0 <= v < w.archetypes@.len() && (w.archetypes@[v].0) == archetype_id);
    if v < k {
        assert((w.archetypes@[v].0) != (w.archetypes@[k].0));
    }
    if k < v {
        assert((w.archetypes@[k].0) != (w.archetypes@[v].0));
    }
}

/// After writing the slab for `archetype_id` at index `k` (an update or
/// an append), lookups behave like a map insertion.
proof fn lemma_lookup_after_update(pre: &World, post: &World, k: int, archetype_id: u32)
    requires
        pre.wf(),
        post.entities == pre.entities,
        0 <= k <= pre.archetypes@.len(),
        post.archetypes@.len() == if k == pre.archetypes@.len() {
            pre.archetypes@.len() + 1
        } else {
            pre.archetypes@.len()
        },
        forall|m: int|
            0 <= m < pre.archetypes@.len() && m != k ==> #[trigger] post.archetypes@[m]
                == pre.archetypes@[m],
        (post.archetypes@[k].0) == archetype_id,
        post.archetypes@[k].1.wf(),
        k < pre.archetypes@.len() ==> (pre.archetypes@[k].0) == archetype_id,
        k == pre.archetypes@.len() ==> !pre.has_archetype(archetype_id),
    ensures
        post.wf(),
        post.has_archetype(archetype_id),
        post.spec_archetype(archetype_id) == post.archetypes@[k].1,
        forall|id2: u32|
            id2 != archetype_id ==> #[trigger] post.has_archetype(id2) == pre.has_archetype(id2),
        forall|id2: u32|
            id2 != archetype_id && pre.has_archetype(id2) ==> #[trigger] post.spec_archetype(id2)
                == pre.spec_archetype(id2),
{
    assert forall|k1: int, k2: int|
        0 <= k1 < k2 < post.archetypes@.len() implies (post.archetypes@[k1].0) != (
    post.archetypes@[k2].0) by {
        if k1 != k && k2 != k {
            assert(post.archetypes@[k1] == pre.archetypes@[k1]);
            assert(post.archetypes@[k2] == pre.archetypes@[k2]);
        } else if k1 == k {
            assert(post.archetypes@[k2] == pre.archetypes@[k2]);
            if k < pre.archetypes@.len() {
                assert((pre.archetypes@[k].0) != (pre.archetypes@[k2].0));
            } else {
                assert((pre.archetypes@[k2].0) != archetype_id);
            }
        } else {
            assert(post.archetypes@[k1] == pre.archetypes@[k1]);
            if k < pre.archetypes@.len() {
                assert((pre.archetypes@[k1].0) != (pre.archetypes@[k].0));
            } else {
                assert((pre.archetypes@[k1].0) != archetype_id);
            }
        }
    }
    assert forall|m: int|
        0 <= m < post.archetypes@.len() implies (#[trigger] post.archetypes@[m]).1.wf() by {
        if m != k {
            assert(post.archetypes@[m] == pre.archetypes@[m]);
        }
    }
    assert(post.has_archetype(archetype_id)) by {
        assert((post.archetypes@[k].0) == archetype_id);
    }
    lemma_key_index_unique(post, archetype_id, k);
    assert forall|id2: u32| id2 != archetype_id implies #[trigger] post.has_archetype(id2)
        == pre.has_archetype(id2) by {
        if pre.has_archetype(id2) {
            let w = pre.archetype_index(id2);
            assert(w != k);
            assert(post.archetypes@[w].0 == id2);
        }
        if post.has_archetype(id2) {
            let w = choose|w: int|
                0 <= w < post.archetypes@.len() && (#[trigger] post.archetypes@[w]).0 == id2;
            assert(w != k);
            assert(pre.archetypes@[w].0 == id2);
        }
    }
    assert forall|id2: u32| id2 != archetype_id && pre.has_archetype(id2) implies #[trigger] post
        .spec_archetype(id2) == pre.spec_archetype(id2) by {
        let w = pre.archetype_index(id2);
        assert(w != k);
        assert(post.archetypes@[w].0 == id2);
        lemma_key_index_unique(post, id2, w);
        lemma_key_index_unique(pre, id2, w);
    }
}

} // verus!
