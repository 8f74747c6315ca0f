//! The entity directory: a generational table mapping stable entity ids
//! to archetype locations, with a free list of recycled ids.
//!
//! Every slot carries a generation that is bumped (skipping zero) each
//! time the slot is freed, so a stale id handle can be told from the
//! current one. The directory is grown by building a larger copy while
//! the old one stands locked.

use vstd::prelude::*;

use crate::entity::{Entity, EntityLocation, EntityMeta};
use crate::queue::{queue_new, queue_pop, queue_push, queue_view};
use crate::world::WorldError;

verus! {

/// A sequence of distinct values below `n` cannot be longer than `n`.
proof fn lemma_distinct_bounded(s: Seq<usize>, n: int)
    requires
        n >= 0,
        forall|k1: int, k2: int| 0 <= k1 < k2 < s.len() ==> s[k1] != s[k2],
        forall|k: int| 0 <= k < s.len() ==> (#[trigger] s[k]) < n,
    ensures
        s.len() <= n,
{
    let f = |v: usize| v as int;
    let m = s.map_values(f);
    assert(m.no_duplicates()) by {
        assert forall|k1: int, k2: int| 0 <= k1 < k2 < m.len() implies m[k1] != m[k2] by {
            assert(s[k1] != s[k2]);
        }
    }
    m.unique_seq_to_set();
    assert(m.to_set().subset_of(vstd::set_lib::set_int_range(0, n))) by {
        assert forall|x: int| m.to_set().contains(x) implies vstd::set_lib::set_int_range(
            0,
            n,
        ).contains(x) by {
            let k = choose|k: int| 0 <= k < m.len() && m[k] == x;
            assert(s[k] < n);
        }
    }
    vstd::set_lib::lemma_int_range(0, n);
    vstd::set_lib::lemma_len_subset(m.to_set(), vstd::set_lib::set_int_range(0, n));
}

/// The inner state of the directory: the metadata table, the monotonic
/// length cursor, the free list of recycled ids, and the lock flag set
/// while the directory is being grown. `free_len` mirrors the length of
/// the free queue, which the queue itself cannot report.
pub struct EntitySetInner {
    /// Per-id metadata, one slot per allocatable id.
    pub entities: Vec<EntityMeta>,
    /// Ids at or past this cursor have never been allocated.
    pub length: u32,
    /// Previously freed ids, reused front-first.
    pub free_list: lockfree::queue::Queue<usize>,
    /// Set while the directory is being reallocated; mutations and reads
    /// must be refused by the callers that see it.
    pub locked: bool,
    /// Number of ids in `free_list`.
    pub free_len: u32,
}

/// The next generation after `g`: incremented, wrapping past zero.
pub open spec fn next_generation(g: u32) -> u32 {
    if g == u32::MAX {
        1u32
    } else {
        (g + 1) as u32
    }
}

impl EntitySetInner {
    pub open spec fn qv(&self) -> Seq<usize> {
        queue_view(self.free_list)
    }

    pub open spec fn capacity(&self) -> int {
        self.entities@.len() as int
    }

    /// Well-formedness: generations are never zero, the cursor is in
    /// range, the free list holds distinct already-allocated ids that are
    /// all out of use, and `free_len` counts it exactly.
    pub open spec fn wf(&self) -> bool {
        &&& self.entities@.len() <= u32::MAX
        &&& self.length <= self.entities@.len()
        &&& forall|i: int|
            0 <= i < self.entities@.len() ==> (#[trigger] self.entities@[i]).wf()
        &&& forall|i: int|
            self.length <= i < self.entities@.len() ==> !(#[trigger] self.entities@[i]).in_use
        &&& forall|k: int| 0 <= k < self.qv().len() ==> (#[trigger] self.qv()[k]) < self.length
        &&& forall|k1: int, k2: int|
            0 <= k1 < k2 < self.qv().len() ==> self.qv()[k1] != self.qv()[k2]
        &&& forall|k: int|
            0 <= k < self.qv().len() ==> !self.entities@[#[trigger] self.qv()[k] as int].in_use
        &&& self.free_len == self.qv().len()
    }

    /// Builds a directory with `capacity` fresh slots at generation one.
    pub fn new(capacity: u32) -> (r: EntitySetInner)
        ensures
            r.wf(),
            r.capacity() == capacity,
            r.length == 0,
            r.qv().len() == 0,
            r.free_len == 0,
            !r.locked,
            forall|i: int|
                0 <= i < capacity ==> #[trigger] r.entities@[i] == (EntityMeta {
                    generation: 1u32,
                    in_use: false,
                    location: EntityLocation { archetype: 0u32, index: 0u32 },
                }),
    {
        let mut entities: Vec<EntityMeta> = Vec::new();
        let mut i: u32 = 0;
        while i < capacity
            invariant
                i <= capacity,
                entities@.len() == i,
                forall|m: int|
                    0 <= m < i ==> #[trigger] entities@[m] == (EntityMeta {
                        generation: 1u32,
                        in_use: false,
                        location: EntityLocation { archetype: 0u32, index: 0u32 },
                    }),
            decreases capacity - i,
        {
            entities.push(
                EntityMeta {
                    generation: 1,
                    in_use: false,
                    location: EntityLocation { archetype: 0, index: 0 },
                },
            );
            i += 1;
        }
        EntitySetInner { entities, length: 0, free_list: queue_new(), locked: false, free_len: 0 }
    }

    /// Builds a directory `increase` slots larger: the same metadata in
    /// the same slots, the same free list in the same order, fresh slots
    /// at the tail. The old directory is left exactly as it was — its
    /// free queue is cycled front to back and comes out in its original
    /// order — so readers holding the old, locked directory keep a
    /// consistent frozen snapshot until they refresh.
    pub fn reallocate(&mut self, increase: u32) -> (r: EntitySetInner)
        requires
            old(self).wf(),
            old(self).entities@.len() + increase <= u32::MAX,
        ensures
            r.wf(),
            r.capacity() == old(self).capacity() + increase,
            r.length == old(self).length,
            !r.locked,
            r.free_len == old(self).free_len,
            r.qv() == old(self).qv(),
            forall|i: int|
                0 <= i < old(self).capacity() ==> #[trigger] r.entities@[i] == old(
                    self,
                ).entities@[i],
            forall|i: int|
                old(self).capacity() <= i < r.capacity() ==> #[trigger] r.entities@[i] == (
                EntityMeta {
                    generation: 1u32,
                    in_use: false,
                    location: EntityLocation { archetype: 0u32, index: 0u32 },
                }),
            final(self).wf(),
            final(self).qv() == old(self).qv(),
            final(self).entities@ == old(self).entities@,
            final(self).length == old(self).length,
            final(self).locked == old(self).locked,
            final(self).free_len == old(self).free_len,
    {
        let old_cap = self.entities.len();
        let new_cap = old_cap + increase as usize;
        let mut entities: Vec<EntityMeta> = Vec::new();
        let mut i: usize = 0;
        while i < old_cap
            invariant
                i <= old_cap,
                old_cap == self.entities@.len(),
                *self == *old(self),
                entities@.len() == i,
                forall|m: int| 0 <= m < i ==> #[trigger] entities@[m] == self.entities@[m],
            decreases old_cap - i,
        {
            entities.push(self.entities[i]);
            i += 1;
        }
        while i < new_cap
            invariant
                old_cap <= i <= new_cap,
                *self == *old(self),
                old_cap == self.entities@.len(),
                entities@.len() == i,
                forall|m: int| 0 <= m < old_cap ==> #[trigger] entities@[m] == self.entities@[m],
                forall|m: int|
                    old_cap <= m < i ==> #[trigger] entities@[m] == (EntityMeta {
                        generation: 1u32,
                        in_use: false,
                        location: EntityLocation { archetype: 0u32, index: 0u32 },
                    }),
            decreases new_cap - i,
        {
            entities.push(
                EntityMeta {
                    generation: 1,
                    in_use: false,
                    location: EntityLocation { archetype: 0, index: 0 },
                },
            );
            i += 1;
        }
        let mut new_free = queue_new();
        let ghost oldq = self.qv();
        let total = self.free_len;
        let mut moved: u32 = 0;
        while moved < total
            invariant
                old(self).wf(),
                oldq == old(self).qv(),
                total == old(self).free_len,
                oldq.len() == total,
                moved <= total,
                queue_view(new_free) == oldq.take(moved as int),
                self.qv() == oldq.skip(moved as int) + oldq.take(moved as int),
                self.entities@ == old(self).entities@,
                self.length == old(self).length,
                self.locked == old(self).locked,
                self.free_len == old(self).free_len,
            decreases total - moved,
        {
            let ghost before = self.qv();
            proof {
                assert(before.len() == oldq.len());
                assert(before[0] == oldq[moved as int]) by {
                    assert(oldq.skip(moved as int)[0] == oldq[moved as int]);
                }
            }
            match queue_pop(&mut self.free_list) {
                None => {
                    proof {
                        assert(false);
                    }
                },
                Some(v) => {
                    queue_push(&mut new_free, v);
                    queue_push(&mut self.free_list, v);
                    proof {
                        assert(queue_view(new_free) =~= oldq.take(moved as int + 1));
                        assert(self.qv() =~= oldq.skip(moved as int + 1) + oldq.take(
                            moved as int + 1,
                        ));
                    }
                    moved += 1;
                },
            }
        }
        proof {
            assert(self.qv() =~= oldq);
        }
        let r = EntitySetInner {
            entities,
            length: self.length,
            free_list: new_free,
            locked: false,
            free_len: self.free_len,
        };
        proof {
            assert forall|k: int| 0 <= k < r.qv().len() implies !r.entities@[
                #[trigger] r.qv()[k] as int
            ].in_use by {
                assert(r.entities@[r.qv()[k] as int] == old(self).entities@[r.qv()[k] as int]);
            }
            assert(r.wf());
        }
        r
    }
}

/// The directory as handed around by the world.
pub struct EntitySet(pub EntitySetInner);

/// What `get_location` returns on a directory state.
pub open spec fn spec_read_location(s: EntitySetInner, entity: u32) -> Option<EntityLocation> {
    if entity as int >= s.entities@.len() {
        Option::None
    } else {
        Option::Some(s.entities@[entity as int].location)
    }
}

/// What `get_entity` returns on a directory state: the in-use check
/// succeeds on a generation match only, so a stale id reads as absent.
pub open spec fn spec_read_entity(s: EntitySetInner, entity: Entity) -> Option<
    (Entity, EntityLocation),
> {
    if entity.id as int >= s.entities@.len() {
        Option::None
    } else if !s.entities@[entity.id as int].in_use {
        Option::None
    } else if s.entities@[entity.id as int].generation != entity.generation {
        Option::None
    } else {
        Option::Some(
            (
                Entity { generation: s.entities@[entity.id as int].generation, id: entity.id },
                s.entities@[entity.id as int].location,
            ),
        )
    }
}

/// `b` is `a` after allocating the id of `e`: the front of the free list
/// is reused, else the cursor is bumped; the slot is marked in use and
/// keeps its generation, which the returned id carries.
pub open spec fn alloc_post(a: EntitySetInner, b: EntitySetInner, e: Entity) -> bool {
    &&& 0 <= (e.id as int) < a.entities@.len()
    &&& b.locked == a.locked
    &&& if a.qv().len() > 0 {
        e.id as int == a.qv().first() && b.qv() == a.qv().drop_first() && b.free_len == a.free_len
            - 1 && b.length == a.length
    } else {
        e.id == a.length && b.qv() == a.qv() && b.free_len == a.free_len && b.length == a.length
            + 1
    }
    &&& e.generation == a.entities@[e.id as int].generation
    &&& b.entities@ == a.entities@.update(
        e.id as int,
        (EntityMeta { in_use: true, ..a.entities@[e.id as int] }),
    )
}

/// `b` is `a` after freeing id `id`: the slot's location is cleared, its
/// generation bumped (skipping zero), the in-use flag dropped, and the id
/// pushed onto the free list.
pub open spec fn free_post(a: EntitySetInner, b: EntitySetInner, id: u32) -> bool {
    &&& 0 <= (id as int) < a.entities@.len()
    &&& b.locked == a.locked
    &&& b.length == a.length
    &&& b.qv() == a.qv().push(id as usize)
    &&& b.free_len == a.free_len + 1
    &&& b.entities@ == a.entities@.update(
        id as int,
        (EntityMeta {
            generation: next_generation(a.entities@[id as int].generation),
            in_use: false,
            location: EntityLocation { archetype: 0u32, index: 0u32 },
        }),
    )
}

impl EntitySet {
    pub open spec fn wf(&self) -> bool {
        self.0.wf()
    }

    pub fn is_locked(&self) -> (r: bool)
        ensures
            r == self.0.locked,
    {
        self.0.locked
    }

    /// True iff at least one more id can be allocated: the cursor has not
    /// reached the capacity or a freed id awaits reuse.
    pub open spec fn spec_entities_left(&self) -> bool {
        (self.0.length as int) < self.0.capacity() || self.0.free_len > 0
    }

    pub fn entities_left(&self) -> (r: bool)
        ensures
            r == self.spec_entities_left(),
    {
        (self.0.length as usize) < self.0.entities.len() || self.0.free_len > 0
    }

    /// Allocates an id: the front of the free list if one is queued, else
    /// the next never-used slot. The slot is marked in use; the returned
    /// id carries the slot's current generation.
    pub fn allocate(&mut self) -> (e: Entity)
        requires
            old(self).wf(),
            !old(self).0.locked,
            old(self).spec_entities_left(),
        ensures
            final(self).wf(),
            e.wf(),
            alloc_post(old(self).0, final(self).0, e),
    {
        let id: usize = if self.0.free_len > 0 {
            proof {
                assert(self.0.qv().len() > 0);
            }
            match queue_pop(&mut self.0.free_list) {
                Some(v) => {
                    self.0.free_len = self.0.free_len - 1;
                    v
                },
                None => {
                    proof {
                        assert(false);
                    }
                    0
                },
            }
        } else {
            let v = self.0.length;
            self.0.length = v + 1;
            v as usize
        };
        self.0.entities[id].in_use = true;
        let generation = self.0.entities[id].generation;
        proof {
            let a = old(self).0;
            let b = self.0;
            if a.qv().len() > 0 {
                assert forall|k1: int, k2: int|
                    0 <= k1 < k2 < b.qv().len() implies b.qv()[k1] != b.qv()[k2] by {
                    assert(a.qv()[k1 + 1] != a.qv()[k2 + 1]);
                }
                assert forall|k: int| 0 <= k < b.qv().len() implies !b.entities@[
                    #[trigger] b.qv()[k] as int
                ].in_use by {
                    assert(a.qv()[k + 1] != a.qv()[0]);
                    assert(b.qv()[k] == a.qv()[k + 1]);
                }
            }
            assert(b.wf());
        }
        Entity { generation, id: id as u32 }
    }

    /// Records where an entity's row lives. The caller must know the
    /// directory to be unlocked and the id in range; the world checks
    /// both before calling.
    pub fn push_location(&mut self, entity: &Entity, location: EntityLocation)
        requires
            old(self).wf(),
            !old(self).0.locked,
            (entity.id as int) < old(self).0.capacity(),
        ensures
            final(self).wf(),
            final(self).0.entities@ == old(self).0.entities@.update(
                entity.id as int,
                (EntityMeta { location, ..old(self).0.entities@[entity.id as int] }),
            ),
            final(self).0.length == old(self).0.length,
            final(self).0.locked == old(self).0.locked,
            final(self).0.free_len == old(self).0.free_len,
            final(self).0.qv() == old(self).0.qv(),
    {
        let i = entity.id as usize;
        self.0.entities[i].location = location;
        proof {
            assert forall|k: int| 0 <= k < self.0.qv().len() implies !self.0.entities@[
                #[trigger] self.0.qv()[k] as int
            ].in_use by {
                assert(!old(self).0.entities@[self.0.qv()[k] as int].in_use);
            }
        }
    }

    /// Frees an id: clears the slot's location, bumps its generation
    /// (skipping zero), drops the in-use flag, queues the id for reuse,
    /// and returns the slot's prior `(index, archetype)` pair.
    pub fn free(&mut self, id: u32) -> (r: Option<(u32, u32)>)
        requires
            old(self).wf(),
            !old(self).0.locked,
            (id as int) < old(self).0.capacity(),
            old(self).0.entities@[id as int].in_use,
        ensures
            final(self).wf(),
            free_post(old(self).0, final(self).0, id),
            r == Some(
                (
                    old(self).0.entities@[id as int].location.index,
                    old(self).0.entities@[id as int].location.archetype,
                ),
            ),
    {
        let i = id as usize;
        proof {
            assert((id as int) < old(self).0.length) by {
                if id as int >= old(self).0.length {
                    assert(!old(self).0.entities@[id as int].in_use);
                }
            }
            assert(forall|k: int|
                0 <= k < old(self).0.qv().len() ==> (#[trigger] old(self).0.qv()[k]) != id as usize)
                by {
                assert forall|k: int|
                    0 <= k < old(self).0.qv().len() implies (#[trigger] old(self).0.qv()[k])
                    != id as usize by {
                    assert(!old(self).0.entities@[old(self).0.qv()[k] as int].in_use);
                }
            }
            lemma_distinct_bounded(
                old(self).0.qv().push(id as usize),
                old(self).0.length as int,
            );
        }
        let index = self.0.entities[i].location.index;
        let archetype = self.0.entities[i].location.archetype;
        let generation = self.0.entities[i].generation;
        let next_gen: u32 = if generation == u32::MAX {
            1
        } else {
            generation + 1
        };
        self.0.entities[i] = EntityMeta {
            generation: next_gen,
            in_use: false,
            location: EntityLocation { archetype: 0, index: 0 },
        };
        queue_push(&mut self.0.free_list, i);
        self.0.free_len = self.0.free_len + 1;
        proof {
            let a = old(self).0;
            let b = self.0;
            assert forall|k1: int, k2: int|
                0 <= k1 < k2 < b.qv().len() implies b.qv()[k1] != b.qv()[k2] by {
                if k2 < a.qv().len() {
                } else {
                    assert(b.qv()[k2] == id as usize);
                    assert(a.qv()[k1] != id as usize);
                }
            }
            assert forall|k: int| 0 <= k < b.qv().len() implies !b.entities@[
                #[trigger] b.qv()[k] as int
            ].in_use by {
                if k < a.qv().len() {
                    assert(a.qv()[k] != id as usize);
                    assert(!a.entities@[b.qv()[k] as int].in_use);
                }
            }
            assert(b.wf());
        }
        Some((index, archetype))
    }

    /// Reads the location recorded for an id, with a bounds check only.
    pub fn get_location(&self, entity: u32) -> (r: Option<EntityLocation>)
        requires
            self.wf(),
            !self.0.locked,
        ensures
            r == spec_read_location(self.0, entity),
    {
        if entity as usize >= self.0.entities.len() {
            return None;
        }
        Some(self.0.entities[entity as usize].location)
    }

    /// Reads an id's entry, honouring generations: an id whose generation
    /// no longer matches the slot's reads as absent.
    pub fn get_entity(&self, entity: &Entity) -> (r: Option<(Entity, EntityLocation)>)
        requires
            self.wf(),
            !self.0.locked,
        ensures
            r == spec_read_entity(self.0, *entity),
    {
        if entity.id as usize >= self.0.entities.len() {
            return None;
        }
        let meta = &self.0.entities[entity.id as usize];
        if !meta.in_use {
            return None;
        }
        if meta.generation != entity.generation {
            return None;
        }
        Some((Entity { generation: meta.generation, id: entity.id }, meta.location))
    }

    /// As `allocate`, but a locked directory raises `EntitySetLocked`
    /// instead of being the caller's burden to rule out.
    pub fn try_allocate(&mut self) -> (r: Result<Entity, WorldError>)
        requires
            old(self).wf(),
            !old(self).0.locked ==> old(self).spec_entities_left(),
        ensures
            final(self).wf(),
            old(self).0.locked ==> r == Result::<Entity, WorldError>::Err(
                WorldError::EntitySetLocked,
            ) && *final(self) == *old(self),
            !old(self).0.locked ==> (r matches Result::Ok(e) && e.wf() && alloc_post(
                old(self).0,
                final(self).0,
                e,
            )),
    {
        if self.is_locked() {
            return Err(WorldError::EntitySetLocked);
        }
        Ok(self.allocate())
    }

    /// As `push_location`, but a locked directory raises
    /// `EntitySetLocked`: when the directory stands frozen for growth,
    /// writes are refused with the retry signal.
    pub fn try_push_location(&mut self, entity: &Entity, location: EntityLocation) -> (r: Result<
        (),
        WorldError,
    >)
        requires
            old(self).wf(),
            !old(self).0.locked ==> (entity.id as int) < old(self).0.capacity(),
        ensures
            final(self).wf(),
            old(self).0.locked ==> r == Result::<(), WorldError>::Err(WorldError::EntitySetLocked)
                && *final(self) == *old(self),
            !old(self).0.locked ==> r is Ok && final(self).0.entities@ == old(
                self,
            ).0.entities@.update(
                entity.id as int,
                (EntityMeta { location, ..old(self).0.entities@[entity.id as int] }),
            ) && final(self).0.length == old(self).0.length && final(self).0.locked == old(
                self,
            ).0.locked && final(self).0.free_len == old(self).0.free_len && final(self).0.qv()
                == old(self).0.qv(),
    {
        if self.is_locked() {
            return Err(WorldError::EntitySetLocked);
        }
        self.push_location(entity, location);
        Ok(())
    }

    /// As `free`, but a locked directory raises `EntitySetLocked`.
    pub fn try_free(&mut self, id: u32) -> (r: Result<Option<(u32, u32)>, WorldError>)
        requires
            old(self).wf(),
            !old(self).0.locked ==> (id as int) < old(self).0.capacity() && old(
                self,
            ).0.entities@[id as int].in_use,
        ensures
            final(self).wf(),
            old(self).0.locked ==> r == Result::<Option<(u32, u32)>, WorldError>::Err(
                WorldError::EntitySetLocked,
            ) && *final(self) == *old(self),
            !old(self).0.locked ==> free_post(old(self).0, final(self).0, id) && r == Result::<
                Option<(u32, u32)>,
                WorldError,
            >::Ok(
                Some(
                    (
                        old(self).0.entities@[id as int].location.index,
                        old(self).0.entities@[id as int].location.archetype,
                    ),
                ),
            ),
    {
        if self.is_locked() {
            return Err(WorldError::EntitySetLocked);
        }
        Ok(self.free(id))
    }

    /// As `get_location`, but a locked directory raises
    /// `EntitySetLocked`, as the directory's lock semantics ask of every
    /// read.
    pub fn try_get_location(&self, entity: u32) -> (r: Result<Option<EntityLocation>, WorldError>)
        requires
            self.wf(),
        ensures
            self.0.locked ==> r == Result::<Option<EntityLocation>, WorldError>::Err(
                WorldError::EntitySetLocked,
            ),
            !self.0.locked ==> r == Result::<Option<EntityLocation>, WorldError>::Ok(
                spec_read_location(self.0, entity),
            ),
    {
        if self.is_locked() {
            return Err(WorldError::EntitySetLocked);
        }
        Ok(self.get_location(entity))
    }

    /// As `get_entity`, but a locked directory raises `EntitySetLocked`.
    pub fn try_get_entity(&self, entity: &Entity) -> (r: Result<
        Option<(Entity, EntityLocation)>,
        WorldError,
    >)
        requires
            self.wf(),
        ensures
            self.0.locked ==> r == Result::<Option<(Entity, EntityLocation)>, WorldError>::Err(
                WorldError::EntitySetLocked,
            ),
            !self.0.locked ==> r == Result::<Option<(Entity, EntityLocation)>, WorldError>::Ok(
                spec_read_entity(self.0, *entity),
            ),
    {
        if self.is_locked() {
            return Err(WorldError::EntitySetLocked);
        }
        Ok(self.get_entity(entity))
    }
}

/// Writing a location and then reading the same id hands the location
/// back: `write_location(e, L); read_location(e) == Some(L)`.
pub proof fn lemma_push_then_read_location(
    a: EntitySetInner,
    b: EntitySetInner,
    e: Entity,
    loc: EntityLocation,
)
    requires
        (e.id as int) < a.entities@.len(),
        b.entities@ == a.entities@.update(
            e.id as int,
            (EntityMeta { location: loc, ..a.entities@[e.id as int] }),
        ),
    ensures
        spec_read_location(b, e.id) == Some(loc),
{
}

/// Freeing an id strictly increases the slot's generation, as long as
/// the generation counter has not wrapped past its maximum.
pub proof fn lemma_generation_monotonic(a: EntitySetInner, b: EntitySetInner, id: u32)
    requires
        free_post(a, b, id),
        a.entities@[id as int].generation < u32::MAX,
    ensures
        b.entities@[id as int].generation > a.entities@[id as int].generation,
{
}

/// A stale id handle — one whose generation no longer matches its
/// slot — reads as absent, even while the slot backs a newer entity.
pub proof fn lemma_stale_generation_reads_none(s: EntitySetInner, e: Entity)
    requires
        0 <= (e.id as int) < s.entities@.len(),
        s.entities@[e.id as int].generation != e.generation,
    ensures
        spec_read_entity(s, e) is None,
{
}

} // verus!
