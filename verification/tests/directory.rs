//! Generational entity directory behaviour.

use dumbledore::entity::{Entity, EntityLocation};
use dumbledore::entity_set::{EntitySet, EntitySetInner};
use dumbledore::world::WorldError;

#[test]
fn allocate_counts_up() {
    let mut set = EntitySet(EntitySetInner::new(4));
    for i in 0..4u32 {
        assert!(set.entities_left());
        let e = set.allocate();
        assert_eq!(e.id, i);
        assert_eq!(e.generation, 1);
    }
    assert!(!set.entities_left());
}

#[test]
fn write_then_read_location() {
    let mut set = EntitySet(EntitySetInner::new(4));
    let e = set.allocate();
    let loc = EntityLocation { archetype: 9, index: 3 };
    set.push_location(&e, loc);
    assert_eq!(set.get_location(e.id), Some(loc));
    assert_eq!(set.get_location(17), None);
}

#[test]
fn free_returns_prior_location_and_recycles() {
    let mut set = EntitySet(EntitySetInner::new(4));
    let e0 = set.allocate();
    let e1 = set.allocate();
    set.push_location(&e0, EntityLocation { archetype: 5, index: 11 });
    set.push_location(&e1, EntityLocation { archetype: 5, index: 12 });

    assert_eq!(set.free(e0.id), Some((11, 5)));
    assert_eq!(set.free(e1.id), Some((12, 5)));
    // Freed ids are reused front-first: the oldest free id comes back.
    let e2 = set.allocate();
    assert_eq!(e2.id, e0.id);
    let e3 = set.allocate();
    assert_eq!(e3.id, e1.id);
}

#[test]
fn generation_bumps_on_free() {
    let mut set = EntitySet(EntitySetInner::new(4));
    let e0 = set.allocate();
    assert_eq!(e0.generation, 1);
    set.free(e0.id);
    let e1 = set.allocate();
    assert_eq!(e1.id, e0.id);
    assert_eq!(e1.generation, 2);
}

#[test]
fn generational_safety() {
    let mut set = EntitySet(EntitySetInner::new(4));
    let e0 = set.allocate();
    assert_eq!(e0.generation, 1);
    set.push_location(&e0, EntityLocation { archetype: 1, index: 0 });
    set.free(e0.id);
    let e1 = set.allocate();
    assert_eq!(e1.id, e0.id);
    assert_eq!(e1.generation, 2);
    set.push_location(&e1, EntityLocation { archetype: 1, index: 0 });

    // The pre-freed copy of the id reads as absent; the fresh id reads.
    assert_eq!(set.get_entity(&e0), None);
    let (found, _) = set.get_entity(&e1).unwrap();
    assert_eq!(found, e1);
}

#[test]
fn stale_id_of_never_used_slot_reads_none() {
    let set = EntitySet(EntitySetInner::new(4));
    let ghost_of_nothing = Entity::from(2u32);
    assert_eq!(set.get_entity(&ghost_of_nothing), None);
    let out_of_range = Entity::from(9u32);
    assert_eq!(set.get_entity(&out_of_range), None);
}

#[test]
fn reallocate_preserves_metas_and_free_list() {
    let mut inner = EntitySetInner::new(3);
    let mut set = EntitySet(inner);
    let e0 = set.allocate();
    let e1 = set.allocate();
    let e2 = set.allocate();
    set.push_location(&e1, EntityLocation { archetype: 4, index: 2 });
    set.free(e0.id);
    set.free(e2.id);

    inner = set.0.reallocate(3);
    let mut grown = EntitySet(inner);
    assert!(!grown.is_locked());
    assert_eq!(grown.get_location(e1.id), Some(EntityLocation { archetype: 4, index: 2 }));
    // The free list survives the copy in order: e0 then e2, then fresh.
    let a = grown.allocate();
    assert_eq!(a.id, e0.id);
    assert_eq!(a.generation, 2);
    let b = grown.allocate();
    assert_eq!(b.id, e2.id);
    let c = grown.allocate();
    assert_eq!(c.id, 3);
    assert_eq!(c.generation, 1);
}

#[test]
fn locked_directory_raises_entity_set_locked() {
    let mut set = EntitySet(EntitySetInner::new(4));
    let e = match set.try_allocate() {
        Ok(e) => e,
        Err(_) => panic!("unlocked directory must allocate"),
    };
    let loc = EntityLocation { archetype: 3, index: 1 };
    assert_eq!(set.try_push_location(&e, loc), Ok(()));
    assert_eq!(set.try_get_location(e.id), Ok(Some(loc)));
    assert_eq!(set.try_get_entity(&e), Ok(Some((e, loc))));

    set.0.locked = true;
    assert_eq!(set.try_get_location(e.id), Err(WorldError::EntitySetLocked));
    assert_eq!(set.try_get_entity(&e), Err(WorldError::EntitySetLocked));
    assert_eq!(set.try_push_location(&e, loc), Err(WorldError::EntitySetLocked));
    assert_eq!(set.try_free(e.id), Err(WorldError::EntitySetLocked));
    assert!(set.try_allocate().is_err());

    set.0.locked = false;
    assert_eq!(set.try_free(e.id), Ok(Some((1, 3))));
}

#[test]
fn reallocate_leaves_old_directory_intact() {
    let mut set = EntitySet(EntitySetInner::new(3));
    let e0 = set.allocate();
    let e1 = set.allocate();
    let e2 = set.allocate();
    set.push_location(&e1, EntityLocation { archetype: 4, index: 2 });
    set.free(e0.id);
    set.free(e2.id);

    // Growing copies the directory; the frozen original keeps its metas
    // and its free list, in order.
    let _grown = set.0.reallocate(3);
    assert_eq!(set.get_location(e1.id), Some(EntityLocation { archetype: 4, index: 2 }));
    let a = set.allocate();
    assert_eq!(a.id, e0.id);
    assert_eq!(a.generation, 2);
    let b = set.allocate();
    assert_eq!(b.id, e2.id);
}
