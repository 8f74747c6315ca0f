//! Borrow-byte and slot-lock behaviour of one archetype slab.

use dumbledore::component::{Bundle, BundlePart, ComponentInfo};
use dumbledore::world::{World, WorldError};

const POSITION_ID: u64 = 1;
const HEALTH_ID: u64 = 2;
const ARCHETYPE_ID: u32 = 7;

fn position_bytes(x: f32, y: f32) -> Vec<u8> {
    let mut v = Vec::new();
    v.extend_from_slice(&x.to_le_bytes());
    v.extend_from_slice(&y.to_le_bytes());
    v
}

fn health_bytes(health: f32, food: f32) -> Vec<u8> {
    let mut v = Vec::new();
    v.extend_from_slice(&health.to_le_bytes());
    v.extend_from_slice(&food.to_le_bytes());
    v
}

fn player_bundle(x: f32, y: f32, health: f32, food: f32) -> Bundle {
    Bundle {
        archetype_id: ARCHETYPE_ID,
        parts: vec![
            BundlePart { info: ComponentInfo::new(POSITION_ID, 8), bytes: position_bytes(x, y) },
            BundlePart { info: ComponentInfo::new(HEALTH_ID, 8), bytes: health_bytes(health, food) },
        ],
    }
}

fn signature() -> Vec<ComponentInfo> {
    vec![ComponentInfo::new(POSITION_ID, 8), ComponentInfo::new(HEALTH_ID, 8)]
}

fn world_with_slab(capacity: usize) -> World {
    let mut world = World::new(256);
    world.add_archetype(ARCHETYPE_ID, signature(), capacity);
    world
}

#[test]
fn register_insert_read() {
    let mut world = world_with_slab(4);
    for i in 0..3u32 {
        let bundle = player_bundle(i as f32, -(i as f32), 100.0 + i as f32, 50.0);
        let (entity, loc) = world.add_entity(&bundle).unwrap();
        assert_eq!(entity.id, i);
        assert_eq!(loc.archetype, ARCHETYPE_ID);
        assert_eq!(loc.index, i);
    }
    let mut arch = world.take_archetype(ARCHETYPE_ID).unwrap();
    for i in 0..3u32 {
        let p = arch.get_comp(i, POSITION_ID).unwrap().unwrap();
        assert_eq!(p.value, position_bytes(i as f32, -(i as f32)));
        let h = arch.get_comp(i, HEALTH_ID).unwrap().unwrap();
        assert_eq!(h.value, health_bytes(100.0 + i as f32, 50.0));
        arch.release_shared(p);
        arch.release_shared(h);
    }
    world.push_archetype(ARCHETYPE_ID, arch);
}

#[test]
fn exclusive_locks_out_shared() {
    let mut world = world_with_slab(4);
    world.add_entity(&player_bundle(1.0, 2.0, 3.0, 4.0)).unwrap();
    let mut arch = world.take_archetype(ARCHETYPE_ID).unwrap();

    let exclusive = arch.get_comp_mut(0, POSITION_ID).unwrap().unwrap();
    assert!(arch.get_comp(0, POSITION_ID).unwrap().is_none());
    let other = arch.get_comp(0, HEALTH_ID).unwrap().unwrap();
    arch.release_shared(other);
    arch.release_exclusive(exclusive);
    let shared = arch.get_comp(0, POSITION_ID).unwrap().unwrap();
    arch.release_shared(shared);
}

#[test]
fn exclusive_write_back() {
    let mut world = world_with_slab(4);
    world.add_entity(&player_bundle(1.0, 2.0, 3.0, 4.0)).unwrap();
    let mut arch = world.take_archetype(ARCHETYPE_ID).unwrap();

    let mut exclusive = arch.get_comp_mut(0, POSITION_ID).unwrap().unwrap();
    *exclusive.as_mut() = position_bytes(9.0, 8.0);
    arch.release_exclusive(exclusive);

    let shared = arch.get_comp(0, POSITION_ID).unwrap().unwrap();
    assert_eq!(shared.value, position_bytes(9.0, 8.0));
    arch.release_shared(shared);
    // The other column is untouched by the write-back.
    let h = arch.get_comp(0, HEALTH_ID).unwrap().unwrap();
    assert_eq!(h.value, health_bytes(3.0, 4.0));
    arch.release_shared(h);
}

#[test]
fn saturation() {
    let mut world = world_with_slab(4);
    world.add_entity(&player_bundle(0.0, 0.0, 1.0, 1.0)).unwrap();
    let mut arch = world.take_archetype(ARCHETYPE_ID).unwrap();

    let mut handles = Vec::new();
    let mut refused = 0usize;
    for _ in 0..260 {
        match arch.get_comp(0, POSITION_ID).unwrap() {
            Some(h) => handles.push(h),
            None => refused += 1,
        }
    }
    assert_eq!(handles.len(), 254);
    assert_eq!(refused, 6);
    assert_eq!(arch.0.entity_data[0].anti_racey_bytes[0], 254);
    for h in handles {
        arch.release_shared(h);
    }
    assert_eq!(arch.0.entity_data[0].anti_racey_bytes[0], 0);
    let m = arch.get_comp_mut(0, POSITION_ID).unwrap().unwrap();
    assert_eq!(arch.0.entity_data[0].anti_racey_bytes[0], 255);
    arch.release_exclusive(m);
}

#[test]
fn shared_release_restores_byte() {
    let mut world = world_with_slab(4);
    world.add_entity(&player_bundle(0.0, 0.0, 1.0, 1.0)).unwrap();
    let mut arch = world.take_archetype(ARCHETYPE_ID).unwrap();

    let before = arch.0.entity_data[0].anti_racey_bytes[1];
    let h = arch.get_comp(0, HEALTH_ID).unwrap().unwrap();
    assert_eq!(arch.0.entity_data[0].anti_racey_bytes[1], before + 1);
    arch.release_shared(h);
    assert_eq!(arch.0.entity_data[0].anti_racey_bytes[1], before);
}

#[test]
fn failed_composite_borrow_rolls_back() {
    let mut world = world_with_slab(4);
    world.add_entity(&player_bundle(0.0, 0.0, 1.0, 1.0)).unwrap();
    let mut arch = world.take_archetype(ARCHETYPE_ID).unwrap();

    // Saturate the position column.
    let mut handles = Vec::new();
    for _ in 0..254 {
        handles.push(arch.get_comp(0, POSITION_ID).unwrap().unwrap());
    }
    // Take one shared borrow on health so its byte is distinctive.
    let h = arch.get_comp(0, HEALTH_ID).unwrap().unwrap();
    assert_eq!(arch.0.entity_data[0].anti_racey_bytes[1], 1);

    // Health first in the request: it is acquired, then position fails,
    // and the acquisition must be undone.
    let r = arch.get_comp_many(0, &vec![HEALTH_ID, POSITION_ID]).unwrap();
    assert!(r.is_none());
    assert_eq!(arch.0.entity_data[0].anti_racey_bytes[0], 254);
    assert_eq!(arch.0.entity_data[0].anti_racey_bytes[1], 1);

    // A composite naming an unknown component also leaves bytes alone.
    let r = arch.get_comp_many(0, &vec![HEALTH_ID, 99]).unwrap();
    assert!(r.is_none());
    assert_eq!(arch.0.entity_data[0].anti_racey_bytes[1], 1);

    arch.release_shared(h);
    for h in handles {
        arch.release_shared(h);
    }
    let r = arch.get_comp_many(0, &vec![HEALTH_ID, POSITION_ID]).unwrap().unwrap();
    assert_eq!(r.len(), 2);
    assert_eq!(r[0].value, health_bytes(1.0, 1.0));
    assert_eq!(r[1].value, position_bytes(0.0, 0.0));
    for h in r {
        arch.release_shared(h);
    }
}

#[test]
fn borrow_past_len_reads_none() {
    let mut world = world_with_slab(4);
    world.add_entity(&player_bundle(0.0, 0.0, 1.0, 1.0)).unwrap();
    let mut arch = world.take_archetype(ARCHETYPE_ID).unwrap();
    assert!(arch.get_comp(1, POSITION_ID).unwrap().is_none());
    assert!(arch.get_comp(7, POSITION_ID).unwrap().is_none());
    assert!(arch.get_comp_mut(2, HEALTH_ID).unwrap().is_none());
}

#[test]
fn unknown_component_reads_none() {
    let mut world = world_with_slab(4);
    world.add_entity(&player_bundle(0.0, 0.0, 1.0, 1.0)).unwrap();
    let mut arch = world.take_archetype(ARCHETYPE_ID).unwrap();
    assert!(arch.get_comp(0, 99).unwrap().is_none());
}

#[test]
fn insert_into_full_slab_is_refused() {
    let mut world = world_with_slab(0);
    let err = world.add_entity(&player_bundle(0.0, 0.0, 1.0, 1.0)).unwrap_err();
    assert_eq!(err, WorldError::TooManyEntitiesInArchetype);

    let arch = world.take_archetype(ARCHETYPE_ID).unwrap();
    assert!(!arch.entities_left());
    world.push_archetype(ARCHETYPE_ID, arch);
}

#[test]
fn free_list_recycles_lifo() {
    let mut world = world_with_slab(4);
    for i in 0..3u32 {
        world.add_entity(&player_bundle(i as f32, 0.0, 1.0, 1.0)).unwrap();
    }
    let mut arch = world.take_archetype(ARCHETYPE_ID).unwrap();
    assert!(arch.remove(1).is_ok());
    let bundle = player_bundle(9.0, 9.0, 9.0, 9.0);
    let slot = arch.add_entity(77, &bundle);
    assert_eq!(slot, 1);
    world.push_archetype(ARCHETYPE_ID, arch);
}

#[test]
fn remove_busy_row_leaves_it_locking() {
    let mut world = world_with_slab(4);
    world.add_entity(&player_bundle(0.0, 0.0, 1.0, 1.0)).unwrap();
    let mut arch = world.take_archetype(ARCHETYPE_ID).unwrap();

    let h = arch.get_comp(0, POSITION_ID).unwrap().unwrap();
    assert!(arch.remove(0).is_err());
    assert!(arch.0.entity_data[0].is_locking());
    // Further borrows answer busy while the row is locking.
    assert!(arch.get_comp(0, HEALTH_ID).is_err());
    arch.release_shared(h);
}

#[test]
fn remove_is_idempotent_on_vacant_rows() {
    let mut world = world_with_slab(4);
    world.add_entity(&player_bundle(0.0, 0.0, 1.0, 1.0)).unwrap();
    let mut arch = world.take_archetype(ARCHETYPE_ID).unwrap();

    assert!(arch.remove(0).is_ok());
    let free_entries = arch.0.free_list.len();
    // A second attempt sees the vacant row, drops nothing and frees
    // nothing a second time.
    assert!(arch.remove(0).is_ok());
    assert_eq!(arch.0.free_list.len(), free_entries);
    assert!(arch.0.entity_data[0].is_unlocked());
}

#[test]
fn resize_with_quiescence() {
    let mut world = world_with_slab(4);
    for i in 0..4u32 {
        world.add_entity(&player_bundle(i as f32, 2.0 * i as f32, 1.0, 1.0)).unwrap();
    }
    let arch = world.take_archetype(ARCHETYPE_ID).unwrap();
    let mut arch = match arch.resize(Some(4)) {
        Ok(a) => a,
        Err(_) => panic!("resize must succeed with no borrows out"),
    };
    assert_eq!(arch.0.entity_data.len(), 8);
    for i in 0..4u32 {
        let p = arch.get_comp(i, POSITION_ID).unwrap().unwrap();
        assert_eq!(p.value, position_bytes(i as f32, 2.0 * i as f32));
        arch.release_shared(p);
    }
    world.push_archetype(ARCHETYPE_ID, arch);
}

#[test]
fn resize_blocked_by_outstanding_borrow() {
    let mut world = world_with_slab(4);
    for i in 0..4u32 {
        world.add_entity(&player_bundle(i as f32, 0.0, 1.0, 1.0)).unwrap();
    }
    let mut arch = world.take_archetype(ARCHETYPE_ID).unwrap();
    let h = arch.get_comp(2, POSITION_ID).unwrap().unwrap();

    let mut arch = match arch.resize(Some(4)) {
        Err(a) => a,
        Ok(_) => panic!("resize must be refused while a borrow is out"),
    };
    for i in 0..4usize {
        assert!(arch.0.entity_data[i].is_locking());
    }
    assert!(arch.get_comp(0, POSITION_ID).is_err());
    assert!(arch.get_comp(3, HEALTH_ID).is_err());

    arch.release_shared(h);
    let arch = match arch.resize(Some(4)) {
        Ok(a) => a,
        Err(_) => panic!("resize must succeed once the borrow is back"),
    };
    assert_eq!(arch.0.entity_data.len(), 8);
    world.push_archetype(ARCHETYPE_ID, arch);
}

#[test]
fn failed_composite_exclusive_rolls_back() {
    let mut world = world_with_slab(4);
    world.add_entity(&player_bundle(0.0, 0.0, 1.0, 1.0)).unwrap();
    let mut arch = world.take_archetype(ARCHETYPE_ID).unwrap();

    let h = arch.get_comp(0, HEALTH_ID).unwrap().unwrap();
    // Position (column 0) is acquired first, then health refuses; the
    // writer mark on position must be cleared again.
    let r = arch.get_comp_many_mut(0, &vec![POSITION_ID, HEALTH_ID]).unwrap();
    assert!(r.is_none());
    assert_eq!(arch.0.entity_data[0].anti_racey_bytes[0], 0);
    assert_eq!(arch.0.entity_data[0].anti_racey_bytes[1], 1);
    arch.release_shared(h);

    let mut refs = arch.get_comp_many_mut(0, &vec![POSITION_ID, HEALTH_ID]).unwrap().unwrap();
    assert_eq!(arch.0.entity_data[0].anti_racey_bytes[0], 255);
    assert_eq!(arch.0.entity_data[0].anti_racey_bytes[1], 255);
    let mut health = refs.pop().unwrap();
    let position = refs.pop().unwrap();
    *health.as_mut() = health_bytes(70.0, 60.0);
    arch.release_exclusive(health);
    arch.release_exclusive(position);

    let h = arch.get_comp(0, HEALTH_ID).unwrap().unwrap();
    assert_eq!(h.value, health_bytes(70.0, 60.0));
    arch.release_shared(h);
}
