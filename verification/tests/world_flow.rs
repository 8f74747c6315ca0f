//! End-to-end flows through the world, mirroring the store's original
//! exercises: bulk insertion and reads, growing both tables, and
//! random removal with reinsertion.

use dumbledore::component::{Bundle, BundlePart, ComponentInfo};
use dumbledore::entity::Entity;
use dumbledore::world::{World, WorldError};

const POSITION_ID: u64 = 1;
const HEALTH_ID: u64 = 2;
const PLAYER_ARCHETYPE: u32 = 0;

fn pair_bytes(a: f32, b: f32) -> Vec<u8> {
    let mut v = Vec::new();
    v.extend_from_slice(&a.to_le_bytes());
    v.extend_from_slice(&b.to_le_bytes());
    v
}

fn player(x: f32, y: f32, health: f32, food: f32) -> Bundle {
    Bundle {
        archetype_id: PLAYER_ARCHETYPE,
        parts: vec![
            BundlePart { info: ComponentInfo::new(POSITION_ID, 8), bytes: pair_bytes(x, y) },
            BundlePart { info: ComponentInfo::new(HEALTH_ID, 8), bytes: pair_bytes(health, food) },
        ],
    }
}

fn player_signature() -> Vec<ComponentInfo> {
    vec![ComponentInfo::new(POSITION_ID, 8), ComponentInfo::new(HEALTH_ID, 8)]
}

#[test]
fn lib_test() {
    let mut world = World::new(256);
    world.add_archetype(PLAYER_ARCHETYPE, player_signature(), 256);
    for _ in 0..255 {
        world.add_entity(&player(0.0, 0.0, 100.0, 100.0)).unwrap();
    }
    let mut arch = world.take_archetype(PLAYER_ARCHETYPE).unwrap();
    let now = std::time::Instant::now();

    for _ in 0..2048 {
        for i in 0..255u32 {
            let entity = world.get_entities().get_location(i).unwrap();
            let index = entity.index;
            let refs = arch
                .get_comp_many(index, &vec![POSITION_ID, HEALTH_ID])
                .unwrap()
                .unwrap();
            for r in refs {
                arch.release_shared(r);
            }
        }
    }
    println!("Finished in: {}", now.elapsed().as_millis());
    world.push_archetype(PLAYER_ARCHETYPE, arch);
}

#[test]
fn lib_entities_realloc() {
    let mut world = World::new(256);
    world.add_archetype(PLAYER_ARCHETYPE, player_signature(), 256);
    for _ in 0..1024 {
        if !world.get_entities().entities_left() {
            world.increase_entities(Some(256)).unwrap();
        }
        if let Err(error) = world.add_entity(&player(0.0, 0.0, 100.0, 100.0)) {
            match error {
                WorldError::TooManyEntitiesInArchetype => {
                    let option = world.take_archetype(PLAYER_ARCHETYPE).unwrap();
                    let archetype = match option.resize(Some(256)) {
                        Ok(a) => a,
                        Err(_) => panic!("resize must succeed with no borrows out"),
                    };
                    world.push_archetype(PLAYER_ARCHETYPE, archetype);
                    world.add_entity(&player(0.0, 0.0, 100.0, 100.0)).unwrap();
                },
                _ => panic!("unexpected error"),
            }
        }
    }
    let mut arch = world.take_archetype(PLAYER_ARCHETYPE).unwrap();

    for _ in 0..2048 {
        for i in 0..1024u32 {
            let entity = world.get_entities().get_location(i).unwrap();
            let index = entity.index;
            let refs = arch
                .get_comp_many(index, &vec![POSITION_ID, HEALTH_ID])
                .unwrap()
                .unwrap();
            for r in refs {
                arch.release_shared(r);
            }
        }
    }
    world.push_archetype(PLAYER_ARCHETYPE, arch);
}

#[test]
fn lib_random_delete_an_add() {
    let mut world = World::new(256);
    world.add_archetype(PLAYER_ARCHETYPE, player_signature(), 256);
    for _ in 0..1024 {
        if !world.get_entities().entities_left() {
            world.increase_entities(Some(256)).unwrap();
        }
        if let Err(error) = world.add_entity(&player(0.0, 0.0, 100.0, 100.0)) {
            match error {
                WorldError::TooManyEntitiesInArchetype => {
                    let option = world.take_archetype(PLAYER_ARCHETYPE).unwrap();
                    let archetype = match option.resize(Some(256)) {
                        Ok(a) => a,
                        Err(_) => panic!("resize must succeed with no borrows out"),
                    };
                    world.push_archetype(PLAYER_ARCHETYPE, archetype);
                    world.add_entity(&player(0.0, 0.0, 100.0, 100.0)).unwrap();
                },
                _ => panic!("unexpected error"),
            }
        }
    }
    for _ in 0..256 {
        let random1: u8 = rand::random();
        let entity = Entity::from(random1 as u32);

        world.remove_entity(entity);

        let (entity, id) = world
            .add_entity(&player(0.0, 0.0, 100.0, 50.0))
            .unwrap();

        assert_eq!(entity.id, random1 as u32);

        let mut arch = world.take_archetype(PLAYER_ARCHETYPE).unwrap();
        match arch.get_comp(id.index, HEALTH_ID) {
            Err(_) => {
                println!(" {:?}", id);
                println!(" {:?}", entity);
            },
            Ok(Some(h)) => arch.release_shared(h),
            Ok(None) => {},
        }
        world.push_archetype(PLAYER_ARCHETYPE, arch);
    }
}

#[test]
fn directory_full_and_locked_errors() {
    let mut world = World::new(1);
    world.add_archetype(PLAYER_ARCHETYPE, player_signature(), 4);
    world.add_entity(&player(0.0, 0.0, 1.0, 1.0)).unwrap();
    let err = world.add_entity(&player(0.0, 0.0, 1.0, 1.0)).unwrap_err();
    assert_eq!(err, WorldError::TooManyEntitiesInWorld);

    world.increase_entities(Some(1)).unwrap();
    world.add_entity(&player(0.0, 0.0, 1.0, 1.0)).unwrap();
}

#[test]
fn missing_archetype_is_reported() {
    let mut world = World::new(8);
    let err = world.add_entity(&player(0.0, 0.0, 1.0, 1.0)).unwrap_err();
    assert_eq!(err, WorldError::ArchetypeNotFound);

    world.add_archetype(PLAYER_ARCHETYPE, player_signature(), 4);
    let taken = world.take_archetype(PLAYER_ARCHETYPE).unwrap();
    let err = world.add_entity(&player(0.0, 0.0, 1.0, 1.0)).unwrap_err();
    assert_eq!(err, WorldError::ArchetypeNotFound);
    world.push_archetype(PLAYER_ARCHETYPE, taken);
    world.add_entity(&player(0.0, 0.0, 1.0, 1.0)).unwrap();
}

#[test]
fn remove_entity_commits_directory_free() {
    let mut world = World::new(8);
    world.add_archetype(PLAYER_ARCHETYPE, player_signature(), 4);
    let (e, loc) = world.add_entity(&player(3.0, 4.0, 5.0, 6.0)).unwrap();

    assert!(world.remove_entity(e));
    assert_eq!(world.get_entities().get_entity(&e), None);

    // The freed id and the freed slab row are both recycled.
    let (e2, loc2) = world.add_entity(&player(7.0, 8.0, 9.0, 10.0)).unwrap();
    assert_eq!(e2.id, e.id);
    assert_eq!(e2.generation, 2);
    assert_eq!(loc2.index, loc.index);
}
