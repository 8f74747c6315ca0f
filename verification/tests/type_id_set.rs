//! The sorted type-id map used for column lookup.

use dumbledore::sets::TypeIdSet;

#[test]
fn new_sorts_by_key() {
    let set = TypeIdSet::new(vec![(30u64, "c"), (10u64, "a"), (20u64, "b")]);
    let keys: Vec<u64> = set.0.iter().map(|p| p.0).collect();
    assert_eq!(keys, vec![10, 20, 30]);
}

#[test]
fn search_finds_each_key() {
    let set = TypeIdSet::new(vec![(7u64, 70u32), (3u64, 30u32), (5u64, 50u32), (1u64, 10u32)]);
    assert_eq!(set.search(1), Some(0));
    assert_eq!(set.search(3), Some(1));
    assert_eq!(set.search(5), Some(2));
    assert_eq!(set.search(7), Some(3));
    assert_eq!(set.search(2), None);
    assert_eq!(set.search(8), None);
}

#[test]
fn get_returns_the_payload() {
    let set = TypeIdSet::new(vec![(9u64, (4usize, 1u32)), (2u64, (0usize, 0u32))]);
    assert_eq!(set.get(2), Some(&(0usize, 0u32)));
    assert_eq!(set.get(9), Some(&(4usize, 1u32)));
    assert_eq!(set.get(5), None);
}

#[test]
fn empty_set_finds_nothing() {
    let set: TypeIdSet<u32> = TypeIdSet::new(Vec::new());
    assert_eq!(set.search(0), None);
    assert_eq!(set.get(0), None);
}
