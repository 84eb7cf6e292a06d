use bump_allocator::collections::hash_map::SimpleHasher;
use bump_allocator::collections::new_hashmap;
use bump_allocator::collections::HashMap;
use bump_allocator::collections::RandomState;

#[test]
fn hasher_mixes_bytes() {
    let mut h = SimpleHasher::new(0);
    h.write(&[1, 2]);
    assert_eq!(h.finish(), 0x364000002dfc3);
    let mut g = RandomState::new(7).build_hasher();
    g.write(b"ab");
    assert_eq!(g.finish(), 0x15a820001264890);
    let mut e = SimpleHasher::new(9);
    e.write(&[]);
    assert_eq!(e.finish(), 9);
}

#[test]
fn insert_get_and_replace() {
    let mut m: HashMap<&str> = HashMap::new(42);
    assert!(m.is_empty());
    assert_eq!(m.insert(1, "one"), None);
    assert_eq!(m.insert(2, "two"), None);
    assert_eq!(m.get(&1), Some(&"one"));
    assert_eq!(m.get(&3), None);
    assert_eq!(m.insert(1, "uno"), Some("one"));
    assert_eq!(m.get(&1), Some(&"uno"));
    assert_eq!(m.len(), 2);
    assert!(m.contains_key(&2));
    assert!(!m.contains_key(&5));
}

#[test]
fn remove_entries() {
    let mut m: HashMap<u32> = new_hashmap(3);
    for k in 0..10u64 {
        assert_eq!(m.insert(k, k as u32 * 10), None);
    }
    assert_eq!(m.remove(&4), Some(40));
    assert_eq!(m.remove(&4), None);
    assert_eq!(m.len(), 9);
    assert_eq!(m.get(&4), None);
    assert_eq!(m.get(&5), Some(&50));
}

#[test]
fn growth_keeps_every_entry() {
    let mut m: HashMap<u64> = HashMap::with_capacity(1, 11);
    for k in 0..200u64 {
        assert_eq!(m.insert(k * 7919, k), None);
    }
    assert_eq!(m.len(), 200);
    for k in 0..200u64 {
        assert_eq!(m.get(&(k * 7919)), Some(&k));
    }
}

#[test]
fn clear_empties_the_map() {
    let mut m: HashMap<u8> = HashMap::with_hasher(RandomState::new(5));
    m.insert(1, 1);
    m.insert(2, 2);
    m.clear();
    assert!(m.is_empty());
    assert_eq!(m.get(&1), None);
    assert_eq!(m.insert(1, 9), None);
    assert_eq!(m.len(), 1);
}

#[test]
fn iteration_visits_each_entry_once() {
    let mut m: HashMap<u64> = HashMap::with_capacity_and_hasher(0, RandomState::new(1));
    for k in 0..30u64 {
        m.insert(k, k + 100);
    }
    let mut it = m.iter();
    let mut seen = Vec::new();
    while let Some((k, v)) = it.next() {
        assert_eq!(*v, *k + 100);
        seen.push(*k);
    }
    seen.sort();
    assert_eq!(seen, (0..30u64).collect::<Vec<_>>());
    assert!(it.next().is_none());
}
