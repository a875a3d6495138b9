//! The keyed value-semantics collection backing snapshots and map state.

use signals_im::key_map::KeyMap;

#[test]
fn key_map_insert_get_remove() {
    let mut m: KeyMap<u8, u8> = KeyMap::new();
    assert!(m.is_empty());
    assert_eq!(m.len(), 0);
    assert_eq!(m.insert(1, 10), None);
    assert_eq!(m.insert(2, 20), None);
    assert_eq!(m.insert(1, 11), Some(10));
    assert_eq!(m.len(), 2);
    assert!(!m.is_empty());
    assert!(m.contains_key(&1));
    assert!(!m.contains_key(&3));
    assert_eq!(m.get(&1), Some(&11));
    assert_eq!(m.get(&3), None);
    assert_eq!(m.remove(&1), Some(11));
    assert_eq!(m.remove(&1), None);
    assert_eq!(m.len(), 1);
}

#[test]
fn key_map_copies_are_independent() {
    let mut m: KeyMap<u8, u8> = KeyMap::new();
    m.insert(1, 10);
    let snapshot = m.dup();
    m.insert(1, 99);
    m.insert(2, 20);
    // the copy still shows the state at duplication time
    assert_eq!(snapshot.get(&1), Some(&10));
    assert_eq!(snapshot.get(&2), None);
    assert_eq!(m.get(&1), Some(&99));
}

#[test]
fn key_map_entries_round_trip() {
    let mut m: KeyMap<u8, u8> = KeyMap::new();
    m.insert(3, 30);
    m.insert(1, 10);
    let mut entries = m.to_entries();
    entries.sort();
    assert_eq!(entries, vec![(1, 10), (3, 30)]);
    m.clear();
    assert!(m.is_empty());
    assert_eq!(m.to_entries(), vec![]);
}
