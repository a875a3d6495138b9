//! Keyed-collection pipeline behaviour, driven through the map transform.

use signals_im::hash_map::{
    FilterHashMapTransformer, HashMapEvent, MapDiff, MapHashMapTransformer, MutableHashMapState,
};
use signals_im::pull_source::{poll_cursor, PullSourceHost};
use signals_im::transformer::StructuralSignalTransformer;
use signals_im::PollChange;

/// Pull every pending event of one consumer from a map host.
fn pull_events(
    input: &mut MutableHashMapState<u8, u8>,
    id: usize,
) -> Vec<HashMapEvent<u8, u8>> {
    let mut events = Vec::new();
    loop {
        match poll_cursor(input, id) {
            PollChange::Ready(event) => events.push(event),
            _ => break,
        }
    }
    events
}

/// Feed events through a transformer and drain its output log.
fn pump<T: StructuralSignalTransformer>(tr: &mut T, events: Vec<T::InputEvent>) -> Vec<
    T::OutputEvent,
> {
    for event in events {
        tr.apply_event(event);
    }
    let mut out = Vec::new();
    loop {
        match tr.poll_output() {
            PollChange::Ready(event) => out.push(event),
            _ => break,
        }
    }
    out
}

fn sorted_entries(map: &signals_im::key_map::KeyMap<u8, u8>) -> Vec<(u8, u8)> {
    let mut entries = map.to_entries();
    entries.sort();
    entries
}

fn flat_diffs(events: &[HashMapEvent<u8, u8>]) -> Vec<MapDiff<u8>> {
    let mut diffs = Vec::new();
    for event in events {
        for diff in &event.diffs {
            diffs.push(diff.clone());
        }
    }
    diffs
}

#[test]
fn map_values() {
    let mut input_map = MutableHashMapState::<u8, u8>::new();
    input_map.insert(1, 1);

    let mut multiplied: MapHashMapTransformer<u8, _, u8, u8> =
        MapHashMapTransformer::new(|v: u8| v * 2);
    let id = input_map.subscribe();
    input_map.insert(2, 2);

    let events = pull_events(&mut input_map, id);
    let poll_1 = pump(&mut multiplied, events);
    assert_eq!(
        sorted_entries(&poll_1.last().unwrap().snapshot),
        vec![(1, 2), (2, 4)]
    );
    assert_eq!(flat_diffs(&poll_1), vec![MapDiff::Replace {}]);

    input_map.insert(2, 2);
    input_map.insert(3, 2);
    input_map.insert(3, 3);
    input_map.insert(4, 4);
    input_map.remove(&3);

    let events = pull_events(&mut input_map, id);
    let poll_2 = pump(&mut multiplied, events);
    assert_eq!(
        sorted_entries(&poll_2.last().unwrap().snapshot),
        vec![(1, 2), (2, 4), (4, 8)]
    );
    assert_eq!(
        flat_diffs(&poll_2),
        vec![MapDiff::Update { key: 2 }, MapDiff::Insert { key: 4 }]
    );
}

#[test]
fn map_state_basic_operations() {
    let mut map = MutableHashMapState::<u8, u8>::new();
    assert_eq!(map.get(&1), None);
    assert!(!map.contains_key(&1));
    assert_eq!(map.insert(1, 10), None);
    assert_eq!(map.insert(1, 11), Some(10));
    assert_eq!(map.get(&1), Some(&11));
    assert!(map.contains_key(&1));
    assert_eq!(map.remove(&1), Some(11));
    assert_eq!(map.remove(&1), None);
    let snap = map.snapshot();
    assert_eq!(snap.to_entries(), vec![]);
}

#[test]
fn map_replace_overwrites_everything() {
    let mut map = MutableHashMapState::<u8, u8>::new();
    let id = map.subscribe();
    map.pull_diffs(id);
    map.insert(1, 1);
    map.replace(vec![(5, 50), (6, 60), (5, 51)]);
    // later entries win on key collisions
    assert_eq!(map.get(&5), Some(&51));
    assert_eq!(map.get(&6), Some(&60));
    assert_eq!(map.get(&1), None);
    // the pending window collapses to one full replace
    assert_eq!(map.pull_diffs(id), vec![MapDiff::Replace {}]);
}

#[test]
fn map_clear_logs_once_and_only_when_nonempty() {
    let mut map = MutableHashMapState::<u8, u8>::new();
    let id = map.subscribe();
    map.pull_diffs(id);
    map.clear();
    // clearing an empty map logs nothing
    assert_eq!(map.pull_diffs(id), vec![]);
    map.insert(1, 1);
    map.pull_diffs(id);
    map.clear();
    assert_eq!(map.pull_diffs(id), vec![MapDiff::Replace {}]);
}

#[test]
fn filter_tracks_predicate_membership() {
    let mut input_map = MutableHashMapState::<u8, u8>::new();
    let mut odds: FilterHashMapTransformer<u8, u8, _> =
        FilterHashMapTransformer::new(|v: u8| v % 2 == 1);
    let id = input_map.subscribe();
    input_map.insert(1, 1);
    input_map.insert(2, 1);
    input_map.insert(3, 2);
    input_map.insert(4, 3);
    let events = pull_events(&mut input_map, id);
    let out = pump(&mut odds, events);
    assert_eq!(
        sorted_entries(&out.last().unwrap().snapshot),
        vec![(1, 1), (2, 1), (4, 3)]
    );
}
