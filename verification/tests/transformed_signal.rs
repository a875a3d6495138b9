//! The composed pipeline: a queue-backed signal run through transform
//! stages and watched per key.

use signals_im::hash_map::{
    HashMapEvent, MapDiff, MutableHashMapState, SignalHashMapExt,
};
use signals_im::pull_source::{poll_cursor, PullSourceHost};
use signals_im::vector::{MutableVectorState, SignalVectorExt, VectorEvent};
use signals_im::{ChannelStructuralSignal, PollChange, StructuralSignal};

/// Produce every pending event of one consumer of a map host.
fn map_events(
    input: &mut MutableHashMapState<u8, u8>,
    id: usize,
) -> Vec<HashMapEvent<u8, u8>> {
    let mut events = Vec::new();
    loop {
        match poll_cursor(input, id) {
            PollChange::Ready(event) => events.push(event),
            _ => break,
        }
    }
    events
}

#[test]
fn transformed_signal_maps_values_end_to_end() {
    let mut input_map = MutableHashMapState::<u8, u8>::new();
    let id = input_map.subscribe();
    input_map.insert(1, 1);
    input_map.insert(2, 2);

    let mut channel = ChannelStructuralSignal::new();
    for event in map_events(&mut input_map, id) {
        channel.send(event);
    }
    let mut multiplied = channel.map_values(|v: u8| v * 2);

    // one poll drains the queued input and delivers the mirrored state
    let mut last = None;
    loop {
        match multiplied.poll_change() {
            PollChange::Ready(event) => last = Some(event),
            _ => break,
        }
    }
    let event = last.unwrap();
    assert_eq!(event.snapshot.get(&1), Some(&2));
    assert_eq!(event.snapshot.get(&2), Some(&4));
    // nothing new: the next poll reports no update, not a repeat
    assert!(matches!(multiplied.poll_change(), PollChange::Pending));
}

#[test]
fn transformed_signal_closes_after_input_ends() {
    let mut input_map = MutableHashMapState::<u8, u8>::new();
    let id = input_map.subscribe();
    input_map.insert(7, 1);

    let mut channel = ChannelStructuralSignal::new();
    for event in map_events(&mut input_map, id) {
        channel.send(event);
    }
    channel.close();
    let mut mirrored = channel.map_values(|v: u8| v);
    let mut deliveries = 0;
    loop {
        match mirrored.poll_change() {
            PollChange::Ready(_) => deliveries += 1,
            PollChange::Closed => break,
            PollChange::Pending => panic!("a closed, drained input must end the stream"),
        }
    }
    assert_eq!(deliveries, 1);
}

#[test]
fn key_watcher_fires_only_for_its_key() {
    let mut input_map = MutableHashMapState::<u8, u8>::new();
    let id = input_map.subscribe();
    // bootstrap delivery
    input_map.insert(1, 10);
    let mut channel = ChannelStructuralSignal::new();
    for event in map_events(&mut input_map, id) {
        channel.send(event);
    }
    // a touch of an unrelated key, then of the watched key
    input_map.insert(2, 20);
    for event in map_events(&mut input_map, id) {
        channel.send(event);
    }
    input_map.insert(1, 11);
    for event in map_events(&mut input_map, id) {
        channel.send(event);
    }
    input_map.remove(&1);
    for event in map_events(&mut input_map, id) {
        channel.send(event);
    }

    let mut watcher = channel.get_signal_for_key(1);
    // the bootstrap replace mentions every key
    assert!(matches!(watcher.poll_change(), PollChange::Ready(Some(10))));
    // the insert of key 2 is not an update of key 1
    assert!(matches!(watcher.poll_change(), PollChange::Pending));
    assert!(matches!(watcher.poll_change(), PollChange::Ready(Some(11))));
    assert!(matches!(watcher.poll_change(), PollChange::Ready(None)));
    assert!(matches!(watcher.poll_change(), PollChange::Pending));
}

#[test]
fn vector_map_transform_end_to_end() {
    let mut input_vec = MutableVectorState::<u8>::new();
    let id = input_vec.subscribe();
    input_vec.push_back(1);
    input_vec.push_back(2);

    let mut channel = ChannelStructuralSignal::<VectorEvent<u8>>::new();
    loop {
        match poll_cursor(&mut input_vec, id) {
            PollChange::Ready(event) => channel.send(event),
            _ => break,
        }
    }
    let mut doubled = channel.map(|v: u8| v * 2);
    let mut last = None;
    loop {
        match doubled.poll_change() {
            PollChange::Ready(event) => last = Some(event),
            _ => break,
        }
    }
    assert_eq!(last.unwrap().snapshot, vec![2, 4]);
}
