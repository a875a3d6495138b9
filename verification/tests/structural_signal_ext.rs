//! Fan-out behaviour: one upstream run feeds any number of taps, with
//! replay of the latest item for late subscribers.

use signals_im::hash_map::{HashMapEvent, MapHashMapTransformer, MutableHashMapState};
use signals_im::pull_source::{poll_cursor, PullSourceHost};
use signals_im::transformer::StructuralSignalTransformer;
use signals_im::vector::{MutableVectorState, VectorEvent};
use signals_im::{
    ChannelStructuralSignal, PollChange, SnapshottableEvent, StructuralSignal,
    StructuralSignalBroadcaster, StructuralSignalExt,
};

/// Drain one tap and return the snapshot attached to its last delivery.
fn tap_snapshot_map(
    b: &mut StructuralSignalBroadcaster<
        HashMapEvent<u8, u8>,
        ChannelStructuralSignal<HashMapEvent<u8, u8>>,
    >,
    tap: usize,
) -> Option<Vec<(u8, u8)>> {
    let mut last = None;
    loop {
        match b.poll_tap(tap) {
            PollChange::Ready(event) => last = Some(event),
            _ => break,
        }
    }
    last.map(|event| {
        let mut entries = event.snapshot().to_entries();
        entries.sort();
        entries
    })
}

/// Feed one consumer's pending transformed events into the broadcaster's
/// queue-backed upstream.
fn feed_map(
    input: &mut MutableHashMapState<u8, u8>,
    id: usize,
    tr: &mut MapHashMapTransformer<u8, fn(u8) -> u8, u8, u8>,
    b: &mut StructuralSignalBroadcaster<
        HashMapEvent<u8, u8>,
        ChannelStructuralSignal<HashMapEvent<u8, u8>>,
    >,
) {
    loop {
        match poll_cursor(input, id) {
            PollChange::Ready(event) => tr.apply_event(event),
            _ => break,
        }
    }
    let mut channel = b.swap_input(ChannelStructuralSignal::new());
    loop {
        match tr.poll_output() {
            PollChange::Ready(event) => channel.send(event),
            _ => break,
        }
    }
    b.swap_input(channel);
}

fn double(v: u8) -> u8 {
    v * 2
}

#[test]
fn broadcast_hash_map() {
    let mut input_map = MutableHashMapState::<u8, u8>::new();
    input_map.insert(1, 1);

    // the transform runs once per map update, no matter how many taps
    // the broadcaster hands out
    let mut transform: MapHashMapTransformer<u8, fn(u8) -> u8, u8, u8> =
        MapHashMapTransformer::new(double);
    let id = input_map.subscribe();
    let mut broadcaster = ChannelStructuralSignal::new().broadcast();

    feed_map(&mut input_map, id, &mut transform, &mut broadcaster);
    let tap = broadcaster.register_tap();
    assert_eq!(tap_snapshot_map(&mut broadcaster, tap), Some(vec![(1, 2)]));

    input_map.insert(2, 2);
    feed_map(&mut input_map, id, &mut transform, &mut broadcaster);
    let tap = broadcaster.register_tap();
    assert_eq!(
        tap_snapshot_map(&mut broadcaster, tap),
        Some(vec![(1, 2), (2, 4)])
    );
    let tap = broadcaster.register_tap();
    assert_eq!(
        tap_snapshot_map(&mut broadcaster, tap),
        Some(vec![(1, 2), (2, 4)])
    );
}

#[test]
fn broadcast_vector() {
    let mut input_vec = MutableVectorState::<u8>::new();
    input_vec.push_back(1);
    input_vec.push_back(1);
    input_vec.push_back(2);

    let id = input_vec.subscribe();
    let mut broadcaster = ChannelStructuralSignal::<VectorEvent<u8>>::new().broadcast();

    let mut channel = broadcaster.swap_input(ChannelStructuralSignal::new());
    loop {
        match poll_cursor(&mut input_vec, id) {
            PollChange::Ready(event) => channel.send(event),
            _ => break,
        }
    }
    broadcaster.swap_input(channel);
    let tap = broadcaster.register_tap();
    let mut last = None;
    loop {
        match broadcaster.poll_tap(tap) {
            PollChange::Ready(event) => last = Some(event),
            _ => break,
        }
    }
    assert_eq!(last.unwrap().snapshot(), vec![1, 1, 2]);

    input_vec.insert(0, 0);
    let mut channel = broadcaster.swap_input(ChannelStructuralSignal::new());
    loop {
        match poll_cursor(&mut input_vec, id) {
            PollChange::Ready(event) => channel.send(event),
            _ => break,
        }
    }
    broadcaster.swap_input(channel);
    let tap = broadcaster.register_tap();
    let mut last = None;
    loop {
        match broadcaster.poll_tap(tap) {
            PollChange::Ready(event) => last = Some(event),
            _ => break,
        }
    }
    assert_eq!(last.unwrap().snapshot(), vec![0, 1, 1, 2]);
    // a further tap replays the latest item without any new upstream work
    let tap = broadcaster.register_tap();
    let mut last = None;
    loop {
        match broadcaster.poll_tap(tap) {
            PollChange::Ready(event) => last = Some(event),
            _ => break,
        }
    }
    assert_eq!(last.unwrap().snapshot(), vec![0, 1, 1, 2]);
}

#[test]
fn tap_replays_latest_exactly_once() {
    let mut broadcaster = ChannelStructuralSignal::<VectorEvent<u8>>::new().broadcast();
    let mut channel = broadcaster.swap_input(ChannelStructuralSignal::new());
    channel.send(VectorEvent { snapshot: vec![1], diffs: vec![] });
    channel.send(VectorEvent { snapshot: vec![1, 2], diffs: vec![] });
    broadcaster.swap_input(channel);
    let early = broadcaster.register_tap();
    // the early tap sees both items, in order
    match broadcaster.poll_tap(early) {
        PollChange::Ready(event) => assert_eq!(event.snapshot, vec![1]),
        _ => panic!("expected a delivery"),
    }
    match broadcaster.poll_tap(early) {
        PollChange::Ready(event) => assert_eq!(event.snapshot, vec![1, 2]),
        _ => panic!("expected a delivery"),
    }
    // a late tap gets the most recent item exactly once
    let late = broadcaster.register_tap();
    match broadcaster.poll_tap(late) {
        PollChange::Ready(event) => assert_eq!(event.snapshot, vec![1, 2]),
        _ => panic!("expected the replay"),
    }
    assert!(matches!(broadcaster.poll_tap(late), PollChange::Pending));
    assert!(matches!(broadcaster.poll_tap(early), PollChange::Pending));
}

#[test]
fn channel_signal_drains_then_closes() {
    let mut channel = ChannelStructuralSignal::<VectorEvent<u8>>::new();
    channel.send(VectorEvent { snapshot: vec![5], diffs: vec![] });
    channel.close();
    match channel.poll_change() {
        PollChange::Ready(event) => assert_eq!(event.snapshot, vec![5]),
        _ => panic!("expected the queued event"),
    }
    assert!(matches!(channel.poll_change(), PollChange::Closed));
}

#[test]
fn snapshot_reads_the_last_delivery() {
    let mut channel = ChannelStructuralSignal::<VectorEvent<u8>>::new();
    channel.send(VectorEvent { snapshot: vec![1], diffs: vec![] });
    channel.send(VectorEvent { snapshot: vec![1, 2], diffs: vec![] });
    assert_eq!(channel.snapshot(), Some(vec![1, 2]));
    let empty = ChannelStructuralSignal::<VectorEvent<u8>>::new();
    assert_eq!(empty.snapshot(), None);
}
