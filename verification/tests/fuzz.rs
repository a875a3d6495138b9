//! Convergence under randomized operation sequences: after any
//! interleaving of mutations and polls, the snapshot attached to the most
//! recent delivered batch equals a live read of the collection.

use rand::random;
use signals_im::hash_map::{HashMapEvent, MapHashMapTransformer, MutableHashMapState};
use signals_im::pull_source::{poll_cursor, PullSourceHost};
use signals_im::transformer::StructuralSignalTransformer;
use signals_im::vector::{MapVectorTransformer, MutableVectorState, VectorEvent};
use signals_im::PollChange;

fn sorted_entries(map: &signals_im::key_map::KeyMap<u8, u8>) -> Vec<(u8, u8)> {
    let mut entries = map.to_entries();
    entries.sort();
    entries
}

#[test]
fn fuzz_test_map_signal() {
    let mut input_map = MutableHashMapState::<u8, u8>::new();
    let mut signal: MapHashMapTransformer<u8, fn(u8) -> u8, u8, u8> =
        MapHashMapTransformer::new(|v: u8| v);
    let id = input_map.subscribe();
    for i in 0..1000 {
        for _ in 0..i {
            let opt = random::<f32>();
            if opt < 0.5 {
                input_map.insert(random(), random());
            } else if opt < 0.9 {
                input_map.remove(&random());
            } else if opt < 0.95 {
                input_map.replace(vec![
                    (random(), random()),
                    (random(), random()),
                    (random(), random()),
                ]);
            } else {
                input_map.clear();
            }
        }

        loop {
            match poll_cursor(&mut input_map, id) {
                PollChange::Ready(event) => signal.apply_event(event),
                _ => break,
            }
        }
        let mut snapshots: Vec<HashMapEvent<u8, u8>> = Vec::new();
        loop {
            match signal.poll_output() {
                PollChange::Ready(event) => snapshots.push(event),
                _ => break,
            }
        }
        if snapshots.len() == 0 {
            continue;
        }
        let last_snapshot = &snapshots.last().unwrap().snapshot;
        assert_eq!(
            sorted_entries(last_snapshot),
            sorted_entries(&input_map.snapshot())
        );
    }
}

#[test]
fn fuzz_test_vector_signal() {
    let mut input_vec = MutableVectorState::<u8>::new();
    let mut signal: MapVectorTransformer<fn(u8) -> u8, u8, u8> =
        MapVectorTransformer::new(|v: u8| v);
    let id = input_vec.subscribe();
    let mut changes: Vec<String>;
    let mut last_state: Option<Vec<u8>> = None;

    for i in 0..1000 {
        changes = vec![];
        for _ in 0..i {
            let opt = random::<f32>();
            if opt < 0.2 {
                changes.push("push_back".to_string());
                input_vec.push_back(random());
            }
            if opt < 0.3 {
                changes.push("push_front".to_string());
                input_vec.push_front(random());
            }
            if opt < 0.5 {
                let len = input_vec.len() as f32;
                let idx = (random::<f32>() * len) as usize;
                changes.push(format!("insert at {}", idx));
                input_vec.insert(idx, random());
            } else if opt < 0.6 {
                let len = input_vec.len() as f32;
                if len == 0f32 {
                    continue;
                }
                let idx = (random::<f32>() * (len - 1f32)) as usize;
                changes.push(format!("remove at {}", idx));
                input_vec.remove(idx);
            } else if opt < 0.7 {
                changes.push("pop_back".to_string());
                input_vec.pop_back();
            } else if opt < 0.8 {
                changes.push("pop_front".to_string());
                input_vec.pop_front();
            } else if opt < 0.9 {
                let len = input_vec.len() as f32;
                if len == 0f32 {
                    continue;
                }
                let idx = (random::<f32>() * (len - 1f32)) as usize;
                changes.push(format!("set at {}", idx));
                input_vec.set(idx, random());
            } else if opt < 0.95 {
                changes.push("replace".to_string());
                input_vec.replace(vec![random(), random(), random()]);
            } else {
                changes.push("clear".to_string());
                input_vec.clear();
            }
        }

        loop {
            match poll_cursor(&mut input_vec, id) {
                PollChange::Ready(event) => signal.apply_event(event),
                _ => break,
            }
        }
        let mut snapshots: Vec<VectorEvent<u8>> = Vec::new();
        loop {
            match signal.poll_output() {
                PollChange::Ready(event) => snapshots.push(event),
                _ => break,
            }
        }
        if snapshots.len() == 0 {
            continue;
        }
        let last_snapshot = &snapshots.last().unwrap().snapshot;
        let change_stack = changes.join("\n * ");
        assert_eq!(
            *last_snapshot,
            input_vec.snapshot(),
            "Last State: {:?}\n\nChanges: \n * {}\n\n",
            last_state,
            change_stack
        );
        last_state = Some(last_snapshot.clone());
    }
}
