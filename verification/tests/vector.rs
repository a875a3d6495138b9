//! Ordered-collection behaviour: positional diffs, reindexing, merges.

use signals_im::pull_source::PullSourceHost;
use signals_im::vector::{MutableVectorState, VectorDiff};

#[test]
fn vector_basic_operations() {
    let mut vec = MutableVectorState::<u8>::new();
    assert_eq!(vec.len(), 0);
    vec.push_back(1);
    vec.push_back(3);
    vec.insert(1, 2);
    assert_eq!(vec.len(), 3);
    assert_eq!(*vec.get(0), 1);
    assert_eq!(*vec.get(1), 2);
    assert_eq!(*vec.get(2), 3);
    assert_eq!(vec.set(1, 9), 2);
    assert_eq!(*vec.get(1), 9);
    assert_eq!(vec.remove(0), 1);
    assert_eq!(vec.pop_back(), Some(3));
    assert_eq!(vec.pop_front(), Some(9));
    assert_eq!(vec.pop_front(), None);
    assert_eq!(vec.pop_back(), None);
    assert_eq!(vec.snapshot(), Vec::<u8>::new());
}

#[test]
fn vector_insert_remove_cancels_before_observation() {
    let mut vec = MutableVectorState::<u8>::new();
    let id = vec.subscribe();
    vec.pull_diffs(id);
    vec.push_back(1);
    vec.push_back(2);
    vec.pull_diffs(id);
    // an insert and its removal in one unobserved window vanish entirely
    vec.insert(1, 9);
    vec.remove(1);
    assert_eq!(vec.pull_diffs(id), vec![]);
    assert_eq!(vec.snapshot(), vec![1, 2]);
}

#[test]
fn vector_remove_then_push_back_becomes_update() {
    let mut vec = MutableVectorState::<u8>::new();
    let id = vec.subscribe();
    vec.push_back(1);
    vec.push_back(2);
    vec.pull_diffs(id);
    // dropping the tail and appending a replacement coalesces into one
    // update of that position
    vec.pop_back();
    vec.push_back(9);
    assert_eq!(
        vec.pull_diffs(id),
        vec![VectorDiff::Update { index: 1, snapshot_index: 1 }]
    );
    assert_eq!(vec.snapshot(), vec![1, 9]);
}

#[test]
fn vector_cancelled_insert_reindexes_later_diffs() {
    let mut vec = MutableVectorState::<u8>::new();
    let id = vec.subscribe();
    vec.pull_diffs(id);
    vec.push_back(10);
    vec.push_back(20);
    // the second diff was created at position 1; cancelling the first
    // shifts the open insert down to position 0
    vec.remove(0);
    let batch = vec.pull_diffs(id);
    assert_eq!(batch, vec![VectorDiff::Insert { index: 0, snapshot_index: 0 }]);
    assert_eq!(vec.snapshot(), vec![20]);
}

#[test]
fn vector_push_front_shifts_open_positions() {
    let mut vec = MutableVectorState::<u8>::new();
    let id = vec.subscribe();
    vec.pull_diffs(id);
    vec.push_back(2);
    vec.push_front(1);
    let batch = vec.pull_diffs(id);
    // the first insert keeps its creation-time position for replay while
    // its snapshot-time position moved one place up
    assert_eq!(
        batch,
        vec![
            VectorDiff::Insert { index: 0, snapshot_index: 1 },
            VectorDiff::Insert { index: 0, snapshot_index: 0 },
        ]
    );
    assert_eq!(vec.snapshot(), vec![1, 2]);
}

#[test]
fn vector_replace_and_clear_are_global() {
    let mut vec = MutableVectorState::<u8>::new();
    let id = vec.subscribe();
    vec.pull_diffs(id);
    vec.push_back(1);
    vec.replace(vec![7, 8]);
    assert_eq!(vec.pull_diffs(id), vec![VectorDiff::Replace {}]);
    assert_eq!(vec.snapshot(), vec![7, 8]);
    vec.clear();
    assert_eq!(vec.pull_diffs(id), vec![VectorDiff::Replace {}]);
    vec.clear();
    assert_eq!(vec.pull_diffs(id), vec![]);
}

#[test]
fn value_from_snapshot_follows_the_snapshot_position() {
    let snapshot: Vec<u8> = vec![10, 20, 30];
    let diff = VectorDiff::Insert { index: 0, snapshot_index: 2 };
    assert_eq!(diff.get_value_from_snapshot(&snapshot), Some(&30));
    let diff = VectorDiff::Update { index: 1, snapshot_index: 0 };
    assert_eq!(diff.get_value_from_snapshot(&snapshot), Some(&10));
    let diff = VectorDiff::Remove { index: 1, snapshot_index: 1 };
    assert_eq!(diff.get_value_from_snapshot(&snapshot), None);
    let diff = VectorDiff::Replace {};
    assert_eq!(diff.get_value_from_snapshot(&snapshot), None);
}
