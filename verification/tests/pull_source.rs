//! Engine-level behaviour: lazy logging, bootstrap, compaction, purge.

use signals_im::hash_map::{MapDiff, MutableHashMapState};
use signals_im::pull_source::{
    DiffMergeOutcome, DiffMergeResult, PullSourceHost, StructrualSignalPullSource,
};

fn pull(
    source: &mut StructrualSignalPullSource<MapDiff<u8>>,
    id: usize,
) -> Vec<MapDiff<u8>> {
    source.pull_signal(id)
}

#[test]
fn unobserved_mutations_cost_nothing() {
    // with no subscriber ever, adds are no-ops: the first consumer's first
    // pull still bootstraps from nothing but the sentinel
    let mut source: StructrualSignalPullSource<MapDiff<u8>> =
        StructrualSignalPullSource::new();
    assert!(!source.has_listening_signal());
    source.add_diff(MapDiff::Insert { key: 1 });
    source.add_diff(MapDiff::Remove { key: 1 });
    source.add_diff(MapDiff::Clear {});
    let id = source.get_next_signal_id();
    assert_eq!(id, 1);
    assert!(source.has_listening_signal());
    let batch = pull(&mut source, id);
    assert_eq!(batch, vec![MapDiff::Replace {}]);
}

#[test]
fn bootstrap_is_one_full_replace() {
    let mut source: StructrualSignalPullSource<MapDiff<u8>> =
        StructrualSignalPullSource::new();
    let id = source.get_next_signal_id();
    source.add_diff(MapDiff::Insert { key: 1 });
    source.add_diff(MapDiff::Insert { key: 2 });
    source.add_diff(MapDiff::Remove { key: 1 });
    // no matter how much history preceded, the first pull is one sentinel
    let batch = pull(&mut source, id);
    assert_eq!(batch, vec![MapDiff::Replace {}]);
    // and an immediate re-poll is a true no-op
    let batch2 = pull(&mut source, id);
    assert_eq!(batch2, vec![]);
}

#[test]
fn coalescing_insert_remove_cancels() {
    let mut source: StructrualSignalPullSource<MapDiff<u8>> =
        StructrualSignalPullSource::new();
    let id = source.get_next_signal_id();
    pull(&mut source, id);
    source.add_diff(MapDiff::Insert { key: 7 });
    source.add_diff(MapDiff::Remove { key: 7 });
    assert_eq!(pull(&mut source, id), vec![]);
}

#[test]
fn coalescing_insert_update_keeps_insert() {
    let mut source: StructrualSignalPullSource<MapDiff<u8>> =
        StructrualSignalPullSource::new();
    let id = source.get_next_signal_id();
    pull(&mut source, id);
    source.add_diff(MapDiff::Insert { key: 7 });
    source.add_diff(MapDiff::Update { key: 7 });
    assert_eq!(pull(&mut source, id), vec![MapDiff::Insert { key: 7 }]);
}

#[test]
fn coalescing_update_remove_keeps_remove() {
    let mut source: StructrualSignalPullSource<MapDiff<u8>> =
        StructrualSignalPullSource::new();
    let id = source.get_next_signal_id();
    pull(&mut source, id);
    source.add_diff(MapDiff::Update { key: 7 });
    source.add_diff(MapDiff::Remove { key: 7 });
    assert_eq!(pull(&mut source, id), vec![MapDiff::Remove { key: 7 }]);
}

#[test]
fn observed_diffs_solidify() {
    // once a batch has been shown to any consumer, those diffs can no
    // longer be compacted away, even for other consumers
    let mut source: StructrualSignalPullSource<MapDiff<u8>> =
        StructrualSignalPullSource::new();
    let fast = source.get_next_signal_id();
    let slow = source.get_next_signal_id();
    pull(&mut source, fast);
    pull(&mut source, slow);
    source.add_diff(MapDiff::Insert { key: 7 });
    assert_eq!(pull(&mut source, fast), vec![MapDiff::Insert { key: 7 }]);
    // the insert was revealed; a later remove no longer cancels it
    source.add_diff(MapDiff::Remove { key: 7 });
    assert_eq!(
        pull(&mut source, slow),
        vec![MapDiff::Insert { key: 7 }, MapDiff::Remove { key: 7 }]
    );
    assert_eq!(pull(&mut source, fast), vec![MapDiff::Remove { key: 7 }]);
}

#[test]
fn global_purge_collapses_to_full_replace() {
    let mut source: StructrualSignalPullSource<MapDiff<u8>> =
        StructrualSignalPullSource::new();
    let id = source.get_next_signal_id();
    pull(&mut source, id);
    source.add_diff(MapDiff::Insert { key: 1 });
    source.add_diff(MapDiff::Update { key: 2 });
    source.add_diff(MapDiff::Clear {});
    source.add_diff(MapDiff::Insert { key: 3 });
    // the global diff supersedes everything before it
    assert_eq!(pull(&mut source, id), vec![MapDiff::Replace {}]);
    assert_eq!(pull(&mut source, id), vec![]);
}

#[test]
fn merge_result_constructors_carry_their_outcome() {
    let r: DiffMergeResult<MapDiff<u8>> = DiffMergeResult::merge(MapDiff::Update { key: 3 });
    assert!(matches!(r.outcome, DiffMergeOutcome::Merge(MapDiff::Update { key: 3 })));
    assert!(r.reindex_intermediary_diffs.is_none());
    let r: DiffMergeResult<MapDiff<u8>> = DiffMergeResult::replace();
    assert!(matches!(r.outcome, DiffMergeOutcome::Replace));
    let r: DiffMergeResult<MapDiff<u8>> = DiffMergeResult::ignore();
    assert!(matches!(r.outcome, DiffMergeOutcome::Ignore));
    let r: DiffMergeResult<MapDiff<u8>> = DiffMergeResult::keep_both();
    assert!(matches!(r.outcome, DiffMergeOutcome::KeepBoth));
    let r: DiffMergeResult<MapDiff<u8>> = DiffMergeResult::discard_both();
    assert!(matches!(r.outcome, DiffMergeOutcome::DiscardBoth));
    let r: DiffMergeResult<MapDiff<u8>> =
        DiffMergeResult::merge_and_reindex(MapDiff::Update { key: 3 }, ());
    assert!(r.reindex_intermediary_diffs.is_some());
    let r: DiffMergeResult<MapDiff<u8>> = DiffMergeResult::replace_and_reindex(());
    assert!(matches!(r.outcome, DiffMergeOutcome::Replace));
    assert!(r.reindex_intermediary_diffs.is_some());
    let r: DiffMergeResult<MapDiff<u8>> = DiffMergeResult::discard_both_and_reindex(());
    assert!(matches!(r.outcome, DiffMergeOutcome::DiscardBoth));
    assert!(r.reindex_intermediary_diffs.is_some());
}

#[test]
fn scenario_keyed_collection_end_to_end() {
    // empty keyed collection, no subscribers
    let mut map = MutableHashMapState::<u8, u8>::new();
    map.insert(1, 1);
    // the log stayed empty: a subscriber's first poll sees one sentinel
    let id = map.subscribe();
    let batch = map.pull_diffs(id);
    assert_eq!(batch, vec![MapDiff::Replace {}]);
    let event = map.make_event(batch);
    assert_eq!(event.snapshot.get(&1), Some(&1));
    // a fresh insert surfaces as an insert diff with the live snapshot
    map.insert(2, 2);
    let batch = map.pull_diffs(id);
    assert_eq!(batch, vec![MapDiff::Insert { key: 2 }]);
    let event = map.make_event(batch);
    assert_eq!(event.snapshot.get(&1), Some(&1));
    assert_eq!(event.snapshot.get(&2), Some(&2));
    // insert then remove before the next poll cancels out entirely
    map.insert(3, 3);
    map.remove(&3);
    assert_eq!(map.pull_diffs(id), vec![]);
    // while an unrelated insert in the same window still surfaces
    map.insert(3, 3);
    map.remove(&3);
    map.insert(4, 4);
    assert_eq!(map.pull_diffs(id), vec![MapDiff::Insert { key: 4 }]);
}
