//! Diffs and events for keyed (map-shaped) collections.

use crate::key_map::KeyMap;
use crate::keys::{DiffKey, DupValue};
use crate::pull_source::{
    entry_lookup, lemma_entry_lookup_none, lemma_entry_lookup_push, lemma_entry_ops_at,
    lemma_log_pos_at, model_wf, spec_add_diff, spec_has_listener, DiffMergeOutcome,
    DiffMergeResult, DiffNumber, PullableDiff, SourceModel,
};
use crate::signal::{SignalEvent, SnapshottableEvent};
use vstd::prelude::*;

verus! {

/// One change to a keyed collection: an element was inserted, updated or
/// removed at a key, or the whole collection was replaced or cleared.
#[derive(Debug, Clone, PartialEq, Eq)]
pub enum MapDiff<K> {
    Replace {},
    Insert { key: K },
    Update { key: K },
    Remove { key: K },
    Clear {},
}

impl<K: DiffKey> DupValue for MapDiff<K> {
    fn dup(&self) -> (r: Self) {
        match self {
            MapDiff::Replace {} => MapDiff::Replace {},
            MapDiff::Insert { key } => MapDiff::Insert { key: key.dup() },
            MapDiff::Update { key } => MapDiff::Update { key: key.dup() },
            MapDiff::Remove { key } => MapDiff::Remove { key: key.dup() },
            MapDiff::Clear {} => MapDiff::Clear {},
        }
    }
}

impl<K: DiffKey> PullableDiff for MapDiff<K> {
    type KeyType = K;

    /// Keyed collections never reindex; the instruction carries nothing.
    type ReindexType = ();

    open spec fn key_spec(&self) -> Option<K> {
        match *self {
            MapDiff::Insert { key } => Some(key),
            MapDiff::Update { key } => Some(key),
            MapDiff::Remove { key } => Some(key),
            MapDiff::Replace {} => None,
            MapDiff::Clear {} => None,
        }
    }

    /// Map events carry no separate positional coordinate; the snapshot
    /// key is the key itself.
    open spec fn snapshot_key_spec(&self) -> Option<K> {
        self.key_spec()
    }

    open spec fn with_key_spec(&self, new_key: K) -> Self {
        match *self {
            MapDiff::Insert { key } => MapDiff::Insert { key: new_key },
            MapDiff::Update { key } => MapDiff::Update { key: new_key },
            MapDiff::Remove { key } => MapDiff::Remove { key: new_key },
            MapDiff::Replace {} => MapDiff::Replace {},
            MapDiff::Clear {} => MapDiff::Clear {},
        }
    }

    /// Setting the snapshot key of a map diff changes nothing.
    open spec fn with_snapshot_key_spec(&self, new_snapshot_key: K) -> Self {
        *self
    }

    /// Two uncoalesced inserts colliding on one key indicate a caller bug;
    /// every other collision is resolved by the policy.
    open spec fn mergeable_with(&self, previous: &Self) -> bool {
        !((*previous matches MapDiff::Insert { .. }) && (*self matches MapDiff::Insert { .. }))
    }

    /// The merge policy for keyed collections: insert-then-remove cancels,
    /// insert-then-update keeps the insert, everything else keeps only the
    /// newest diff.
    open spec fn merge_spec(&self, previous: &Self) -> DiffMergeResult<Self> {
        if *previous matches MapDiff::Insert { .. } {
            if *self matches MapDiff::Remove { .. } {
                DiffMergeResult {
                    outcome: DiffMergeOutcome::DiscardBoth,
                    reindex_intermediary_diffs: None,
                }
            } else if *self matches MapDiff::Update { .. } {
                DiffMergeResult {
                    outcome: DiffMergeOutcome::Ignore,
                    reindex_intermediary_diffs: None,
                }
            } else {
                DiffMergeResult {
                    outcome: DiffMergeOutcome::Replace,
                    reindex_intermediary_diffs: None,
                }
            }
        } else {
            DiffMergeResult {
                outcome: DiffMergeOutcome::Replace,
                reindex_intermediary_diffs: None,
            }
        }
    }

    open spec fn full_replace_spec() -> Self {
        MapDiff::Replace {}
    }

    open spec fn reindex_spec(instr: (), key: K, snapshot_key: K) -> K {
        key
    }

    fn get_key(&self) -> (r: Option<K>) {
        match self {
            MapDiff::Insert { key } => Some(key.dup()),
            MapDiff::Update { key } => Some(key.dup()),
            MapDiff::Remove { key } => Some(key.dup()),
            MapDiff::Replace {} => None,
            MapDiff::Clear {} => None,
        }
    }

    fn get_snapshot_key(&self) -> (r: Option<K>) {
        self.get_key()
    }

    fn set_key(&mut self, new_key: K) {
        let v = match &*self {
            MapDiff::Insert { .. } => MapDiff::Insert { key: new_key },
            MapDiff::Update { .. } => MapDiff::Update { key: new_key },
            MapDiff::Remove { .. } => MapDiff::Remove { key: new_key },
            MapDiff::Replace {} => MapDiff::Replace {},
            MapDiff::Clear {} => MapDiff::Clear {},
        };
        *self = v;
    }

    fn set_snapshot_key(&mut self, new_snapshot_key: K) {
    }

    fn merge_with_previous(&self, previous: &Self) -> (r: DiffMergeResult<Self>) {
        if let MapDiff::Insert { .. } = previous {
            if let MapDiff::Remove { .. } = self {
                return DiffMergeResult {
                    outcome: DiffMergeOutcome::DiscardBoth,
                    reindex_intermediary_diffs: None,
                };
            }
            if let MapDiff::Update { .. } = self {
                return DiffMergeResult {
                    outcome: DiffMergeOutcome::Ignore,
                    reindex_intermediary_diffs: None,
                };
            }
        }
        DiffMergeResult { outcome: DiffMergeOutcome::Replace, reindex_intermediary_diffs: None }
    }

    fn full_replace() -> (r: Self) {
        MapDiff::Replace {}
    }

    fn apply_reindex(instr: &(), key: &K, snapshot_key: &K) -> (r: K) {
        key.dup()
    }
}

/// A delivered batch for a keyed collection: the diffs since the
/// consumer's previous pull, plus the collection's full state at delivery
/// time, so the consumer can materialize a result without replaying
/// history.
pub struct HashMapEvent<K: DiffKey, V: DupValue> {
    pub snapshot: KeyMap<K, V>,
    pub diffs: Vec<MapDiff<K>>,
}

impl<K: DiffKey, V: DupValue> HashMapEvent<K, V> {
    /// A delivered event is well formed when its snapshot is.
    pub open spec fn wf(&self) -> bool {
        self.snapshot.wf()
    }
}

impl<K: DiffKey, V: DupValue> View for HashMapEvent<K, V> {
    type V = (Map<K, V>, Seq<MapDiff<K>>);

    open spec fn view(&self) -> (Map<K, V>, Seq<MapDiff<K>>) {
        (self.snapshot@, self.diffs@)
    }
}

impl<K: DiffKey, V: DupValue> SignalEvent for HashMapEvent<K, V> {
    open spec fn event_wf(&self) -> bool {
        self.wf()
    }

    fn dup_event(&self) -> (r: Self) {
        let snapshot = self.snapshot.dup();
        let mut diffs: Vec<MapDiff<K>> = Vec::new();
        let mut i: usize = 0;
        while i < self.diffs.len()
            invariant
                0 <= i <= self.diffs@.len(),
                diffs@ == self.diffs@.take(i as int),
            decreases self.diffs@.len() - i,
        {
            diffs.push(self.diffs[i].dup());
            proof {
                assert(diffs@ =~= self.diffs@.take(i + 1));
            }
            i += 1;
        }
        proof {
            assert(self.diffs@.take(self.diffs@.len() as int) =~= self.diffs@);
        }
        HashMapEvent { snapshot, diffs }
    }
}

impl<K: DiffKey, V: DupValue> SnapshottableEvent for HashMapEvent<K, V> {
    type SnapshotType = KeyMap<K, V>;

    open spec fn snapshot_view(&self) -> Map<K, V> {
        self.snapshot@
    }

    open spec fn snapshot_wf(&self) -> bool {
        self.snapshot.wf()
    }

    /// The full state of the keyed collection at the instant this event
    /// was delivered.
    fn snapshot(&self) -> (r: KeyMap<K, V>) {
        self.snapshot.dup()
    }
}

/// Coalescing: insert then remove on one key, both before any
/// observation, leaves the log and the compaction index exactly as they
/// were — the two diffs cancel and no consumer ever sees either.
pub proof fn lemma_coalesce_insert_remove<K: DiffKey>(m: SourceModel<MapDiff<K>>, k: K)
    requires
        model_wf(m),
        spec_has_listener(m),
        entry_lookup(m.index, k) is None,
        m.next_diff < usize::MAX,
    ensures
        ({
            let m1 = spec_add_diff(m, MapDiff::Insert { key: k });
            let m2 = spec_add_diff(m1, MapDiff::Remove { key: k });
            &&& m2.log =~= m.log
            &&& m2.index =~= m.index
            &&& m2.cursors == m.cursors
        }),
{
    let ins = MapDiff::Insert { key: k };
    let rem = MapDiff::<K>::Remove { key: k };
    let m1 = spec_add_diff(m, ins);
    assert(m1.log == m.log.push((m.next_diff, ins)));
    assert(m1.index == m.index.push((k, m.next_diff)));
    lemma_entry_lookup_push(m.index, k, m.next_diff);
    assert(entry_lookup(m1.index, k) == Some(m.next_diff));
    lemma_log_pos_at(m1.log, m.next_diff, m.log.len() as int);
    lemma_entry_lookup_none(m.index, k);
    lemma_entry_ops_at(m1.index, k, m.index.len() as int, 0);
    let m2 = spec_add_diff(m1, rem);
    assert(m2.log =~= m.log) by {
        assert(m1.log.remove(m.log.len() as int) =~= m.log);
    }
    assert(m2.index =~= m.index) by {
        assert(m1.index.remove(m.index.len() as int) =~= m.index);
    }
}

/// Coalescing: insert then update on one key, both before any
/// observation, leaves exactly the original insert in place — the insert
/// remains the canonically correct diff.
pub proof fn lemma_coalesce_insert_update<K: DiffKey>(m: SourceModel<MapDiff<K>>, k: K)
    requires
        model_wf(m),
        spec_has_listener(m),
        entry_lookup(m.index, k) is None,
        m.next_diff < usize::MAX,
    ensures
        ({
            let m1 = spec_add_diff(m, MapDiff::Insert { key: k });
            let m2 = spec_add_diff(m1, MapDiff::Update { key: k });
            m2 =~= m1
        }),
{
    let ins = MapDiff::Insert { key: k };
    let upd = MapDiff::<K>::Update { key: k };
    let m1 = spec_add_diff(m, ins);
    lemma_entry_lookup_push(m.index, k, m.next_diff);
    lemma_log_pos_at(m1.log, m.next_diff, m.log.len() as int);
    let m2 = spec_add_diff(m1, upd);
    assert(m2.log =~= m1.log) by {
        assert(m1.log.remove(m.log.len() as int) =~= m.log);
        assert(m.log.insert(m.log.len() as int, (m.next_diff, ins)) =~= m1.log);
    }
}

/// Coalescing: update then remove on one key, both before any
/// observation, yields exactly one remove diff — the update is gone and
/// the remove carries the fresh sequence number.
pub proof fn lemma_coalesce_update_remove<K: DiffKey>(m: SourceModel<MapDiff<K>>, k: K)
    requires
        model_wf(m),
        spec_has_listener(m),
        entry_lookup(m.index, k) is None,
        m.next_diff + 1 < usize::MAX,
    ensures
        ({
            let m1 = spec_add_diff(m, MapDiff::Update { key: k });
            let m2 = spec_add_diff(m1, MapDiff::Remove { key: k });
            &&& m2.log =~= m.log.push(((m.next_diff + 1) as usize, MapDiff::Remove { key: k }))
            &&& m2.index =~= m.index.push((k, (m.next_diff + 1) as usize))
            &&& m2.cursors == m.cursors
        }),
{
    let upd = MapDiff::<K>::Update { key: k };
    let rem = MapDiff::<K>::Remove { key: k };
    let m1 = spec_add_diff(m, upd);
    lemma_entry_lookup_push(m.index, k, m.next_diff);
    lemma_log_pos_at(m1.log, m.next_diff, m.log.len() as int);
    lemma_entry_lookup_none(m.index, k);
    lemma_entry_ops_at(m1.index, k, m.index.len() as int, m1.next_diff);
    let m2 = spec_add_diff(m1, rem);
    assert(m2.log =~= m.log.push((m1.next_diff, rem))) by {
        assert(m1.log.remove(m.log.len() as int) =~= m.log);
    }
    assert(m2.index =~= m.index.push((k, m1.next_diff))) by {
        assert(m1.index.update(m.index.len() as int, (k, m1.next_diff)) =~= m.index.push(
            (k, m1.next_diff),
        ));
    }
}

} // verus!
