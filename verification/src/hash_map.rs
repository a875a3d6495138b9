//! An observable keyed collection: the authoritative map state together
//! with its diff log.
//!
//! Every mutation applies the change to the map and submits exactly one
//! diff to the embedded pull source, in the order the mutations were
//! applied.

use crate::key_map::{kv_map, kv_unique, KeyMap};
use crate::keys::{DiffKey, DupValue};
use crate::pull_source::{
    entry_lookup, lemma_entry_lookup_pos, lemma_log_first_pos, lemma_log_get_stable_push,
    lemma_log_get_stable_remove, lemma_log_pos_at, log_get, model_wf, spec_add_diff,
    spec_has_listener, spec_mergeable, spec_pull_batch, spec_pull_state, PullSourceHost,
    PullableDiff, SignalId, SourceModel, StructrualSignalPullSource,
};
use crate::signal::PollChange;
use vstd::prelude::*;

pub use crate::map_event::{HashMapEvent, MapDiff};
pub use crate::map_signal_ext::{SignalHashMapExt, SignalHashMapKeyWatcher};
pub use crate::map_transforms::{FilterHashMapTransformer, MapHashMapTransformer};

verus! {

/// The compaction index never holds an open insert diff for a key that is
/// absent from the map: an insert puts the key in, and the only mutation
/// that takes it out resolves the open insert first (by cancelling it).
/// This is what makes every submitted diff mergeable with whatever is
/// open for its key.
pub open spec fn map_compaction_inv<K: DiffKey, V: DupValue>(
    m: SourceModel<MapDiff<K>>,
    map: Map<K, V>,
) -> bool {
    forall|i: int|
        0 <= i < m.index.len() ==> ((log_get(m.log, (#[trigger] m.index[i]).1) matches MapDiff::Insert {
            ..
        }) ==> map.contains_key(m.index[i].0))
}

/// The state shared by an observable map and all of its readers and
/// signals: the authoritative map plus the diff log.
pub struct MutableHashMapState<K: DiffKey, V: DupValue> {
    hash_map: KeyMap<K, V>,
    pull_source: StructrualSignalPullSource<MapDiff<K>>,
}

impl<K: DiffKey, V: DupValue> MutableHashMapState<K, V> {
    /// The mathematical content of the map.
    pub closed spec fn map_view(&self) -> Map<K, V> {
        self.hash_map@
    }

    /// The model of the embedded diff log.
    pub closed spec fn source(&self) -> SourceModel<MapDiff<K>> {
        self.pull_source@
    }

    /// Internal consistency: map, log and the compaction invariant tying
    /// them together.
    pub closed spec fn wf(&self) -> bool {
        &&& self.hash_map.wf()
        &&& self.pull_source.wf()
        &&& map_compaction_inv(self.source(), self.map_view())
        &&& !spec_has_listener(self.source()) ==> self.source().index.len() == 0
    }

    /// Room for one more logged diff.
    pub open spec fn can_log(&self) -> bool {
        self.source().next_diff < usize::MAX
    }

    /// Room for one more subscriber.
    pub open spec fn can_subscribe(&self) -> bool {
        self.source().next_id < usize::MAX
    }

    /// An empty observable map with no history and no consumers.
    pub fn new() -> (r: MutableHashMapState<K, V>)
        ensures
            r.wf(),
            r.map_view() == Map::<K, V>::empty(),
            r.source().log == Seq::<(usize, MapDiff<K>)>::empty(),
            r.source().index == Seq::<(K, usize)>::empty(),
            r.source().cursors == Seq::<(usize, usize)>::empty(),
            r.source().next_diff == 1,
            r.source().next_id == 1,
    {
        MutableHashMapState {
            hash_map: KeyMap::new(),
            pull_source: StructrualSignalPullSource::new(),
        }
    }

    /// Whether another mutation can still be logged.
    pub fn can_log_now(&self) -> (r: bool)
        ensures
            r == self.can_log(),
    {
        self.pull_source.has_room()
    }

    /// Whether `extra` more mutations can still be logged.
    pub fn can_log_batch(&self, extra: usize) -> (r: bool)
        ensures
            r == (self.source().next_diff + extra <= usize::MAX),
    {
        self.pull_source.has_room_for(extra)
    }

    /// The current value at `key`, if any.
    pub fn get(&self, key: &K) -> (r: Option<&V>)
        requires
            self.wf(),
        ensures
            match r {
                Some(v) => self.map_view().contains_key(*key) && *v == self.map_view()[*key],
                None => !self.map_view().contains_key(*key),
            },
    {
        self.hash_map.get(key)
    }

    /// Whether the map currently holds a value for `key`.
    pub fn contains_key(&self, key: &K) -> (r: bool)
        requires
            self.wf(),
        ensures
            r == self.map_view().contains_key(*key),
    {
        self.hash_map.contains_key(key)
    }

    /// An immutable snapshot of the current state; future mutations do
    /// not alter it.
    pub fn snapshot(&self) -> (r: KeyMap<K, V>)
        requires
            self.wf(),
        ensures
            r.wf(),
            r@ == self.map_view(),
    {
        self.hash_map.dup()
    }

    /// Insert a value at a key, returning the value previously there.
    /// A fresh key logs an insert diff; an existing key logs an update.
    pub fn insert(&mut self, k: K, v: V) -> (r: Option<V>)
        requires
            old(self).wf(),
            old(self).can_log(),
        ensures
            final(self).wf(),
            final(self).map_view() == old(self).map_view().insert(k, v),
            final(self).source() == (if old(self).map_view().contains_key(k) {
                spec_add_diff(old(self).source(), MapDiff::Update { key: k })
            } else {
                spec_add_diff(old(self).source(), MapDiff::Insert { key: k })
            }),
            match r {
                Some(prev) => old(self).map_view().contains_key(k) && prev == old(
                    self,
                ).map_view()[k],
                None => !old(self).map_view().contains_key(k),
            },
    {
        let ghost m0 = self.source();
        let ghost map0 = self.map_view();
        let remember_k = k.dup();
        let result = self.hash_map.insert(k, v);
        let ghost map2 = self.map_view();
        if result.is_none() {
            let d = MapDiff::Insert { key: remember_k };
            proof {
                lemma_map_inv_after_add(m0, map0, d, map2);
            }
            self.pull_source.add_diff(d);
        } else {
            let d = MapDiff::Update { key: remember_k };
            proof {
                lemma_map_inv_after_add(m0, map0, d, map2);
            }
            self.pull_source.add_diff(d);
        }
        result
    }

    /// Remove and return the value at a key; removing an absent key does
    /// nothing and logs nothing.
    pub fn remove(&mut self, k: &K) -> (r: Option<V>)
        requires
            old(self).wf(),
            old(self).can_log(),
        ensures
            final(self).wf(),
            final(self).map_view() == old(self).map_view().remove(*k),
            final(self).source() == (if old(self).map_view().contains_key(*k) {
                spec_add_diff(old(self).source(), MapDiff::Remove { key: *k })
            } else {
                old(self).source()
            }),
            match r {
                Some(prev) => old(self).map_view().contains_key(*k) && prev == old(
                    self,
                ).map_view()[*k],
                None => !old(self).map_view().contains_key(*k),
            },
    {
        let ghost m0 = self.source();
        let ghost map0 = self.map_view();
        let result = self.hash_map.remove(k);
        if result.is_none() {
            return None;
        }
        let d = MapDiff::Remove { key: k.dup() };
        proof {
            lemma_map_inv_after_add(m0, map0, d, self.map_view());
        }
        self.pull_source.add_diff(d);
        result
    }

    /// Replace the entire contents with the given entries (later entries
    /// winning on key collisions) and log one global replace diff.
    pub fn replace(&mut self, entries: Vec<(K, V)>)
        requires
            old(self).wf(),
            old(self).can_log(),
        ensures
            final(self).wf(),
            final(self).map_view() == kv_map(entries@),
            final(self).source() == spec_add_diff(old(self).source(), MapDiff::Replace {}),
    {
        let ghost m0 = self.source();
        let ghost map0 = self.map_view();
        self.hash_map.clear();
        let ghost es = entries@;
        let mut i: usize = 0;
        proof {
            assert(kv_map(es.take(0)) =~= Map::<K, V>::empty());
        }
        while i < entries.len()
            invariant
                0 <= i <= es.len(),
                entries@ == es,
                self.hash_map.wf(),
                self.hash_map@ == kv_map(es.take(i as int)),
                self.pull_source@ == m0,
                model_wf(m0),
                m0.next_diff < usize::MAX,
            decreases es.len() - i,
        {
            let k = entries[i].0.dup();
            let v = entries[i].1.dup();
            self.hash_map.insert(k, v);
            proof {
                assert(es.take(i + 1).drop_last() =~= es.take(i as int));
                assert(es.take(i + 1).last() == es[i as int]);
            }
            i += 1;
        }
        proof {
            assert(es.take(es.len() as int) =~= es);
            lemma_map_inv_after_add(m0, map0, MapDiff::Replace {}, self.map_view());
        }
        self.pull_source.add_diff(MapDiff::Replace {});
    }

    /// Remove every entry; an already empty map does nothing and logs
    /// nothing.
    pub fn clear(&mut self)
        requires
            old(self).wf(),
            old(self).can_log(),
        ensures
            final(self).wf(),
            final(self).map_view() =~= Map::<K, V>::empty(),
            final(self).source() == (if old(self).map_view() =~= Map::<K, V>::empty() {
                old(self).source()
            } else {
                spec_add_diff(old(self).source(), MapDiff::Clear {})
            }),
    {
        let ghost m0 = self.source();
        let ghost map0 = self.map_view();
        if self.hash_map.is_empty() {
            return ;
        }
        self.hash_map.clear();
        proof {
            lemma_map_inv_after_add(m0, map0, MapDiff::Clear {}, self.map_view());
        }
        self.pull_source.add_diff(MapDiff::Clear {});
    }
}

impl<K: DiffKey, V: DupValue> PullSourceHost for MutableHashMapState<K, V> {
    type DiffType = MapDiff<K>;

    type EventType = HashMapEvent<K, V>;

    open spec fn host_wf(&self) -> bool {
        self.wf()
    }

    open spec fn host_source(&self) -> SourceModel<MapDiff<K>> {
        self.source()
    }

    open spec fn event_wf(event: HashMapEvent<K, V>) -> bool {
        event.wf()
    }

    open spec fn event_spec(
        &self,
        diffs: Seq<MapDiff<K>>,
        event: HashMapEvent<K, V>,
    ) -> bool {
        &&& event.snapshot@ == self.map_view()
        &&& event.snapshot.wf()
        &&& event.diffs@ == diffs
    }

    fn subscribe(&mut self) -> (id: SignalId) {
        self.pull_source.get_next_signal_id()
    }

    fn pull_diffs(&mut self, id: SignalId) -> (r: Vec<MapDiff<K>>) {
        let ghost m0 = self.source();
        let r = self.pull_source.pull_signal(id);
        proof {
            let m2 = spec_pull_state(m0, id);
            if entry_lookup(m0.cursors, id) == Some((m0.next_diff - 1) as usize) {
                assert(m2.index == m0.index && m2.log == m0.log);
            } else {
                assert(m2.index.len() == 0);
            }
        }
        r
    }

    fn make_event(&self, diffs: Vec<MapDiff<K>>) -> (r: HashMapEvent<K, V>) {
        HashMapEvent { snapshot: self.hash_map.dup(), diffs }
    }
}

/// After a mutation whose map change matches its diff, the compaction
/// invariant still ties the new log to the new map, and the diff was
/// mergeable with whatever was open for its key.
proof fn lemma_map_inv_after_add<K: DiffKey, V: DupValue>(
    m: SourceModel<MapDiff<K>>,
    map: Map<K, V>,
    d: MapDiff<K>,
    map2: Map<K, V>,
)
    requires
        model_wf(m),
        m.next_diff < usize::MAX,
        map_compaction_inv(m, map),
        !spec_has_listener(m) ==> m.index.len() == 0,
        d matches MapDiff::Insert { key } ==> !map.contains_key(key) && map2.contains_key(key),
        d matches MapDiff::Update { key } ==> map2.contains_key(key),
        forall|k2: K|
            map.contains_key(k2) && match d {
                MapDiff::Insert { .. } => true,
                MapDiff::Update { .. } => true,
                MapDiff::Remove { key } => k2 != key,
                MapDiff::Replace {} => false,
                MapDiff::Clear {} => false,
            } ==> map2.contains_key(k2),
    ensures
        spec_mergeable(m, d),
        map_compaction_inv(spec_add_diff(m, d), map2),
{
    let m2 = spec_add_diff(m, d);
    if !spec_has_listener(m) {
        // no subscriber: the source is untouched and its index is empty
        assert(m2 == m);
        return ;
    }
    match d.key_spec() {
        None => {
            assert(m2.index.len() == 0);
        },
        Some(k) => {
            match entry_lookup(m.index, k) {
                None => {
                    // no collision: the diff is appended and becomes open
                    assert(spec_mergeable(m, d));
                    assert forall|i: int|
                        0 <= i < m2.index.len() implies ((log_get(
                        m2.log,
                        (#[trigger] m2.index[i]).1,
                    ) matches MapDiff::Insert { .. }) ==> map2.contains_key(m2.index[i].0)) by {
                        if i < m.index.len() {
                            assert(m2.index[i] == m.index[i]);
                            lemma_log_get_stable_push(m.log, (m.next_diff, d), m.index[i].1);
                            if log_get(m2.log, m2.index[i].1) matches MapDiff::Insert { .. } {
                                assert(map.contains_key(m.index[i].0));
                                if d matches MapDiff::Remove { key } && m.index[i].0 == key {
                                    // a removed key cannot have an open diff here:
                                    // its open entry would have collided
                                    crate::pull_source::lemma_entry_lookup_none(m.index, k);
                                    assert(false);
                                }
                            }
                        } else {
                            assert(m2.index[i] == ((k, m.next_diff)));
                            lemma_log_pos_at(m2.log, m.next_diff, m.log.len() as int);
                            assert(log_get(m2.log, m.next_diff) == d);
                            if d matches MapDiff::Insert { .. } {
                                assert(map2.contains_key(k));
                            }
                        }
                    }
                },
                Some(n) => {
                    let p = lemma_entry_lookup_pos(m.index, k);
                    let prev = log_get(m.log, n);
                    // mergeable: an open insert would mean the key is in the
                    // map, so the incoming diff cannot itself be an insert
                    if prev matches MapDiff::Insert { .. } {
                        assert(map.contains_key(k));
                        assert(!(d matches MapDiff::Insert { .. }));
                    }
                    assert(spec_mergeable(m, d));
                    let pos = lemma_log_first_pos(m.log, n);
                    let mr = d.merge_spec(&prev);
                    assert(mr.reindex_intermediary_diffs is None);
                    let log_removed = m.log.remove(pos);
                    assert forall|i: int|
                        0 <= i < m2.index.len() implies ((log_get(
                        m2.log,
                        (#[trigger] m2.index[i]).1,
                    ) matches MapDiff::Insert { .. }) ==> map2.contains_key(m2.index[i].0)) by {
                        crate::pull_source::lemma_entry_ops_at(m.index, k, p, m.next_diff);
                        match mr.outcome {
                            crate::pull_source::DiffMergeOutcome::Ignore => {
                                // everything is back as it was
                                assert(m2.index == m.index);
                                assert(m2.log =~= m.log) by {
                                    assert(log_removed.insert(pos, (n, prev)) =~= m.log);
                                }
                                match d {
                                    MapDiff::Remove { key } => {
                                        // remove on an open insert discards
                                        // both, so this outcome cannot be it
                                        assert(!(prev matches MapDiff::Insert { .. }));
                                        assert(false);
                                    },
                                    _ => {
                                        assert(map.contains_key(m.index[i].0) ==> map2.contains_key(
                                            m.index[i].0,
                                        ));
                                    },
                                }
                            },
                            crate::pull_source::DiffMergeOutcome::DiscardBoth => {
                                assert(m2.index == crate::pull_source::entry_remove(m.index, k));
                                assert(m2.index == m.index.remove(p));
                                let iorig: int = if i < p {
                                    i
                                } else {
                                    i + 1
                                };
                                assert(m2.index[i] == m.index[iorig]);
                                assert(m.index[iorig].0 != k);
                                assert(m.index[iorig].1 != n);
                                lemma_log_get_stable_remove(m.log, pos, m.index[iorig].1);
                                assert(map.contains_key(m.index[iorig].0) ==> map2.contains_key(
                                    m.index[iorig].0,
                                ));
                            },
                            crate::pull_source::DiffMergeOutcome::Replace => {
                                // the open entry now points at the freshly
                                // appended diff
                                assert(m2.log == log_removed.push((m.next_diff, d)));
                                assert(m2.index == m.index.update(p, (k, m.next_diff)));
                                if i == p {
                                    assert(m2.index[i] == ((k, m.next_diff)));
                                    assert(forall|j: int|
                                        0 <= j < log_removed.len() ==> (
                                        #[trigger] log_removed[j]).0 != m.next_diff) by {
                                        assert(forall|j: int|
                                            0 <= j < pos ==> (#[trigger] log_removed[j])
                                                == m.log[j]);
                                        assert(forall|j: int|
                                            pos <= j < log_removed.len() ==> (
                                            #[trigger] log_removed[j]) == m.log[j + 1]);
                                    }
                                    lemma_log_pos_at(m2.log, m.next_diff, log_removed.len() as int);
                                    assert(log_get(m2.log, m.next_diff) == d);
                                    match d {
                                        MapDiff::Insert { key } => {
                                            assert(map2.contains_key(key));
                                        },
                                        _ => {},
                                    }
                                } else {
                                    assert(m2.index[i] == m.index[i]);
                                    assert(m.index[i].1 != n);
                                    lemma_log_get_stable_remove(m.log, pos, m.index[i].1);
                                    lemma_log_get_stable_push(
                                        log_removed,
                                        (m.next_diff, d),
                                        m.index[i].1,
                                    );
                                    match d {
                                        MapDiff::Remove { key } => {
                                            assert(m.index[i].0 != key);
                                            assert(map.contains_key(m.index[i].0)
                                                ==> map2.contains_key(m.index[i].0));
                                        },
                                        _ => {
                                            assert(map.contains_key(m.index[i].0)
                                                ==> map2.contains_key(m.index[i].0));
                                        },
                                    }
                                }
                            },
                            _ => {
                                // keyed merge policies never merge or keep
                                // both diffs
                                assert(false);
                            },
                        }
                    }
                },
            }
        },
    }
}

} // verus!
