//! Conveniences on signals of keyed-collection events: watching one key,
//! mapping values, filtering entries.

use crate::key_map::KeyMap;
use crate::keys::{DiffKey, DupValue};
use crate::map_event::{HashMapEvent, MapDiff};
use crate::map_transforms::{FilterHashMapTransformer, MapHashMapTransformer};
use crate::signal::{PollChange, StructuralSignal};
use crate::transformer::TransformedStructuralSignal;
use vstd::prelude::*;

verus! {

/// A last-value signal tracking one key of a keyed collection: it fires
/// whenever a delivered batch touches that key (or replaces the whole
/// collection), carrying the key's current value.
#[verifier::reject_recursive_types(K)]
#[verifier::reject_recursive_types(V)]
pub struct SignalHashMapKeyWatcher<K: DiffKey, V: DupValue, S> where
    S: StructuralSignal<Item = HashMapEvent<K, V>>,
 {
    signal: S,
    key: K,
}

/// Whether a batch touches one key: some diff names it, or some diff is
/// global and so affects every key.
pub open spec fn batch_touches<K>(diffs: Seq<MapDiff<K>>, key: K) -> bool {
    exists|i: int|
        0 <= i < diffs.len() && ((#[trigger] diffs[i]) == MapDiff::Insert { key } || diffs[i]
            == MapDiff::Update { key } || diffs[i] == MapDiff::Remove { key } || diffs[i]
            == MapDiff::<K>::Replace {} || diffs[i] == MapDiff::<K>::Clear {})
}

impl<K: DiffKey, V: DupValue, S> SignalHashMapKeyWatcher<K, V, S> where
    S: StructuralSignal<Item = HashMapEvent<K, V>>,
 {
    /// The key this watcher tracks.
    pub closed spec fn watched(&self) -> K {
        self.key
    }

    /// Watch `key` through the given signal.
    pub fn new(signal: S, key: K) -> (r: SignalHashMapKeyWatcher<K, V, S>)
        requires
            signal.sig_wf(),
            forall|e: HashMapEvent<K, V>| #[trigger] S::item_wf(e) ==> e.wf(),
        ensures
            r.sig_wf(),
            r.watched() == key,
    {
        SignalHashMapKeyWatcher { signal, key }
    }

    /// Poll once: a delivery happens exactly when the inner signal
    /// delivered a batch touching the watched key, and carries that
    /// key's value in the attached snapshot — its current value.
    pub fn poll_watch(&mut self) -> (r: PollChange<Option<V>>)
        requires
            old(self).sig_wf(),
        ensures
            final(self).sig_wf(),
            final(self).watched() == old(self).watched(),
            r matches PollChange::Ready(v) ==> final(self).poll_fuel() < old(self).poll_fuel(),
            !(r matches PollChange::Ready(v)) ==> final(self).poll_fuel() <= old(
                self,
            ).poll_fuel(),
            r matches PollChange::Ready(v) ==> exists|e: HashMapEvent<K, V>|
                {
                    &&& #[trigger] S::item_wf(e)
                    &&& batch_touches(e.diffs@, old(self).watched())
                    &&& v == (if e.snapshot@.contains_key(old(self).watched()) {
                        Some(e.snapshot@[old(self).watched()])
                    } else {
                        None::<V>
                    })
                },
    {
        match self.signal.poll_change() {
            PollChange::Ready(event) => {
                let ghost ev = event;
                let ghost diffs = event.diffs@;
                let mut relevant = false;
                let mut i: usize = 0;
                while i < event.diffs.len()
                    invariant
                        0 <= i <= diffs.len(),
                        event.diffs@ == diffs,
                        self.key == old(self).key,
                        relevant == batch_touches(diffs.take(i as int), self.key),
                    decreases diffs.len() - i,
                {
                    let ghost before = diffs.take(i as int);
                    let ghost now = diffs.take(i + 1);
                    match &event.diffs[i] {
                        MapDiff::Insert { key } => {
                            if key.same(&self.key) {
                                relevant = true;
                            }
                        },
                        MapDiff::Update { key } => {
                            if key.same(&self.key) {
                                relevant = true;
                            }
                        },
                        MapDiff::Remove { key } => {
                            if key.same(&self.key) {
                                relevant = true;
                            }
                        },
                        MapDiff::Replace {} => {
                            relevant = true;
                        },
                        MapDiff::Clear {} => {
                            relevant = true;
                        },
                    }
                    proof {
                        assert(now =~= before.push(diffs[i as int]));
                        lemma_batch_touches_push(before, diffs[i as int], self.key);
                    }
                    i += 1;
                }
                proof {
                    assert(diffs.take(diffs.len() as int) =~= diffs);
                }
                if relevant {
                    let out = match event.snapshot.get(&self.key) {
                        Some(v) => Some(v.dup()),
                        None => None,
                    };
                    proof {
                        assert(S::item_wf(ev) && batch_touches(ev.diffs@, old(self).watched())
                            && out == (if ev.snapshot@.contains_key(old(self).watched()) {
                            Some(ev.snapshot@[old(self).watched()])
                        } else {
                            None::<V>
                        }));
                    }
                    PollChange::Ready(out)
                } else {
                    PollChange::Pending
                }
            },
            PollChange::Closed => PollChange::Closed,
            PollChange::Pending => PollChange::Pending,
        }
    }
}

impl<K: DiffKey, V: DupValue, S> StructuralSignal for SignalHashMapKeyWatcher<K, V, S> where
    S: StructuralSignal<Item = HashMapEvent<K, V>>,
 {
    type Item = Option<V>;

    closed spec fn sig_wf(&self) -> bool {
        &&& self.signal.sig_wf()
        &&& forall|e: HashMapEvent<K, V>| #[trigger] S::item_wf(e) ==> e.wf()
    }

    open spec fn item_wf(item: Option<V>) -> bool {
        true
    }

    closed spec fn poll_fuel(&self) -> nat {
        self.signal.poll_fuel()
    }

    fn poll_change(&mut self) -> (r: PollChange<Option<V>>) {
        self.poll_watch()
    }
}

/// Whether a batch extended by one diff touches a key.
proof fn lemma_batch_touches_push<K>(diffs: Seq<MapDiff<K>>, d: MapDiff<K>, key: K)
    ensures
        batch_touches(diffs.push(d), key) == (batch_touches(diffs, key) || d == MapDiff::Insert {
            key,
        } || d == MapDiff::Update { key } || d == MapDiff::Remove { key } || d
            == MapDiff::<K>::Replace {} || d == MapDiff::<K>::Clear {}),
{
    let ext = diffs.push(d);
    if batch_touches(diffs, key) {
        let i = choose|i: int|
            0 <= i < diffs.len() && ((#[trigger] diffs[i]) == MapDiff::Insert { key } || diffs[i]
                == MapDiff::Update { key } || diffs[i] == MapDiff::Remove { key } || diffs[i]
                == MapDiff::<K>::Replace {} || diffs[i] == MapDiff::<K>::Clear {});
        assert(ext[i] == diffs[i]);
    }
    let hits = d == MapDiff::Insert { key } || d == MapDiff::Update { key } || d
        == MapDiff::Remove { key } || d == MapDiff::<K>::Replace {} || d
        == MapDiff::<K>::Clear {};
    if hits {
        assert(ext[diffs.len() as int] == d);
    }
    if batch_touches(ext, key) && !batch_touches(diffs, key) {
        let i = choose|i: int|
            0 <= i < ext.len() && ((#[trigger] ext[i]) == MapDiff::Insert { key } || ext[i]
                == MapDiff::Update { key } || ext[i] == MapDiff::Remove { key } || ext[i]
                == MapDiff::<K>::Replace {} || ext[i] == MapDiff::<K>::Clear {});
        if i < diffs.len() {
            assert(diffs[i] == ext[i]);
        }
    }
}

/// Transform conveniences on every signal of keyed-collection events.
pub trait SignalHashMapExt<K: DiffKey, V: DupValue>: StructuralSignal<
    Item = HashMapEvent<K, V>,
> + Sized {
    /// A signal tracking the value of one key.
    fn get_signal_for_key(self, key: K) -> (r: SignalHashMapKeyWatcher<K, V, Self>)
        requires
            self.sig_wf(),
            forall|e: HashMapEvent<K, V>| #[trigger] Self::item_wf(e) ==> e.wf(),
        ensures
            r.sig_wf(),
    ;

    /// A signal mirroring this one with every value run through a
    /// mapping function.
    fn map_values<OV: DupValue, F: Fn(V) -> OV>(self, map_fn: F) -> (r: TransformedStructuralSignal<
        Self,
        HashMapEvent<K, V>,
        MapHashMapTransformer<K, F, V, OV>,
    >)
        requires
            self.sig_wf(),
            forall|e: HashMapEvent<K, V>| #[trigger] Self::item_wf(e) ==> e.wf(),
            forall|v: V| #[trigger] call_requires(map_fn, (v,)),
        ensures
            r.sig_wf(),
    ;

    /// A signal mirroring this one with only the entries whose value
    /// passes a predicate.
    fn filter<F: Fn(V) -> bool>(self, predicate: F) -> (r: TransformedStructuralSignal<
        Self,
        HashMapEvent<K, V>,
        FilterHashMapTransformer<K, V, F>,
    >)
        requires
            self.sig_wf(),
            forall|e: HashMapEvent<K, V>| #[trigger] Self::item_wf(e) ==> e.wf(),
            forall|v: V| #[trigger] call_requires(predicate, (v,)),
        ensures
            r.sig_wf(),
    ;
}

impl<K: DiffKey, V: DupValue, I> SignalHashMapExt<K, V> for I where
    I: StructuralSignal<Item = HashMapEvent<K, V>>,
 {
    fn get_signal_for_key(self, key: K) -> (r: SignalHashMapKeyWatcher<K, V, Self>) {
        SignalHashMapKeyWatcher::new(self, key)
    }

    fn map_values<OV: DupValue, F: Fn(V) -> OV>(self, map_fn: F) -> (r: TransformedStructuralSignal<
        Self,
        HashMapEvent<K, V>,
        MapHashMapTransformer<K, F, V, OV>,
    >) {
        TransformedStructuralSignal::new(self, MapHashMapTransformer::new(map_fn))
    }

    fn filter<F: Fn(V) -> bool>(self, predicate: F) -> (r: TransformedStructuralSignal<
        Self,
        HashMapEvent<K, V>,
        FilterHashMapTransformer<K, V, F>,
    >) {
        TransformedStructuralSignal::new(self, FilterHashMapTransformer::new(predicate))
    }
}

} // verus!
