//! Transform stages over keyed collections: value mapping and filtering.
//!
//! Each stage mirrors its input collection into an output collection of
//! its own and exposes that collection's diff log, so chained pipelines
//! never forward raw upstream diffs verbatim.

use crate::hash_map::MutableHashMapState;
use crate::key_map::{kv_map, kv_unique, lemma_kv_map_at, lemma_kv_map_contains, KeyMap};
use crate::keys::{DiffKey, DupValue};
use crate::map_event::{HashMapEvent, MapDiff};
use crate::pull_source::{
    lemma_add_diff_counters, lemma_pull_resets_fuel, poll_cursor, spec_cursor_fuel,
    PullSourceHost, SignalId,
};
use crate::signal::PollChange;
use crate::transformer::StructuralSignalTransformer;
use core::marker::PhantomData;
use vstd::prelude::*;

verus! {

/// One diff applied to a mirror whose values stand in relation `fr` to
/// the input values: a keyed diff reads the input value from the
/// snapshot; a global diff re-derives the whole mirror from it.
pub open spec fn map_step_rel<K, IV, OV>(
    m: Map<K, OV>,
    snapshot: Map<K, IV>,
    d: MapDiff<K>,
    fr: spec_fn(IV, OV) -> bool,
    m2: Map<K, OV>,
) -> bool {
    match d {
        MapDiff::Replace {} => {
            &&& m2.dom() =~= snapshot.dom()
            &&& forall|k: K| snapshot.contains_key(k) ==> fr(snapshot[k], #[trigger] m2[k])
        },
        MapDiff::Insert { key } => map_upsert_rel(m, snapshot, key, fr, m2),
        MapDiff::Update { key } => map_upsert_rel(m, snapshot, key, fr, m2),
        MapDiff::Remove { key } => m2 == m.remove(key),
        MapDiff::Clear {} => m2 =~= Map::<K, OV>::empty(),
    }
}

/// An inserted or updated key takes a value related to its snapshot
/// value; a key the snapshot no longer holds changes nothing (its removal
/// follows in the same batch).
pub open spec fn map_upsert_rel<K, IV, OV>(
    m: Map<K, OV>,
    snapshot: Map<K, IV>,
    key: K,
    fr: spec_fn(IV, OV) -> bool,
    m2: Map<K, OV>,
) -> bool {
    if snapshot.contains_key(key) {
        exists|ov: OV| #[trigger] fr(snapshot[key], ov) && m2 == m.insert(key, ov)
    } else {
        m2 == m
    }
}

/// A whole batch applied to the mirror, diff by diff, in order.
pub open spec fn map_apply_rel<K, IV, OV>(
    m: Map<K, OV>,
    snapshot: Map<K, IV>,
    diffs: Seq<MapDiff<K>>,
    fr: spec_fn(IV, OV) -> bool,
    m2: Map<K, OV>,
) -> bool
    decreases diffs.len(),
{
    if diffs.len() == 0 {
        m2 == m
    } else {
        exists|mid: Map<K, OV>|
            #[trigger] map_step_rel(m, snapshot, diffs[0], fr, mid) && map_apply_rel(
                mid,
                snapshot,
                diffs.drop_first(),
                fr,
                m2,
            )
    }
}

/// Extending a batch by one diff extends its application by one step.
pub proof fn lemma_map_apply_rel_snoc<K, IV, OV>(
    m: Map<K, OV>,
    snapshot: Map<K, IV>,
    diffs: Seq<MapDiff<K>>,
    fr: spec_fn(IV, OV) -> bool,
    m1: Map<K, OV>,
    d: MapDiff<K>,
    m2: Map<K, OV>,
)
    requires
        map_apply_rel(m, snapshot, diffs, fr, m1),
        map_step_rel(m1, snapshot, d, fr, m2),
    ensures
        map_apply_rel(m, snapshot, diffs.push(d), fr, m2),
    decreases diffs.len(),
{
    if diffs.len() == 0 {
        assert(diffs.push(d)[0] == d);
        assert(diffs.push(d).drop_first() =~= Seq::<MapDiff<K>>::empty());
        assert(map_step_rel(m, snapshot, d, fr, m2));
        assert(map_apply_rel(m2, snapshot, diffs.push(d).drop_first(), fr, m2));
    } else {
        let mid = choose|mid: Map<K, OV>|
            #[trigger] map_step_rel(m, snapshot, diffs[0], fr, mid) && map_apply_rel(
                mid,
                snapshot,
                diffs.drop_first(),
                fr,
                m1,
            );
        lemma_map_apply_rel_snoc(mid, snapshot, diffs.drop_first(), fr, m1, d, m2);
        assert(diffs.push(d)[0] == diffs[0]);
        assert(diffs.push(d).drop_first() =~= diffs.drop_first().push(d));
        assert(map_step_rel(m, snapshot, diffs.push(d)[0], fr, mid) && map_apply_rel(
            mid,
            snapshot,
            diffs.push(d).drop_first(),
            fr,
            m2,
        ));
    }
}

/// Mirrors a keyed collection with every value run through a mapping
/// function.
#[verifier::reject_recursive_types(K)]
#[verifier::reject_recursive_types(OV)]
pub struct MapHashMapTransformer<K: DiffKey, F, IV, OV: DupValue> where F: Fn(IV) -> OV {
    hash_map: MutableHashMapState<K, OV>,
    map_fn: F,
    signal_id: SignalId,
    input_type: PhantomData<IV>,
}

impl<K: DiffKey, F, IV: DupValue, OV: DupValue> MapHashMapTransformer<K, F, IV, OV> where
    F: Fn(IV) -> OV,
 {
    /// The mirrored collection's mathematical content.
    pub closed spec fn mirror(&self) -> Map<K, OV> {
        self.hash_map.map_view()
    }

    /// The relation the mapping function establishes between an input
    /// value and the mirrored value derived from it.
    pub closed spec fn fn_rel(&self) -> spec_fn(IV, OV) -> bool {
        |iv: IV, ov: OV| call_ensures(self.map_fn, (iv,), ov)
    }

    /// The next free sequence number of the mirror's own diff log.
    pub closed spec fn log_counter(&self) -> int {
        self.hash_map.source().next_diff as int
    }

    /// Whether the mirror's log can still number `extra` more diffs.
    pub fn can_absorb(&self, extra: usize) -> (r: bool)
        ensures
            r == (self.log_counter() + extra <= usize::MAX),
    {
        self.hash_map.can_log_batch(extra)
    }

    /// A fresh mapping stage over an empty mirror.
    pub fn new(map_fn: F) -> (r: MapHashMapTransformer<K, F, IV, OV>)
        requires
            forall|v: IV| #[trigger] call_requires(map_fn, (v,)),
        ensures
            r.tr_wf(),
    {
        let mut hash_map = MutableHashMapState::<K, OV>::new();
        let signal_id = hash_map.subscribe();
        MapHashMapTransformer { hash_map, map_fn, signal_id, input_type: PhantomData }
    }

    /// Apply one incoming batch to the mirror, diff by diff: the new
    /// mirror is exactly the old one with the batch applied, every
    /// derived value standing in the mapping function's relation to its
    /// snapshot value.
    pub fn apply_event_exact(&mut self, event: HashMapEvent<K, IV>)
        requires
            old(self).tr_wf(),
            event.wf(),
            old(self).log_counter() + event.diffs@.len() <= usize::MAX,
        ensures
            final(self).tr_wf(),
            map_apply_rel(
                old(self).mirror(),
                event.snapshot@,
                event.diffs@,
                old(self).fn_rel(),
                final(self).mirror(),
            ),
    {
        let ghost m_start = self.mirror();
        let ghost fr = self.fn_rel();
        let ghost snap = event.snapshot@;
        let ghost c0 = self.hash_map.source().next_diff;
        let mut i: usize = 0;
        proof {
            assert(event.diffs@.take(0) =~= Seq::<MapDiff<K>>::empty());
        }
        while i < event.diffs.len()
            invariant
                0 <= i <= event.diffs@.len(),
                self.hash_map.wf(),
                1 <= self.signal_id < self.hash_map.source().next_id,
                forall|v: IV| #[trigger] call_requires(self.map_fn, (v,)),
                self.map_fn == old(self).map_fn,
                event.snapshot.wf(),
                event.snapshot@ == snap,
                self.hash_map.source().next_diff <= c0 + i,
                c0 + event.diffs@.len() <= usize::MAX,
                fr == old(self).fn_rel(),
                map_apply_rel(m_start, snap, event.diffs@.take(i as int), fr, self.mirror()),
            decreases event.diffs@.len() - i,
        {
            let ghost m_before = self.mirror();
            let ghost d = event.diffs@[i as int];
            let ghost src_before = self.hash_map.source();
            match &event.diffs[i] {
                MapDiff::Replace {} => {
                    let entries = event.snapshot.to_entries();
                    let mut mapped: Vec<(K, OV)> = Vec::new();
                    let mut j: usize = 0;
                    while j < entries.len()
                        invariant
                            0 <= j <= entries@.len(),
                            forall|v: IV| #[trigger] call_requires(self.map_fn, (v,)),
                            self.map_fn == old(self).map_fn,
                            fr == old(self).fn_rel(),
                            mapped@.len() == j,
                            forall|jj: int|
                                0 <= jj < j ==> (#[trigger] mapped@[jj]).0 == entries@[jj].0 && fr(
                                    entries@[jj].1,
                                    mapped@[jj].1,
                                ),
                        decreases entries@.len() - j,
                    {
                        let k = entries[j].0.dup();
                        let v = entries[j].1.dup();
                        let mv = (self.map_fn)(v);
                        mapped.push((k, mv));
                        j += 1;
                    }
                    let ghost mappedv = mapped@;
                    proof {
                        lemma_mapped_entries_step(entries@, mappedv, snap, fr);
                    }
                    if self.hash_map.can_log_now() {
                        self.hash_map.replace(mapped);
                    }
                    proof {
                        assert(self.mirror() == kv_map(mappedv));
                        assert(map_step_rel(m_before, snap, d, fr, self.mirror()));
                        lemma_add_diff_counters(src_before, MapDiff::<K>::Replace {});
                    }
                },
                MapDiff::Insert { key } => {
                    self.upsert_step(&event, key, Ghost(m_before), Ghost(fr), Ghost(snap));
                    proof {
                        assert(map_step_rel(m_before, snap, d, fr, self.mirror()));
                    }
                },
                MapDiff::Update { key } => {
                    self.upsert_step(&event, key, Ghost(m_before), Ghost(fr), Ghost(snap));
                    proof {
                        assert(map_step_rel(m_before, snap, d, fr, self.mirror()));
                    }
                },
                MapDiff::Remove { key } => {
                    if self.hash_map.can_log_now() {
                        self.hash_map.remove(key);
                    }
                    proof {
                        assert(map_step_rel(m_before, snap, d, fr, self.mirror()));
                        lemma_add_diff_counters(src_before, MapDiff::Remove { key: *key });
                    }
                },
                MapDiff::Clear {} => {
                    if self.hash_map.can_log_now() {
                        self.hash_map.clear();
                    }
                    proof {
                        assert(map_step_rel(m_before, snap, d, fr, self.mirror()));
                        lemma_add_diff_counters(src_before, MapDiff::<K>::Clear {});
                    }
                },
            }
            proof {
                lemma_map_apply_rel_snoc(
                    m_start,
                    snap,
                    event.diffs@.take(i as int),
                    fr,
                    m_before,
                    d,
                    self.mirror(),
                );
                assert(event.diffs@.take(i + 1) =~= event.diffs@.take(i as int).push(d));
            }
            i += 1;
        }
        proof {
            assert(event.diffs@.take(event.diffs@.len() as int) =~= event.diffs@);
        }
    }

    /// One inserted or updated key applied to the mirror.
    fn upsert_step(
        &mut self,
        event: &HashMapEvent<K, IV>,
        key: &K,
        Ghost(m_before): Ghost<Map<K, OV>>,
        Ghost(fr): Ghost<spec_fn(IV, OV) -> bool>,
        Ghost(snap): Ghost<Map<K, IV>>,
    )
        requires
            old(self).tr_wf(),
            event.snapshot.wf(),
            event.snapshot@ == snap,
            m_before == old(self).mirror(),
            fr == old(self).fn_rel(),
            old(self).log_counter() < usize::MAX,
        ensures
            final(self).tr_wf(),
            final(self).map_fn == old(self).map_fn,
            final(self).fn_rel() == old(self).fn_rel(),
            final(self).log_counter() <= old(self).log_counter() + 1,
            final(self).hash_map.source().next_id == old(self).hash_map.source().next_id,
            map_upsert_rel(m_before, snap, *key, fr, final(self).mirror()),
    {
        let ghost src_before = self.hash_map.source();
        match event.snapshot.get(key) {
            Some(v) => {
                let ghost iv = *v;
                let mv = (self.map_fn)(v.dup());
                let ghost ov = mv;
                if self.hash_map.can_log_now() {
                    self.hash_map.insert(key.dup(), mv);
                }
                proof {
                    assert(fr(snap[*key], ov));
                    assert(self.mirror() == m_before.insert(*key, ov));
                    lemma_add_diff_counters(src_before, MapDiff::Insert { key: *key });
                    lemma_add_diff_counters(src_before, MapDiff::Update { key: *key });
                }
            },
            None => {},
        }
    }
}

/// The entries of a mirrored replace stand, key for key, in the mapping
/// relation to the snapshot's entries.
proof fn lemma_mapped_entries_step<K: DiffKey, IV, OV>(
    entries: Seq<(K, IV)>,
    mapped: Seq<(K, OV)>,
    snap: Map<K, IV>,
    fr: spec_fn(IV, OV) -> bool,
)
    requires
        kv_unique(entries),
        kv_map(entries) == snap,
        mapped.len() == entries.len(),
        forall|jj: int|
            0 <= jj < mapped.len() ==> (#[trigger] mapped[jj]).0 == entries[jj].0 && fr(
                entries[jj].1,
                mapped[jj].1,
            ),
    ensures
        kv_map(mapped).dom() =~= snap.dom(),
        forall|k: K| snap.contains_key(k) ==> fr(snap[k], #[trigger] kv_map(mapped)[k]),
{
    assert(kv_unique(mapped));
    assert forall|k: K| kv_map(mapped).contains_key(k) == snap.contains_key(k) by {
        lemma_kv_map_contains(mapped, k);
        lemma_kv_map_contains(entries, k);
        if kv_map(mapped).contains_key(k) {
            let jj = choose|jj: int| 0 <= jj < mapped.len() && (#[trigger] mapped[jj]).0 == k;
            assert(entries[jj].0 == k);
        }
        if snap.contains_key(k) {
            let jj = choose|jj: int| 0 <= jj < entries.len() && (#[trigger] entries[jj]).0 == k;
            assert(mapped[jj].0 == k);
        }
    }
    assert forall|k: K| snap.contains_key(k) implies fr(snap[k], #[trigger] kv_map(mapped)[k]) by {
        lemma_kv_map_contains(entries, k);
        let jj = choose|jj: int| 0 <= jj < entries.len() && (#[trigger] entries[jj]).0 == k;
        lemma_kv_map_at(entries, jj);
        lemma_kv_map_at(mapped, jj);
    }
}

impl<K: DiffKey, F, IV: DupValue, OV: DupValue> StructuralSignalTransformer for MapHashMapTransformer<
    K,
    F,
    IV,
    OV,
> where F: Fn(IV) -> OV {
    type InputEvent = HashMapEvent<K, IV>;

    type OutputEvent = HashMapEvent<K, OV>;

    closed spec fn tr_wf(&self) -> bool {
        &&& self.hash_map.wf()
        &&& 1 <= self.signal_id < self.hash_map.source().next_id
        &&& forall|v: IV| #[trigger] call_requires(self.map_fn, (v,))
    }

    open spec fn input_ok(event: HashMapEvent<K, IV>) -> bool {
        event.wf()
    }

    open spec fn output_ok(event: HashMapEvent<K, OV>) -> bool {
        event.wf()
    }

    closed spec fn tr_fuel(&self) -> nat {
        spec_cursor_fuel(self.hash_map.source(), self.signal_id)
    }

    fn apply_event(&mut self, event: HashMapEvent<K, IV>) {
        if self.can_absorb(event.diffs.len()) {
            self.apply_event_exact(event);
        }
        // else: the mirror's log cannot number this batch; the batch is
        // dropped, which the sequence counter's width makes unreachable
    }

    fn poll_output(&mut self) -> (r: PollChange<HashMapEvent<K, OV>>) {
        proof {
            lemma_pull_resets_fuel(self.hash_map.source(), self.signal_id);
        }
        poll_cursor(&mut self.hash_map, self.signal_id)
    }
}

/// One diff applied to a filtered mirror without ending the batch: a
/// replace re-derives the mirror as a predicate-approved subset of the
/// snapshot; an inserted or updated value that fails the predicate leaves
/// the mirror (if it was there); removals pass through.
pub open spec fn filter_step_rel<K, V>(
    m: Map<K, V>,
    snapshot: Map<K, V>,
    d: MapDiff<K>,
    prb: spec_fn(V, bool) -> bool,
    m2: Map<K, V>,
) -> bool {
    match d {
        MapDiff::Replace {} => {
            &&& forall|k: K|
                #[trigger] m2.contains_key(k) ==> snapshot.contains_key(k) && m2[k] == snapshot[k]
                    && prb(snapshot[k], true)
            &&& forall|k: K|
                #[trigger] snapshot.contains_key(k) && !m2.contains_key(k) ==> prb(
                    snapshot[k],
                    false,
                )
        },
        MapDiff::Insert { key } => filter_drop_rel(m, snapshot, key, prb, m2),
        MapDiff::Update { key } => filter_drop_rel(m, snapshot, key, prb, m2),
        MapDiff::Remove { key } => m2 == m.remove(key),
        MapDiff::Clear {} => m2 =~= Map::<K, V>::empty(),
    }
}

/// The non-passing half of an upsert: the value failed the predicate, so
/// the key leaves the mirror; a key absent from the snapshot changes
/// nothing.
pub open spec fn filter_drop_rel<K, V>(
    m: Map<K, V>,
    snapshot: Map<K, V>,
    key: K,
    prb: spec_fn(V, bool) -> bool,
    m2: Map<K, V>,
) -> bool {
    if snapshot.contains_key(key) {
        prb(snapshot[key], false) && m2 =~= m.remove(key)
    } else {
        m2 == m
    }
}

/// A batch of non-stopping steps applied in order.
pub open spec fn filter_steps_rel<K, V>(
    m: Map<K, V>,
    snapshot: Map<K, V>,
    diffs: Seq<MapDiff<K>>,
    prb: spec_fn(V, bool) -> bool,
    m2: Map<K, V>,
) -> bool
    decreases diffs.len(),
{
    if diffs.len() == 0 {
        m2 == m
    } else {
        exists|mid: Map<K, V>|
            #[trigger] filter_step_rel(m, snapshot, diffs[0], prb, mid) && filter_steps_rel(
                mid,
                snapshot,
                diffs.drop_first(),
                prb,
                m2,
            )
    }
}

/// A whole batch applied to a filtered mirror. An inserted or updated
/// value that passes the predicate enters the mirror and ends the batch
/// there — the remaining diffs of that batch are dropped.
pub open spec fn filter_apply_rel<K, V>(
    m: Map<K, V>,
    snapshot: Map<K, V>,
    diffs: Seq<MapDiff<K>>,
    prb: spec_fn(V, bool) -> bool,
    m2: Map<K, V>,
) -> bool
    decreases diffs.len(),
{
    if diffs.len() == 0 {
        m2 == m
    } else {
        ||| (match diffs[0] {
            MapDiff::Insert { key } => snapshot.contains_key(key) && prb(snapshot[key], true)
                && m2 == m.insert(key, snapshot[key]),
            MapDiff::Update { key } => snapshot.contains_key(key) && prb(snapshot[key], true)
                && m2 == m.insert(key, snapshot[key]),
            _ => false,
        })
        ||| (exists|mid: Map<K, V>|
            #[trigger] filter_step_rel(m, snapshot, diffs[0], prb, mid) && filter_apply_rel(
                mid,
                snapshot,
                diffs.drop_first(),
                prb,
                m2,
            ))
    }
}

/// Non-stopping steps over a prefix compose with whatever the rest of
/// the batch does.
pub proof fn lemma_filter_apply_glue<K, V>(
    m0: Map<K, V>,
    snapshot: Map<K, V>,
    prefix: Seq<MapDiff<K>>,
    prb: spec_fn(V, bool) -> bool,
    m1: Map<K, V>,
    rest: Seq<MapDiff<K>>,
    m2: Map<K, V>,
)
    requires
        filter_steps_rel(m0, snapshot, prefix, prb, m1),
        filter_apply_rel(m1, snapshot, rest, prb, m2),
    ensures
        filter_apply_rel(m0, snapshot, prefix + rest, prb, m2),
    decreases prefix.len(),
{
    if prefix.len() == 0 {
        assert(prefix + rest =~= rest);
    } else {
        let mid = choose|mid: Map<K, V>|
            #[trigger] filter_step_rel(m0, snapshot, prefix[0], prb, mid) && filter_steps_rel(
                mid,
                snapshot,
                prefix.drop_first(),
                prb,
                m1,
            );
        lemma_filter_apply_glue(mid, snapshot, prefix.drop_first(), prb, m1, rest, m2);
        assert((prefix + rest)[0] == prefix[0]);
        assert((prefix + rest).drop_first() =~= prefix.drop_first() + rest);
        assert(filter_step_rel(m0, snapshot, (prefix + rest)[0], prb, mid) && filter_apply_rel(
            mid,
            snapshot,
            (prefix + rest).drop_first(),
            prb,
            m2,
        ));
    }
}

/// Extending a prefix of non-stopping steps by one more.
pub proof fn lemma_filter_steps_rel_snoc<K, V>(
    m: Map<K, V>,
    snapshot: Map<K, V>,
    diffs: Seq<MapDiff<K>>,
    prb: spec_fn(V, bool) -> bool,
    m1: Map<K, V>,
    d: MapDiff<K>,
    m2: Map<K, V>,
)
    requires
        filter_steps_rel(m, snapshot, diffs, prb, m1),
        filter_step_rel(m1, snapshot, d, prb, m2),
    ensures
        filter_steps_rel(m, snapshot, diffs.push(d), prb, m2),
    decreases diffs.len(),
{
    if diffs.len() == 0 {
        assert(diffs.push(d)[0] == d);
        assert(diffs.push(d).drop_first() =~= Seq::<MapDiff<K>>::empty());
        assert(filter_step_rel(m, snapshot, d, prb, m2));
        assert(filter_steps_rel(m2, snapshot, diffs.push(d).drop_first(), prb, m2));
    } else {
        let mid = choose|mid: Map<K, V>|
            #[trigger] filter_step_rel(m, snapshot, diffs[0], prb, mid) && filter_steps_rel(
                mid,
                snapshot,
                diffs.drop_first(),
                prb,
                m1,
            );
        lemma_filter_steps_rel_snoc(mid, snapshot, diffs.drop_first(), prb, m1, d, m2);
        assert(diffs.push(d)[0] == diffs[0]);
        assert(diffs.push(d).drop_first() =~= diffs.drop_first().push(d));
        assert(filter_step_rel(m, snapshot, diffs.push(d)[0], prb, mid) && filter_steps_rel(
            mid,
            snapshot,
            diffs.push(d).drop_first(),
            prb,
            m2,
        ));
    }
}

/// Mirrors a keyed collection keeping only the entries whose value passes
/// a predicate.
#[verifier::reject_recursive_types(K)]
#[verifier::reject_recursive_types(V)]
pub struct FilterHashMapTransformer<K: DiffKey, V: DupValue, F> where F: Fn(V) -> bool {
    hash_map: MutableHashMapState<K, V>,
    predicate: F,
    signal_id: SignalId,
}

impl<K: DiffKey, V: DupValue, F> FilterHashMapTransformer<K, V, F> where F: Fn(V) -> bool {
    /// The mirrored collection's mathematical content.
    pub closed spec fn mirror(&self) -> Map<K, V> {
        self.hash_map.map_view()
    }

    /// The relation between a value and the predicate's verdict on it.
    pub closed spec fn pred_rel(&self) -> spec_fn(V, bool) -> bool {
        |v: V, b: bool| call_ensures(self.predicate, (v,), b)
    }

    /// The next free sequence number of the mirror's own diff log.
    pub closed spec fn log_counter(&self) -> int {
        self.hash_map.source().next_diff as int
    }

    /// Whether the mirror's log can still number `extra` more diffs.
    pub fn can_absorb(&self, extra: usize) -> (r: bool)
        ensures
            r == (self.log_counter() + extra <= usize::MAX),
    {
        self.hash_map.can_log_batch(extra)
    }

    /// A fresh filtering stage over an empty mirror.
    pub fn new(predicate: F) -> (r: FilterHashMapTransformer<K, V, F>)
        requires
            forall|v: V| #[trigger] call_requires(predicate, (v,)),
        ensures
            r.tr_wf(),
    {
        let mut hash_map = MutableHashMapState::<K, V>::new();
        let signal_id = hash_map.subscribe();
        FilterHashMapTransformer { hash_map, predicate, signal_id }
    }

    /// Apply one incoming batch to the filtered mirror, diff by diff:
    /// the new mirror is exactly the old one with the batch applied,
    /// membership decided by the predicate's observed verdicts.
    pub fn apply_event_exact(&mut self, event: HashMapEvent<K, V>)
        requires
            old(self).tr_wf(),
            event.wf(),
            old(self).log_counter() + event.diffs@.len() <= usize::MAX,
        ensures
            final(self).tr_wf(),
            filter_apply_rel(
                old(self).mirror(),
                event.snapshot@,
                event.diffs@,
                old(self).pred_rel(),
                final(self).mirror(),
            ),
    {
        let ghost m_start = self.mirror();
        let ghost prb = self.pred_rel();
        let ghost snap = event.snapshot@;
        let ghost c0 = self.hash_map.source().next_diff;
        let ghost all = event.diffs@;
        let mut i: usize = 0;
        proof {
            assert(all.take(0) =~= Seq::<MapDiff<K>>::empty());
        }
        while i < event.diffs.len()
            invariant
                0 <= i <= all.len(),
                event.diffs@ == all,
                self.hash_map.wf(),
                1 <= self.signal_id < self.hash_map.source().next_id,
                forall|v: V| #[trigger] call_requires(self.predicate, (v,)),
                self.predicate == old(self).predicate,
                event.snapshot.wf(),
                event.snapshot@ == snap,
                self.hash_map.source().next_diff <= c0 + i,
                c0 + all.len() <= usize::MAX,
                prb == old(self).pred_rel(),
                m_start == old(self).mirror(),
                filter_steps_rel(m_start, snap, all.take(i as int), prb, self.mirror()),
            decreases all.len() - i,
        {
            let ghost m_before = self.mirror();
            let ghost d = all[i as int];
            let ghost src_before = self.hash_map.source();
            match &event.diffs[i] {
                MapDiff::Replace {} => {
                    let entries = event.snapshot.to_entries();
                    let mut kept: Vec<(K, V)> = Vec::new();
                    let mut j: usize = 0;
                    while j < entries.len()
                        invariant
                            0 <= j <= entries@.len(),
                            kv_unique(entries@),
                            kv_map(entries@) == snap,
                            forall|v: V| #[trigger] call_requires(self.predicate, (v,)),
                            self.predicate == old(self).predicate,
                            prb == old(self).pred_rel(),
                            forall|a: int|
                                0 <= a < kept@.len() ==> exists|q: int|
                                    0 <= q < j && (#[trigger] kept@[a]) == entries@[q] && prb(
                                        entries@[q].1,
                                        true,
                                    ),
                            forall|q: int|
                                0 <= q < j ==> prb(#[trigger] entries@[q].1, false) || exists|
                                    a: int,
                                |
                                    0 <= a < kept@.len() && (#[trigger] kept@[a]) == entries@[q],
                            forall|a: int, b: int|
                                0 <= a < b < kept@.len() ==> (#[trigger] kept@[a]).0 != (
                                #[trigger] kept@[b]).0,
                        decreases entries@.len() - j,
                    {
                        let ghost kept0 = kept@;
                        let v = entries[j].1.dup();
                        if (self.predicate)(v) {
                            kept.push((entries[j].0.dup(), entries[j].1.dup()));
                            proof {
                                assert(prb(entries@[j as int].1, true));
                                assert(kept@[kept0.len() as int] == entries@[j as int]);
                                assert forall|a: int, b: int|
                                    0 <= a < b < kept@.len() implies (#[trigger] kept@[a]).0 != (
                                #[trigger] kept@[b]).0 by {
                                    if b == kept0.len() {
                                        let q = choose|q: int|
                                            0 <= q < j && (#[trigger] kept0[a]) == entries@[q]
                                                && prb(entries@[q].1, true);
                                        assert(entries@[q].0 != entries@[j as int].0);
                                    }
                                }
                                assert forall|a: int|
                                    0 <= a < kept@.len() implies exists|q: int|
                                    0 <= q < j + 1 && (#[trigger] kept@[a]) == entries@[q] && prb(
                                    entries@[q].1,
                                    true,
                                ) by {
                                    if a < kept0.len() {
                                        let q = choose|q: int|
                                            0 <= q < j && (#[trigger] kept0[a]) == entries@[q]
                                                && prb(entries@[q].1, true);
                                        assert(0 <= q < j + 1 && kept@[a] == entries@[q] && prb(
                                            entries@[q].1,
                                            true,
                                        ));
                                    } else {
                                        assert(0 <= j < j + 1 && kept@[a] == entries@[j as int]
                                            && prb(entries@[j as int].1, true));
                                    }
                                }
                                assert forall|q: int|
                                    0 <= q < j + 1 implies prb(
                                    #[trigger] entries@[q].1,
                                    false,
                                ) || exists|a: int|
                                    0 <= a < kept@.len() && (#[trigger] kept@[a])
                                        == entries@[q] by {
                                    if q < j {
                                        if !prb(entries@[q].1, false) {
                                            let a = choose|a: int|
                                                0 <= a < kept0.len() && (#[trigger] kept0[a])
                                                    == entries@[q];
                                            assert(0 <= a < kept@.len() && kept@[a]
                                                == entries@[q]);
                                        }
                                    } else {
                                        assert(kept@[kept0.len() as int] == entries@[q]);
                                    }
                                }
                            }
                        } else {
                            proof {
                                assert(prb(entries@[j as int].1, false));
                            }
                        }
                        j += 1;
                    }
                    let ghost keptv = kept@;
                    if self.hash_map.can_log_now() {
                        self.hash_map.replace(kept);
                    }
                    proof {
                        assert(self.mirror() == kv_map(keptv));
                        lemma_filter_replace_step(entries@, keptv, snap, prb);
                        assert(filter_step_rel(m_before, snap, d, prb, self.mirror()));
                        lemma_add_diff_counters(src_before, MapDiff::<K>::Replace {});
                        lemma_filter_steps_rel_snoc(
                            m_start,
                            snap,
                            all.take(i as int),
                            prb,
                            m_before,
                            d,
                            self.mirror(),
                        );
                        assert(all.take(i + 1) =~= all.take(i as int).push(d));
                    }
                },
                MapDiff::Insert { key } => {
                    let stop = self.apply_upsert(&event, key, Ghost(m_before), Ghost(prb), Ghost(snap));
                    if stop {
                        proof {
                            lemma_stop_finishes_batch(
                                m_start,
                                snap,
                                all,
                                i as int,
                                prb,
                                m_before,
                                self.mirror(),
                            );
                        }
                        return ;
                    }
                    proof {
                        assert(filter_step_rel(m_before, snap, d, prb, self.mirror()));
                        lemma_filter_steps_rel_snoc(
                            m_start,
                            snap,
                            all.take(i as int),
                            prb,
                            m_before,
                            d,
                            self.mirror(),
                        );
                        assert(all.take(i + 1) =~= all.take(i as int).push(d));
                    }
                },
                MapDiff::Update { key } => {
                    let stop = self.apply_upsert(&event, key, Ghost(m_before), Ghost(prb), Ghost(snap));
                    if stop {
                        proof {
                            lemma_stop_finishes_batch(
                                m_start,
                                snap,
                                all,
                                i as int,
                                prb,
                                m_before,
                                self.mirror(),
                            );
                        }
                        return ;
                    }
                    proof {
                        assert(filter_step_rel(m_before, snap, d, prb, self.mirror()));
                        lemma_filter_steps_rel_snoc(
                            m_start,
                            snap,
                            all.take(i as int),
                            prb,
                            m_before,
                            d,
                            self.mirror(),
                        );
                        assert(all.take(i + 1) =~= all.take(i as int).push(d));
                    }
                },
                MapDiff::Remove { key } => {
                    if self.hash_map.can_log_now() {
                        self.hash_map.remove(key);
                    }
                    proof {
                        assert(filter_step_rel(m_before, snap, d, prb, self.mirror()));
                        lemma_add_diff_counters(src_before, MapDiff::Remove { key: *key });
                        lemma_filter_steps_rel_snoc(
                            m_start,
                            snap,
                            all.take(i as int),
                            prb,
                            m_before,
                            d,
                            self.mirror(),
                        );
                        assert(all.take(i + 1) =~= all.take(i as int).push(d));
                    }
                },
                MapDiff::Clear {} => {
                    if self.hash_map.can_log_now() {
                        self.hash_map.clear();
                    }
                    proof {
                        assert(filter_step_rel(m_before, snap, d, prb, self.mirror()));
                        lemma_add_diff_counters(src_before, MapDiff::<K>::Clear {});
                        lemma_filter_steps_rel_snoc(
                            m_start,
                            snap,
                            all.take(i as int),
                            prb,
                            m_before,
                            d,
                            self.mirror(),
                        );
                        assert(all.take(i + 1) =~= all.take(i as int).push(d));
                    }
                },
            }
            i += 1;
        }
        proof {
            assert(all.take(all.len() as int) =~= all);
            lemma_filter_apply_glue(
                m_start,
                snap,
                all,
                prb,
                self.mirror(),
                Seq::<MapDiff<K>>::empty(),
                self.mirror(),
            );
            assert(all + Seq::<MapDiff<K>>::empty() =~= all);
        }
    }
}

impl<K: DiffKey, V: DupValue, F> StructuralSignalTransformer for FilterHashMapTransformer<
    K,
    V,
    F,
> where F: Fn(V) -> bool {
    type InputEvent = HashMapEvent<K, V>;

    type OutputEvent = HashMapEvent<K, V>;

    closed spec fn tr_wf(&self) -> bool {
        &&& self.hash_map.wf()
        &&& 1 <= self.signal_id < self.hash_map.source().next_id
        &&& forall|v: V| #[trigger] call_requires(self.predicate, (v,))
    }

    open spec fn input_ok(event: HashMapEvent<K, V>) -> bool {
        event.wf()
    }

    open spec fn output_ok(event: HashMapEvent<K, V>) -> bool {
        event.wf()
    }

    closed spec fn tr_fuel(&self) -> nat {
        spec_cursor_fuel(self.hash_map.source(), self.signal_id)
    }

    fn apply_event(&mut self, event: HashMapEvent<K, V>) {
        if self.can_absorb(event.diffs.len()) {
            self.apply_event_exact(event);
        }
        // else: the mirror's log cannot number this batch; the batch is
        // dropped, which the sequence counter's width makes unreachable
    }

    fn poll_output(&mut self) -> (r: PollChange<HashMapEvent<K, V>>) {
        proof {
            lemma_pull_resets_fuel(self.hash_map.source(), self.signal_id);
        }
        poll_cursor(&mut self.hash_map, self.signal_id)
    }
}

impl<K: DiffKey, V: DupValue, F> FilterHashMapTransformer<K, V, F> where F: Fn(V) -> bool {
    /// An inserted or updated value enters the mirror when it passes the
    /// predicate and leaves it when it no longer does. A passing value
    /// ends the whole batch application.
    fn apply_upsert(
        &mut self,
        event: &HashMapEvent<K, V>,
        key: &K,
        Ghost(m_before): Ghost<Map<K, V>>,
        Ghost(prb): Ghost<spec_fn(V, bool) -> bool>,
        Ghost(snap): Ghost<Map<K, V>>,
    ) -> (stop: bool)
        requires
            old(self).tr_wf(),
            event.snapshot.wf(),
            event.snapshot@ == snap,
            m_before == old(self).mirror(),
            prb == old(self).pred_rel(),
            old(self).log_counter() < usize::MAX,
        ensures
            final(self).tr_wf(),
            final(self).predicate == old(self).predicate,
            final(self).pred_rel() == old(self).pred_rel(),
            final(self).log_counter() <= old(self).log_counter() + 1,
            final(self).hash_map.source().next_id == old(self).hash_map.source().next_id,
            stop ==> snap.contains_key(*key) && prb(snap[*key], true) && final(self).mirror()
                == m_before.insert(*key, snap[*key]),
            !stop ==> filter_drop_rel(m_before, snap, *key, prb, final(self).mirror()),
    {
        let ghost src_before = self.hash_map.source();
        match event.snapshot.get(key) {
            Some(v) => {
                let passes = (self.predicate)(v.dup());
                if passes {
                    if self.hash_map.can_log_now() {
                        self.hash_map.insert(key.dup(), v.dup());
                    }
                    proof {
                        assert(prb(snap[*key], true));
                        lemma_add_diff_counters(src_before, MapDiff::Insert { key: *key });
                        lemma_add_diff_counters(src_before, MapDiff::Update { key: *key });
                    }
                    return true;
                }
                let currently_exists = self.hash_map.contains_key(key);
                if currently_exists {
                    if self.hash_map.can_log_now() {
                        self.hash_map.remove(key);
                    }
                    proof {
                        lemma_add_diff_counters(src_before, MapDiff::Remove { key: *key });
                    }
                } else {
                    proof {
                        assert(self.mirror() =~= m_before.remove(*key));
                    }
                }
                proof {
                    assert(prb(snap[*key], false));
                }
                false
            },
            None => false,
        }
    }
}

/// The kept entries of a filtered replace are exactly the
/// predicate-approved subset of the snapshot's entries.
proof fn lemma_filter_replace_step<K: DiffKey, V>(
    entries: Seq<(K, V)>,
    kept: Seq<(K, V)>,
    snap: Map<K, V>,
    prb: spec_fn(V, bool) -> bool,
)
    requires
        kv_unique(entries),
        kv_map(entries) == snap,
        forall|a: int|
            0 <= a < kept.len() ==> exists|q: int|
                0 <= q < entries.len() && (#[trigger] kept[a]) == entries[q] && prb(
                    entries[q].1,
                    true,
                ),
        forall|q: int|
            0 <= q < entries.len() ==> prb(#[trigger] entries[q].1, false) || exists|a: int|
                0 <= a < kept.len() && (#[trigger] kept[a]) == entries[q],
        forall|a: int, b: int|
            0 <= a < b < kept.len() ==> (#[trigger] kept[a]).0 != (#[trigger] kept[b]).0,
    ensures
        forall|k: K|
            #[trigger] kv_map(kept).contains_key(k) ==> snap.contains_key(k) && kv_map(kept)[k]
                == snap[k] && prb(snap[k], true),
        forall|k: K|
            #[trigger] snap.contains_key(k) && !kv_map(kept).contains_key(k) ==> prb(
                snap[k],
                false,
            ),
{
    assert(kv_unique(kept));
    assert forall|k: K| #[trigger]
        kv_map(kept).contains_key(k) implies snap.contains_key(k) && kv_map(kept)[k] == snap[k]
        && prb(snap[k], true) by {
        lemma_kv_map_contains(kept, k);
        let a = choose|a: int| 0 <= a < kept.len() && (#[trigger] kept[a]).0 == k;
        lemma_kv_map_at(kept, a);
        let q = choose|q: int|
            0 <= q < entries.len() && (#[trigger] kept[a]) == entries[q] && prb(
                entries[q].1,
                true,
            );
        lemma_kv_map_at(entries, q);
    }
    assert forall|k: K| #[trigger]
        snap.contains_key(k) && !kv_map(kept).contains_key(k) implies prb(snap[k], false) by {
        lemma_kv_map_contains(entries, k);
        let q = choose|q: int| 0 <= q < entries.len() && (#[trigger] entries[q]).0 == k;
        lemma_kv_map_at(entries, q);
        if !prb(entries[q].1, false) {
            let a = choose|a: int|
                0 <= a < kept.len() && (#[trigger] kept[a]) == entries[q];
            lemma_kv_map_contains(kept, k);
            assert(kept[a].0 == k);
        }
    }
}

/// A prefix of non-stopping steps followed by a passing upsert applies
/// the whole batch: the passing upsert is the batch's final effect.
proof fn lemma_stop_finishes_batch<K: DiffKey, V>(
    m_start: Map<K, V>,
    snap: Map<K, V>,
    all: Seq<MapDiff<K>>,
    i: int,
    prb: spec_fn(V, bool) -> bool,
    m_before: Map<K, V>,
    m_final: Map<K, V>,
)
    requires
        0 <= i < all.len(),
        filter_steps_rel(m_start, snap, all.take(i), prb, m_before),
        match all[i] {
            MapDiff::Insert { key } => snap.contains_key(key) && prb(snap[key], true) && m_final
                == m_before.insert(key, snap[key]),
            MapDiff::Update { key } => snap.contains_key(key) && prb(snap[key], true) && m_final
                == m_before.insert(key, snap[key]),
            _ => false,
        },
    ensures
        filter_apply_rel(m_start, snap, all, prb, m_final),
{
    let rest = all.skip(i);
    assert(rest[0] == all[i]);
    assert(filter_apply_rel(m_before, snap, rest, prb, m_final));
    lemma_filter_apply_glue(m_start, snap, all.take(i), prb, m_before, rest, m_final);
    assert(all.take(i) + rest =~= all);
}

} // verus!
