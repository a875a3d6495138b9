//! An observable ordered collection: the authoritative vector state
//! together with its diff log.
//!
//! Inserting or removing an element shifts the positions of every open
//! diff past it, so the log's bookkeeping stays consistent without
//! re-walking the live collection.

use crate::keys::DupValue;
use crate::pull_source::{
    entry_lookup, lemma_entry_lookup_absent, lemma_entry_lookup_none, lemma_entry_lookup_pos,
    lemma_entry_ops_at, lemma_log_first_pos, lemma_log_get_same_numbers, lemma_log_get_stable_push,
    lemma_log_get_stable_remove, lemma_log_pos_at, lemma_remap_entries_pairs, log_contains,
    log_get, model_wf,
    remap_entries, spec_add_diff, spec_has_listener, spec_mergeable, spec_pull_batch,
    spec_pull_state, spec_update_keys, DiffMergeOutcome, PullSourceHost, PullableDiff, SignalId,
    SourceModel, StructrualSignalPullSource,
};
use crate::signal::PollChange;
use vstd::prelude::*;

pub use crate::vector_event::{IndexShift, VectorDiff, VectorEvent};
pub use crate::vector_signal_ext::SignalVectorExt;
pub use crate::vector_transforms::MapVectorTransformer;

verus! {

/// The compaction index never holds an open insert diff at a position
/// outside the vector: an insert introduces the position it names, and
/// removals resolve or shift every open insert past them. This is what
/// makes every submitted diff mergeable with whatever is open for its
/// position.
pub open spec fn vec_compaction_inv(m: SourceModel<VectorDiff>, vlen: nat) -> bool {
    forall|a: int|
        0 <= a < m.index.len() ==> ((log_get(m.log, (#[trigger] m.index[a]).1) matches VectorDiff::Insert {
            ..
        }) ==> (m.index[a].0 as nat) < vlen)
}

/// The position rewrite applied after inserting at `f`: every position at
/// or past `f` moves one place up.
pub open spec fn shift_up_at(f: usize) -> spec_fn(usize) -> usize {
    |k: usize|
        if f <= k && k < usize::MAX {
            (k + 1) as usize
        } else {
            k
        }
}

/// The position rewrite applied after removing just before `f`: every
/// position at or past `f` moves one place down.
pub open spec fn shift_down_at(f: usize) -> spec_fn(usize) -> usize {
    |k: usize|
        if f <= k && 1 <= k {
            (k - 1) as usize
        } else {
            k
        }
}

/// The state shared by an observable vector and all of its readers and
/// signals: the authoritative vector plus the diff log.
pub struct MutableVectorState<T: DupValue> {
    vector: Vec<T>,
    pull_source: StructrualSignalPullSource<VectorDiff>,
}

impl<T: DupValue> MutableVectorState<T> {
    /// The mathematical content of the vector.
    pub closed spec fn vec_view(&self) -> Seq<T> {
        self.vector@
    }

    /// The model of the embedded diff log.
    pub closed spec fn source(&self) -> SourceModel<VectorDiff> {
        self.pull_source@
    }

    /// Internal consistency: vector, log and the compaction invariant
    /// tying them together.
    pub closed spec fn wf(&self) -> bool {
        &&& self.pull_source.wf()
        &&& vec_compaction_inv(self.source(), self.vec_view().len())
        &&& !spec_has_listener(self.source()) ==> self.source().index.len() == 0
    }

    /// Room for one more logged diff.
    pub open spec fn can_log(&self) -> bool {
        self.source().next_diff < usize::MAX
    }

    /// Room for one more subscriber.
    pub open spec fn can_subscribe(&self) -> bool {
        self.source().next_id < usize::MAX
    }

    /// An empty observable vector with no history and no consumers.
    pub fn new() -> (r: MutableVectorState<T>)
        ensures
            r.wf(),
            r.vec_view() == Seq::<T>::empty(),
            r.source().log == Seq::<(usize, VectorDiff)>::empty(),
            r.source().index == Seq::<(usize, usize)>::empty(),
            r.source().cursors == Seq::<(usize, usize)>::empty(),
            r.source().next_diff == 1,
            r.source().next_id == 1,
    {
        MutableVectorState { vector: Vec::new(), pull_source: StructrualSignalPullSource::new() }
    }

    /// Whether another mutation can still be logged.
    pub fn can_log_now(&self) -> (r: bool)
        ensures
            r == self.can_log(),
    {
        self.pull_source.has_room()
    }

    /// Whether `extra` more mutations can still be logged.
    pub fn can_log_batch(&self, extra: usize) -> (r: bool)
        ensures
            r == (self.source().next_diff + extra <= usize::MAX),
    {
        self.pull_source.has_room_for(extra)
    }

    /// Number of elements currently held.
    pub fn len(&self) -> (r: usize)
        ensures
            r == self.vec_view().len(),
    {
        self.vector.len()
    }

    /// The element at a position.
    pub fn get(&self, index: usize) -> (r: &T)
        requires
            index < self.vec_view().len(),
        ensures
            *r == self.vec_view()[index as int],
    {
        &self.vector[index]
    }

    /// An immutable snapshot of the current state; future mutations do
    /// not alter it.
    pub fn snapshot(&self) -> (r: Vec<T>)
        ensures
            r@ == self.vec_view(),
    {
        let mut out: Vec<T> = Vec::new();
        let mut i: usize = 0;
        while i < self.vector.len()
            invariant
                0 <= i <= self.vector@.len(),
                out@ == self.vector@.take(i as int),
            decreases self.vector@.len() - i,
        {
            out.push(self.vector[i].dup());
            proof {
                assert(out@ =~= self.vector@.take(i + 1));
            }
            i += 1;
        }
        proof {
            assert(self.vector@.take(self.vector@.len() as int) =~= self.vector@);
        }
        out
    }

    /// Shift the position of every open diff at or past `fulcrum` one
    /// place up.
    fn shift_up(&mut self, fulcrum: usize)
        requires
            old(self).pull_source.wf(),
        ensures
            final(self).pull_source.wf(),
            final(self).vec_view() == old(self).vec_view(),
            final(self).source() == spec_update_keys(old(self).source(), shift_up_at(fulcrum)),
    {
        let f_c = fulcrum;
        let updater = |k: usize| -> (r: usize)
            ensures
                r == shift_up_at(f_c)(k),
            {
                if f_c <= k && k < usize::MAX {
                    k + 1
                } else {
                    k
                }
            };
        self.pull_source.update_keys(updater, Ghost(shift_up_at(f_c)));
    }

    /// Shift the position of every open diff at or past `fulcrum` one
    /// place down.
    fn shift_down(&mut self, fulcrum: usize)
        requires
            old(self).pull_source.wf(),
        ensures
            final(self).pull_source.wf(),
            final(self).vec_view() == old(self).vec_view(),
            final(self).source() == spec_update_keys(old(self).source(), shift_down_at(fulcrum)),
    {
        let f_c = fulcrum;
        let updater = |k: usize| -> (r: usize)
            ensures
                r == shift_down_at(f_c)(k),
            {
                if f_c <= k && 1 <= k {
                    k - 1
                } else {
                    k
                }
            };
        self.pull_source.update_keys(updater, Ghost(shift_down_at(f_c)));
    }

    /// Replace the element at a position, returning the element
    /// previously there, and log an update diff.
    pub fn set(&mut self, index: usize, value: T) -> (r: T)
        requires
            old(self).wf(),
            old(self).can_log(),
            index < old(self).vec_view().len(),
        ensures
            final(self).wf(),
            final(self).vec_view() == old(self).vec_view().update(index as int, value),
            r == old(self).vec_view()[index as int],
            final(self).source() == spec_add_diff(
                old(self).source(),
                VectorDiff::Update { index, snapshot_index: index },
            ),
    {
        let ghost m0 = self.source();
        let mut value = value;
        self.vector.set_and_swap(index, &mut value);
        let d = VectorDiff::Update { index, snapshot_index: index };
        proof {
            lemma_vec_inv_after_add(m0, d, self.vec_view().len());
        }
        self.pull_source.add_diff(d);
        value
    }

    /// Insert an element at a position, shifting later elements — and the
    /// positions of their open diffs — one place up, then log an insert
    /// diff.
    pub fn insert(&mut self, index: usize, value: T)
        requires
            old(self).wf(),
            old(self).can_log(),
            index <= old(self).vec_view().len(),
            old(self).vec_view().len() < usize::MAX,
        ensures
            final(self).wf(),
            final(self).vec_view() == old(self).vec_view().insert(index as int, value),
            final(self).source() == spec_add_diff(
                spec_update_keys(old(self).source(), shift_up_at(index)),
                VectorDiff::Insert { index, snapshot_index: index },
            ),
    {
        let ghost m0 = self.source();
        let ghost len0 = self.vec_view().len();
        self.vector.insert(index, value);
        self.shift_up(index);
        let ghost m1 = self.source();
        let d = VectorDiff::Insert { index, snapshot_index: index };
        proof {
            lemma_shift_keeps_inv(m0, shift_up_at(index), len0, len0 + 1, index as nat);
            assert(entry_lookup(m1.index, index) is None) by {
                lemma_remap_entries_pairs(m0.index, shift_up_at(index));
                assert forall|a: int|
                    0 <= a < m1.index.len() implies (#[trigger] m1.index[a]).0 != index by {
                    let q = choose|q: int|
                        0 <= q < m0.index.len() && (#[trigger] m1.index[a]) == ((
                        shift_up_at(index)(m0.index[q].0),
                        m0.index[q].1,
                        ));
                }
                lemma_entry_lookup_absent(m1.index, index);
            }
            lemma_vec_inv_after_add(m1, d, len0 + 1);
        }
        self.pull_source.add_diff(d);
    }

    /// Insert an element at the front.
    pub fn push_front(&mut self, value: T)
        requires
            old(self).wf(),
            old(self).can_log(),
            old(self).vec_view().len() < usize::MAX,
        ensures
            final(self).wf(),
            final(self).vec_view() == old(self).vec_view().insert(0, value),
            final(self).source() == spec_add_diff(
                spec_update_keys(old(self).source(), shift_up_at(0)),
                VectorDiff::Insert { index: 0, snapshot_index: 0 },
            ),
    {
        self.insert(0, value)
    }

    /// Append an element at the back and log an insert diff; an earlier
    /// uncompacted removal of the same position merges with it into an
    /// update.
    pub fn push_back(&mut self, value: T)
        requires
            old(self).wf(),
            old(self).can_log(),
            old(self).vec_view().len() < usize::MAX,
        ensures
            final(self).wf(),
            final(self).vec_view() == old(self).vec_view().push(value),
            final(self).source() == spec_add_diff(
                old(self).source(),
                VectorDiff::Insert {
                    index: old(self).vec_view().len() as usize,
                    snapshot_index: old(self).vec_view().len() as usize,
                },
            ),
    {
        let ghost m0 = self.source();
        let ghost len0 = self.vec_view().len();
        let index = self.vector.len();
        self.vector.push(value);
        let d = VectorDiff::Insert { index, snapshot_index: index };
        proof {
            assert forall|a: int|
                0 <= a < m0.index.len() implies ((log_get(
                m0.log,
                (#[trigger] m0.index[a]).1,
            ) matches VectorDiff::Insert { .. }) ==> m0.index[a].0 != index) by {
                if log_get(m0.log, m0.index[a].1) matches VectorDiff::Insert { .. } {
                    assert((m0.index[a].0 as nat) < len0);
                }
            }
            lemma_vec_inv_after_add(m0, d, len0 + 1);
        }
        self.pull_source.add_diff(d);
    }

    /// Remove and return the element at a position, log a remove diff,
    /// then shift later positions — and their open diffs — one place
    /// down.
    pub fn remove(&mut self, index: usize) -> (r: T)
        requires
            old(self).wf(),
            old(self).can_log(),
            index < old(self).vec_view().len(),
        ensures
            final(self).wf(),
            final(self).vec_view() == old(self).vec_view().remove(index as int),
            r == old(self).vec_view()[index as int],
            final(self).source() == spec_update_keys(
                spec_add_diff(
                    old(self).source(),
                    VectorDiff::Remove { index, snapshot_index: index },
                ),
                shift_down_at((index + 1) as usize),
            ),
    {
        let ghost m0 = self.source();
        let ghost len0 = self.vec_view().len();
        let whole_len = self.vector.len();
        let result = self.vector.remove(index);
        let d = VectorDiff::Remove { index, snapshot_index: index };
        proof {
            assert(index < whole_len);
            lemma_vec_inv_after_add(m0, d, len0);
        }
        self.pull_source.add_diff(d);
        let ghost m1 = self.source();
        self.shift_down(index + 1);
        proof {
            lemma_remap_entries_pairs(m1.index, shift_down_at((index + 1) as usize));
            lemma_shift_remove_keeps_inv(m1, len0, index as nat);
        }
        result
    }

    /// Remove and return the first element, if the vector is not empty.
    pub fn pop_front(&mut self) -> (r: Option<T>)
        requires
            old(self).wf(),
            old(self).can_log(),
        ensures
            final(self).wf(),
            old(self).vec_view().len() == 0 ==> r is None && *final(self) == *old(self),
            old(self).vec_view().len() > 0 ==> {
                &&& r == Some(old(self).vec_view()[0])
                &&& final(self).vec_view() == old(self).vec_view().remove(0)
                &&& final(self).source() == spec_update_keys(
                    spec_add_diff(
                        old(self).source(),
                        VectorDiff::Remove { index: 0, snapshot_index: 0 },
                    ),
                    shift_down_at(1),
                )
            },
    {
        if self.vector.len() == 0 {
            return None;
        }
        Some(self.remove(0))
    }

    /// Remove and return the last element, if the vector is not empty,
    /// and log a remove diff for its position.
    pub fn pop_back(&mut self) -> (r: Option<T>)
        requires
            old(self).wf(),
            old(self).can_log(),
        ensures
            final(self).wf(),
            old(self).vec_view().len() == 0 ==> r is None && *final(self) == *old(self),
            old(self).vec_view().len() > 0 ==> {
                &&& r == Some(old(self).vec_view().last())
                &&& final(self).vec_view() == old(self).vec_view().drop_last()
                &&& final(self).source() == spec_add_diff(
                    old(self).source(),
                    VectorDiff::Remove {
                        index: (old(self).vec_view().len() - 1) as usize,
                        snapshot_index: (old(self).vec_view().len() - 1) as usize,
                    },
                )
            },
    {
        let ghost m0 = self.source();
        let ghost len0 = self.vec_view().len();
        if self.vector.len() == 0 {
            return None;
        }
        let result = self.vector.pop().unwrap();
        let index = self.vector.len();
        let d = VectorDiff::Remove { index, snapshot_index: index };
        proof {
            lemma_vec_inv_after_add(m0, d, len0);
            assert(old(self).vec_view().subrange(0, len0 as int - 1) =~= old(
                self,
            ).vec_view().drop_last());
        }
        self.pull_source.add_diff(d);
        Some(result)
    }

    /// Replace the entire contents with the given elements and log one
    /// global replace diff.
    pub fn replace(&mut self, entries: Vec<T>)
        requires
            old(self).wf(),
            old(self).can_log(),
        ensures
            final(self).wf(),
            final(self).vec_view() == entries@,
            final(self).source() == spec_add_diff(old(self).source(), VectorDiff::Replace {}),
    {
        let ghost m0 = self.source();
        let ghost len0 = self.vec_view().len();
        self.vector = entries;
        proof {
            lemma_vec_inv_after_add(m0, VectorDiff::Replace {}, len0);
        }
        self.pull_source.add_diff(VectorDiff::Replace {});
    }

    /// Remove every element; an already empty vector does nothing and
    /// logs nothing.
    pub fn clear(&mut self)
        requires
            old(self).wf(),
            old(self).can_log(),
        ensures
            final(self).wf(),
            final(self).vec_view() == Seq::<T>::empty(),
            final(self).source() == (if old(self).vec_view().len() == 0 {
                old(self).source()
            } else {
                spec_add_diff(old(self).source(), VectorDiff::Clear {})
            }),
    {
        let ghost m0 = self.source();
        let ghost len0 = self.vec_view().len();
        if self.vector.len() == 0 {
            proof {
                assert(self.vec_view() =~= Seq::<T>::empty());
            }
            return ;
        }
        self.vector.clear();
        proof {
            lemma_vec_inv_after_add(m0, VectorDiff::Clear {}, len0);
        }
        self.pull_source.add_diff(VectorDiff::Clear {});
    }
}

impl<T: DupValue> PullSourceHost for MutableVectorState<T> {
    type DiffType = VectorDiff;

    type EventType = VectorEvent<T>;

    open spec fn host_wf(&self) -> bool {
        self.wf()
    }

    open spec fn host_source(&self) -> SourceModel<VectorDiff> {
        self.source()
    }

    open spec fn event_wf(event: VectorEvent<T>) -> bool {
        true
    }

    open spec fn event_spec(&self, diffs: Seq<VectorDiff>, event: VectorEvent<T>) -> bool {
        &&& event.snapshot@ == self.vec_view()
        &&& event.diffs@ == diffs
    }

    fn subscribe(&mut self) -> (id: SignalId) {
        self.pull_source.get_next_signal_id()
    }

    fn pull_diffs(&mut self, id: SignalId) -> (r: Vec<VectorDiff>) {
        let ghost m0 = self.source();
        let r = self.pull_source.pull_signal(id);
        proof {
            let m2 = spec_pull_state(m0, id);
            if entry_lookup(m0.cursors, id) == Some((m0.next_diff - 1) as usize) {
                assert(m2.index == m0.index && m2.log == m0.log);
            } else {
                assert(m2.index.len() == 0);
            }
        }
        r
    }

    fn make_event(&self, diffs: Vec<VectorDiff>) -> (r: VectorEvent<T>) {
        VectorEvent { snapshot: self.snapshot(), diffs }
    }
}

/// A bulk position rewrite that keeps insert positions inside the (new)
/// bounds keeps the compaction invariant.
proof fn lemma_shift_keeps_inv(
    m: SourceModel<VectorDiff>,
    gm: spec_fn(usize) -> usize,
    vlen: nat,
    vlen2: nat,
    fulcrum: nat,
)
    requires
        model_wf(m),
        vec_compaction_inv(m, vlen),
        gm == shift_up_at(fulcrum as usize),
        vlen < vlen2,
        vlen < usize::MAX,
    ensures
        vec_compaction_inv(spec_update_keys(m, gm), vlen2),
{
    let m2 = spec_update_keys(m, gm);
    lemma_remap_entries_pairs(m.index, gm);
    assert(m2.log.len() == m.log.len());
    assert(forall|i: int|
        0 <= i < m.log.len() ==> (#[trigger] m2.log[i]) == ((
        m.log[i].0,
        crate::pull_source::resnap_diff_spec(m.log[i].1, gm),
        )));
    assert forall|a: int|
        0 <= a < m2.index.len() implies ((log_get(
        m2.log,
        (#[trigger] m2.index[a]).1,
    ) matches VectorDiff::Insert { .. }) ==> (m2.index[a].0 as nat) < vlen2) by {
        let q = choose|q: int|
            0 <= q < m.index.len() && (#[trigger] m2.index[a]) == ((
            gm(m.index[q].0),
            m.index[q].1,
            ));
        let n = m.index[q].1;
        assert(log_contains(m.log, n));
        let p = lemma_log_first_pos(m.log, n);
        lemma_log_get_same_numbers(m.log, m2.log, n);
        assert(log_get(m2.log, n) == m2.log[p].1);
        if log_get(m2.log, n) matches VectorDiff::Insert { .. } {
            assert(log_get(m.log, n) == m.log[p].1);
            assert(log_get(m.log, n) matches VectorDiff::Insert { .. });
            assert((m.index[q].0 as nat) < vlen);
            assert((gm(m.index[q].0) as nat) <= m.index[q].0 + 1);
        }
    }
}

/// The downward shift that follows a removal restores the compaction
/// invariant for the shorter vector: the removal has already resolved any
/// open insert at the removed position.
proof fn lemma_shift_remove_keeps_inv(m: SourceModel<VectorDiff>, vlen: nat, removed: nat)
    requires
        model_wf(m),
        removed < vlen,
        forall|a: int|
            0 <= a < m.index.len() ==> ((log_get(
                m.log,
                (#[trigger] m.index[a]).1,
            ) matches VectorDiff::Insert { .. }) ==> (m.index[a].0 as nat) < vlen && m.index[a].0
                != removed),
    ensures
        vec_compaction_inv(
            spec_update_keys(m, shift_down_at((removed + 1) as usize)),
            (vlen - 1) as nat,
        ),
{
    let gm = shift_down_at((removed + 1) as usize);
    let m2 = spec_update_keys(m, gm);
    lemma_remap_entries_pairs(m.index, gm);
    assert(m2.log.len() == m.log.len());
    assert(forall|i: int|
        0 <= i < m.log.len() ==> (#[trigger] m2.log[i]) == ((
        m.log[i].0,
        crate::pull_source::resnap_diff_spec(m.log[i].1, gm),
        )));
    assert forall|a: int|
        0 <= a < m2.index.len() implies ((log_get(
        m2.log,
        (#[trigger] m2.index[a]).1,
    ) matches VectorDiff::Insert { .. }) ==> (m2.index[a].0 as nat) < vlen - 1) by {
        let q = choose|q: int|
            0 <= q < m.index.len() && (#[trigger] m2.index[a]) == ((
            gm(m.index[q].0),
            m.index[q].1,
            ));
        let n = m.index[q].1;
        assert(log_contains(m.log, n));
        let p = lemma_log_first_pos(m.log, n);
        lemma_log_get_same_numbers(m.log, m2.log, n);
        assert(log_get(m2.log, n) == m2.log[p].1);
        if log_get(m2.log, n) matches VectorDiff::Insert { .. } {
            assert(log_get(m.log, n) == m.log[p].1);
            assert(log_get(m.log, n) matches VectorDiff::Insert { .. });
            let k = m.index[q].0;
            assert((k as nat) < vlen && k != removed);
        }
    }
}

/// After a vector mutation logs its diff, the compaction invariant holds
/// of the new log, and the diff was mergeable with whatever was open for
/// its position.
proof fn lemma_vec_inv_after_add(m: SourceModel<VectorDiff>, d: VectorDiff, vlen: nat)
    requires
        model_wf(m),
        m.next_diff < usize::MAX,
        !spec_has_listener(m) ==> m.index.len() == 0,
        vec_compaction_inv(m, vlen),
        match d {
            VectorDiff::Insert { index, .. } => (index as nat) < vlen && (entry_lookup(
                m.index,
                index,
            ) is None || forall|a: int|
                0 <= a < m.index.len() ==> ((log_get(
                    m.log,
                    (#[trigger] m.index[a]).1,
                ) matches VectorDiff::Insert { .. }) ==> m.index[a].0 != index)),
            _ => true,
        },
    ensures
        spec_mergeable(m, d),
        ({
            let m2 = spec_add_diff(m, d);
            forall|a: int|
                0 <= a < m2.index.len() ==> ((log_get(
                    m2.log,
                    (#[trigger] m2.index[a]).1,
                ) matches VectorDiff::Insert { .. }) ==> ((match d {
                    VectorDiff::Insert { index, .. } => m2.index[a].0 == index,
                    _ => false,
                }) || ((m2.index[a].0 as nat) < vlen && match d {
                    VectorDiff::Remove { index, .. } => m2.index[a].0 != index,
                    _ => true,
                })))
        }),
{
    let m2 = spec_add_diff(m, d);
    if !spec_has_listener(m) {
        assert(m2 == m);
        return ;
    }
    match d.key_spec() {
        None => {
            assert(m2.index.len() == 0);
        },
        Some(k) => {
            match entry_lookup(m.index, k) {
                None => {
                    assert(spec_mergeable(m, d));
                    assert forall|a: int|
                        0 <= a < m2.index.len() implies ((log_get(
                        m2.log,
                        (#[trigger] m2.index[a]).1,
                    ) matches VectorDiff::Insert { .. }) ==> ((match d {
                        VectorDiff::Insert { index, .. } => m2.index[a].0 == index,
                        _ => false,
                    }) || ((m2.index[a].0 as nat) < vlen && match d {
                        VectorDiff::Remove { index, .. } => m2.index[a].0 != index,
                        _ => true,
                    }))) by {
                        if a < m.index.len() {
                            assert(m2.index[a] == m.index[a]);
                            lemma_log_get_stable_push(m.log, (m.next_diff, d), m.index[a].1);
                            if log_get(m2.log, m2.index[a].1) matches VectorDiff::Insert { .. } {
                                assert((m.index[a].0 as nat) < vlen);
                                lemma_entry_lookup_none(m.index, k);
                                assert(m.index[a].0 != k);
                            }
                        } else {
                            assert(m2.index[a] == ((k, m.next_diff)));
                            lemma_log_pos_at(m2.log, m.next_diff, m.log.len() as int);
                            assert(log_get(m2.log, m.next_diff) == d);
                        }
                    }
                },
                Some(n) => {
                    let p = lemma_entry_lookup_pos(m.index, k);
                    let prev = log_get(m.log, n);
                    // mergeable: an open insert at this position would be
                    // inside the vector, while a colliding insert names a
                    // position only just created
                    if prev matches VectorDiff::Insert { .. } {
                        assert((k as nat) < vlen);
                        if d matches VectorDiff::Insert { .. } {
                            // the collided entry is itself an open insert
                            // at this very position, which the caller has
                            // ruled out
                            assert(m.index[p].0 == k);
                            assert(false);
                        }
                    }
                    assert(spec_mergeable(m, d));
                    let pos = lemma_log_first_pos(m.log, n);
                    let mr = d.merge_spec(&prev);
                    let log_removed = m.log.remove(pos);
                    assert(forall|i: int|
                        0 <= i < pos ==> (#[trigger] log_removed[i]) == m.log[i]);
                    assert(forall|i: int|
                        pos <= i < log_removed.len() ==> (#[trigger] log_removed[i]) == m.log[i
                            + 1]);
                    let log_rx = match mr.reindex_intermediary_diffs {
                        Option::Some(instr) => crate::pull_source::reindex_log_spec(
                            log_removed,
                            n,
                            instr,
                        ),
                        Option::None => log_removed,
                    };
                    assert(log_rx.len() == log_removed.len());
                    assert(forall|i: int|
                        0 <= i < log_rx.len() ==> (#[trigger] log_rx[i]).0 == log_removed[i].0);
                    // reindexing rewrites positions but never the kind
                    assert(forall|i: int|
                        0 <= i < log_rx.len() ==> (((#[trigger] log_rx[i]).1 matches VectorDiff::Insert {
                            ..
                        }) <==> (log_removed[i].1 matches VectorDiff::Insert { .. })));
                    crate::pull_source::lemma_entry_ops_at(m.index, k, p, m.next_diff);
                    assert forall|a: int|
                        0 <= a < m2.index.len() implies ((log_get(
                        m2.log,
                        (#[trigger] m2.index[a]).1,
                    ) matches VectorDiff::Insert { .. }) ==> ((match d {
                        VectorDiff::Insert { index, .. } => m2.index[a].0 == index,
                        _ => false,
                    }) || ((m2.index[a].0 as nat) < vlen && match d {
                        VectorDiff::Remove { index, .. } => m2.index[a].0 != index,
                        _ => true,
                    }))) by {
                        match mr.outcome {
                            DiffMergeOutcome::Ignore => {
                                assert(m2.index == m.index);
                                assert(m2.log =~= m.log) by {
                                    assert(mr.reindex_intermediary_diffs is None);
                                    assert(log_removed.insert(pos, (n, prev)) =~= m.log);
                                }
                                if log_get(m2.log, m2.index[a].1) matches VectorDiff::Insert {
                                    ..
                                } {
                                    assert((m.index[a].0 as nat) < vlen);
                                    assert(!(d matches VectorDiff::Remove { .. }));
                                }
                            },
                            DiffMergeOutcome::DiscardBoth => {
                                assert(m2.index == m.index.remove(p));
                                let aorig: int = if a < p {
                                    a
                                } else {
                                    a + 1
                                };
                                assert(m2.index[a] == m.index[aorig]);
                                assert(m.index[aorig].0 != k);
                                assert(m.index[aorig].1 != n);
                                let x = m.index[aorig].1;
                                lemma_log_get_stable_remove(m.log, pos, x);
                                let px = lemma_log_first_pos(log_removed, x);
                                lemma_log_get_same_numbers(log_removed, log_rx, x);
                                assert(log_get(log_rx, x) == log_rx[px].1);
                                assert(log_get(log_removed, x) == log_removed[px].1);
                                if log_get(m2.log, x) matches VectorDiff::Insert { .. } {
                                    assert(log_get(log_removed, x) matches VectorDiff::Insert {
                                        ..
                                    });
                                    assert((m.index[aorig].0 as nat) < vlen);
                                }
                            },
                            DiffMergeOutcome::Replace => {
                                lemma_collapse_entry_cases(
                                    m,
                                    d,
                                    vlen,
                                    k,
                                    n,
                                    p,
                                    pos,
                                    log_rx,
                                    d,
                                    a,
                                );
                            },
                            DiffMergeOutcome::Merge(md) => {
                                lemma_collapse_entry_cases(
                                    m,
                                    d,
                                    vlen,
                                    k,
                                    n,
                                    p,
                                    pos,
                                    log_rx,
                                    md,
                                    a,
                                );
                            },
                            DiffMergeOutcome::KeepBoth => {
                                assert(m2.index == m.index.update(p, (k, m.next_diff)));
                                assert(mr.reindex_intermediary_diffs is None);
                                let back = log_removed.insert(pos, (n, prev));
                                assert(back =~= m.log);
                                assert(m2.log == back.push((m.next_diff, d)));
                                if a == p {
                                    assert(m2.index[a] == ((k, m.next_diff)));
                                    lemma_log_pos_at(m2.log, m.next_diff, back.len() as int);
                                    assert(log_get(m2.log, m.next_diff) == d);
                                    if log_get(m2.log, m.next_diff) matches VectorDiff::Insert {
                                        ..
                                    } {
                                        // keep-both only arises on an open
                                        // remove, and a colliding insert
                                        // merges instead
                                        assert(false);
                                    }
                                } else {
                                    assert(m2.index[a] == m.index[a]);
                                    assert(m.index[a].1 != n);
                                    lemma_log_get_stable_push(
                                        back,
                                        (m.next_diff, d),
                                        m.index[a].1,
                                    );
                                    lemma_log_get_same_numbers(m.log, back, m.index[a].1);
                                    if log_get(m2.log, m2.index[a].1) matches VectorDiff::Insert {
                                        ..
                                    } {
                                        assert((m.index[a].0 as nat) < vlen);
                                        assert(m.index[a].0 != k);
                                    }
                                }
                            },
                        }
                    }
                },
            }
        },
    }
}

/// One entry of the index after a collision that ends in a fresh open
/// diff (replace or merge): the entry for the collided position points at
/// the freshly appended diff; every other entry is untouched and still
/// resolves to a diff of the same kind.
proof fn lemma_collapse_entry_cases(
    m: SourceModel<VectorDiff>,
    d: VectorDiff,
    vlen: nat,
    k: usize,
    n: usize,
    p: int,
    pos: int,
    log_rx: Seq<(usize, VectorDiff)>,
    pushed: VectorDiff,
    a: int,
)
    requires
        model_wf(m),
        m.next_diff < usize::MAX,
        vec_compaction_inv(m, vlen),
        0 <= p < m.index.len(),
        m.index[p] == ((k, n)),
        0 <= pos < m.log.len(),
        m.log[pos].0 == n,
        crate::pull_source::log_pos(m.log, n) == pos,
        log_rx.len() == m.log.len() - 1,
        forall|i: int|
            0 <= i < log_rx.len() ==> (#[trigger] log_rx[i]).0 == m.log.remove(pos)[i].0,
        forall|i: int|
            0 <= i < log_rx.len() ==> (((#[trigger] log_rx[i]).1 matches VectorDiff::Insert { .. })
                <==> (m.log.remove(pos)[i].1 matches VectorDiff::Insert { .. })),
        (pushed matches VectorDiff::Insert { .. }) ==> (d matches VectorDiff::Insert { .. }
            && pushed.key_spec() == d.key_spec()),
        d.key_spec() == Some(k),
        d matches VectorDiff::Insert { index, .. } ==> (index as nat) < vlen,
        0 <= a < m.index.len(),
    ensures
        ({
            let m2idx = m.index.update(p, (k, m.next_diff));
            let m2log = log_rx.push((m.next_diff, pushed));
            (log_get(m2log, m2idx[a].1) matches VectorDiff::Insert { .. }) ==> ((match d {
                VectorDiff::Insert { index, .. } => m2idx[a].0 == index,
                _ => false,
            }) || ((m2idx[a].0 as nat) < vlen && match d {
                VectorDiff::Remove { index, .. } => m2idx[a].0 != index,
                _ => true,
            }))
        }),
{
    let m2idx = m.index.update(p, (k, m.next_diff));
    let m2log = log_rx.push((m.next_diff, pushed));
    let log_removed = m.log.remove(pos);
    assert(forall|i: int| 0 <= i < pos ==> (#[trigger] log_removed[i]) == m.log[i]);
    assert(forall|i: int|
        pos <= i < log_removed.len() ==> (#[trigger] log_removed[i]) == m.log[i + 1]);
    if a == p {
        assert(m2idx[a] == ((k, m.next_diff)));
        assert(forall|j: int|
            0 <= j < log_rx.len() ==> (#[trigger] log_rx[j]).0 != m.next_diff);
        lemma_log_pos_at(m2log, m.next_diff, log_rx.len() as int);
        assert(log_get(m2log, m.next_diff) == pushed);
        if pushed matches VectorDiff::Insert { .. } {
            assert(m2idx[a].0 == k);
        }
    } else {
        assert(m2idx[a] == m.index[a]);
        assert(m.index[a].1 != n);
        let x = m.index[a].1;
        lemma_log_get_stable_remove(m.log, pos, x);
        lemma_log_get_same_numbers(log_removed, log_rx, x);
        lemma_log_get_stable_push(log_rx, (m.next_diff, pushed), x);
        if log_get(m2log, x) matches VectorDiff::Insert { .. } {
            assert(log_get(log_rx, x) matches VectorDiff::Insert { .. });
            let px = lemma_log_first_pos(log_removed, x);
            assert(log_get(log_rx, x) == log_rx[px].1);
            assert(log_get(log_removed, x) == log_removed[px].1);
            assert(log_get(log_removed, x) matches VectorDiff::Insert { .. });
            assert((m.index[a].0 as nat) < vlen);
            assert(m.index[a].0 != k);
        }
    }
}

} // verus!
