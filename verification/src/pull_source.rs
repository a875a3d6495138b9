//! The diff log ("pull source"): an ordered, compacting log of diffs with
//! per-key and per-consumer bookkeeping.
//!
//! Each mutation of a collection appends a diff. Diffs for a key that no
//! consumer has seen yet may be merged or elided according to the diff
//! type's merge policy. Each consumer keeps a cursor into the log; a
//! consumer's first pull yields a single full-replace sentinel instead of a
//! backlog of pre-subscription diffs.

use crate::keys::{DiffKey, DupValue};
use crate::signal::PollChange;
use vstd::prelude::*;

verus! {

/// Sequence number of a diff in the log.
pub type DiffNumber = usize;

/// Identifier of a subscribed signal (consumer).
pub type SignalId = usize;

/// What happens when a new diff collides with the open diff for its key.
pub enum DiffMergeOutcome<DiffType: PullableDiff> {
    /// Replace both diffs with one combined diff.
    Merge(DiffType),
    /// Keep only the new diff, discarding the previous one.
    Replace,
    /// Keep only the previous diff; the new diff is dropped and the log is
    /// left as it was.
    Ignore,
    /// Keep the previous diff in the log (no longer compactable) and also
    /// add the new diff.
    KeepBoth,
    /// The diffs cancel out; both disappear.
    DiscardBoth,
}

/// Outcome of a merge plus an optional reindexing instruction.
///
/// When two diffs collapse, the positions recorded by diffs between them may
/// become stale. The instruction, interpreted by the diff type through
/// [`PullableDiff::apply_reindex`], rewrites those positions.
pub struct DiffMergeResult<DiffType: PullableDiff> {
    pub outcome: DiffMergeOutcome<DiffType>,
    pub reindex_intermediary_diffs: Option<DiffType::ReindexType>,
}

impl<DiffType: PullableDiff> DiffMergeResult<DiffType> {
    /// Replace both colliding diffs with `diff`.
    pub fn merge(diff: DiffType) -> (r: Self)
        ensures
            r.outcome == DiffMergeOutcome::Merge(diff),
            r.reindex_intermediary_diffs is None,
    {
        DiffMergeResult { outcome: DiffMergeOutcome::Merge(diff), reindex_intermediary_diffs: None }
    }

    /// Replace both colliding diffs with `diff` and reindex the diffs
    /// between them.
    pub fn merge_and_reindex(diff: DiffType, reindex: DiffType::ReindexType) -> (r: Self)
        ensures
            r.outcome == DiffMergeOutcome::Merge(diff),
            r.reindex_intermediary_diffs == Some(reindex),
    {
        DiffMergeResult {
            outcome: DiffMergeOutcome::Merge(diff),
            reindex_intermediary_diffs: Some(reindex),
        }
    }

    /// Keep only the new diff.
    pub fn replace() -> (r: Self)
        ensures
            r.outcome is Replace,
            r.reindex_intermediary_diffs is None,
    {
        DiffMergeResult { outcome: DiffMergeOutcome::Replace, reindex_intermediary_diffs: None }
    }

    /// Keep only the new diff and reindex the diffs in between.
    pub fn replace_and_reindex(reindex: DiffType::ReindexType) -> (r: Self)
        ensures
            r.outcome is Replace,
            r.reindex_intermediary_diffs == Some(reindex),
    {
        DiffMergeResult {
            outcome: DiffMergeOutcome::Replace,
            reindex_intermediary_diffs: Some(reindex),
        }
    }

    /// Keep only the previous diff; the whole add is dropped.
    pub fn ignore() -> (r: Self)
        ensures
            r.outcome is Ignore,
            r.reindex_intermediary_diffs is None,
    {
        DiffMergeResult { outcome: DiffMergeOutcome::Ignore, reindex_intermediary_diffs: None }
    }

    /// Keep both diffs; the previous one can no longer be compacted.
    pub fn keep_both() -> (r: Self)
        ensures
            r.outcome is KeepBoth,
            r.reindex_intermediary_diffs is None,
    {
        DiffMergeResult { outcome: DiffMergeOutcome::KeepBoth, reindex_intermediary_diffs: None }
    }

    /// Both diffs cancel out.
    pub fn discard_both() -> (r: Self)
        ensures
            r.outcome is DiscardBoth,
            r.reindex_intermediary_diffs is None,
    {
        DiffMergeResult { outcome: DiffMergeOutcome::DiscardBoth, reindex_intermediary_diffs: None }
    }

    /// Both diffs cancel out, and the diffs in between are reindexed.
    pub fn discard_both_and_reindex(reindex: DiffType::ReindexType) -> (r: Self)
        ensures
            r.outcome is DiscardBoth,
            r.reindex_intermediary_diffs == Some(reindex),
    {
        DiffMergeResult {
            outcome: DiffMergeOutcome::DiscardBoth,
            reindex_intermediary_diffs: Some(reindex),
        }
    }
}

/// The capability every diff type must implement: key extraction, a second
/// snapshot-time positional coordinate, a merge policy, and a full-replace
/// sentinel.
///
/// Every executable method is pinned to a specification-level function, so
/// the behaviour of the log is a mathematical function of the diffs fed to
/// it.
pub trait PullableDiff: Sized + DupValue {
    /// Identifier of the element a diff affects (a map key or a position).
    type KeyType: DiffKey;

    /// Instruction for rewriting the positions of unrelated in-flight
    /// diffs after two diffs on one key collapse.
    type ReindexType: Sized;

    /// The key this diff affects, or none for a global diff.
    spec fn key_spec(&self) -> Option<Self::KeyType>;

    /// The position this diff had at creation time, or none for a global
    /// diff.
    spec fn snapshot_key_spec(&self) -> Option<Self::KeyType>;

    /// This diff with its key replaced.
    spec fn with_key_spec(&self, new_key: Self::KeyType) -> Self;

    /// This diff with its snapshot-time position replaced.
    spec fn with_snapshot_key_spec(&self, new_snapshot_key: Self::KeyType) -> Self;

    /// Whether this (new) diff may collide with `previous`; colliding two
    /// diffs outside this relation is a caller bug.
    spec fn mergeable_with(&self, previous: &Self) -> bool;

    /// The merge policy: what happens when this diff collides with the open
    /// diff `previous` on the same key.
    spec fn merge_spec(&self, previous: &Self) -> DiffMergeResult<Self>;

    /// The full-replace sentinel.
    spec fn full_replace_spec() -> Self;

    /// How a reindex instruction rewrites one key, given the diff's current
    /// key and its snapshot-time position.
    spec fn reindex_spec(
        instr: Self::ReindexType,
        key: Self::KeyType,
        snapshot_key: Self::KeyType,
    ) -> Self::KeyType;

    fn get_key(&self) -> (r: Option<Self::KeyType>)
        ensures
            r == self.key_spec(),
    ;

    fn get_snapshot_key(&self) -> (r: Option<Self::KeyType>)
        ensures
            r == self.snapshot_key_spec(),
    ;

    fn set_key(&mut self, new_key: Self::KeyType)
        requires
            old(self).key_spec() is Some,
        ensures
            *final(self) == old(self).with_key_spec(new_key),
    ;

    fn set_snapshot_key(&mut self, new_snapshot_key: Self::KeyType)
        requires
            old(self).snapshot_key_spec() is Some,
        ensures
            *final(self) == old(self).with_snapshot_key_spec(new_snapshot_key),
    ;

    fn merge_with_previous(&self, previous: &Self) -> (r: DiffMergeResult<Self>)
        requires
            self.mergeable_with(previous),
        ensures
            r == self.merge_spec(previous),
    ;

    fn full_replace() -> (r: Self)
        ensures
            r == Self::full_replace_spec(),
            r.key_spec() is None,
    ;

    fn apply_reindex(
        instr: &Self::ReindexType,
        key: &Self::KeyType,
        snapshot_key: &Self::KeyType,
    ) -> (r: Self::KeyType)
        ensures
            r == Self::reindex_spec(*instr, *key, *snapshot_key),
    ;
}

/// The mathematical state of a pull source.
///
/// `log` is the ordered diff log, as pairs of sequence number and diff;
/// `index` is the compaction index mapping each key to the sequence number
/// of its open diff; `cursors` maps each consumer to the newest sequence
/// number it has been shown.
#[verifier::ext_equal]
pub struct SourceModel<D: PullableDiff> {
    pub log: Seq<(DiffNumber, D)>,
    pub index: Seq<(D::KeyType, DiffNumber)>,
    pub cursors: Seq<(SignalId, DiffNumber)>,
    pub next_diff: DiffNumber,
    pub next_id: SignalId,
}

/// Value associated with the first entry for `k`, if any.
pub open spec fn entry_lookup<K>(entries: Seq<(K, usize)>, k: K) -> Option<usize>
    decreases entries.len(),
{
    if entries.len() == 0 {
        None
    } else if entries[0].0 == k {
        Some(entries[0].1)
    } else {
        entry_lookup(entries.drop_first(), k)
    }
}

/// `entries` with the first entry for `k` removed.
pub open spec fn entry_remove<K>(entries: Seq<(K, usize)>, k: K) -> Seq<(K, usize)>
    decreases entries.len(),
{
    if entries.len() == 0 {
        entries
    } else if entries[0].0 == k {
        entries.drop_first()
    } else {
        seq![entries[0]] + entry_remove(entries.drop_first(), k)
    }
}

/// `entries` with the value of the first entry for `k` replaced by `n`.
pub open spec fn entry_update<K>(entries: Seq<(K, usize)>, k: K, n: usize) -> Seq<(K, usize)>
    decreases entries.len(),
{
    if entries.len() == 0 {
        entries
    } else if entries[0].0 == k {
        seq![(k, n)] + entries.drop_first()
    } else {
        seq![entries[0]] + entry_update(entries.drop_first(), k, n)
    }
}

/// Set the entry for `k` to `n`, updating it in place if present and
/// appending it otherwise.
pub open spec fn entry_set<K>(entries: Seq<(K, usize)>, k: K, n: usize) -> Seq<(K, usize)> {
    if entry_lookup(entries, k) is Some {
        entry_update(entries, k, n)
    } else {
        entries.push((k, n))
    }
}

/// Whether the log holds an entry with sequence number `n`.
pub open spec fn log_contains<D>(log: Seq<(DiffNumber, D)>, n: DiffNumber) -> bool {
    exists|i: int| 0 <= i < log.len() && (#[trigger] log[i]).0 == n
}

/// Position of the first log entry with sequence number `n`.
pub open spec fn log_pos<D>(log: Seq<(DiffNumber, D)>, n: DiffNumber) -> int
    decreases log.len(),
{
    if log.len() == 0 {
        0
    } else if log[0].0 == n {
        0
    } else {
        1 + log_pos(log.drop_first(), n)
    }
}

/// The diff stored under sequence number `n`.
pub open spec fn log_get<D>(log: Seq<(DiffNumber, D)>, n: DiffNumber) -> D {
    log[log_pos(log, n)].1
}

/// One diff after reindexing: a keyed diff has its key rewritten from its
/// current key and snapshot-time position; a global diff is untouched.
pub open spec fn reindex_diff_spec<D: PullableDiff>(d: D, instr: D::ReindexType) -> D {
    if d.key_spec() is Some && d.snapshot_key_spec() is Some {
        d.with_key_spec(D::reindex_spec(instr, d.key_spec()->0, d.snapshot_key_spec()->0))
    } else {
        d
    }
}

/// The log with every entry after sequence number `n` reindexed.
pub open spec fn reindex_log_spec<D: PullableDiff>(
    log: Seq<(DiffNumber, D)>,
    n: DiffNumber,
    instr: D::ReindexType,
) -> Seq<(DiffNumber, D)> {
    log.map(
        |i: int, e: (DiffNumber, D)|
            if e.0 > n {
                (e.0, reindex_diff_spec(e.1, instr))
            } else {
                e
            },
    )
}

/// Whether any consumer has ever subscribed.
pub open spec fn spec_has_listener<D: PullableDiff>(m: SourceModel<D>) -> bool {
    m.next_id > 1
}

/// Whether `d` may be added to the source: if its key collides with an open
/// diff, the two must be mergeable under the diff type's policy.
pub open spec fn spec_mergeable<D: PullableDiff>(m: SourceModel<D>, d: D) -> bool {
    spec_has_listener(m) ==> match d.key_spec() {
        Some(k) => match entry_lookup(m.index, k) {
            Some(n) => d.mergeable_with(&log_get(m.log, n)),
            None => true,
        },
        None => true,
    }
}

/// The state transition performed by adding one diff.
///
/// With no subscriber the source is untouched. A global diff wipes the log
/// and the compaction index. A keyed diff that collides with the open diff
/// for its key is resolved through the merge policy; otherwise it is
/// appended and becomes the open diff for its key.
pub open spec fn spec_add_diff<D: PullableDiff>(m: SourceModel<D>, d: D) -> SourceModel<D> {
    if !spec_has_listener(m) {
        m
    } else {
        match d.key_spec() {
            None => SourceModel {
                log: seq![(m.next_diff, d)],
                index: Seq::empty(),
                cursors: m.cursors,
                next_diff: (m.next_diff + 1) as usize,
                next_id: m.next_id,
            },
            Some(k) => match entry_lookup(m.index, k) {
                None => SourceModel {
                    log: m.log.push((m.next_diff, d)),
                    index: m.index.push((k, m.next_diff)),
                    cursors: m.cursors,
                    next_diff: (m.next_diff + 1) as usize,
                    next_id: m.next_id,
                },
                Some(n) => {
                    let pos = log_pos(m.log, n);
                    let prev = log_get(m.log, n);
                    let mr = d.merge_spec(&prev);
                    let log_removed = m.log.remove(pos);
                    let log_rx = match mr.reindex_intermediary_diffs {
                        Some(instr) => reindex_log_spec(log_removed, n, instr),
                        None => log_removed,
                    };
                    match mr.outcome {
                        DiffMergeOutcome::Merge(merged) => SourceModel {
                            log: log_rx.push((m.next_diff, merged)),
                            index: entry_update(m.index, k, m.next_diff),
                            cursors: m.cursors,
                            next_diff: (m.next_diff + 1) as usize,
                            next_id: m.next_id,
                        },
                        DiffMergeOutcome::Replace => SourceModel {
                            log: log_rx.push((m.next_diff, d)),
                            index: entry_update(m.index, k, m.next_diff),
                            cursors: m.cursors,
                            next_diff: (m.next_diff + 1) as usize,
                            next_id: m.next_id,
                        },
                        DiffMergeOutcome::Ignore => SourceModel {
                            log: log_rx.insert(pos, (n, prev)),
                            index: m.index,
                            cursors: m.cursors,
                            next_diff: m.next_diff,
                            next_id: m.next_id,
                        },
                        DiffMergeOutcome::KeepBoth => SourceModel {
                            log: log_rx.insert(pos, (n, prev)).push((m.next_diff, d)),
                            index: entry_update(m.index, k, m.next_diff),
                            cursors: m.cursors,
                            next_diff: (m.next_diff + 1) as usize,
                            next_id: m.next_id,
                        },
                        DiffMergeOutcome::DiscardBoth => SourceModel {
                            log: log_rx,
                            index: entry_remove(m.index, k),
                            cursors: m.cursors,
                            next_diff: m.next_diff,
                            next_id: m.next_id,
                        },
                    }
                },
            },
        }
    }
}

/// One diff with its snapshot-time position rewritten through `gm`; a
/// global diff is untouched.
pub open spec fn resnap_diff_spec<D: PullableDiff>(
    d: D,
    gm: spec_fn(D::KeyType) -> D::KeyType,
) -> D {
    if d.snapshot_key_spec() is Some {
        d.with_snapshot_key_spec(gm(d.snapshot_key_spec()->0))
    } else {
        d
    }
}

/// The compaction index with every key rewritten through `gm`, processed
/// in order; when two keys collide after rewriting, the later entry wins.
pub open spec fn remap_entries<K>(entries: Seq<(K, usize)>, gm: spec_fn(K) -> K) -> Seq<
    (K, usize),
>
    decreases entries.len(),
{
    if entries.len() == 0 {
        entries
    } else {
        entry_set(remap_entries(entries.drop_last(), gm), gm(entries.last().0), entries.last().1)
    }
}

/// The state transition performed by a bulk key rewrite: every log entry's
/// snapshot-time position and every compaction-index key runs through the
/// mapper; the log order, the cursors and the counters are untouched.
pub open spec fn spec_update_keys<D: PullableDiff>(
    m: SourceModel<D>,
    gm: spec_fn(D::KeyType) -> D::KeyType,
) -> SourceModel<D> {
    SourceModel {
        log: m.log.map(|i: int, e: (DiffNumber, D)| (e.0, resnap_diff_spec(e.1, gm))),
        index: remap_entries(m.index, gm),
        cursors: m.cursors,
        next_diff: m.next_diff,
        next_id: m.next_id,
    }
}

/// The diffs of all log entries with sequence number greater than `last`,
/// in log order.
pub open spec fn diffs_after<D: PullableDiff>(log: Seq<(DiffNumber, D)>, last: DiffNumber) -> Seq<
    D,
>
    decreases log.len(),
{
    if log.len() == 0 {
        Seq::empty()
    } else if log[0].0 > last {
        seq![log[0].1] + diffs_after(log.drop_first(), last)
    } else {
        diffs_after(log.drop_first(), last)
    }
}

/// Whether any diff in the batch is global.
pub open spec fn spec_has_global<D: PullableDiff>(batch: Seq<D>) -> bool {
    exists|i: int| 0 <= i < batch.len() && (#[trigger] batch[i]).key_spec() is None
}

/// The state transition performed by one pull: the consumer's cursor moves
/// to the head of the log; unless the pull was a no-op, the compaction
/// index is cleared, because everything revealed solidifies.
pub open spec fn spec_pull_state<D: PullableDiff>(m: SourceModel<D>, id: SignalId) -> SourceModel<
    D,
> {
    let head = (m.next_diff - 1) as usize;
    if entry_lookup(m.cursors, id) == Some(head) {
        SourceModel { cursors: entry_set(m.cursors, id, head), ..m }
    } else {
        SourceModel {
            log: m.log,
            index: Seq::empty(),
            cursors: entry_set(m.cursors, id, head),
            next_diff: m.next_diff,
            next_id: m.next_id,
        }
    }
}

/// The batch returned by one pull: empty when the consumer is already at
/// the head; a single full-replace sentinel on a first-ever pull or when
/// the pending range contains a global diff; otherwise every diff past the
/// consumer's cursor, in order.
pub open spec fn spec_pull_batch<D: PullableDiff>(m: SourceModel<D>, id: SignalId) -> Seq<D> {
    let head = (m.next_diff - 1) as usize;
    match entry_lookup(m.cursors, id) {
        None => seq![D::full_replace_spec()],
        Some(last) => {
            if last == head {
                Seq::empty()
            } else {
                let range = diffs_after(m.log, last);
                if spec_has_global(range) {
                    seq![D::full_replace_spec()]
                } else {
                    range
                }
            }
        },
    }
}

/// Well-formedness of a source model: sequence numbers in the log are
/// strictly increasing and below the next free number; compaction-index
/// keys are distinct and point at distinct, present log entries; cursors
/// belong to issued consumer ids and never pass the head.
pub open spec fn model_wf<D: PullableDiff>(m: SourceModel<D>) -> bool {
    &&& 1 <= m.next_diff
    &&& 1 <= m.next_id
    &&& forall|i: int|
        0 <= i < m.log.len() ==> 1 <= (#[trigger] m.log[i]).0 < m.next_diff
    &&& forall|i: int, j: int|
        0 <= i < j < m.log.len() ==> (#[trigger] m.log[i]).0 < (#[trigger] m.log[j]).0
    &&& forall|i: int, j: int|
        0 <= i < j < m.index.len() ==> (#[trigger] m.index[i]).0 != (#[trigger] m.index[j]).0
    &&& forall|i: int, j: int|
        0 <= i < j < m.index.len() ==> (#[trigger] m.index[i]).1 != (#[trigger] m.index[j]).1
    &&& forall|i: int|
        0 <= i < m.index.len() ==> log_contains(m.log, (#[trigger] m.index[i]).1)
    &&& forall|i: int, j: int|
        0 <= i < j < m.cursors.len() ==> (#[trigger] m.cursors[i]).0 != (#[trigger] m.cursors[j]).0
    &&& forall|i: int|
        0 <= i < m.cursors.len() ==> 1 <= (#[trigger] m.cursors[i]).0 < m.next_id
    &&& forall|i: int|
        0 <= i < m.cursors.len() ==> (#[trigger] m.cursors[i]).1 < m.next_diff
}

/// A lookup that comes back empty means no entry carries the key.
pub proof fn lemma_entry_lookup_none<K>(entries: Seq<(K, usize)>, k: K)
    requires
        entry_lookup(entries, k) is None,
    ensures
        forall|i: int| 0 <= i < entries.len() ==> (#[trigger] entries[i]).0 != k,
    decreases entries.len(),
{
    if entries.len() > 0 {
        lemma_entry_lookup_none(entries.drop_first(), k);
        assert(forall|i: int|
            1 <= i < entries.len() ==> (#[trigger] entries[i]) == entries.drop_first()[i - 1]);
    }
}

/// When position `p` holds the first entry for `k`, the recursive lookup,
/// removal and update functions act exactly at `p`.
pub proof fn lemma_entry_ops_at<K>(entries: Seq<(K, usize)>, k: K, p: int, n: usize)
    requires
        0 <= p < entries.len(),
        entries[p].0 == k,
        forall|i: int| 0 <= i < p ==> (#[trigger] entries[i]).0 != k,
    ensures
        entry_lookup(entries, k) == Some(entries[p].1),
        entry_remove(entries, k) =~= entries.remove(p),
        entry_update(entries, k, n) =~= entries.update(p, (k, n)),
    decreases entries.len(),
{
    if p == 0 {
        assert(entry_remove(entries, k) =~= entries.remove(0));
        assert(entry_update(entries, k, n) =~= entries.update(0, (k, n)));
    } else {
        let rest = entries.drop_first();
        assert(forall|i: int| 1 <= i < entries.len() ==> (#[trigger] entries[i]) == rest[i - 1]);
        lemma_entry_ops_at(rest, k, p - 1, n);
        assert(entry_remove(entries, k) =~= entries.remove(p)) by {
            assert(entry_remove(entries, k) == seq![entries[0]] + entry_remove(rest, k));
            assert(entry_remove(rest, k) =~= rest.remove(p - 1));
        }
        assert(entry_update(entries, k, n) =~= entries.update(p, (k, n))) by {
            assert(entry_update(entries, k, n) == seq![entries[0]] + entry_update(rest, k, n));
            assert(entry_update(rest, k, n) =~= rest.update(p - 1, (k, n)));
        }
    }
}

/// In a log whose entry `p` is the first one numbered `n`, `log_pos` finds
/// exactly `p`.
pub proof fn lemma_log_pos_at<D>(log: Seq<(DiffNumber, D)>, n: DiffNumber, p: int)
    requires
        0 <= p < log.len(),
        log[p].0 == n,
        forall|i: int| 0 <= i < p ==> (#[trigger] log[i]).0 != n,
    ensures
        log_pos(log, n) == p,
        log_get(log, n) == log[p].1,
    decreases log.len(),
{
    if p > 0 {
        let rest = log.drop_first();
        assert(forall|i: int| 1 <= i < log.len() ==> (#[trigger] log[i]) == rest[i - 1]);
        lemma_log_pos_at(rest, n, p - 1);
    }
}

/// The ordered, compacting diff log with its per-key and per-consumer
/// bookkeeping.
///
/// `diffs` holds the log entries in ascending sequence-number order;
/// `signal_last_diff_numbers` records, per consumer, the newest sequence
/// number that consumer has been shown; `diffs_per_key` is the compaction
/// index pointing at the open diff of each key.
pub struct StructrualSignalPullSource<DiffType: PullableDiff> {
    diffs: Vec<(DiffNumber, DiffType)>,
    signal_last_diff_numbers: Vec<(SignalId, DiffNumber)>,
    diffs_per_key: Vec<(DiffType::KeyType, DiffNumber)>,
    next_diff_index: DiffNumber,
    next_signal_id: SignalId,
}

impl<DiffType: PullableDiff> View for StructrualSignalPullSource<DiffType> {
    type V = SourceModel<DiffType>;

    closed spec fn view(&self) -> SourceModel<DiffType> {
        SourceModel {
            log: self.diffs@,
            index: self.diffs_per_key@,
            cursors: self.signal_last_diff_numbers@,
            next_diff: self.next_diff_index,
            next_id: self.next_signal_id,
        }
    }
}

/// Position of the first entry for `key` in an entry vector.
fn entries_find<K: DiffKey>(entries: &Vec<(K, usize)>, key: &K) -> (r: Option<usize>)
    ensures
        match r {
            Some(p) => {
                &&& p < entries@.len()
                &&& entries@[p as int].0 == *key
                &&& forall|i: int| 0 <= i < p ==> (#[trigger] entries@[i]).0 != *key
                &&& entry_lookup(entries@, *key) == Some(entries@[p as int].1)
            },
            None => entry_lookup(entries@, *key) is None,
        },
{
    let ghost s = entries@;
    proof {
        assert(s.subrange(0, s.len() as int) =~= s);
    }
    let mut i: usize = 0;
    while i < entries.len()
        invariant
            0 <= i <= s.len(),
            entries@ == s,
            forall|j: int| 0 <= j < i ==> (#[trigger] s[j]).0 != *key,
            entry_lookup(s, *key) == entry_lookup(s.subrange(i as int, s.len() as int), *key),
        decreases s.len() - i,
    {
        let sub = entries[i].0.same(key);
        proof {
            let tail = s.subrange(i as int, s.len() as int);
            assert(tail[0] == s[i as int]);
            assert(tail.drop_first() =~= s.subrange(i as int + 1, s.len() as int));
        }
        if sub {
            return Some(i);
        }
        i += 1;
    }
    proof {
        assert(s.subrange(s.len() as int, s.len() as int) =~= Seq::<(K, usize)>::empty());
    }
    None
}

/// Position of the log entry numbered `n`; the log must contain it.
fn log_find<D: PullableDiff>(diffs: &Vec<(DiffNumber, D)>, n: DiffNumber) -> (r: usize)
    requires
        log_contains(diffs@, n),
    ensures
        r < diffs@.len(),
        diffs@[r as int].0 == n,
        log_pos(diffs@, n) == r,
        log_get(diffs@, n) == diffs@[r as int].1,
{
    let ghost s = diffs@;
    let mut i: usize = 0;
    while i < diffs.len()
        invariant
            0 <= i <= s.len(),
            diffs@ == s,
            log_contains(s, n),
            forall|j: int| 0 <= j < i ==> (#[trigger] s[j]).0 != n,
        decreases s.len() - i,
    {
        if diffs[i].0 == n {
            proof {
                lemma_log_pos_at(s, n, i as int);
            }
            return i;
        }
        i += 1;
    }
    proof {
        assert(false);
    }
    vstd::pervasive::unreached()
}

impl<DiffType: PullableDiff> StructrualSignalPullSource<DiffType> {
    /// Well-formedness: the representation satisfies the model invariant.
    pub open spec fn wf(&self) -> bool {
        model_wf(self@)
    }

    /// A fresh, empty pull source with no history and no consumers.
    pub fn new() -> (r: StructrualSignalPullSource<DiffType>)
        ensures
            r.wf(),
            r@.log == Seq::<(DiffNumber, DiffType)>::empty(),
            r@.index == Seq::<(DiffType::KeyType, DiffNumber)>::empty(),
            r@.cursors == Seq::<(SignalId, DiffNumber)>::empty(),
            r@.next_diff == 1,
            r@.next_id == 1,
    {
        StructrualSignalPullSource {
            diffs: Vec::new(),
            signal_last_diff_numbers: Vec::new(),
            diffs_per_key: Vec::new(),
            next_diff_index: 1,
            next_signal_id: 1,
        }
    }

    /// Issue a fresh, unique consumer id.
    pub fn get_next_signal_id(&mut self) -> (r: SignalId)
        requires
            old(self).wf(),
            old(self)@.next_id < usize::MAX,
        ensures
            final(self).wf(),
            r == old(self)@.next_id,
            final(self)@ == (SourceModel {
                next_id: (old(self)@.next_id + 1) as usize,
                ..old(self)@
            }),
    {
        let next_id = self.next_signal_id;
        self.next_signal_id = self.next_signal_id + 1;
        next_id
    }

    /// Whether at least one consumer id has ever been issued. Consumers
    /// never unregister, so this never goes back to `false`.
    pub fn has_listening_signal(&self) -> (r: bool)
        ensures
            r == spec_has_listener(self@),
    {
        self.next_signal_id > 1
    }

    /// Whether another diff can still be numbered.
    pub fn has_room(&self) -> (r: bool)
        ensures
            r == (self@.next_diff < usize::MAX),
    {
        self.next_diff_index < usize::MAX
    }

    /// Whether `extra` more diffs can still be numbered.
    pub fn has_room_for(&self, extra: usize) -> (r: bool)
        ensures
            r == (self@.next_diff + extra <= usize::MAX),
    {
        self.next_diff_index <= usize::MAX - extra
    }

    /// Deliver to one consumer everything it has not yet seen.
    ///
    /// A consumer already at the head gets an empty batch and nothing else
    /// changes. Otherwise the compaction index is cleared — whatever is
    /// about to be revealed can no longer be elided. A first-ever pull
    /// yields a single full-replace sentinel; so does a pending range that
    /// contains a global diff. Otherwise the batch is every diff past the
    /// consumer's cursor, in log order. The cursor always ends at the head.
    pub fn pull_signal(&mut self, signal_id: SignalId) -> (r: Vec<DiffType>)
        requires
            old(self).wf(),
            1 <= signal_id < old(self)@.next_id,
        ensures
            final(self).wf(),
            final(self)@ == spec_pull_state(old(self)@, signal_id),
            r@ == spec_pull_batch(old(self)@, signal_id),
    {
        let ghost m0 = self@;
        let current_diff_number = self.next_diff_index - 1;
        let maybe_last_diff_number = cursor_set(
            &mut self.signal_last_diff_numbers,
            signal_id,
            current_diff_number,
        );
        proof {
            lemma_cursor_set_wf(m0.cursors, signal_id, current_diff_number, m0.next_id, m0.next_diff);
        }
        if let Option::Some(last) = maybe_last_diff_number {
            if last == current_diff_number {
                proof {
                    assert(self@ =~= spec_pull_state(m0, signal_id));
                }
                return Vec::new();
            }
        }
        self.diffs_per_key.clear();
        proof {
            assert(self@ =~= spec_pull_state(m0, signal_id));
        }
        let last = match maybe_last_diff_number {
            Option::None => {
                let mut v: Vec<DiffType> = Vec::new();
                v.push(DiffType::full_replace());
                proof {
                    assert(v@ =~= spec_pull_batch(m0, signal_id));
                }
                return v;
            },
            Option::Some(l) => l,
        };
        let ghost log = m0.log;
        let mut batch: Vec<DiffType> = Vec::new();
        let mut has_global = false;
        let mut i: usize = 0;
        proof {
            assert(log.subrange(0, log.len() as int) =~= log);
            assert(Seq::<DiffType>::empty() + diffs_after(log, last) =~= diffs_after(log, last));
        }
        while i < self.diffs.len()
            invariant
                0 <= i <= log.len(),
                self@.log == log,
                diffs_after(log, last) == batch@ + diffs_after(
                    log.subrange(i as int, log.len() as int),
                    last,
                ),
                has_global == spec_has_global(batch@),
            decreases log.len() - i,
        {
            let ghost tail = log.subrange(i as int, log.len() as int);
            proof {
                assert(tail[0] == log[i as int]);
                assert(tail.drop_first() =~= log.subrange(i as int + 1, log.len() as int));
            }
            if self.diffs[i].0 > last {
                let d = self.diffs[i].1.dup();
                let ghost dg = d;
                if d.get_key().is_none() {
                    has_global = true;
                }
                let ghost batch0 = batch@;
                batch.push(d);
                proof {
                    assert(batch@ + diffs_after(tail.drop_first(), last) =~= batch0 + (seq![
                        log[i as int].1,
                    ] + diffs_after(tail.drop_first(), last)));
                    if spec_has_global(batch0) {
                        let j = choose|j: int|
                            0 <= j < batch0.len() && (#[trigger] batch0[j]).key_spec() is None;
                        assert(batch@[j] == batch0[j]);
                        assert(spec_has_global(batch@));
                    }
                    if dg.key_spec() is None {
                        assert(batch@[batch0.len() as int] == dg);
                        assert(spec_has_global(batch@));
                    }
                    if !spec_has_global(batch0) && dg.key_spec() is Some && spec_has_global(
                        batch@,
                    ) {
                        let j = choose|j: int|
                            0 <= j < batch@.len() && (#[trigger] batch@[j]).key_spec() is None;
                        if j < batch0.len() {
                            assert(batch0[j] == batch@[j]);
                        } else {
                            assert(batch@[j] == dg);
                        }
                        assert(false);
                    }
                }
            }
            i += 1;
        }
        proof {
            assert(log.subrange(log.len() as int, log.len() as int)
                =~= Seq::<(DiffNumber, DiffType)>::empty());
            assert(batch@ + Seq::<DiffType>::empty() =~= batch@);
        }
        if has_global {
            let mut v: Vec<DiffType> = Vec::new();
            v.push(DiffType::full_replace());
            proof {
                assert(v@ =~= spec_pull_batch(m0, signal_id));
            }
            return v;
        }
        batch
    }

    /// Rewrite every open diff's key and every compaction-index entry
    /// through a caller-supplied pure function.
    ///
    /// Ordered collections use this to shift affected positions after an
    /// insert or remove without a full log rewrite. The ghost argument
    /// names the mathematical function the updater computes.
    pub fn update_keys<F: Fn(DiffType::KeyType) -> DiffType::KeyType>(
        &mut self,
        updater: F,
        Ghost(gm): Ghost<spec_fn(DiffType::KeyType) -> DiffType::KeyType>,
    )
        requires
            old(self).wf(),
            forall|k: DiffType::KeyType| #[trigger] call_requires(updater, (k,)),
            forall|k: DiffType::KeyType, r: DiffType::KeyType|
                #[trigger] call_ensures(updater, (k,), r) ==> r == gm(k),
        ensures
            final(self).wf(),
            final(self)@ == spec_update_keys(old(self)@, gm),
    {
        let ghost m0 = self@;
        let mut new_index: Vec<(DiffType::KeyType, DiffNumber)> = Vec::new();
        let mut i: usize = 0;
        proof {
            assert(m0.index.take(0) =~= Seq::<(DiffType::KeyType, DiffNumber)>::empty());
        }
        while i < self.diffs_per_key.len()
            invariant
                0 <= i <= m0.index.len(),
                self@ == m0,
                model_wf(m0),
                forall|k: DiffType::KeyType, r: DiffType::KeyType|
                    #[trigger] call_ensures(updater, (k,), r) ==> r == gm(k),
                forall|k: DiffType::KeyType| #[trigger] call_requires(updater, (k,)),
                new_index@ == remap_entries(m0.index.take(i as int), gm),
                forall|a: int, b: int|
                    0 <= a < b < new_index@.len() ==> (#[trigger] new_index@[a]).0 != (
                    #[trigger] new_index@[b]).0,
                forall|a: int, b: int|
                    0 <= a < b < new_index@.len() ==> (#[trigger] new_index@[a]).1 != (
                    #[trigger] new_index@[b]).1,
                forall|a: int|
                    0 <= a < new_index@.len() ==> exists|q: int|
                        0 <= q < i && (#[trigger] new_index@[a]).1 == m0.index[q].1,
            decreases m0.index.len() - i,
        {
            let k = self.diffs_per_key[i].0.dup();
            let n = self.diffs_per_key[i].1;
            let nk = updater(k);
            let ghost before = new_index@;
            let found = entries_find(&new_index, &nk);
            match found {
                Option::Some(p) => {
                    proof {
                        lemma_entry_ops_at(before, nk, p as int, n);
                    }
                    new_index.set(p, (nk, n));
                },
                Option::None => {
                    proof {
                        lemma_entry_lookup_none(before, nk);
                    }
                    new_index.push((nk, n));
                },
            }
            proof {
                assert(m0.index.take(i + 1).drop_last() =~= m0.index.take(i as int));
                assert(m0.index.take(i + 1).last() == m0.index[i as int]);
                assert(nk == gm(m0.index[i as int].0));
                assert(new_index@ == entry_set(before, nk, n));
                assert(new_index@ == remap_entries(m0.index.take(i + 1), gm));
                assert forall|a: int|
                    0 <= a < new_index@.len() implies exists|q: int|
                    0 <= q < i + 1 && (#[trigger] new_index@[a]).1 == m0.index[q].1 by {
                    if new_index@[a] == ((nk, n)) && new_index@[a].1 == n {
                        assert(0 <= i < i + 1 && new_index@[a].1 == m0.index[i as int].1);
                    } else if a < before.len() && new_index@[a] == before[a] {
                        let q = choose|q: int|
                            0 <= q < i && (#[trigger] before[a]).1 == m0.index[q].1;
                        assert(0 <= q < i + 1 && new_index@[a].1 == m0.index[q].1);
                    } else {
                        assert(new_index@[a].1 == n);
                        assert(0 <= i < i + 1 && new_index@[a].1 == m0.index[i as int].1);
                    }
                }
                assert forall|a: int, b: int|
                    0 <= a < b < new_index@.len() implies (#[trigger] new_index@[a]).1 != (
                #[trigger] new_index@[b]).1 by {
                    if a < before.len() && b < before.len() && new_index@[a] == before[a]
                        && new_index@[b] == before[b] {
                    } else if new_index@[a].1 == n && new_index@[b] == before[b] {
                        let q = choose|q: int|
                            0 <= q < i && (#[trigger] before[b]).1 == m0.index[q].1;
                        assert(m0.index[q].1 != m0.index[i as int].1);
                    } else if new_index@[b].1 == n && a < before.len() && new_index@[a]
                        == before[a] {
                        let q = choose|q: int|
                            0 <= q < i && (#[trigger] before[a]).1 == m0.index[q].1;
                        assert(m0.index[q].1 != m0.index[i as int].1);
                    }
                }
            }
            i += 1;
        }
        proof {
            assert(m0.index.take(m0.index.len() as int) =~= m0.index);
        }
        let ghost idx_final = new_index@;
        self.diffs_per_key = new_index;
        let mut j: usize = 0;
        while j < self.diffs.len()
            invariant
                0 <= j <= m0.log.len(),
                self@.log.len() == m0.log.len(),
                self@.index == idx_final,
                self@.cursors == m0.cursors,
                self@.next_diff == m0.next_diff,
                self@.next_id == m0.next_id,
                forall|k: DiffType::KeyType, r: DiffType::KeyType|
                    #[trigger] call_ensures(updater, (k,), r) ==> r == gm(k),
                forall|k: DiffType::KeyType| #[trigger] call_requires(updater, (k,)),
                forall|p: int|
                    0 <= p < j ==> (#[trigger] self@.log[p]) == ((
                    m0.log[p].0,
                    resnap_diff_spec(m0.log[p].1, gm),
                    )),
                forall|p: int| j <= p < m0.log.len() ==> (#[trigger] self@.log[p]) == m0.log[p],
            decreases m0.log.len() - j,
        {
            let sk_opt = self.diffs[j].1.get_snapshot_key();
            match sk_opt {
                Option::Some(sk) => {
                    let nk = updater(sk);
                    let num = self.diffs[j].0;
                    let mut d2 = self.diffs[j].1.dup();
                    d2.set_snapshot_key(nk);
                    self.diffs.set(j, (num, d2));
                },
                Option::None => {},
            }
            j += 1;
        }
        proof {
            assert(self@.log =~= spec_update_keys(m0, gm).log);
            assert(self@ =~= spec_update_keys(m0, gm));
            assert forall|a: int|
                0 <= a < idx_final.len() implies log_contains(
                self@.log,
                (#[trigger] idx_final[a]).1,
            ) by {
                let q = choose|q: int|
                    0 <= q < m0.index.len() && (#[trigger] idx_final[a]).1 == m0.index[q].1;
                let x = m0.index[q].1;
                assert(log_contains(m0.log, x));
                let w = choose|w: int| 0 <= w < m0.log.len() && (#[trigger] m0.log[w]).0 == x;
                assert(self@.log[w].0 == x);
            }
        }
    }

    /// Record one diff in the log.
    ///
    /// With no subscriber this is a no-op. A global diff wipes the log and
    /// the compaction index before being appended. A keyed diff that
    /// collides with the open diff for its key goes through the merge
    /// policy; the reindex instruction, if any, rewrites the diffs between
    /// the collapsed pair.
    pub fn add_diff(&mut self, diff: DiffType)
        requires
            old(self).wf(),
            old(self)@.next_diff < usize::MAX,
            spec_mergeable(old(self)@, diff),
        ensures
            final(self).wf(),
            final(self)@ == spec_add_diff(old(self)@, diff),
    {
        let ghost m0 = self@;
        let ghost d0 = diff;
        if !self.has_listening_signal() {
            return ;
        }
        let maybe_diff_key = diff.get_key();
        match maybe_diff_key {
            Option::None => {
                self.diffs.clear();
                self.diffs_per_key.clear();
                self.diffs.push((self.next_diff_index, diff));
                self.next_diff_index = self.next_diff_index + 1;
                proof {
                    assert(self@.log =~= spec_add_diff(m0, d0).log);
                    assert(self@ =~= spec_add_diff(m0, d0));
                }
            },
            Option::Some(diff_key) => {
                let found = entries_find(&self.diffs_per_key, &diff_key);
                match found {
                    Option::None => {
                        proof {
                            lemma_entry_lookup_none(m0.index, d0.key_spec()->0);
                        }
                        self.diffs_per_key.push((diff_key, self.next_diff_index));
                        self.diffs.push((self.next_diff_index, diff));
                        self.next_diff_index = self.next_diff_index + 1;
                        proof {
                            assert(self@ =~= spec_add_diff(m0, d0));
                            assert forall|i: int|
                                0 <= i < self@.index.len() implies log_contains(
                                self@.log,
                                (#[trigger] self@.index[i]).1,
                            ) by {
                                if i < m0.index.len() {
                                    let n = m0.index[i].1;
                                    let j = choose|j: int|
                                        0 <= j < m0.log.len() && (#[trigger] m0.log[j]).0 == n;
                                    assert(self@.log[j].0 == n);
                                } else {
                                    assert(self@.log[m0.log.len() as int].0 == m0.next_diff);
                                }
                            }
                        }
                    },
                    Option::Some(ip) => {
                        let ghost k = m0.index[ip as int].0;
                        let prev_diff_index = self.diffs_per_key[ip].1;
                        proof {
                            assert(log_contains(m0.log, m0.index[ip as int].1));
                        }
                        let lp = log_find(&self.diffs, prev_diff_index);
                        let ghost n = prev_diff_index;
                        let ghost pos = lp as int;
                        let (prev_n, prev_diff) = self.diffs.remove(lp);
                        let ghost log_removed = m0.log.remove(pos);
                        let result = diff.merge_with_previous(&prev_diff);
                        let DiffMergeResult { outcome, reindex_intermediary_diffs } = result;
                        proof {
                            // numbers before the removed entry are smaller, after it larger
                            assert(forall|i: int|
                                0 <= i < pos ==> (#[trigger] log_removed[i]).0 < n);
                            assert(forall|i: int|
                                pos <= i < log_removed.len() ==> (#[trigger] log_removed[i]).0 > n)
                                by {
                                assert(forall|i: int|
                                    pos <= i < log_removed.len() ==> log_removed[i] == m0.log[i
                                        + 1]);
                            }
                        }
                        if let Option::Some(instr) = &reindex_intermediary_diffs {
                            reindex_range(&mut self.diffs, lp, instr, Ghost(n));
                        }
                        let ghost log_rx = self.diffs@;
                        proof {
                            assert(log_rx == match d0.merge_spec(&log_get(m0.log, n))
                                .reindex_intermediary_diffs {
                                Some(instr) => reindex_log_spec(log_removed, n, instr),
                                None => log_removed,
                            });
                            // reindexing does not change sequence numbers
                            assert(forall|i: int|
                                0 <= i < log_rx.len() ==> (#[trigger] log_rx[i]).0
                                    == log_removed[i].0);
                            lemma_entry_ops_at(m0.index, k, ip as int, m0.next_diff);
                        }
                        match outcome {
                            DiffMergeOutcome::Merge(merged) => {
                                self.diffs_per_key.set(ip, (diff_key, self.next_diff_index));
                                self.diffs.push((self.next_diff_index, merged));
                                self.next_diff_index = self.next_diff_index + 1;
                                proof {
                                    assert(self@ =~= spec_add_diff(m0, d0));
                                    lemma_open_wf_after_collapse(m0, n, pos, log_rx, ip as int);
                                }
                            },
                            DiffMergeOutcome::Replace => {
                                self.diffs_per_key.set(ip, (diff_key, self.next_diff_index));
                                self.diffs.push((self.next_diff_index, diff));
                                self.next_diff_index = self.next_diff_index + 1;
                                proof {
                                    assert(self@ =~= spec_add_diff(m0, d0));
                                    lemma_open_wf_after_collapse(m0, n, pos, log_rx, ip as int);
                                }
                            },
                            DiffMergeOutcome::Ignore => {
                                self.diffs.insert(lp, (prev_n, prev_diff));
                                proof {
                                    assert(self@ =~= spec_add_diff(m0, d0));
                                    lemma_ignore_wf_after_collapse(m0, n, pos, log_rx);
                                }
                            },
                            DiffMergeOutcome::KeepBoth => {
                                self.diffs.insert(lp, (prev_n, prev_diff));
                                self.diffs_per_key.set(ip, (diff_key, self.next_diff_index));
                                self.diffs.push((self.next_diff_index, diff));
                                self.next_diff_index = self.next_diff_index + 1;
                                proof {
                                    assert(self@ =~= spec_add_diff(m0, d0));
                                    lemma_keep_both_wf_after_collapse(m0, n, pos, log_rx, ip as int);
                                }
                            },
                            DiffMergeOutcome::DiscardBoth => {
                                self.diffs_per_key.remove(ip);
                                proof {
                                    assert(self@ =~= spec_add_diff(m0, d0));
                                    lemma_discard_wf_after_collapse(m0, n, pos, log_rx, ip as int);
                                }
                            },
                        }
                    },
                }
            },
        }
    }
}

/// A stateful owner of a pull source: the collection's authoritative
/// state together with its diff log. It can answer pulls and wrap a batch
/// of diffs into a delivered event carrying the current snapshot.
pub trait PullSourceHost: Sized {
    type DiffType: PullableDiff;

    type EventType;

    /// Internal consistency of the host, its pull source included.
    spec fn host_wf(&self) -> bool;

    /// The model of the embedded pull source.
    spec fn host_source(&self) -> SourceModel<Self::DiffType>;

    /// Internal consistency of a delivered event.
    spec fn event_wf(event: Self::EventType) -> bool;

    /// Whether `event` is the delivery of `diffs` from this host's current
    /// state — in particular, whether its snapshot is the host's live
    /// state at this instant.
    spec fn event_spec(&self, diffs: Seq<Self::DiffType>, event: Self::EventType) -> bool;

    /// Issue a fresh consumer id.
    fn subscribe(&mut self) -> (id: SignalId)
        requires
            old(self).host_wf(),
            old(self).host_source().next_id < usize::MAX,
        ensures
            final(self).host_wf(),
            id == old(self).host_source().next_id,
            final(self).host_source() == (SourceModel {
                next_id: (old(self).host_source().next_id + 1) as usize,
                ..old(self).host_source()
            }),
    ;

    /// Pull the pending diffs of one consumer from the embedded source.
    fn pull_diffs(&mut self, id: SignalId) -> (r: Vec<Self::DiffType>)
        requires
            old(self).host_wf(),
            1 <= id < old(self).host_source().next_id,
        ensures
            final(self).host_wf(),
            final(self).host_source() == spec_pull_state(old(self).host_source(), id),
            r@ == spec_pull_batch(old(self).host_source(), id),
    ;

    /// Wrap a batch into a delivered event, attaching the collection's
    /// full state at this instant.
    fn make_event(&self, diffs: Vec<Self::DiffType>) -> (r: Self::EventType)
        requires
            self.host_wf(),
        ensures
            self.event_spec(diffs@, r),
            Self::event_wf(r),
    ;
}

/// Poll one consumer cursor against its host: an empty batch means no
/// update yet; a non-empty batch is materialized into an event carrying
/// the host's snapshot at this very instant — which is what makes the
/// delivered snapshot converge with a live read of the collection.
pub fn poll_cursor<H: PullSourceHost>(host: &mut H, id: SignalId) -> (r: PollChange<H::EventType>)
    requires
        old(host).host_wf(),
        1 <= id < old(host).host_source().next_id,
    ensures
        final(host).host_wf(),
        final(host).host_source() == spec_pull_state(old(host).host_source(), id),
        ({
            let batch = spec_pull_batch(old(host).host_source(), id);
            if batch.len() == 0 {
                r is Pending
            } else {
                r matches PollChange::Ready(e) && final(host).event_spec(batch, e)
            }
        }),
        r matches PollChange::Ready(e) ==> H::event_wf(e),
{
    let diffs = host.pull_diffs(id);
    if diffs.len() == 0 {
        PollChange::Pending
    } else {
        PollChange::Ready(host.make_event(diffs))
    }
}

/// Record `val` as the cursor of consumer `id`, returning the previous
/// cursor if there was one.
fn cursor_set(
    cursors: &mut Vec<(SignalId, DiffNumber)>,
    id: SignalId,
    val: DiffNumber,
) -> (r: Option<DiffNumber>)
    ensures
        r == entry_lookup(old(cursors)@, id),
        final(cursors)@ == entry_set(old(cursors)@, id, val),
{
    let found = entries_find(cursors, &id);
    match found {
        Option::Some(p) => {
            let prev = cursors[p].1;
            cursors.set(p, (id, val));
            proof {
                lemma_entry_ops_at(old(cursors)@, id, p as int, val);
            }
            Some(prev)
        },
        Option::None => {
            cursors.push((id, val));
            None
        },
    }
}

/// Setting a cursor keeps the cursor table well formed.
proof fn lemma_cursor_set_wf(
    cursors: Seq<(SignalId, DiffNumber)>,
    id: SignalId,
    val: DiffNumber,
    next_id: SignalId,
    next_diff: DiffNumber,
)
    requires
        forall|i: int, j: int|
            0 <= i < j < cursors.len() ==> (#[trigger] cursors[i]).0 != (#[trigger] cursors[j]).0,
        forall|i: int| 0 <= i < cursors.len() ==> 1 <= (#[trigger] cursors[i]).0 < next_id,
        forall|i: int| 0 <= i < cursors.len() ==> (#[trigger] cursors[i]).1 < next_diff,
        1 <= id < next_id,
        val < next_diff,
    ensures
        ({
            let c2 = entry_set(cursors, id, val);
            &&& forall|i: int, j: int|
                0 <= i < j < c2.len() ==> (#[trigger] c2[i]).0 != (#[trigger] c2[j]).0
            &&& forall|i: int| 0 <= i < c2.len() ==> 1 <= (#[trigger] c2[i]).0 < next_id
            &&& forall|i: int| 0 <= i < c2.len() ==> (#[trigger] c2[i]).1 < next_diff
        }),
{
    match entry_lookup(cursors, id) {
        Option::None => {
            lemma_entry_lookup_none(cursors, id);
        },
        Option::Some(_) => {
            let p = lemma_entry_lookup_pos(cursors, id);
            lemma_entry_ops_at(cursors, id, p, val);
        },
    }
}

/// A successful lookup has a position: the first entry carrying the key.
pub proof fn lemma_entry_lookup_pos<K>(entries: Seq<(K, usize)>, k: K) -> (p: int)
    requires
        entry_lookup(entries, k) is Some,
    ensures
        0 <= p < entries.len(),
        entries[p].0 == k,
        entries[p].1 == entry_lookup(entries, k)->0,
        forall|i: int| 0 <= i < p ==> (#[trigger] entries[i]).0 != k,
    decreases entries.len(),
{
    if entries[0].0 == k {
        0
    } else {
        let rest = entries.drop_first();
        let q = lemma_entry_lookup_pos(rest, k);
        assert(forall|i: int| 1 <= i < entries.len() ==> (#[trigger] entries[i]) == rest[i - 1]);
        q + 1
    }
}

/// Rewrite the key of every log entry at or after position `from` through
/// the reindex instruction. The caller localizes the cut: entries before
/// `from` are numbered at most `n`, entries after it strictly above `n`.
fn reindex_range<D: PullableDiff>(
    diffs: &mut Vec<(DiffNumber, D)>,
    from: usize,
    instr: &D::ReindexType,
    Ghost(n): Ghost<DiffNumber>,
)
    requires
        from <= old(diffs)@.len(),
        forall|i: int| 0 <= i < from ==> (#[trigger] old(diffs)@[i]).0 <= n,
        forall|i: int|
            from <= i < old(diffs)@.len() ==> (#[trigger] old(diffs)@[i]).0 > n,
    ensures
        final(diffs)@ == reindex_log_spec(old(diffs)@, n, *instr),
{
    let ghost orig = diffs@;
    let mut i: usize = from;
    while i < diffs.len()
        invariant
            from <= i <= orig.len(),
            diffs@.len() == orig.len(),
            forall|j: int| 0 <= j < from ==> (#[trigger] orig[j]).0 <= n,
            forall|j: int| from <= j < orig.len() ==> (#[trigger] orig[j]).0 > n,
            forall|j: int| 0 <= j < from ==> (#[trigger] diffs@[j]) == orig[j],
            forall|j: int|
                from <= j < i ==> (#[trigger] diffs@[j]) == ((
                orig[j].0,
                reindex_diff_spec(orig[j].1, *instr),
                )),
            forall|j: int| i <= j < orig.len() ==> (#[trigger] diffs@[j]) == orig[j],
        decreases orig.len() - i,
    {
        let has_key = diffs[i].1.get_key();
        let has_sk = diffs[i].1.get_snapshot_key();
        match (has_key, has_sk) {
            (Option::Some(kk), Option::Some(sk)) => {
                let nk = D::apply_reindex(instr, &kk, &sk);
                let num = diffs[i].0;
                let mut d2 = diffs[i].1.dup();
                d2.set_key(nk);
                diffs.set(i, (num, d2));
            },
            _ => {},
        }
        i += 1;
    }
    proof {
        assert(diffs@ =~= reindex_log_spec(orig, n, *instr));
    }
}

/// The first position carrying sequence number `n`, with `log_pos` and
/// `log_get` evaluated there.
pub proof fn lemma_log_first_pos<D>(log: Seq<(DiffNumber, D)>, n: DiffNumber) -> (p: int)
    requires
        log_contains(log, n),
    ensures
        0 <= p < log.len(),
        log[p].0 == n,
        forall|i: int| 0 <= i < p ==> (#[trigger] log[i]).0 != n,
        log_pos(log, n) == p,
        log_get(log, n) == log[p].1,
    decreases log.len(),
{
    if log[0].0 == n {
        0
    } else {
        let rest = log.drop_first();
        assert(forall|i: int| 1 <= i < log.len() ==> (#[trigger] log[i]) == rest[i - 1]);
        assert(log_contains(rest, n)) by {
            let j = choose|j: int| 0 <= j < log.len() && (#[trigger] log[j]).0 == n;
            assert(rest[j - 1].0 == n);
        }
        let q = lemma_log_first_pos(rest, n);
        q + 1
    }
}

/// Appending an entry with a fresh number does not change what any older
/// number resolves to.
pub proof fn lemma_log_get_stable_push<D>(
    log: Seq<(DiffNumber, D)>,
    e: (DiffNumber, D),
    n: DiffNumber,
)
    requires
        log_contains(log, n),
    ensures
        log_contains(log.push(e), n),
        log_get(log.push(e), n) == log_get(log, n),
{
    let p = lemma_log_first_pos(log, n);
    assert(log.push(e)[p].0 == n);
    lemma_log_pos_at(log.push(e), n, p);
}

/// Removing an entry with a different number does not change what `n`
/// resolves to.
pub proof fn lemma_log_get_stable_remove<D>(log: Seq<(DiffNumber, D)>, pos: int, n: DiffNumber)
    requires
        0 <= pos < log.len(),
        log[pos].0 != n,
        log_contains(log, n),
    ensures
        log_contains(log.remove(pos), n),
        log_get(log.remove(pos), n) == log_get(log, n),
{
    let p = lemma_log_first_pos(log, n);
    let removed = log.remove(pos);
    assert(forall|i: int| 0 <= i < pos ==> (#[trigger] removed[i]) == log[i]);
    assert(forall|i: int| pos <= i < removed.len() ==> (#[trigger] removed[i]) == log[i + 1]);
    if p < pos {
        lemma_log_pos_at(removed, n, p);
    } else {
        lemma_log_pos_at(removed, n, p - 1);
    }
}

/// Looking a key up in an entry vector that ends with that key finds the
/// appended value when the key was absent before.
pub proof fn lemma_entry_lookup_push<K>(entries: Seq<(K, usize)>, k: K, n: usize)
    requires
        entry_lookup(entries, k) is None,
    ensures
        entry_lookup(entries.push((k, n)), k) == Some(n),
    decreases entries.len(),
{
    if entries.len() == 0 {
        assert(entries.push((k, n)) =~= seq![(k, n)]);
    } else {
        lemma_entry_lookup_push(entries.drop_first(), k, n);
        assert(entries.push((k, n)).drop_first() =~= entries.drop_first().push((k, n)));
    }
}

/// Adding one diff advances the sequence counter by at most one and
/// leaves the consumer bookkeeping alone.
pub proof fn lemma_add_diff_counters<D: PullableDiff>(m: SourceModel<D>, d: D)
    requires
        m.next_diff < usize::MAX,
    ensures
        spec_add_diff(m, d).next_diff <= m.next_diff + 1,
        m.next_diff <= spec_add_diff(m, d).next_diff,
        spec_add_diff(m, d).next_id == m.next_id,
        spec_add_diff(m, d).cursors == m.cursors,
{
}

/// Whether a consumer still has something to pull: its cursor either does
/// not exist yet or sits behind the head.
pub open spec fn spec_cursor_fuel<D: PullableDiff>(m: SourceModel<D>, id: SignalId) -> nat {
    if entry_lookup(m.cursors, id) == Some((m.next_diff - 1) as usize) {
        0
    } else {
        1
    }
}

/// Setting an entry makes the key resolve to the new value.
pub proof fn lemma_entry_set_lookup<K>(entries: Seq<(K, usize)>, k: K, v: usize)
    ensures
        entry_lookup(entry_set(entries, k, v), k) == Some(v),
{
    match entry_lookup(entries, k) {
        Option::None => {
            lemma_entry_lookup_push(entries, k, v);
        },
        Option::Some(_) => {
            let p = lemma_entry_lookup_pos(entries, k);
            lemma_entry_ops_at(entries, k, p, v);
            let s2 = entries.update(p, (k, v));
            lemma_entry_ops_at(s2, k, p, v);
        },
    }
}

/// A pull leaves the consumer with nothing more to pull: its cursor ends
/// exactly at the head.
pub proof fn lemma_pull_resets_fuel<D: PullableDiff>(m: SourceModel<D>, id: SignalId)
    ensures
        spec_cursor_fuel(spec_pull_state(m, id), id) == 0,
{
    lemma_entry_set_lookup(m.cursors, id, (m.next_diff - 1) as usize);
}

/// A key carried by no entry is not found.
pub proof fn lemma_entry_lookup_absent<K>(entries: Seq<(K, usize)>, k: K)
    requires
        forall|i: int| 0 <= i < entries.len() ==> (#[trigger] entries[i]).0 != k,
    ensures
        entry_lookup(entries, k) is None,
    decreases entries.len(),
{
    if entries.len() > 0 {
        let rest = entries.drop_first();
        assert(forall|i: int| 1 <= i < entries.len() ==> (#[trigger] entries[i]) == rest[i - 1]);
        assert(forall|i: int| 0 <= i < rest.len() ==> (#[trigger] rest[i]) == entries[i + 1]);
        lemma_entry_lookup_absent(rest, k);
    }
}

/// Every entry of a remapped index is an original entry with its key
/// rewritten through the mapper.
pub proof fn lemma_remap_entries_pairs<K>(entries: Seq<(K, usize)>, gm: spec_fn(K) -> K)
    ensures
        forall|a: int|
            0 <= a < remap_entries(entries, gm).len() ==> exists|q: int|
                0 <= q < entries.len() && (#[trigger] remap_entries(entries, gm)[a]) == ((
                gm(entries[q].0),
                entries[q].1,
                )),
    decreases entries.len(),
{
    if entries.len() > 0 {
        let front = entries.drop_last();
        let acc = remap_entries(front, gm);
        let k = gm(entries.last().0);
        let n = entries.last().1;
        lemma_remap_entries_pairs(front, gm);
        assert(forall|q: int| 0 <= q < front.len() ==> (#[trigger] front[q]) == entries[q]);
        let out = remap_entries(entries, gm);
        assert(out == entry_set(acc, k, n));
        match entry_lookup(acc, k) {
            Option::None => {
                assert(out == acc.push((k, n)));
                assert forall|a: int| 0 <= a < out.len() implies exists|q: int|
                    0 <= q < entries.len() && (#[trigger] out[a]) == ((
                    gm(entries[q].0),
                    entries[q].1,
                )) by {
                    if a < acc.len() {
                        let q = choose|q: int|
                            0 <= q < front.len() && (#[trigger] acc[a]) == ((
                            gm(front[q].0),
                            front[q].1,
                            ));
                        assert(out[a] == ((gm(entries[q].0), entries[q].1)));
                    } else {
                        let q = entries.len() - 1;
                        assert(out[a] == ((gm(entries[q].0), entries[q].1)));
                    }
                }
            },
            Option::Some(_) => {
                let p = lemma_entry_lookup_pos(acc, k);
                lemma_entry_ops_at(acc, k, p, n);
                assert(out =~= acc.update(p, (k, n)));
                assert forall|a: int| 0 <= a < out.len() implies exists|q: int|
                    0 <= q < entries.len() && (#[trigger] out[a]) == ((
                    gm(entries[q].0),
                    entries[q].1,
                )) by {
                    if a == p {
                        let q = entries.len() - 1;
                        assert(out[a] == ((gm(entries[q].0), entries[q].1)));
                    } else {
                        let q = choose|q: int|
                            0 <= q < front.len() && (#[trigger] acc[a]) == ((
                            gm(front[q].0),
                            front[q].1,
                            ));
                        assert(out[a] == ((gm(entries[q].0), entries[q].1)));
                    }
                }
            },
        }
    }
}

/// Two logs with the same sequence numbers resolve every number at the
/// same position.
pub proof fn lemma_log_get_same_numbers<D>(
    log1: Seq<(DiffNumber, D)>,
    log2: Seq<(DiffNumber, D)>,
    x: DiffNumber,
)
    requires
        log1.len() == log2.len(),
        forall|i: int| 0 <= i < log1.len() ==> (#[trigger] log2[i]).0 == log1[i].0,
        log_contains(log1, x),
    ensures
        log_contains(log2, x),
        log_pos(log2, x) == log_pos(log1, x),
        log_get(log2, x) == log2[log_pos(log1, x)].1,
{
    let p = lemma_log_first_pos(log1, x);
    assert(log2[p].0 == x);
    lemma_log_pos_at(log2, x, p);
}

/// The state of the source after a whole sequence of mutations.
pub open spec fn spec_add_all<D: PullableDiff>(m: SourceModel<D>, ds: Seq<D>) -> SourceModel<D>
    decreases ds.len(),
{
    if ds.len() == 0 {
        m
    } else {
        spec_add_all(spec_add_diff(m, ds[0]), ds.drop_first())
    }
}

/// Zero cost when unobserved: while no consumer has ever subscribed,
/// adding a diff leaves the source — its log included — exactly as it was.
pub proof fn lemma_unobserved_add_is_noop<D: PullableDiff>(m: SourceModel<D>, d: D)
    requires
        !spec_has_listener(m),
    ensures
        spec_add_diff(m, d) == m,
{
}

/// Zero cost when unobserved, over any mutation sequence: with no prior
/// subscriber, the whole sequence leaves the source untouched, so a log
/// that starts empty stays empty after each mutation.
pub proof fn lemma_unobserved_log_stays_empty<D: PullableDiff>(m: SourceModel<D>, ds: Seq<D>)
    requires
        !spec_has_listener(m),
    ensures
        spec_add_all(m, ds) == m,
    decreases ds.len(),
{
    if ds.len() > 0 {
        lemma_unobserved_log_stays_empty(m, ds.drop_first());
    }
}

/// Bootstrap: a consumer's first-ever pull, no matter how much history
/// preceded its subscription, yields exactly one full-replace sentinel,
/// and the compaction index solidifies.
pub proof fn lemma_bootstrap_full_resync<D: PullableDiff>(m: SourceModel<D>, id: SignalId)
    requires
        entry_lookup(m.cursors, id) is None,
    ensures
        spec_pull_batch(m, id) =~= seq![D::full_replace_spec()],
        spec_pull_state(m, id).index =~= Seq::<(D::KeyType, DiffNumber)>::empty(),
        spec_pull_state(m, id).log == m.log,
{
}

/// Global purge: a global diff supersedes all prior history — the log
/// collapses to that one diff and the compaction index empties — and the
/// next pull of any consumer seen before collapses to a single
/// full-replace, regardless of what preceded it.
pub proof fn lemma_global_purge<D: PullableDiff>(m: SourceModel<D>, d: D, id: SignalId)
    requires
        model_wf(m),
        m.next_diff < usize::MAX,
        spec_has_listener(m),
        d.key_spec() is None,
        entry_lookup(m.cursors, id) is Some,
    ensures
        spec_add_diff(m, d).log =~= seq![(m.next_diff, d)],
        spec_add_diff(m, d).index =~= Seq::<(D::KeyType, DiffNumber)>::empty(),
        spec_pull_batch(spec_add_diff(m, d), id) =~= seq![D::full_replace_spec()],
{
    let m1 = spec_add_diff(m, d);
    let p = lemma_entry_lookup_pos(m.cursors, id);
    let last = m.cursors[p].1;
    assert(last < m.next_diff);
    let head1 = (m1.next_diff - 1) as usize;
    assert(head1 == m.next_diff);
    assert(entry_lookup(m1.cursors, id) == Some(last));
    let range = diffs_after(m1.log, last);
    assert(range =~= seq![d]) by {
        assert(m1.log[0].0 == m.next_diff > last);
        assert(m1.log.drop_first() =~= Seq::<(DiffNumber, D)>::empty());
        assert(diffs_after(Seq::<(DiffNumber, D)>::empty(), last) =~= Seq::<D>::empty());
        assert(range == seq![m1.log[0].1] + diffs_after(m1.log.drop_first(), last));
        assert(seq![d] + Seq::<D>::empty() =~= seq![d]);
    }
    assert(spec_has_global(range)) by {
        assert(range[0].key_spec() is None);
    }
}

/// After a collision collapses into a fresh open diff (merge, replace or
/// keep-both), the source is still well formed.
proof fn lemma_open_wf_after_collapse<D: PullableDiff>(
    m: SourceModel<D>,
    n: DiffNumber,
    pos: int,
    log_rx: Seq<(DiffNumber, D)>,
    ip: int,
)
    requires
        model_wf(m),
        m.next_diff < usize::MAX,
        0 <= ip < m.index.len(),
        m.index[ip].1 == n,
        0 <= pos < m.log.len(),
        m.log[pos].0 == n,
        log_rx.len() == m.log.len() - 1,
        forall|i: int| 0 <= i < log_rx.len() ==> (#[trigger] log_rx[i]).0 == m.log.remove(pos)[i].0,
    ensures
        forall|d2: D|
            model_wf(
                SourceModel {
                    log: log_rx.push((m.next_diff, d2)),
                    index: m.index.update(ip, (m.index[ip].0, m.next_diff)),
                    cursors: m.cursors,
                    next_diff: (m.next_diff + 1) as usize,
                    next_id: m.next_id,
                },
            ),
        forall|d2: D, pd: (DiffNumber, D)|
            pd == ((n, m.log[pos].1)) ==> model_wf(
                SourceModel {
                    log: log_rx.insert(pos, pd).push((m.next_diff, d2)),
                    index: m.index.update(ip, (m.index[ip].0, m.next_diff)),
                    cursors: m.cursors,
                    next_diff: (m.next_diff + 1) as usize,
                    next_id: m.next_id,
                },
            ),
{
    let removed = m.log.remove(pos);
    assert(forall|i: int| 0 <= i < pos ==> (#[trigger] removed[i]) == m.log[i]);
    assert(forall|i: int| pos <= i < removed.len() ==> (#[trigger] removed[i]) == m.log[i + 1]);
    assert forall|d2: D|
        model_wf(
            SourceModel {
                log: log_rx.push((m.next_diff, d2)),
                index: m.index.update(ip, (m.index[ip].0, m.next_diff)),
                cursors: m.cursors,
                next_diff: (m.next_diff + 1) as usize,
                next_id: m.next_id,
            },
        ) by {
        let log2 = log_rx.push((m.next_diff, d2));
        let idx2 = m.index.update(ip, (m.index[ip].0, m.next_diff));
        assert forall|i: int|
            0 <= i < idx2.len() implies log_contains(log2, (#[trigger] idx2[i]).1) by {
            if i == ip {
                assert(log2[log_rx.len() as int].0 == m.next_diff);
            } else {
                let x = m.index[i].1;
                assert(x != n);
                let j = choose|j: int| 0 <= j < m.log.len() && (#[trigger] m.log[j]).0 == x;
                if j < pos {
                    assert(log2[j].0 == x);
                } else {
                    assert(log2[j - 1].0 == x);
                }
            }
        }
    }
    assert forall|d2: D, pd: (DiffNumber, D)|
        pd == ((n, m.log[pos].1)) implies model_wf(
        SourceModel {
            log: log_rx.insert(pos, pd).push((m.next_diff, d2)),
            index: m.index.update(ip, (m.index[ip].0, m.next_diff)),
            cursors: m.cursors,
            next_diff: (m.next_diff + 1) as usize,
            next_id: m.next_id,
        },
    ) by {
        let back = log_rx.insert(pos, pd);
        assert(forall|i: int| 0 <= i < pos ==> (#[trigger] back[i]) == log_rx[i]);
        assert(back[pos] == pd);
        assert(forall|i: int|
            pos < i < back.len() ==> (#[trigger] back[i]) == log_rx[i - 1]);
        assert(forall|i: int| 0 <= i < back.len() ==> (#[trigger] back[i]).0 == m.log[i].0);
        let log2 = back.push((m.next_diff, d2));
        let idx2 = m.index.update(ip, (m.index[ip].0, m.next_diff));
        assert forall|i: int|
            0 <= i < idx2.len() implies log_contains(log2, (#[trigger] idx2[i]).1) by {
            if i == ip {
                assert(log2[back.len() as int].0 == m.next_diff);
            } else {
                let x = m.index[i].1;
                let j = choose|j: int| 0 <= j < m.log.len() && (#[trigger] m.log[j]).0 == x;
                assert(log2[j].0 == x);
            }
        }
    }
}

/// After an ignored collision the log is restored around the reindexed
/// middle and the source is still well formed.
proof fn lemma_ignore_wf_after_collapse<D: PullableDiff>(
    m: SourceModel<D>,
    n: DiffNumber,
    pos: int,
    log_rx: Seq<(DiffNumber, D)>,
)
    requires
        model_wf(m),
        0 <= pos < m.log.len(),
        m.log[pos].0 == n,
        log_rx.len() == m.log.len() - 1,
        forall|i: int| 0 <= i < log_rx.len() ==> (#[trigger] log_rx[i]).0 == m.log.remove(pos)[i].0,
    ensures
        forall|pd: (DiffNumber, D)|
            pd == ((n, m.log[pos].1)) ==> model_wf(
                SourceModel {
                    log: log_rx.insert(pos, pd),
                    index: m.index,
                    cursors: m.cursors,
                    next_diff: m.next_diff,
                    next_id: m.next_id,
                },
            ),
{
    let removed = m.log.remove(pos);
    assert(forall|i: int| 0 <= i < pos ==> (#[trigger] removed[i]) == m.log[i]);
    assert(forall|i: int| pos <= i < removed.len() ==> (#[trigger] removed[i]) == m.log[i + 1]);
    assert forall|pd: (DiffNumber, D)|
        pd == ((n, m.log[pos].1)) implies model_wf(
        SourceModel {
            log: log_rx.insert(pos, pd),
            index: m.index,
            cursors: m.cursors,
            next_diff: m.next_diff,
            next_id: m.next_id,
        },
    ) by {
        let back = log_rx.insert(pos, pd);
        assert(forall|i: int| 0 <= i < pos ==> (#[trigger] back[i]) == log_rx[i]);
        assert(back[pos] == pd);
        assert(forall|i: int|
            pos < i < back.len() ==> (#[trigger] back[i]) == log_rx[i - 1]);
        assert(forall|i: int| 0 <= i < back.len() ==> (#[trigger] back[i]).0 == m.log[i].0);
        assert forall|i: int|
            0 <= i < m.index.len() implies log_contains(back, (#[trigger] m.index[i]).1) by {
            let x = m.index[i].1;
            let j = choose|j: int| 0 <= j < m.log.len() && (#[trigger] m.log[j]).0 == x;
            assert(back[j].0 == x);
        }
    }
}

/// After keep-both the previous diff is restored and the new diff appended;
/// the source is still well formed.
proof fn lemma_keep_both_wf_after_collapse<D: PullableDiff>(
    m: SourceModel<D>,
    n: DiffNumber,
    pos: int,
    log_rx: Seq<(DiffNumber, D)>,
    ip: int,
)
    requires
        model_wf(m),
        m.next_diff < usize::MAX,
        0 <= ip < m.index.len(),
        m.index[ip].1 == n,
        0 <= pos < m.log.len(),
        m.log[pos].0 == n,
        log_rx.len() == m.log.len() - 1,
        forall|i: int| 0 <= i < log_rx.len() ==> (#[trigger] log_rx[i]).0 == m.log.remove(pos)[i].0,
    ensures
        forall|d2: D, pd: (DiffNumber, D)|
            pd == ((n, m.log[pos].1)) ==> model_wf(
                SourceModel {
                    log: log_rx.insert(pos, pd).push((m.next_diff, d2)),
                    index: m.index.update(ip, (m.index[ip].0, m.next_diff)),
                    cursors: m.cursors,
                    next_diff: (m.next_diff + 1) as usize,
                    next_id: m.next_id,
                },
            ),
{
    lemma_open_wf_after_collapse(m, n, pos, log_rx, ip);
}

/// After both diffs cancel, the open entry disappears and the source is
/// still well formed.
proof fn lemma_discard_wf_after_collapse<D: PullableDiff>(
    m: SourceModel<D>,
    n: DiffNumber,
    pos: int,
    log_rx: Seq<(DiffNumber, D)>,
    ip: int,
)
    requires
        model_wf(m),
        0 <= ip < m.index.len(),
        m.index[ip].1 == n,
        0 <= pos < m.log.len(),
        m.log[pos].0 == n,
        log_rx.len() == m.log.len() - 1,
        forall|i: int| 0 <= i < log_rx.len() ==> (#[trigger] log_rx[i]).0 == m.log.remove(pos)[i].0,
    ensures
        model_wf(
            SourceModel {
                log: log_rx,
                index: m.index.remove(ip),
                cursors: m.cursors,
                next_diff: m.next_diff,
                next_id: m.next_id,
            },
        ),
{
    let removed = m.log.remove(pos);
    assert(forall|i: int| 0 <= i < pos ==> (#[trigger] removed[i]) == m.log[i]);
    assert(forall|i: int| pos <= i < removed.len() ==> (#[trigger] removed[i]) == m.log[i + 1]);
    let idx2 = m.index.remove(ip);
    assert(forall|i: int| 0 <= i < ip ==> (#[trigger] idx2[i]) == m.index[i]);
    assert(forall|i: int| ip <= i < idx2.len() ==> (#[trigger] idx2[i]) == m.index[i + 1]);
    assert forall|i: int|
        0 <= i < idx2.len() implies log_contains(log_rx, (#[trigger] idx2[i]).1) by {
        let x = idx2[i].1;
        assert(x != n);
        let j = choose|j: int| 0 <= j < m.log.len() && (#[trigger] m.log[j]).0 == x;
        if j < pos {
            assert(log_rx[j].0 == x);
        } else {
            assert(log_rx[j - 1].0 == x);
        }
    }
}

} // verus!
