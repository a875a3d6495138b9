//! Diffs and events for ordered (vector-shaped) collections.
//!
//! An element's externally visible position can shift when unrelated
//! earlier elements are inserted or removed. Every positional diff
//! therefore tracks two coordinates: `index`, the position at diff
//! creation time, used for delivery and replay; and `snapshot_index`, the
//! current position in the attached snapshot, used for internal reindex
//! arithmetic. The two are never conflated.

use crate::keys::DupValue;
use crate::pull_source::{DiffMergeOutcome, DiffMergeResult, PullableDiff};
use crate::signal::{SignalEvent, SnapshottableEvent};
use vstd::prelude::*;

verus! {

/// One change to an ordered collection.
#[derive(Debug, Clone, PartialEq, Eq)]
pub enum VectorDiff {
    Replace {},
    Insert { index: usize, snapshot_index: usize },
    Update { index: usize, snapshot_index: usize },
    Remove { index: usize, snapshot_index: usize },
    Clear {},
}

/// Instruction for rewriting the position of in-flight diffs after two
/// positional diffs collapse: every diff whose snapshot-time position
/// lies past the pivot moves one place up or down.
#[derive(Debug, Clone, PartialEq, Eq)]
pub struct IndexShift {
    pub pivot: usize,
    pub up: bool,
}

impl DupValue for VectorDiff {
    fn dup(&self) -> (r: Self) {
        match self {
            VectorDiff::Replace {} => VectorDiff::Replace {},
            VectorDiff::Insert { index, snapshot_index } => VectorDiff::Insert {
                index: *index,
                snapshot_index: *snapshot_index,
            },
            VectorDiff::Update { index, snapshot_index } => VectorDiff::Update {
                index: *index,
                snapshot_index: *snapshot_index,
            },
            VectorDiff::Remove { index, snapshot_index } => VectorDiff::Remove {
                index: *index,
                snapshot_index: *snapshot_index,
            },
            VectorDiff::Clear {} => VectorDiff::Clear {},
        }
    }
}

impl PullableDiff for VectorDiff {
    type KeyType = usize;

    type ReindexType = IndexShift;

    open spec fn key_spec(&self) -> Option<usize> {
        match *self {
            VectorDiff::Insert { index, .. } => Some(index),
            VectorDiff::Update { index, .. } => Some(index),
            VectorDiff::Remove { index, .. } => Some(index),
            VectorDiff::Replace {} => None,
            VectorDiff::Clear {} => None,
        }
    }

    open spec fn snapshot_key_spec(&self) -> Option<usize> {
        match *self {
            VectorDiff::Insert { snapshot_index, .. } => Some(snapshot_index),
            VectorDiff::Update { snapshot_index, .. } => Some(snapshot_index),
            VectorDiff::Remove { snapshot_index, .. } => Some(snapshot_index),
            VectorDiff::Replace {} => None,
            VectorDiff::Clear {} => None,
        }
    }

    open spec fn with_key_spec(&self, new_key: usize) -> Self {
        match *self {
            VectorDiff::Insert { index, snapshot_index } => VectorDiff::Insert {
                index: new_key,
                snapshot_index,
            },
            VectorDiff::Update { index, snapshot_index } => VectorDiff::Update {
                index: new_key,
                snapshot_index,
            },
            VectorDiff::Remove { index, snapshot_index } => VectorDiff::Remove {
                index: new_key,
                snapshot_index,
            },
            VectorDiff::Replace {} => VectorDiff::Replace {},
            VectorDiff::Clear {} => VectorDiff::Clear {},
        }
    }

    open spec fn with_snapshot_key_spec(&self, new_snapshot_key: usize) -> Self {
        match *self {
            VectorDiff::Insert { index, snapshot_index } => VectorDiff::Insert {
                index,
                snapshot_index: new_snapshot_key,
            },
            VectorDiff::Update { index, snapshot_index } => VectorDiff::Update {
                index,
                snapshot_index: new_snapshot_key,
            },
            VectorDiff::Remove { index, snapshot_index } => VectorDiff::Remove {
                index,
                snapshot_index: new_snapshot_key,
            },
            VectorDiff::Replace {} => VectorDiff::Replace {},
            VectorDiff::Clear {} => VectorDiff::Clear {},
        }
    }

    /// Two inserts colliding on one position indicate a caller bug; the
    /// second should have been an update.
    open spec fn mergeable_with(&self, previous: &Self) -> bool {
        !((*previous matches VectorDiff::Insert { .. }) && (*self matches VectorDiff::Insert {
            ..
        }))
    }

    /// The merge policy for ordered collections: insert-then-remove
    /// cancels and shifts later positions down; insert-then-update keeps
    /// the insert; remove-then-insert becomes an update and shifts later
    /// positions up; anything on an open remove keeps both (removals can
    /// overlap on one position); everything else keeps only the newest
    /// diff.
    open spec fn merge_spec(&self, previous: &Self) -> DiffMergeResult<Self> {
        match *previous {
            VectorDiff::Insert { index: _, snapshot_index: psi } => {
                match *self {
                    VectorDiff::Remove { .. } => DiffMergeResult {
                        outcome: DiffMergeOutcome::DiscardBoth,
                        reindex_intermediary_diffs: Some(IndexShift { pivot: psi, up: false }),
                    },
                    VectorDiff::Update { .. } => DiffMergeResult {
                        outcome: DiffMergeOutcome::Ignore,
                        reindex_intermediary_diffs: None,
                    },
                    _ => DiffMergeResult {
                        outcome: DiffMergeOutcome::Replace,
                        reindex_intermediary_diffs: None,
                    },
                }
            },
            VectorDiff::Remove { .. } => {
                match *self {
                    VectorDiff::Insert { index, snapshot_index } => DiffMergeResult {
                        outcome: DiffMergeOutcome::Merge(
                            VectorDiff::Update { index, snapshot_index },
                        ),
                        reindex_intermediary_diffs: Some(
                            IndexShift { pivot: snapshot_index, up: true },
                        ),
                    },
                    _ => DiffMergeResult {
                        outcome: DiffMergeOutcome::KeepBoth,
                        reindex_intermediary_diffs: None,
                    },
                }
            },
            _ => DiffMergeResult {
                outcome: DiffMergeOutcome::Replace,
                reindex_intermediary_diffs: None,
            },
        }
    }

    open spec fn full_replace_spec() -> Self {
        VectorDiff::Replace {}
    }

    open spec fn reindex_spec(instr: IndexShift, key: usize, snapshot_key: usize) -> usize {
        if instr.up {
            if snapshot_key > instr.pivot && key < usize::MAX {
                (key + 1) as usize
            } else {
                key
            }
        } else {
            if snapshot_key > instr.pivot && key > 0 {
                (key - 1) as usize
            } else {
                key
            }
        }
    }

    fn get_key(&self) -> (r: Option<usize>) {
        match self {
            VectorDiff::Insert { index, .. } => Some(*index),
            VectorDiff::Update { index, .. } => Some(*index),
            VectorDiff::Remove { index, .. } => Some(*index),
            VectorDiff::Replace {} => None,
            VectorDiff::Clear {} => None,
        }
    }

    fn get_snapshot_key(&self) -> (r: Option<usize>) {
        match self {
            VectorDiff::Insert { snapshot_index, .. } => Some(*snapshot_index),
            VectorDiff::Update { snapshot_index, .. } => Some(*snapshot_index),
            VectorDiff::Remove { snapshot_index, .. } => Some(*snapshot_index),
            VectorDiff::Replace {} => None,
            VectorDiff::Clear {} => None,
        }
    }

    fn set_key(&mut self, new_key: usize) {
        let v = match &*self {
            VectorDiff::Insert { index: _, snapshot_index } => VectorDiff::Insert {
                index: new_key,
                snapshot_index: *snapshot_index,
            },
            VectorDiff::Update { index: _, snapshot_index } => VectorDiff::Update {
                index: new_key,
                snapshot_index: *snapshot_index,
            },
            VectorDiff::Remove { index: _, snapshot_index } => VectorDiff::Remove {
                index: new_key,
                snapshot_index: *snapshot_index,
            },
            VectorDiff::Replace {} => VectorDiff::Replace {},
            VectorDiff::Clear {} => VectorDiff::Clear {},
        };
        *self = v;
    }

    fn set_snapshot_key(&mut self, new_snapshot_key: usize) {
        let v = match &*self {
            VectorDiff::Insert { index, snapshot_index: _ } => VectorDiff::Insert {
                index: *index,
                snapshot_index: new_snapshot_key,
            },
            VectorDiff::Update { index, snapshot_index: _ } => VectorDiff::Update {
                index: *index,
                snapshot_index: new_snapshot_key,
            },
            VectorDiff::Remove { index, snapshot_index: _ } => VectorDiff::Remove {
                index: *index,
                snapshot_index: new_snapshot_key,
            },
            VectorDiff::Replace {} => VectorDiff::Replace {},
            VectorDiff::Clear {} => VectorDiff::Clear {},
        };
        *self = v;
    }

    fn merge_with_previous(&self, previous: &Self) -> (r: DiffMergeResult<Self>) {
        if let VectorDiff::Insert { index: _, snapshot_index: psi } = previous {
            if let VectorDiff::Remove { .. } = self {
                return DiffMergeResult {
                    outcome: DiffMergeOutcome::DiscardBoth,
                    reindex_intermediary_diffs: Some(IndexShift { pivot: *psi, up: false }),
                };
            }
            if let VectorDiff::Update { .. } = self {
                return DiffMergeResult {
                    outcome: DiffMergeOutcome::Ignore,
                    reindex_intermediary_diffs: None,
                };
            }
            return DiffMergeResult {
                outcome: DiffMergeOutcome::Replace,
                reindex_intermediary_diffs: None,
            };
        }
        if let VectorDiff::Remove { .. } = previous {
            if let VectorDiff::Insert { index, snapshot_index } = self {
                return DiffMergeResult {
                    outcome: DiffMergeOutcome::Merge(
                        VectorDiff::Update { index: *index, snapshot_index: *snapshot_index },
                    ),
                    reindex_intermediary_diffs: Some(
                        IndexShift { pivot: *snapshot_index, up: true },
                    ),
                };
            }
            return DiffMergeResult {
                outcome: DiffMergeOutcome::KeepBoth,
                reindex_intermediary_diffs: None,
            };
        }
        DiffMergeResult { outcome: DiffMergeOutcome::Replace, reindex_intermediary_diffs: None }
    }

    fn full_replace() -> (r: Self) {
        VectorDiff::Replace {}
    }

    fn apply_reindex(instr: &IndexShift, key: &usize, snapshot_key: &usize) -> (r: usize) {
        if instr.up {
            if *snapshot_key > instr.pivot && *key < usize::MAX {
                *key + 1
            } else {
                *key
            }
        } else {
            if *snapshot_key > instr.pivot && *key > 0 {
                *key - 1
            } else {
                *key
            }
        }
    }
}

impl VectorDiff {
    /// The element this diff speaks of, read from the attached snapshot
    /// through the diff's snapshot-time position. Only insert and update
    /// diffs carry one.
    pub fn get_value_from_snapshot<'a, T>(&self, from_snapshot: &'a Vec<T>) -> (r: Option<&'a T>)
        requires
            match self.snapshot_key_spec() {
                Some(si) => (self matches VectorDiff::Insert { .. } || self matches VectorDiff::Update {
                    ..
                }) ==> si < from_snapshot@.len(),
                None => true,
            },
        ensures
            match *self {
                VectorDiff::Insert { index: _, snapshot_index } => r == Some(
                    &from_snapshot[snapshot_index as int],
                ),
                VectorDiff::Update { index: _, snapshot_index } => r == Some(
                    &from_snapshot[snapshot_index as int],
                ),
                _ => r is None,
            },
    {
        match self {
            VectorDiff::Insert { index: _, snapshot_index } => Some(&from_snapshot[*snapshot_index]),
            VectorDiff::Update { index: _, snapshot_index } => Some(&from_snapshot[*snapshot_index]),
            _ => None,
        }
    }
}

/// A delivered batch for an ordered collection: the diffs since the
/// consumer's previous pull, plus the collection's full state at delivery
/// time.
pub struct VectorEvent<T: DupValue> {
    pub snapshot: Vec<T>,
    pub diffs: Vec<VectorDiff>,
}

impl<T: DupValue> View for VectorEvent<T> {
    type V = (Seq<T>, Seq<VectorDiff>);

    open spec fn view(&self) -> (Seq<T>, Seq<VectorDiff>) {
        (self.snapshot@, self.diffs@)
    }
}

impl<T: DupValue> SignalEvent for VectorEvent<T> {
    open spec fn event_wf(&self) -> bool {
        true
    }

    fn dup_event(&self) -> (r: Self) {
        let mut snapshot: Vec<T> = Vec::new();
        let mut i: usize = 0;
        while i < self.snapshot.len()
            invariant
                0 <= i <= self.snapshot@.len(),
                snapshot@ == self.snapshot@.take(i as int),
            decreases self.snapshot@.len() - i,
        {
            snapshot.push(self.snapshot[i].dup());
            proof {
                assert(snapshot@ =~= self.snapshot@.take(i + 1));
            }
            i += 1;
        }
        let mut diffs: Vec<VectorDiff> = Vec::new();
        let mut j: usize = 0;
        while j < self.diffs.len()
            invariant
                0 <= j <= self.diffs@.len(),
                diffs@ == self.diffs@.take(j as int),
            decreases self.diffs@.len() - j,
        {
            diffs.push(self.diffs[j].dup());
            proof {
                assert(diffs@ =~= self.diffs@.take(j + 1));
            }
            j += 1;
        }
        proof {
            assert(self.snapshot@.take(self.snapshot@.len() as int) =~= self.snapshot@);
            assert(self.diffs@.take(self.diffs@.len() as int) =~= self.diffs@);
        }
        VectorEvent { snapshot, diffs }
    }
}

impl<T: DupValue> SnapshottableEvent for VectorEvent<T> {
    type SnapshotType = Vec<T>;

    open spec fn snapshot_view(&self) -> Seq<T> {
        self.snapshot@
    }

    open spec fn snapshot_wf(&self) -> bool {
        true
    }

    /// The full state of the ordered collection at the instant this event
    /// was delivered.
    fn snapshot(&self) -> (r: Vec<T>) {
        let mut out: Vec<T> = Vec::new();
        let mut i: usize = 0;
        while i < self.snapshot.len()
            invariant
                0 <= i <= self.snapshot@.len(),
                out@ == self.snapshot@.take(i as int),
            decreases self.snapshot@.len() - i,
        {
            out.push(self.snapshot[i].dup());
            proof {
                assert(out@ =~= self.snapshot@.take(i + 1));
            }
            i += 1;
        }
        proof {
            assert(self.snapshot@.take(self.snapshot@.len() as int) =~= self.snapshot@);
        }
        out
    }
}

} // verus!
