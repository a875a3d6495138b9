//! An in-process change-data-capture mechanism for mutable collections.
//!
//! Collections broadcast their changes as compact, ordered diffs to any
//! number of independently paced observers. Each mutation appends a diff to
//! a shared log; each observer keeps its own read cursor; diffs that no
//! observer has seen yet may be merged or elided; observers that missed
//! history receive a full resync instead of a gap.

pub mod broadcast;
pub mod hash_map;
pub mod key_map;
pub mod keys;
pub mod map_event;
pub mod map_signal_ext;
pub mod map_transforms;
pub mod pull_source;
pub mod signal;
pub mod transformer;
pub mod vector;
pub mod vector_event;
pub mod vector_signal_ext;
pub mod vector_transforms;

pub use broadcast::{StructuralSignalBroadcaster, StructuralSignalExt};
pub use keys::DiffKey;
pub use keys::DupValue;
pub use signal::{
    ChannelStructuralSignal, PollChange, SignalEvent, SnapshottableEvent, StructuralSignal,
};
pub use transformer::{StructuralSignalTransformer, TransformedStructuralSignal};
