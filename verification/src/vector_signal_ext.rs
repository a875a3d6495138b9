//! Conveniences on signals of ordered-collection events: element mapping.

use crate::keys::DupValue;
use crate::signal::StructuralSignal;
use crate::transformer::TransformedStructuralSignal;
use crate::vector_event::VectorEvent;
use crate::vector_transforms::MapVectorTransformer;
use vstd::prelude::*;

verus! {

/// Transform conveniences on every signal of ordered-collection events.
pub trait SignalVectorExt<T: DupValue>: StructuralSignal<Item = VectorEvent<T>> + Sized {
    /// A signal mirroring this one with every element run through a
    /// mapping function.
    fn map<OV: DupValue, F: Fn(T) -> OV>(self, map_fn: F) -> (r: TransformedStructuralSignal<
        Self,
        VectorEvent<T>,
        MapVectorTransformer<F, T, OV>,
    >)
        requires
            self.sig_wf(),
            forall|v: T| #[trigger] call_requires(map_fn, (v,)),
        ensures
            r.sig_wf(),
    ;
}

impl<T: DupValue, I> SignalVectorExt<T> for I where I: StructuralSignal<Item = VectorEvent<T>> {
    fn map<OV: DupValue, F: Fn(T) -> OV>(self, map_fn: F) -> (r: TransformedStructuralSignal<
        Self,
        VectorEvent<T>,
        MapVectorTransformer<F, T, OV>,
    >) {
        TransformedStructuralSignal::new(self, MapVectorTransformer::new(map_fn))
    }
}

} // verus!
