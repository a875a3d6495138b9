//! Transform stages: a transformer consumes one collection's delivered
//! events, applies them to its own mirrored collection, and re-publishes
//! its own diff log — each stage owns an independent log instead of
//! forwarding raw upstream diffs.

use crate::signal::{PollChange, StructuralSignal};
use vstd::prelude::*;

verus! {

/// Takes a series of events from an input signal and applies them to an
/// internal collection, exposing the result as a signal of its own.
pub trait StructuralSignalTransformer: Sized {
    type InputEvent;

    type OutputEvent;

    /// Internal consistency of the transformer's mirrored state.
    spec fn tr_wf(&self) -> bool;

    /// What the transformer assumes of every incoming event.
    spec fn input_ok(event: Self::InputEvent) -> bool;

    /// What holds of every event the transformer publishes.
    spec fn output_ok(event: Self::OutputEvent) -> bool;

    /// How many more output events the transformer can deliver without
    /// further input; applying one input batch buys at most one delivery.
    spec fn tr_fuel(&self) -> nat;

    /// Apply one incoming batch to the mirrored collection.
    fn apply_event(&mut self, event: Self::InputEvent)
        requires
            old(self).tr_wf(),
            Self::input_ok(event),
        ensures
            final(self).tr_wf(),
            final(self).tr_fuel() <= old(self).tr_fuel() + 1,
    ;

    /// Poll the mirrored collection's own diff log.
    fn poll_output(&mut self) -> (r: PollChange<Self::OutputEvent>)
        requires
            old(self).tr_wf(),
        ensures
            final(self).tr_wf(),
            r matches PollChange::Ready(e) ==> Self::output_ok(e),
            r matches PollChange::Ready(e) ==> final(self).tr_fuel() < old(self).tr_fuel(),
            !(r matches PollChange::Ready(e)) ==> final(self).tr_fuel() <= old(self).tr_fuel(),
    ;
}

/// A signal that has been run through a transformer: polling it drains
/// the input signal into the transformer, then polls the transformer's
/// own output log.
#[verifier::reject_recursive_types(II)]
pub struct TransformedStructuralSignal<IS, II, T> where
    IS: StructuralSignal<Item = II>,
    T: StructuralSignalTransformer<InputEvent = II>,
 {
    input_signal: IS,
    transformer: T,
    is_closed: bool,
}

impl<IS, II, T> TransformedStructuralSignal<IS, II, T> where
    IS: StructuralSignal<Item = II>,
    T: StructuralSignalTransformer<InputEvent = II>,
 {
    /// Chain a transformer onto an input signal.
    pub fn new(input_signal: IS, transformer: T) -> (r: TransformedStructuralSignal<IS, II, T>)
        requires
            input_signal.sig_wf(),
            transformer.tr_wf(),
            forall|e: II| #[trigger] IS::item_wf(e) ==> T::input_ok(e),
        ensures
            r.sig_wf(),
    {
        TransformedStructuralSignal { input_signal, transformer, is_closed: false }
    }
}

impl<IS, II, T> StructuralSignal for TransformedStructuralSignal<IS, II, T> where
    IS: StructuralSignal<Item = II>,
    T: StructuralSignalTransformer<InputEvent = II>,
 {
    type Item = T::OutputEvent;

    closed spec fn sig_wf(&self) -> bool {
        &&& self.input_signal.sig_wf()
        &&& self.transformer.tr_wf()
        &&& forall|e: II| #[trigger] IS::item_wf(e) ==> T::input_ok(e)
    }

    open spec fn item_wf(item: T::OutputEvent) -> bool {
        T::output_ok(item)
    }

    closed spec fn poll_fuel(&self) -> nat {
        self.input_signal.poll_fuel() * 2 + self.transformer.tr_fuel()
    }

    fn poll_change(&mut self) -> (r: PollChange<T::OutputEvent>) {
        loop
            invariant
                self.input_signal.sig_wf(),
                self.transformer.tr_wf(),
                forall|e: II| #[trigger] IS::item_wf(e) ==> T::input_ok(e),
                self.input_signal.poll_fuel() * 2 + self.transformer.tr_fuel() <= old(
                    self,
                ).input_signal.poll_fuel() * 2 + old(self).transformer.tr_fuel(),
            decreases self.input_signal.poll_fuel(),
        {
            let input_poll = self.input_signal.poll_change();
            match input_poll {
                PollChange::Ready(event) => {
                    self.transformer.apply_event(event);
                },
                PollChange::Closed => {
                    self.is_closed = true;
                    break ;
                },
                PollChange::Pending => {
                    break ;
                },
            }
        }
        let result = self.transformer.poll_output();
        match result {
            PollChange::Pending => {
                if self.is_closed {
                    PollChange::Closed
                } else {
                    PollChange::Pending
                }
            },
            other => other,
        }
    }
}

} // verus!
