//! The pull state machine every observer speaks: a poll either has nothing
//! new, carries one delivered event, or reports that the stream is over.
//!
//! Scheduling is cooperative and poll-driven; nothing here blocks. The
//! same shape serves direct cursors, transformed signals and broadcaster
//! taps, so it can be driven by threads, an event loop or tasks alike.

use std::collections::VecDeque;
use vstd::prelude::*;

verus! {

/// Result of polling a signal once.
pub enum PollChange<T> {
    /// Nothing new yet; poll again later.
    Pending,
    /// One delivered event.
    Ready(T),
    /// The stream has ended; no further event will come.
    Closed,
}

/// An event that signals can store, copy and hand out: it has a
/// mathematical view, a well-formedness predicate over that view's world,
/// and a duplication operation that preserves both.
pub trait SignalEvent: Sized + View {
    /// Whether this event is internally consistent.
    spec fn event_wf(&self) -> bool;

    /// Produce a copy of this event with the same view.
    fn dup_event(&self) -> (r: Self)
        ensures
            r@ == self@,
            r.event_wf() == self.event_wf(),
    ;
}

impl SignalEvent for u8 {
    open spec fn event_wf(&self) -> bool {
        true
    }

    fn dup_event(&self) -> (r: Self) {
        *self
    }
}

impl SignalEvent for u32 {
    open spec fn event_wf(&self) -> bool {
        true
    }

    fn dup_event(&self) -> (r: Self) {
        *self
    }
}

impl SignalEvent for usize {
    open spec fn event_wf(&self) -> bool {
        true
    }

    fn dup_event(&self) -> (r: Self) {
        *self
    }
}

/// A source of events polled at the consumer's own pace.
///
/// Unlike a last-value signal, a structural signal never skips a
/// delivered event: every mutation batch is observed.
pub trait StructuralSignal: Sized {
    type Item;

    /// State the signal must keep to answer polls correctly.
    spec fn sig_wf(&self) -> bool;

    /// What every event handed out by this signal satisfies.
    spec fn item_wf(item: Self::Item) -> bool;

    /// How many more events this signal can deliver before it must report
    /// no update: each delivery consumes fuel, so a consumer draining the
    /// signal terminates.
    spec fn poll_fuel(&self) -> nat;

    /// Poll once; never blocks.
    fn poll_change(&mut self) -> (r: PollChange<Self::Item>)
        requires
            old(self).sig_wf(),
        ensures
            final(self).sig_wf(),
            r matches PollChange::Ready(e) ==> Self::item_wf(e),
            r matches PollChange::Ready(e) ==> final(self).poll_fuel() < old(self).poll_fuel(),
            !(r matches PollChange::Ready(e)) ==> final(self).poll_fuel() <= old(
                self,
            ).poll_fuel(),
    ;
}

/// An event carrying the full state of a collection at delivery time.
pub trait SnapshottableEvent: Sized {
    type SnapshotType: View;

    /// The view of the attached snapshot.
    spec fn snapshot_view(&self) -> <Self::SnapshotType as View>::V;

    /// Whether the attached snapshot is internally consistent.
    spec fn snapshot_wf(&self) -> bool;

    /// The full state of the collection this event was made from.
    fn snapshot(&self) -> (r: Self::SnapshotType)
        requires
            self.snapshot_wf(),
        ensures
            r@ == self.snapshot_view(),
    ;
}

/// A basic signal backed by an owned queue: events are pushed in by a
/// producer and handed out in order; once closed, an empty queue reports
/// the end of the stream.
pub struct ChannelStructuralSignal<I: SignalEvent> {
    receiver: VecDeque<I>,
    closed: bool,
}

impl<I: SignalEvent> ChannelStructuralSignal<I> {
    /// The events waiting to be delivered, oldest first.
    pub closed spec fn queued(&self) -> Seq<I> {
        self.receiver@
    }

    /// Whether the producer side has been closed.
    pub closed spec fn is_closed(&self) -> bool {
        self.closed
    }

    /// An open channel with nothing queued.
    pub fn new() -> (r: ChannelStructuralSignal<I>)
        ensures
            r.sig_wf(),
            r.queued() == Seq::<I>::empty(),
            !r.is_closed(),
    {
        ChannelStructuralSignal { receiver: VecDeque::new(), closed: false }
    }

    /// Queue one event for delivery.
    pub fn send(&mut self, item: I)
        requires
            old(self).sig_wf(),
            item.event_wf(),
        ensures
            final(self).sig_wf(),
            final(self).queued() == old(self).queued().push(item),
            final(self).is_closed() == old(self).is_closed(),
    {
        let ghost it = item;
        self.receiver.push_back(item);
        proof {
            assert forall|i: int|
                0 <= i < self.queued().len() implies (#[trigger] self.queued()[i]).event_wf() by {
                if i < old(self).queued().len() {
                    assert(self.queued()[i] == old(self).queued()[i]);
                    assert(old(self).queued()[i].event_wf());
                } else {
                    assert(self.queued()[i] == it);
                }
            }
        }
    }

    /// Close the channel; queued events still drain, then polls report
    /// the end of the stream.
    pub fn close(&mut self)
        requires
            old(self).sig_wf(),
        ensures
            final(self).sig_wf(),
            final(self).queued() == old(self).queued(),
            final(self).is_closed(),
    {
        self.closed = true;
        proof {
            assert forall|i: int|
                0 <= i < self.queued().len() implies (#[trigger] self.queued()[i]).event_wf() by {
                assert(old(self).queued()[i].event_wf());
            }
        }
    }
}

impl<I: SignalEvent> StructuralSignal for ChannelStructuralSignal<I> {
    type Item = I;

    open spec fn sig_wf(&self) -> bool {
        forall|i: int| 0 <= i < self.queued().len() ==> (#[trigger] self.queued()[i]).event_wf()
    }

    open spec fn item_wf(item: I) -> bool {
        item.event_wf()
    }

    open spec fn poll_fuel(&self) -> nat {
        self.queued().len()
    }

    fn poll_change(&mut self) -> (r: PollChange<I>) {
        let ghost q0 = self.receiver@;
        match self.receiver.pop_front() {
            Some(item) => {
                proof {
                    assert(item == old(self).queued()[0]);
                    assert(old(self).queued()[0].event_wf());
                    assert forall|i: int|
                        0 <= i < self.queued().len() implies (
                    #[trigger] self.queued()[i]).event_wf() by {
                        assert(self.queued()[i] == old(self).queued()[i + 1]);
                        assert(old(self).queued()[i + 1].event_wf());
                    }
                }
                PollChange::Ready(item)
            },
            None => {
                if self.closed {
                    PollChange::Closed
                } else {
                    PollChange::Pending
                }
            },
        }
    }
}

} // verus!
