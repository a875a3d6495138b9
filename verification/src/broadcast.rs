//! Fan-out over one upstream signal: the upstream — and any pipeline above
//! it — is polled at most once per upstream change, no matter how many
//! downstream taps exist.
//!
//! Each tap owns a private unbounded queue. Whichever tap polls first
//! performs the shared advance; every tap observes the same relative
//! sequence of upstream items. A tap created after the upstream has
//! already produced something immediately receives a replay of the most
//! recent item.

use crate::signal::{PollChange, SignalEvent, SnapshottableEvent, StructuralSignal};
use std::collections::VecDeque;
use vstd::prelude::*;

verus! {

/// Conveniences available on every structural signal whose events can be
/// copied and snapshotted.
pub trait StructuralSignalExt: StructuralSignal where
    Self::Item: SignalEvent + SnapshottableEvent,
 {
    /// Convert this signal into a broadcaster, which can distribute its
    /// events to any number of taps while the upstream pipeline runs only
    /// once per change.
    fn broadcast(self) -> (r: StructuralSignalBroadcaster<Self::Item, Self>)
        requires
            self.sig_wf(),
        ensures
            r.wf(),
            r.model().most_recent is None,
            r.model().queues == Seq::<Option<Seq<<Self::Item as View>::V>>>::empty(),
            !r.model().closed,
    ;

    /// Drain the signal and return the snapshot attached to the last
    /// event it delivered, if it delivered any.
    fn snapshot(self) -> (r: Option<<Self::Item as SnapshottableEvent>::SnapshotType>)
        requires
            self.sig_wf(),
            forall|e: Self::Item| #[trigger] Self::item_wf(e) ==> e.snapshot_wf(),
        ensures
            r matches Some(s) ==> exists|e: Self::Item|
                #[trigger] Self::item_wf(e) && e.snapshot_view() == s@,
    ;
}

impl<S> StructuralSignalExt for S where
    S: StructuralSignal,
    S::Item: SignalEvent + SnapshottableEvent,
 {
    fn broadcast(self) -> (r: StructuralSignalBroadcaster<Self::Item, Self>) {
        StructuralSignalBroadcaster::new(self)
    }

    fn snapshot(self) -> (r: Option<<Self::Item as SnapshottableEvent>::SnapshotType>) {
        let mut signal = self;
        let mut last: Option<Self::Item> = None;
        loop
            invariant
                signal.sig_wf(),
                forall|e: Self::Item| #[trigger] Self::item_wf(e) ==> e.snapshot_wf(),
                last matches Some(e) ==> Self::item_wf(e),
            decreases signal.poll_fuel(),
        {
            match signal.poll_change() {
                PollChange::Ready(event) => {
                    last = Some(event);
                },
                PollChange::Pending => {
                    break ;
                },
                PollChange::Closed => {
                    break ;
                },
            }
        }
        match last {
            Some(event) => Some(event.snapshot()),
            None => None,
        }
    }
}

/// The observable state of a broadcaster, item views only: the most
/// recent upstream item, each tap's pending queue (`None` for a tap that
/// was closed), and whether the upstream has ended.
#[verifier::ext_equal]
pub struct BroadcastModel<V0> {
    pub most_recent: Option<V0>,
    pub queues: Seq<Option<Seq<V0>>>,
    pub closed: bool,
}

/// Registering a tap appends one queue, pre-loaded with a replay of the
/// most recent upstream item if there is one.
pub open spec fn spec_register_tap<V0>(m: BroadcastModel<V0>) -> (BroadcastModel<V0>, int) {
    let q = match m.most_recent {
        Some(e) => seq![e],
        None => Seq::empty(),
    };
    (
        BroadcastModel {
            most_recent: m.most_recent,
            queues: m.queues.push(Some(q)),
            closed: m.closed,
        },
        m.queues.len() as int,
    )
}

/// Taking from a tap's non-empty queue hands out its oldest item and
/// leaves everything else untouched.
pub open spec fn spec_take_tap<V0>(m: BroadcastModel<V0>, t: int) -> (
    BroadcastModel<V0>,
    Option<V0>,
) {
    if 0 <= t < m.queues.len() && m.queues[t] is Some && m.queues[t]->0.len() > 0 {
        let q = m.queues[t]->0;
        (
            BroadcastModel {
                most_recent: m.most_recent,
                queues: m.queues.update(t, Some(q.drop_first())),
                closed: m.closed,
            },
            Some(q[0]),
        )
    } else {
        (m, None)
    }
}

/// Other taps only ever gain items: between the start and the end of one
/// tap's poll, every other queue kept what it had, in order, gaining at
/// most one newly distributed item (the mid state) and nothing after.
proof fn lemma_other_taps_keep_prefix<V0>(
    m0: BroadcastModel<V0>,
    m1: BroadcastModel<V0>,
    m_mid: BroadcastModel<V0>,
    t: int,
)
    requires
        m_mid.queues.len() == m0.queues.len(),
        m1.queues.len() == m0.queues.len(),
        forall|t2: int|
            0 <= t2 < m0.queues.len() && t2 != t ==> (match (
                m0.queues[t2],
                #[trigger] m_mid.queues[t2],
            ) {
                (Some(q1), Some(q2)) => q2 == q1 || (m_mid.most_recent is Some && q2 == q1.push(
                    m_mid.most_recent->0,
                )),
                (None, None) => true,
                _ => false,
            }),
        forall|t2: int|
            0 <= t2 < m0.queues.len() && t2 != t ==> #[trigger] m1.queues[t2]
                == m_mid.queues[t2],
    ensures
        forall|t2: int|
            0 <= t2 < m0.queues.len() && t2 != t ==> (match (
                m0.queues[t2],
                #[trigger] m1.queues[t2],
            ) {
                (Some(q1), Some(q2)) => q2.len() >= q1.len() && q2.subrange(0, q1.len() as int)
                    == q1,
                (None, None) => true,
                _ => false,
            }),
{
    assert forall|t2: int| 0 <= t2 < m0.queues.len() && t2 != t implies (match (
        m0.queues[t2],
        #[trigger] m1.queues[t2],
    ) {
        (Some(q1), Some(q2)) => q2.len() >= q1.len() && q2.subrange(0, q1.len() as int) == q1,
        (None, None) => true,
        _ => false,
    }) by {
        match (m0.queues[t2], m_mid.queues[t2]) {
            (Some(q1), Some(q2)) => {
                if q2 == q1 {
                    assert(q2.subrange(0, q1.len() as int) =~= q1);
                } else {
                    let x = m_mid.most_recent->0;
                    assert(q2 == q1.push(x));
                    assert(q2.subrange(0, q1.len() as int) =~= q1);
                }
            },
            (None, None) => {},
            _ => {},
        }
    }
}

/// Broadcast replay without duplication: a tap registered while the
/// upstream has already produced items receives the most recent item
/// exactly once — its first take hands that item out and leaves the tap's
/// queue empty, so no further take can repeat it.
pub proof fn lemma_broadcast_replay_no_duplication<V0>(m: BroadcastModel<V0>, e: V0)
    requires
        m.most_recent == Some(e),
    ensures
        ({
            let (m1, t) = spec_register_tap(m);
            let (m2, r) = spec_take_tap(m1, t);
            &&& r == Some(e)
            &&& m2.queues[t] == Some(Seq::<V0>::empty())
            &&& spec_take_tap(m2, t).1 is None
            &&& spec_take_tap(m2, t).0 == m2
        }),
{
    let (m1, t) = spec_register_tap(m);
    let (m2, r) = spec_take_tap(m1, t);
    assert(m1.queues[t] == Some(seq![e]));
    assert(seq![e].drop_first() =~= Seq::<V0>::empty());
}

/// A fan-out broadcaster owning its upstream signal and one queue per
/// tap.
#[verifier::reject_recursive_types(I)]
pub struct StructuralSignalBroadcaster<I, S> where I: SignalEvent, S: StructuralSignal<Item = I> {
    input: S,
    most_recent_event: Option<I>,
    senders: Vec<Option<VecDeque<I>>>,
    closed: bool,
}

impl<I, S> StructuralSignalBroadcaster<I, S> where I: SignalEvent, S: StructuralSignal<Item = I> {
    /// The observable state, item views only.
    pub closed spec fn model(&self) -> BroadcastModel<<I as View>::V> {
        BroadcastModel {
            most_recent: match self.most_recent_event {
                Some(e) => Some(e@),
                None => None,
            },
            queues: Seq::new(
                self.senders@.len() as nat,
                |t: int|
                    match self.senders@[t] {
                        Some(q) => Some(q@.map(|i: int, x: I| x@)),
                        None => None,
                    },
            ),
            closed: self.closed,
        }
    }

    /// The upstream signal must be able to answer polls.
    pub closed spec fn wf(&self) -> bool {
        self.input.sig_wf()
    }

    /// The upstream signal currently driving this broadcaster.
    pub closed spec fn upstream(&self) -> S {
        self.input
    }

    /// Hand the upstream signal out and put another in its place.
    ///
    /// A driver that owns the whole pipeline uses this to reach the
    /// bottom of it — to feed a queue-backed upstream, say — and then
    /// puts the upstream back.
    pub fn swap_input(&mut self, input: S) -> (r: S)
        requires
            old(self).wf(),
            input.sig_wf(),
        ensures
            final(self).wf(),
            r == old(self).upstream(),
            final(self).upstream() == input,
            final(self).model() == old(self).model(),
    {
        let mut input = input;
        core::mem::swap(&mut self.input, &mut input);
        proof {
            assert(self.model() =~= old(self).model());
            assert(self.model() == old(self).model());
        }
        input
    }

    /// Wrap an upstream signal; no taps yet, nothing seen yet.
    pub fn new(input: S) -> (r: StructuralSignalBroadcaster<I, S>)
        requires
            input.sig_wf(),
        ensures
            r.wf(),
            r.model().most_recent is None,
            r.model().queues == Seq::<Option<Seq<<I as View>::V>>>::empty(),
            !r.model().closed,
    {
        let r = StructuralSignalBroadcaster {
            input,
            most_recent_event: None,
            senders: Vec::new(),
            closed: false,
        };
        proof {
            assert(r.model().queues =~= Seq::<Option<Seq<<I as View>::V>>>::empty());
        }
        r
    }

    /// Open a new tap. A tap created after the upstream has produced at
    /// least one item immediately has a replay of the most recent item
    /// queued as its first delivery.
    pub fn register_tap(&mut self) -> (t: usize)
        requires
            old(self).wf(),
        ensures
            final(self).wf(),
            (final(self).model(), t as int) == spec_register_tap(old(self).model()),
    {
        let t = self.senders.len();
        let mut q: VecDeque<I> = VecDeque::new();
        match &self.most_recent_event {
            Some(e) => {
                let d = e.dup_event();
                q.push_back(d);
                proof {
                    assert(q@.map(|i2: int, x: I| x@) =~= seq![
                        old(self).model().most_recent->0,
                    ]);
                }
            },
            None => {
                proof {
                    assert(q@.map(|i2: int, x: I| x@) =~= Seq::<<I as View>::V>::empty());
                }
            },
        }
        self.senders.push(Some(q));
        proof {
            let mf = self.model();
            let m0 = old(self).model();
            assert forall|x: int| 0 <= x < mf.queues.len() implies mf.queues[x]
                == spec_register_tap(m0).0.queues[x] by {
                if x < m0.queues.len() {
                    assert(self.senders@[x] == old(self).senders@[x]);
                }
            }
            assert(mf.queues =~= spec_register_tap(m0).0.queues);
            assert(mf =~= spec_register_tap(m0).0);
        }
        t
    }

    /// Drop a tap: its queue disappears and later upstream items are no
    /// longer copied for it. Closed taps are pruned silently; nothing is
    /// surfaced to other taps.
    pub fn close_tap(&mut self, t: usize)
        requires
            old(self).wf(),
            t < old(self).model().queues.len(),
        ensures
            final(self).wf(),
            final(self).model().queues == old(self).model().queues.update(
                t as int,
                None::<Seq<<I as View>::V>>,
            ),
            final(self).model().most_recent == old(self).model().most_recent,
            final(self).model().closed == old(self).model().closed,
    {
        self.senders.remove(t);
        self.senders.insert(t, None);
        proof {
            assert(self.model().queues =~= old(self).model().queues.update(
                t as int,
                None::<Seq<<I as View>::V>>,
            ));
        }
    }

    /// Poll the upstream once and distribute what came: a new item is
    /// recorded as most recent and copied onto every open tap queue; on
    /// upstream exhaustion the broadcaster closes. Returns whether the
    /// upstream made progress.
    fn pull_in_new_changes(&mut self) -> (r: bool)
        requires
            old(self).wf(),
        ensures
            final(self).wf(),
            final(self).model().queues.len() == old(self).model().queues.len(),
            !r ==> final(self).model() == old(self).model(),
            r ==> ({
                ||| ({
                    &&& final(self).model().closed
                    &&& final(self).model().queues == old(self).model().queues
                    &&& final(self).model().most_recent == old(self).model().most_recent
                })
                ||| ({
                    &&& final(self).model().most_recent is Some
                    &&& final(self).model().closed == old(self).model().closed
                    &&& final(self).model().queues.len() == old(self).model().queues.len()
                    &&& ({
                        let mf = final(self).model();
                        let mb = old(self).model();
                        forall|t: int|
                            0 <= t < mb.queues.len() ==> (#[trigger] mf.queues[t]) == (
                            match mb.queues[t] {
                                Some(q) => Some(q.push(mf.most_recent->0)),
                                None => None,
                            })
                    })
                })
            }),
    {
        let polled = self.input.poll_change();
        match polled {
            PollChange::Pending => {
                proof {
                    assert(self.model() =~= old(self).model());
                    assert(self.model() == old(self).model());
                }
                false
            },
            PollChange::Closed => {
                self.closed = true;
                proof {
                    assert(self.model().queues =~= old(self).model().queues);
                    assert(self.model().queues == old(self).model().queues);
                }
                true
            },
            PollChange::Ready(event) => {
                let ghost ev = event@;
                let mut i: usize = 0;
                let ghost qs0 = self.senders@;
                while i < self.senders.len()
                    invariant
                        0 <= i <= qs0.len(),
                        self.senders@.len() == qs0.len(),
                        event@ == ev,
                        self.input.sig_wf(),
                        self.closed == old(self).closed,
                        self.most_recent_event == old(self).most_recent_event,
                        forall|t: int|
                            i <= t < qs0.len() ==> (#[trigger] self.senders@[t]) == qs0[t],
                        forall|t: int|
                            0 <= t < i ==> (match (qs0[t], #[trigger] self.senders@[t]) {
                                (Some(q1), Some(q2)) => q2@.map(|i2: int, x: I| x@) == q1@.map(
                                    |i2: int, x: I| x@,
                                ).push(ev),
                                (None, None) => true,
                                _ => false,
                            }),
                    decreases qs0.len() - i,
                {
                    let slot = self.senders.remove(i);
                    match slot {
                        Some(mut q) => {
                            let ghost q1v = q@;
                            let d = event.dup_event();
                            q.push_back(d);
                            proof {
                                assert(q@.map(|i2: int, x: I| x@) =~= q1v.map(
                                    |i2: int, x: I| x@,
                                ).push(ev));
                            }
                            self.senders.insert(i, Some(q));
                        },
                        None => {
                            self.senders.insert(i, None);
                        },
                    }
                    i += 1;
                }
                self.most_recent_event = Some(event);
                proof {
                    let mf = self.model();
                    let m0 = old(self).model();
                    assert(mf.most_recent is Some);
                    assert(mf.most_recent->0 == ev);
                    assert forall|t: int|
                        0 <= t < m0.queues.len() implies (#[trigger] mf.queues[t]) == (match m0
                        .queues[t] {
                        Some(q) => Some(q.push(mf.most_recent->0)),
                        None => None,
                    }) by {
                        match qs0[t] {
                            Some(q1) => {
                                assert(self.senders@[t] is Some);
                                let q2 = self.senders@[t]->0;
                                assert(q2@.map(|i2: int, x: I| x@) == q1@.map(
                                    |i2: int, x: I| x@,
                                ).push(ev));
                                assert(mf.queues[t] == Some(q2@.map(|i2: int, x: I| x@)));
                                assert(m0.queues[t] == Some(q1@.map(|i2: int, x: I| x@)));
                            },
                            None => {
                                assert(self.senders@[t] is None);
                            },
                        }
                    }
                }
                true
            },
        }
    }

    /// Poll one tap: first drain its own queue; if empty, attempt the
    /// shared advance and re-check; a closed upstream with nothing queued
    /// ends this tap's stream. A tap sees "no update" without affecting
    /// any other tap.
    pub fn poll_tap(&mut self, t: usize) -> (r: PollChange<I>)
        requires
            old(self).wf(),
            t < old(self).model().queues.len(),
        ensures
            final(self).wf(),
            final(self).model().queues.len() == old(self).model().queues.len(),
            ({
                let m0 = old(self).model();
                let taken = spec_take_tap(m0, t as int);
                if m0.queues[t as int] is Some && m0.queues[t as int]->0.len() > 0 {
                    &&& r matches PollChange::Ready(e) && e@ == taken.1->0
                    &&& final(self).model() == taken.0
                } else {
                    true
                }
            }),
            ({
                // polling one tap never costs another tap anything: every
                // other queue keeps what it had, in order, at most gaining
                // newly distributed items at its back
                let qs0 = old(self).model().queues;
                let qs1 = final(self).model().queues;
                forall|t2: int|
                    0 <= t2 < qs0.len() && t2 != t ==> (match (qs0[t2], #[trigger] qs1[t2]) {
                        (Some(q1), Some(q2)) => q2.len() >= q1.len() && q2.subrange(
                            0,
                            q1.len() as int,
                        ) == q1,
                        (None, None) => true,
                        _ => false,
                    })
            }),
    {
        let ghost m0 = self.model();
        if let Some(item) = self.take_from_queue(t) {
            proof {
                lemma_other_taps_keep_prefix(m0, self.model(), m0, t as int);
            }
            return PollChange::Ready(item);
        }
        if self.closed {
            proof {
                lemma_other_taps_keep_prefix(m0, self.model(), m0, t as int);
            }
            return PollChange::Closed;
        }
        let has_new_changes = self.pull_in_new_changes();
        let ghost m_mid = self.model();
        if has_new_changes {
            if let Some(item) = self.take_from_queue(t) {
                proof {
                    lemma_other_taps_keep_prefix(m0, self.model(), m_mid, t as int);
                }
                return PollChange::Ready(item);
            }
            if self.closed {
                proof {
                    lemma_other_taps_keep_prefix(m0, self.model(), m_mid, t as int);
                }
                return PollChange::Closed;
            }
        }
        proof {
            lemma_other_taps_keep_prefix(m0, self.model(), m_mid, t as int);
        }
        PollChange::Pending
    }

    /// Pop the oldest queued item of one tap, if any.
    fn take_from_queue(&mut self, t: usize) -> (r: Option<I>)
        requires
            old(self).wf(),
            t < old(self).model().queues.len(),
        ensures
            final(self).wf(),
            ({
                let m0 = old(self).model();
                let taken = spec_take_tap(m0, t as int);
                if m0.queues[t as int] is Some && m0.queues[t as int]->0.len() > 0 {
                    &&& r matches Some(e) && e@ == taken.1->0
                    &&& final(self).model() == taken.0
                } else {
                    r is None && final(self).model() == m0
                }
            }),
    {
        let ghost m0 = self.model();
        let slot = self.senders.remove(t);
        match slot {
            Some(mut q) => {
                let item = q.pop_front();
                let ghost gitem = item;
                self.senders.insert(t, Some(q));
                proof {
                    match gitem {
                        Some(e) => {
                            assert(m0.queues[t as int]->0.len() > 0);
                            assert(e@ == m0.queues[t as int]->0[0]) by {
                                assert(m0.queues[t as int]->0[0] == old(
                                    self,
                                ).senders@[t as int]->0@[0]@);
                            }
                            assert(self.model().queues =~= spec_take_tap(
                                m0,
                                t as int,
                            ).0.queues) by {
                                assert(q@.map(|i2: int, x: I| x@) =~= m0.queues[t
                                    as int]->0.drop_first());
                            }
                            assert(self.model() =~= spec_take_tap(m0, t as int).0);
                        },
                        None => {
                            assert(self.model().queues =~= m0.queues);
                            assert(self.model() =~= m0);
                        },
                    }
                }
                item
            },
            None => {
                self.senders.insert(t, None);
                proof {
                    assert(self.model().queues =~= m0.queues);
                    assert(self.model() =~= m0);
                }
                None
            },
        }
    }
}

} // verus!
