//! Transform stages over ordered collections: element mapping.

use crate::keys::DupValue;
use crate::pull_source::{
    lemma_add_diff_counters, lemma_pull_resets_fuel, poll_cursor, spec_cursor_fuel,
    PullSourceHost, SignalId,
};
use crate::signal::PollChange;
use crate::transformer::StructuralSignalTransformer;
use crate::vector::MutableVectorState;
use crate::vector_event::{VectorDiff, VectorEvent};
use core::marker::PhantomData;
use vstd::prelude::*;

verus! {

/// One diff applied to a mirror whose elements stand in relation `fr` to
/// the input elements. A diff whose positions have drifted outside the
/// mirror — possible only for a consumer that lagged across a structural
/// change — is dropped rather than misapplied.
pub open spec fn vec_step_rel<IV, OV>(
    s: Seq<OV>,
    snapshot: Seq<IV>,
    d: VectorDiff,
    fr: spec_fn(IV, OV) -> bool,
    s2: Seq<OV>,
) -> bool {
    match d {
        VectorDiff::Replace {} => {
            &&& s2.len() == snapshot.len()
            &&& forall|i: int| 0 <= i < snapshot.len() ==> fr(snapshot[i], #[trigger] s2[i])
        },
        VectorDiff::Insert { index, snapshot_index } => {
            if snapshot_index < snapshot.len() && index <= s.len() && s.len() < usize::MAX {
                exists|ov: OV|
                    #[trigger] fr(snapshot[snapshot_index as int], ov) && s2 == s.insert(
                        index as int,
                        ov,
                    )
            } else {
                s2 == s
            }
        },
        VectorDiff::Update { index, snapshot_index } => {
            if snapshot_index < snapshot.len() && index < s.len() {
                exists|ov: OV|
                    #[trigger] fr(snapshot[snapshot_index as int], ov) && s2 == s.update(
                        index as int,
                        ov,
                    )
            } else {
                s2 == s
            }
        },
        VectorDiff::Remove { index, snapshot_index } => {
            if index < s.len() {
                s2 == s.remove(index as int)
            } else {
                s2 == s
            }
        },
        VectorDiff::Clear {} => s2 =~= Seq::<OV>::empty(),
    }
}

/// A whole batch applied to the mirror, diff by diff, in order.
pub open spec fn vec_apply_rel<IV, OV>(
    s: Seq<OV>,
    snapshot: Seq<IV>,
    diffs: Seq<VectorDiff>,
    fr: spec_fn(IV, OV) -> bool,
    s2: Seq<OV>,
) -> bool
    decreases diffs.len(),
{
    if diffs.len() == 0 {
        s2 == s
    } else {
        exists|mid: Seq<OV>|
            #[trigger] vec_step_rel(s, snapshot, diffs[0], fr, mid) && vec_apply_rel(
                mid,
                snapshot,
                diffs.drop_first(),
                fr,
                s2,
            )
    }
}

/// Extending a batch by one diff extends its application by one step.
pub proof fn lemma_vec_apply_rel_snoc<IV, OV>(
    s: Seq<OV>,
    snapshot: Seq<IV>,
    diffs: Seq<VectorDiff>,
    fr: spec_fn(IV, OV) -> bool,
    s1: Seq<OV>,
    d: VectorDiff,
    s2: Seq<OV>,
)
    requires
        vec_apply_rel(s, snapshot, diffs, fr, s1),
        vec_step_rel(s1, snapshot, d, fr, s2),
    ensures
        vec_apply_rel(s, snapshot, diffs.push(d), fr, s2),
    decreases diffs.len(),
{
    if diffs.len() == 0 {
        assert(diffs.push(d)[0] == d);
        assert(diffs.push(d).drop_first() =~= Seq::<VectorDiff>::empty());
        assert(vec_step_rel(s, snapshot, d, fr, s2));
        assert(vec_apply_rel(s2, snapshot, diffs.push(d).drop_first(), fr, s2));
    } else {
        let mid = choose|mid: Seq<OV>|
            #[trigger] vec_step_rel(s, snapshot, diffs[0], fr, mid) && vec_apply_rel(
                mid,
                snapshot,
                diffs.drop_first(),
                fr,
                s1,
            );
        lemma_vec_apply_rel_snoc(mid, snapshot, diffs.drop_first(), fr, s1, d, s2);
        assert(diffs.push(d)[0] == diffs[0]);
        assert(diffs.push(d).drop_first() =~= diffs.drop_first().push(d));
        assert(vec_step_rel(s, snapshot, diffs.push(d)[0], fr, mid) && vec_apply_rel(
            mid,
            snapshot,
            diffs.push(d).drop_first(),
            fr,
            s2,
        ));
    }
}

/// Mirrors an ordered collection with every element run through a
/// mapping function.
#[verifier::reject_recursive_types(OV)]
pub struct MapVectorTransformer<F, IV, OV: DupValue> where F: Fn(IV) -> OV {
    vector: MutableVectorState<OV>,
    map_fn: F,
    signal_id: SignalId,
    input_type: PhantomData<IV>,
}

impl<F, IV: DupValue, OV: DupValue> MapVectorTransformer<F, IV, OV> where F: Fn(IV) -> OV {
    /// The mirrored collection's mathematical content.
    pub closed spec fn mirror(&self) -> Seq<OV> {
        self.vector.vec_view()
    }

    /// The relation the mapping function establishes between an input
    /// element and the mirrored element derived from it.
    pub closed spec fn fn_rel(&self) -> spec_fn(IV, OV) -> bool {
        |iv: IV, ov: OV| call_ensures(self.map_fn, (iv,), ov)
    }

    /// The next free sequence number of the mirror's own diff log.
    pub closed spec fn log_counter(&self) -> int {
        self.vector.source().next_diff as int
    }

    /// Whether the mirror's log can still number `extra` more diffs.
    pub fn can_absorb(&self, extra: usize) -> (r: bool)
        ensures
            r == (self.log_counter() + extra <= usize::MAX),
    {
        self.vector.can_log_batch(extra)
    }

    /// A fresh mapping stage over an empty mirror.
    pub fn new(map_fn: F) -> (r: MapVectorTransformer<F, IV, OV>)
        requires
            forall|v: IV| #[trigger] call_requires(map_fn, (v,)),
        ensures
            r.tr_wf(),
    {
        let mut vector = MutableVectorState::<OV>::new();
        let signal_id = vector.subscribe();
        MapVectorTransformer { vector, map_fn, signal_id, input_type: PhantomData }
    }

    /// Apply one incoming batch to the mirror, diff by diff: the new
    /// mirror is exactly the old one with the batch applied, every
    /// derived element standing in the mapping function's relation to
    /// its snapshot element.
    pub fn apply_event_exact(&mut self, event: VectorEvent<IV>)
        requires
            old(self).tr_wf(),
            old(self).log_counter() + event.diffs@.len() <= usize::MAX,
        ensures
            final(self).tr_wf(),
            vec_apply_rel(
                old(self).mirror(),
                event.snapshot@,
                event.diffs@,
                old(self).fn_rel(),
                final(self).mirror(),
            ),
    {
        let ghost s_start = self.mirror();
        let ghost fr = self.fn_rel();
        let ghost snap = event.snapshot@;
        let ghost c0 = self.vector.source().next_diff;
        let mut i: usize = 0;
        proof {
            assert(event.diffs@.take(0) =~= Seq::<VectorDiff>::empty());
        }
        while i < event.diffs.len()
            invariant
                0 <= i <= event.diffs@.len(),
                self.vector.wf(),
                1 <= self.signal_id < self.vector.source().next_id,
                forall|v: IV| #[trigger] call_requires(self.map_fn, (v,)),
                self.map_fn == old(self).map_fn,
                event.snapshot@ == snap,
                self.vector.source().next_diff <= c0 + i,
                c0 + event.diffs@.len() <= usize::MAX,
                fr == old(self).fn_rel(),
                vec_apply_rel(s_start, snap, event.diffs@.take(i as int), fr, self.mirror()),
            decreases event.diffs@.len() - i,
        {
            let ghost s_before = self.mirror();
            let ghost d = event.diffs@[i as int];
            let ghost src_before = self.vector.source();
            match &event.diffs[i] {
                VectorDiff::Replace {} => {
                    let mut mapped: Vec<OV> = Vec::new();
                    let mut j: usize = 0;
                    while j < event.snapshot.len()
                        invariant
                            0 <= j <= snap.len(),
                            event.snapshot@ == snap,
                            forall|v: IV| #[trigger] call_requires(self.map_fn, (v,)),
                            self.map_fn == old(self).map_fn,
                            fr == old(self).fn_rel(),
                            mapped@.len() == j,
                            forall|jj: int| 0 <= jj < j ==> fr(snap[jj], #[trigger] mapped@[jj]),
                        decreases snap.len() - j,
                    {
                        let v = event.snapshot[j].dup();
                        let mv = (self.map_fn)(v);
                        mapped.push(mv);
                        j += 1;
                    }
                    let ghost mappedv = mapped@;
                    if self.vector.can_log_now() {
                        self.vector.replace(mapped);
                    }
                    proof {
                        assert(self.mirror() == mappedv);
                        assert(vec_step_rel(s_before, snap, d, fr, self.mirror()));
                        lemma_add_diff_counters(src_before, VectorDiff::Replace {});
                    }
                },
                VectorDiff::Insert { index, snapshot_index } => {
                    if *snapshot_index < event.snapshot.len() {
                        let v = event.snapshot[*snapshot_index].dup();
                        let mv = (self.map_fn)(v);
                        let ghost ov = mv;
                        let here = self.vector.len();
                        if *index <= here && here < usize::MAX && self.vector.can_log_now() {
                            self.vector.insert(*index, mv);
                            proof {
                                assert(fr(snap[*snapshot_index as int], ov));
                                assert(self.mirror() == s_before.insert(*index as int, ov));
                                lemma_add_diff_counters(
                                    crate::pull_source::spec_update_keys(
                                        src_before,
                                        crate::vector::shift_up_at(*index),
                                    ),
                                    VectorDiff::Insert {
                                        index: *index,
                                        snapshot_index: *index,
                                    },
                                );
                            }
                        }
                    }
                    proof {
                        assert(vec_step_rel(s_before, snap, d, fr, self.mirror()));
                    }
                },
                VectorDiff::Update { index, snapshot_index } => {
                    if *snapshot_index < event.snapshot.len() {
                        let v = event.snapshot[*snapshot_index].dup();
                        let mv = (self.map_fn)(v);
                        let ghost ov = mv;
                        if *index < self.vector.len() && self.vector.can_log_now() {
                            self.vector.set(*index, mv);
                            proof {
                                assert(fr(snap[*snapshot_index as int], ov));
                                assert(self.mirror() == s_before.update(*index as int, ov));
                                lemma_add_diff_counters(
                                    src_before,
                                    VectorDiff::Update {
                                        index: *index,
                                        snapshot_index: *index,
                                    },
                                );
                            }
                        }
                    }
                    proof {
                        assert(vec_step_rel(s_before, snap, d, fr, self.mirror()));
                    }
                },
                VectorDiff::Remove { index, snapshot_index } => {
                    if *index < self.vector.len() && self.vector.can_log_now() {
                        self.vector.remove(*index);
                        proof {
                            lemma_add_diff_counters(
                                src_before,
                                VectorDiff::Remove { index: *index, snapshot_index: *index },
                            );
                        }
                    }
                    proof {
                        assert(vec_step_rel(s_before, snap, d, fr, self.mirror()));
                    }
                },
                VectorDiff::Clear {} => {
                    if self.vector.can_log_now() {
                        self.vector.clear();
                    }
                    proof {
                        assert(vec_step_rel(s_before, snap, d, fr, self.mirror()));
                        lemma_add_diff_counters(src_before, VectorDiff::Clear {});
                    }
                },
            }
            proof {
                lemma_vec_apply_rel_snoc(
                    s_start,
                    snap,
                    event.diffs@.take(i as int),
                    fr,
                    s_before,
                    d,
                    self.mirror(),
                );
                assert(event.diffs@.take(i + 1) =~= event.diffs@.take(i as int).push(d));
            }
            i += 1;
        }
        proof {
            assert(event.diffs@.take(event.diffs@.len() as int) =~= event.diffs@);
        }
    }
}

impl<F, IV: DupValue, OV: DupValue> StructuralSignalTransformer for MapVectorTransformer<
    F,
    IV,
    OV,
> where F: Fn(IV) -> OV {
    type InputEvent = VectorEvent<IV>;

    type OutputEvent = VectorEvent<OV>;

    closed spec fn tr_wf(&self) -> bool {
        &&& self.vector.wf()
        &&& 1 <= self.signal_id < self.vector.source().next_id
        &&& forall|v: IV| #[trigger] call_requires(self.map_fn, (v,))
    }

    open spec fn input_ok(event: VectorEvent<IV>) -> bool {
        true
    }

    open spec fn output_ok(event: VectorEvent<OV>) -> bool {
        true
    }

    closed spec fn tr_fuel(&self) -> nat {
        spec_cursor_fuel(self.vector.source(), self.signal_id)
    }

    fn apply_event(&mut self, event: VectorEvent<IV>) {
        if self.can_absorb(event.diffs.len()) {
            self.apply_event_exact(event);
        }
        // else: the mirror's log cannot number this batch; the batch is
        // dropped, which the sequence counter's width makes unreachable
    }

    fn poll_output(&mut self) -> (r: PollChange<VectorEvent<OV>>) {
        proof {
            lemma_pull_resets_fuel(self.vector.source(), self.signal_id);
        }
        poll_cursor(&mut self.vector, self.signal_id)
    }
}

} // verus!
