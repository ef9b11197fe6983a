//! Per-connection acknowledgement log: committed outgoing acks, recorded
//! QoS-2 publishes awaiting completion, and deferred PubAcks that are
//! released only once every matching filter's subscribers have persisted
//! the publish.
use crate::protocol::{ConnAck, PingResp, PubAck, PubRec, PubRel, Publish, SubAck, UnsubAck};
use crate::pubcomp::PubComp;
use crate::{offset_le, ConnectionId, FilterIdx, Offset};
use std::collections::VecDeque;
use vstd::prelude::*;

verus! {

/// One outgoing acknowledgement packet.
#[derive(Debug)]
pub enum Ack {
    ConnAck(ConnectionId, ConnAck),
    SubAck(SubAck),
    PubAck(PubAck),
    PubRec(PubRec),
    PubRel(PubRel),
    PubComp(PubComp),
    PingResp(PingResp),
    UnsubAck(UnsubAck),
}

/// One withheld PubAck: the ack itself; per matching filter, the offset at
/// which the publish landed there (the same filter may appear twice, and
/// each occurrence must be crossed); and the persisted thresholds this
/// record has been told of. A record starts with no thresholds: only marker
/// advances reported after its insertion can release it.
#[derive(Debug)]
pub struct DeferredAck {
    puback: PubAck,
    filter_publish_markers: Vec<(FilterIdx, Offset)>,
    filter_thresholds: Vec<(FilterIdx, Offset)>,
}

/// Mathematical image of a [`DeferredAck`].
#[verifier::ext_equal]
pub struct DeferredAckView {
    pub puback: PubAck,
    pub markers: Seq<(FilterIdx, Offset)>,
    pub thresholds: Seq<(FilterIdx, Offset)>,
}

impl View for DeferredAck {
    type V = DeferredAckView;

    closed spec fn view(&self) -> DeferredAckView {
        DeferredAckView {
            puback: self.puback,
            markers: self.filter_publish_markers@,
            thresholds: self.filter_thresholds@,
        }
    }
}

/// The persisted threshold recorded for filter `f`, if one was reported.
pub open spec fn threshold_of(thr: Seq<(FilterIdx, Offset)>, f: FilterIdx) -> Option<Offset>
    decreases thr.len(),
{
    if thr.len() == 0 {
        None
    } else if thr[0].0 == f {
        Some(thr[0].1)
    } else {
        threshold_of(thr.drop_first(), f)
    }
}

/// The thresholds after recording that filter `f` is persisted up to `m`:
/// the entry for `f` is overwritten, or appended when it is new.
pub open spec fn upsert_threshold(
    thr: Seq<(FilterIdx, Offset)>,
    f: FilterIdx,
    m: Offset,
) -> Seq<(FilterIdx, Offset)> {
    let t = index_of_first_threshold(thr, f);
    if t == -1 {
        thr.push((f, m))
    } else {
        thr.update(t, (f, m))
    }
}

/// True when the record's markers name filter `f`.
pub open spec fn contains_filter(markers: Seq<(FilterIdx, Offset)>, f: FilterIdx) -> bool {
    exists|k: int| 0 <= k < markers.len() && (#[trigger] markers[k]).0 == f
}

/// The record after a threshold update: a record containing `f` learns the
/// new threshold; any other record is left alone.
pub open spec fn record_after_update(rec: DeferredAckView, f: FilterIdx, m: Offset) -> DeferredAckView {
    if contains_filter(rec.markers, f) {
        DeferredAckView {
            puback: rec.puback,
            markers: rec.markers,
            thresholds: upsert_threshold(rec.thresholds, f, m),
        }
    } else {
        rec
    }
}

/// A deferred ack is releasable when every filter occurrence it carries has
/// learnt a threshold at or past the offset where the publish landed.
pub open spec fn releasable(rec: DeferredAckView) -> bool {
    forall|k: int|
        0 <= k < rec.markers.len() ==> (threshold_of(rec.thresholds, (#[trigger] rec.markers[k]).0)
            matches Some(m) && offset_le(rec.markers[k].1, m))
}

/// How many deferred acks are released: the longest releasable prefix, so
/// acks leave strictly in insertion order and release stops at the first
/// ack that still waits.
pub open spec fn release_count(pending: Seq<DeferredAckView>) -> int
    decreases pending.len(),
{
    if pending.len() == 0 {
        0
    } else if releasable(pending[0]) {
        1 + release_count(pending.skip(1))
    } else {
        0
    }
}

/// The committed-queue images of a run of deferred acks, in order.
pub open spec fn acks_of(pending: Seq<DeferredAckView>) -> Seq<Ack> {
    pending.map_values(|r: DeferredAckView| Ack::PubAck(r.puback))
}

/// Law: deferred acks are released in insertion order. The released part is
/// always the longest prefix of the pending queue whose every member is
/// releasable; nothing behind a still-waiting ack gets out.
pub proof fn lemma_release_order(pending: Seq<DeferredAckView>)
    ensures
        0 <= release_count(pending) <= pending.len(),
        forall|j: int| 0 <= j < release_count(pending) ==> releasable(#[trigger] pending[j]),
        release_count(pending) < pending.len() ==> !releasable(pending[release_count(pending)]),
    decreases pending.len(),
{
    if pending.len() > 0 && releasable(pending[0]) {
        lemma_release_order(pending.skip(1));
        let rc = release_count(pending);
        assert forall|j: int| 0 <= j < rc implies releasable(#[trigger] pending[j]) by {
            if j > 0 {
                assert(pending.skip(1)[j - 1] == pending[j]);
            }
        }
        if rc < pending.len() {
            assert(pending.skip(1)[rc - 1] == pending[rc]);
        }
    }
}

/// Law: a freshly inserted deferred ack with at least one marker is not
/// releasable — its thresholds map starts empty, so only threshold updates
/// arriving after the insertion can release it.
pub proof fn lemma_fresh_record_not_releasable(rec: DeferredAckView)
    requires
        rec.markers.len() > 0,
        rec.thresholds.len() == 0,
    ensures
        !releasable(rec),
{
    assert(threshold_of(rec.thresholds, rec.markers[0].0) is None);
}

/// Keys of a threshold table are unique.
pub open spec fn thresholds_unique(thr: Seq<(FilterIdx, Offset)>) -> bool {
    forall|i: int, j: int|
        0 <= i < j < thr.len() ==> (#[trigger] thr[i]).0 != (#[trigger] thr[j]).0
}

/// Acks log for one connection.
#[derive(Debug)]
pub struct AckLog {
    committed: VecDeque<Ack>,
    recorded: VecDeque<Publish>,
    deferred_acks: Vec<DeferredAck>,
}

impl AckLog {
    /// Outgoing acks ready to be written to the wire, oldest first.
    pub closed spec fn committed_view(self) -> Seq<Ack> {
        self.committed@
    }

    /// QoS-2 publishes recorded until their PubComp arrives, oldest first.
    pub closed spec fn recorded_view(self) -> Seq<Publish> {
        self.recorded@
    }

    /// Deferred acks in insertion order.
    pub closed spec fn pending_view(self) -> Seq<DeferredAckView> {
        Seq::new(self.deferred_acks@.len(), |i: int| self.deferred_acks@[i]@)
    }

    /// Each record's thresholds name each filter at most once.
    pub open spec fn wf(self) -> bool {
        forall|i: int|
            0 <= i < self.pending_view().len() ==> thresholds_unique(
                (#[trigger] self.pending_view()[i]).thresholds,
            )
    }

    /// An empty log.
    pub fn new() -> (r: AckLog)
        ensures
            r.wf(),
            r.committed_view() == Seq::<Ack>::empty(),
            r.recorded_view() == Seq::<Publish>::empty(),
            r.pending_view() == Seq::<DeferredAckView>::empty(),
    {
        let r = AckLog {
            committed: VecDeque::with_capacity(100),
            recorded: VecDeque::with_capacity(100),
            deferred_acks: Vec::new(),
        };
        proof {
            assert(r.pending_view() =~= Seq::<DeferredAckView>::empty());
        }
        r
    }

    /// Commits a connection ack.
    pub fn connack(&mut self, id: ConnectionId, ack: ConnAck)
        requires
            old(self).wf(),
        ensures
            final(self).wf(),
            final(self).committed_view() == old(self).committed_view().push(Ack::ConnAck(id, ack)),
            final(self).recorded_view() == old(self).recorded_view(),
            final(self).pending_view() == old(self).pending_view(),
    {
        self.committed.push_back(Ack::ConnAck(id, ack));
        proof {
            assert(self.pending_view() =~= old(self).pending_view());
        }
    }

    /// Commits a subscribe ack.
    pub fn suback(&mut self, ack: SubAck)
        requires
            old(self).wf(),
        ensures
            final(self).wf(),
            final(self).committed_view() == old(self).committed_view().push(Ack::SubAck(ack)),
            final(self).recorded_view() == old(self).recorded_view(),
            final(self).pending_view() == old(self).pending_view(),
    {
        self.committed.push_back(Ack::SubAck(ack));
        proof {
            assert(self.pending_view() =~= old(self).pending_view());
        }
    }

    fn puback(&mut self, ack: PubAck)
        requires
            old(self).wf(),
        ensures
            final(self).wf(),
            final(self).committed_view() == old(self).committed_view().push(Ack::PubAck(ack)),
            final(self).recorded_view() == old(self).recorded_view(),
            final(self).pending_view() == old(self).pending_view(),
    {
        self.committed.push_back(Ack::PubAck(ack));
        proof {
            assert(self.pending_view() =~= old(self).pending_view());
        }
    }

    /// Commits a PubRec and records the publish until its PubComp.
    pub fn pubrec(&mut self, publish: Publish, ack: PubRec)
        requires
            old(self).wf(),
        ensures
            final(self).wf(),
            final(self).committed_view() == old(self).committed_view().push(Ack::PubRec(ack)),
            final(self).recorded_view() == old(self).recorded_view().push(publish),
            final(self).pending_view() == old(self).pending_view(),
    {
        self.recorded.push_back(publish);
        self.committed.push_back(Ack::PubRec(ack));
        proof {
            assert(self.pending_view() =~= old(self).pending_view());
        }
    }

    /// Commits a publish-release ack.
    pub fn pubrel(&mut self, ack: PubRel)
        requires
            old(self).wf(),
        ensures
            final(self).wf(),
            final(self).committed_view() == old(self).committed_view().push(Ack::PubRel(ack)),
            final(self).recorded_view() == old(self).recorded_view(),
            final(self).pending_view() == old(self).pending_view(),
    {
        self.committed.push_back(Ack::PubRel(ack));
        proof {
            assert(self.pending_view() =~= old(self).pending_view());
        }
    }

    /// Commits a PubComp and hands back the oldest recorded publish, whose
    /// QoS-2 exchange is now complete.
    pub fn pubcomp(&mut self, ack: PubComp) -> (r: Option<Publish>)
        requires
            old(self).wf(),
        ensures
            final(self).wf(),
            final(self).committed_view() == old(self).committed_view().push(Ack::PubComp(ack)),
            final(self).pending_view() == old(self).pending_view(),
            ({
                if old(self).recorded_view().len() == 0 {
                    r is None && final(self).recorded_view() == old(self).recorded_view()
                } else {
                    (r matches Some(p) && p == old(self).recorded_view()[0] && final(self).recorded_view() == old(self).recorded_view().drop_first())
                }
            }),
    {
        self.committed.push_back(Ack::PubComp(ack));
        let r = self.recorded.pop_front();
        proof {
            assert(self.pending_view() =~= old(self).pending_view());
            if old(self).recorded_view().len() > 0 {
                assert(self.recorded_view() =~= old(self).recorded_view().drop_first());
            }
        }
        r
    }

    /// Commits a ping response.
    pub fn pingresp(&mut self, ack: PingResp)
        requires
            old(self).wf(),
        ensures
            final(self).wf(),
            final(self).committed_view() == old(self).committed_view().push(Ack::PingResp(ack)),
            final(self).recorded_view() == old(self).recorded_view(),
            final(self).pending_view() == old(self).pending_view(),
    {
        self.committed.push_back(Ack::PingResp(ack));
        proof {
            assert(self.pending_view() =~= old(self).pending_view());
        }
    }

    /// Commits an unsubscribe ack.
    pub fn unsuback(&mut self, ack: UnsubAck)
        requires
            old(self).wf(),
        ensures
            final(self).wf(),
            final(self).committed_view() == old(self).committed_view().push(Ack::UnsubAck(ack)),
            final(self).recorded_view() == old(self).recorded_view(),
            final(self).pending_view() == old(self).pending_view(),
    {
        self.committed.push_back(Ack::UnsubAck(ack));
        proof {
            assert(self.pending_view() =~= old(self).pending_view());
        }
    }

    /// Drains the committed queue for the driver to write to the wire.
    pub fn readv(&mut self) -> (r: VecDeque<Ack>)
        requires
            old(self).wf(),
        ensures
            final(self).wf(),
            r@ == old(self).committed_view(),
            final(self).committed_view() == Seq::<Ack>::empty(),
            final(self).recorded_view() == old(self).recorded_view(),
            final(self).pending_view() == old(self).pending_view(),
    {
        let mut r: VecDeque<Ack> = VecDeque::new();
        core::mem::swap(&mut r, &mut self.committed);
        proof {
            assert(self.pending_view() =~= old(self).pending_view());
        }
        r
    }

    fn head_releasable(&self) -> (r: bool)
        requires
            self.pending_view().len() > 0,
        ensures
            r == releasable(self.pending_view()[0]),
    {
        let ghost rec = self.pending_view()[0];
        let n = self.deferred_acks[0].filter_publish_markers.len();
        let mut k: usize = 0;
        while k < n
            invariant
                rec == self.pending_view()[0],
                self.deferred_acks@.len() > 0,
                n == rec.markers.len(),
                k <= n,
                forall|j: int|
                    0 <= j < k ==> (threshold_of(rec.thresholds, (#[trigger] rec.markers[j]).0)
                        matches Some(m) && offset_le(rec.markers[j].1, m)),
            decreases n - k,
        {
            let (f, o) = self.deferred_acks[0].filter_publish_markers[k];
            proof {
                assert(rec.markers[k as int] == (f, o));
            }
            match Self::threshold_lookup(&self.deferred_acks[0].filter_thresholds, f) {
                Some(m) => {
                    if !crate::offset_le_exec(o, m) {
                        return false;
                    }
                },
                None => {
                    return false;
                },
            }
            k += 1;
        }
        true
    }

    fn threshold_lookup(thresholds: &Vec<(FilterIdx, Offset)>, f: FilterIdx) -> (r: Option<Offset>)
        ensures
            r == threshold_of(thresholds@, f),
    {
        let ghost thr = thresholds@;
        let n = thresholds.len();
        let mut i: usize = 0;
        proof {
            assert(thr.skip(0) =~= thr);
        }
        while i < n
            invariant
                thr == thresholds@,
                n == thr.len(),
                i <= n,
                threshold_of(thr, f) == threshold_of(thr.skip(i as int), f),
            decreases n - i,
        {
            proof {
                assert(thr.skip(i as int)[0] == thr[i as int]);
                assert(thr.skip(i as int).drop_first() =~= thr.skip(i as int + 1));
            }
            if thresholds[i].0 == f {
                return Some(thresholds[i].1);
            }
            i += 1;
        }
        None
    }

    fn release_pending(&mut self)
        requires
            old(self).wf(),
        ensures
            final(self).wf(),
            final(self).recorded_view() == old(self).recorded_view(),
            ({
                let k = release_count(old(self).pending_view());
                &&& final(self).committed_view() == old(self).committed_view() + acks_of(
                    old(self).pending_view().take(k),
                )
                &&& final(self).pending_view() == old(self).pending_view().skip(k)
            }),
    {
        let ghost orig = self.pending_view();
        let ghost i: int = 0;
        proof {
            assert(orig.take(0) =~= Seq::<DeferredAckView>::empty());
            assert(acks_of(orig.take(0)) =~= Seq::<Ack>::empty());
            assert(self.committed_view() =~= old(self).committed_view() + acks_of(orig.take(0)));
            assert(orig.skip(0) =~= orig);
        }
        while self.deferred_acks.len() > 0 && self.head_releasable()
            invariant
                orig == old(self).pending_view(),
                self.recorded_view() == old(self).recorded_view(),
                0 <= i <= orig.len(),
                self.pending_view() == orig.skip(i),
                self.committed_view() == old(self).committed_view() + acks_of(orig.take(i)),
                release_count(orig) == i + release_count(orig.skip(i)),
            decreases orig.len() - i,
        {
            let ghost pre_pending = self.pending_view();
            let ghost pre_da = self.deferred_acks@;
            let head = self.deferred_acks.remove(0);
            self.committed.push_back(Ack::PubAck(head.puback));
            proof {
                assert(pre_pending == orig.skip(i));
                assert(orig.skip(i)[0] == orig[i]);
                assert(pre_pending[0] == pre_da[0]@);
                assert(head == pre_da[0]);
                assert(head.puback == orig[i].puback);
                assert forall|k: int| 0 <= k < self.pending_view().len() implies
                    self.pending_view()[k] == orig.skip(i + 1)[k] by {
                    assert(self.deferred_acks@[k] == pre_da[k + 1]);
                    assert(pre_pending[k + 1] == pre_da[k + 1]@);
                    assert(orig.skip(i)[k + 1] == orig[i + 1 + k]);
                    assert(orig.skip(i + 1)[k] == orig[i + 1 + k]);
                }
                assert(self.pending_view() =~= orig.skip(i + 1));
                assert(orig.take(i + 1).drop_last() =~= orig.take(i));
                assert(orig.take(i + 1).last() == orig[i]);
                assert(acks_of(orig.take(i + 1)) =~= acks_of(orig.take(i)).push(
                    Ack::PubAck(orig[i].puback),
                ));
                assert(self.committed_view() =~= old(self).committed_view() + acks_of(
                    orig.take(i + 1),
                ));
                assert(release_count(orig.skip(i)) == 1 + release_count(orig.skip(i + 1))) by {
                    assert(releasable(orig.skip(i)[0]));
                    assert(orig.skip(i).skip(1) =~= orig.skip(i + 1));
                }
                i = i + 1;
            }
        }
        proof {
            if self.pending_view().len() == 0 {
                assert(release_count(orig.skip(i)) == 0);
            } else {
                assert(!releasable(orig.skip(i)[0]));
                assert(release_count(orig.skip(i)) == 0);
            }
            assert(release_count(orig) == i);
            assert(orig.take(i) =~= orig.take(release_count(orig)));
            assert forall|j: int| 0 <= j < self.pending_view().len() implies thresholds_unique(
                (#[trigger] self.pending_view()[j]).thresholds,
            ) by {
                assert(self.pending_view()[j] == orig[i + j]);
            }
        }
    }

    /// Defers the PubAck for one inbound QoS-1 publish; with no matching
    /// filters it is committed immediately. `offset_map` holds, per matching
    /// filter, the offset at which the publish landed; a filter routed twice
    /// appears twice and both offsets must be crossed. The new record starts
    /// with no thresholds, so this call never commits a deferred ack: only
    /// threshold updates arriving later can.
    pub fn insert_pending_acks(&mut self, puback: PubAck, offset_map: Vec<(FilterIdx, Offset)>)
        requires
            old(self).wf(),
        ensures
            final(self).wf(),
            final(self).recorded_view() == old(self).recorded_view(),
            ({
                if offset_map@.len() == 0 {
                    final(self).committed_view() == old(self).committed_view().push(
                        Ack::PubAck(puback),
                    ) && final(self).pending_view() == old(self).pending_view()
                } else {
                    final(self).committed_view() == old(self).committed_view() && final(self).pending_view() == old(self).pending_view().push(
                        DeferredAckView {
                            puback,
                            markers: offset_map@,
                            thresholds: Seq::empty(),
                        },
                    )
                }
            }),
    {
        if offset_map.len() == 0 {
            self.puback(puback);
        } else {
            self.deferred_acks.push(
                DeferredAck {
                    puback,
                    filter_publish_markers: offset_map,
                    filter_thresholds: Vec::new(),
                },
            );
            proof {
                assert(self.pending_view() =~= old(self).pending_view().push(
                    self.deferred_acks@.last()@,
                ));
                assert forall|j: int| 0 <= j < self.pending_view().len() implies thresholds_unique(
                    (#[trigger] self.pending_view()[j]).thresholds,
                ) by {
                    if j < old(self).pending_view().len() {
                        assert(self.pending_view()[j] == old(self).pending_view()[j]);
                    }
                }
            }
        }
    }

    /// Records on every deferred ack containing `filter` that its
    /// subscribers have persisted data up to `offset`, then releases every
    /// deferred ack this satisfies, in insertion order.
    pub fn update_threshold(&mut self, filter: FilterIdx, offset: Offset)
        requires
            old(self).wf(),
        ensures
            final(self).wf(),
            final(self).recorded_view() == old(self).recorded_view(),
            ({
                let mid = old(self).pending_view().map_values(
                    |r: DeferredAckView| record_after_update(r, filter, offset),
                );
                let k = release_count(mid);
                final(self).committed_view() == old(self).committed_view() + acks_of(mid.take(k))
                    && final(self).pending_view() == mid.skip(k)
            }),
    {
        let ghost mid = old(self).pending_view().map_values(
            |r: DeferredAckView| record_after_update(r, filter, offset),
        );
        let n = self.deferred_acks.len();
        let mut i: usize = 0;
        while i < n
            invariant
                old(self).wf(),
                mid == old(self).pending_view().map_values(
                    |r: DeferredAckView| record_after_update(r, filter, offset),
                ),
                n == self.pending_view().len(),
                n == old(self).pending_view().len(),
                i <= n,
                self.committed_view() == old(self).committed_view(),
                self.recorded_view() == old(self).recorded_view(),
                forall|j: int| i <= j < n ==> #[trigger] self.pending_view()[j] == old(self).pending_view()[j],
                forall|j: int| 0 <= j < i ==> #[trigger] self.pending_view()[j] == mid[j],
                forall|j: int|
                    0 <= j < n ==> thresholds_unique(
                        (#[trigger] self.pending_view()[j]).thresholds,
                    ),
            decreases n - i,
        {
            let ghost pre = *self;
            let mut tmp = DeferredAck {
                puback: PubAck { pkid: 0, reason: 0 },
                filter_publish_markers: Vec::new(),
                filter_thresholds: Vec::new(),
            };
            vstd::pervasive::VecAdditionalExecFns::set_and_swap(
                &mut self.deferred_acks,
                i,
                &mut tmp,
            );
            proof {
                assert(tmp@ == pre.pending_view()[i as int]);
            }
            let ghost rec = tmp@;
            if Self::markers_contain(&tmp.filter_publish_markers, filter) {
                Self::upsert(&mut tmp.filter_thresholds, filter, offset);
            }
            let ghost newrec = tmp@;
            proof {
                assert(newrec == record_after_update(rec, filter, offset));
                assert(thresholds_unique(newrec.thresholds));
            }
            vstd::pervasive::VecAdditionalExecFns::set_and_swap(
                &mut self.deferred_acks,
                i,
                &mut tmp,
            );
            proof {
                assert forall|j: int| 0 <= j < n && j != i implies self.pending_view()[j]
                    == pre.pending_view()[j] by {
                    assert(self.deferred_acks@[j] == pre.deferred_acks@[j]);
                }
                assert(self.pending_view()[i as int] == record_after_update(rec, filter, offset));
                assert(mid[i as int] == record_after_update(
                    old(self).pending_view()[i as int],
                    filter,
                    offset,
                ));
                assert forall|j: int| i as int + 1 <= j < n implies #[trigger] self.pending_view()[j]
                    == old(self).pending_view()[j] by {
                    assert(self.pending_view()[j] == pre.pending_view()[j]);
                    assert(pre.pending_view()[j] == old(self).pending_view()[j]);
                }
                assert forall|j: int| 0 <= j < i as int + 1 implies #[trigger] self.pending_view()[j]
                    == mid[j] by {
                    if j < i as int {
                        assert(self.pending_view()[j] == pre.pending_view()[j]);
                        assert(pre.pending_view()[j] == mid[j]);
                    } else {
                        assert(rec == pre.pending_view()[j]);
                        assert(pre.pending_view()[j] == old(self).pending_view()[j]);
                    }
                }
                assert forall|j: int| 0 <= j < n implies thresholds_unique(
                    (#[trigger] self.pending_view()[j]).thresholds,
                ) by {
                    if j != i as int {
                        assert(self.pending_view()[j] == pre.pending_view()[j]);
                        assert(thresholds_unique(pre.pending_view()[j].thresholds));
                    } else {
                        assert(self.pending_view()[j] == newrec);
                    }
                }
            }
            i += 1;
        }
        proof {
            assert(self.pending_view() =~= mid);
        }
        self.release_pending();
    }

    fn markers_contain(markers: &Vec<(FilterIdx, Offset)>, f: FilterIdx) -> (r: bool)
        ensures
            r == contains_filter(markers@, f),
    {
        let n = markers.len();
        let mut k: usize = 0;
        while k < n
            invariant
                n == markers@.len(),
                k <= n,
                forall|j: int| 0 <= j < k ==> (#[trigger] markers@[j]).0 != f,
            decreases n - k,
        {
            if markers[k].0 == f {
                return true;
            }
            k += 1;
        }
        false
    }

    fn upsert(thresholds: &mut Vec<(FilterIdx, Offset)>, f: FilterIdx, m: Offset)
        requires
            thresholds_unique(old(thresholds)@),
        ensures
            final(thresholds)@ == upsert_threshold(old(thresholds)@, f, m),
            thresholds_unique(final(thresholds)@),
    {
        let ghost keypred = |e: (FilterIdx, Offset)| e.0 == f;
        proof {
            crate::lemma_index_of_first(thresholds@, keypred);
            lemma_index_of_first_threshold(thresholds@, f);
        }
        let n = thresholds.len();
        let mut t: usize = 0;
        let mut found = false;
        while t < n && !found
            invariant
                keypred == (|e: (FilterIdx, Offset)| e.0 == f),
                n == thresholds@.len(),
                t <= n,
                thresholds@ == old(thresholds)@,
                thresholds_unique(old(thresholds)@),
                !found ==> forall|j: int| 0 <= j < t ==> !keypred(#[trigger] thresholds@[j]),
                found ==> t < n && keypred(thresholds@[t as int]),
            decreases n - t + (if found {
                0int
            } else {
                1int
            }),
        {
            if thresholds[t].0 == f {
                found = true;
            } else {
                t += 1;
            }
        }
        if found {
            thresholds.set(t, (f, m));
            proof {
                crate::lemma_index_of_first(old(thresholds)@, keypred);
                lemma_index_of_first_threshold(old(thresholds)@, f);
                assert(crate::index_of_first(old(thresholds)@, keypred) == t as int);
                assert forall|i: int, j: int|
                    0 <= i < j < thresholds@.len() implies (#[trigger] thresholds@[i]).0 != (
                #[trigger] thresholds@[j]).0 by {
                    if i != t as int && j != t as int {
                        assert(thresholds@[i] == old(thresholds)@[i]);
                        assert(thresholds@[j] == old(thresholds)@[j]);
                    } else if i == t as int {
                        assert(old(thresholds)@[j].0 != f);
                    } else {
                        assert(old(thresholds)@[i].0 != f);
                    }
                }
            }
        } else {
            thresholds.push((f, m));
            proof {
                crate::lemma_index_of_first(old(thresholds)@, keypred);
                lemma_index_of_first_threshold(old(thresholds)@, f);
                assert forall|i: int, j: int|
                    0 <= i < j < thresholds@.len() implies (#[trigger] thresholds@[i]).0 != (
                #[trigger] thresholds@[j]).0 by {
                    if j == thresholds@.len() - 1 {
                        assert(!keypred(old(thresholds)@[i]));
                    }
                }
            }
        }
    }
}

/// Index of the threshold entry for `f`, or `-1`.
pub open spec fn index_of_first_threshold(thr: Seq<(FilterIdx, Offset)>, f: FilterIdx) -> int
    decreases thr.len(),
{
    if thr.len() == 0 {
        -1
    } else if thr[0].0 == f {
        0
    } else {
        let r = index_of_first_threshold(thr.drop_first(), f);
        if r == -1 {
            -1
        } else {
            r + 1
        }
    }
}

proof fn lemma_index_of_first_threshold(thr: Seq<(FilterIdx, Offset)>, f: FilterIdx)
    ensures
        index_of_first_threshold(thr, f) == crate::index_of_first(
            thr,
            |e: (FilterIdx, Offset)| e.0 == f,
        ),
    decreases thr.len(),
{
    if thr.len() > 0 && thr[0].0 != f {
        lemma_index_of_first_threshold(thr.drop_first(), f);
    }
}

} // verus!
