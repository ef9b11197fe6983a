//! Per-filter read markers: the offset up to which each subscriber has
//! persisted data, with a cached slowest offset over all subscribers.
use crate::{offset_le, offset_lt, ConnectionId, Offset};
use vstd::prelude::*;

verus! {

/// Least offset among the marker entries, or `None` when there are none.
/// An earlier entry wins a tie.
pub open spec fn min_offset_of(s: Seq<(ConnectionId, Offset)>) -> Option<Offset>
    decreases s.len(),
{
    if s.len() == 0 {
        None
    } else {
        match min_offset_of(s.drop_last()) {
            None => Some(s.last().1),
            Some(m) => if offset_le(m, s.last().1) {
                Some(m)
            } else {
                Some(s.last().1)
            },
        }
    }
}

/// The marker sequence after setting `id`'s offset to `off`: the first entry
/// for `id` is overwritten in place, or a new entry is appended.
pub open spec fn upsert_marker(
    s: Seq<(ConnectionId, Offset)>,
    id: ConnectionId,
    off: Offset,
) -> Seq<(ConnectionId, Offset)> {
    if exists|k: int| 0 <= k < s.len() && s[k].0 == id {
        let k = choose|k: int| 0 <= k < s.len() && s[k].0 == id;
        s.update(k, (id, off))
    } else {
        s.push((id, off))
    }
}

/// True when the cached slowest marker strictly advanced from `prev` to
/// `cur`, in the order where no marker sorts before every marker.
pub open spec fn slowest_advanced(prev: Option<Offset>, cur: Option<Offset>) -> bool {
    match (prev, cur) {
        (None, Some(_)) => true,
        (Some(a), Some(b)) => offset_lt(a, b),
        _ => false,
    }
}

pub proof fn lemma_min_le_all(s: Seq<(ConnectionId, Offset)>)
    ensures
        min_offset_of(s) is None <==> s.len() == 0,
        min_offset_of(s) matches Some(m) ==> forall|k: int|
            0 <= k < s.len() ==> offset_le(m, #[trigger] s[k].1),
        min_offset_of(s) matches Some(m) ==> exists|k: int| 0 <= k < s.len() && s[k].1 == m,
    decreases s.len(),
{
    if s.len() > 0 {
        lemma_min_le_all(s.drop_last());
        let m = min_offset_of(s)->Some_0;
        assert forall|k: int| 0 <= k < s.len() implies offset_le(m, #[trigger] s[k].1) by {
            if k < s.len() - 1 {
                assert(s.drop_last()[k] == s[k]);
            }
        }
        if min_offset_of(s.drop_last()) is Some && offset_le(
            min_offset_of(s.drop_last())->Some_0,
            s.last().1,
        ) {
            let p = min_offset_of(s.drop_last())->Some_0;
            let k = choose|k: int| 0 <= k < s.drop_last().len() && s.drop_last()[k].1 == p;
            assert(s[k].1 == p);
        } else {
            assert(s[s.len() - 1].1 == m);
        }
    }
}

pub proof fn lemma_all_ge_min(s: Seq<(ConnectionId, Offset)>, m: Offset)
    requires
        s.len() > 0,
        forall|k: int| 0 <= k < s.len() ==> offset_le(m, #[trigger] s[k].1),
    ensures
        min_offset_of(s) matches Some(p) && offset_le(m, p),
    decreases s.len(),
{
    assert(offset_le(m, s[s.len() - 1].1));
    if s.len() > 1 {
        assert forall|k: int| 0 <= k < s.drop_last().len() implies offset_le(
            m,
            #[trigger] s.drop_last()[k].1,
        ) by {
            assert(s.drop_last()[k] == s[k]);
        }
        lemma_all_ge_min(s.drop_last(), m);
    }
}

/// Law: the slowest marker never moves backwards when a subscriber is added
/// or advanced at an offset at or past the current slowest marker. (Adding a
/// subscriber at an offset before the current slowest marker moves it back.)
pub proof fn lemma_slowest_monotone(pre: Seq<(ConnectionId, Offset)>, id: ConnectionId, off: Offset)
    requires
        min_offset_of(pre) matches Some(m) ==> offset_le(m, off),
    ensures
        min_offset_of(pre) matches Some(m) ==> min_offset_of(upsert_marker(pre, id, off))
            matches Some(p) && offset_le(m, p),
{
    if min_offset_of(pre) is Some {
        let m = min_offset_of(pre)->Some_0;
        let post = upsert_marker(pre, id, off);
        lemma_min_le_all(pre);
        assert forall|k: int| 0 <= k < post.len() implies offset_le(m, #[trigger] post[k].1) by {
            if k < pre.len() && post[k] != (id, off) {
                assert(post[k] == pre[k]);
            }
        }
        lemma_all_ge_min(post, m);
    }
}

/// Tracks, for one filter, each subscriber's persisted offset and the cached
/// minimum over all of them.
pub struct ReadMarker {
    subscriber_markers: Vec<(ConnectionId, Offset)>,
    slowest_marker: Option<Offset>,
}

impl ReadMarker {
    /// The per-subscriber marker entries, in registration order.
    pub closed spec fn markers(self) -> Seq<(ConnectionId, Offset)> {
        self.subscriber_markers@
    }

    /// The cached slowest marker.
    pub closed spec fn slowest(self) -> Option<Offset> {
        self.slowest_marker
    }

    /// Each subscriber has one entry and the cache equals the true minimum.
    pub open spec fn wf(self) -> bool {
        &&& forall|i: int, j: int|
            0 <= i < j < self.markers().len() ==> (#[trigger] self.markers()[i]).0 != (
            #[trigger] self.markers()[j]).0
        &&& self.slowest() == min_offset_of(self.markers())
    }

    /// An empty marker set.
    pub fn new() -> (r: ReadMarker)
        ensures
            r.wf(),
            r.markers() == Seq::<(ConnectionId, Offset)>::empty(),
            r.slowest() is None,
    {
        ReadMarker { subscriber_markers: Vec::new(), slowest_marker: None }
    }

    fn compute_slowest(&self) -> (r: Option<Offset>)
        ensures
            r == min_offset_of(self.markers()),
    {
        let n = self.subscriber_markers.len();
        let mut best: Option<Offset> = None;
        let mut i: usize = 0;
        proof {
            assert(self.markers().take(0) =~= Seq::<(ConnectionId, Offset)>::empty());
        }
        while i < n
            invariant
                n == self.markers().len(),
                i <= n,
                best == min_offset_of(self.markers().take(i as int)),
            decreases n - i,
        {
            let v = self.subscriber_markers[i].1;
            proof {
                assert(self.markers().take(i as int + 1).drop_last() =~= self.markers().take(
                    i as int,
                ));
                assert(self.markers().take(i as int + 1).last() == self.markers()[i as int]);
            }
            best = match best {
                None => Some(v),
                Some(m) => if crate::offset_le_exec(m, v) {
                    Some(m)
                } else {
                    Some(v)
                },
            };
            i += 1;
        }
        proof {
            assert(self.markers().take(n as int) =~= self.markers());
        }
        best
    }

    /// Sets this subscriber's persisted offset (last write wins), recomputes
    /// the slowest marker, and reports whether it strictly advanced.
    pub fn update_subscriber_marker(&mut self, subscriber_id: ConnectionId, marker: Offset) -> (r:
        bool)
        requires
            old(self).wf(),
        ensures
            final(self).wf(),
            final(self).markers() == upsert_marker(old(self).markers(), subscriber_id, marker),
            r == slowest_advanced(old(self).slowest(), final(self).slowest()),
    {
        let ghost pre = self.markers();
        let n = self.subscriber_markers.len();
        let mut i: usize = 0;
        let mut found = false;
        while i < n && !found
            invariant
                n == self.markers().len(),
                i <= n,
                self.markers() == pre,
                !found ==> forall|k: int| 0 <= k < i ==> (#[trigger] pre[k]).0 != subscriber_id,
                found ==> i < n && pre[i as int].0 == subscriber_id,
            decreases n - i + (if found {
                0int
            } else {
                1int
            }),
        {
            if self.subscriber_markers[i].0 == subscriber_id {
                found = true;
            } else {
                i += 1;
            }
        }
        if found {
            self.subscriber_markers.set(i, (subscriber_id, marker));
            proof {
                let k = choose|k: int| 0 <= k < pre.len() && pre[k].0 == subscriber_id;
                assert(k == i as int);
            }
        } else {
            self.subscriber_markers.push((subscriber_id, marker));
            proof {
                assert(forall|k: int| 0 <= k < pre.len() ==> (#[trigger] pre[k]).0 != subscriber_id);
            }
        }
        let prev = self.slowest_marker;
        let slow = self.compute_slowest();
        self.slowest_marker = slow;
        proof {
            assert forall|a: int, b: int|
                0 <= a < b < self.markers().len() implies (#[trigger] self.markers()[a]).0 != (
            #[trigger] self.markers()[b]).0 by {
                if b < pre.len() {
                } else {
                    assert(self.markers()[b].0 == subscriber_id);
                }
            }
        }
        match (prev, slow) {
            (None, Some(_)) => true,
            (Some(a), Some(b)) => crate::offset_lt_exec(a, b),
            _ => false,
        }
    }

    /// The cached slowest persisted offset over all subscribers of this
    /// filter, or `None` when none is registered.
    pub fn get_slowest_marker(&self) -> (r: Option<Offset>)
        ensures
            r == self.slowest(),
    {
        self.slowest_marker
    }

    /// Drops this subscriber's entry, recomputes the slowest marker, and
    /// reports whether it strictly advanced.
    pub fn remove_subscriber(&mut self, subscriber_id: ConnectionId) -> (r: bool)
        requires
            old(self).wf(),
        ensures
            final(self).wf(),
            final(self).markers() == old(self).markers().filter(
                |e: (ConnectionId, Offset)| e.0 != subscriber_id,
            ),
            r == slowest_advanced(old(self).slowest(), final(self).slowest()),
    {
        let ghost pre = self.markers();
        let ghost pred = |e: (ConnectionId, Offset)| e.0 != subscriber_id;
        let n = self.subscriber_markers.len();
        let mut kept: Vec<(ConnectionId, Offset)> = Vec::new();
        let mut i: usize = 0;
        proof {
            reveal(Seq::filter);
            assert(pre.take(0) =~= Seq::<(ConnectionId, Offset)>::empty());
        }
        while i < n
            invariant
                n == pre.len(),
                i <= n,
                self.markers() == pre,
                pred == (|e: (ConnectionId, Offset)| e.0 != subscriber_id),
                kept@ == pre.take(i as int).filter(pred),
                forall|i2: int, j2: int|
                    0 <= i2 < j2 < pre.len() ==> (#[trigger] pre[i2]).0 != (#[trigger] pre[j2]).0,
                forall|k: int|
                    0 <= k < kept@.len() ==> exists|j: int|
                        0 <= j < i && #[trigger] kept@[k] == pre[j],
                forall|a: int, b: int|
                    0 <= a < b < kept@.len() ==> (#[trigger] kept@[a]).0 != (#[trigger] kept@[b]).0,
            decreases n - i,
        {
            let e = self.subscriber_markers[i];
            proof {
                reveal(Seq::filter);
                assert(pre.take(i as int + 1).drop_last() =~= pre.take(i as int));
                assert(pre.take(i as int + 1).last() == pre[i as int]);
            }
            if e.0 != subscriber_id {
                let ghost pre_kept = kept@;
                kept.push(e);
                proof {
                    assert forall|k: int| 0 <= k < kept@.len() implies exists|j: int|
                        0 <= j < i + 1 && #[trigger] kept@[k] == pre[j] by {
                        if k < pre_kept.len() {
                            let j = choose|j: int| 0 <= j < i && pre_kept[k] == pre[j];
                            assert(kept@[k] == pre[j]);
                        } else {
                            assert(kept@[k] == pre[i as int]);
                        }
                    }
                    assert forall|a: int, b: int| 0 <= a < b < kept@.len() implies (
                    #[trigger] kept@[a]).0 != (#[trigger] kept@[b]).0 by {
                        if b == kept@.len() - 1 {
                            let j = choose|j: int| 0 <= j < i && pre_kept[a] == pre[j];
                            assert(kept@[a] == pre[j]);
                            assert(kept@[b] == pre[i as int]);
                        }
                    }
                }
            }
            proof {
                reveal(Seq::filter);
                let t1 = pre.take(i as int + 1);
                assert(t1.len() == i + 1);
                assert(t1.drop_last() =~= pre.take(i as int));
                assert(t1.last() == pre[i as int]);
                assert(pred(pre[i as int]) == (pre[i as int].0 != subscriber_id));
                if pred(pre[i as int]) {
                    assert(t1.filter(pred) == t1.drop_last().filter(pred).push(t1.last()));
                } else {
                    assert(t1.filter(pred) == t1.drop_last().filter(pred));
                }
                assert(kept@ == t1.filter(pred));
            }
            i += 1;
        }
        proof {
            assert(pre.take(n as int) =~= pre);
        }
        self.subscriber_markers = kept;
        let prev = self.slowest_marker;
        let slow = self.compute_slowest();
        self.slowest_marker = slow;
        match (prev, slow) {
            (None, Some(_)) => true,
            (Some(a), Some(b)) => crate::offset_lt_exec(a, b),
            _ => false,
        }
    }
}

impl Default for ReadMarker {
    /// An empty marker set.
    fn default() -> (r: ReadMarker)
        ensures
            r.wf(),
            r.markers() == Seq::<(ConnectionId, Offset)>::empty(),
            r.slowest() is None,
    {
        ReadMarker::new()
    }
}

} // verus!
