//! Segmented, bounded, append-only commit log of publishes for one filter.
//! Items live in segments of bounded byte size; when too many segments are
//! live the oldest is evicted, and readers beyond the retained window are
//! jumped forward to the oldest live offset.
use crate::protocol::{Publish, PublishView};
use crate::{offset_le, offset_lt, CoreError, Offset};
use vstd::prelude::*;

verus! {

/// Where a read left off: `Next` means more data may already be there,
/// `Done` means the reader caught up and should park until notified.
#[derive(Clone, Copy, Debug)]
pub enum Position {
    Next(Offset),
    Done(Offset),
}

struct Segment {
    data: Vec<Publish>,
    size: usize,
}

/// The items of `segs[i..]` at positions `>= pos` in segment `i`, in log
/// order; `pos` is clamped to the segment's length.
pub open spec fn flat_from(segs: Seq<Seq<PublishView>>, i: int, pos: int) -> Seq<PublishView>
    decreases segs.len() - i,
{
    if i < 0 || i >= segs.len() {
        Seq::empty()
    } else {
        let s = segs[i];
        let p = if pos < 0 {
            0
        } else if pos > s.len() {
            s.len() as int
        } else {
            pos
        };
        s.skip(p) + flat_from(segs, i + 1, 0)
    }
}

proof fn lemma_push_concat(a: Seq<PublishView>, b: Seq<PublishView>, x: PublishView)
    ensures
        a + b.push(x) =~= (a + b).push(x),
{
}

proof fn lemma_flat_append_last(
    pre: Seq<Seq<PublishView>>,
    post: Seq<Seq<PublishView>>,
    x: PublishView,
    i: int,
    pos: int,
)
    requires
        pre.len() >= 1,
        post == pre.update(pre.len() - 1, pre.last().push(x)),
        0 <= i < pre.len(),
        i == pre.len() - 1 ==> pos <= pre.last().len(),
    ensures
        flat_from(post, i, pos) == flat_from(pre, i, pos).push(x),
    decreases pre.len() - i,
{
    assert(post.len() == pre.len());
    if i == pre.len() - 1 {
        let p = if pos < 0 {
            0
        } else {
            pos
        };
        assert(post[i] == pre.last().push(x));
        assert(post[i].skip(p) =~= pre.last().skip(p).push(x));
        assert(flat_from(post, i + 1, 0) =~= Seq::<PublishView>::empty());
        assert(flat_from(pre, i + 1, 0) =~= Seq::<PublishView>::empty());
        assert(flat_from(post, i, pos) =~= flat_from(pre, i, pos).push(x));
    } else {
        assert(post[i] == pre[i]);
        lemma_flat_append_last(pre, post, x, i + 1, 0);
        let s = pre[i];
        let p = if pos < 0 {
            0
        } else if pos > s.len() {
            s.len() as int
        } else {
            pos
        };
        lemma_push_concat(s.skip(p), flat_from(pre, i + 1, 0), x);
        assert(flat_from(post, i, pos) == s.skip(p) + flat_from(pre, i + 1, 0).push(x));
    }
}

proof fn lemma_flat_push_seg(
    pre: Seq<Seq<PublishView>>,
    post: Seq<Seq<PublishView>>,
    x: PublishView,
    i: int,
    pos: int,
)
    requires
        post == pre.push(seq![x]),
        0 <= i <= pre.len(),
        i == pre.len() ==> pos <= 0,
    ensures
        flat_from(post, i, pos) == flat_from(pre, i, pos).push(x),
    decreases pre.len() - i + 1,
{
    if i == pre.len() {
        assert(post[i] == seq![x]);
        let p = if pos < 0 {
            0
        } else {
            pos
        };
        assert(post[i].skip(p) =~= seq![x]);
        assert(flat_from(post, i + 1, 0) =~= Seq::<PublishView>::empty());
        assert(flat_from(pre, i, pos) =~= Seq::<PublishView>::empty());
        assert(flat_from(post, i, pos) =~= flat_from(pre, i, pos).push(x));
    } else {
        assert(post[i] == pre[i]);
        lemma_flat_push_seg(pre, post, x, i + 1, 0);
        let s = pre[i];
        let p = if pos < 0 {
            0
        } else if pos > s.len() {
            s.len() as int
        } else {
            pos
        };
        lemma_push_concat(s.skip(p), flat_from(pre, i + 1, 0), x);
        assert(flat_from(post, i, pos) == s.skip(p) + flat_from(pre, i + 1, 0).push(x));
    }
}

proof fn lemma_flat_skip_first(pre: Seq<Seq<PublishView>>, i: int, pos: int)
    requires
        0 <= i,
        pre.len() >= 1,
    ensures
        flat_from(pre.skip(1), i, pos) == flat_from(pre, i + 1, pos),
    decreases pre.len() - i,
{
    if i < pre.skip(1).len() {
        assert(pre.skip(1)[i] == pre[i + 1]);
        lemma_flat_skip_first(pre, i + 1, 0);
    }
}

proof fn lemma_flat_step(segs: Seq<Seq<PublishView>>, i: int, pos: int)
    requires
        0 <= i < segs.len(),
        0 <= pos < segs[i].len(),
    ensures
        flat_from(segs, i, pos) == seq![segs[i][pos]] + flat_from(segs, i, pos + 1),
{
    assert(segs[i].skip(pos) =~= seq![segs[i][pos]] + segs[i].skip(pos + 1));
    assert((seq![segs[i][pos]] + segs[i].skip(pos + 1)) + flat_from(segs, i + 1, 0)
        =~= seq![segs[i][pos]] + (segs[i].skip(pos + 1) + flat_from(segs, i + 1, 0)));
}

proof fn lemma_flat_seg_end(segs: Seq<Seq<PublishView>>, i: int, pos: int)
    requires
        0 <= i < segs.len(),
        pos >= segs[i].len(),
    ensures
        flat_from(segs, i, pos) == flat_from(segs, i + 1, 0),
{
    assert(segs[i].skip(segs[i].len() as int) =~= Seq::<PublishView>::empty());
    assert(Seq::<PublishView>::empty() + flat_from(segs, i + 1, 0) =~= flat_from(segs, i + 1, 0));
}

/// Append-only log of publishes, split into segments of bounded byte size,
/// with at most a configured number of live segments.
pub struct CommitLog {
    max_segment_size: usize,
    max_segment_count: usize,
    head: u64,
    segments: Vec<Segment>,
}

impl CommitLog {
    /// Per-segment item sequences, oldest first; the last one is active.
    pub closed spec fn segs(self) -> Seq<Seq<PublishView>> {
        self.segments@.map_values(|s: Segment| s.data.deep_view())
    }

    /// Segment id of the oldest live segment.
    pub closed spec fn head_id(self) -> u64 {
        self.head
    }

    /// Configured bound on the number of live segments.
    pub closed spec fn seg_limit(self) -> int {
        self.max_segment_count as int
    }

    /// Structural invariant: at least one live segment, ids fit in `u64`,
    /// the segment count respects its bound, and only the active (last)
    /// segment may be empty — and only while it is the sole segment, so an
    /// empty active segment means the whole log is empty.
    pub open spec fn wf(self) -> bool {
        &&& self.segs().len() >= 1
        &&& self.head_id() + self.segs().len() <= u64::MAX
        &&& 1 <= self.seg_limit()
        &&& self.segs().len() <= self.seg_limit()
        &&& forall|i: int| 0 <= i < self.segs().len() - 1 ==> (#[trigger] self.segs()[i]).len() > 0
        &&& (self.segs().last().len() == 0 ==> self.segs().len() == 1)
    }

    /// Offset at which the next append will land.
    pub open spec fn next_offset_spec(self) -> Offset {
        (
            (self.head_id() + self.segs().len() - 1) as u64,
            self.segs().last().len() as u64,
        )
    }

    /// All items at or after `off`, in log order; an `off` before the oldest
    /// live offset covers everything still live.
    pub open spec fn items_from(self, off: Offset) -> Seq<PublishView> {
        if off.0 < self.head_id() {
            flat_from(self.segs(), 0, 0)
        } else {
            flat_from(self.segs(), off.0 - self.head_id(), off.1 as int)
        }
    }

    /// A fresh log with one empty segment numbered zero; rejects a zero
    /// segment size or count.
    pub fn new(max_segment_size: usize, max_segment_count: usize) -> (r: Result<
        CommitLog,
        CoreError,
    >)
        ensures
            match r {
                Ok(log) => {
                    &&& max_segment_size >= 1 && max_segment_count >= 1
                    &&& log.wf()
                    &&& log.head_id() == 0
                    &&& log.segs() =~= seq![Seq::<PublishView>::empty()]
                    &&& log.seg_limit() == max_segment_count
                    &&& log.next_offset_spec() == ((0u64, 0u64))
                },
                Err(e) => (max_segment_size == 0 || max_segment_count == 0) && e
                    == CoreError::InvalidConfig,
            },
    {
        if max_segment_size == 0 || max_segment_count == 0 {
            return Err(CoreError::InvalidConfig);
        }
        let mut segments: Vec<Segment> = Vec::new();
        segments.push(Segment { data: Vec::new(), size: 0 });
        let log = CommitLog { max_segment_size, max_segment_count, head: 0, segments };
        proof {
            assert(log.segs() =~= seq![log.segments@[0].data.deep_view()]);
            assert(log.segments@[0].data.deep_view() =~= Seq::<PublishView>::empty());
        }
        Ok(log)
    }

    /// Offset where the next append will land.
    pub fn next_offset(&self) -> (r: Offset)
        requires
            self.wf(),
        ensures
            r == self.next_offset_spec(),
    {
        let count = self.segments.len();
        (self.head + (count as u64 - 1), self.segments[count - 1].data.len() as u64)
    }

    /// Oldest and newest live segment id, for metering.
    pub fn head_and_tail(&self) -> (r: (u64, u64))
        requires
            self.wf(),
        ensures
            r.0 == self.head_id(),
            r.1 == self.head_id() + self.segs().len() - 1,
    {
        let count = self.segments.len();
        (self.head, self.head + (count as u64 - 1))
    }

    /// Clone of the most recently appended item; `None` only on a log that
    /// holds no item at all.
    pub fn last(&self) -> (r: Option<Publish>)
        requires
            self.wf(),
        ensures
            match r {
                Some(p) => self.segs().last().len() > 0 && p@ == self.segs().last().last(),
                None => self.segs() =~= seq![Seq::<PublishView>::empty()],
            },
    {
        let count = self.segments.len();
        let n = self.segments[count - 1].data.len();
        if n == 0 {
            proof {
                assert(self.segs()[count - 1] == self.segments@[count - 1].data.deep_view());
                assert(self.segs()[count - 1].len() == 0);
                assert(self.segs()[0] =~= Seq::<PublishView>::empty());
                assert(self.segs() =~= seq![Seq::<PublishView>::empty()]);
            }
            None
        } else {
            let p = self.segments[count - 1].data[n - 1].clone();
            proof {
                assert(self.segs()[count - 1] == self.segments@[count - 1].data.deep_view());
            }
            Some(p)
        }
    }

    /// Appends one item and returns the offset at which it landed: the old
    /// `next_offset`, or the first slot of a freshly opened segment when the
    /// active one had to be sealed. The oldest segment is evicted only when
    /// the count was at its bound; every other live item is preserved, and
    /// the item is readable at the returned offset.
    pub fn append(&mut self, item: Publish) -> (o: Offset)
        requires
            old(self).wf(),
        ensures
            final(self).wf(),
            final(self).seg_limit() == old(self).seg_limit(),
            offset_le(old(self).next_offset_spec(), o),
            old(self).segs().last().len() == 0 ==> o == old(self).next_offset_spec(),
            offset_lt(o, final(self).next_offset_spec()),
            o.0 >= final(self).head_id(),
            old(self).head_id() <= final(self).head_id() <= old(self).head_id() + 1,
            final(self).head_id() == old(self).head_id() + 1 ==> old(self).segs().len()
                == old(self).seg_limit(),
            forall|off: Offset|
                off.0 >= final(self).head_id() && offset_le(off, o) ==> final(self).items_from(off)
                    == old(self).items_from(off).push(item@),
    {
        let ghost pre = *self;
        let ghost itemv = item@;
        let size = item.size();
        let count = self.segments.len();
        let active_len = self.segments[count - 1].data.len();
        let active_size = self.segments[count - 1].size;
        let would_exceed = match active_size.checked_add(size) {
            Some(t) => t > self.max_segment_size,
            None => true,
        };
        let cnt64 = count as u64;
        let have_room = self.head < u64::MAX - cnt64;
        let ghost o_spec = pre.next_offset_spec();
        if active_len > 0 && would_exceed && have_room {
            // Seal the active segment; evict the oldest when over the bound.
            let evicted = count >= self.max_segment_count;
            if evicted {
                self.segments.remove(0);
                self.head = self.head + 1;
            }
            let ghost mid = *self;
            proof {
                if evicted {
                    assert forall|k: int| 0 <= k < mid.segs().len() implies mid.segs()[k]
                        == pre.segs().skip(1)[k] by {
                        assert(mid.segments@[k] == pre.segments@[k + 1]);
                    }
                    assert(mid.segs() =~= pre.segs().skip(1));
                } else {
                    assert(mid.segs() == pre.segs());
                }
            }
            let mut d: Vec<Publish> = Vec::new();
            d.push(item);
            let ghost dv = d.deep_view();
            proof {
                assert(dv =~= seq![itemv]);
            }
            self.segments.push(Segment { data: d, size });
            let newcount = self.segments.len();
            let o = (self.head + (newcount as u64 - 1), 0u64);
            proof {
                assert forall|k: int| 0 <= k < self.segs().len() implies self.segs()[k]
                    == mid.segs().push(seq![itemv])[k] by {
                    if k < mid.segments@.len() {
                        assert(self.segments@[k] == mid.segments@[k]);
                    } else {
                        assert(self.segments@[k].data.deep_view() == dv);
                    }
                }
                assert(self.segs() =~= mid.segs().push(seq![itemv]));
                assert(offset_le(o_spec, o));
                assert forall|off: Offset|
                    off.0 >= self.head_id() && offset_le(off, o) implies self.items_from(off)
                    == pre.items_from(off).push(itemv) by {
                    let i = off.0 - self.head_id();
                    assert(o.0 == self.head_id() + mid.segs().len());
                    assert(0 <= i <= mid.segs().len());
                    assert(i == mid.segs().len() ==> off.1 == 0);
                    lemma_flat_push_seg(mid.segs(), self.segs(), itemv, i, off.1 as int);
                    if evicted {
                        lemma_flat_skip_first(pre.segs(), i, off.1 as int);
                        assert(pre.items_from(off) == flat_from(pre.segs(), i + 1, off.1 as int));
                    }
                }
                assert(self.segs().last() =~= seq![itemv]);
                assert(offset_lt(o, self.next_offset_spec()));
                assert forall|k: int| 0 <= k < self.segs().len() - 1 implies (
                #[trigger] self.segs()[k]).len() > 0 by {
                    assert(self.segs()[k] == mid.segs()[k]);
                    if k < mid.segs().len() - 1 {
                        if evicted {
                            assert(mid.segs()[k] == pre.segs()[k + 1]);
                        }
                    } else {
                        assert(mid.segs()[k] == pre.segs().last());
                    }
                }
            }
            o
        } else {
            // Keep appending to the active segment.
            let mut active = match self.segments.pop() {
                Some(s) => s,
                None => {
                    proof {
                        assert(false);
                    }
                    unreached()
                },
            };
            let pos = active.data.len();
            let ghost pre_active = active.data.deep_view();
            let ghost pre_vec = active.data;
            active.data.push(item);
            proof {
                crate::lemma_vec_deep_view_push(pre_vec, active.data, item);
            }
            let ghost new_active = active.data.deep_view();
            active.size = match active.size.checked_add(size) {
                Some(t) => t,
                None => usize::MAX,
            };
            self.segments.push(active);
            let o = (self.head + (count as u64 - 1), pos as u64);
            proof {
                assert(pre.segs().last() == pre_active);
                assert(new_active == pre_active.push(itemv));
                assert forall|k: int| 0 <= k < self.segs().len() implies self.segs()[k]
                    == pre.segs().update(pre.segs().len() - 1, pre.segs().last().push(itemv))[k] by {
                    if k < count - 1 {
                        assert(self.segments@[k] == pre.segments@[k]);
                    } else {
                        assert(self.segments@[k].data.deep_view() == new_active);
                    }
                }
                assert(self.segs() =~= pre.segs().update(
                    pre.segs().len() - 1,
                    pre.segs().last().push(itemv),
                ));
                assert(o == o_spec);
                assert forall|off: Offset|
                    off.0 >= self.head_id() && offset_le(off, o) implies self.items_from(off)
                    == pre.items_from(off).push(itemv) by {
                    let i = off.0 - self.head_id();
                    assert(o.0 == self.head_id() + pre.segs().len() - 1);
                    assert(0 <= i < pre.segs().len());
                    lemma_flat_append_last(pre.segs(), self.segs(), itemv, i, off.1 as int);
                }
                assert(self.segs().last() == pre.segs().last().push(itemv));
                assert(self.segments@.last().data@.len() <= usize::MAX) by {
                    assert(vstd::std_specs::vec::spec_vec_len(&self.segments@.last().data)
                        == self.segments@.last().data@.len());
                }
                assert(offset_lt(o, self.next_offset_spec()));
                assert forall|k: int| 0 <= k < self.segs().len() - 1 implies (
                #[trigger] self.segs()[k]).len() > 0 by {
                    assert(self.segs()[k] == pre.segs()[k]);
                }
            }
            o
        }
    }

    /// Reads up to `len` items at or after `offset` into `out`. An offset in
    /// the evicted range yields `Next` at the oldest live offset with nothing
    /// pushed, so the caller retries from there. Otherwise the items are
    /// pushed in log order: `Done` at the next offset when fewer than `len`
    /// were available, else `Next` at the position right after the last item
    /// handed out.
    pub fn readv(&self, offset: Offset, len: u64, out: &mut Vec<Publish>) -> (r: Position)
        requires
            self.wf(),
        ensures
            offset.0 < self.head_id() ==> r == Position::Next((self.head_id(), 0u64))
                && final(out)@ == old(out)@,
            offset.0 >= self.head_id() ==> ({
                let avail = self.items_from(offset);
                let k = if len <= avail.len() {
                    len as int
                } else {
                    avail.len() as int
                };
                &&& final(out).deep_view() == old(out).deep_view() + avail.take(k)
                &&& (avail.len() < len ==> r == Position::Done(self.next_offset_spec()))
                &&& (avail.len() >= len ==> (r matches Position::Next(c) && c.0 >= self.head_id()
                    && self.items_from(c) == avail.skip(len as int)))
            }),
    {
        if offset.0 < self.head {
            return Position::Next((self.head, 0));
        }
        let count = self.segments.len();
        let sid64 = offset.0 - self.head;
        let no = self.next_offset();
        let ghost avail = self.items_from(offset);
        if sid64 >= count as u64 {
            proof {
                assert(avail =~= Seq::<PublishView>::empty());
                assert(out.deep_view() =~= old(out).deep_view() + avail.take(0));
            }
            if len == 0 {
                proof {
                    self.lemma_items_from_next_empty();
                    assert(self.items_from(no) =~= avail.skip(0));
                }
                return Position::Next(no);
            } else {
                return Position::Done(no);
            }
        }
        let mut i: usize = sid64 as usize;
        let sl = self.segments[i].data.len();
        let mut pos: usize = if offset.1 >= sl as u64 {
            sl
        } else {
            offset.1 as usize
        };
        let mut taken: u64 = 0;
        proof {
            assert(flat_from(self.segs(), i as int, pos as int) == flat_from(
                self.segs(),
                i as int,
                offset.1 as int,
            ));
            assert(avail.skip(0) =~= avail);
            assert(avail.take(0) =~= Seq::<PublishView>::empty());
            assert(out.deep_view() =~= old(out).deep_view() + avail.take(0));
        }
        while taken < len
            invariant
                self.wf(),
                offset.0 >= self.head_id(),
                avail == self.items_from(offset),
                no == self.next_offset_spec(),
                count == self.segs().len(),
                i < count,
                pos <= self.segs()[i as int].len(),
                taken <= len,
                avail.len() - taken == flat_from(self.segs(), i as int, pos as int).len(),
                flat_from(self.segs(), i as int, pos as int) == avail.skip(taken as int),
                out.deep_view() == old(out).deep_view() + avail.take(taken as int),
            decreases len - taken, count - i,
        {
            if pos < self.segments[i].data.len() {
                let ghost pre_out = out.deep_view();
                let ghost pre_vec = *out;
                let p = self.segments[i].data[pos].clone();
                out.push(p);
                proof {
                    crate::lemma_vec_deep_view_push(pre_vec, *out, p);
                    lemma_flat_step(self.segs(), i as int, pos as int);
                    let x = self.segs()[i as int][pos as int];
                    let fnext = flat_from(self.segs(), i as int, pos as int + 1);
                    assert(x == avail.skip(taken as int)[0]);
                    assert(avail[taken as int] == avail.skip(taken as int)[0]);
                    assert(avail.take(taken as int + 1) =~= avail.take(taken as int).push(
                        avail[taken as int],
                    ));
                    assert(out.deep_view() =~= old(out).deep_view() + avail.take(taken as int + 1));
                    assert((seq![x] + fnext).skip(1) =~= fnext);
                    assert(avail.skip(taken as int).skip(1) =~= avail.skip(taken as int + 1));
                    assert(fnext == avail.skip(taken as int + 1));
                }
                pos += 1;
                taken += 1;
            } else if i + 1 < count {
                proof {
                    lemma_flat_seg_end(self.segs(), i as int, pos as int);
                }
                i += 1;
                pos = 0;
            } else {
                proof {
                    lemma_flat_seg_end(self.segs(), i as int, pos as int);
                    assert(flat_from(self.segs(), i as int + 1, 0) =~= Seq::<PublishView>::empty());
                    assert(avail.len() == taken);
                    assert(avail.take(taken as int) =~= avail);
                }
                return Position::Done(no);
            }
        }
        proof {
            assert(avail.take(taken as int) =~= avail.take(len as int));
        }
        let c = (self.head + i as u64, pos as u64);
        proof {
            assert(c.0 - self.head_id() == i as int);
            assert(self.items_from(c) == flat_from(self.segs(), i as int, pos as int));
        }
        Position::Next(c)
    }

    /// At the log's own next offset there is nothing to read.
    pub proof fn lemma_items_from_next_empty(self)
        requires
            self.wf(),
        ensures
            self.items_from(self.next_offset_spec()).len() == 0,
    {
        let segs = self.segs();
        let i = segs.len() - 1;
        lemma_flat_seg_end(segs, i, segs.last().len() as int);
        assert(flat_from(segs, segs.len() as int, 0) =~= Seq::<PublishView>::empty());
        assert(self.next_offset_spec().0 - self.head_id() == i);
        assert(self.segments@.last().data@.len() <= usize::MAX) by {
            assert(vstd::std_specs::vec::spec_vec_len(&self.segments@.last().data)
                == self.segments@.last().data@.len());
        }
        assert(segs.last() == self.segments@.last().data.deep_view());
        assert(self.next_offset_spec().1 as int == segs.last().len());
    }

    /// Law: offsets returned by successive appends strictly increase. One
    /// append returns `o1` and leaves the next offset at `m` with
    /// `o1 < m`; the next offset never moves back, so a later append
    /// returns some `o2` with `m <= o2`, and then `o1 < o2`.
    pub proof fn lemma_append_offsets_increase(o1: Offset, m: Offset, o2: Offset)
        requires
            offset_lt(o1, m),
            offset_le(m, o2),
        ensures
            offset_lt(o1, o2),
    {
    }
}

} // verus!
