//! Parked subscribers: per-filter FIFO registry of connections that have
//! caught up with a commit log and wait for new data.
use crate::{ConnectionId, FilterIdx, Offset};
use std::collections::VecDeque;
use vstd::prelude::*;

verus! {

/// A subscriber's outstanding read: which filter, from which cursor, and at
/// most how many items per read.
pub struct DataRequest {
    pub filter: String,
    pub filter_idx: FilterIdx,
    pub qos: u8,
    pub cursor: Offset,
    pub max_count: usize,
}

/// Holds of a waiter entry registered by connection `id`.
pub open spec fn entry_of(id: ConnectionId) -> spec_fn((ConnectionId, DataRequest)) -> bool {
    |e: (ConnectionId, DataRequest)| e.0 == id
}

/// Holds of a waiter entry registered by any other connection.
pub open spec fn entry_not_of(id: ConnectionId) -> spec_fn((ConnectionId, DataRequest)) -> bool {
    |e: (ConnectionId, DataRequest)| e.0 != id
}

/// Projects a waiter entry to its request.
pub open spec fn request_of() -> spec_fn((ConnectionId, DataRequest)) -> DataRequest {
    |e: (ConnectionId, DataRequest)| e.1
}

/// Index of the first waiter entry registered for `id`, or `-1`.
pub open spec fn first_index_for(s: Seq<(ConnectionId, DataRequest)>, id: ConnectionId) -> int
    decreases s.len(),
{
    if s.len() == 0 {
        -1
    } else if s[0].0 == id {
        0
    } else {
        let r = first_index_for(s.drop_first(), id);
        if r == -1 {
            -1
        } else {
            r + 1
        }
    }
}

pub proof fn lemma_first_index_for(s: Seq<(ConnectionId, DataRequest)>, id: ConnectionId)
    ensures
        first_index_for(s, id) == -1 <==> forall|k: int|
            0 <= k < s.len() ==> (#[trigger] s[k]).0 != id,
        first_index_for(s, id) != -1 ==> {
            let f = first_index_for(s, id);
            &&& 0 <= f < s.len()
            &&& s[f].0 == id
            &&& forall|j: int| 0 <= j < f ==> (#[trigger] s[j]).0 != id
        },
    decreases s.len(),
{
    if s.len() > 0 && s[0].0 != id {
        lemma_first_index_for(s.drop_first(), id);
        assert forall|k: int| 0 <= k < s.len() && (#[trigger] s[k]).0 == id implies
            first_index_for(s, id) != -1 by {
            if k > 0 {
                assert(s.drop_first()[k - 1] == s[k]);
            }
        }
        if first_index_for(s, id) != -1 {
            let f = first_index_for(s, id);
            assert(s[f] == s.drop_first()[f - 1]);
            assert forall|j: int| 0 <= j < f implies (#[trigger] s[j]).0 != id by {
                if j > 0 {
                    assert(s.drop_first()[j - 1] == s[j]);
                }
            }
        }
    }
}

/// Bounded-intent FIFO of parked subscribers for one filter.
pub struct Waiters {
    waiters: VecDeque<(ConnectionId, DataRequest)>,
}

impl View for Waiters {
    type V = Seq<(ConnectionId, DataRequest)>;

    closed spec fn view(&self) -> Seq<(ConnectionId, DataRequest)> {
        self.waiters@
    }
}

impl Waiters {
    /// An empty waiter set with room for `capacity` entries up front.
    pub fn with_capacity(capacity: usize) -> (r: Waiters)
        ensures
            r@ == Seq::<(ConnectionId, DataRequest)>::empty(),
    {
        Waiters { waiters: VecDeque::with_capacity(capacity) }
    }

    /// How many subscribers are parked.
    pub fn len(&self) -> (r: usize)
        ensures
            r == self@.len(),
    {
        self.waiters.len()
    }

    /// Parks one connection with its pending request, behind all earlier
    /// waiters.
    pub fn register(&mut self, id: ConnectionId, data: DataRequest)
        ensures
            final(self)@ == old(self)@.push((id, data)),
    {
        self.waiters.push_back((id, data));
    }

    /// Empties the set and hands every parked entry back in registration
    /// order; `None` when nobody was waiting.
    pub fn take(&mut self) -> (r: Option<VecDeque<(ConnectionId, DataRequest)>>)
        ensures
            final(self)@ == Seq::<(ConnectionId, DataRequest)>::empty(),
            match r {
                None => old(self)@.len() == 0,
                Some(d) => old(self)@.len() > 0 && d@ == old(self)@,
            },
    {
        if self.waiters.len() == 0 {
            return None;
        }
        let mut d: VecDeque<(ConnectionId, DataRequest)> = VecDeque::new();
        core::mem::swap(&mut d, &mut self.waiters);
        Some(d)
    }

    /// Removes every entry of this connection, keeping the others in order,
    /// and returns the removed requests in registration order.
    pub fn remove(&mut self, id: ConnectionId) -> (r: Vec<DataRequest>)
        ensures
            final(self)@ == old(self)@.filter(entry_not_of(id)),
            r@ == old(self)@.filter(entry_of(id)).map_values(request_of()),
    {
        let ghost orig = self.waiters@;
        let ghost keep = entry_not_of(id);
        let ghost gone = entry_of(id);
        let ghost proj = request_of();
        let mut kept: VecDeque<(ConnectionId, DataRequest)> = VecDeque::new();
        let mut out: Vec<DataRequest> = Vec::new();
        let ghost i: int = 0;
        proof {
            assert(orig.take(0) =~= Seq::<(ConnectionId, DataRequest)>::empty());
            reveal(Seq::filter);
        }
        while self.waiters.len() > 0
            invariant
                keep == entry_not_of(id),
                gone == entry_of(id),
                proj == request_of(),
                0 <= i <= orig.len(),
                i == orig.len() - self.waiters@.len(),
                self.waiters@ == orig.skip(i),
                kept@ == orig.take(i).filter(keep),
                out@ == orig.take(i).filter(gone).map_values(proj),
            decreases self.waiters@.len(),
        {
            let e_opt = self.waiters.pop_front();
            let e = match e_opt {
                Some(e) => e,
                None => {
                    proof {
                        assert(false);
                    }
                    unreached()
                },
            };
            proof {
                assert(orig.skip(i)[0] == orig[i]);
                assert(e == orig[i]);
                assert(orig.skip(i).drop_first() =~= orig.skip(i + 1));
            }
            let ghost pre_kept = kept@;
            let ghost pre_out = out@;
            if e.0 != id {
                kept.push_back(e);
            } else {
                out.push(e.1);
            }
            proof {
                reveal(Seq::filter);
                let t1 = orig.take(i + 1);
                assert(t1.len() == i + 1);
                assert(t1.drop_last() =~= orig.take(i));
                assert(t1.last() == orig[i]);
                if keep(orig[i]) {
                    assert(t1.filter(keep) == t1.drop_last().filter(keep).push(t1.last()));
                    assert(t1.filter(gone) == t1.drop_last().filter(gone));
                    assert(kept@ == t1.filter(keep));
                } else {
                    assert(t1.filter(keep) == t1.drop_last().filter(keep));
                    assert(t1.filter(gone) == t1.drop_last().filter(gone).push(t1.last()));
                    assert(out@ =~= t1.filter(gone).map_values(proj));
                }
                i = i + 1;
            }
        }
        proof {
            assert(orig.take(i) =~= orig);
        }
        core::mem::swap(&mut self.waiters, &mut kept);
        out
    }

    /// Removes the first entry parked for `id`, keeping all other entries in
    /// order; `None` when the connection has no waiter here.
    pub fn remove_first_for(&mut self, id: ConnectionId) -> (r: Option<DataRequest>)
        ensures
            ({
                let f = first_index_for(old(self)@, id);
                if f == -1 {
                    r is None && final(self)@ == old(self)@
                } else {
                    &&& r matches Some(req) && req == old(self)@[f].1
                    &&& final(self)@ == old(self)@.remove(f)
                }
            }),
    {
        proof {
            lemma_first_index_for(self.waiters@, id);
        }
        let n = self.waiters.len();
        let mut i: usize = 0;
        while i < n
            invariant
                n == self.waiters@.len(),
                i <= n,
                first_index_for(self.waiters@, id) == first_index_for(old(self)@, id),
                self.waiters@ == old(self)@,
                forall|k: int| 0 <= k < i ==> (#[trigger] self.waiters@[k]).0 != id,
            decreases n - i,
        {
            if self.waiters[i].0 == id {
                proof {
                    lemma_first_index_for(self.waiters@, id);
                    let f = first_index_for(self.waiters@, id);
                    assert(f != -1);
                    assert(f == i as int);
                }
                let e = match self.waiters.remove(i) {
                    Some(e) => e,
                    None => {
                        proof {
                            assert(false);
                        }
                        unreached()
                    },
                };
                return Some(e.1);
            }
            i += 1;
        }
        proof {
            lemma_first_index_for(self.waiters@, id);
        }
        None
    }
}

} // verus!
