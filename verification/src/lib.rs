//! Core data plane of an MQTT v5 broker's router: per-filter commit logs,
//! topic/filter matching with a memoised topic-to-filters cache, parked
//! subscriber waiters, per-filter read markers, per-connection ack logs with
//! deferred PubAck release, and the PubComp control-packet codec.
use vstd::prelude::*;
use vstd::string::StrSliceExecFns;

pub mod acklog;
pub mod bytes_buf;
pub mod datalog;
pub mod marker;
pub mod mqttbytes;
pub mod protocol;
pub mod pubcomp;
pub mod segments;
pub mod waiters;
pub mod websockets;

verus! {

/// Failure of a structural operation of the core.
#[derive(Clone, Copy, PartialEq, Eq, Structural, Debug)]
pub enum CoreError {
    /// A configured bound was zero.
    InvalidConfig,
}

/// Static configuration of the router core.
pub struct RouterConfig {
    /// Maximum byte size of one commit-log segment.
    pub max_segment_size: usize,
    /// Maximum number of in-memory segments per commit log.
    pub max_segment_count: usize,
    /// Maximum number of connections the router accepts.
    pub max_connections: usize,
    /// Maximum number of items handed out by one read.
    pub max_read_len: u64,
    /// When set, PubAcks are released at append time instead of being
    /// deferred until all matching subscribers have persisted the publish.
    pub instant_ack: bool,
    /// Filters to register up front, before any subscription arrives.
    pub initialized_filters: Option<Vec<String>>,
}

/// Identifies one subscriber/publisher session.
pub type ConnectionId = usize;

/// Dense handle for a registered filter, assigned by the data log.
pub type FilterIdx = usize;

/// Position of one slot in a commit log: `(segment id, position in segment)`,
/// ordered lexicographically.
pub type Offset = (u64, u64);

/// True when `a` is strictly before `b` in the lexicographic offset order.
pub open spec fn offset_lt(a: Offset, b: Offset) -> bool {
    a.0 < b.0 || (a.0 == b.0 && a.1 < b.1)
}

/// True when `a` is at or before `b` in the lexicographic offset order.
pub open spec fn offset_le(a: Offset, b: Offset) -> bool {
    a.0 < b.0 || (a.0 == b.0 && a.1 <= b.1)
}

/// Compares two offsets in the lexicographic order.
pub fn offset_lt_exec(a: Offset, b: Offset) -> (r: bool)
    ensures
        r == offset_lt(a, b),
{
    a.0 < b.0 || (a.0 == b.0 && a.1 < b.1)
}

/// Compares two offsets in the lexicographic order.
pub fn offset_le_exec(a: Offset, b: Offset) -> (r: bool)
    ensures
        r == offset_le(a, b),
{
    a.0 < b.0 || (a.0 == b.0 && a.1 <= b.1)
}

/// Index of the first element satisfying `pred`, or `-1`.
pub open spec fn index_of_first<T>(s: Seq<T>, pred: spec_fn(T) -> bool) -> int
    decreases s.len(),
{
    if s.len() == 0 {
        -1
    } else if pred(s[0]) {
        0
    } else {
        let r = index_of_first(s.drop_first(), pred);
        if r == -1 {
            -1
        } else {
            r + 1
        }
    }
}

pub proof fn lemma_index_of_first<T>(s: Seq<T>, pred: spec_fn(T) -> bool)
    ensures
        index_of_first(s, pred) == -1 <==> forall|k: int| 0 <= k < s.len() ==> !pred(#[trigger] s[k]),
        index_of_first(s, pred) != -1 ==> {
            let f = index_of_first(s, pred);
            &&& 0 <= f < s.len()
            &&& pred(s[f])
            &&& forall|j: int| 0 <= j < f ==> !pred(#[trigger] s[j])
        },
    decreases s.len(),
{
    if s.len() > 0 && !pred(s[0]) {
        lemma_index_of_first(s.drop_first(), pred);
        assert forall|k: int| 0 <= k < s.len() && pred(#[trigger] s[k]) implies index_of_first(
            s,
            pred,
        ) != -1 by {
            if k > 0 {
                assert(s.drop_first()[k - 1] == s[k]);
            }
        }
        if index_of_first(s, pred) != -1 {
            let f = index_of_first(s, pred);
            assert(s[f] == s.drop_first()[f - 1]);
            assert forall|j: int| 0 <= j < f implies !pred(#[trigger] s[j]) by {
                if j > 0 {
                    assert(s.drop_first()[j - 1] == s[j]);
                }
            }
        }
    }
}

/// Character-wise string equality, the spec-level `==` of the views.
pub fn str_eq(a: &str, b: &str) -> (r: bool)
    ensures
        r == (a@ == b@),
{
    let alen = a.unicode_len();
    let blen = b.unicode_len();
    if alen != blen {
        return false;
    }
    let mut i: usize = 0;
    while i < alen
        invariant
            alen == a@.len(),
            blen == b@.len(),
            alen == blen,
            i <= alen,
            forall|j: int| 0 <= j < i ==> a@[j] == b@[j],
        decreases alen - i,
    {
        if a.get_char(i) != b.get_char(i) {
            return false;
        }
        i += 1;
    }
    proof {
        assert(a@ =~= b@);
    }
    true
}

/// A `Vec` push extends the element-wise view by the pushed element's view.
pub proof fn lemma_vec_deep_view_push<T: DeepView>(pre: Vec<T>, post: Vec<T>, x: T)
    requires
        post@ == pre@.push(x),
    ensures
        post.deep_view() =~= pre.deep_view().push(x.deep_view()),
{
    assert forall|i: int| 0 <= i < post.deep_view().len() implies post.deep_view()[i]
        == pre.deep_view().push(x.deep_view())[i] by {
        if i < pre@.len() {
            assert(post@[i] == pre@[i]);
        } else {
            assert(post@[i] == x);
        }
    }
}

} // verus!
