//! The data log: one commit log, waiter set and meter per registered
//! filter, a retained-publish table, a memoised topic-to-filters cache, and
//! per-filter read/write markers.
use crate::marker::ReadMarker;
use crate::protocol::{matches_spec, publish_size_spec, Publish, PublishView};
use crate::segments::{CommitLog, Position};
use crate::waiters::{entry_not_of, entry_of, request_of, DataRequest, Waiters};
use crate::{
    index_of_first, lemma_index_of_first, offset_le, offset_lt, str_eq, ConnectionId, CoreError,
    FilterIdx, Offset, RouterConfig,
};
use std::collections::VecDeque;
use vstd::prelude::*;
use vstd::string::StringExecFns;

verus! {

/// Running totals for one filter's log, for observability.
#[derive(Clone, Copy, Debug)]
pub struct SubscriptionMeter {
    pub count: u64,
    pub append_offset: Offset,
    pub total_size: u64,
    pub head_and_tail_id: (u64, u64),
}

impl Default for SubscriptionMeter {
    /// All-zero meter.
    fn default() -> (r: Self)
        ensures
            r.count == 0 && r.append_offset == ((0u64, 0u64)) && r.total_size == 0
                && r.head_and_tail_id == ((0u64, 0u64)),
    {
        SubscriptionMeter { count: 0, append_offset: (0, 0), total_size: 0, head_and_tail_id: (
            0,
            0,
        ) }
    }
}

/// One registered filter's state: the filter string, its commit log, the
/// subscribers parked on it, and its meter.
pub struct Data {
    filter: String,
    log: CommitLog,
    waiters: Waiters,
    meter: SubscriptionMeter,
}

impl Data {
    /// The filter string this entry serves.
    pub closed spec fn filter_spec(self) -> Seq<char> {
        self.filter@
    }

    /// The entry's commit log.
    pub closed spec fn log_spec(self) -> CommitLog {
        self.log
    }

    /// The parked subscribers, in registration order.
    pub closed spec fn waiters_view(self) -> Seq<(ConnectionId, DataRequest)> {
        self.waiters@
    }

    /// The entry's meter.
    pub closed spec fn meter_spec(self) -> SubscriptionMeter {
        self.meter
    }

    pub open spec fn wf(self) -> bool {
        self.log_spec().wf()
    }

    fn new(filter: &str, max_segment_size: usize, max_mem_segments: usize) -> (r: Result<
        Data,
        CoreError,
    >)
        ensures
            match r {
                Ok(d) => {
                    &&& max_segment_size >= 1 && max_mem_segments >= 1
                    &&& d.filter_spec() == filter@
                    &&& fresh_entry(d)
                },
                Err(e) => (max_segment_size == 0 || max_mem_segments == 0) && e
                    == CoreError::InvalidConfig,
            },
    {
        let log = match CommitLog::new(max_segment_size, max_mem_segments) {
            Ok(log) => log,
            Err(e) => {
                return Err(e);
            },
        };
        let waiters = Waiters::with_capacity(10);
        let metrics = SubscriptionMeter::default();
        Ok(Data { filter: String::from_str(filter), log, waiters, meter: metrics })
    }

    /// Appends one item to this filter's log, wakes every parked subscriber
    /// into `notifications`, and updates the meter. Returns the offset where
    /// the item landed, with the filter it landed on.
    pub fn append(&mut self, item: Publish, notifications: &mut VecDeque<(
        ConnectionId,
        DataRequest,
    )>) -> (r: (Offset, String))
        requires
            old(self).wf(),
        ensures
            final(self).wf(),
            final(self).filter_spec() == old(self).filter_spec(),
            r.1@ == old(self).filter_spec(),
            offset_le(old(self).log_spec().next_offset_spec(), r.0),
            old(self).log_spec().segs().last().len() == 0 ==> r.0 == old(
                self,
            ).log_spec().next_offset_spec(),
            offset_lt(r.0, final(self).log_spec().next_offset_spec()),
            r.0.0 >= final(self).log_spec().head_id(),
            final(self).log_spec().seg_limit() == old(self).log_spec().seg_limit(),
            old(self).log_spec().head_id() <= final(self).log_spec().head_id(),
            final(self).log_spec().head_id() <= old(self).log_spec().head_id() + 1,
            final(self).log_spec().head_id() == old(self).log_spec().head_id() + 1 ==> old(
                self,
            ).log_spec().segs().len() == old(self).log_spec().seg_limit(),
            forall|off: Offset|
                off.0 >= final(self).log_spec().head_id() && offset_le(off, r.0)
                    ==> final(self).log_spec().items_from(off)
                    == old(self).log_spec().items_from(off).push(item@),
            final(self).waiters_view() == Seq::<(ConnectionId, DataRequest)>::empty(),
            final(notifications)@ == old(notifications)@ + old(self).waiters_view(),
            final(self).meter_spec().append_offset == r.0,
            final(self).meter_spec().count == (if old(self).meter_spec().count < u64::MAX {
                old(self).meter_spec().count + 1
            } else {
                u64::MAX as int
            }),
            final(self).meter_spec().total_size == (if old(self).meter_spec().total_size
                + publish_size_spec(item@) <= u64::MAX {
                (old(self).meter_spec().total_size + publish_size_spec(item@)) as u64
            } else {
                u64::MAX
            }),
            final(self).meter_spec().head_and_tail_id == ((
                final(self).log_spec().head_id(),
                (final(self).log_spec().head_id() + final(self).log_spec().segs().len() - 1) as u64,
            )),
    {
        let size = item.size();
        let ghost pre_notif = notifications@;
        let offset = self.log.append(item);
        match self.waiters.take() {
            Some(mut parked) => {
                notifications.append(&mut parked);
            },
            None => {
                proof {
                    assert(notifications@ =~= pre_notif + old(self).waiters_view());
                }
            },
        }
        self.meter.count = match self.meter.count.checked_add(1) {
            Some(c) => c,
            None => u64::MAX,
        };
        self.meter.append_offset = offset;
        self.meter.total_size = match self.meter.total_size.checked_add(size as u64) {
            Some(t) => t,
            None => u64::MAX,
        };
        self.meter.head_and_tail_id = self.log.head_and_tail();
        (offset, self.filter.clone())
    }
}

/// A just-created filter entry: an empty log numbered zero, nobody parked,
/// and a zeroed meter.
pub open spec fn fresh_entry(d: Data) -> bool {
    &&& d.wf()
    &&& d.log_spec().head_id() == 0
    &&& d.log_spec().segs() == seq![Seq::<PublishView>::empty()]
    &&& d.log_spec().next_offset_spec() == ((0u64, 0u64))
    &&& d.waiters_view() == Seq::<(ConnectionId, DataRequest)>::empty()
    &&& d.meter_spec().count == 0
    &&& d.meter_spec().total_size == 0
    &&& d.meter_spec().append_offset == ((0u64, 0u64))
    &&& d.meter_spec().head_and_tail_id == ((0u64, 0u64))
}

/// Metered size of a run of publishes.
pub open spec fn sizes_sum(items: Seq<PublishView>) -> int
    decreases items.len(),
{
    if items.len() == 0 {
        0
    } else {
        sizes_sum(items.drop_last()) + publish_size_spec(items.last())
    }
}

/// One cache entry is correct: its list holds exactly the indices of the
/// filters matching the topic, in strictly increasing order.
pub open spec fn cache_entry_ok(t: Seq<char>, l: Seq<FilterIdx>, filters: Seq<Seq<char>>) -> bool {
    &&& forall|a: int, b: int| 0 <= a < b < l.len() ==> l[a] < l[b]
    &&& forall|j: int|
        0 <= j < l.len() ==> (#[trigger] l[j]) < filters.len() && matches_spec(
            t,
            filters[l[j] as int],
        )
    &&& forall|idx: int|
        0 <= idx < filters.len() && matches_spec(t, #[trigger] filters[idx]) ==> l.contains(
            idx as FilterIdx,
        )
}

/// Stores the per-filter data entries, keyed by the dense filter index, plus
/// the retained-publish table, the topic-to-filters cache and the markers.
pub struct DataLog {
    /// The configuration the log was built from.
    pub config: RouterConfig,
    native: Vec<Data>,
    retained_publishes: Vec<(String, Publish)>,
    publish_filters: Vec<(String, Vec<FilterIdx>)>,
    filter_read_markers: Vec<ReadMarker>,
    filter_write_markers: Vec<Vec<ConnectionId>>,
}

impl DataLog {
    /// The configuration value the log carries.
    pub closed spec fn config_spec(self) -> RouterConfig {
        self.config
    }

    /// The per-filter entries; a `FilterIdx` indexes this sequence.
    pub closed spec fn entries(self) -> Seq<Data> {
        self.native@
    }

    /// The registered filters, in index order.
    pub open spec fn filters(self) -> Seq<Seq<char>> {
        Seq::new(self.entries().len(), |i: int| self.entries()[i].filter_spec())
    }

    /// The memoised topic-to-filters cache.
    pub closed spec fn cache(self) -> Seq<(Seq<char>, Seq<FilterIdx>)> {
        Seq::new(
            self.publish_filters@.len(),
            |i: int| (self.publish_filters@[i].0@, self.publish_filters@[i].1@),
        )
    }

    /// The retained-publish table, in insertion order.
    pub closed spec fn retained(self) -> Seq<(Seq<char>, PublishView)> {
        Seq::new(
            self.retained_publishes@.len(),
            |i: int| (self.retained_publishes@[i].0@, self.retained_publishes@[i].1@),
        )
    }

    /// The per-filter read markers, parallel to `entries`.
    pub closed spec fn read_markers(self) -> Seq<ReadMarker> {
        self.filter_read_markers@
    }

    /// The per-filter writer sets, parallel to `entries`.
    pub closed spec fn write_markers(self) -> Seq<Seq<ConnectionId>> {
        Seq::new(self.filter_write_markers@.len(), |i: int| self.filter_write_markers@[i]@)
    }

    /// Whole-log invariant. Besides structural facts, this carries cache
    /// correctness: every cached topic maps to exactly the indices of the
    /// filters that match it.
    pub open spec fn wf(self) -> bool {
        &&& self.config_spec().max_segment_size >= 1
        &&& self.config_spec().max_segment_count >= 1
        &&& forall|i: int| 0 <= i < self.entries().len() ==> (#[trigger] self.entries()[i]).wf()
        &&& forall|i: int, j: int|
            0 <= i < j < self.entries().len() ==> (#[trigger] self.entries()[i]).filter_spec() != (
            #[trigger] self.entries()[j]).filter_spec()
        &&& self.read_markers().len() == self.entries().len()
        &&& forall|i: int|
            0 <= i < self.read_markers().len() ==> (#[trigger] self.read_markers()[i]).wf()
        &&& self.write_markers().len() == self.entries().len()
        &&& forall|k: int|
            0 <= k < self.cache().len() ==> cache_entry_ok(
                (#[trigger] self.cache()[k]).0,
                self.cache()[k].1,
                self.filters(),
            )
        &&& forall|k1: int, k2: int|
            0 <= k1 < k2 < self.cache().len() ==> (#[trigger] self.cache()[k1]).0 != (
            #[trigger] self.cache()[k2]).0
        &&& forall|k1: int, k2: int|
            0 <= k1 < k2 < self.retained().len() ==> (#[trigger] self.retained()[k1]).0 != (
            #[trigger] self.retained()[k2]).0
    }

    /// A fresh data log; registers the configured warm-up filters, if any.
    /// Rejects a zero segment size or count.
    pub fn new(config: RouterConfig) -> (r: Result<DataLog, CoreError>)
        ensures
            match r {
                Ok(log) => {
                    &&& config.max_segment_size >= 1 && config.max_segment_count >= 1
                    &&& log.wf()
                    &&& log.config_spec() == config
                    &&& log.cache() == Seq::<(Seq<char>, Seq<FilterIdx>)>::empty()
                    &&& log.retained() == Seq::<(Seq<char>, PublishView)>::empty()
                    &&& forall|i: int|
                        0 <= i < log.entries().len() ==> fresh_entry(#[trigger] log.entries()[i])
                    &&& forall|i: int|
                        0 <= i < log.read_markers().len() ==> (
                        #[trigger] log.read_markers()[i]).markers() == Seq::<
                            (ConnectionId, Offset),
                        >::empty()
                    &&& match config.initialized_filters {
                        None => log.filters() =~= Seq::<Seq<char>>::empty(),
                        Some(warm) => {
                            &&& log.filters().len() <= warm@.len()
                            &&& forall|k: int|
                                0 <= k < warm@.len() ==> log.filters().contains(
                                    (#[trigger] warm@[k])@,
                                )
                        },
                    }
                },
                Err(e) => (config.max_segment_size == 0 || config.max_segment_count == 0) && e
                    == CoreError::InvalidConfig,
            },
    {
        if config.max_segment_size == 0 || config.max_segment_count == 0 {
            return Err(CoreError::InvalidConfig);
        }
        let mut log = DataLog {
            config,
            native: Vec::new(),
            retained_publishes: Vec::new(),
            publish_filters: Vec::new(),
            filter_read_markers: Vec::new(),
            filter_write_markers: Vec::new(),
        };
        proof {
            assert(log.cache() =~= Seq::<(Seq<char>, Seq<FilterIdx>)>::empty());
            assert(log.retained() =~= Seq::<(Seq<char>, PublishView)>::empty());
            assert(log.filters() =~= Seq::<Seq<char>>::empty());
        }
        let has_warmup = match &log.config.initialized_filters {
            Some(_) => true,
            None => false,
        };
        if has_warmup {
            let warm_count = match &log.config.initialized_filters {
                Some(warm) => warm.len(),
                None => 0,
            };
            let mut w: usize = 0;
            while w < warm_count
                invariant
                    log.wf(),
                    log.config == config,
                    config.max_segment_size >= 1,
                    config.max_segment_count >= 1,
                    (log.config.initialized_filters matches Some(warm) && warm_count
                        == warm@.len()),
                    log.cache() == Seq::<(Seq<char>, Seq<FilterIdx>)>::empty(),
                    log.retained() == Seq::<(Seq<char>, PublishView)>::empty(),
                    log.filters().len() <= w,
                    w <= warm_count,
                    forall|i: int|
                        0 <= i < log.entries().len() ==> fresh_entry(#[trigger] log.entries()[i]),
                    forall|i: int|
                        0 <= i < log.read_markers().len() ==> (
                        #[trigger] log.read_markers()[i]).markers() == Seq::<
                            (ConnectionId, Offset),
                        >::empty(),
                    (config.initialized_filters matches Some(warm2) ==> forall|k: int|
                        0 <= k < w ==> log.filters().contains((#[trigger] warm2@[k])@)),

                decreases warm_count - w,
            {
                let ghost pre_log = log;
                let filter = match &log.config.initialized_filters {
                    Some(warm) => warm[w].clone(),
                    None => {
                        proof {
                            assert(false);
                        }
                        unreached()
                    },
                };
                proof {
                    assert(filter == config.initialized_filters->Some_0@[w as int]);
                }
                let (fidx, _) = log.next_native_offset(filter.as_str());
                proof {
                    let warm2 = config.initialized_filters->Some_0;
                    assert(log.filters()[fidx as int] == warm2@[w as int]@);
                    assert forall|k: int| 0 <= k < w + 1 implies log.filters().contains(
                        (#[trigger] warm2@[k])@,
                    ) by {
                        if k < w {
                            let i = choose|i: int|
                                0 <= i < pre_log.filters().len() && pre_log.filters()[i]
                                    == warm2@[k]@;
                            assert(log.entries()[i] == pre_log.entries()[i]);
                            assert(log.filters()[i] == warm2@[k]@);
                        } else {
                            assert(log.filters()[fidx as int] == warm2@[k]@);
                        }
                    }
                    assert forall|i: int| 0 <= i < log.entries().len() implies fresh_entry(
                        #[trigger] log.entries()[i],
                    ) by {
                        if i < pre_log.entries().len() {
                            assert(log.entries()[i] == pre_log.entries()[i]);
                        }
                    }
                    assert forall|i: int| 0 <= i < log.read_markers().len() implies (
                    #[trigger] log.read_markers()[i]).markers() == Seq::<
                        (ConnectionId, Offset),
                    >::empty() by {
                        if i < pre_log.read_markers().len() {
                            assert(log.read_markers()[i] == pre_log.read_markers()[i]);
                        }
                    }
                }
                w += 1;
            }
        }
        Ok(log)
    }

    /// This filter's meter, or `None` when the filter was never registered.
    pub fn meter(&self, filter: &str) -> (r: Option<SubscriptionMeter>)
        requires
            self.wf(),
        ensures
            ({
                let f = index_of_first(
                    self.filters(),
                    |t: Seq<char>| t == filter@,
                );
                if f == -1 {
                    r is None
                } else {
                    r matches Some(m) && m == self.entries()[f].meter_spec()
                }
            }),
    {
        proof {
            lemma_index_of_first(self.filters(), |t: Seq<char>| t == filter@);
        }
        match self.find_filter(filter) {
            Some(i) => Some(self.native[i].meter),
            None => None,
        }
    }

    /// Index of a registered filter, by string equality.
    fn find_filter(&self, filter: &str) -> (r: Option<usize>)
        ensures
            ({
                let f = index_of_first(
                    self.filters(),
                    |t: Seq<char>| t == filter@,
                );
                match r {
                    Some(i) => f == i && 0 <= f < self.filters().len() && self.filters()[f]
                        == filter@,
                    None => f == -1,
                }
            }),
    {
        let ghost pred = |t: Seq<char>| t == filter@;
        proof {
            lemma_index_of_first(self.filters(), pred);
        }
        let n = self.native.len();
        let mut i: usize = 0;
        while i < n
            invariant
                pred == (|t: Seq<char>| t == filter@),
                n == self.filters().len(),
                i <= n,
                forall|j: int| 0 <= j < i ==> !pred(#[trigger] self.filters()[j]),
            decreases n - i,
        {
            if str_eq(self.native[i].filter.as_str(), filter) {
                proof {
                    lemma_index_of_first(self.filters(), pred);
                    assert(self.filters()[i as int] == filter@);
                }
                return Some(i);
            }
            proof {
                assert(self.filters()[i as int] == self.native@[i as int].filter@);
            }
            i += 1;
        }
        proof {
            lemma_index_of_first(self.filters(), pred);
        }
        None
    }

    /// The authoritative list of filter indices whose logs receive a publish
    /// on `topic`: on a cache hit the memoised list, otherwise computed by
    /// scanning every registered filter and memoised, even when empty.
    pub fn matches(&mut self, topic: &str) -> (r: Option<Vec<FilterIdx>>)
        requires
            old(self).wf(),
        ensures
            final(self).wf(),
            final(self).entries() == old(self).entries(),
            final(self).retained() == old(self).retained(),
            final(self).read_markers() == old(self).read_markers(),
            final(self).write_markers() == old(self).write_markers(),
            final(self).config_spec() == old(self).config_spec(),
            (r matches Some(v) && cache_entry_ok(topic@, v@, final(self).filters())),
            ({
                let k = index_of_first(
                    old(self).cache(),
                    |e: (Seq<char>, Seq<FilterIdx>)| e.0 == topic@,
                );
                if k == -1 {
                    final(self).cache() == old(self).cache().push(
                        (topic@, r->Some_0@),
                    )
                } else {
                    final(self).cache() == old(self).cache() && r->Some_0@ == old(self).cache()[k].1
                }
            }),
    {
        let ghost keypred = |e: (Seq<char>, Seq<FilterIdx>)| e.0 == topic@;
        proof {
            lemma_index_of_first(self.cache(), keypred);
        }
        let m = self.publish_filters.len();
        let mut k: usize = 0;
        while k < m
            invariant
                keypred == (|e: (Seq<char>, Seq<FilterIdx>)| e.0 == topic@),
                m == self.cache().len(),
                k <= m,
                old(self).wf(),
                *self == *old(self),
                forall|j: int| 0 <= j < k ==> !keypred(#[trigger] self.cache()[j]),
            decreases m - k,
        {
            if str_eq(self.publish_filters[k].0.as_str(), topic) {
                proof {
                    lemma_index_of_first(self.cache(), keypred);
                    assert(keypred(self.cache()[k as int]));
                    assert(index_of_first(self.cache(), keypred) == k as int);
                }
                let v = self.publish_filters[k].1.clone();
                proof {
                    assert(v@ =~= self.publish_filters@[k as int].1@) by {
                        vstd::std_specs::vec::vec_clone_deep_view_proof(
                            self.publish_filters@[k as int].1,
                            v,
                        );
                        assert(v.deep_view() =~= v@);
                        assert(self.publish_filters@[k as int].1.deep_view()
                            =~= self.publish_filters@[k as int].1@);
                    }
                }
                return Some(v);
            }
            proof {
                assert(self.cache()[k as int].0 == self.publish_filters@[k as int].0@);
            }
            k += 1;
        }
        proof {
            lemma_index_of_first(self.cache(), keypred);
        }
        // Cache miss: scan every registered filter.
        let n = self.native.len();
        let mut v: Vec<FilterIdx> = Vec::new();
        let mut i: usize = 0;
        while i < n
            invariant
                n == self.filters().len(),
                i <= n,
                old(self).wf(),
                *self == *old(self),
                forall|a: int, b: int| 0 <= a < b < v@.len() ==> v@[a] < v@[b],
                forall|j: int| 0 <= j < v@.len() ==> (#[trigger] v@[j]) < i,
                forall|j: int|
                    0 <= j < v@.len() ==> matches_spec(topic@, self.filters()[v@[j] as int]),
                forall|idx: int|
                    0 <= idx < i && matches_spec(topic@, #[trigger] self.filters()[idx])
                        ==> v@.contains(idx as FilterIdx),
            decreases n - i,
        {
            proof {
                assert(self.filters()[i as int] == self.native@[i as int].filter@);
            }
            if crate::protocol::matches(topic, self.native[i].filter.as_str()) {
                let ghost pre_v = v@;
                v.push(i);
                proof {
                    assert forall|idx: int|
                        0 <= idx < i + 1 && matches_spec(
                            topic@,
                            #[trigger] self.filters()[idx],
                        ) implies v@.contains(idx as FilterIdx) by {
                        if idx < i {
                            let w = choose|w: int| 0 <= w < pre_v.len() && pre_v[w] == idx as FilterIdx;
                            assert(v@[w] == idx as FilterIdx);
                        } else {
                            assert(v@[v@.len() - 1] == i as FilterIdx);
                        }
                    }
                }
            }
            i += 1;
        }
        let ghost vv = v@;
        let key = String::from_str(topic);
        self.publish_filters.push((key, v.clone()));
        proof {
            assert(v.deep_view() =~= v@);
            vstd::std_specs::vec::vec_clone_deep_view_proof(v, self.publish_filters@.last().1);
            assert(self.publish_filters@.last().1@ =~= vv) by {
                assert(self.publish_filters@.last().1.deep_view()
                    =~= self.publish_filters@.last().1@);
            }
            assert(self.cache() =~= old(self).cache().push((topic@, vv)));
            assert(cache_entry_ok(topic@, vv, self.filters()));
            assert forall|k2: int|
                0 <= k2 < self.cache().len() implies cache_entry_ok(
                (#[trigger] self.cache()[k2]).0,
                self.cache()[k2].1,
                self.filters(),
            ) by {
                if k2 < old(self).cache().len() {
                    assert(self.cache()[k2] == old(self).cache()[k2]);
                }
            }
            assert forall|k1: int, k2: int|
                0 <= k1 < k2 < self.cache().len() implies (#[trigger] self.cache()[k1]).0 != (
            #[trigger] self.cache()[k2]).0 by {
                if k2 == self.cache().len() - 1 {
                    assert(!keypred(old(self).cache()[k1]));
                }
            }
            assert(self.retained() =~= old(self).retained());
            assert(self.write_markers() =~= old(self).write_markers());
            assert(self.filters() =~= old(self).filters());
            assert(self.wf());
        }
        Some(v)
    }

    /// The filter's index and the offset at which its next append will land,
    /// registering the filter first if it is new. Registration adds the new
    /// index to every cached topic list whose topic matches the new filter.
    pub fn next_native_offset(&mut self, filter: &str) -> (r: (FilterIdx, Offset))
        requires
            old(self).wf(),
        ensures
            final(self).wf(),
            final(self).config_spec() == old(self).config_spec(),
            final(self).retained() == old(self).retained(),
            r.0 < final(self).entries().len(),
            final(self).filters()[r.0 as int] == filter@,
            r.1 == final(self).entries()[r.0 as int].log_spec().next_offset_spec(),
            forall|i: int|
                0 <= i < old(self).entries().len() ==> final(self).entries()[i] == old(self).entries()[i],
            ({
                let f = index_of_first(
                    old(self).filters(),
                    |t: Seq<char>| t == filter@,
                );
                if f == -1 {
                    &&& r.0 == old(self).entries().len()
                    &&& final(self).entries().len() == old(self).entries().len() + 1
                    &&& fresh_entry(final(self).entries()[r.0 as int])
                    &&& final(self).read_markers().len() == old(self).read_markers().len() + 1
                    &&& forall|i: int|
                        0 <= i < old(self).read_markers().len() ==> final(self).read_markers()[i]
                            == old(self).read_markers()[i]
                    &&& final(self).read_markers().last().markers() == Seq::<
                        (ConnectionId, Offset),
                    >::empty()
                    &&& final(self).cache().len() == old(self).cache().len()
                    &&& forall|k: int|
                        0 <= k < old(self).cache().len() ==> (#[trigger] final(self).cache()[k]).0
                            == old(self).cache()[k].0 && final(self).cache()[k].1 == (
                        if matches_spec(old(self).cache()[k].0, filter@) {
                            old(self).cache()[k].1.push(r.0)
                        } else {
                            old(self).cache()[k].1
                        })
                } else {
                    &&& r.0 == f
                    &&& *final(self) == *old(self)
                }
            }),
    {
        let ghost pred = |t: Seq<char>| t == filter@;
        proof {
            lemma_index_of_first(self.filters(), pred);
        }
        match self.find_filter(filter) {
            Some(i) => {
                let off = self.native[i].log.next_offset();
                (i, off)
            },
            None => {
                let data = match Data::new(
                    filter,
                    self.config.max_segment_size,
                    self.config.max_segment_count,
                ) {
                    Ok(d) => d,
                    Err(_) => {
                        proof {
                            assert(false);
                        }
                        unreached()
                    },
                };
                let idx = self.native.len();
                let ghost data_g = data;
                self.native.push(data);
                proof {
                    assert(self.native@[idx as int] == data_g);
                }
                self.filter_read_markers.push(ReadMarker::new());
                self.filter_write_markers.push(Vec::new());
                // A new filter must join every cached topic list it matches.
                let m = self.publish_filters.len();
                let ghost mid = *self;
                let mut k: usize = 0;
                while k < m
                    invariant
                        m == self.cache().len(),
                        k <= m,
                        idx < self.entries().len(),
                        self.native == mid.native,
                        self.retained_publishes == mid.retained_publishes,
                        self.filter_read_markers == mid.filter_read_markers,
                        self.filter_write_markers == mid.filter_write_markers,
                        self.config == mid.config,
                        self.cache().len() == mid.cache().len(),
                        forall|j: int|
                            0 <= j < m ==> (#[trigger] self.cache()[j]).0 == mid.cache()[j].0,
                        forall|j: int|
                            k <= j < m ==> (#[trigger] self.cache()[j]).1 == mid.cache()[j].1,
                        forall|j: int|
                            0 <= j < k ==> (#[trigger] self.cache()[j]).1 == (if matches_spec(
                                mid.cache()[j].0,
                                filter@,
                            ) {
                                mid.cache()[j].1.push(idx as FilterIdx)
                            } else {
                                mid.cache()[j].1
                            }),
                    decreases m - k,
                {
                    let ghost snap = *self;
                    let mut tmp: (String, Vec<FilterIdx>) = (String::new(), Vec::new());
                    vstd::pervasive::VecAdditionalExecFns::set_and_swap(
                        &mut self.publish_filters,
                        k,
                        &mut tmp,
                    );
                    proof {
                        assert(tmp == snap.publish_filters@[k as int]);
                    }
                    let hit = crate::protocol::matches(tmp.0.as_str(), filter);
                    let ghost pre_list = tmp.1@;
                    if hit {
                        tmp.1.push(idx);
                    }
                    vstd::pervasive::VecAdditionalExecFns::set_and_swap(
                        &mut self.publish_filters,
                        k,
                        &mut tmp,
                    );
                    proof {
                        assert forall|j: int|
                            0 <= j < m && j != k as int implies self.publish_filters@[j]
                            == snap.publish_filters@[j] by {}
                        assert forall|j: int| 0 <= j < m implies (#[trigger] self.cache()[j]).0
                            == mid.cache()[j].0 by {
                            assert(snap.cache()[j].0 == mid.cache()[j].0);
                            if j != k as int {
                                assert(self.cache()[j] == snap.cache()[j]);
                            } else {
                                assert(self.publish_filters@[j].0@
                                    == snap.publish_filters@[j].0@);
                                assert(self.cache()[j].0 == self.publish_filters@[j].0@);
                                assert(snap.cache()[j].0 == snap.publish_filters@[j].0@);
                            }
                        }
                        assert forall|j: int|
                            k as int + 1 <= j < m implies (#[trigger] self.cache()[j]).1
                            == mid.cache()[j].1 by {
                            assert(self.cache()[j] == snap.cache()[j]);
                        }
                        assert(self.cache()[k as int].1 == (if matches_spec(
                            mid.cache()[k as int].0,
                            filter@,
                        ) {
                            mid.cache()[k as int].1.push(idx as FilterIdx)
                        } else {
                            mid.cache()[k as int].1
                        })) by {
                            assert(snap.cache()[k as int].1 == mid.cache()[k as int].1);
                            assert(snap.cache()[k as int].0 == mid.cache()[k as int].0);
                            assert(pre_list == snap.publish_filters@[k as int].1@);
                            assert(hit == matches_spec(
                                snap.publish_filters@[k as int].0@,
                                filter@,
                            ));
                            if hit {
                                assert(self.publish_filters@[k as int].1@ == pre_list.push(
                                    idx as FilterIdx,
                                ));
                            } else {
                                assert(self.publish_filters@[k as int].1@ == pre_list);
                            }
                        }
                        assert forall|j: int|
                            0 <= j < k as int + 1 implies (#[trigger] self.cache()[j]).1 == (
                        if matches_spec(mid.cache()[j].0, filter@) {
                            mid.cache()[j].1.push(idx as FilterIdx)
                        } else {
                            mid.cache()[j].1
                        }) by {
                            if j < k as int {
                                assert(self.cache()[j] == snap.cache()[j]);
                            }
                        }
                    }
                    k += 1;
                }
                proof {
                    let pre = *old(self);
                    let post = *self;
                    assert(post.filters() =~= pre.filters().push(filter@)) by {
                        assert forall|i: int| 0 <= i < post.filters().len() implies post.filters()[i]
                            == pre.filters().push(filter@)[i] by {
                            if i < pre.entries().len() {
                                assert(post.entries()[i] == pre.entries()[i]);
                            }
                        }
                    }
                    assert forall|i: int, j: int|
                        0 <= i < j < post.entries().len() implies (
                    #[trigger] post.entries()[i]).filter_spec() != (
                    #[trigger] post.entries()[j]).filter_spec() by {
                        if j == idx as int {
                            assert(!pred(pre.filters()[i]));
                            assert(pre.filters()[i] == pre.entries()[i].filter_spec());
                        }
                    }
                    assert forall|k: int|
                        0 <= k < post.cache().len() implies cache_entry_ok(
                        (#[trigger] post.cache()[k]).0,
                        post.cache()[k].1,
                        post.filters(),
                    ) by {
                        let t = pre.cache()[k].0;
                        let l = pre.cache()[k].1;
                        assert(cache_entry_ok(t, l, pre.filters()));
                        let l2 = post.cache()[k].1;
                        assert forall|a: int, b: int| 0 <= a < b < l2.len() implies l2[a]
                            < l2[b] by {
                            if b < l.len() {
                                assert(l2[a] == l[a] && l2[b] == l[b]);
                            } else if b == l.len() && l2.len() == l.len() + 1 {
                                assert(l2[b] == idx);
                                assert(l2[a] == l[a] && l[a] < pre.filters().len());
                            }
                        }
                        assert forall|j: int| 0 <= j < l2.len() implies (#[trigger] l2[j])
                            < post.filters().len() && matches_spec(
                            t,
                            post.filters()[l2[j] as int],
                        ) by {
                            if j < l.len() {
                                assert(l2[j] == l[j]);
                                assert(post.filters()[l[j] as int] == pre.filters()[l[j] as int]);
                            } else {
                                assert(l2[j] == idx);
                                assert(post.filters()[idx as int] == filter@);
                            }
                        }
                        assert forall|fidx: int|
                            0 <= fidx < post.filters().len() && matches_spec(
                                t,
                                #[trigger] post.filters()[fidx],
                            ) implies l2.contains(fidx as FilterIdx) by {
                            if fidx < pre.filters().len() {
                                assert(pre.filters()[fidx] == post.filters()[fidx]);
                                let w = choose|w: int|
                                    0 <= w < l.len() && l[w] == fidx as FilterIdx;
                                assert(l2[w] == fidx as FilterIdx);
                            } else {
                                assert(post.filters()[fidx] == filter@);
                                assert(matches_spec(t, filter@));
                                assert(l2[l2.len() - 1] == idx);
                            }
                        }
                    }
                    assert forall|i2: int| 0 <= i2 < post.entries().len() implies (
                    #[trigger] post.entries()[i2]).wf() by {
                        if i2 < pre.entries().len() {
                            assert(post.entries()[i2] == pre.entries()[i2]);
                        }
                    }
                    assert(post.read_markers().len() == post.entries().len());
                    assert forall|i2: int| 0 <= i2 < post.read_markers().len() implies (
                    #[trigger] post.read_markers()[i2]).wf() by {
                        if i2 < pre.read_markers().len() {
                            assert(post.read_markers()[i2] == pre.read_markers()[i2]);
                        }
                    }
                    assert(post.write_markers().len() == post.entries().len());
                    assert forall|k1: int, k2: int|
                        0 <= k1 < k2 < post.cache().len() implies (#[trigger] post.cache()[k1]).0
                        != (#[trigger] post.cache()[k2]).0 by {
                        assert(mid.cache()[k1].0 == pre.cache()[k1].0);
                        assert(mid.cache()[k2].0 == pre.cache()[k2].0);
                    }
                    assert(post.retained() =~= pre.retained());
                    assert(post.wf());
                }
                (idx, (0, 0))
            },
        }
    }

    /// Number of registered filters; every `FilterIdx` below it is valid.
    pub fn filter_count(&self) -> (r: usize)
        ensures
            r == self.entries().len(),
    {
        self.native.len()
    }

    /// The memoised filter list for a topic, if the topic was ever looked
    /// up; unlike [`Self::matches`] this neither computes nor caches.
    pub fn cached_filters(&self, topic: &str) -> (r: Option<Vec<FilterIdx>>)
        requires
            self.wf(),
        ensures
            ({
                let k = index_of_first(
                    self.cache(),
                    |e: (Seq<char>, Seq<FilterIdx>)| e.0 == topic@,
                );
                if k == -1 {
                    r is None
                } else {
                    r matches Some(v) && v@ == self.cache()[k].1
                }
            }),
    {
        let ghost keypred = |e: (Seq<char>, Seq<FilterIdx>)| e.0 == topic@;
        proof {
            lemma_index_of_first(self.cache(), keypred);
        }
        let m = self.publish_filters.len();
        let mut k: usize = 0;
        while k < m
            invariant
                keypred == (|e: (Seq<char>, Seq<FilterIdx>)| e.0 == topic@),
                m == self.cache().len(),
                k <= m,
                forall|j: int| 0 <= j < k ==> !keypred(#[trigger] self.cache()[j]),
            decreases m - k,
        {
            if str_eq(self.publish_filters[k].0.as_str(), topic) {
                proof {
                    lemma_index_of_first(self.cache(), keypred);
                    assert(keypred(self.cache()[k as int]));
                    assert(index_of_first(self.cache(), keypred) == k as int);
                }
                let v = self.publish_filters[k].1.clone();
                proof {
                    assert(v@ =~= self.publish_filters@[k as int].1@) by {
                        vstd::std_specs::vec::vec_clone_deep_view_proof(
                            self.publish_filters@[k as int].1,
                            v,
                        );
                        assert(v.deep_view() =~= v@);
                        assert(self.publish_filters@[k as int].1.deep_view()
                            =~= self.publish_filters@[k as int].1@);
                    }
                }
                return Some(v);
            }
            proof {
                assert(self.cache()[k as int].0 == self.publish_filters@[k as int].0@);
            }
            k += 1;
        }
        proof {
            lemma_index_of_first(self.cache(), keypred);
        }
        None
    }

    /// Appends one publish to this filter's log, waking its parked
    /// subscribers into `notifications`; the offset where it landed comes
    /// back with the filter string.
    pub fn append(&mut self, filter_idx: FilterIdx, publish: Publish, notifications: &mut VecDeque<
        (ConnectionId, DataRequest),
    >) -> (r: (Offset, String))
        requires
            old(self).wf(),
            filter_idx < old(self).entries().len(),
        ensures
            final(self).wf(),
            final(self).entries().len() == old(self).entries().len(),
            final(self).cache() == old(self).cache(),
            final(self).retained() == old(self).retained(),
            final(self).read_markers() == old(self).read_markers(),
            final(self).write_markers() == old(self).write_markers(),
            final(self).config_spec() == old(self).config_spec(),
            forall|i: int|
                0 <= i < old(self).entries().len() && i != filter_idx ==> final(self).entries()[i]
                    == old(self).entries()[i],
            ({
                let pre = old(self).entries()[filter_idx as int];
                let post = final(self).entries()[filter_idx as int];
                &&& post.filter_spec() == pre.filter_spec()
                &&& r.1@ == pre.filter_spec()
                &&& offset_le(pre.log_spec().next_offset_spec(), r.0)
                &&& (pre.log_spec().segs().last().len() == 0 ==> r.0
                    == pre.log_spec().next_offset_spec())
                &&& offset_lt(r.0, post.log_spec().next_offset_spec())
                &&& r.0.0 >= post.log_spec().head_id()
                &&& pre.log_spec().head_id() <= post.log_spec().head_id() <= pre.log_spec().head_id()
                    + 1
                &&& (post.log_spec().head_id() == pre.log_spec().head_id() + 1
                    ==> pre.log_spec().segs().len() == pre.log_spec().seg_limit())
                &&& forall|off: Offset|
                    off.0 >= post.log_spec().head_id() && offset_le(off, r.0)
                        ==> post.log_spec().items_from(off) == pre.log_spec().items_from(off).push(
                        publish@,
                    )
                &&& post.waiters_view() == Seq::<(ConnectionId, DataRequest)>::empty()
                &&& final(notifications)@ == old(notifications)@ + pre.waiters_view()
            }),
    {
        let mut tmp = self.dummy_entry();
        vstd::pervasive::VecAdditionalExecFns::set_and_swap(&mut self.native, filter_idx, &mut tmp);
        let r = tmp.append(publish, notifications);
        vstd::pervasive::VecAdditionalExecFns::set_and_swap(&mut self.native, filter_idx, &mut tmp);
        proof {
            assert(self.filters() =~= old(self).filters());
            assert(self.cache() =~= old(self).cache());
            assert(self.retained() =~= old(self).retained());
            assert(self.write_markers() =~= old(self).write_markers());
            assert(self.wf());
        }
        r
    }

    /// Reads up to `len` items of this filter's log at or after `offset`.
    /// Infallible for any index that `next_native_offset` returned.
    pub fn native_readv(&self, filter_idx: FilterIdx, offset: Offset, len: u64) -> (r: (
        Position,
        Vec<Publish>,
    ))
        requires
            self.wf(),
            filter_idx < self.entries().len(),
        ensures
            ({
                let log = self.entries()[filter_idx as int].log_spec();
                let avail = log.items_from(offset);
                let k = if len <= avail.len() {
                    len as int
                } else {
                    avail.len() as int
                };
                &&& (offset.0 < log.head_id() ==> r.0 == Position::Next((log.head_id(), 0u64))
                    && r.1@.len() == 0)
                &&& (offset.0 >= log.head_id() ==> r.1.deep_view() == avail.take(k) && (avail.len()
                    < len ==> r.0 == Position::Done(log.next_offset_spec())) && (avail.len() >= len
                    ==> (r.0 matches Position::Next(c) && c.0 >= log.head_id()
                    && log.items_from(c) == avail.skip(len as int))))
            }),
    {
        let mut o: Vec<Publish> = Vec::new();
        proof {
            assert(o.deep_view() =~= Seq::<PublishView>::empty());
        }
        let next = self.native[filter_idx].log.readv(offset, len, &mut o);
        proof {
            let log = self.entries()[filter_idx as int].log_spec();
            let avail = log.items_from(offset);
            if offset.0 >= log.head_id() {
                let k = if len <= avail.len() {
                    len as int
                } else {
                    avail.len() as int
                };
                assert(o.deep_view() =~= Seq::<PublishView>::empty() + avail.take(k));
            }
        }
        (next, o)
    }

    /// Clone of the most recently appended publish on this filter, if any.
    pub fn shadow(&self, filter: &str) -> (r: Option<Publish>)
        requires
            self.wf(),
        ensures
            ({
                let f = index_of_first(
                    self.filters(),
                    |t: Seq<char>| t == filter@,
                );
                if f == -1 {
                    r is None
                } else {
                    let segs = self.entries()[f].log_spec().segs();
                    match r {
                        Some(p) => segs.last().len() > 0 && p@ == segs.last().last(),
                        None => segs =~= seq![Seq::<PublishView>::empty()],
                    }
                }
            }),
    {
        proof {
            lemma_index_of_first(self.filters(), |t: Seq<char>| t == filter@);
        }
        match self.find_filter(filter) {
            Some(i) => self.native[i].log.last(),
            None => None,
        }
    }

    /// Parks a subscriber that has read this filter to `Done`: its request is
    /// queued on the filter's waiter set until the next append.
    pub fn park(&mut self, id: ConnectionId, request: DataRequest)
        requires
            old(self).wf(),
            request.filter_idx < old(self).entries().len(),
        ensures
            final(self).wf(),
            final(self).entries().len() == old(self).entries().len(),
            final(self).entries()[request.filter_idx as int].waiters_view()
                == old(self).entries()[request.filter_idx as int].waiters_view().push(
                (id, request),
            ),
            final(self).entries()[request.filter_idx as int].log_spec()
                == old(self).entries()[request.filter_idx as int].log_spec(),
            final(self).entries()[request.filter_idx as int].filter_spec()
                == old(self).entries()[request.filter_idx as int].filter_spec(),
            forall|i: int|
                0 <= i < old(self).entries().len() && i != request.filter_idx
                    ==> final(self).entries()[i] == old(self).entries()[i],
            final(self).cache() == old(self).cache(),
            final(self).retained() == old(self).retained(),
            final(self).read_markers() == old(self).read_markers(),
            final(self).write_markers() == old(self).write_markers(),
            final(self).config_spec() == old(self).config_spec(),
    {
        let idx = request.filter_idx;
        let mut tmp = self.dummy_entry();
        vstd::pervasive::VecAdditionalExecFns::set_and_swap(&mut self.native, idx, &mut tmp);
        tmp.waiters.register(id, request);
        vstd::pervasive::VecAdditionalExecFns::set_and_swap(&mut self.native, idx, &mut tmp);
        proof {
            assert(self.filters() =~= old(self).filters());
            assert(self.cache() =~= old(self).cache());
            assert(self.retained() =~= old(self).retained());
            assert(self.write_markers() =~= old(self).write_markers());
            assert(self.wf());
        }
    }

    fn dummy_entry(&self) -> (r: Data)
        requires
            self.config_spec().max_segment_size >= 1,
            self.config_spec().max_segment_count >= 1,
        ensures
            r.wf(),
    {
        match Data::new("", self.config.max_segment_size, self.config.max_segment_count) {
            Ok(d) => d,
            Err(_) => {
                proof {
                    assert(false);
                }
                unreached()
            },
        }
    }

    /// Removes this connection from every filter's waiter set and hands back
    /// the pending requests so the driver can release their state.
    pub fn clean(&mut self, id: ConnectionId) -> (r: Vec<DataRequest>)
        requires
            old(self).wf(),
        ensures
            final(self).wf(),
            final(self).entries().len() == old(self).entries().len(),
            forall|i: int|
                0 <= i < old(self).entries().len() ==> {
                    let pre = old(self).entries()[i];
                    let post = #[trigger] final(self).entries()[i];
                    &&& post.waiters_view() == pre.waiters_view().filter(entry_not_of(id))
                    &&& post.log_spec() == pre.log_spec()
                    &&& post.filter_spec() == pre.filter_spec()
                    &&& post.meter_spec() == pre.meter_spec()
                },
            r@ == cleaned_requests(old(self).entries(), id),
            final(self).cache() == old(self).cache(),
            final(self).retained() == old(self).retained(),
            final(self).read_markers() == old(self).read_markers(),
            final(self).write_markers() == old(self).write_markers(),
            final(self).config_spec() == old(self).config_spec(),
    {
        let ghost pre_entries = self.native@;
        let mut inflight: Vec<DataRequest> = Vec::new();
        let n = self.native.len();
        let mut i: usize = 0;
        proof {
            assert(pre_entries.take(0) =~= Seq::<Data>::empty());
            assert(inflight@ =~= cleaned_requests(pre_entries.take(0), id));
        }
        while i < n
            invariant
                old(self).wf(),
                n == self.native@.len(),
                n == pre_entries.len(),
                pre_entries == old(self).native@,
                i <= n,
                self.retained_publishes == old(self).retained_publishes,
                self.publish_filters == old(self).publish_filters,
                self.filter_read_markers == old(self).filter_read_markers,
                self.filter_write_markers == old(self).filter_write_markers,
                self.config == old(self).config,
                inflight@ == cleaned_requests(pre_entries.take(i as int), id),
                forall|j: int| i <= j < n ==> #[trigger] self.native@[j] == pre_entries[j],
                forall|j: int|
                    0 <= j < i ==> {
                        let pre = pre_entries[j];
                        let post = #[trigger] self.native@[j];
                        &&& post.waiters_view() == pre.waiters_view().filter(entry_not_of(id))
                        &&& post.log_spec() == pre.log_spec()
                        &&& post.filter_spec() == pre.filter_spec()
                        &&& post.meter_spec() == pre.meter_spec()
                    },
            decreases n - i,
        {
            let mut tmp = self.dummy_entry();
            vstd::pervasive::VecAdditionalExecFns::set_and_swap(&mut self.native, i, &mut tmp);
            proof {
                assert(tmp == pre_entries[i as int]);
            }
            let mut reqs = tmp.waiters.remove(id);
            inflight.append(&mut reqs);
            vstd::pervasive::VecAdditionalExecFns::set_and_swap(&mut self.native, i, &mut tmp);
            proof {
                assert(pre_entries.take(i as int + 1).drop_last() =~= pre_entries.take(i as int));
                assert(pre_entries.take(i as int + 1).last() == pre_entries[i as int]);
                assert(inflight@ == cleaned_requests(pre_entries.take(i as int + 1), id));
            }
            i += 1;
        }
        proof {
            assert(pre_entries.take(n as int) =~= pre_entries);
            assert(self.filters() =~= old(self).filters());
            assert(self.cache() =~= old(self).cache());
            assert(self.retained() =~= old(self).retained());
            assert(self.write_markers() =~= old(self).write_markers());
            assert forall|j: int, j2: int|
                0 <= j < j2 < self.native@.len() implies (#[trigger] self.native@[j]).filter_spec()
                != (#[trigger] self.native@[j2]).filter_spec() by {
                assert(self.native@[j].filter_spec() == pre_entries[j].filter_spec());
                assert(self.native@[j2].filter_spec() == pre_entries[j2].filter_spec());
                assert(pre_entries[j].filter_spec() == old(self).filters()[j]);
                assert(pre_entries[j2].filter_spec() == old(self).filters()[j2]);
            }
            assert(self.wf());
        }
        inflight
    }
}

/// Holds of a retained-table entry whose topic matches the filter.
pub open spec fn retained_match(f: Seq<char>) -> spec_fn((Seq<char>, PublishView)) -> bool {
    |e: (Seq<char>, PublishView)| matches_spec(e.0, f)
}

/// Projects a retained-table entry to its publish.
pub open spec fn retained_value() -> spec_fn((Seq<char>, PublishView)) -> PublishView {
    |e: (Seq<char>, PublishView)| e.1
}

proof fn lemma_concat_push(a: Seq<PublishView>, b: Seq<PublishView>, x: PublishView)
    ensures
        (a + b).push(x) =~= a + b.push(x),
{
}

impl DataLog {
    /// A shared borrow of this filter's waiter set, or `None` when the
    /// filter was never registered.
    pub fn waiters(&self, filter: &str) -> (r: Option<&Waiters>)
        requires
            self.wf(),
        ensures
            ({
                let f = index_of_first(
                    self.filters(),
                    |t: Seq<char>| t == filter@,
                );
                if f == -1 {
                    r is None
                } else {
                    r matches Some(w) && w@ == self.entries()[f].waiters_view()
                }
            }),
    {
        proof {
            lemma_index_of_first(self.filters(), |t: Seq<char>| t == filter@);
        }
        match self.find_filter(filter) {
            Some(i) => Some(&self.native[i].waiters),
            None => None,
        }
    }

    /// Removes the first waiter this connection has parked on the filter and
    /// returns its request; `None` when the filter is unknown or the
    /// connection has no waiter there.
    pub fn remove_waiters_for_id(&mut self, id: ConnectionId, filter: &str) -> (r: Option<
        DataRequest,
    >)
        requires
            old(self).wf(),
        ensures
            final(self).wf(),
            final(self).entries().len() == old(self).entries().len(),
            final(self).cache() == old(self).cache(),
            final(self).retained() == old(self).retained(),
            final(self).read_markers() == old(self).read_markers(),
            final(self).write_markers() == old(self).write_markers(),
            final(self).config_spec() == old(self).config_spec(),
            ({
                let fi = index_of_first(
                    old(self).filters(),
                    |t: Seq<char>| t == filter@,
                );
                if fi == -1 {
                    r is None && *final(self) == *old(self)
                } else {
                    let w = old(self).entries()[fi].waiters_view();
                    let e = crate::waiters::first_index_for(w, id);
                    &&& forall|i: int|
                        0 <= i < old(self).entries().len() && i != fi ==> final(self).entries()[i]
                            == old(self).entries()[i]
                    &&& final(self).entries()[fi].log_spec() == old(self).entries()[fi].log_spec()
                    &&& final(self).entries()[fi].filter_spec() == old(self).entries()[fi].filter_spec()
                    &&& (if e == -1 {
                        r is None && final(self).entries()[fi].waiters_view() == w
                    } else {
                        (r matches Some(req) && req == w[e].1 && final(self).entries()[fi].waiters_view() == w.remove(e))
                    })
                }
            }),
    {
        proof {
            lemma_index_of_first(self.filters(), |t: Seq<char>| t == filter@);
        }
        let fi = match self.find_filter(filter) {
            Some(i) => i,
            None => {
                return None;
            },
        };
        let mut tmp = self.dummy_entry();
        vstd::pervasive::VecAdditionalExecFns::set_and_swap(&mut self.native, fi, &mut tmp);
        let r = tmp.waiters.remove_first_for(id);
        vstd::pervasive::VecAdditionalExecFns::set_and_swap(&mut self.native, fi, &mut tmp);
        proof {
            assert(self.filters() =~= old(self).filters());
            assert(self.cache() =~= old(self).cache());
            assert(self.retained() =~= old(self).retained());
            assert(self.write_markers() =~= old(self).write_markers());
            assert(self.wf());
        }
        r
    }

    /// Stores (or overwrites) the retained publish for a topic.
    pub fn insert_to_retained_publishes(&mut self, publish: Publish, topic: String)
        requires
            old(self).wf(),
        ensures
            final(self).wf(),
            final(self).entries() == old(self).entries(),
            final(self).cache() == old(self).cache(),
            final(self).read_markers() == old(self).read_markers(),
            final(self).write_markers() == old(self).write_markers(),
            final(self).config_spec() == old(self).config_spec(),
            ({
                let k = index_of_first(
                    old(self).retained(),
                    |e: (Seq<char>, PublishView)| e.0 == topic@,
                );
                if k == -1 {
                    final(self).retained() == old(self).retained().push((topic@, publish@))
                } else {
                    final(self).retained() == old(self).retained().update(k, (topic@, publish@))
                }
            }),
    {
        let ghost keypred = |e: (Seq<char>, PublishView)| e.0 == topic@;
        proof {
            lemma_index_of_first(self.retained(), keypred);
        }
        let m = self.retained_publishes.len();
        let mut k: usize = 0;
        while k < m
            invariant
                keypred == (|e: (Seq<char>, PublishView)| e.0 == topic@),
                m == self.retained().len(),
                k <= m,
                old(self).wf(),
                *self == *old(self),
                forall|j: int| 0 <= j < k ==> !keypred(#[trigger] self.retained()[j]),
            decreases m - k,
        {
            if str_eq(self.retained_publishes[k].0.as_str(), topic.as_str()) {
                proof {
                    lemma_index_of_first(self.retained(), keypred);
                    assert(keypred(self.retained()[k as int]));
                    assert(index_of_first(self.retained(), keypred) == k as int);
                }
                self.retained_publishes.set(k, (topic, publish));
                proof {
                    assert(self.retained() =~= old(self).retained().update(
                        k as int,
                        (topic@, publish@),
                    ));
                    assert(self.cache() =~= old(self).cache());
                    assert(self.write_markers() =~= old(self).write_markers());
                    assert(self.filters() =~= old(self).filters());
                    assert forall|k1: int, k2: int|
                        0 <= k1 < k2 < self.retained().len() implies (
                    #[trigger] self.retained()[k1]).0 != (#[trigger] self.retained()[k2]).0 by {
                        assert(old(self).retained()[k as int].0 == topic@);
                        if k1 != k as int {
                            assert(self.retained()[k1] == old(self).retained()[k1]);
                        }
                        if k2 != k as int {
                            assert(self.retained()[k2] == old(self).retained()[k2]);
                        }
                    }
                    assert(self.wf());
                }
                return ;
            }
            proof {
                assert(self.retained()[k as int].0 == self.retained_publishes@[k as int].0@);
            }
            k += 1;
        }
        proof {
            lemma_index_of_first(self.retained(), keypred);
        }
        self.retained_publishes.push((topic, publish));
        proof {
            assert(self.retained() =~= old(self).retained().push((topic@, publish@)));
            assert(self.cache() =~= old(self).cache());
            assert(self.write_markers() =~= old(self).write_markers());
            assert(self.filters() =~= old(self).filters());
            assert forall|k1: int, k2: int|
                0 <= k1 < k2 < self.retained().len() implies (#[trigger] self.retained()[k1]).0
                != (#[trigger] self.retained()[k2]).0 by {
                if k2 == self.retained().len() - 1 {
                    assert(!keypred(old(self).retained()[k1]));
                }
            }
            assert(self.wf());
        }
    }

    /// Drops the retained publish for a topic, if one is stored.
    pub fn remove_from_retained_publishes(&mut self, topic: String)
        requires
            old(self).wf(),
        ensures
            final(self).wf(),
            final(self).entries() == old(self).entries(),
            final(self).cache() == old(self).cache(),
            final(self).read_markers() == old(self).read_markers(),
            final(self).write_markers() == old(self).write_markers(),
            final(self).config_spec() == old(self).config_spec(),
            ({
                let k = index_of_first(
                    old(self).retained(),
                    |e: (Seq<char>, PublishView)| e.0 == topic@,
                );
                if k == -1 {
                    final(self).retained() == old(self).retained()
                } else {
                    final(self).retained() == old(self).retained().remove(k)
                }
            }),
    {
        let ghost keypred = |e: (Seq<char>, PublishView)| e.0 == topic@;
        proof {
            lemma_index_of_first(self.retained(), keypred);
        }
        let m = self.retained_publishes.len();
        let mut k: usize = 0;
        while k < m
            invariant
                keypred == (|e: (Seq<char>, PublishView)| e.0 == topic@),
                m == self.retained().len(),
                k <= m,
                old(self).wf(),
                *self == *old(self),
                forall|j: int| 0 <= j < k ==> !keypred(#[trigger] self.retained()[j]),
            decreases m - k,
        {
            if str_eq(self.retained_publishes[k].0.as_str(), topic.as_str()) {
                proof {
                    lemma_index_of_first(self.retained(), keypred);
                    assert(keypred(self.retained()[k as int]));
                    assert(index_of_first(self.retained(), keypred) == k as int);
                }
                self.retained_publishes.remove(k);
                proof {
                    assert(self.retained() =~= old(self).retained().remove(k as int));
                    assert(self.cache() =~= old(self).cache());
                    assert(self.write_markers() =~= old(self).write_markers());
                    assert(self.filters() =~= old(self).filters());
                    assert forall|k1: int, k2: int|
                        0 <= k1 < k2 < self.retained().len() implies (
                    #[trigger] self.retained()[k1]).0 != (#[trigger] self.retained()[k2]).0 by {
                        let m1 = if k1 < k as int {
                            k1
                        } else {
                            k1 + 1
                        };
                        let m2 = if k2 < k as int {
                            k2
                        } else {
                            k2 + 1
                        };
                        assert(self.retained()[k1] == old(self).retained()[m1]);
                        assert(self.retained()[k2] == old(self).retained()[m2]);
                    }
                    assert(self.wf());
                }
                return ;
            }
            proof {
                assert(self.retained()[k as int].0 == self.retained_publishes@[k as int].0@);
            }
            k += 1;
        }
        proof {
            lemma_index_of_first(self.retained(), keypred);
        }
    }

    /// Records a subscriber reading this filter, setting its read marker to
    /// the start cursor and recomputing the slowest marker.
    pub fn register_subscriber(
        &mut self,
        filter_id: FilterIdx,
        start_cursor: Offset,
        subscriber_id: ConnectionId,
    )
        requires
            old(self).wf(),
            filter_id < old(self).entries().len(),
        ensures
            final(self).wf(),
            final(self).entries() == old(self).entries(),
            final(self).cache() == old(self).cache(),
            final(self).retained() == old(self).retained(),
            final(self).write_markers() == old(self).write_markers(),
            final(self).config_spec() == old(self).config_spec(),
            final(self).read_markers().len() == old(self).read_markers().len(),
            forall|i: int|
                0 <= i < old(self).read_markers().len() && i != filter_id ==> final(self).read_markers()[i] == old(self).read_markers()[i],
            final(self).read_markers()[filter_id as int].markers()
                == crate::marker::upsert_marker(
                old(self).read_markers()[filter_id as int].markers(),
                subscriber_id,
                start_cursor,
            ),
    {
        self.update_subscriber_marker(filter_id, subscriber_id, start_cursor);
    }

    /// Sets a subscriber's persisted offset on this filter and reports
    /// whether the filter's slowest marker strictly advanced.
    pub fn update_subscriber_marker(
        &mut self,
        filter_id: FilterIdx,
        subscriber_id: ConnectionId,
        marker: Offset,
    ) -> (r: bool)
        requires
            old(self).wf(),
            filter_id < old(self).entries().len(),
        ensures
            final(self).wf(),
            final(self).entries() == old(self).entries(),
            final(self).cache() == old(self).cache(),
            final(self).retained() == old(self).retained(),
            final(self).write_markers() == old(self).write_markers(),
            final(self).config_spec() == old(self).config_spec(),
            final(self).read_markers().len() == old(self).read_markers().len(),
            forall|i: int|
                0 <= i < old(self).read_markers().len() && i != filter_id ==> final(self).read_markers()[i] == old(self).read_markers()[i],
            final(self).read_markers()[filter_id as int].markers()
                == crate::marker::upsert_marker(
                old(self).read_markers()[filter_id as int].markers(),
                subscriber_id,
                marker,
            ),
            r == crate::marker::slowest_advanced(
                old(self).read_markers()[filter_id as int].slowest(),
                final(self).read_markers()[filter_id as int].slowest(),
            ),
    {
        let mut tmp = ReadMarker::new();
        vstd::pervasive::VecAdditionalExecFns::set_and_swap(
            &mut self.filter_read_markers,
            filter_id,
            &mut tmp,
        );
        let r = tmp.update_subscriber_marker(subscriber_id, marker);
        vstd::pervasive::VecAdditionalExecFns::set_and_swap(
            &mut self.filter_read_markers,
            filter_id,
            &mut tmp,
        );
        proof {
            assert(self.filters() =~= old(self).filters());
            assert(self.cache() =~= old(self).cache());
            assert(self.retained() =~= old(self).retained());
            assert(self.write_markers() =~= old(self).write_markers());
            assert(self.wf());
        }
        r
    }

    /// The slowest persisted offset over this filter's subscribers, or
    /// `None` when none is registered.
    pub fn slowest_marker(&self, filter_id: FilterIdx) -> (r: Option<Offset>)
        requires
            self.wf(),
            filter_id < self.entries().len(),
        ensures
            r == self.read_markers()[filter_id as int].slowest(),
    {
        self.filter_read_markers[filter_id].get_slowest_marker()
    }

    /// Replays every retained publish whose topic matches this (newly
    /// subscribed) filter by appending a clone to the filter's log; waiters
    /// woken by the first append are collected into `notifications`.
    pub fn handle_retained_messages(&mut self, filter: &str, notifications: &mut VecDeque<(
        ConnectionId,
        DataRequest,
    )>)
        requires
            old(self).wf(),
            index_of_first(
                old(self).filters(),
                |t: Seq<char>| t == filter@,
            ) != -1,
        ensures
            final(self).wf(),
            final(self).entries().len() == old(self).entries().len(),
            final(self).cache() == old(self).cache(),
            final(self).retained() == old(self).retained(),
            final(self).read_markers() == old(self).read_markers(),
            final(self).write_markers() == old(self).write_markers(),
            final(self).config_spec() == old(self).config_spec(),
            ({
                let fi = index_of_first(
                    old(self).filters(),
                    |t: Seq<char>| t == filter@,
                );
                let pre = old(self).entries()[fi];
                let post = final(self).entries()[fi];
                let appended = old(self).retained().filter(retained_match(filter@)).map_values(
                    retained_value(),
                );
                &&& forall|i: int|
                    0 <= i < old(self).entries().len() && i != fi ==> final(self).entries()[i]
                        == old(self).entries()[i]
                &&& post.filter_spec() == pre.filter_spec()
                &&& post.log_spec().head_id() >= pre.log_spec().head_id()
                &&& forall|off: Offset|
                    off.0 >= post.log_spec().head_id() && offset_le(
                        off,
                        pre.log_spec().next_offset_spec(),
                    ) ==> post.log_spec().items_from(off) == pre.log_spec().items_from(off)
                        + appended
                &&& (appended.len() == 0 ==> post.waiters_view() == pre.waiters_view() && final(notifications)@ == old(notifications)@)
                &&& (appended.len() > 0 ==> post.waiters_view().len() == 0 && final(notifications)@
                    == old(notifications)@ + pre.waiters_view())
                &&& post.meter_spec().count == (if pre.meter_spec().count + appended.len()
                    <= u64::MAX {
                    pre.meter_spec().count + appended.len()
                } else {
                    u64::MAX as int
                })
                &&& post.meter_spec().total_size == (if pre.meter_spec().total_size + sizes_sum(
                    appended,
                ) <= u64::MAX {
                    pre.meter_spec().total_size + sizes_sum(appended)
                } else {
                    u64::MAX as int
                })
                &&& (appended.len() == 0 ==> post.meter_spec() == pre.meter_spec())
            }),
    {
        let ghost fpred = |t: Seq<char>| t == filter@;
        proof {
            lemma_index_of_first(self.filters(), fpred);
        }
        let fi = match self.find_filter(filter) {
            Some(i) => i,
            None => {
                proof {
                    assert(false);
                }
                unreached()
            },
        };
        let mut d = self.dummy_entry();
        vstd::pervasive::VecAdditionalExecFns::set_and_swap(&mut self.native, fi, &mut d);
        let ghost orig = old(self).entries()[fi as int];
        let ghost start_next = orig.log_spec().next_offset_spec();
        proof {
            assert(d == orig);
            assert(orig.log_spec().items_from(start_next).len() == 0) by {
                orig.log_spec().lemma_items_from_next_empty();
            }
        }
        let rn = self.retained_publishes.len();
        let mut r: usize = 0;
        proof {
            assert(old(self).retained().take(0) =~= Seq::<(Seq<char>, PublishView)>::empty());
            reveal(Seq::filter);
            assert(old(self).retained().take(0).filter(retained_match(filter@)).map_values(
                retained_value(),
            ) =~= Seq::<PublishView>::empty());
        }
        while r < rn
            invariant
                old(self).wf(),
                rn == self.retained_publishes@.len(),
                r <= rn,
                self.retained_publishes == old(self).retained_publishes,
                old(self).retained().len() == rn,
                d.wf(),
                d.filter_spec() == orig.filter_spec(),
                d.log_spec().seg_limit() == orig.log_spec().seg_limit(),
                orig.log_spec().head_id() <= d.log_spec().head_id(),
                offset_le(start_next, d.log_spec().next_offset_spec()),
                start_next == orig.log_spec().next_offset_spec(),
                ({
                    let pref = old(self).retained().take(r as int).filter(
                        retained_match(filter@),
                    ).map_values(retained_value());
                    &&& forall|off: Offset|
                        off.0 >= d.log_spec().head_id() && offset_le(off, start_next)
                            ==> d.log_spec().items_from(off) == orig.log_spec().items_from(off)
                            + pref
                    &&& (pref.len() == 0 ==> d.waiters_view() == orig.waiters_view()
                        && notifications@ == old(notifications)@)
                    &&& (pref.len() > 0 ==> d.waiters_view().len() == 0 && notifications@ == old(notifications)@ + orig.waiters_view())
                    &&& sizes_sum(pref) >= 0
                    &&& d.meter_spec().count == (if orig.meter_spec().count + pref.len()
                        <= u64::MAX {
                        orig.meter_spec().count + pref.len()
                    } else {
                        u64::MAX as int
                    })
                    &&& d.meter_spec().total_size == (if orig.meter_spec().total_size + sizes_sum(
                        pref,
                    ) <= u64::MAX {
                        orig.meter_spec().total_size + sizes_sum(pref)
                    } else {
                        u64::MAX as int
                    })
                    &&& (pref.len() == 0 ==> d.meter_spec() == orig.meter_spec())
                }),
            decreases rn - r,
        {
            let ghost pref = old(self).retained().take(r as int).filter(
                retained_match(filter@),
            ).map_values(retained_value());
            let ghost rent = old(self).retained()[r as int];
            proof {
                assert(old(self).retained()[r as int] == (
                    self.retained_publishes@[r as int].0@,
                    self.retained_publishes@[r as int].1@,
                ));
                reveal(Seq::filter);
                let t1 = old(self).retained().take(r as int + 1);
                assert(t1.drop_last() =~= old(self).retained().take(r as int));
                assert(t1.last() == rent);
            }
            let hit = crate::protocol::matches(self.retained_publishes[r].0.as_str(), filter);
            if hit {
                let p = self.retained_publishes[r].1.clone();
                let ghost pre_d = d;
                let ghost pre_notif = notifications@;
                let o = d.append(p, notifications);
                proof {
                    reveal(Seq::filter);
                    let t1 = old(self).retained().take(r as int + 1);
                    assert(t1.filter(retained_match(filter@)) == t1.drop_last().filter(
                        retained_match(filter@),
                    ).push(rent));
                    let pref2 = t1.filter(retained_match(filter@)).map_values(retained_value());
                    assert(pref2 =~= pref.push(rent.1));
                    assert(p@ == rent.1);
                    assert(sizes_sum(pref2) == sizes_sum(pref) + publish_size_spec(p@)) by {
                        assert(pref2.drop_last() =~= pref);
                        assert(pref2.last() == p@);
                    }
                    assert(publish_size_spec(p@) >= 0);
                    assert forall|off: Offset|
                        off.0 >= d.log_spec().head_id() && offset_le(off, start_next) implies
                        d.log_spec().items_from(off) == orig.log_spec().items_from(off)
                            + pref2 by {
                        assert(offset_le(off, o.0)) by {
                            assert(offset_le(start_next, pre_d.log_spec().next_offset_spec()));
                            assert(offset_le(pre_d.log_spec().next_offset_spec(), o.0));
                        }
                        assert(d.log_spec().items_from(off) == pre_d.log_spec().items_from(
                            off,
                        ).push(p@));
                        assert(pre_d.log_spec().items_from(off) == orig.log_spec().items_from(off)
                            + pref);
                        lemma_concat_push(orig.log_spec().items_from(off), pref, p@);
                    }
                    if pref.len() == 0 {
                        assert(notifications@ =~= old(notifications)@ + orig.waiters_view());
                    } else {
                        assert(notifications@ =~= pre_notif + Seq::<(
                            ConnectionId,
                            DataRequest,
                        )>::empty());
                        assert(notifications@ =~= old(notifications)@ + orig.waiters_view());
                    }
                }
            } else {
                proof {
                    reveal(Seq::filter);
                    let t1 = old(self).retained().take(r as int + 1);
                    assert(!retained_match(filter@)(rent));
                    assert(t1.filter(retained_match(filter@)) == t1.drop_last().filter(
                        retained_match(filter@),
                    ));
                }
            }
            r += 1;
        }
        proof {
            assert(old(self).retained().take(rn as int) =~= old(self).retained());
        }
        let ghost d_final = d;
        vstd::pervasive::VecAdditionalExecFns::set_and_swap(&mut self.native, fi, &mut d);
        proof {
            assert(self.entries()[fi as int] == d_final);
            assert(self.filters() =~= old(self).filters());
            assert(self.cache() =~= old(self).cache());
            assert(self.retained() =~= old(self).retained());
            assert(self.write_markers() =~= old(self).write_markers());
            assert forall|j: int, j2: int|
                0 <= j < j2 < self.native@.len() implies (#[trigger] self.native@[j]).filter_spec()
                != (#[trigger] self.native@[j2]).filter_spec() by {
                assert(old(self).filters()[j] == old(self).entries()[j].filter_spec());
                assert(old(self).filters()[j2] == old(self).entries()[j2].filter_spec());
            }
            assert(self.wf());
        }
    }
}

/// Law: a filter index resolves exactly one filter. In any well-formed data
/// log distinct indices name distinct filters, so an index is never reused;
/// and every operation's contract preserves the already-registered entries
/// unchanged, so the binding seen in any later state is the one made when
/// `next_native_offset` first returned the index.
pub proof fn lemma_filter_idx_resolves(log: DataLog, i: int, j: int)
    requires
        log.wf(),
        0 <= i < log.filters().len(),
        0 <= j < log.filters().len(),
    ensures
        (log.filters()[i] == log.filters()[j]) <==> i == j,
{
    if i < j {
        assert(log.entries()[i].filter_spec() != log.entries()[j].filter_spec());
    } else if j < i {
        assert(log.entries()[j].filter_spec() != log.entries()[i].filter_spec());
    }
}

/// Law: the topic-to-filters cache is a pure memoisation. In every
/// well-formed data log — and every operation returns one — each cached
/// entry lists exactly the indices of the filters matching its topic, in
/// increasing order, as recomputing from scratch would.
pub proof fn lemma_cache_correct(log: DataLog, k: int)
    requires
        log.wf(),
        0 <= k < log.cache().len(),
    ensures
        cache_entry_ok(log.cache()[k].0, log.cache()[k].1, log.filters()),
{
}

/// All pending requests of `id`, over all filter entries in index order,
/// each filter's in registration order.
pub open spec fn cleaned_requests(entries: Seq<Data>, id: ConnectionId) -> Seq<DataRequest>
    decreases entries.len(),
{
    if entries.len() == 0 {
        Seq::empty()
    } else {
        cleaned_requests(entries.drop_last(), id) + entries.last().waiters_view().filter(
            entry_of(id),
        ).map_values(request_of())
    }
}

} // verus!
