use std::collections::VecDeque;

use rumqtt_core::datalog::DataLog;
use rumqtt_core::marker::ReadMarker;
use rumqtt_core::protocol::{PubAck, Publish};
use rumqtt_core::segments::{CommitLog, Position};
use rumqtt_core::waiters::DataRequest;
use rumqtt_core::{ConnectionId, RouterConfig};

fn config() -> RouterConfig {
    RouterConfig {
        instant_ack: true,
        max_segment_size: 1024,
        max_connections: 10,
        max_segment_count: 10,
        max_read_len: 1024,
        initialized_filters: None,
    }
}

fn publish(topic: &str, payload: &[u8]) -> Publish {
    Publish {
        dup: false,
        qos: 1,
        retain: false,
        topic: topic.to_string(),
        pkid: 1,
        payload: payload.to_vec(),
    }
}

fn request(filter: &str, filter_idx: usize) -> DataRequest {
    DataRequest {
        filter: filter.to_string(),
        filter_idx,
        qos: 1,
        cursor: (0, 0),
        max_count: 100,
    }
}

#[test]
fn publish_filters_updating_correctly_on_new_topic_subscription() {
    let config = RouterConfig {
        instant_ack: true,
        max_segment_size: 1024,
        max_connections: 10,
        max_segment_count: 10,
        max_read_len: 1024,
        initialized_filters: None,
    };
    let mut data = DataLog::new(config).unwrap();
    data.next_native_offset("topic/a");
    data.matches("topic/a");

    data.next_native_offset("topic/+");

    assert_eq!(data.cached_filters("topic/a").unwrap().len(), 2);
}

#[test]
fn publish_filters_updating_correctly_on_new_publish() {
    let config = RouterConfig {
        instant_ack: true,
        max_segment_size: 1024,
        max_connections: 10,
        max_segment_count: 10,
        max_read_len: 1024,
        initialized_filters: None,
    };
    let mut data = DataLog::new(config).unwrap();
    data.next_native_offset("+/+");

    data.matches("topic/a");

    assert_eq!(data.cached_filters("topic/a").unwrap().len(), 1);
}

#[test]
fn basic_fanout() {
    let mut data = DataLog::new(config()).unwrap();
    let (idx_a, off_a) = data.next_native_offset("topic/a");
    let (idx_w, off_w) = data.next_native_offset("topic/+");
    assert_eq!(idx_a, 0);
    assert_eq!(idx_w, 1);
    assert_eq!(off_a, (0, 0));
    assert_eq!(off_w, (0, 0));

    let targets = data.matches("topic/a").unwrap();
    assert_eq!(targets, vec![0, 1]);

    let mut notifications: VecDeque<(ConnectionId, DataRequest)> = VecDeque::new();
    for idx in targets {
        let (off, filter) = data.append(idx, publish("topic/a", b"hello"), &mut notifications);
        assert_eq!(off, (0, 0));
        assert!(filter == "topic/a" || filter == "topic/+");
    }
    let (_, next_a) = data.next_native_offset("topic/a");
    let (_, next_w) = data.next_native_offset("topic/+");
    assert_eq!(next_a, (0, 1));
    assert_eq!(next_w, (0, 1));
}

#[test]
fn wildcard_subscribed_after_publish_cache() {
    let mut data = DataLog::new(config()).unwrap();
    let (wild, _) = data.next_native_offset("+/+");
    data.matches("topic/a");
    assert_eq!(data.cached_filters("topic/a").unwrap(), vec![wild]);

    let (exact, _) = data.next_native_offset("topic/a");
    assert_eq!(data.cached_filters("topic/a").unwrap(), vec![wild, exact]);
}

#[test]
fn park_and_wake() {
    let mut data = DataLog::new(config()).unwrap();
    let (idx, _) = data.next_native_offset("topic/a");

    let (pos, items) = data.native_readv(idx, (0, 0), 10);
    assert!(items.is_empty());
    assert!(matches!(pos, Position::Done((0, 0))));

    data.park(7, request("topic/a", idx));

    let mut notifications: VecDeque<(ConnectionId, DataRequest)> = VecDeque::new();
    data.append(idx, publish("topic/a", b"x"), &mut notifications);
    assert_eq!(notifications.len(), 1);
    let (conn, req) = notifications.pop_front().unwrap();
    assert_eq!(conn, 7);
    assert_eq!(req.filter, "topic/a");

    let (pos, items) = data.native_readv(idx, (0, 0), 10);
    assert_eq!(items.len(), 1);
    assert_eq!(items[0].payload, b"x".to_vec());
    assert!(matches!(pos, Position::Done((0, 1))));
}

#[test]
fn deferred_ack_release() {
    let mut acks = rumqtt_core::acklog::AckLog::new();
    let puback = PubAck { pkid: 9, reason: 0 };
    let o1 = (0u64, 4u64);
    let o2 = (0u64, 7u64);
    let o3 = (1u64, 2u64);
    acks.insert_pending_acks(puback, vec![(0, o1), (1, o2), (2, o3)]);

    acks.update_threshold(0, o1);
    acks.update_threshold(1, (0, 6));
    acks.update_threshold(2, o3);
    assert_eq!(acks.readv().len(), 0);

    acks.update_threshold(1, o2);
    let committed = acks.readv();
    assert_eq!(committed.len(), 1);
    assert!(matches!(
        committed[0],
        rumqtt_core::acklog::Ack::PubAck(PubAck { pkid: 9, reason: 0 })
    ));
}

#[test]
fn deferred_acks_released_in_insertion_order() {
    let mut acks = rumqtt_core::acklog::AckLog::new();
    acks.insert_pending_acks(PubAck { pkid: 1, reason: 0 }, vec![(0, (0, 1))]);
    acks.insert_pending_acks(PubAck { pkid: 2, reason: 0 }, vec![(1, (0, 1))]);

    // The second ack's filter is persisted first: nothing may be released.
    acks.update_threshold(1, (0, 5));
    assert_eq!(acks.readv().len(), 0);

    // Once the head is satisfied, both leave, oldest first.
    acks.update_threshold(0, (0, 5));
    let committed = acks.readv();
    assert_eq!(committed.len(), 2);
    assert!(matches!(
        committed[0],
        rumqtt_core::acklog::Ack::PubAck(PubAck { pkid: 1, .. })
    ));
    assert!(matches!(
        committed[1],
        rumqtt_core::acklog::Ack::PubAck(PubAck { pkid: 2, .. })
    ));
}

#[test]
fn puback_with_no_matching_filters_is_immediate() {
    let mut acks = rumqtt_core::acklog::AckLog::new();
    acks.insert_pending_acks(PubAck { pkid: 3, reason: 0 }, vec![]);
    let committed = acks.readv();
    assert_eq!(committed.len(), 1);
    assert!(matches!(
        committed[0],
        rumqtt_core::acklog::Ack::PubAck(PubAck { pkid: 3, .. })
    ));
}

#[test]
fn qos2_record_and_complete() {
    let mut acks = rumqtt_core::acklog::AckLog::new();
    acks.pubrec(
        publish("topic/a", b"payload"),
        rumqtt_core::protocol::PubRec { pkid: 5, reason: 0 },
    );
    let done = acks.pubcomp(rumqtt_core::pubcomp::PubComp::new(5, None));
    assert_eq!(done.unwrap().topic, "topic/a");
    assert!(acks.pubcomp(rumqtt_core::pubcomp::PubComp::new(6, None)).is_none());
}

#[test]
fn commit_log_offsets_strictly_increase() {
    let mut log = CommitLog::new(32, 3).unwrap();
    let mut last: Option<(u64, u64)> = None;
    for i in 0..20u8 {
        let off = log.append(publish("t", &[i; 10]));
        if let Some(prev) = last {
            assert!(prev.0 < off.0 || (prev.0 == off.0 && prev.1 < off.1));
        }
        last = Some(off);
    }
}

#[test]
fn commit_log_eviction_jumps_readers_forward() {
    // Tiny segments: every publish seals one, and old segments are evicted.
    let mut log = CommitLog::new(1, 2).unwrap();
    for i in 0..6u8 {
        log.append(publish("t", &[i; 4]));
    }
    let mut out = Vec::new();
    let pos = log.readv((0, 0), 10, &mut out);
    // Offset (0, 0) was evicted: nothing is read and the caller is pointed
    // at the oldest live offset.
    assert!(out.is_empty());
    let jump = match pos {
        Position::Next(c) => c,
        Position::Done(_) => panic!("expected a jump forward"),
    };
    assert!(jump.0 > 0);

    let pos = log.readv(jump, 10, &mut out);
    assert!(!out.is_empty());
    match pos {
        Position::Done(c) => assert_eq!(c, log.next_offset()),
        Position::Next(_) => panic!("expected to catch up"),
    }
}

#[test]
fn read_marker_tracks_slowest_subscriber() {
    let mut marker = ReadMarker::new();
    assert_eq!(marker.get_slowest_marker(), None);

    assert!(marker.update_subscriber_marker(1, (0, 5)));
    assert_eq!(marker.get_slowest_marker(), Some((0, 5)));

    // A second, slower subscriber pulls the slowest marker back.
    assert!(!marker.update_subscriber_marker(2, (0, 2)));
    assert_eq!(marker.get_slowest_marker(), Some((0, 2)));

    // Advancing the slow one moves the minimum forward.
    assert!(marker.update_subscriber_marker(2, (0, 4)));
    assert_eq!(marker.get_slowest_marker(), Some((0, 4)));

    // Removing the slowest subscriber advances the minimum.
    assert!(marker.remove_subscriber(2));
    assert_eq!(marker.get_slowest_marker(), Some((0, 5)));
}

#[test]
fn clean_returns_all_pending_requests() {
    let mut data = DataLog::new(config()).unwrap();
    let (a, _) = data.next_native_offset("topic/a");
    let (b, _) = data.next_native_offset("topic/b");
    data.park(1, request("topic/a", a));
    data.park(2, request("topic/a", a));
    data.park(1, request("topic/b", b));

    let inflight = data.clean(1);
    assert_eq!(inflight.len(), 2);
    assert_eq!(inflight[0].filter, "topic/a");
    assert_eq!(inflight[1].filter, "topic/b");

    // Connection 2 still waits on topic/a.
    let req = data.remove_waiters_for_id(2, "topic/a");
    assert_eq!(req.unwrap().filter, "topic/a");
    assert!(data.remove_waiters_for_id(2, "topic/a").is_none());
}

#[test]
fn retained_publishes_replay_to_new_filters() {
    let mut data = DataLog::new(config()).unwrap();
    let mut retained = publish("topic/a", b"sticky");
    retained.retain = true;
    data.insert_to_retained_publishes(retained, "topic/a".to_string());

    let (idx, _) = data.next_native_offset("topic/+");
    let mut notifications: VecDeque<(ConnectionId, DataRequest)> = VecDeque::new();
    data.handle_retained_messages("topic/+", &mut notifications);

    let (_, items) = data.native_readv(idx, (0, 0), 10);
    assert_eq!(items.len(), 1);
    assert_eq!(items[0].payload, b"sticky".to_vec());

    data.remove_from_retained_publishes("topic/a".to_string());
    let (idx2, _) = data.next_native_offset("other/+");
    data.handle_retained_messages("other/+", &mut notifications);
    let (_, items) = data.native_readv(idx2, (0, 0), 10);
    assert!(items.is_empty());
}

#[test]
fn meter_and_shadow_follow_appends() {
    let mut data = DataLog::new(config()).unwrap();
    let (idx, _) = data.next_native_offset("topic/a");
    assert!(data.meter("topic/a").unwrap().count == 0);
    assert!(data.shadow("topic/a").is_none());
    assert!(data.meter("missing").is_none());

    let mut notifications: VecDeque<(ConnectionId, DataRequest)> = VecDeque::new();
    data.append(idx, publish("topic/a", b"one"), &mut notifications);
    data.append(idx, publish("topic/a", b"two"), &mut notifications);

    let meter = data.meter("topic/a").unwrap();
    assert_eq!(meter.count, 2);
    assert_eq!(meter.append_offset, (0, 1));
    assert_eq!(data.shadow("topic/a").unwrap().payload, b"two".to_vec());
}

#[test]
fn subscriber_markers_advance_slowest() {
    let mut data = DataLog::new(config()).unwrap();
    let (idx, _) = data.next_native_offset("topic/a");
    data.register_subscriber(idx, (0, 0), 1);
    data.register_subscriber(idx, (0, 0), 2);
    assert_eq!(data.slowest_marker(idx), Some((0, 0)));

    assert!(!data.update_subscriber_marker(idx, 1, (0, 3)));
    assert_eq!(data.slowest_marker(idx), Some((0, 0)));
    assert!(data.update_subscriber_marker(idx, 2, (0, 2)));
    assert_eq!(data.slowest_marker(idx), Some((0, 2)));
}

#[test]
fn matcher_follows_wildcard_rules() {
    let matches = rumqtt_core::protocol::matches;
    assert!(matches("topic/a", "topic/a"));
    assert!(matches("topic/a", "topic/+"));
    assert!(matches("topic/a", "#"));
    assert!(matches("topic/a/b", "topic/#"));
    assert!(matches("topic", "topic/#"));
    assert!(!matches("topic/a", "topic"));
    assert!(!matches("topic", "topic/a"));
    assert!(!matches("topic/a", "topic/b"));
    assert!(!matches("topic/a/b", "topic/+"));
    // Empty levels are real levels.
    assert!(matches("/a", "+/a"));
    assert!(!matches("/a", "a"));
    // System topics do not match leading wildcards.
    assert!(!matches("$SYS/uptime", "#"));
    assert!(!matches("$SYS/uptime", "+/uptime"));
    assert!(matches("$SYS/uptime", "$SYS/+"));
}

#[test]
fn warmup_filters_are_registered() {
    let mut cfg = config();
    cfg.initialized_filters = Some(vec!["warm/a".to_string(), "warm/b".to_string()]);
    let mut data = DataLog::new(cfg).unwrap();
    assert_eq!(data.filter_count(), 2);
    let (idx, off) = data.next_native_offset("warm/a");
    assert_eq!(idx, 0);
    assert_eq!(off, (0, 0));
    assert_eq!(data.matches("warm/a").unwrap(), vec![0]);
}

#[test]
fn zero_bounds_are_rejected() {
    let mut cfg = config();
    cfg.max_segment_count = 0;
    assert!(DataLog::new(cfg).is_err());
    assert!(CommitLog::new(0, 4).is_err());
}

#[test]
fn thresholds_before_insertion_do_not_release() {
    let mut acks = rumqtt_core::acklog::AckLog::new();
    // A marker advance recorded before the publish arrives says nothing
    // about it: a deferred ack starts with an empty thresholds map.
    acks.update_threshold(0, (9, 9));
    acks.insert_pending_acks(PubAck { pkid: 4, reason: 0 }, vec![(0, (0, 0))]);
    assert_eq!(acks.readv().len(), 0);

    acks.update_threshold(0, (0, 0));
    let committed = acks.readv();
    assert_eq!(committed.len(), 1);
    assert!(matches!(
        committed[0],
        rumqtt_core::acklog::Ack::PubAck(PubAck { pkid: 4, .. })
    ));
}
