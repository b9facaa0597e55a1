//! Unit checks of the building blocks: interval sets, buckets, pages,
//! metrics and the session state machine.
use message_bus::bucket::MessagesBucket;
use message_bus::intervals::{IdRange, IntervalSet};
use message_bus::loader::{next_load_decision, LoadDecision, PageLoadError, MAX_LOAD_ATTEMPTS};
use message_bus::metrics::TopicMetrics;
use message_bus::pages::{build_ready_page, MessageContent, MessageSize, PageStore};
use message_bus::session::{session_accepts, MyServiceBusSession, PacketKind, SessionStatus};

#[test]
fn interval_set_enqueue_and_dequeue_in_order() {
    let mut s = IntervalSet::new();
    s.enqueue(5);
    s.enqueue(3);
    s.enqueue(4);
    s.enqueue(10);
    assert_eq!(s.len(), 4);
    assert_eq!(s.peek(), Some(3));
    assert_eq!(s.dequeue(), Some(3));
    assert_eq!(s.dequeue(), Some(4));
    assert_eq!(s.dequeue(), Some(5));
    assert_eq!(s.dequeue(), Some(10));
    assert_eq!(s.dequeue(), None);
}

#[test]
fn interval_set_merges_adjacent_ids_into_one_range() {
    let mut s = IntervalSet::new();
    for id in 100..200 {
        s.enqueue(id);
    }
    let snapshot = s.get_snapshot();
    assert_eq!(snapshot.len(), 1);
    assert_eq!(snapshot[0].from_id, 100);
    assert_eq!(snapshot[0].to_id, 199);
}

#[test]
fn interval_set_bulk_range_is_one_entry() {
    let mut s = IntervalSet::new();
    s.push_back_range(1, 1_000_000);
    assert_eq!(s.len(), 1_000_000);
    assert_eq!(s.get_snapshot().len(), 1);
}

#[test]
fn interval_set_snapshot_restore_round_trip() {
    let mut s = IntervalSet::new();
    s.push_back_range(1, 9);
    s.enqueue(20);
    s.enqueue(40);
    let snapshot = s.get_snapshot();
    let restored = IntervalSet::restore(snapshot).expect("snapshot ranges are well formed");
    assert_eq!(restored.get_snapshot().len(), 3);
    let mut r = restored;
    assert_eq!(r.len(), 11);
    assert_eq!(r.dequeue(), Some(1));
}

#[test]
fn interval_set_restore_rejects_unsorted_ranges() {
    let ranges = vec![IdRange { from_id: 10, to_id: 20 }, IdRange { from_id: 5, to_id: 6 }];
    assert!(IntervalSet::restore(ranges).is_none());
}

#[test]
fn bucket_groups_messages_by_page() {
    let mut b = MessagesBucket::new();
    b.add(998, 0, 10);
    b.add(999, 0, 10);
    b.add(1000, 0, 10);
    assert_eq!(b.pages.len(), 2);
    assert_eq!(b.pages[0].page_id, 0);
    assert_eq!(b.pages[0].messages.len(), 2);
    assert_eq!(b.pages[1].page_id, 1);
    assert_eq!(b.total_count, 3);
    assert_eq!(b.total_size, 30);
    assert_eq!(b.min_id, Some(998));
    assert_eq!(b.max_id, Some(1000));
}

#[test]
fn page_store_single_flight_reservation() {
    let mut store = PageStore::new();
    let first = store.get_or_reserve(7);
    let second = store.get_or_reserve(7);
    assert!(first);
    assert!(!second);
}

#[test]
fn page_store_probe_finds_inserted_message() {
    let mut store = PageStore::new();
    let ok = store.insert_message(MessageContent {
        id: 1502,
        content: vec![1, 2, 3, 4],
        headers: Vec::new(),
        created_at: 0,
    });
    assert!(ok);
    assert_eq!(store.get_message_size(1502), MessageSize::MessageIsReady(4));
    assert_eq!(store.get_message_size(1503), MessageSize::CanNotBeLoaded);
    assert_eq!(store.get_message_size(2502), MessageSize::NotLoaded);
}

#[test]
fn build_ready_page_marks_absent_slots_missing() {
    let msgs = vec![
        MessageContent { id: 2000, content: vec![9], headers: Vec::new(), created_at: 0 },
        MessageContent { id: 2002, content: vec![7, 7], headers: Vec::new(), created_at: 0 },
    ];
    let page = build_ready_page(2, msgs);
    assert_eq!(page.get_message_size(2000), MessageSize::MessageIsReady(1));
    assert_eq!(page.get_message_size(2001), MessageSize::CanNotBeLoaded);
    assert_eq!(page.get_message_size(2002), MessageSize::MessageIsReady(2));
    assert_eq!(page.size_bytes, 3);
}

#[test]
fn page_store_gc_keeps_pages_at_or_above_floor() {
    let mut store = PageStore::new();
    for pid in 0..5 {
        let page = build_ready_page(pid, Vec::new());
        store.restore_page(page);
    }
    store.gc(3);
    assert_eq!(store.pages.len(), 2);
    for p in &store.pages {
        assert!(p.page_id >= 3);
    }
}

#[test]
fn loader_gives_up_on_corrupt_pages_immediately() {
    assert_eq!(
        next_load_decision(0, PageLoadError::ZipOperationError),
        LoadDecision::GiveUpMissing
    );
}

#[test]
fn loader_retries_transient_errors_until_budget_spent() {
    for attempt in 0..MAX_LOAD_ATTEMPTS - 1 {
        assert_eq!(next_load_decision(attempt, PageLoadError::Transient), LoadDecision::Retry);
    }
    assert_eq!(
        next_load_decision(MAX_LOAD_ATTEMPTS - 1, PageLoadError::Transient),
        LoadDecision::GiveUpMissing
    );
}

#[test]
fn metrics_tick_rolls_over_counters() {
    let mut m = TopicMetrics::new();
    m.update_topic_metrics(10);
    m.update_topic_metrics(5);
    m.one_second_tick(42);
    assert_eq!(m.messages_per_second, 15);
    assert_eq!(m.packets_per_second, 2);
    assert_eq!(m.persist_queue_size, 42);
    assert_eq!(m.publish_history.get(), vec![15]);
    m.one_second_tick(0);
    assert_eq!(m.messages_per_second, 0);
    assert_eq!(m.publish_history.get(), vec![15, 0]);
}

#[test]
fn session_handshake_walks_new_greeted_ready() {
    let mut s = MyServiceBusSession::new(1, String::from("127.0.0.1:5000"), 1000);
    assert_eq!(s.status, SessionStatus::New);
    assert!(session_accepts(s.status, PacketKind::Greeting));
    assert!(!session_accepts(s.status, PacketKind::Publish));
    s.set_socket_name(String::from("client-a"), Some(String::from("1.0")), 3).unwrap();
    assert_eq!(s.status, SessionStatus::Greeted);
    assert!(session_accepts(s.status, PacketKind::Publish));
    let pairs = vec![(6u8, 1i32)];
    s.update_packet_versions(&pairs).unwrap();
    assert_eq!(s.status, SessionStatus::Ready);
    assert_eq!(s.versions.get(6), 1);
    assert_eq!(s.versions.get(3), 0);
    assert!(!session_accepts(s.status, PacketKind::PacketVersionsInfo));
}

#[test]
fn session_rejects_out_of_order_handshake() {
    let mut s = MyServiceBusSession::new(1, String::from("ip"), 0);
    let pairs = vec![(6u8, 1i32)];
    assert!(s.update_packet_versions(&pairs).is_err());
    s.set_socket_name(String::from("n"), None, 0).unwrap();
    assert!(s.set_socket_name(String::from("again"), None, 0).is_err());
}

#[test]
fn session_disconnect_hands_back_subscribers_once() {
    let mut s = MyServiceBusSession::new(9, String::from("ip"), 0);
    s.set_socket_name(String::from("n"), None, 0).unwrap();
    s.add_subscriber(100).unwrap();
    s.add_subscriber(101).unwrap();
    let subs = s.disconnect().expect("first disconnect returns the subscribers");
    assert_eq!(subs, vec![100, 101]);
    assert!(s.disconnect().is_none());
    assert!(s.add_subscriber(102).is_err());
    assert!(!session_accepts(s.status, PacketKind::Ping));
}

#[test]
fn session_name_falls_back_to_address() {
    let mut s = MyServiceBusSession::new(2, String::from("10.0.0.1:4"), 0);
    assert_eq!(s.get_name(), "10.0.0.1:4");
    s.set_socket_name(String::from("svc"), None, 0).unwrap();
    assert_eq!(s.get_name(), "svc");
}

#[test]
fn interval_set_fuses_ranges_when_gap_closes() {
    let mut s = IntervalSet::new();
    s.enqueue(1);
    s.enqueue(3);
    assert_eq!(s.get_snapshot().len(), 2);
    s.enqueue(2);
    let snapshot = s.get_snapshot();
    assert_eq!(snapshot.len(), 1);
    assert_eq!(snapshot[0].from_id, 1);
    assert_eq!(snapshot[0].to_id, 3);
}

#[test]
fn session_keeps_positive_and_negative_delivery_statistics_apart() {
    let mut s = MyServiceBusSession::new(1, String::from("ip"), 0);
    s.set_delivered_statistic(10);
    s.set_not_delivered_statistic(3);
    s.set_delivered_statistic(2);
    assert_eq!(s.delivered_events, 12);
    assert_eq!(s.not_delivered_events, 3);
    s.add_publisher("t1");
    assert_eq!(s.publisher_topics, vec![String::from("t1")]);
}

#[test]
fn session_publisher_list_is_idempotent() {
    let mut s = MyServiceBusSession::new(1, String::from("ip"), 0);
    s.add_publisher("t1");
    s.add_publisher("t1");
    s.add_publisher("t2");
    assert_eq!(s.publisher_topics, vec![String::from("t1"), String::from("t2")]);
}
