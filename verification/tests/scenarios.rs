//! End-to-end scenarios over the verified core: publish, deliver, confirm,
//! kick, disconnect and collect.
use message_bus::delivery::{fill_messages, try_to_deliver_next_messages_for_the_queue};
use message_bus::intervals::IdRange;
use message_bus::operations::{plan_kicks, publish, subscribe_to_queue, TopicsList};
use message_bus::pages::PageStore;
use message_bus::queue::{remove_subscriber, QueueKind, TopicQueue};
use message_bus::topic::TopicData;

const MB: u64 = 1024 * 1024;

fn msg(bytes: usize) -> (Vec<u8>, Vec<(String, String)>) {
    (vec![0u8; bytes], Vec::new())
}

fn publish_n(topics: &mut TopicsList, topic_id: &str, n: usize, bytes: usize) -> (i64, usize) {
    let mut batch = Vec::new();
    for _ in 0..n {
        batch.push(msg(bytes));
    }
    publish(topics, topic_id, batch, 7, true, false, 0).expect("publish succeeds")
}

#[test]
fn publish_then_subscribe_delivers_first_three_ids() {
    let mut topics = TopicsList::new();
    let (first, count) = publish_n(&mut topics, "t1", 3, 4);
    assert_eq!(first, 1);
    assert_eq!(count, 3);
    subscribe_to_queue(&mut topics, "t1", "q1", QueueKind::Permanent, 500, 9, true)
        .expect("subscribe succeeds");
    let ti = topics.get("t1").unwrap();
    let topic = &mut topics.topics[ti];
    let pages = std::mem::replace(&mut topic.pages, PageStore::new());
    let queue = &mut topic.queues.data.queues[0];
    let (sent, need) = try_to_deliver_next_messages_for_the_queue(queue, &pages, 1024, 0);
    assert!(need.is_none());
    assert_eq!(sent, vec![(500, 9)]);
    let sub = &queue.subscribers.subscribers[0];
    let bucket = sub.on_delivery.as_ref().expect("bucket attached");
    assert_eq!(bucket.min_id, Some(1));
    assert_eq!(bucket.max_id, Some(3));
    assert_eq!(bucket.total_count, 3);
    assert_eq!(bucket.pages[0].messages[0].attempt_no, 0);
}

#[test]
fn monotonic_ids_across_publish_calls() {
    let mut topics = TopicsList::new();
    let (a_first, a_count) = publish_n(&mut topics, "t", 5, 1);
    let (b_first, _) = publish_n(&mut topics, "t", 5, 1);
    assert_eq!(a_first, 1);
    assert_eq!(b_first, a_first + a_count as i64);
    assert!(b_first > a_first + a_count as i64 - 1);
}

#[test]
fn negative_confirmation_redelivers_with_bumped_attempt() {
    let mut topics = TopicsList::new();
    publish_n(&mut topics, "t", 100, 1);
    subscribe_to_queue(&mut topics, "t", "q", QueueKind::Permanent, 1, 9, true).unwrap();
    let ti = topics.get("t").unwrap();
    let topic = &mut topics.topics[ti];
    let pages = std::mem::replace(&mut topic.pages, PageStore::new());
    let queue = &mut topic.queues.data.queues[0];
    let (sent, _) = try_to_deliver_next_messages_for_the_queue(queue, &pages, 10_000, 0);
    assert_eq!(sent.len(), 1);
    // Confirm ids 1..=50 positively; hand 51..=100 back.
    let not_delivered = vec![IdRange { from_id: 51, to_id: 100 }];
    assert!(queue.confirmed(1, &not_delivered));
    // The next bucket starts at 51 with attempt count one.
    let (sent2, _) = try_to_deliver_next_messages_for_the_queue(queue, &pages, 10_000, 0);
    assert_eq!(sent2.len(), 1);
    let bucket = queue.subscribers.subscribers[0].on_delivery.as_ref().unwrap();
    assert_eq!(bucket.min_id, Some(51));
    assert_eq!(bucket.max_id, Some(100));
    assert_eq!(bucket.pages[0].messages[0].attempt_no, 1);
    // Positively confirmed ids are gone for good.
    assert!(queue.peek_next_message().is_none());
}

#[test]
fn kick_replaces_single_subscriber_without_losing_messages() {
    let mut topics = TopicsList::new();
    publish_n(&mut topics, "t", 4, 1);
    subscribe_to_queue(&mut topics, "t", "q", QueueKind::PermanentSingleSubscriber, 1, 11, true)
        .unwrap();
    let ti = topics.get("t").unwrap();
    let topic = &mut topics.topics[ti];
    let pages = std::mem::replace(&mut topic.pages, PageStore::new());
    {
        let queue = &mut topic.queues.data.queues[0];
        let (sent, _) = try_to_deliver_next_messages_for_the_queue(queue, &pages, 10_000, 0);
        assert_eq!(sent, vec![(1, 11)]);
    }
    // The second subscriber on the same single-subscriber queue kicks the
    // first; the kicked session is reported for a reject notification.
    let queue = &mut topic.queues.data.queues[0];
    let kicked = queue.subscribe(2, 12);
    let kicked_sub = kicked.expect("incumbent is kicked");
    assert_eq!(kicked_sub.session_id, 11);
    remove_subscriber(queue, kicked_sub);
    // Nothing was lost: the in-flight ids are ready again and flow to the
    // new subscriber.
    let (sent2, _) = try_to_deliver_next_messages_for_the_queue(queue, &pages, 10_000, 5);
    assert_eq!(sent2, vec![(2, 12)]);
    let bucket = queue.subscribers.subscribers[0].on_delivery.as_ref().unwrap();
    assert_eq!(bucket.min_id, Some(1));
    assert_eq!(bucket.max_id, Some(4));
    assert_eq!(bucket.total_count, 4);
}

#[test]
fn bucket_size_bound_splits_large_messages_in_pairs() {
    let mut topics = TopicsList::new();
    publish_n(&mut topics, "t", 10, 2 * MB as usize);
    subscribe_to_queue(&mut topics, "t", "q", QueueKind::Permanent, 1, 9, true).unwrap();
    let ti = topics.get("t").unwrap();
    let topic = &mut topics.topics[ti];
    let pages = std::mem::replace(&mut topic.pages, PageStore::new());
    let queue = &mut topic.queues.data.queues[0];
    for round in 0..5 {
        let (bucket, need) = fill_messages(queue, &pages, 5 * MB);
        assert!(need.is_none());
        assert_eq!(bucket.total_count, 2, "round {round}");
        assert_eq!(bucket.total_size, 4 * MB);
    }
    assert!(queue.peek_next_message().is_none());
}

#[test]
fn oversized_message_is_still_delivered_alone() {
    let mut topics = TopicsList::new();
    publish_n(&mut topics, "t", 1, (3 * MB) as usize);
    subscribe_to_queue(&mut topics, "t", "q", QueueKind::Permanent, 1, 9, true).unwrap();
    let ti = topics.get("t").unwrap();
    let topic = &mut topics.topics[ti];
    let pages = std::mem::replace(&mut topic.pages, PageStore::new());
    let queue = &mut topic.queues.data.queues[0];
    let (bucket, _) = fill_messages(queue, &pages, MB);
    assert_eq!(bucket.total_count, 1);
    assert_eq!(bucket.total_size, 3 * MB);
}

#[test]
fn missing_page_is_skipped_and_later_pages_flow() {
    // Ready ids 1..=3 with no page in memory: delivery names page 0 to load.
    let mut queue = TopicQueue::new(String::from("t"), String::from("q"), QueueKind::Permanent);
    queue.enqueue_range(1, 3);
    let mut pages = PageStore::new();
    let (bucket, need) = fill_messages(&mut queue, &pages, 1024);
    assert_eq!(bucket.total_count, 0);
    assert_eq!(need, Some(0));
    // The load failed for good: an all-missing page goes in, the ids are
    // dropped, and later ids keep flowing.
    pages.restore_page(message_bus::loader::create_page_as_missing(0));
    queue.enqueue_range(1000, 1001);
    pages.restore_page(message_bus::pages::build_ready_page(
        1,
        vec![
            message_bus::pages::MessageContent {
                id: 1000,
                content: vec![1],
                headers: Vec::new(),
                created_at: 0,
            },
            message_bus::pages::MessageContent {
                id: 1001,
                content: vec![2],
                headers: Vec::new(),
                created_at: 0,
            },
        ],
    ));
    let (bucket2, need2) = fill_messages(&mut queue, &pages, 1024);
    assert!(need2.is_none());
    assert_eq!(bucket2.min_id, Some(1000));
    assert_eq!(bucket2.total_count, 2);
    assert!(queue.peek_next_message().is_none());
}

#[test]
fn dead_subscriber_is_kicked_and_its_bucket_returns() {
    let mut topics = TopicsList::new();
    publish_n(&mut topics, "t", 3, 1);
    subscribe_to_queue(&mut topics, "t", "q", QueueKind::Permanent, 1, 11, true).unwrap();
    let ti = topics.get("t").unwrap();
    let topic = &mut topics.topics[ti];
    let pages = std::mem::replace(&mut topic.pages, PageStore::new());
    let queue = &mut topic.queues.data.queues[0];
    let sent_at = 1_000_000i64;
    let (sent, _) = try_to_deliver_next_messages_for_the_queue(queue, &pages, 10_000, sent_at);
    assert_eq!(sent.len(), 1);
    let timeout = 30_000_000i64;
    // Just before the timeout nothing is dead; just after, the subscriber is.
    let before = queue.subscribers.find_subscribers_dead_on_delivery(sent_at + timeout - 1, timeout);
    assert!(before.is_empty());
    let dead = queue.subscribers.find_subscribers_dead_on_delivery(sent_at + timeout + 1, timeout);
    assert_eq!(dead, vec![(11, 1)]);
    let kicks = plan_kicks(&dead);
    assert_eq!(kicks, vec![11]);
    // Disconnecting the session returns the bucket to ready within the
    // same cleanup pass.
    queue.remove_subscribers_by_session(11);
    assert_eq!(queue.subscribers.subscribers.len(), 0);
    assert_eq!(queue.peek_next_message(), Some((1, 1)));
}

#[test]
fn kicker_plans_each_session_once() {
    let dead = vec![(5i64, 1i64), (6, 2), (5, 3), (6, 4)];
    let kicks = plan_kicks(&dead);
    assert_eq!(kicks, vec![5, 6]);
}

#[test]
fn queue_snapshot_restores_ready_ranges_and_kind() {
    let mut queue = TopicQueue::new(String::from("t"), String::from("q"), QueueKind::Permanent);
    queue.enqueue_range(10, 14);
    let (kind, ranges) = queue.get_snapshot_to_persist().expect("permanent queues persist");
    let restored = TopicQueue::restore(String::from("t"), String::from("q"), kind, ranges)
        .expect("snapshot ranges are well formed");
    let mut r = restored;
    assert_eq!(r.kind, QueueKind::Permanent);
    for id in 10..=14 {
        assert_eq!(r.peek_next_message(), Some((id, 0)));
        assert_eq!(r.ready.dequeue(), Some(id));
    }
    assert!(r.peek_next_message().is_none());
}

#[test]
fn delete_on_disconnect_queue_is_not_persisted_and_vanishes() {
    let mut topics = TopicsList::new();
    publish_n(&mut topics, "t", 1, 1);
    subscribe_to_queue(&mut topics, "t", "q", QueueKind::DeleteOnDisconnect, 1, 11, true)
        .unwrap();
    let ti = topics.get("t").unwrap();
    let topic = &mut topics.topics[ti];
    assert!(topic.queues.get_snapshot_to_persist().is_empty());
    topic.queues.remove_subscribers_by_connection_id(11);
    assert_eq!(topic.queues.data.queues.len(), 0);
}

#[test]
fn gc_evicts_only_pages_below_the_owed_floor() {
    let mut topics = TopicsList::new();
    // Enough messages to span four pages; all get confirmed but the last.
    publish_n(&mut topics, "t", 1000, 0);
    publish_n(&mut topics, "t", 1000, 0);
    publish_n(&mut topics, "t", 1000, 0);
    subscribe_to_queue(&mut topics, "t", "q", QueueKind::Permanent, 1, 11, true).unwrap();
    let ti = topics.get("t").unwrap();
    let topic = &mut topics.topics[ti];
    // Drain everything below id 2500 out of the queue.
    {
        let queue = &mut topic.queues.data.queues[0];
        loop {
            match queue.peek_next_message() {
                Some((id, _)) if id < 2500 => {
                    queue.ready.dequeue();
                },
                _ => break,
            }
        }
    }
    assert_eq!(topic.queues.get_min_message_id(), Some(2500));
    topic.gc_message_pages();
    for p in &topic.pages.pages {
        assert!(p.page_id >= 2, "page {} survived below the floor", p.page_id);
    }
    assert!(topic.pages.pages.iter().any(|p| p.page_id == 2));
}

#[test]
fn topic_status_row_reflects_the_topic() {
    let mut topics = TopicsList::new();
    publish_n(&mut topics, "t", 2, 3);
    let ti = topics.get("t").unwrap();
    let topic = &mut topics.topics[ti];
    topic.metrics.one_second_tick(5);
    let row = message_bus::status::TopicJsonContract::new(topic);
    assert_eq!(row.id, "t");
    assert_eq!(row.message_id, 3);
    assert_eq!(row.messages_per_second, 2);
    assert_eq!(row.packets_per_second, 1);
    assert_eq!(row.persist_size, 5);
    assert_eq!(row.publish_history, vec![2]);
    assert_eq!(row.pages.len(), 1);
    assert_eq!(row.pages[0].size, 6);
}

#[test]
fn publish_rejected_while_shutting_down_and_on_unknown_topic() {
    let mut topics = TopicsList::new();
    let r = publish(&mut topics, "t", vec![msg(1)], 1, true, true, 0);
    assert!(matches!(
        r,
        Err(message_bus::errors::OperationFailResult::ShuttingDown)
    ));
    let r2 = publish(&mut topics, "t", vec![msg(1)], 1, false, false, 0);
    assert!(matches!(
        r2,
        Err(message_bus::errors::OperationFailResult::TopicNotFound { .. })
    ));
    let r3 = subscribe_to_queue(&mut topics, "t", "q", QueueKind::Permanent, 1, 1, false);
    assert!(matches!(
        r3,
        Err(message_bus::errors::OperationFailResult::TopicNotFound { .. })
    ));
}

#[test]
fn session_disconnect_returns_inflight_before_next_delivery_cycle() {
    let mut topics = TopicsList::new();
    publish_n(&mut topics, "t", 6, 1);
    subscribe_to_queue(&mut topics, "t", "q", QueueKind::Permanent, 1, 11, true).unwrap();
    subscribe_to_queue(&mut topics, "t", "q", QueueKind::Permanent, 2, 12, true).unwrap();
    let ti = topics.get("t").unwrap();
    let topic = &mut topics.topics[ti];
    let pages = std::mem::replace(&mut topic.pages, PageStore::new());
    let queue = &mut topic.queues.data.queues[0];
    let (sent, _) = try_to_deliver_next_messages_for_the_queue(queue, &pages, 3, 0);
    assert_eq!(sent.len(), 2);
    // Session 11 drops: its bucket's ids are back in ready before the next
    // delivery pass, which hands them to the surviving subscriber.
    queue.remove_subscribers_by_session(11);
    assert_eq!(queue.peek_next_message(), Some((1, 1)));
    assert_eq!(queue.subscribers.subscribers.len(), 1);
    assert_eq!(queue.subscribers.subscribers[0].session_id, 12);
}

#[test]
fn debug_listing_shows_a_subscribers_inflight_ids() {
    let mut topics = TopicsList::new();
    publish_n(&mut topics, "t", 3, 1);
    subscribe_to_queue(&mut topics, "t", "q", QueueKind::Permanent, 1, 11, true).unwrap();
    let ti = topics.get("t").unwrap();
    let topic = &mut topics.topics[ti];
    let pages = std::mem::replace(&mut topic.pages, PageStore::new());
    let queue = &mut topic.queues.data.queues[0];
    try_to_deliver_next_messages_for_the_queue(queue, &pages, 10_000, 0);
    assert_eq!(queue.get_messages_on_delivery(1), vec![1, 2, 3]);
    assert_eq!(queue.get_messages_on_delivery(99), Vec::<i64>::new());
}

#[test]
fn publish_refuses_batches_past_the_id_ceiling() {
    let mut topics = TopicsList::new();
    // A topic whose counter sits at the top of the usable id space.
    topics.topics.push(TopicData::new(
        String::from("t"),
        i64::MAX - message_bus::ids::PAGE_WIDTH,
    ));
    let r = publish(&mut topics, "t", vec![msg(1)], 1, false, false, 0);
    assert!(matches!(
        r,
        Err(message_bus::errors::OperationFailResult::MessageIdOverflow)
    ));
    // The refusal left the counter untouched.
    assert_eq!(
        topics.topics[0].message_id,
        i64::MAX - message_bus::ids::PAGE_WIDTH
    );
}

#[test]
fn subscribing_a_stale_subscriber_id_changes_nothing() {
    let mut topics = TopicsList::new();
    publish_n(&mut topics, "t", 1, 1);
    subscribe_to_queue(&mut topics, "t", "q", QueueKind::Permanent, 7, 11, true).unwrap();
    let r = subscribe_to_queue(&mut topics, "t", "q", QueueKind::Permanent, 7, 12, true);
    assert_eq!(r.unwrap(), None);
    let ti = topics.get("t").unwrap();
    let queue = &topics.topics[ti].queues.data.queues[0];
    assert_eq!(queue.subscribers.subscribers.len(), 1);
    assert_eq!(queue.subscribers.subscribers[0].session_id, 11);
}

#[test]
fn confirm_reports_whether_a_bucket_was_out() {
    let mut queue = TopicQueue::new(String::from("t"), String::from("q"), QueueKind::Permanent);
    let none: Vec<IdRange> = Vec::new();
    // Unknown subscriber: nothing to confirm.
    assert!(!queue.confirmed(5, &none));
    // Known subscriber without a bucket: still nothing to confirm.
    queue.subscribe(5, 50);
    assert!(!queue.confirmed(5, &none));
}

#[test]
fn delete_queue_removes_it_for_good() {
    let mut topics = TopicsList::new();
    publish_n(&mut topics, "t", 1, 1);
    subscribe_to_queue(&mut topics, "t", "q", QueueKind::Permanent, 1, 11, true).unwrap();
    let ti = topics.get("t").unwrap();
    let topic = &mut topics.topics[ti];
    let removed = topic.queues.delete_queue("q").expect("the queue existed");
    assert_eq!(removed.queue_id, "q");
    assert!(topic.queues.get("q").is_none());
    assert!(topic.queues.delete_queue("q").is_none());
}

#[test]
fn create_topic_records_the_active_publisher() {
    let mut topics = TopicsList::new();
    let idx = message_bus::operations::create_topic_if_not_exists(&mut topics, Some(42), "t");
    assert!(topics.topics[idx].publishers.contains(&(42, true)));
    // Creating again neither duplicates the topic nor loses the publisher.
    let idx2 = message_bus::operations::create_topic_if_not_exists(&mut topics, Some(42), "t");
    assert_eq!(idx, idx2);
    assert_eq!(topics.topics.len(), 1);
}

#[test]
fn topic_snapshot_lists_each_permanent_queue_once() {
    let mut topics = TopicsList::new();
    publish_n(&mut topics, "t", 5, 1);
    subscribe_to_queue(&mut topics, "t", "qa", QueueKind::Permanent, 1, 11, true).unwrap();
    subscribe_to_queue(&mut topics, "t", "qb", QueueKind::DeleteOnDisconnect, 2, 11, true)
        .unwrap();
    let ti = topics.get("t").unwrap();
    let rows = topics.topics[ti].queues.get_snapshot_to_persist();
    assert_eq!(rows.len(), 1);
    assert_eq!(rows[0].0, "qa");
    assert_eq!(rows[0].1, QueueKind::Permanent);
    assert_eq!(rows[0].2, vec![IdRange { from_id: 1, to_id: 5 }]);
}

#[test]
fn immediate_persist_is_charged_only_once_between_flushes() {
    let mut t = TopicData::new(String::from("t"), 1);
    assert!(t.charge_immediate_persist());
    assert!(!t.charge_immediate_persist());
    t.discharge_immediate_persist();
    assert!(t.charge_immediate_persist());
}

#[test]
fn empty_publish_is_a_no_op_beyond_topic_creation() {
    let mut topics = TopicsList::new();
    let (first, count) = publish(&mut topics, "t", Vec::new(), 1, true, false, 0).unwrap();
    assert_eq!((first, count), (1, 0));
    assert_eq!(topics.topics.len(), 1);
    assert_eq!(topics.topics[0].message_id, 1);
    // Ids continue from the untouched counter.
    let (next, _) = publish_n(&mut topics, "t", 2, 1);
    assert_eq!(next, 1);
}
