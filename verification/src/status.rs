//! The status page's view of a topic: flat rows of publishers, subscribers
//! and pages, built under the topic lock and serialized by the HTTP layer
//! outside.
use vstd::prelude::*;

use crate::queue::clone_string;
use crate::subscribers::{SessionId, SubscriberId};
use crate::topic::TopicData;

verus! {

/// One publisher row: a session and whether it published recently.
pub struct TopicPublisherJsonModel {
    pub session_id: SessionId,
    pub active: bool,
}

/// One subscriber row across all queues of the topic.
pub struct TopicQueueSubscriberJsonModel {
    pub session_id: SessionId,
    pub subscriber_id: SubscriberId,
    pub on_delivery_count: usize,
    pub queue_id: String,
}

/// One page row: the page and how many bytes it holds.
pub struct TopicPageJsonContract {
    pub id: i64,
    pub size: u64,
}

/// Ghost identity on an index, usable as a trigger.
pub open spec fn trivial_int(i: int) -> int {
    i
}

/// The row describes the subscriber at `(q, s)` of the topic's queues.
pub open spec fn row_matches(
    t: TopicData,
    q: int,
    s: int,
    row: TopicQueueSubscriberJsonModel,
) -> bool {
    let qu = t.queues.data.queues@[q];
    let sub = qu.subscribers.subscribers@[s];
    &&& row.session_id == sub.session_id
    &&& row.subscriber_id == sub.id
    &&& row.queue_id@ == qu.queue_id@
    &&& row.on_delivery_count as int == (match sub.on_delivery {
        Option::Some(b) => b.total_count as int,
        Option::None => 0,
    })
}

/// The row describes some subscriber of some queue of the topic.
pub open spec fn is_subscriber_row(t: TopicData, row: TopicQueueSubscriberJsonModel) -> bool {
    exists|q: int, s: int|
        #![trigger t.queues.data.queues@[q].subscribers.subscribers@[s]]
        0 <= q < t.queues.data.queues@.len() && 0 <= s
            < t.queues.data.queues@[q].subscribers.subscribers@.len() && row_matches(t, q, s, row)
}

/// Rows of queues before `q`, with one row per subscriber.
pub open spec fn rows_before(t: TopicData, q: int) -> int
    decreases q,
{
    if q <= 0 {
        0
    } else {
        rows_before(t, q - 1) + t.queues.data.queues@[q - 1].subscribers.subscribers@.len()
    }
}

/// The subscriber at `(q, s)` has its row at the canonical position.
pub open spec fn row_at(t: TopicData, rows: Seq<TopicQueueSubscriberJsonModel>, q: int, s: int) -> bool {
    &&& 0 <= rows_before(t, q) + s < rows.len()
    &&& row_matches(t, q, s, rows[rows_before(t, q) + s])
}

/// Some row describes the subscriber at `(q, s)`.
pub open spec fn row_listed(
    rows: Seq<TopicQueueSubscriberJsonModel>,
    t: TopicData,
    q: int,
    s: int,
) -> bool {
    exists|k: int| 0 <= k < rows.len() && row_matches(t, q, s, #[trigger] rows[k])
}

/// The status row of one topic.
pub struct TopicJsonContract {
    pub id: String,
    pub message_id: i64,
    pub packets_per_second: usize,
    pub messages_per_second: usize,
    pub pages: Vec<TopicPageJsonContract>,
    pub persist_size: i64,
    pub publish_history: Vec<i32>,
    pub publishers: Vec<TopicPublisherJsonModel>,
    pub subscribers: Vec<TopicQueueSubscriberJsonModel>,
}

impl TopicJsonContract {
    /// Builds the row from a topic's state: scalars copied, one entry per
    /// publisher and per in-memory page, and one row per subscriber of any
    /// queue.
    pub fn new(topic_data: &TopicData) -> (r: TopicJsonContract)
        requires
            topic_data.wf(),
        ensures
            r.id@ == topic_data.topic_id@,
            r.message_id == topic_data.message_id,
            r.packets_per_second == topic_data.metrics.packets_per_second,
            r.messages_per_second == topic_data.metrics.messages_per_second,
            r.persist_size == topic_data.metrics.persist_queue_size,
            r.publish_history@ =~= topic_data.metrics.publish_history.items@,
            r.publishers@.len() == topic_data.publishers@.len(),
            forall|i: int|
                0 <= i < r.publishers@.len() ==> (#[trigger] r.publishers@[i]).session_id
                    == topic_data.publishers@[i].0 && r.publishers@[i].active
                    == topic_data.publishers@[i].1,
            r.pages@.len() == topic_data.pages.pages@.len(),
            forall|i: int|
                0 <= i < r.pages@.len() ==> (#[trigger] r.pages@[i]).id
                    == topic_data.pages.pages@[i].page_id && r.pages@[i].size
                    == topic_data.pages.pages@[i].size_bytes,
            // The subscriber rows: every row is real, and every subscriber
            // of every queue has its row.
            forall|k: int|
                0 <= k < r.subscribers@.len() ==> is_subscriber_row(
                    *topic_data,
                    #[trigger] r.subscribers@[k],
                ),
            forall|q: int, s: int|
                #![trigger row_listed(r.subscribers@, *topic_data, q, s)]
                0 <= q < topic_data.queues.data.queues@.len() && 0 <= s
                    < topic_data.queues.data.queues@[q].subscribers.subscribers@.len()
                    ==> row_listed(r.subscribers@, *topic_data, q, s),
    {
        let mut publishers: Vec<TopicPublisherJsonModel> = Vec::new();
        let mut i: usize = 0;
        while i < topic_data.publishers.len()
            invariant
                0 <= i <= topic_data.publishers@.len(),
                publishers@.len() == i,
                forall|k: int|
                    0 <= k < i ==> (#[trigger] publishers@[k]).session_id
                        == topic_data.publishers@[k].0 && publishers@[k].active
                        == topic_data.publishers@[k].1,
            decreases topic_data.publishers@.len() - i,
        {
            publishers.push(
                TopicPublisherJsonModel {
                    session_id: topic_data.publishers[i].0,
                    active: topic_data.publishers[i].1,
                },
            );
            i = i + 1;
        }
        let mut pages: Vec<TopicPageJsonContract> = Vec::new();
        let mut p: usize = 0;
        while p < topic_data.pages.pages.len()
            invariant
                0 <= p <= topic_data.pages.pages@.len(),
                pages@.len() == p,
                forall|k: int|
                    0 <= k < p ==> (#[trigger] pages@[k]).id
                        == topic_data.pages.pages@[k].page_id && pages@[k].size
                        == topic_data.pages.pages@[k].size_bytes,
            decreases topic_data.pages.pages@.len() - p,
        {
            pages.push(
                TopicPageJsonContract {
                    id: topic_data.pages.pages[p].page_id,
                    size: topic_data.pages.pages[p].size_bytes,
                },
            );
            p = p + 1;
        }
        let mut subscribers: Vec<TopicQueueSubscriberJsonModel> = Vec::new();
        let ghost mut wit: Seq<(int, int)> = Seq::empty();
        let mut q: usize = 0;
        while q < topic_data.queues.data.queues.len()
            invariant
                topic_data.wf(),
                0 <= q <= topic_data.queues.data.queues@.len(),
                wit.len() == subscribers@.len(),
                subscribers@.len() == rows_before(*topic_data, q as int),
                forall|k: int|
                    #![trigger wit[k]]
                    0 <= k < subscribers@.len() ==> 0 <= wit[k].0
                        < topic_data.queues.data.queues@.len() && 0 <= wit[k].1
                        < topic_data.queues.data.queues@[wit[k].0].subscribers.subscribers@.len()
                        && row_matches(*topic_data, wit[k].0, wit[k].1, subscribers@[k]),
                forall|q2: int, s2: int|
                    #![trigger row_at(*topic_data, subscribers@, q2, s2)]
                    0 <= q2 < q && 0 <= s2
                        < topic_data.queues.data.queues@[q2].subscribers.subscribers@.len()
                        ==> row_at(*topic_data, subscribers@, q2, s2),
            decreases topic_data.queues.data.queues@.len() - q,
        {
            let queue = &topic_data.queues.data.queues[q];
            let mut s: usize = 0;
            while s < queue.subscribers.subscribers.len()
                invariant
                    topic_data.wf(),
                    0 <= q < topic_data.queues.data.queues@.len(),
                    queue == &topic_data.queues.data.queues[q as int],
                    0 <= s <= queue.subscribers.subscribers@.len(),
                    wit.len() == subscribers@.len(),
                    subscribers@.len() == rows_before(*topic_data, q as int) + s,
                    forall|k: int|
                        #![trigger wit[k]]
                        0 <= k < subscribers@.len() ==> 0 <= wit[k].0
                            < topic_data.queues.data.queues@.len() && 0 <= wit[k].1
                            < topic_data.queues.data.queues@[wit[k].0].subscribers.subscribers@.len()
                            && row_matches(*topic_data, wit[k].0, wit[k].1, subscribers@[k]),
                    forall|q2: int, s2: int|
                        #![trigger row_at(*topic_data, subscribers@, q2, s2)]
                        0 <= q2 < topic_data.queues.data.queues@.len() && 0 <= s2
                            < topic_data.queues.data.queues@[q2].subscribers.subscribers@.len()
                            && (q2 < q || (q2 == q && s2 < s)) ==> row_at(
                            *topic_data,
                            subscribers@,
                            q2,
                            s2,
                        ),
                decreases queue.subscribers.subscribers@.len() - s,
            {
                let sub = &queue.subscribers.subscribers[s];
                let on_delivery_count = match &sub.on_delivery {
                    Option::Some(b) => b.total_count,
                    Option::None => 0,
                };
                let ghost prev = subscribers@;
                subscribers.push(
                    TopicQueueSubscriberJsonModel {
                        session_id: sub.session_id,
                        subscriber_id: sub.id,
                        on_delivery_count,
                        queue_id: clone_string(&queue.queue_id),
                    },
                );
                proof {
                    wit = wit.push((q as int, s as int));
                    assert(row_matches(
                        *topic_data,
                        q as int,
                        s as int,
                        subscribers@[subscribers@.len() - 1],
                    ));
                    assert forall|q2: int, s2: int|
                        #![trigger row_at(*topic_data, subscribers@, q2, s2)]
                        0 <= q2 < topic_data.queues.data.queues@.len() && 0 <= s2
                            < topic_data.queues.data.queues@[q2].subscribers.subscribers@.len()
                            && (q2 < q || (q2 == q && s2 < s + 1)) implies row_at(
                        *topic_data,
                        subscribers@,
                        q2,
                        s2,
                    ) by {
                        if q2 == q && s2 == s {
                            assert(rows_before(*topic_data, q2) + s2 == prev.len());
                        } else {
                            assert(row_at(*topic_data, prev, q2, s2));
                            assert(subscribers@[rows_before(*topic_data, q2) + s2]
                                == prev[rows_before(*topic_data, q2) + s2]);
                        }
                    }
                }
                s = s + 1;
            }
            proof {
                assert(rows_before(*topic_data, q + 1) == rows_before(*topic_data, q as int)
                    + topic_data.queues.data.queues@[q as int].subscribers.subscribers@.len());
            }
            q = q + 1;
        }
        let result = TopicJsonContract {
            id: clone_string(&topic_data.topic_id),
            message_id: topic_data.message_id,
            packets_per_second: topic_data.metrics.packets_per_second,
            messages_per_second: topic_data.metrics.messages_per_second,
            publish_history: topic_data.metrics.publish_history.get(),
            persist_size: topic_data.metrics.persist_queue_size,
            publishers,
            pages,
            subscribers,
        };
        proof {
            assert forall|k: int|
                0 <= k < result.subscribers@.len() implies is_subscriber_row(
                *topic_data,
                #[trigger] result.subscribers@[k],
            ) by {
                let (wq, ws) = wit[k];
                assert(0 <= wq < topic_data.queues.data.queues@.len() && 0 <= ws
                    < topic_data.queues.data.queues@[wq].subscribers.subscribers@.len()
                    && row_matches(*topic_data, wq, ws, result.subscribers@[k]));
            }
            assert forall|q2: int, s2: int|
                #![trigger row_listed(result.subscribers@, *topic_data, q2, s2)]
                0 <= q2 < topic_data.queues.data.queues@.len() && 0 <= s2
                    < topic_data.queues.data.queues@[q2].subscribers.subscribers@.len()
                    implies row_listed(result.subscribers@, *topic_data, q2, s2) by {
                assert(row_at(*topic_data, result.subscribers@, q2, s2));
                let k = rows_before(*topic_data, q2) + s2;
                assert(row_matches(*topic_data, q2, s2, result.subscribers@[k]));
            }
        }
        result
    }
}


/// The whole status answer.
pub struct TopicsJsonResult {
    pub items: Vec<TopicJsonContract>,
    pub snapshot_id: usize,
}

} // verus!
