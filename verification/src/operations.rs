//! The server's operations: publish, subscribe, topic creation, and the
//! dead-subscriber kicker's planning. These are the decision halves of the
//! request handlers; sockets, timers and the blob store stay outside.
use vstd::prelude::*;

use crate::errors::OperationFailResult;
use crate::ids::PAGE_WIDTH;
use crate::intervals::ranges_wf;
use crate::queue::{remove_subscriber, QueueKind, TopicQueue};
use crate::session::{str_eq, str_to_string};
use crate::subscribers::{SessionId, SubscriberId};
use crate::topic::TopicData;

verus! {

/// The topics of the server, by name.
pub struct TopicsList {
    pub topics: Vec<TopicData>,
}

impl TopicsList {
    pub open spec fn wf(self) -> bool {
        &&& forall|i: int| 0 <= i < self.topics@.len() ==> (#[trigger] self.topics@[i]).wf()
        &&& forall|i: int, j: int|
            0 <= i < j < self.topics@.len() ==> (#[trigger] self.topics@[i]).topic_id@ != (
            #[trigger] self.topics@[j]).topic_id@
    }

    pub fn new() -> (r: Self)
        ensures
            r.wf(),
            r.topics@.len() == 0,
    {
        TopicsList { topics: Vec::new() }
    }

    /// Index of the named topic.
    pub fn get(&self, topic_id: &str) -> (r: Option<usize>)
        requires
            self.wf(),
        ensures
            match r {
                Option::Some(i) => i < self.topics@.len() && self.topics@[i as int].topic_id@
                    == topic_id@,
                Option::None => forall|i: int|
                    0 <= i < self.topics@.len() ==> (#[trigger] self.topics@[i]).topic_id@
                        != topic_id@,
            },
    {
        let mut i: usize = 0;
        while i < self.topics.len()
            invariant
                self.wf(),
                0 <= i <= self.topics@.len(),
                forall|k: int| 0 <= k < i ==> (#[trigger] self.topics@[k]).topic_id@ != topic_id@,
            decreases self.topics@.len() - i,
        {
            if str_eq(self.topics[i].topic_id.as_str(), topic_id) {
                return Option::Some(i);
            }
            i = i + 1;
        }
        Option::None
    }

    /// Whether a topic of this name exists.
    pub open spec fn has_topic(self, name: Seq<char>) -> bool {
        exists|i: int|
            0 <= i < self.topics@.len() && (#[trigger] self.topics@[i]).topic_id@ == name
    }

    /// The topic of this name, when one exists.
    pub open spec fn spec_topic(self, name: Seq<char>) -> TopicData {
        self.topics@[choose|i: int|
            0 <= i < self.topics@.len() && (#[trigger] self.topics@[i]).topic_id@ == name]
    }

    /// With distinct names, any index holding `name` holds `spec_topic`.
    pub proof fn lemma_topic_at(self, i: int)
        requires
            self.wf(),
            0 <= i < self.topics@.len(),
        ensures
            self.has_topic(self.topics@[i].topic_id@),
            self.spec_topic(self.topics@[i].topic_id@) == self.topics@[i],
    {
        let name = self.topics@[i].topic_id@;
        assert(self.has_topic(name));
        let j = choose|j: int|
            0 <= j < self.topics@.len() && (#[trigger] self.topics@[j]).topic_id@ == name;
        if i != j {
            assert(self.topics@[if i < j {
                i
            } else {
                j
            }].topic_id@ != self.topics@[if i < j {
                j
            } else {
                i
            }].topic_id@);
        }
    }

    /// Index of the named topic, creating it (with ids starting at one)
    /// exactly when it is absent.
    pub fn add_if_not_exists(&mut self, topic_id: &str) -> (r: usize)
        requires
            old(self).wf(),
        ensures
            final(self).wf(),
            r < final(self).topics@.len(),
            final(self).topics@[r as int].topic_id@ == topic_id@,
            final(self).topics@[r as int].wf(),
            final(self).has_topic(topic_id@),
            old(self).has_topic(topic_id@) ==> *final(self) == *old(self),
            !old(self).has_topic(topic_id@) ==> {
                &&& final(self).topics@.len() == old(self).topics@.len() + 1
                &&& r == old(self).topics@.len()
                &&& final(self).topics@[r as int].message_id == 1
                &&& final(self).topics@[r as int].queues.data.queues@.len() == 0
            },
            forall|i: int|
                0 <= i < old(self).topics@.len() ==> final(self).topics@[i] == old(
                    self,
                ).topics@[i],
    {
        match self.get(topic_id) {
            Option::Some(i) => {
                proof {
                    assert(self.has_topic(topic_id@));
                }
                i
            },
            Option::None => {
                // Ids of a fresh topic start at one.
                let t = TopicData::new(str_to_string(topic_id), 1);
                self.topics.push(t);
                let idx = self.topics.len() - 1;
                proof {
                    assert(self.topics@[idx as int].topic_id@ == topic_id@);
                    if old(self).has_topic(topic_id@) {
                        let j = choose|j: int|
                            0 <= j < old(self).topics@.len() && (#[trigger] old(
                                self,
                            ).topics@[j]).topic_id@ == topic_id@;
                    }
                }
                idx
            },
        }
    }
}

/// The id counter the named topic stands at; a topic yet to be created
/// counts from one.
pub open spec fn spec_topic_counter(l: TopicsList, name: Seq<char>) -> int {
    if l.has_topic(name) {
        l.spec_topic(name).message_id as int
    } else {
        1
    }
}

/// Publishes a batch of messages to a topic: assigns consecutive ids
/// starting exactly at the topic's counter, stores the contents, and opens
/// the range to every queue. Rejected cleanly while shutting down, when the
/// topic is unknown and auto-creation is off, and when the id space left
/// under the counter cannot take the batch.
pub fn publish(
    topics: &mut TopicsList,
    topic_id: &str,
    messages: Vec<(Vec<u8>, Vec<(String, String)>)>,
    session_id: SessionId,
    auto_create_topic_on_publish: bool,
    shutting_down: bool,
    created_at: i64,
) -> (r: Result<(i64, usize), OperationFailResult>)
    requires
        old(topics).wf(),
    ensures
        final(topics).wf(),
        // Every refusal leaves the registry untouched.
        (r is Err) ==> *final(topics) == *old(topics),
        // Exactly when each error comes: the shutdown refusal only while
        // shutting down, and a full id space under its own name.
        (r matches Result::Err(OperationFailResult::ShuttingDown)) <==> shutting_down,
        (r matches Result::Err(OperationFailResult::MessageIdOverflow)) <==> (!shutting_down && (
        old(topics).has_topic(topic_id@) || auto_create_topic_on_publish) && spec_topic_counter(
            *old(topics),
            topic_id@,
        ) + messages@.len() > i64::MAX - PAGE_WIDTH),
        (r matches Result::Err(OperationFailResult::TopicNotFound { .. })) <==> (!shutting_down
            && !old(topics).has_topic(topic_id@) && !auto_create_topic_on_publish),
        // Success is owed whenever nothing above refuses.
        (!shutting_down && (old(topics).has_topic(topic_id@) || auto_create_topic_on_publish)
            && spec_topic_counter(*old(topics), topic_id@) + messages@.len() <= i64::MAX
            - PAGE_WIDTH) ==> (r is Ok),
        match r {
            Result::Ok(assigned) => {
                // Monotonic ids: the batch starts exactly at the topic's
                // prior counter and advances it by the batch size, so
                // successive calls hand out strictly increasing ids.
                &&& assigned.0 == spec_topic_counter(*old(topics), topic_id@)
                &&& assigned.1 == messages@.len()
                &&& final(topics).has_topic(topic_id@)
                &&& spec_topic_counter(*final(topics), topic_id@) == assigned.0 + assigned.1
                // Other topics are untouched.
                &&& forall|i: int|
                    0 <= i < old(topics).topics@.len() && (#[trigger] old(
                        topics,
                    ).topics@[i]).topic_id@ != topic_id@ ==> final(topics).topics@[i] == old(
                        topics,
                    ).topics@[i]
            },
            Result::Err(_) => true,
        },
{
    if shutting_down {
        return Result::Err(OperationFailResult::ShuttingDown);
    }
    // Resolve the topic and its counter before changing anything, so that a
    // refused batch leaves no trace.
    let found = topics.get(topic_id);
    let counter: i64 = match found {
        Option::Some(i) => {
            proof {
                topics.lemma_topic_at(i as int);
            }
            topics.topics[i].message_id
        },
        Option::None => {
            if !auto_create_topic_on_publish {
                return Result::Err(
                    OperationFailResult::TopicNotFound { topic_id: str_to_string(topic_id) },
                );
            }
            1
        },
    };
    proof {
        assert(counter as int == spec_topic_counter(*old(topics), topic_id@));
    }
    // The batch must fit under the id ceiling, pages included.
    let limit: u64 = (i64::MAX - PAGE_WIDTH) as u64;
    if messages.len() as u64 > limit - (counter as u64) {
        return Result::Err(OperationFailResult::MessageIdOverflow);
    }
    let idx = match found {
        Option::Some(i) => i,
        Option::None => topics.add_if_not_exists(topic_id),
    };
    if messages.len() == 0 {
        // An empty batch is a no-op beyond creating the topic.
        proof {
            topics.lemma_topic_at(idx as int);
            assert forall|i: int|
                0 <= i < old(topics).topics@.len() && (#[trigger] old(
                    topics,
                ).topics@[i]).topic_id@ != topic_id@ implies final(topics).topics@[i] == old(
                topics,
            ).topics@[i] by {
                assert(i != idx);
            }
        }
        return Result::Ok((counter, 0));
    }
    let ghost mid = *topics;
    let ghost pre = topics.topics@;
    let mut topic = TopicData::new(String::new(), 0);
    core::mem::swap(&mut topic, &mut topics.topics[idx]);
    proof {
        assert(topic == pre[idx as int]);
        assert(topic.topic_id@ == topic_id@);
        assert(topic.message_id == counter);
    }
    let (first, count, _all_stored) = topic.publish_messages(session_id, messages, created_at);
    core::mem::swap(&mut topic, &mut topics.topics[idx]);
    proof {
        assert(topics.topics@ =~= pre.update(idx as int, topics.topics@[idx as int]));
        assert forall|a: int, b: int|
            0 <= a < b < topics.topics@.len() implies (#[trigger] topics.topics@[a]).topic_id@
            != (#[trigger] topics.topics@[b]).topic_id@ by {
            assert(topics.topics@[a].topic_id@ == pre[a].topic_id@);
            assert(topics.topics@[b].topic_id@ == pre[b].topic_id@);
            mid.lemma_topic_at(a);
            mid.lemma_topic_at(b);
        }
        topics.lemma_topic_at(idx as int);
        assert(spec_topic_counter(*final(topics), topic_id@) == first + count);
        assert forall|i: int|
            0 <= i < old(topics).topics@.len() && (#[trigger] old(topics).topics@[i]).topic_id@
                != topic_id@ implies final(topics).topics@[i] == old(topics).topics@[i] by {
            assert(pre[i] == old(topics).topics@[i]);
            assert(i != idx);
        }
    }
    Result::Ok((first, count))
}

/// Whether the named topic exists and has the named queue.
pub open spec fn has_topic_queue(l: TopicsList, tname: Seq<char>, qname: Seq<char>) -> bool {
    l.has_topic(tname) && l.spec_topic(tname).queues.has_queue(qname)
}

/// That queue, when it exists.
pub open spec fn spec_topic_queue(l: TopicsList, tname: Seq<char>, qname: Seq<char>) -> TopicQueue {
    l.spec_topic(tname).queues.spec_queue(qname)
}

/// A subscribe request that reuses a subscriber id already present on the
/// queue; it is refused without touching the subscriber set.
pub open spec fn stale_subscriber_id(
    l: TopicsList,
    tname: Seq<char>,
    qname: Seq<char>,
    subscriber_id: SubscriberId,
) -> bool {
    has_topic_queue(l, tname, qname) && spec_topic_queue(
        l,
        tname,
        qname,
    ).subscribers.has_subscriber(subscriber_id as int)
}

/// Subscribes a session to a queue of a topic, creating topic and queue
/// when absent (a fresh queue is owed the topic's whole published range).
/// On a single-subscriber queue the incumbent is kicked and its in-flight
/// ids return to the ready set; the kicked subscriber's session is returned
/// so the caller can notify it.
pub fn subscribe_to_queue(
    topics: &mut TopicsList,
    topic_id: &str,
    queue_id: &str,
    kind: QueueKind,
    subscriber_id: SubscriberId,
    session_id: SessionId,
    auto_create_topic_on_subscribe: bool,
) -> (r: Result<Option<SessionId>, OperationFailResult>)
    requires
        old(topics).wf(),
    ensures
        final(topics).wf(),
        // The one refusal, exactly when it comes, changing nothing.
        (r is Err) <==> (!old(topics).has_topic(topic_id@) && !auto_create_topic_on_subscribe),
        (r is Err) ==> (r matches Result::Err(OperationFailResult::TopicNotFound { .. }))
            && *final(topics) == *old(topics),
        match r {
            Result::Ok(kicked_session) => {
                &&& has_topic_queue(*final(topics), topic_id@, queue_id@)
                &&& spec_topic_queue(*final(topics), topic_id@, queue_id@).kind == kind
                // The subscriber is attached, unless its id was stale.
                &&& !stale_subscriber_id(*old(topics), topic_id@, queue_id@, subscriber_id)
                    ==> spec_topic_queue(
                    *final(topics),
                    topic_id@,
                    queue_id@,
                ).subscribers.has_subscriber(subscriber_id as int)
                &&& stale_subscriber_id(*old(topics), topic_id@, queue_id@, subscriber_id)
                    ==> spec_topic_queue(*final(topics), topic_id@, queue_id@).subscribers
                    == spec_topic_queue(*old(topics), topic_id@, queue_id@).subscribers
                // Nothing the queue owed is lost, kick or no kick.
                &&& forall|x: int|
                    has_topic_queue(*old(topics), topic_id@, queue_id@) && #[trigger] spec_topic_queue(
                        *old(topics),
                        topic_id@,
                        queue_id@,
                    ).owes(x) ==> spec_topic_queue(*final(topics), topic_id@, queue_id@).owes(x)
                // The kick happens exactly on a live single-subscriber queue
                // with an incumbent, and names the incumbent's session.
                &&& (kicked_session is Some) <==> (!stale_subscriber_id(
                    *old(topics),
                    topic_id@,
                    queue_id@,
                    subscriber_id,
                ) && kind == QueueKind::PermanentSingleSubscriber && has_topic_queue(
                    *old(topics),
                    topic_id@,
                    queue_id@,
                ) && spec_topic_queue(
                    *old(topics),
                    topic_id@,
                    queue_id@,
                ).subscribers.subscribers@.len() > 0)
                &&& kicked_session matches Option::Some(s) ==> spec_topic_queue(
                    *old(topics),
                    topic_id@,
                    queue_id@,
                ).subscribers.subscribers@[0].session_id == s
                // Other topics are untouched.
                &&& forall|i: int|
                    0 <= i < old(topics).topics@.len() && (#[trigger] old(
                        topics,
                    ).topics@[i]).topic_id@ != topic_id@ ==> final(topics).topics@[i] == old(
                        topics,
                    ).topics@[i]
            },
            Result::Err(_) => true,
        },
{
    let found = topics.get(topic_id);
    let idx = match found {
        Option::Some(i) => {
            proof {
                topics.lemma_topic_at(i as int);
            }
            i
        },
        Option::None => {
            if auto_create_topic_on_subscribe {
                topics.add_if_not_exists(topic_id)
            } else {
                return Result::Err(
                    OperationFailResult::TopicNotFound { topic_id: str_to_string(topic_id) },
                );
            }
        },
    };
    let ghost mid_l = *topics;
    let ghost pre = topics.topics@;
    let mut topic = TopicData::new(String::new(), 0);
    core::mem::swap(&mut topic, &mut topics.topics[idx]);
    let ghost topic_orig = topic;
    proof {
        assert(topic == pre[idx as int]);
        assert(topic.topic_id@ == topic_id@);
        mid_l.lemma_topic_at(idx as int);
        if old(topics).has_topic(topic_id@) {
            assert(old(topics).spec_topic(topic_id@) == topic_orig);
        } else {
            assert(topic_orig.queues.data.queues@.len() == 0);
            assert(!topic_orig.queues.has_queue(queue_id@)) by {
                if topic_orig.queues.has_queue(queue_id@) {
                    let j = choose|j: int|
                        0 <= j < topic_orig.queues.data.queues@.len() && (
                        #[trigger] topic_orig.queues.data.queues@[j]).queue_id@ == queue_id@;
                }
            }
        }
    }
    let (qidx, queue_is_new) = topic.queues.add_queue_if_not_exists(topic_id, queue_id, kind);
    let ghost topic_mid = topic;
    let ghost pre_qs = topic.queues.data.queues@;
    proof {
        if !queue_is_new {
            topic_orig.queues.lemma_queue_at(qidx as int);
            // The slot now holds the same queue with its discipline updated.
            assert(topic_orig.queues.spec_queue(queue_id@)
                == topic_orig.queues.data.queues@[qidx as int]);
            assert(pre_qs[qidx as int].ready == topic_orig.queues.data.queues@[qidx as int].ready);
            assert(pre_qs[qidx as int].subscribers
                == topic_orig.queues.data.queues@[qidx as int].subscribers);
        }
        assert(pre_qs[qidx as int].kind == kind);
        assert(queue_is_new == !topic_orig.queues.has_queue(queue_id@));
    }
    let mut queue = TopicQueue::new(String::new(), String::new(), QueueKind::Permanent);
    core::mem::swap(&mut queue, &mut topic.queues.data.queues[qidx]);
    proof {
        assert(queue == pre_qs[qidx as int]);
    }
    if queue_is_new && topic.message_id > 1 {
        proof {
            assert(topic_orig.wf());
            assert forall|x: int| !(#[trigger] queue.owes(x)) by {
                if queue.ready.covers(x) {
                    assert(pre_qs[qidx as int].owes(x));
                }
                if queue.subscribers.in_flight(x) {
                    assert(pre_qs[qidx as int].owes(x));
                }
            }
        }
        // A fresh queue is owed everything the topic has published so far.
        queue.enqueue_range(1, topic.message_id - 1);
    }
    let ghost q1 = queue;
    let ghost top_message_id = topic.message_id as int;
    proof {
        assert forall|x: int| #[trigger] q1.owes(x) implies (pre_qs[qidx as int].owes(x) || 1 <= x
            < top_message_id) by {
            if q1.ready.covers(x) {
                q1.ready.lemma_covers_valid(x);
            }
        }
        assert forall|x: int| pre_qs[qidx as int].owes(x) implies #[trigger] q1.owes(x) by {
            if pre_qs[qidx as int].ready.covers(x) {
                assert(q1.ready.covers(x));
            } else {
                assert(pre_qs[qidx as int].subscribers.in_flight(x));
                assert(q1.subscribers.in_flight(x));
            }
        }
        assert(q1.subscribers == pre_qs[qidx as int].subscribers);
    }
    let stale = has_subscriber_with_id(&queue, subscriber_id);
    let kicked_session: Option<SessionId> = if stale {
        // A stale subscriber id: the subscriber set stays as it is.
        proof {
            assert forall|x: int| #[trigger] queue.owes(x) implies q1.owes(x) by {}
        }
        Option::None
    } else {
        let kicked = queue.subscribe(subscriber_id, session_id);
        let ghost q2 = queue;
        match kicked {
            Option::Some(k) => {
                let kicked_session_id = k.session_id;
                let ghost gk = k;
                remove_subscriber(&mut queue, k);
                proof {
                    assert forall|x: int| #[trigger] queue.owes(x) implies q1.owes(x) by {
                        if queue.ready.covers(x) {
                            if q2.ready.covers(x) {
                                assert(q1.ready.covers(x));
                            } else {
                                assert(gk.holds(x));
                                assert(q1.subscribers.subscribers@[0].holds(x));
                                assert(q1.subscribers.in_flight(x));
                            }
                        } else {
                            assert(queue.subscribers.in_flight(x));
                            assert(q2.subscribers.in_flight(x));
                            assert(q1.subscribers.in_flight(x));
                        }
                    }
                    assert forall|x: int| q1.owes(x) implies #[trigger] queue.owes(x) by {
                        if q1.ready.covers(x) {
                            assert(q2.ready.covers(x));
                            assert(queue.ready.covers(x));
                        } else {
                            assert(q1.subscribers.in_flight(x));
                            if gk.holds(x) {
                                assert(queue.ready.covers(x));
                            } else {
                                assert(q2.subscribers.in_flight(x));
                                assert(queue.subscribers.in_flight(x));
                            }
                        }
                    }
                }
                Option::Some(kicked_session_id)
            },
            Option::None => {
                proof {
                    assert forall|x: int| #[trigger] queue.owes(x) implies q1.owes(x) by {
                        if queue.ready.covers(x) {
                            assert(q1.ready.covers(x));
                        } else {
                            assert(queue.subscribers.in_flight(x));
                            assert(q1.subscribers.in_flight(x));
                        }
                    }
                    assert forall|x: int| q1.owes(x) implies #[trigger] queue.owes(x) by {
                        if q1.ready.covers(x) {
                            assert(queue.ready.covers(x));
                        } else {
                            assert(q1.subscribers.in_flight(x));
                            assert(queue.subscribers.in_flight(x));
                        }
                    }
                }
                Option::None
            },
        }
    };
    let ghost q_after = queue;
    proof {
        assert forall|x: int| #[trigger] q_after.owes(x) implies (pre_qs[qidx as int].owes(x) || 1
            <= x < top_message_id) by {
            assert(queue.owes(x));
            assert(q1.owes(x));
        }
        assert forall|x: int| pre_qs[qidx as int].owes(x) implies #[trigger] q_after.owes(x) by {
            assert(q1.owes(x));
            assert(queue.owes(x));
        }
    }
    core::mem::swap(&mut queue, &mut topic.queues.data.queues[qidx]);
    proof {
        assert(topic.queues.data.queues@[qidx as int] == q_after);
        assert(topic.queues.data.queues@ =~= pre_qs.update(qidx as int, q_after));
        assert forall|a: int, b: int|
            0 <= a < b < topic.queues.data.queues@.len() implies (
        #[trigger] topic.queues.data.queues@[a]).queue_id@ != (
        #[trigger] topic.queues.data.queues@[b]).queue_id@ by {
            assert(topic.queues.data.queues@[a].queue_id@ == pre_qs[a].queue_id@);
            assert(topic.queues.data.queues@[b].queue_id@ == pre_qs[b].queue_id@);
        }
        assert forall|x: int| #[trigger] topic.queues.any_owes(x) implies 0 <= x
            < topic.message_id by {
            let k2 = choose|k2: int|
                0 <= k2 < topic.queues.data.queues@.len() && (
                #[trigger] topic.queues.data.queues@[k2]).owes(x);
            if k2 == qidx {
                assert(q_after.owes(x));
                if pre_qs[k2].owes(x) {
                    assert(topic_mid.queues.any_owes(x));
                    assert(topic_orig.queues.any_owes(x));
                    assert(topic_orig.wf());
                    assert(0 <= x < topic_orig.message_id);
                } else {
                    assert(1 <= x < top_message_id);
                }
            } else {
                assert(pre_qs[k2].owes(x));
                assert(topic_mid.queues.any_owes(x));
                assert(topic_orig.queues.any_owes(x));
                assert(topic_orig.wf());
                assert(0 <= x < topic_orig.message_id);
            }
            assert(topic.message_id == topic_orig.message_id);
        }
        topic.queues.lemma_queue_at(qidx as int);
        assert(topic.queues.spec_queue(queue_id@) == q_after);
    }
    core::mem::swap(&mut topic, &mut topics.topics[idx]);
    proof {
        assert(topics.topics@ =~= pre.update(idx as int, topics.topics@[idx as int]));
        assert forall|a: int, b: int|
            0 <= a < b < topics.topics@.len() implies (#[trigger] topics.topics@[a]).topic_id@
            != (#[trigger] topics.topics@[b]).topic_id@ by {
            assert(topics.topics@[a].topic_id@ == pre[a].topic_id@);
            assert(topics.topics@[b].topic_id@ == pre[b].topic_id@);
            mid_l.lemma_topic_at(a);
            mid_l.lemma_topic_at(b);
        }
        topics.lemma_topic_at(idx as int);
        assert(spec_topic_queue(*final(topics), topic_id@, queue_id@) == q_after);
        assert forall|i: int|
            0 <= i < old(topics).topics@.len() && (#[trigger] old(topics).topics@[i]).topic_id@
                != topic_id@ implies final(topics).topics@[i] == old(topics).topics@[i] by {
            assert(pre[i] == old(topics).topics@[i]);
            assert(i != idx);
        }
    }
    Result::Ok(kicked_session)
}

/// Whether the queue already has a subscriber with this id.
fn has_subscriber_with_id(queue: &TopicQueue, id: SubscriberId) -> (r: bool)
    requires
        queue.wf(),
    ensures
        r == queue.subscribers.has_subscriber(id as int),
{
    let mut i: usize = 0;
    while i < queue.subscribers.subscribers.len()
        invariant
            queue.wf(),
            0 <= i <= queue.subscribers.subscribers@.len(),
            forall|k: int|
                0 <= k < i ==> (#[trigger] queue.subscribers.subscribers@[k]).id != id,
        decreases queue.subscribers.subscribers@.len() - i,
    {
        if queue.subscribers.subscribers[i].id == id {
            proof {
                assert(queue.subscribers.has_subscriber(id as int));
            }
            return true;
        }
        i = i + 1;
    }
    false
}

/// Creates a topic if it does not exist (exactly then) and marks the
/// session, when one is given, as one of its active publishers.
pub fn create_topic_if_not_exists(
    topics: &mut TopicsList,
    session_id: Option<SessionId>,
    topic_id: &str,
) -> (r: usize)
    requires
        old(topics).wf(),
    ensures
        final(topics).wf(),
        r < final(topics).topics@.len(),
        final(topics).topics@[r as int].topic_id@ == topic_id@,
        final(topics).has_topic(topic_id@),
        // Created exactly when absent; a fresh topic counts from one.
        !old(topics).has_topic(topic_id@) ==> final(topics).topics@.len() == old(
            topics,
        ).topics@.len() + 1 && final(topics).spec_topic(topic_id@).message_id == 1,
        old(topics).has_topic(topic_id@) ==> final(topics).topics@.len() == old(
            topics,
        ).topics@.len() && final(topics).spec_topic(topic_id@).message_id == old(
            topics,
        ).spec_topic(topic_id@).message_id && final(topics).spec_topic(topic_id@).queues == old(
            topics,
        ).spec_topic(topic_id@).queues,
        // The session is on the topic's active-publishers list.
        session_id matches Option::Some(s) ==> crate::topic::publisher_active(
            final(topics).spec_topic(topic_id@),
            s,
        ),
        session_id is None && old(topics).has_topic(topic_id@) ==> *final(topics) == *old(topics),
        forall|i: int|
            0 <= i < old(topics).topics@.len() && (#[trigger] old(topics).topics@[i]).topic_id@
                != topic_id@ ==> final(topics).topics@[i] == old(topics).topics@[i],
{
    let idx = topics.add_if_not_exists(topic_id);
    let ghost mid_l = *topics;
    proof {
        mid_l.lemma_topic_at(idx as int);
        if old(topics).has_topic(topic_id@) {
            let j = choose|j: int|
                0 <= j < old(topics).topics@.len() && (#[trigger] old(
                    topics,
                ).topics@[j]).topic_id@ == topic_id@;
            old(topics).lemma_topic_at(j);
        }
    }
    match session_id {
        Option::Some(sid) => {
            let ghost pre = topics.topics@;
            let mut topic = TopicData::new(String::new(), 0);
            core::mem::swap(&mut topic, &mut topics.topics[idx]);
            proof {
                assert(topic == pre[idx as int]);
            }
            topic.set_publisher_as_active(sid);
            core::mem::swap(&mut topic, &mut topics.topics[idx]);
            proof {
                assert(topics.topics@ =~= pre.update(idx as int, topics.topics@[idx as int]));
                assert forall|a: int, b: int|
                    0 <= a < b < topics.topics@.len() implies (
                #[trigger] topics.topics@[a]).topic_id@ != (
                #[trigger] topics.topics@[b]).topic_id@ by {
                    assert(topics.topics@[a].topic_id@ == pre[a].topic_id@);
                    assert(topics.topics@[b].topic_id@ == pre[b].topic_id@);
                    mid_l.lemma_topic_at(a);
                    mid_l.lemma_topic_at(b);
                }
                topics.lemma_topic_at(idx as int);
                assert forall|i: int|
                    0 <= i < old(topics).topics@.len() && (#[trigger] old(
                        topics,
                    ).topics@[i]).topic_id@ != topic_id@ implies final(topics).topics@[i] == old(
                        topics,
                    ).topics@[i] by {
                    assert(pre[i] == old(topics).topics@[i]);
                    assert(i != idx);
                }
            }
        },
        Option::None => {
            proof {
                topics.lemma_topic_at(idx as int);
            }
        },
    }
    idx
}

/// Some dead subscriber pair names this session.
pub open spec fn is_dead_session(dead: Seq<(SessionId, SubscriberId)>, sid: SessionId) -> bool {
    exists|i: int| 0 <= i < dead.len() && (#[trigger] dead[i]).0 == sid
}

/// The kicker's plan: the distinct sessions behind a list of dead
/// subscribers, each to be disconnected exactly once.
pub fn plan_kicks(dead: &Vec<(SessionId, SubscriberId)>) -> (r: Vec<SessionId>)
    ensures
        forall|i: int, j: int| 0 <= i < j < r@.len() ==> r@[i] != r@[j],
        forall|k: int| 0 <= k < dead@.len() ==> r@.contains((#[trigger] dead@[k]).0),
        forall|k: int| 0 <= k < r@.len() ==> is_dead_session(dead@, #[trigger] r@[k]),
{
    let mut out: Vec<SessionId> = Vec::new();
    let ghost mut wit: Seq<int> = Seq::empty();
    let mut k: usize = 0;
    while k < dead.len()
        invariant
            0 <= k <= dead@.len(),
            wit.len() == out@.len(),
            forall|i: int, j: int| 0 <= i < j < out@.len() ==> out@[i] != out@[j],
            forall|i: int| 0 <= i < k ==> out@.contains((#[trigger] dead@[i]).0),
            forall|i: int|
                #![trigger wit[i]]
                0 <= i < out@.len() ==> 0 <= wit[i] < dead@.len() && dead@[wit[i]].0 == out@[i],
        decreases dead@.len() - k,
    {
        let sid = dead[k].0;
        let mut present = false;
        let mut j: usize = 0;
        while j < out.len()
            invariant
                0 <= j <= out@.len(),
                present == exists|t: int| 0 <= t < j && out@[t] == sid,
            decreases out@.len() - j,
        {
            if out[j] == sid {
                present = true;
                proof {
                    assert(out@[j as int] == sid);
                }
            }
            j = j + 1;
        }
        if !present {
            let ghost prev = out@;
            out.push(sid);
            proof {
                wit = wit.push(k as int);
                assert forall|i: int|
                    0 <= i < k + 1 implies out@.contains((#[trigger] dead@[i]).0) by {
                    if i < k {
                        let t = choose|t: int| 0 <= t < prev.len() && prev[t] == dead@[i].0;
                        assert(out@[t] == dead@[i].0);
                    } else {
                        assert(out@[out@.len() - 1] == dead@[i].0);
                    }
                }
            }
        } else {
            proof {
                assert forall|i: int|
                    0 <= i < k + 1 implies out@.contains((#[trigger] dead@[i]).0) by {
                    if i == k {
                        let t = choose|t: int| 0 <= t < out@.len() && out@[t] == sid;
                    }
                }
            }
        }
        k = k + 1;
    }
    proof {
        assert forall|k2: int| 0 <= k2 < out@.len() implies is_dead_session(
            dead@,
            #[trigger] out@[k2],
        ) by {
            let w = wit[k2];
            assert(dead@[w].0 == out@[k2]);
        }
    }
    out
}

/// Persist-then-recover: a queue rebuilt from the exact ranges a snapshot
/// recorded covers precisely the ids the snapshotted queue had ready, under
/// the same discipline.
pub proof fn lemma_persist_recover_round_trip(q: TopicQueue, restored: TopicQueue)
    requires
        q.wf(),
        restored.wf(),
        restored.ready.ranges() =~= q.ready.ranges(),
        restored.kind == q.kind,
    ensures
        forall|x: int|
            #![trigger restored.ready.covers(x)]
            #![trigger q.ready.covers(x)]
            restored.ready.covers(x) == q.ready.covers(x),
        ranges_wf(q.ready.ranges()),
{
}

} // verus!
