//! Building delivery buckets: repeatedly take the smallest ready id, resolve
//! its size through the page cache, and append it to the bucket until the
//! byte bound is reached. Ids whose page is loaded but empty are dropped;
//! an unloaded page suspends the attempt and names the page to load.
use vstd::prelude::*;

use crate::bucket::MessagesBucket;
use crate::ids::{get_page_id, spec_page_of, PageId};
use crate::intervals::ranges_count;
use crate::pages::{MessageSize, PageState, PageStore};
use crate::queue::TopicQueue;
use crate::subscribers::{SessionId, SubscriberId};

verus! {

/// What the store answers for an id, across presence and page state.
pub open spec fn probe(pages: PageStore, x: int) -> MessageSize {
    if pages.has_page(spec_page_of(x)) {
        pages.spec_page(spec_page_of(x)).spec_message_size(x)
    } else {
        MessageSize::NotLoaded
    }
}

/// Builds one bucket for this queue, bounded by `max_delivery_size` bytes,
/// except that a single over-sized message is still delivered alone. When a
/// needed page is not in memory, returns its id so the caller can load it
/// and re-enter delivery; nothing is dequeued past that point.
pub fn fill_messages(queue: &mut TopicQueue, pages: &PageStore, max_delivery_size: u64) -> (r: (
    MessagesBucket,
    Option<PageId>,
))
    requires
        old(queue).wf(),
        pages.wf(),
    ensures
        final(queue).wf(),
        final(queue).subscribers == old(queue).subscribers,
        final(queue).attempts == old(queue).attempts,
        final(queue).kind == old(queue).kind,
        final(queue).topic_id == old(queue).topic_id,
        final(queue).queue_id == old(queue).queue_id,
        r.0.wf(),
        // The size bound, except for a lone over-sized message.
        r.0.total_size <= max_delivery_size || r.0.total_count == 1,
        // Nothing enters the ready set, and the bucket took only ready ids.
        forall|x: int|
            #![trigger final(queue).ready.covers(x)]
            final(queue).ready.covers(x) ==> old(queue).ready.covers(x),
        forall|x: int|
            #![trigger r.0.spec_contains(x)]
            r.0.spec_contains(x) ==> old(queue).ready.covers(x) && !final(queue).ready.covers(x),
        // Ids that vanished without entering the bucket were missing in the store.
        forall|x: int|
            #![trigger old(queue).ready.covers(x)]
            old(queue).ready.covers(x) && !final(queue).ready.covers(x) && !r.0.spec_contains(x)
                ==> probe(*pages, x) == MessageSize::CanNotBeLoaded,
        // Delivery order: everything bucketed precedes everything still ready.
        forall|x: int, y: int|
            #![trigger r.0.spec_contains(x), final(queue).ready.covers(y)]
            r.0.spec_contains(x) && final(queue).ready.covers(y) ==> x < y,
        // Each bucket message carries its recorded attempt count and its
        // stored size.
        forall|a: int, b: int|
            #![trigger r.0.pages@[a].messages@[b]]
            0 <= a < r.0.pages@.len() && 0 <= b < r.0.pages@[a].messages@.len() ==> {
                let m = r.0.pages@[a].messages@[b];
                &&& m.attempt_no as int == old(queue).attempts.spec_get(m.message_id as int)
                &&& probe(*pages, m.message_id as int) == MessageSize::MessageIsReady(m.size)
            },
        // A suspension names a page that is not fully loaded, and it is the
        // page of the smallest id still owed in the ready set.
        r.1 matches Option::Some(pid) ==> !(pages.has_page(pid as int) && pages.spec_page(
            pid as int,
        ).state == PageState::Ready),
        r.1 matches Option::Some(pid) ==> exists|x: int|
            #[trigger] final(queue).ready.covers(x) && spec_page_of(x) == pid,
        r.1 matches Option::Some(pid) ==> forall|y: int|
            #[trigger] final(queue).ready.covers(y) ==> pid <= spec_page_of(y),
        // Progress: when no page is needed, anything still ready was left
        // only because a nonempty bucket ran into the size bound (or, at
        // the extreme, the bucket's count cannot grow further).
        (r.1 is None) ==> forall|y: int|
            #[trigger] final(queue).ready.covers(y) ==> r.0.total_count > 0 && (r.0.total_count
                == usize::MAX || exists|m: int|
                #[trigger] final(queue).ready.covers(m) && m <= y && (match probe(*pages, m) {
                    MessageSize::MessageIsReady(n) => r.0.total_size + n > max_delivery_size,
                    _ => false,
                })),
{
    let ghost old_q = *old(queue);
    let mut bucket = MessagesBucket::new();
    let mut need: Option<PageId> = Option::None;
    proof {
        crate::intervals::lemma_count_nonneg(queue.ready.ranges());
    }
    loop
        invariant_except_break
            need is None,
        invariant
            pages.wf(),
            queue.wf(),
            old_q.wf(),
            queue.subscribers == old_q.subscribers,
            queue.attempts == old_q.attempts,
            queue.kind == old_q.kind,
            queue.topic_id == old_q.topic_id,
            queue.queue_id == old_q.queue_id,
            queue.snapshot_version == old_q.snapshot_version,
            bucket.wf(),
            bucket.total_size <= max_delivery_size || bucket.total_count == 1,
            ranges_count(queue.ready.ranges()) >= 0,
            forall|x: int|
                #![trigger queue.ready.covers(x)]
                queue.ready.covers(x) ==> old_q.ready.covers(x),
            forall|x: int|
                #![trigger bucket.spec_contains(x)]
                bucket.spec_contains(x) ==> old_q.ready.covers(x) && !queue.ready.covers(x),
            forall|x: int|
                #![trigger old_q.ready.covers(x)]
                old_q.ready.covers(x) && !queue.ready.covers(x) && !bucket.spec_contains(x)
                    ==> probe(*pages, x) == MessageSize::CanNotBeLoaded,
            forall|x: int, y: int|
                #![trigger bucket.spec_contains(x), queue.ready.covers(y)]
                bucket.spec_contains(x) && queue.ready.covers(y) ==> x < y,
            forall|a: int, b: int|
                #![trigger bucket.pages@[a].messages@[b]]
                0 <= a < bucket.pages@.len() && 0 <= b < bucket.pages@[a].messages@.len() ==> {
                    let m = bucket.pages@[a].messages@[b];
                    &&& m.attempt_no as int == old_q.attempts.spec_get(m.message_id as int)
                    &&& probe(*pages, m.message_id as int) == MessageSize::MessageIsReady(m.size)
                },
        ensures
            queue.wf(),
            match need {
                Option::Some(pid) => !(pages.has_page(pid as int) && pages.spec_page(
                    pid as int,
                ).state == PageState::Ready) && (exists|x: int|
                    #[trigger] queue.ready.covers(x) && spec_page_of(x) == pid) && (forall|y: int|
                    #[trigger] queue.ready.covers(y) ==> pid <= spec_page_of(y)),
                Option::None => forall|y: int|
                    #[trigger] queue.ready.covers(y) ==> bucket.total_count > 0 && (
                    bucket.total_count == usize::MAX || exists|m: int|
                        #[trigger] queue.ready.covers(m) && m <= y && (match probe(*pages, m) {
                            MessageSize::MessageIsReady(n) => bucket.total_size + n
                                > max_delivery_size,
                            _ => false,
                        })),
            },
        decreases ranges_count(queue.ready.ranges()),
    {
        let next = queue.peek_next_message();
        let (next_id, next_attempt) = match next {
            Option::Some(p) => p,
            Option::None => { break ; },
        };
        proof {
            queue.ready.lemma_covers_valid(next_id as int);
        }
        if bucket.messages_count() == usize::MAX {
            break ;
        }
        let size_probe = pages.get_message_size(next_id);
        match size_probe {
            MessageSize::MessageIsReady(n) => {
                let over = if bucket.messages_count() > 0 {
                    if n > max_delivery_size {
                        true
                    } else {
                        bucket.total_size > max_delivery_size - n
                    }
                } else {
                    false
                };
                if over {
                    proof {
                        assert(probe(*pages, next_id as int) == MessageSize::MessageIsReady(n));
                        assert forall|y: int| #[trigger] queue.ready.covers(y) implies exists|
                            m: int,
                        |
                            #[trigger] queue.ready.covers(m) && m <= y && (match probe(
                                *pages,
                                m,
                            ) {
                                MessageSize::MessageIsReady(n2) => bucket.total_size + n2
                                    > max_delivery_size,
                                _ => false,
                            }) by {
                            assert(queue.ready.covers(next_id as int) && next_id <= y && (
                            match probe(*pages, next_id as int) {
                                MessageSize::MessageIsReady(n2) => bucket.total_size + n2
                                    > max_delivery_size,
                                _ => false,
                            }));
                        }
                    }
                    break ;
                }
                let ghost pre_q = *queue;
                let dequeued = queue.ready.dequeue();
                proof {
                    crate::intervals::lemma_count_nonneg(queue.ready.ranges());
                    match dequeued {
                        Option::Some(m) => {
                            assert(m == next_id);
                        },
                        Option::None => {
                            assert(false);
                        },
                    }
                    if bucket.total_count == 0 {
                        assert(bucket.spec_msgs().len() == 0);
                        assert(crate::bucket::msgs_total_size(bucket.spec_msgs()) == 0);
                    }
                    assert forall|x: int| bucket.spec_contains(x) implies x < next_id by {
                        assert(pre_q.ready.covers(next_id as int));
                    }
                    assert forall|x: int| #[trigger] queue.ready.covers(x) implies !queue.subscribers.in_flight(
                        x,
                    ) by {
                        assert(pre_q.ready.covers(x));
                    }
                    assert(probe(*pages, next_id as int) == MessageSize::MessageIsReady(n));
                }
                bucket.add(next_id, next_attempt, n);
            },
            MessageSize::NotLoaded => {
                need = Option::Some(get_page_id(next_id));
                proof {
                    crate::ids::lemma_page_of_in_range(next_id as int);
                    assert(queue.ready.covers(next_id as int) && spec_page_of(next_id as int)
                        == spec_page_of(next_id as int));
                    assert forall|y: int| #[trigger] queue.ready.covers(y) implies spec_page_of(
                        next_id as int,
                    ) <= spec_page_of(y) by {
                        queue.ready.lemma_covers_valid(y);
                        crate::ids::lemma_page_of_monotonic(next_id as int, y);
                    }
                }
                break ;
            },
            MessageSize::CanNotBeLoaded => {
                let ghost pre_q = *queue;
                let dequeued = queue.ready.dequeue();
                proof {
                    crate::intervals::lemma_count_nonneg(queue.ready.ranges());
                    match dequeued {
                        Option::Some(m) => {
                            assert(m == next_id);
                        },
                        Option::None => {
                            assert(false);
                        },
                    }
                    assert forall|x: int| #[trigger] queue.ready.covers(x) implies !queue.subscribers.in_flight(
                        x,
                    ) by {
                        assert(pre_q.ready.covers(x));
                    }
                    assert(probe(*pages, next_id as int) == MessageSize::CanNotBeLoaded);
                }
            },
        }
    }
    (bucket, need)
}

/// A bucket built by this delivery pass: nonempty, within the byte bound
/// (except a lone over-sized message), and made only of ids that were ready
/// when the pass began, each carrying its recorded attempt count and its
/// stored size.
pub open spec fn bucket_from(
    b: MessagesBucket,
    q_old: TopicQueue,
    pages: PageStore,
    max_delivery_size: u64,
) -> bool {
    &&& b.wf()
    &&& b.total_count > 0
    &&& (b.total_size <= max_delivery_size || b.total_count == 1)
    &&& forall|a: int, b2: int|
        #![trigger b.pages@[a].messages@[b2]]
        0 <= a < b.pages@.len() && 0 <= b2 < b.pages@[a].messages@.len() ==> {
            let m = b.pages@[a].messages@[b2];
            &&& q_old.ready.covers(m.message_id as int)
            &&& m.attempt_no as int == q_old.attempts.spec_get(m.message_id as int)
            &&& probe(pages, m.message_id as int) == MessageSize::MessageIsReady(m.size)
        }
}

/// The pair's subscriber holds a bucket the pass built from the entry
/// state.
pub open spec fn pair_bucket_from(
    s: crate::subscribers::SubscriberSet,
    pair: (SubscriberId, SessionId),
    q_old: TopicQueue,
    pages: PageStore,
    max_delivery_size: u64,
) -> bool {
    exists|i: int|
        {
            &&& 0 <= i < s.subscribers@.len()
            &&& (#[trigger] s.subscribers@[i]).id == pair.0
            &&& match s.subscribers@[i].on_delivery {
                Option::Some(b) => bucket_from(b, q_old, pages, max_delivery_size),
                Option::None => false,
            }
        }
}

/// A returned pair names a subscriber that is now on delivery with a
/// nonempty bucket, on its session.
pub open spec fn pair_on_delivery(
    s: crate::subscribers::SubscriberSet,
    pair: (SubscriberId, SessionId),
) -> bool {
    exists|i: int|
        {
            &&& 0 <= i < s.subscribers@.len()
            &&& (#[trigger] s.subscribers@[i]).id == pair.0
            &&& s.subscribers@[i].session_id == pair.1
            &&& s.subscribers@[i].delivery_state is OnDelivery
            &&& match s.subscribers@[i].on_delivery {
                Option::Some(b) => b.total_count > 0,
                Option::None => false,
            }
        }
}

/// One delivery pass over a queue: for as long as there is an idle
/// subscriber and a non-empty bucket can be built, attach the bucket to the
/// subscriber and record the pair for the transport layer to serialize and
/// send. Returns the pairs to send and, when a page must be loaded first,
/// its id.
#[verifier::rlimit(100)]
pub fn try_to_deliver_next_messages_for_the_queue(
    queue: &mut TopicQueue,
    pages: &PageStore,
    max_delivery_size: u64,
    now: i64,
) -> (r: (Vec<(SubscriberId, SessionId)>, Option<PageId>))
    requires
        old(queue).wf(),
        pages.wf(),
    ensures
        final(queue).wf(),
        final(queue).kind == old(queue).kind,
        final(queue).topic_id == old(queue).topic_id,
        final(queue).queue_id == old(queue).queue_id,
        // Nothing is lost: what was owed is still owed, unless its page
        // turned out to hold no such message.
        forall|x: int|
            #![trigger old(queue).owes(x)]
            old(queue).owes(x) ==> final(queue).owes(x) || probe(*pages, x)
                == MessageSize::CanNotBeLoaded,
        forall|x: int|
            #![trigger final(queue).ready.covers(x)]
            final(queue).ready.covers(x) ==> old(queue).owes(x),
        forall|x: int|
            #![trigger final(queue).subscribers.in_flight(x)]
            final(queue).subscribers.in_flight(x) ==> old(queue).owes(x),
        r.1 matches Option::Some(pid) ==> !(pages.has_page(pid as int) && pages.spec_page(
            pid as int,
        ).state == PageState::Ready),
        // A suspension names the page of an id still owed in the ready set.
        r.1 matches Option::Some(pid) ==> exists|x: int|
            #[trigger] final(queue).ready.covers(x) && spec_page_of(x) == pid,
        // Each returned pair names a subscriber now on delivery with a
        // nonempty bucket, and that bucket was built from ids ready at
        // entry, with their recorded attempt counts and stored sizes.
        forall|k: int|
            0 <= k < r.0@.len() ==> pair_on_delivery(final(queue).subscribers, #[trigger] r.0@[k]),
        forall|k: int|
            0 <= k < r.0@.len() ==> pair_bucket_from(
                final(queue).subscribers,
                #[trigger] r.0@[k],
                *old(queue),
                *pages,
                max_delivery_size,
            ),
        // Delivery order: everything this pass attached precedes everything
        // still ready afterwards.
        forall|k: int, x: int, y: int|
            #![trigger final(queue).held_by(r.0@[k].0 as int, x), final(queue).ready.covers(y)]
            0 <= k < r.0@.len() && final(queue).held_by(r.0@[k].0 as int, x) && final(queue).ready.covers(y) ==> x < y,
        // Progress: an empty pass without a page to load means there was
        // nobody idle to serve, or nothing left ready to hand out.
        (r.0@.len() == 0 && r.1 is None) ==> ((forall|i: int|
            0 <= i < final(queue).subscribers.subscribers@.len() ==> !((#[trigger] final(queue).subscribers.subscribers@[i]).delivery_state is Idle)) || (forall|y: int|
            !(#[trigger] final(queue).ready.covers(y)))),
{
    let ghost old_q = *old(queue);
    let mut out: Vec<(SubscriberId, SessionId)> = Vec::new();
    let ghost mut wit: Seq<int> = Seq::empty();
    let mut need: Option<PageId> = Option::None;
    let mut rounds: usize = 0;
    let total = queue.subscribers.len();
    while rounds < total
        invariant_except_break
            need is None,
            out@.len() == rounds,
            queue.attempts == old_q.attempts,
        invariant
            pages.wf(),
            queue.wf(),
            old_q.wf(),
            queue.kind == old_q.kind,
            queue.topic_id == old_q.topic_id,
            queue.queue_id == old_q.queue_id,
            total == queue.subscribers.subscribers@.len(),
            wit.len() == out@.len(),
            forall|k: int|
                #![trigger wit[k]]
                0 <= k < out@.len() ==> {
                    let s2 = queue.subscribers.subscribers@[wit[k]];
                    &&& 0 <= wit[k] < queue.subscribers.subscribers@.len()
                    &&& s2.id == out@[k].0
                    &&& s2.session_id == out@[k].1
                    &&& s2.delivery_state is OnDelivery
                    &&& match s2.on_delivery {
                        Option::Some(b) => b.total_count > 0 && bucket_from(
                            b,
                            old_q,
                            *pages,
                            max_delivery_size,
                        ),
                        Option::None => false,
                    }
                },
            forall|k: int, x: int, y: int|
                #![trigger queue.subscribers.subscribers@[wit[k]].holds(x), queue.ready.covers(y)]
                0 <= k < out@.len() && queue.subscribers.subscribers@[wit[k]].holds(x)
                    && queue.ready.covers(y) ==> x < y,
            forall|x: int|
                #![trigger old_q.owes(x)]
                old_q.owes(x) ==> queue.owes(x) || probe(*pages, x)
                    == MessageSize::CanNotBeLoaded,
            forall|x: int|
                #![trigger queue.ready.covers(x)]
                queue.ready.covers(x) ==> old_q.ready.covers(x),
            forall|x: int|
                #![trigger queue.subscribers.in_flight(x)]
                queue.subscribers.in_flight(x) ==> old_q.owes(x),
        ensures
            queue.wf(),
            wit.len() == out@.len(),
            forall|k: int|
                #![trigger wit[k]]
                0 <= k < out@.len() ==> {
                    let s2 = queue.subscribers.subscribers@[wit[k]];
                    &&& 0 <= wit[k] < queue.subscribers.subscribers@.len()
                    &&& s2.id == out@[k].0
                    &&& s2.session_id == out@[k].1
                    &&& s2.delivery_state is OnDelivery
                    &&& match s2.on_delivery {
                        Option::Some(b) => b.total_count > 0 && bucket_from(
                            b,
                            old_q,
                            *pages,
                            max_delivery_size,
                        ),
                        Option::None => false,
                    }
                },
            forall|k: int, x: int, y: int|
                #![trigger queue.subscribers.subscribers@[wit[k]].holds(x), queue.ready.covers(y)]
                0 <= k < out@.len() && queue.subscribers.subscribers@[wit[k]].holds(x)
                    && queue.ready.covers(y) ==> x < y,
            match need {
                Option::Some(pid) => !(pages.has_page(pid as int) && pages.spec_page(
                    pid as int,
                ).state == PageState::Ready) && (exists|x: int|
                    #[trigger] queue.ready.covers(x) && spec_page_of(x) == pid),
                Option::None => true,
            },
            (out@.len() == 0 && need is None) ==> ((forall|i: int|
                0 <= i < queue.subscribers.subscribers@.len() ==> !((
                #[trigger] queue.subscribers.subscribers@[i]).delivery_state is Idle)) || (forall|
                y: int|
                !(#[trigger] queue.ready.covers(y)))),
        decreases total - rounds,
    {
        let subscriber_id = match queue.subscribers.get_next_subscriber_ready_to_deliver() {
            Option::Some(id) => id,
            Option::None => { break ; },
        };
        let ghost pre_q = *queue;
        let (bucket, fill_need) = fill_messages(queue, pages, max_delivery_size);
        proof {
            // The bucket's ids are in limbo until they are attached or
            // returned; meanwhile they are owed by nobody.
            assert forall|x: int| bucket.spec_contains(x) implies !queue.owes(x)
                && pre_q.ready.covers(x) by {
                assert(!pre_q.subscribers.in_flight(x));
            }
            assert forall|x: int| #[trigger] queue.ready.covers(x) implies old_q.owes(x) by {
                assert(pre_q.ready.covers(x));
            }
        }
        match fill_need {
            Option::Some(pid) => {
                // A page must come in before anything can be handed out;
                // return what was built to the ready set untouched in count.
                let ghost pre_mark = *queue;
                queue.mark_not_delivered(&bucket);
                need = Option::Some(pid);
                proof {
                    assert(exists|x: int|
                        #[trigger] queue.ready.covers(x) && spec_page_of(x) == pid as int) by {
                        let x0 = choose|x0: int|
                            #[trigger] pre_mark.ready.covers(x0) && spec_page_of(x0) == pid as int;
                        assert(queue.ready.covers(x0));
                    }
                    assert forall|x: int| #[trigger] old_q.owes(x) implies queue.owes(x) || probe(
                        *pages,
                        x,
                    ) == MessageSize::CanNotBeLoaded by {
                        if pre_q.ready.covers(x) {
                            if bucket.spec_contains(x) {
                                assert(queue.ready.covers(x));
                            } else if queue.ready.covers(x) {
                            } else {
                                assert(probe(*pages, x) == MessageSize::CanNotBeLoaded);
                            }
                        } else if pre_q.subscribers.in_flight(x) {
                            assert(queue.subscribers.in_flight(x));
                        }
                    }
                    assert forall|x: int| #[trigger] queue.ready.covers(x) implies old_q.ready.covers(
                        x,
                    ) by {
                        if bucket.spec_contains(x) {
                            assert(pre_q.ready.covers(x));
                        } else {
                            assert(pre_mark.ready.covers(x));
                            assert(pre_q.ready.covers(x));
                        }
                    }
                    assert forall|k: int, x: int, y: int|
                        #![trigger queue.subscribers.subscribers@[wit[k]].holds(x), queue.ready.covers(y)]
                        0 <= k < out@.len() && queue.subscribers.subscribers@[wit[k]].holds(x)
                            && queue.ready.covers(y) implies x < y by {
                        if bucket.spec_contains(y) {
                            assert(pre_q.ready.covers(y));
                        } else {
                            assert(pre_mark.ready.covers(y));
                            assert(pre_q.ready.covers(y));
                        }
                        assert(pre_q.subscribers.subscribers@[wit[k]].holds(x));
                    }
                }
                break ;
            },
            Option::None => {
                if bucket.messages_count() == 0 {
                    proof {
                        bucket.lemma_empty_no_contains();
                        assert forall|x: int| #[trigger] old_q.owes(x) implies queue.owes(x)
                            || probe(*pages, x) == MessageSize::CanNotBeLoaded by {
                            if pre_q.subscribers.in_flight(x) {
                                assert(queue.subscribers.in_flight(x));
                            }
                        }
                    }
                    break ;
                }
                let session_id = match find_session_of(&queue.subscribers, subscriber_id) {
                    Option::Some(sid) => sid,
                    Option::None => {
                        // fill_messages leaves the subscriber set untouched,
                        // so the subscriber picked above is still there.
                        proof {
                            assert(queue.subscribers.has_subscriber(subscriber_id as int));
                            assert(false);
                        }
                        break ;
                    },
                };
                let ghost pre3 = *queue;
                let attached = queue.subscribers.set_on_delivery(subscriber_id, bucket, now);
                proof {
                    assert(attached);
                    let i = choose|i: int|
                        {
                            &&& 0 <= i < pre3.subscribers.subscribers@.len()
                            &&& pre3.subscribers.subscribers@[i].id == subscriber_id
                            &&& queue.subscribers.subscribers@ =~= pre3.subscribers.subscribers@.update(
                                i,
                                (crate::subscribers::QueueSubscriber {
                                    delivery_state: crate::subscribers::DeliveryState::OnDelivery {
                                        since: now,
                                    },
                                    on_delivery: Option::Some(bucket),
                                    ..pre3.subscribers.subscribers@[i]
                                }),
                            )
                        };
                    assert forall|x: int| #[trigger] queue.subscribers.in_flight(x) implies (
                    pre3.subscribers.in_flight(x) || bucket.spec_contains(x)) by {
                        let j = choose|j: int|
                            0 <= j < queue.subscribers.subscribers@.len() && (
                            #[trigger] queue.subscribers.subscribers@[j]).holds(x);
                        if j != i {
                            assert(pre3.subscribers.subscribers@[j].holds(x));
                        }
                    }
                    assert forall|x: int|
                        pre3.subscribers.in_flight(x) implies queue.subscribers.in_flight(x) by {
                        let j = choose|j: int|
                            0 <= j < pre3.subscribers.subscribers@.len() && (
                            #[trigger] pre3.subscribers.subscribers@[j]).holds(x);
                        if j == i {
                            assert(!pre3.owes(x));
                        } else {
                            assert(queue.subscribers.subscribers@[j].holds(x));
                        }
                    }
                    assert forall|x: int| bucket.spec_contains(x) implies queue.subscribers.in_flight(
                        x,
                    ) by {
                        assert(queue.subscribers.subscribers@[i].holds(x));
                    }
                    assert(queue.wf()) by {
                        assert forall|id: int| #[trigger] queue.ready.covers(id) implies !queue.subscribers.in_flight(
                            id,
                        ) by {
                            if queue.subscribers.in_flight(id) {
                                if bucket.spec_contains(id) {
                                    assert(!pre3.owes(id));
                                } else {
                                    assert(pre3.subscribers.in_flight(id));
                                }
                            }
                        }
                        assert forall|i2: int, j2: int, x: int|
                            0 <= i2 < j2 < queue.subscribers.subscribers@.len() implies !((
                        #[trigger] queue.subscribers.subscribers@[i2].holds(x)) && (
                        #[trigger] queue.subscribers.subscribers@[j2].holds(x))) by {
                            if queue.subscribers.subscribers@[i2].holds(x)
                                && queue.subscribers.subscribers@[j2].holds(x) {
                                if i2 == i {
                                    assert(bucket.spec_contains(x));
                                    assert(pre3.subscribers.subscribers@[j2].holds(x));
                                    assert(pre3.subscribers.in_flight(x));
                                    assert(!pre3.owes(x));
                                } else if j2 == i {
                                    assert(bucket.spec_contains(x));
                                    assert(pre3.subscribers.subscribers@[i2].holds(x));
                                    assert(pre3.subscribers.in_flight(x));
                                    assert(!pre3.owes(x));
                                } else {
                                    assert(pre3.subscribers.subscribers@[i2].holds(x));
                                    assert(pre3.subscribers.subscribers@[j2].holds(x));
                                }
                            }
                        }
                    }
                    assert forall|x: int| #[trigger] old_q.owes(x) implies queue.owes(x) || probe(
                        *pages,
                        x,
                    ) == MessageSize::CanNotBeLoaded by {
                        if pre_q.ready.covers(x) {
                            if bucket.spec_contains(x) {
                                assert(queue.subscribers.in_flight(x));
                            } else if queue.ready.covers(x) {
                            } else {
                                assert(probe(*pages, x) == MessageSize::CanNotBeLoaded);
                            }
                        } else if pre_q.subscribers.in_flight(x) {
                            assert(pre3.subscribers.in_flight(x));
                            assert(queue.subscribers.in_flight(x));
                        }
                    }
                    assert forall|x: int| #[trigger] queue.subscribers.in_flight(x) implies old_q.owes(
                        x,
                    ) by {
                        if bucket.spec_contains(x) {
                            assert(pre_q.ready.covers(x));
                            assert(old_q.owes(x));
                        } else {
                            assert(pre3.subscribers.in_flight(x));
                        }
                    }
                }
                let ghost prev_out = out@;
                let ghost prev_wit = wit;
                out.push((subscriber_id, session_id));
                proof {
                    assert(bucket_from(bucket, old_q, *pages, max_delivery_size)) by {
                        assert forall|a: int, b2: int|
                            #![trigger bucket.pages@[a].messages@[b2]]
                            0 <= a < bucket.pages@.len() && 0 <= b2
                                < bucket.pages@[a].messages@.len() implies {
                            let m = bucket.pages@[a].messages@[b2];
                            &&& old_q.ready.covers(m.message_id as int)
                            &&& m.attempt_no as int == old_q.attempts.spec_get(
                                m.message_id as int,
                            )
                            &&& probe(*pages, m.message_id as int)
                                == MessageSize::MessageIsReady(m.size)
                        } by {
                            let m = bucket.pages@[a].messages@[b2];
                            assert(bucket.spec_contains(m.message_id as int));
                            assert(pre_q.ready.covers(m.message_id as int));
                            assert(m.attempt_no as int == pre_q.attempts.spec_get(
                                m.message_id as int,
                            ));
                        }
                    }
                    let i = choose|i: int|
                        {
                            &&& 0 <= i < pre3.subscribers.subscribers@.len()
                            &&& pre3.subscribers.subscribers@[i].id == subscriber_id
                            &&& queue.subscribers.subscribers@ =~= pre3.subscribers.subscribers@.update(
                                i,
                                (crate::subscribers::QueueSubscriber {
                                    delivery_state: crate::subscribers::DeliveryState::OnDelivery {
                                        since: now,
                                    },
                                    on_delivery: Option::Some(bucket),
                                    ..pre3.subscribers.subscribers@[i]
                                }),
                            )
                        };
                    wit = wit.push(i);
                    assert forall|k: int|
                        #![trigger wit[k]]
                        0 <= k < out@.len() implies {
                        let s2 = queue.subscribers.subscribers@[wit[k]];
                        &&& 0 <= wit[k] < queue.subscribers.subscribers@.len()
                        &&& s2.id == out@[k].0
                        &&& s2.session_id == out@[k].1
                        &&& s2.delivery_state is OnDelivery
                        &&& match s2.on_delivery {
                            Option::Some(b) => b.total_count > 0,
                            Option::None => false,
                        }
                    } by {
                        if k < prev_out.len() {
                            assert(wit[k] == prev_wit[k]);
                            assert(out@[k] == prev_out[k]);
                            // The newly served subscriber was idle, so it is
                            // not one already recorded as on delivery.
                            assert(pre3.subscribers.subscribers@[prev_wit[k]].delivery_state
                                is OnDelivery);
                            assert(prev_wit[k] != i);
                            assert(queue.subscribers.subscribers@[prev_wit[k]]
                                == pre3.subscribers.subscribers@[prev_wit[k]]);
                            assert(pre3.subscribers.subscribers@[prev_wit[k]]
                                == pre_q.subscribers.subscribers@[prev_wit[k]]);
                        } else {
                            assert(wit[k] == i);
                            assert(out@[k] == (subscriber_id, session_id));
                            assert(queue.subscribers.subscribers@[i].on_delivery
                                == Option::Some(bucket));
                            let j = choose|j2: int|
                                0 <= j2 < pre3.subscribers.subscribers@.len() && (
                                #[trigger] pre3.subscribers.subscribers@[j2]).id == subscriber_id
                                    && pre3.subscribers.subscribers@[j2].session_id == session_id;
                            if j != i {
                                assert(pre3.subscribers.subscribers@[if j < i {
                                    j
                                } else {
                                    i
                                }].id != pre3.subscribers.subscribers@[if j < i {
                                    i
                                } else {
                                    j
                                }].id);
                            }
                        }
                    }
                    assert forall|k: int, x: int, y: int|
                        #![trigger queue.subscribers.subscribers@[wit[k]].holds(x), queue.ready.covers(y)]
                        0 <= k < out@.len() && queue.subscribers.subscribers@[wit[k]].holds(x)
                            && queue.ready.covers(y) implies x < y by {
                        assert(pre3.ready.covers(y));
                        if k < prev_out.len() {
                            assert(wit[k] == prev_wit[k]);
                            assert(queue.subscribers.subscribers@[prev_wit[k]]
                                == pre_q.subscribers.subscribers@[prev_wit[k]]);
                            assert(pre_q.subscribers.subscribers@[prev_wit[k]].holds(x));
                            assert(pre_q.ready.covers(y));
                        } else {
                            assert(wit[k] == i);
                            assert(bucket.spec_contains(x));
                        }
                    }
                }
            },
        }
        rounds = rounds + 1;
    }
    proof {
        assert forall|k: int| 0 <= k < out@.len() implies pair_on_delivery(
            queue.subscribers,
            #[trigger] out@[k],
        ) by {
            let i = wit[k];
            assert(queue.subscribers.subscribers@[i].id == out@[k].0
                && queue.subscribers.subscribers@[i].session_id == out@[k].1);
        }
        assert forall|k: int| 0 <= k < out@.len() implies pair_bucket_from(
            queue.subscribers,
            #[trigger] out@[k],
            old_q,
            *pages,
            max_delivery_size,
        ) by {
            let i = wit[k];
            assert(queue.subscribers.subscribers@[i].id == out@[k].0);
        }
        assert forall|k: int, x: int, y: int|
            #![trigger queue.held_by(out@[k].0 as int, x), queue.ready.covers(y)]
            0 <= k < out@.len() && queue.held_by(out@[k].0 as int, x) && queue.ready.covers(
                y,
            ) implies x < y by {
            let i = choose|i: int|
                0 <= i < queue.subscribers.subscribers@.len() && (
                #[trigger] queue.subscribers.subscribers@[i]).id == out@[k].0 as i64
                    && queue.subscribers.subscribers@[i].holds(x);
            if i != wit[k] {
                assert(queue.subscribers.subscribers@[if i < wit[k] {
                    i
                } else {
                    wit[k]
                }].id != queue.subscribers.subscribers@[if i < wit[k] {
                    wit[k]
                } else {
                    i
                }].id);
            }
            assert(queue.subscribers.subscribers@[wit[k]].holds(x));
        }
    }
    (out, need)
}

/// The session a subscriber belongs to.
fn find_session_of(subscribers: &crate::subscribers::SubscriberSet, id: SubscriberId) -> (r:
    Option<SessionId>)
    requires
        subscribers.wf(),
    ensures
        match r {
            Option::Some(sid) => exists|j: int|
                0 <= j < subscribers.subscribers@.len() && (
                #[trigger] subscribers.subscribers@[j]).id == id
                    && subscribers.subscribers@[j].session_id == sid,
            Option::None => !subscribers.has_subscriber(id as int),
        },
{
    let mut i: usize = 0;
    while i < subscribers.subscribers.len()
        invariant
            subscribers.wf(),
            0 <= i <= subscribers.subscribers@.len(),
            forall|k: int| 0 <= k < i ==> (#[trigger] subscribers.subscribers@[k]).id != id,
        decreases subscribers.subscribers@.len() - i,
    {
        if subscribers.subscribers[i].id == id {
            let sid = subscribers.subscribers[i].session_id;
            proof {
                assert(subscribers.subscribers@[i as int].id == id
                    && subscribers.subscribers@[i as int].session_id == sid);
            }
            return Option::Some(sid);
        }
        i = i + 1;
    }
    Option::None
}

} // verus!
