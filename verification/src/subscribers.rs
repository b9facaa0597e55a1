//! Subscribers attached to one queue: selection for delivery, the kick rule
//! of single-subscriber queues, and detection of subscribers that went silent
//! while a delivery was outstanding.
use vstd::prelude::*;

use crate::bucket::MessagesBucket;

verus! {

pub type SubscriberId = i64;

pub type SessionId = i64;

/// What a subscriber is doing right now. `since` is a timestamp in
/// microseconds, handed in by the caller.
pub enum DeliveryState {
    Idle,
    OnDelivery { since: i64 },
}

/// One subscriber of a queue.
pub struct QueueSubscriber {
    pub id: SubscriberId,
    pub session_id: SessionId,
    pub topic_id: String,
    pub queue_id: String,
    pub delivery_state: DeliveryState,
    pub on_delivery: Option<MessagesBucket>,
}

impl QueueSubscriber {
    /// A bucket is attached exactly while a delivery is outstanding.
    pub open spec fn wf(self) -> bool {
        &&& (self.on_delivery is Some <==> self.delivery_state is OnDelivery)
        &&& match self.on_delivery {
            Option::Some(b) => b.wf() && b.total_count > 0,
            Option::None => true,
        }
    }

    /// The ids this subscriber holds in flight.
    pub open spec fn holds(self, id: int) -> bool {
        match self.on_delivery {
            Option::Some(b) => b.spec_contains(id),
            Option::None => false,
        }
    }

    pub fn new(id: SubscriberId, session_id: SessionId, topic_id: String, queue_id: String) -> (r:
        QueueSubscriber)
        ensures
            r.wf(),
            r.id == id,
            r.session_id == session_id,
            r.topic_id == topic_id,
            r.queue_id == queue_id,
            r.delivery_state is Idle,
            forall|x: int| !r.holds(x),
    {
        QueueSubscriber {
            id,
            session_id,
            topic_id,
            queue_id,
            delivery_state: DeliveryState::Idle,
            on_delivery: Option::None,
        }
    }

    /// Detaches the outstanding bucket, returning the subscriber to `Idle`.
    pub fn reset_delivery(&mut self) -> (r: Option<MessagesBucket>)
        requires
            old(self).wf(),
        ensures
            final(self).wf(),
            final(self).delivery_state is Idle,
            *final(self) == (QueueSubscriber {
                delivery_state: DeliveryState::Idle,
                on_delivery: Option::None,
                ..*old(self)
            }),
            forall|x: int| !final(self).holds(x),
            r == old(self).on_delivery,
            match r {
                Option::Some(b) => b.wf() && b.total_count > 0 && forall|x: int|
                    old(self).holds(x) == b.spec_contains(x),
                Option::None => forall|x: int| !old(self).holds(x),
            },
    {
        let mut out: Option<MessagesBucket> = Option::None;
        core::mem::swap(&mut out, &mut self.on_delivery);
        self.delivery_state = DeliveryState::Idle;
        out
    }
}

/// The subscribers of one queue, with distinct subscriber ids.
pub struct SubscriberSet {
    pub subscribers: Vec<QueueSubscriber>,
}

/// `id` names a subscriber of `s` attached to `session_id`.
pub open spec fn is_session_subscriber_id(s: SubscriberSet, id: SubscriberId, session_id: int) -> bool {
    exists|i: int|
        0 <= i < s.subscribers@.len() && (#[trigger] s.subscribers@[i]).id == id
            && s.subscribers@[i].session_id == session_id
}

/// `pair` names a subscriber of `s` whose outstanding delivery started at or
/// before `now - delivery_timeout`.
pub open spec fn is_dead_subscriber_pair(
    s: SubscriberSet,
    pair: (SessionId, SubscriberId),
    now: int,
    delivery_timeout: int,
) -> bool {
    exists|i: int|
        {
            &&& 0 <= i < s.subscribers@.len()
            &&& (#[trigger] s.subscribers@[i]).id == pair.1
            &&& s.subscribers@[i].session_id == pair.0
            &&& match s.subscribers@[i].delivery_state {
                DeliveryState::OnDelivery { since } => since <= now - delivery_timeout,
                DeliveryState::Idle => false,
            }
        }
}

impl SubscriberSet {
    pub open spec fn wf(self) -> bool {
        &&& forall|i: int| 0 <= i < self.subscribers@.len() ==> (#[trigger] self.subscribers@[i]).wf()
        &&& forall|i: int, j: int|
            0 <= i < j < self.subscribers@.len() ==> (#[trigger] self.subscribers@[i]).id != (
            #[trigger] self.subscribers@[j]).id
    }

    pub open spec fn spec_len(self) -> int {
        self.subscribers@.len() as int
    }

    pub open spec fn has_subscriber(self, id: int) -> bool {
        exists|i: int| 0 <= i < self.subscribers@.len() && (#[trigger] self.subscribers@[i]).id == id
    }

    /// Some attached subscriber holds `id` in flight.
    pub open spec fn in_flight(self, id: int) -> bool {
        exists|i: int| 0 <= i < self.subscribers@.len() && (#[trigger] self.subscribers@[i]).holds(id)
    }

    pub fn new() -> (r: Self)
        ensures
            r.wf(),
            r.subscribers@.len() == 0,
            forall|id: int| !r.has_subscriber(id),
            forall|id: int| !r.in_flight(id),
    {
        SubscriberSet { subscribers: Vec::new() }
    }

    pub fn len(&self) -> (r: usize)
        ensures
            r == self.spec_len(),
    {
        self.subscribers.len()
    }

    /// Index of the subscriber with this id.
    fn find(&self, id: SubscriberId) -> (r: Option<usize>)
        requires
            self.wf(),
        ensures
            match r {
                Option::Some(i) => i < self.subscribers@.len() && self.subscribers@[i as int].id
                    == id,
                Option::None => !self.has_subscriber(id as int),
            },
    {
        let mut i: usize = 0;
        while i < self.subscribers.len()
            invariant
                self.wf(),
                0 <= i <= self.subscribers@.len(),
                forall|k: int| 0 <= k < i ==> (#[trigger] self.subscribers@[k]).id != id,
            decreases self.subscribers@.len() - i,
        {
            if self.subscribers[i].id == id {
                return Option::Some(i);
            }
            i = i + 1;
        }
        Option::None
    }

    /// Attaches a new idle subscriber. On a single-subscriber queue the
    /// incumbent, if any, is removed and returned so that the caller can
    /// notify it and return its in-flight bucket to the ready set.
    pub fn subscribe(
        &mut self,
        id: SubscriberId,
        session_id: SessionId,
        topic_id: String,
        queue_id: String,
        single_subscriber: bool,
    ) -> (kicked: Option<QueueSubscriber>)
        requires
            old(self).wf(),
            !old(self).has_subscriber(id as int),
        ensures
            final(self).wf(),
            final(self).has_subscriber(id as int),
            match kicked {
                Option::Some(k) => {
                    &&& single_subscriber
                    &&& old(self).spec_len() > 0
                    &&& k == old(self).subscribers@[0]
                    &&& k.wf()
                    &&& final(self).subscribers@ =~= old(self).subscribers@.drop_first().push(
                        crate::subscribers::QueueSubscriber {
                            id,
                            session_id,
                            topic_id,
                            queue_id,
                            delivery_state: crate::subscribers::DeliveryState::Idle,
                            on_delivery: Option::None,
                        },
                    )
                },
                Option::None => {
                    &&& !(single_subscriber && old(self).spec_len() > 0)
                    &&& final(self).subscribers@ =~= old(self).subscribers@.push(
                        crate::subscribers::QueueSubscriber {
                            id,
                            session_id,
                            topic_id,
                            queue_id,
                            delivery_state: crate::subscribers::DeliveryState::Idle,
                            on_delivery: Option::None,
                        },
                    )
                },
            },
    {
        let sub = QueueSubscriber::new(id, session_id, topic_id, queue_id);
        if single_subscriber && self.subscribers.len() > 0 {
            let kicked = self.subscribers.remove(0);
            self.subscribers.push(sub);
            proof {
                assert(self.subscribers@[self.subscribers@.len() - 1].id == id);
            }
            Option::Some(kicked)
        } else {
            self.subscribers.push(sub);
            proof {
                assert(self.subscribers@[self.subscribers@.len() - 1].id == id);
            }
            Option::None
        }
    }

    /// Picks a subscriber that can take a delivery: the first idle one.
    pub fn get_next_subscriber_ready_to_deliver(&self) -> (r: Option<SubscriberId>)
        requires
            self.wf(),
        ensures
            match r {
                Option::Some(id) => exists|i: int|
                    0 <= i < self.subscribers@.len() && (#[trigger] self.subscribers@[i]).id == id
                        && self.subscribers@[i].delivery_state is Idle,
                Option::None => forall|i: int|
                    0 <= i < self.subscribers@.len() ==> !((
                    #[trigger] self.subscribers@[i]).delivery_state is Idle),
            },
    {
        let mut i: usize = 0;
        while i < self.subscribers.len()
            invariant
                self.wf(),
                0 <= i <= self.subscribers@.len(),
                forall|k: int|
                    0 <= k < i ==> !((#[trigger] self.subscribers@[k]).delivery_state is Idle),
            decreases self.subscribers@.len() - i,
        {
            if matches!(self.subscribers[i].delivery_state, DeliveryState::Idle) {
                return Option::Some(self.subscribers[i].id);
            }
            i = i + 1;
        }
        Option::None
    }

    /// Removes the subscriber with this id, handing it back with whatever it
    /// held in flight.
    pub fn remove_by_id(&mut self, id: SubscriberId) -> (r: Option<QueueSubscriber>)
        requires
            old(self).wf(),
        ensures
            final(self).wf(),
            match r {
                Option::Some(s) => {
                    &&& s.wf()
                    &&& s.id == id
                    &&& old(self).has_subscriber(id as int)
                    &&& !final(self).has_subscriber(id as int)
                    &&& exists|i: int|
                        0 <= i < old(self).subscribers@.len() && old(self).subscribers@[i] == s
                            && final(self).subscribers@ =~= old(self).subscribers@.remove(i)
                },
                Option::None => {
                    &&& !old(self).has_subscriber(id as int)
                    &&& *final(self) == *old(self)
                },
            },
    {
        match self.find(id) {
            Option::Some(i) => {
                let s = self.subscribers.remove(i);
                proof {
                    assert forall|j: int|
                        0 <= j < self.subscribers@.len() implies (
                    #[trigger] self.subscribers@[j]).id != id by {
                        if j < i {
                            assert(self.subscribers@[j] == old(self).subscribers@[j]);
                        } else {
                            assert(self.subscribers@[j] == old(self).subscribers@[j + 1]);
                        }
                    }
                }
                Option::Some(s)
            },
            Option::None => Option::None,
        }
    }

    /// Attaches a bucket to the subscriber: it is now on delivery.
    pub fn set_on_delivery(&mut self, id: SubscriberId, bucket: MessagesBucket, now: i64) -> (r:
        bool)
        requires
            old(self).wf(),
            bucket.wf(),
            bucket.total_count > 0,
        ensures
            final(self).wf(),
            r == old(self).has_subscriber(id as int),
            r ==> exists|i: int|
                {
                    &&& 0 <= i < old(self).subscribers@.len()
                    &&& old(self).subscribers@[i].id == id
                    &&& final(self).subscribers@ =~= old(self).subscribers@.update(
                        i,
                        crate::subscribers::QueueSubscriber {
                            delivery_state: crate::subscribers::DeliveryState::OnDelivery {
                                since: now,
                            },
                            on_delivery: Option::Some(bucket),
                            ..old(self).subscribers@[i]
                        },
                    )
                },
            !r ==> *final(self) == *old(self),
    {
        match self.find(id) {
            Option::Some(i) => {
                let mut sub = self.subscribers.remove(i);
                sub.delivery_state = DeliveryState::OnDelivery { since: now };
                sub.on_delivery = Option::Some(bucket);
                self.subscribers.insert(i, sub);
                proof {
                    assert(old(self).subscribers@[i as int].id == id);
                    assert(final(self).subscribers@ =~= old(self).subscribers@.update(
                        i as int,
                        (QueueSubscriber {
                            delivery_state: DeliveryState::OnDelivery { since: now },
                            on_delivery: Option::Some(bucket),
                            ..old(self).subscribers@[i as int]
                        }),
                    ));
                }
                true
            },
            Option::None => false,
        }
    }

    /// Detaches the bucket of the subscriber with this id, leaving the
    /// subscriber idle in place.
    pub fn reset_delivery_by_id(&mut self, id: SubscriberId) -> (r: Option<MessagesBucket>)
        requires
            old(self).wf(),
        ensures
            final(self).wf(),
            match r {
                Option::Some(b) => {
                    &&& b.wf()
                    &&& b.total_count > 0
                    &&& exists|i: int|
                        {
                            &&& 0 <= i < old(self).subscribers@.len()
                            &&& old(self).subscribers@[i].id == id
                            &&& old(self).subscribers@[i].on_delivery == Option::Some(b)
                            &&& final(self).subscribers@ =~= old(self).subscribers@.update(
                                i,
                                crate::subscribers::QueueSubscriber {
                                    delivery_state: crate::subscribers::DeliveryState::Idle,
                                    on_delivery: Option::None,
                                    ..old(self).subscribers@[i]
                                },
                            )
                        }
                },
                Option::None => (!old(self).has_subscriber(id as int) || (exists|i: int|
                    0 <= i < old(self).subscribers@.len() && (#[trigger] old(
                        self,
                    ).subscribers@[i]).id == id && old(self).subscribers@[i].on_delivery is None))
                    && *final(self) == *old(self),
            },
    {
        match self.find(id) {
            Option::Some(i) => {
                if matches!(self.subscribers[i].on_delivery, Option::None) {
                    return Option::None;
                }
                let mut sub = self.subscribers.remove(i);
                let b = sub.reset_delivery();
                self.subscribers.insert(i, sub);
                proof {
                    assert(old(self).subscribers@[i as int].id == id);
                    assert(old(self).subscribers@[i as int].on_delivery == b);
                    assert(final(self).subscribers@ =~= old(self).subscribers@.update(
                        i as int,
                        (QueueSubscriber {
                            delivery_state: DeliveryState::Idle,
                            on_delivery: Option::None,
                            ..old(self).subscribers@[i as int]
                        }),
                    ));
                }
                b
            },
            Option::None => Option::None,
        }
    }

    /// Subscriber ids of this session, for disconnect cleanup.
    pub fn find_by_session(&self, session_id: SessionId) -> (r: Vec<SubscriberId>)
        requires
            self.wf(),
        ensures
            forall|k: int|
                0 <= k < r@.len() ==> is_session_subscriber_id(
                    *self,
                    #[trigger] r@[k],
                    session_id as int,
                ),
            forall|i: int|
                0 <= i < self.subscribers@.len() && (#[trigger] self.subscribers@[i]).session_id
                    == session_id ==> r@.contains(self.subscribers@[i].id),
    {
        let mut out: Vec<SubscriberId> = Vec::new();
        let ghost mut wit: Seq<int> = Seq::empty();
        let mut i: usize = 0;
        while i < self.subscribers.len()
            invariant
                self.wf(),
                0 <= i <= self.subscribers@.len(),
                wit.len() == out@.len(),
                forall|k: int|
                    #![trigger wit[k]]
                    0 <= k < out@.len() ==> 0 <= wit[k] < self.subscribers@.len()
                        && self.subscribers@[wit[k]].id == out@[k]
                        && self.subscribers@[wit[k]].session_id == session_id,
                forall|j: int|
                    0 <= j < i && (#[trigger] self.subscribers@[j]).session_id == session_id
                        ==> out@.contains(self.subscribers@[j].id),
            decreases self.subscribers@.len() - i,
        {
            if self.subscribers[i].session_id == session_id {
                let ghost prev = out@;
                out.push(self.subscribers[i].id);
                proof {
                    wit = wit.push(i as int);
                    assert forall|j: int|
                        0 <= j < i + 1 && (#[trigger] self.subscribers@[j]).session_id
                            == session_id implies out@.contains(self.subscribers@[j].id) by {
                        if j < i {
                            let k = choose|k: int| 0 <= k < prev.len() && prev[k] == self.subscribers@[j].id;
                            assert(out@[k] == self.subscribers@[j].id);
                        } else {
                            assert(out@[out@.len() - 1] == self.subscribers@[j].id);
                        }
                    }
                }
            }
            i = i + 1;
        }
        proof {
            assert forall|k: int| 0 <= k < out@.len() implies is_session_subscriber_id(
                *self,
                #[trigger] out@[k],
                session_id as int,
            ) by {
                let j = wit[k];
                assert(self.subscribers@[j].id == out@[k] && self.subscribers@[j].session_id
                    == session_id);
            }
        }
        out
    }

    /// Subscribers whose outstanding delivery is older than the timeout:
    /// their `(session_id, subscriber_id)` pairs, for the kicker.
    pub fn find_subscribers_dead_on_delivery(&self, now: i64, delivery_timeout: i64) -> (r: Vec<
        (SessionId, SubscriberId),
    >)
        requires
            self.wf(),
            0 <= delivery_timeout,
        ensures
            forall|k: int|
                0 <= k < r@.len() ==> is_dead_subscriber_pair(
                    *self,
                    #[trigger] r@[k],
                    now as int,
                    delivery_timeout as int,
                ),
            forall|i: int|
                0 <= i < self.subscribers@.len() ==> match (#[trigger] self.subscribers@[i]).delivery_state {
                    DeliveryState::OnDelivery { since } => since <= now - delivery_timeout
                        ==> exists|k: int| 0 <= k < r@.len() && r@[k].1 == self.subscribers@[i].id,
                    DeliveryState::Idle => true,
                },
    {
        let mut out: Vec<(SessionId, SubscriberId)> = Vec::new();
        let ghost mut wit: Seq<int> = Seq::empty();
        let mut i: usize = 0;
        while i < self.subscribers.len()
            invariant
                self.wf(),
                0 <= i <= self.subscribers@.len(),
                0 <= delivery_timeout,
                wit.len() == out@.len(),
                forall|k: int|
                    #![trigger wit[k]]
                    0 <= k < out@.len() ==> {
                        &&& 0 <= wit[k] < self.subscribers@.len()
                        &&& self.subscribers@[wit[k]].id == out@[k].1
                        &&& self.subscribers@[wit[k]].session_id == out@[k].0
                        &&& match self.subscribers@[wit[k]].delivery_state {
                            DeliveryState::OnDelivery { since } => since <= now - delivery_timeout,
                            DeliveryState::Idle => false,
                        }
                    },
                forall|j: int|
                    0 <= j < i ==> match (#[trigger] self.subscribers@[j]).delivery_state {
                        DeliveryState::OnDelivery { since } => since <= now - delivery_timeout
                            ==> exists|k: int|
                            0 <= k < out@.len() && out@[k].1 == self.subscribers@[j].id,
                        DeliveryState::Idle => true,
                    },
            decreases self.subscribers@.len() - i,
        {
            let dead = match self.subscribers[i].delivery_state {
                DeliveryState::OnDelivery { since } => {
                    (since as i128) + (delivery_timeout as i128) <= (now as i128)
                },
                DeliveryState::Idle => false,
            };
            let ghost prev = out@;
            if dead {
                out.push((self.subscribers[i].session_id, self.subscribers[i].id));
                proof {
                    wit = wit.push(i as int);
                }
            }
            proof {
                assert forall|j: int|
                    0 <= j < i + 1 implies match (#[trigger] self.subscribers@[j]).delivery_state {
                    DeliveryState::OnDelivery { since } => since <= now - delivery_timeout
                        ==> exists|k: int| 0 <= k < out@.len() && out@[k].1 == self.subscribers@[j].id,
                    DeliveryState::Idle => true,
                } by {
                    if j < i {
                        match self.subscribers@[j].delivery_state {
                            DeliveryState::OnDelivery { since } => {
                                if since <= now - delivery_timeout {
                                    let k = choose|k: int|
                                        0 <= k < prev.len() && prev[k].1 == self.subscribers@[j].id;
                                    assert(out@[k].1 == self.subscribers@[j].id);
                                }
                            },
                            DeliveryState::Idle => {},
                        }
                    } else {
                        if dead {
                            assert(out@[out@.len() - 1].1 == self.subscribers@[j].id);
                        }
                    }
                }
            }
            i = i + 1;
        }
        proof {
            assert forall|k: int| 0 <= k < out@.len() implies is_dead_subscriber_pair(
                *self,
                #[trigger] out@[k],
                now as int,
                delivery_timeout as int,
            ) by {
                let j = wit[k];
                assert(self.subscribers@[j].id == out@[k].1 && self.subscribers@[j].session_id
                    == out@[k].0);
            }
        }
        out
    }
}

} // verus!
