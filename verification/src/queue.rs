//! One queue of a topic: the ready set of undelivered ids, the in-flight
//! buckets held by its subscribers, and per-id delivery-attempt counts. The
//! central invariant is no duplication: an id the queue owes sits in `ready`
//! or in exactly one in-flight bucket, never in two places at once.
use vstd::prelude::*;

use crate::bucket::MessagesBucket;
use crate::ids::{valid_message_id, MessageId};
use crate::intervals::{ranges_wf, IdRange, IntervalSet};
use crate::subscribers::{QueueSubscriber, SessionId, SubscriberId, SubscriberSet};

verus! {

/// The queue disciplines the server supports.
#[derive(Clone, Copy, PartialEq, Eq, Structural, Debug)]
pub enum QueueKind {
    Permanent,
    PermanentSingleSubscriber,
    DeleteOnDisconnect,
}

/// How many delivery attempts an id has behind it. Ids that were never
/// handed back count zero and are not stored.
pub struct AttemptMap {
    pub entries: Vec<(MessageId, u32)>,
}

impl AttemptMap {
    pub open spec fn wf(self) -> bool {
        forall|i: int, j: int|
            0 <= i < j < self.entries@.len() ==> (#[trigger] self.entries@[i]).0 != (
            #[trigger] self.entries@[j]).0
    }

    pub open spec fn has_key(self, id: int) -> bool {
        exists|i: int| 0 <= i < self.entries@.len() && (#[trigger] self.entries@[i]).0 == id
    }

    /// The attempt count recorded for an id; zero when none is.
    pub open spec fn spec_get(self, id: int) -> int {
        if self.has_key(id) {
            self.entries@[choose|i: int|
                0 <= i < self.entries@.len() && (#[trigger] self.entries@[i]).0 == id].1 as int
        } else {
            0
        }
    }

    /// With distinct keys, any index holding `id` holds its value.
    pub proof fn lemma_at(self, i: int)
        requires
            self.wf(),
            0 <= i < self.entries@.len(),
        ensures
            self.has_key(self.entries@[i].0 as int),
            self.spec_get(self.entries@[i].0 as int) == self.entries@[i].1 as int,
    {
        let id = self.entries@[i].0 as int;
        assert(self.has_key(id));
        let j = choose|j: int| 0 <= j < self.entries@.len() && (#[trigger] self.entries@[j]).0 == id;
        if i != j {
            assert(self.entries@[if i < j {
                i
            } else {
                j
            }].0 != self.entries@[if i < j {
                j
            } else {
                i
            }].0);
        }
    }

    pub fn new() -> (r: Self)
        ensures
            r.wf(),
            forall|id: int| r.spec_get(id) == 0,
            forall|id: int| !r.has_key(id),
    {
        AttemptMap { entries: Vec::new() }
    }

    fn find(&self, id: MessageId) -> (r: Option<usize>)
        requires
            self.wf(),
        ensures
            match r {
                Option::Some(i) => i < self.entries@.len() && self.entries@[i as int].0 == id,
                Option::None => !self.has_key(id as int),
            },
    {
        let mut i: usize = 0;
        while i < self.entries.len()
            invariant
                self.wf(),
                0 <= i <= self.entries@.len(),
                forall|k: int| 0 <= k < i ==> (#[trigger] self.entries@[k]).0 != id,
            decreases self.entries@.len() - i,
        {
            if self.entries[i].0 == id {
                return Option::Some(i);
            }
            i = i + 1;
        }
        Option::None
    }

    pub fn get(&self, id: MessageId) -> (r: u32)
        requires
            self.wf(),
        ensures
            r as int == self.spec_get(id as int),
    {
        match self.find(id) {
            Option::Some(i) => {
                proof {
                    self.lemma_at(i as int);
                }
                self.entries[i].1
            },
            Option::None => 0,
        }
    }

    pub fn set(&mut self, id: MessageId, value: u32)
        requires
            old(self).wf(),
        ensures
            final(self).wf(),
            forall|x: int|
                final(self).spec_get(x) == (if x == id {
                    value as int
                } else {
                    old(self).spec_get(x)
                }),
    {
        let ghost old_self = *old(self);
        match self.find(id) {
            Option::Some(i) => {
                self.entries[i] = (id, value);
                proof {
                    assert forall|x: int|
                        final(self).spec_get(x) == (if x == id {
                            value as int
                        } else {
                            old_self.spec_get(x)
                        }) by {
                        if x == id {
                            self.lemma_at(i as int);
                        } else {
                            if old_self.has_key(x) {
                                let k = choose|k: int|
                                    0 <= k < old_self.entries@.len() && (
                                    #[trigger] old_self.entries@[k]).0 == x;
                                assert(self.entries@[k].0 == x);
                                self.lemma_at(k);
                                old_self.lemma_at(k);
                            }
                            if self.has_key(x) {
                                let k = choose|k: int|
                                    0 <= k < self.entries@.len() && (
                                    #[trigger] self.entries@[k]).0 == x;
                                assert(old_self.entries@[k].0 == x);
                                self.lemma_at(k);
                                old_self.lemma_at(k);
                            }
                        }
                    }
                }
            },
            Option::None => {
                self.entries.push((id, value));
                proof {
                    let n = self.entries@.len() - 1;
                    assert forall|x: int|
                        final(self).spec_get(x) == (if x == id {
                            value as int
                        } else {
                            old_self.spec_get(x)
                        }) by {
                        if x == id {
                            self.lemma_at(n);
                        } else {
                            if old_self.has_key(x) {
                                let k = choose|k: int|
                                    0 <= k < old_self.entries@.len() && (
                                    #[trigger] old_self.entries@[k]).0 == x;
                                assert(self.entries@[k].0 == x);
                                self.lemma_at(k);
                                old_self.lemma_at(k);
                            }
                            if self.has_key(x) {
                                let k = choose|k: int|
                                    0 <= k < self.entries@.len() && (
                                    #[trigger] self.entries@[k]).0 == x;
                                assert(k < n);
                                assert(old_self.entries@[k].0 == x);
                                self.lemma_at(k);
                                old_self.lemma_at(k);
                            }
                        }
                    }
                }
            },
        }
    }

    pub fn remove(&mut self, id: MessageId)
        requires
            old(self).wf(),
        ensures
            final(self).wf(),
            forall|x: int|
                final(self).spec_get(x) == (if x == id {
                    0
                } else {
                    old(self).spec_get(x)
                }),
    {
        let ghost old_self = *old(self);
        match self.find(id) {
            Option::Some(i) => {
                self.entries.remove(i);
                proof {
                    assert forall|a: int, b: int|
                        0 <= a < b < self.entries@.len() implies (#[trigger] self.entries@[a]).0
                        != (#[trigger] self.entries@[b]).0 by {
                        let a0: int = if a < i { a } else { a + 1 };
                        let b0: int = if b < i { b } else { b + 1 };
                        assert(self.entries@[a] == old_self.entries@[a0]);
                        assert(self.entries@[b] == old_self.entries@[b0]);
                    }
                    assert forall|x: int|
                        final(self).spec_get(x) == (if x == id {
                            0
                        } else {
                            old_self.spec_get(x)
                        }) by {
                        if self.has_key(x) {
                            let k = choose|k: int|
                                0 <= k < self.entries@.len() && (#[trigger] self.entries@[k]).0
                                    == x;
                            let k0: int = if k < i {
                                k
                            } else {
                                k + 1
                            };
                            assert(old_self.entries@[k0].0 == x);
                            self.lemma_at(k);
                            old_self.lemma_at(k0);
                            if x == id {
                                old_self.lemma_at(i as int);
                                assert(k0 != i);
                            }
                        } else {
                            if x != id && old_self.has_key(x) {
                                let k0 = choose|k0: int|
                                    0 <= k0 < old_self.entries@.len() && (
                                    #[trigger] old_self.entries@[k0]).0 == x;
                                assert(k0 != i);
                                let k: int = if k0 < i {
                                    k0
                                } else {
                                    k0 - 1
                                };
                                assert(self.entries@[k].0 == x);
                            }
                        }
                    }
                }
            },
            Option::None => {
                proof {
                    assert forall|x: int|
                        final(self).spec_get(x) == (if x == id {
                            0
                        } else {
                            old_self.spec_get(x)
                        }) by {
                        if x == id && old_self.has_key(x) {
                            let k = choose|k: int|
                                0 <= k < old_self.entries@.len() && (
                                #[trigger] old_self.entries@[k]).0 == x;
                        }
                    }
                }
            },
        }
    }
}

/// Whether `id` falls in one of the inclusive ranges.
pub open spec fn in_ranges(ranges: Seq<IdRange>, id: int) -> bool {
    exists|k: int|
        0 <= k < ranges.len() && (#[trigger] ranges[k]).from_id <= id <= ranges[k].to_id
}

/// Linear membership test against a list of inclusive ranges.
pub fn id_in_ranges(ranges: &Vec<IdRange>, id: MessageId) -> (r: bool)
    ensures
        r == in_ranges(ranges@, id as int),
{
    let mut i: usize = 0;
    while i < ranges.len()
        invariant
            0 <= i <= ranges@.len(),
            forall|k: int| 0 <= k < i ==> !((#[trigger] ranges@[k]).from_id <= id <= ranges@[k].to_id),
        decreases ranges@.len() - i,
    {
        if ranges[i].from_id <= id && id <= ranges[i].to_id {
            proof {
                assert(in_ranges(ranges@, id as int));
            }
            return true;
        }
        i = i + 1;
    }
    false
}

/// One queue of one topic.
pub struct TopicQueue {
    pub topic_id: String,
    pub queue_id: String,
    pub kind: QueueKind,
    pub ready: IntervalSet,
    pub subscribers: SubscriberSet,
    pub attempts: AttemptMap,
    pub snapshot_version: u64,
}

impl TopicQueue {
    /// Whether the queue still owes `id` to its subscribers: undispatched or
    /// out with one of them.
    pub open spec fn owes(self, id: int) -> bool {
        self.ready.covers(id) || self.subscribers.in_flight(id)
    }

    pub open spec fn wf(self) -> bool {
        &&& self.ready.wf()
        &&& self.subscribers.wf()
        &&& self.attempts.wf()
        &&& forall|id: int| #[trigger] self.ready.covers(id) ==> !self.subscribers.in_flight(id)
        &&& forall|i: int, j: int, x: int|
            0 <= i < j < self.subscribers.subscribers@.len() ==> !((
            #[trigger] self.subscribers.subscribers@[i].holds(x)) && (
            #[trigger] self.subscribers.subscribers@[j].holds(x)))
    }

    /// No duplication: an id is never counted twice, neither between the
    /// ready set and an in-flight bucket, nor between two buckets.
    pub proof fn lemma_no_duplication(self, id: int)
        requires
            self.wf(),
        ensures
            !(self.ready.covers(id) && self.subscribers.in_flight(id)),
            forall|i: int, j: int|
                0 <= i < j < self.subscribers.subscribers@.len() ==> !((
                #[trigger] self.subscribers.subscribers@[i].holds(id)) && (
                #[trigger] self.subscribers.subscribers@[j].holds(id))),
    {
    }

    pub fn new(topic_id: String, queue_id: String, kind: QueueKind) -> (r: TopicQueue)
        ensures
            r.wf(),
            r.topic_id == topic_id,
            r.queue_id == queue_id,
            r.kind == kind,
            forall|id: int| !r.owes(id),
            forall|id: int| r.attempts.spec_get(id) == 0,
            r.subscribers.subscribers@.len() == 0,
    {
        TopicQueue {
            topic_id,
            queue_id,
            kind,
            ready: IntervalSet::new(),
            subscribers: SubscriberSet::new(),
            attempts: AttemptMap::new(),
            snapshot_version: 0,
        }
    }

    /// Rebuilds a queue from a persisted snapshot; `None` when the ranges
    /// are not in snapshot form.
    pub fn restore(topic_id: String, queue_id: String, kind: QueueKind, ranges: Vec<IdRange>) -> (r:
        Option<TopicQueue>)
        ensures
            match r {
                Option::Some(q) => {
                    &&& q.wf()
                    &&& q.topic_id == topic_id
                    &&& q.queue_id == queue_id
                    &&& q.kind == kind
                    &&& q.ready.ranges() =~= ranges@
                    &&& q.subscribers.subscribers@.len() == 0
                    &&& forall|id: int| q.attempts.spec_get(id) == 0
                },
                Option::None => !ranges_wf(ranges@),
            },
    {
        match IntervalSet::restore(ranges) {
            Option::Some(ready) => Option::Some(
                TopicQueue {
                    topic_id,
                    queue_id,
                    kind,
                    ready,
                    subscribers: SubscriberSet::new(),
                    attempts: AttemptMap::new(),
                    snapshot_version: 0,
                },
            ),
            Option::None => Option::None,
        }
    }

    /// A change of discipline bumps the snapshot version.
    pub fn update_queue_type(&mut self, kind: QueueKind)
        requires
            old(self).wf(),
        ensures
            final(self).wf(),
            final(self).kind == kind,
            final(self).ready == old(self).ready,
            final(self).subscribers == old(self).subscribers,
            final(self).attempts == old(self).attempts,
            final(self).topic_id == old(self).topic_id,
            final(self).queue_id == old(self).queue_id,
    {
        if !(self.kind == kind) {
            self.kind = kind;
            self.bump_version();
        }
    }

    fn bump_version(&mut self)
        ensures
            *final(self) == (TopicQueue {
                snapshot_version: final(self).snapshot_version,
                ..*old(self)
            }),
            final(self).snapshot_version >= old(self).snapshot_version,
    {
        if self.snapshot_version < u64::MAX {
            self.snapshot_version = self.snapshot_version + 1;
        }
    }

    /// Makes a freshly published range of ids available for delivery. The
    /// range must lie above everything the queue has ever owed.
    pub fn enqueue_range(&mut self, from_id: MessageId, to_id: MessageId)
        requires
            old(self).wf(),
            valid_message_id(from_id as int),
            valid_message_id(to_id as int),
            from_id <= to_id,
            forall|id: int| old(self).owes(id) ==> id < from_id,
        ensures
            final(self).wf(),
            forall|id: int|
                final(self).ready.covers(id) <==> (old(self).ready.covers(id) || from_id <= id
                    <= to_id),
            final(self).subscribers == old(self).subscribers,
            final(self).attempts == old(self).attempts,
            final(self).kind == old(self).kind,
            final(self).topic_id == old(self).topic_id,
            final(self).queue_id == old(self).queue_id,
    {
        proof {
            assert forall|id: int| old(self).ready.covers(id) implies id < from_id by {
                assert(old(self).owes(id));
            }
        }
        self.ready.push_back_range(from_id, to_id);
        self.bump_version();
        proof {
            assert forall|id: int| #[trigger] self.ready.covers(id) implies !self.subscribers.in_flight(
                id,
            ) by {
                assert(self.ready.to_set().contains(id));
                if from_id <= id <= to_id {
                    if self.subscribers.in_flight(id) {
                        assert(old(self).owes(id));
                    }
                } else {
                    assert(old(self).ready.covers(id));
                }
            }
            assert forall|id: int|
                final(self).ready.covers(id) <==> (old(self).ready.covers(id) || from_id <= id
                    <= to_id) by {
                assert(self.ready.to_set().contains(id) == self.ready.covers(id));
            }
        }
    }

    /// The next id to hand out, with its attempt count.
    pub fn peek_next_message(&self) -> (r: Option<(MessageId, u32)>)
        requires
            self.wf(),
        ensures
            match r {
                Option::None => forall|id: int| !self.ready.covers(id),
                Option::Some(m) => {
                    &&& self.ready.covers(m.0 as int)
                    &&& forall|id: int| self.ready.covers(id) ==> m.0 <= id
                    &&& m.1 as int == self.attempts.spec_get(m.0 as int)
                },
            },
    {
        match self.ready.peek() {
            Option::Some(id) => {
                let attempt = self.attempts.get(id);
                proof {
                    self.ready.lemma_empty_iff_covers_nothing();
                }
                Option::Some((id, attempt))
            },
            Option::None => {
                proof {
                    self.ready.lemma_empty_iff_covers_nothing();
                }
                Option::None
            },
        }
    }

    /// Whether the subscriber exists and has a bucket out.
    pub open spec fn subscriber_has_bucket(self, subscriber_id: int) -> bool {
        exists|i: int|
            0 <= i < self.subscribers.subscribers@.len() && (
            #[trigger] self.subscribers.subscribers@[i]).id == subscriber_id
                && self.subscribers.subscribers@[i].on_delivery is Some
    }

    /// An id held in flight by the subscriber with this id.
    pub open spec fn held_by(self, subscriber_id: int, x: int) -> bool {
        exists|i: int|
            0 <= i < self.subscribers.subscribers@.len() && (
            #[trigger] self.subscribers.subscribers@[i]).id == subscriber_id
                && self.subscribers.subscribers@[i].holds(x)
    }

    /// The attempt count the subscriber's bucket records for `x`.
    pub open spec fn held_attempt(self, subscriber_id: int, x: int) -> int {
        let i = choose|i: int|
            0 <= i < self.subscribers.subscribers@.len() && (
            #[trigger] self.subscribers.subscribers@[i]).id == subscriber_id
                && self.subscribers.subscribers@[i].holds(x);
        match self.subscribers.subscribers@[i].on_delivery {
            Option::Some(b) => b.attempt_of(x),
            Option::None => 0,
        }
    }

    /// Puts a detached bucket's ids back where they belong: those inside
    /// `ranges` return to `ready` with their attempt count bumped; the rest
    /// are settled for good and their attempt record is dropped.
    fn requeue_selected(&mut self, bucket: &MessagesBucket, ranges: &Vec<IdRange>)
        requires
            old(self).wf(),
            bucket.wf(),
            forall|x: int| bucket.spec_contains(x) ==> !old(self).owes(x),
        ensures
            final(self).wf(),
            forall|x: int|
                #![trigger final(self).ready.covers(x)]
                #![trigger old(self).ready.covers(x)]
                #![trigger bucket.spec_contains(x)]
                final(self).ready.covers(x) <==> (old(self).ready.covers(x) || (
                bucket.spec_contains(x) && in_ranges(ranges@, x))),
            final(self).subscribers == old(self).subscribers,
            final(self).kind == old(self).kind,
            final(self).topic_id == old(self).topic_id,
            final(self).queue_id == old(self).queue_id,
            forall|x: int|
                #![trigger final(self).attempts.spec_get(x)]
                #![trigger bucket.spec_contains(x)]
                !bucket.spec_contains(x) ==> final(self).attempts.spec_get(x) == old(self).attempts.spec_get(x),
            forall|x: int|
                #![trigger final(self).attempts.spec_get(x)]
                #![trigger bucket.spec_contains(x)]
                bucket.spec_contains(x) && in_ranges(ranges@, x) ==> final(self).attempts.spec_get(
                    x,
                ) == (if bucket.attempt_of(x) >= u32::MAX {
                    u32::MAX as int
                } else {
                    bucket.attempt_of(x) + 1
                }),
            forall|x: int|
                #![trigger final(self).attempts.spec_get(x)]
                #![trigger bucket.spec_contains(x)]
                bucket.spec_contains(x) && !in_ranges(ranges@, x) ==> final(self).attempts.spec_get(x) == 0,
    {
        let ghost old_q = *old(self);
        let mut pa: usize = 0;
        while pa < bucket.pages.len()
            invariant
                bucket.wf(),
                forall|x: int| bucket.spec_contains(x) ==> !old_q.owes(x),
                old_q.wf(),
                self.wf(),
                0 <= pa <= bucket.pages@.len(),
                self.subscribers == old_q.subscribers,
                self.kind == old_q.kind,
                self.topic_id == old_q.topic_id,
                self.queue_id == old_q.queue_id,
                self.snapshot_version == old_q.snapshot_version,
                forall|x: int|
                    self.ready.covers(x) <==> (old_q.ready.covers(x) || (bucket_prefix_contains(
                        *bucket,
                        pa as int,
                        0,
                        x,
                    ) && in_ranges(ranges@, x))),
                forall|x: int|
                    !bucket_prefix_contains(*bucket, pa as int, 0, x) ==> self.attempts.spec_get(x)
                        == old_q.attempts.spec_get(x),
                forall|a: int, b: int|
                    #![trigger bucket.pages@[a].messages@[b]]
                    0 <= a < pa && 0 <= b < bucket.pages@[a].messages@.len() ==> {
                        let m = bucket.pages@[a].messages@[b];
                        if in_ranges(ranges@, m.message_id as int) {
                            self.attempts.spec_get(m.message_id as int) == (if m.attempt_no
                                >= u32::MAX {
                                u32::MAX as int
                            } else {
                                m.attempt_no + 1
                            })
                        } else {
                            self.attempts.spec_get(m.message_id as int) == 0
                        }
                    },
            decreases bucket.pages@.len() - pa,
        {
            let mut pb: usize = 0;
            while pb < bucket.pages[pa].messages.len()
                invariant
                    bucket.wf(),
                    forall|x: int| bucket.spec_contains(x) ==> !old_q.owes(x),
                    old_q.wf(),
                    self.wf(),
                    0 <= pa < bucket.pages@.len(),
                    0 <= pb <= bucket.pages@[pa as int].messages@.len(),
                    self.subscribers == old_q.subscribers,
                    self.kind == old_q.kind,
                    self.topic_id == old_q.topic_id,
                    self.queue_id == old_q.queue_id,
                    self.snapshot_version == old_q.snapshot_version,
                    forall|x: int|
                        self.ready.covers(x) <==> (old_q.ready.covers(x) || (
                        bucket_prefix_contains(*bucket, pa as int, pb as int, x) && in_ranges(
                            ranges@,
                            x,
                        ))),
                    forall|x: int|
                        !bucket_prefix_contains(*bucket, pa as int, pb as int, x)
                            ==> self.attempts.spec_get(x) == old_q.attempts.spec_get(x),
                    forall|a: int, b: int|
                        #![trigger bucket.pages@[a].messages@[b]]
                        0 <= a < bucket.pages@.len() && 0 <= b < bucket.pages@[a].messages@.len()
                            && (a < pa || (a == pa && b < pb)) ==> {
                            let m = bucket.pages@[a].messages@[b];
                            if in_ranges(ranges@, m.message_id as int) {
                                self.attempts.spec_get(m.message_id as int) == (if m.attempt_no
                                    >= u32::MAX {
                                    u32::MAX as int
                                } else {
                                    m.attempt_no + 1
                                })
                            } else {
                                self.attempts.spec_get(m.message_id as int) == 0
                            }
                        },
                decreases bucket.pages@[pa as int].messages@.len() - pb,
            {
                let m = bucket.pages[pa].messages[pb];
                let ghost pre = *self;
                proof {
                    bucket.lemma_attempt_at(pa as int, pb as int);
                    assert(bucket.spec_contains(m.message_id as int));
                }
                let matched = id_in_ranges(ranges, m.message_id);
                if matched {
                    proof {
                        assert(!old_q.owes(m.message_id as int));
                        assert(!pre.ready.covers(m.message_id as int)) by {
                            if pre.ready.covers(m.message_id as int) {
                                assert(in_ranges(ranges@, m.message_id as int));
                            }
                        }
                    }
                    self.ready.enqueue(m.message_id);
                    let bumped: u32 = if m.attempt_no >= u32::MAX - 1 {
                        u32::MAX
                    } else {
                        m.attempt_no + 1
                    };
                    self.attempts.set(m.message_id, bumped);
                } else {
                    self.attempts.remove(m.message_id);
                }
                proof {
                    assert forall|x: int|
                        bucket_prefix_contains(*bucket, pa as int, pb + 1, x) <==> (
                        bucket_prefix_contains(*bucket, pa as int, pb as int, x) || x
                            == m.message_id) by {
                        if bucket_prefix_contains(*bucket, pa as int, pb + 1, x) {
                            let (a, b) = choose|a: int, b: int|
                                0 <= a < bucket.pages@.len() && 0 <= b < (
                                #[trigger] bucket.pages@[a]).messages@.len() && (a < pa || (a == pa
                                    && b < pb + 1)) && (
                                #[trigger] bucket.pages@[a].messages@[b]).message_id == x;
                            if !(a < pa || (a == pa && b < pb)) {
                                assert(a == pa && b == pb);
                            }
                        }
                        if x == m.message_id {
                            assert(bucket.pages@[pa as int].messages@[pb as int].message_id == x);
                            assert(bucket_prefix_contains(*bucket, pa as int, pb + 1, x));
                        }
                        if bucket_prefix_contains(*bucket, pa as int, pb as int, x) {
                            let (a, b) = choose|a: int, b: int|
                                0 <= a < bucket.pages@.len() && 0 <= b < (
                                #[trigger] bucket.pages@[a]).messages@.len() && (a < pa || (a == pa
                                    && b < pb)) && (
                                #[trigger] bucket.pages@[a].messages@[b]).message_id == x;
                            assert(bucket_prefix_contains(*bucket, pa as int, pb + 1, x));
                        }
                    }
                    assert forall|a: int, b: int|
                        0 <= a < bucket.pages@.len() && 0 <= b < (
                        #[trigger] bucket.pages@[a]).messages@.len() && (a < pa || (a == pa && b
                            < pb)) implies (#[trigger] bucket.pages@[a].messages@[b]).message_id
                        != m.message_id by {
                        if bucket.pages@[a].messages@[b].message_id == m.message_id {
                            bucket.lemma_unique_message(a, b, pa as int, pb as int);
                        }
                    }
                    assert forall|x: int| #[trigger] self.ready.covers(x) implies !self.subscribers.in_flight(
                        x,
                    ) by {
                        if bucket.spec_contains(x) {
                            assert(!old_q.owes(x));
                            assert(self.subscribers == old_q.subscribers);
                        } else {
                            assert(pre.ready.covers(x));
                        }
                    }
                }
                pb = pb + 1;
            }
            proof {
                assert forall|x: int|
                    bucket_prefix_contains(*bucket, pa + 1, 0, x) <==> bucket_prefix_contains(
                        *bucket,
                        pa as int,
                        bucket.pages@[pa as int].messages@.len() as int,
                        x,
                    ) by {}
            }
            pa = pa + 1;
        }
        proof {
            assert forall|x: int|
                bucket_prefix_contains(*bucket, bucket.pages@.len() as int, 0, x)
                    <==> bucket.spec_contains(x) by {}
            assert forall|x: int|
                bucket.spec_contains(x) && in_ranges(ranges@, x) implies final(self).attempts.spec_get(x) == (if bucket.attempt_of(x) >= u32::MAX {
                u32::MAX as int
            } else {
                bucket.attempt_of(x) + 1
            }) by {
                let (a, b) = choose|a: int, b: int|
                    0 <= a < bucket.pages@.len() && 0 <= b < (
                    #[trigger] bucket.pages@[a]).messages@.len() && (
                    #[trigger] bucket.pages@[a].messages@[b]).message_id == x;
                bucket.lemma_attempt_at(a, b);
            }
            assert forall|x: int|
                bucket.spec_contains(x) && !in_ranges(ranges@, x) implies final(self).attempts.spec_get(x) == 0 by {
                let (a, b) = choose|a: int, b: int|
                    0 <= a < bucket.pages@.len() && 0 <= b < (
                    #[trigger] bucket.pages@[a]).messages@.len() && (
                    #[trigger] bucket.pages@[a].messages@[b]).message_id == x;
            }
        }
    }

    /// Returns a whole detached bucket to the ready set, attempts bumped:
    /// the path for subscribers lost before they confirmed anything.
    pub fn mark_not_delivered(&mut self, bucket: &MessagesBucket)
        requires
            old(self).wf(),
            bucket.wf(),
            forall|x: int| bucket.spec_contains(x) ==> !old(self).owes(x),
        ensures
            final(self).wf(),
            forall|x: int| old(self).ready.covers(x) ==> final(self).ready.covers(x),
            forall|x: int| bucket.spec_contains(x) ==> final(self).ready.covers(x),
            forall|x: int|
                final(self).ready.covers(x) ==> (old(self).ready.covers(x)
                    || bucket.spec_contains(x)),
            final(self).subscribers == old(self).subscribers,
            final(self).kind == old(self).kind,
            final(self).topic_id == old(self).topic_id,
            final(self).queue_id == old(self).queue_id,
            forall|x: int|
                !bucket.spec_contains(x) ==> final(self).attempts.spec_get(x) == old(self).attempts.spec_get(x),
            forall|x: int|
                bucket.spec_contains(x) ==> final(self).attempts.spec_get(x) == (if bucket.attempt_of(
                    x,
                ) >= u32::MAX {
                    u32::MAX as int
                } else {
                    bucket.attempt_of(x) + 1
                }),
    {
        let mut all: Vec<IdRange> = Vec::new();
        all.push(IdRange { from_id: 0, to_id: i64::MAX - 1 });
        proof {
            assert forall|x: int| bucket.spec_contains(x) implies in_ranges(all@, x) by {
                let (a, b) = choose|a: int, b: int|
                    0 <= a < bucket.pages@.len() && 0 <= b < (
                    #[trigger] bucket.pages@[a]).messages@.len() && (
                    #[trigger] bucket.pages@[a].messages@[b]).message_id == x;
                assert(valid_message_id(x));
                assert(all@[0].from_id <= x <= all@[0].to_id);
            }
        }
        let ghost mid = *self;
        self.requeue_selected(bucket, &all);
        self.bump_version();
        proof {
            assert forall|x: int|
                self.ready.covers(x) <==> (old(self).ready.covers(x) || bucket.spec_contains(
                    x,
                )) by {
                if bucket.spec_contains(x) {
                    assert(in_ranges(all@, x));
                }
                assert(mid.ready.covers(x) == old(self).ready.covers(x));
            }
            assert forall|x: int|
                bucket.spec_contains(x) implies self.attempts.spec_get(x) == (
                if bucket.attempt_of(x) >= u32::MAX {
                    u32::MAX as int
                } else {
                    bucket.attempt_of(x) + 1
                }) by {
                assert(in_ranges(all@, x));
            }
        }
    }

    /// Applies a delivery confirmation from the subscriber: ids inside
    /// `not_delivered` go back to `ready` for redelivery with their attempt
    /// count bumped; the rest are settled for good. Returns whether the
    /// subscriber existed and had a bucket out.
    pub fn confirmed(&mut self, subscriber_id: SubscriberId, not_delivered: &Vec<IdRange>) -> (r:
        bool)
        requires
            old(self).wf(),
        ensures
            final(self).wf(),
            r == old(self).subscriber_has_bucket(subscriber_id as int),
            final(self).kind == old(self).kind,
            final(self).topic_id == old(self).topic_id,
            final(self).queue_id == old(self).queue_id,
            !r ==> *final(self) == *old(self),
            r ==> {
                &&& forall|x: int|
                    final(self).ready.covers(x) <==> (old(self).ready.covers(x) || (old(self).held_by(subscriber_id as int, x) && in_ranges(not_delivered@, x)))
                &&& forall|x: int|
                    old(self).held_by(subscriber_id as int, x) && !in_ranges(not_delivered@, x)
                        ==> !final(self).owes(x) && final(self).attempts.spec_get(x) == 0
                &&& forall|x: int|
                    old(self).held_by(subscriber_id as int, x) && in_ranges(not_delivered@, x)
                        ==> final(self).attempts.spec_get(x) == (if old(self).held_attempt(
                        subscriber_id as int,
                        x,
                    ) >= u32::MAX {
                        u32::MAX as int
                    } else {
                        old(self).held_attempt(subscriber_id as int, x) + 1
                    })
                &&& forall|x: int|
                    !old(self).held_by(subscriber_id as int, x) ==> final(self).attempts.spec_get(
                        x,
                    ) == old(self).attempts.spec_get(x)
                &&& forall|x: int|
                    final(self).subscribers.in_flight(x) <==> (old(self).subscribers.in_flight(x)
                        && !old(self).held_by(subscriber_id as int, x))
            },
    {
        let ghost old_q = *old(self);
        match self.subscribers.reset_delivery_by_id(subscriber_id) {
            Option::Some(b) => {
                proof {
                    let i = choose|i: int|
                        {
                            &&& 0 <= i < old_q.subscribers.subscribers@.len()
                            &&& old_q.subscribers.subscribers@[i].id == subscriber_id
                            &&& old_q.subscribers.subscribers@[i].on_delivery == Option::Some(b)
                            &&& self.subscribers.subscribers@ =~= old_q.subscribers.subscribers@.update(
                                i,
                                (crate::subscribers::QueueSubscriber {
                                    delivery_state: crate::subscribers::DeliveryState::Idle,
                                    on_delivery: Option::None,
                                    ..old_q.subscribers.subscribers@[i]
                                }),
                            )
                        };
                    assert forall|x: int| b.spec_contains(x) implies !self.owes(x) by {
                        assert(old_q.subscribers.subscribers@[i].holds(x));
                        assert(old_q.subscribers.in_flight(x));
                        if self.ready.covers(x) {
                            assert(old_q.ready.covers(x));
                        }
                        if self.subscribers.in_flight(x) {
                            let j = choose|j: int|
                                0 <= j < self.subscribers.subscribers@.len() && (
                                #[trigger] self.subscribers.subscribers@[j]).holds(x);
                            assert(j != i);
                            assert(old_q.subscribers.subscribers@[j].holds(x));
                            if j < i {
                                assert(!(old_q.subscribers.subscribers@[j].holds(x)
                                    && old_q.subscribers.subscribers@[i].holds(x)));
                            } else {
                                assert(!(old_q.subscribers.subscribers@[i].holds(x)
                                    && old_q.subscribers.subscribers@[j].holds(x)));
                            }
                        }
                    }
                    assert(self.wf()) by {
                        assert forall|id: int| #[trigger] self.ready.covers(id) implies !self.subscribers.in_flight(
                            id,
                        ) by {
                            if self.subscribers.in_flight(id) {
                                let j = choose|j: int|
                                    0 <= j < self.subscribers.subscribers@.len() && (
                                    #[trigger] self.subscribers.subscribers@[j]).holds(id);
                                assert(old_q.subscribers.subscribers@[j].holds(id));
                                assert(old_q.subscribers.in_flight(id));
                            }
                        }
                        assert forall|i2: int, j2: int, x: int|
                            0 <= i2 < j2 < self.subscribers.subscribers@.len() implies !((
                        #[trigger] self.subscribers.subscribers@[i2].holds(x)) && (
                        #[trigger] self.subscribers.subscribers@[j2].holds(x))) by {
                            if self.subscribers.subscribers@[i2].holds(x)
                                && self.subscribers.subscribers@[j2].holds(x) {
                                assert(old_q.subscribers.subscribers@[i2].holds(x));
                                assert(old_q.subscribers.subscribers@[j2].holds(x));
                            }
                        }
                    }
                    assert forall|x: int|
                        old_q.held_by(subscriber_id as int, x) implies b.spec_contains(x) by {
                        let i2 = choose|i2: int|
                            0 <= i2 < old_q.subscribers.subscribers@.len() && (
                            #[trigger] old_q.subscribers.subscribers@[i2]).id == subscriber_id
                                && old_q.subscribers.subscribers@[i2].holds(x);
                        if i2 != i {
                            assert(old_q.subscribers.subscribers@[i2].id
                                == old_q.subscribers.subscribers@[i].id);
                        }
                    }
                    assert forall|x: int|
                        b.spec_contains(x) implies old_q.held_by(subscriber_id as int, x)
                            && old_q.held_attempt(subscriber_id as int, x) == b.attempt_of(x) by {
                        assert(old_q.subscribers.subscribers@[i].holds(x));
                        assert(old_q.held_by(subscriber_id as int, x));
                        let i2 = choose|i2: int|
                            0 <= i2 < old_q.subscribers.subscribers@.len() && (
                            #[trigger] old_q.subscribers.subscribers@[i2]).id == subscriber_id
                                && old_q.subscribers.subscribers@[i2].holds(x);
                        if i2 != i {
                            assert(old_q.subscribers.subscribers@[i2].id
                                == old_q.subscribers.subscribers@[i].id);
                        }
                    }
                }
                let ghost mid_q = *self;
                self.requeue_selected(&b, not_delivered);
                self.bump_version();
                proof {
                    assert forall|x: int|
                        final(self).subscribers.in_flight(x) <==> (old_q.subscribers.in_flight(x)
                            && !old_q.held_by(subscriber_id as int, x)) by {
                        let i = choose|i: int|
                            {
                                &&& 0 <= i < old_q.subscribers.subscribers@.len()
                                &&& old_q.subscribers.subscribers@[i].id == subscriber_id
                                &&& old_q.subscribers.subscribers@[i].on_delivery == Option::Some(
                                    b,
                                )
                                &&& mid_q.subscribers.subscribers@ =~= old_q.subscribers.subscribers@.update(
                                    i,
                                    (crate::subscribers::QueueSubscriber {
                                        delivery_state: crate::subscribers::DeliveryState::Idle,
                                        on_delivery: Option::None,
                                        ..old_q.subscribers.subscribers@[i]
                                    }),
                                )
                            };
                        if self.subscribers.in_flight(x) {
                            let j = choose|j: int|
                                0 <= j < self.subscribers.subscribers@.len() && (
                                #[trigger] self.subscribers.subscribers@[j]).holds(x);
                            assert(j != i);
                            assert(old_q.subscribers.subscribers@[j].holds(x));
                            if old_q.held_by(subscriber_id as int, x) {
                                assert(b.spec_contains(x));
                                let k = choose|k: int|
                                    0 <= k < old_q.subscribers.subscribers@.len() && (
                                    #[trigger] old_q.subscribers.subscribers@[k]).id
                                        == subscriber_id && old_q.subscribers.subscribers@[k].holds(
                                        x,
                                    );
                                assert(old_q.subscribers.subscribers@[i].holds(x));
                                if j < i {
                                    assert(!(old_q.subscribers.subscribers@[j].holds(x)
                                        && old_q.subscribers.subscribers@[i].holds(x)));
                                } else {
                                    assert(!(old_q.subscribers.subscribers@[i].holds(x)
                                        && old_q.subscribers.subscribers@[j].holds(x)));
                                }
                            }
                        }
                        if old_q.subscribers.in_flight(x) && !old_q.held_by(
                            subscriber_id as int,
                            x,
                        ) {
                            let j = choose|j: int|
                                0 <= j < old_q.subscribers.subscribers@.len() && (
                                #[trigger] old_q.subscribers.subscribers@[j]).holds(x);
                            assert(j != i) by {
                                if j == i {
                                    assert(old_q.held_by(subscriber_id as int, x));
                                }
                            }
                            assert(self.subscribers.subscribers@[j].holds(x));
                        }
                    }
                }
                proof {
                    assert(old_q.subscriber_has_bucket(subscriber_id as int));
                }
                true
            },
            Option::None => {
                proof {
                    if old_q.subscriber_has_bucket(subscriber_id as int) {
                        let i1 = choose|i1: int|
                            0 <= i1 < old_q.subscribers.subscribers@.len() && (
                            #[trigger] old_q.subscribers.subscribers@[i1]).id == subscriber_id
                                && old_q.subscribers.subscribers@[i1].on_delivery is Some;
                        assert(old_q.subscribers.has_subscriber(subscriber_id as int));
                        let i2 = choose|i2: int|
                            0 <= i2 < old_q.subscribers.subscribers@.len() && (
                            #[trigger] old_q.subscribers.subscribers@[i2]).id == subscriber_id
                                && old_q.subscribers.subscribers@[i2].on_delivery is None;
                        if i1 != i2 {
                            assert(old_q.subscribers.subscribers@[if i1 < i2 {
                                i1
                            } else {
                                i2
                            }].id != old_q.subscribers.subscribers@[if i1 < i2 {
                                i2
                            } else {
                                i1
                            }].id);
                        }
                    }
                }
                false
            },
        }
    }
}

/// Whether an id occurs in a listing.
pub open spec fn listed_id(s: Seq<MessageId>, x: int) -> bool {
    exists|k: int| 0 <= k < s.len() && s[k] == x
}

/// An id held, looking only at the first `i` subscribers.
pub open spec fn partial_held(q: TopicQueue, subscriber_id: int, i: int, x: int) -> bool {
    exists|k: int|
        0 <= k < i && k < q.subscribers.subscribers@.len() && (
        #[trigger] q.subscribers.subscribers@[k]).id == subscriber_id
            && q.subscribers.subscribers@[k].holds(x)
}

/// What a queue owes counting only the ready set and the first `i`
/// subscribers' buckets.
pub open spec fn partial_owes(q: TopicQueue, i: int, x: int) -> bool {
    q.ready.covers(x) || exists|k: int|
        0 <= k < i && k < q.subscribers.subscribers@.len() && (
        #[trigger] q.subscribers.subscribers@[k]).holds(x)
}

impl TopicQueue {
    /// Attaches a new subscriber. On a single-subscriber queue the incumbent
    /// is removed and handed back, its bucket still attached: the caller
    /// passes it to `remove_subscriber`, which returns those ids to `ready`.
    pub fn subscribe(&mut self, subscriber_id: SubscriberId, session_id: SessionId) -> (kicked:
        Option<QueueSubscriber>)
        requires
            old(self).wf(),
            !old(self).subscribers.has_subscriber(subscriber_id as int),
        ensures
            final(self).wf(),
            final(self).ready == old(self).ready,
            final(self).attempts == old(self).attempts,
            final(self).kind == old(self).kind,
            final(self).topic_id == old(self).topic_id,
            final(self).queue_id == old(self).queue_id,
            final(self).subscribers.has_subscriber(subscriber_id as int),
            match kicked {
                Option::Some(k) => {
                    &&& old(self).kind == QueueKind::PermanentSingleSubscriber
                    &&& old(self).subscribers.subscribers@.len() > 0
                    &&& k == old(self).subscribers.subscribers@[0]
                    &&& k.wf()
                    &&& forall|x: int| #[trigger] k.holds(x) ==> !final(self).owes(x)
                    &&& forall|x: int|
                        #![trigger final(self).subscribers.in_flight(x)]
                        #![trigger old(self).subscribers.in_flight(x)]
                        final(self).subscribers.in_flight(x) <==> (old(self).subscribers.in_flight(x) && !k.holds(x))
                },
                Option::None => {
                    &&& !(old(self).kind == QueueKind::PermanentSingleSubscriber && old(self).subscribers.subscribers@.len() > 0)
                    &&& forall|x: int|
                        #![trigger final(self).subscribers.in_flight(x)]
                        #![trigger old(self).subscribers.in_flight(x)]
                        final(self).subscribers.in_flight(x) <==> old(self).subscribers.in_flight(
                            x,
                        )
                },
            },
    {
        let single = matches!(self.kind, QueueKind::PermanentSingleSubscriber);
        let topic_id = clone_string(&self.topic_id);
        let queue_id = clone_string(&self.queue_id);
        let ghost old_q = *old(self);
        let kicked = self.subscribers.subscribe(
            subscriber_id,
            session_id,
            topic_id,
            queue_id,
            single,
        );
        proof {
            let subs = self.subscribers.subscribers@;
            let n = subs.len() - 1;
            assert(subs[n].on_delivery is None);
            let gk = kicked;
            match gk {
                Option::Some(k) => {
                    assert forall|x: int|
                        final(self).subscribers.in_flight(x) <==> (old_q.subscribers.in_flight(x)
                            && !k.holds(x)) by {
                        if self.subscribers.in_flight(x) {
                            let j = choose|j: int|
                                0 <= j < subs.len() && (#[trigger] subs[j]).holds(x);
                            assert(j < n);
                            assert(subs[j] == old_q.subscribers.subscribers@[j + 1]);
                            assert(old_q.subscribers.in_flight(x));
                            if k.holds(x) {
                                assert(old_q.subscribers.subscribers@[0].holds(x));
                                assert(!(old_q.subscribers.subscribers@[0].holds(x)
                                    && old_q.subscribers.subscribers@[j + 1].holds(x)));
                            }
                        }
                        if old_q.subscribers.in_flight(x) && !k.holds(x) {
                            let j = choose|j: int|
                                0 <= j < old_q.subscribers.subscribers@.len() && (#[trigger] old_q.subscribers.subscribers@[j]).holds(
                                    x,
                                );
                            assert(j > 0);
                            assert(subs[j - 1] == old_q.subscribers.subscribers@[j]);
                            assert(subs[j - 1].holds(x));
                        }
                    }
                    assert forall|x: int| #[trigger] k.holds(x) implies !final(self).owes(x) by {
                        assert(old_q.subscribers.subscribers@[0].holds(x));
                        assert(old_q.subscribers.in_flight(x));
                        if self.ready.covers(x) {
                            assert(old_q.ready.covers(x));
                        }
                    }
                    assert(self.wf()) by {
                        assert forall|id: int| #[trigger] self.ready.covers(id) implies !self.subscribers.in_flight(
                            id,
                        ) by {
                            if self.subscribers.in_flight(id) {
                                assert(old_q.subscribers.in_flight(id));
                            }
                        }
                        assert forall|i2: int, j2: int, x: int|
                            0 <= i2 < j2 < subs.len() implies !((#[trigger] subs[i2].holds(x)) && (
                        #[trigger] subs[j2].holds(x))) by {
                            if subs[i2].holds(x) && subs[j2].holds(x) {
                                assert(j2 < n);
                                assert(subs[i2] == old_q.subscribers.subscribers@[i2 + 1]);
                                assert(subs[j2] == old_q.subscribers.subscribers@[j2 + 1]);
                            }
                        }
                    }
                },
                Option::None => {
                    assert forall|x: int|
                        final(self).subscribers.in_flight(x) <==> old_q.subscribers.in_flight(
                            x,
                        ) by {
                        if self.subscribers.in_flight(x) {
                            let j = choose|j: int|
                                0 <= j < subs.len() && (#[trigger] subs[j]).holds(x);
                            assert(j < n);
                            assert(subs[j] == old_q.subscribers.subscribers@[j]);
                        }
                        if old_q.subscribers.in_flight(x) {
                            let j = choose|j: int|
                                0 <= j < old_q.subscribers.subscribers@.len() && (#[trigger] old_q.subscribers.subscribers@[j]).holds(
                                    x,
                                );
                            assert(subs[j].holds(x));
                        }
                    }
                    assert(self.wf()) by {
                        assert forall|id: int| #[trigger] self.ready.covers(id) implies !self.subscribers.in_flight(
                            id,
                        ) by {
                            if self.subscribers.in_flight(id) {
                                assert(old_q.subscribers.in_flight(id));
                            }
                        }
                        assert forall|i2: int, j2: int, x: int|
                            0 <= i2 < j2 < subs.len() implies !((#[trigger] subs[i2].holds(x)) && (
                        #[trigger] subs[j2].holds(x))) by {
                            if subs[i2].holds(x) && subs[j2].holds(x) {
                                assert(j2 < n);
                                assert(subs[i2] == old_q.subscribers.subscribers@[i2]);
                                assert(subs[j2] == old_q.subscribers.subscribers@[j2]);
                            }
                        }
                    }
                },
            }
        }
        kicked
    }

    /// Disconnect cleanup for one session: every subscriber of the session
    /// leaves the queue and every id it held in flight is back in `ready`
    /// before the next delivery cycle — nothing is lost without an ack.
    pub fn remove_subscribers_by_session(&mut self, session_id: SessionId) -> (removed: usize)
        requires
            old(self).wf(),
        ensures
            final(self).wf(),
            final(self).kind == old(self).kind,
            final(self).topic_id == old(self).topic_id,
            final(self).queue_id == old(self).queue_id,
            forall|x: int|
                #![trigger old(self).ready.covers(x)]
                old(self).ready.covers(x) ==> final(self).ready.covers(x),
            forall|x: int|
                #![trigger final(self).ready.covers(x)]
                final(self).ready.covers(x) ==> (old(self).ready.covers(x) || old(self).subscribers.in_flight(x)),
            forall|x: int|
                #![trigger old(self).subscribers.in_flight(x)]
                old(self).subscribers.in_flight(x) ==> final(self).owes(x),
            forall|x: int|
                #![trigger session_held(old(self).subscribers, session_id as int, x)]
                session_held(old(self).subscribers, session_id as int, x) ==> final(self).ready.covers(x),
            forall|i: int|
                0 <= i < final(self).subscribers.subscribers@.len() ==> (#[trigger] final(self).subscribers.subscribers@[i]).session_id != session_id,
            forall|i: int|
                0 <= i < final(self).subscribers.subscribers@.len() ==> old(self).subscribers.subscribers@.contains(final(self).subscribers.subscribers@[i]),
    {
        let ghost old_q = *old(self);
        let mut removed: usize = 0;
        let mut i: usize = 0;
        while i < self.subscribers.subscribers.len()
            invariant
                old_q.wf(),
                self.wf(),
                0 <= i <= self.subscribers.subscribers@.len(),
                self.kind == old_q.kind,
                self.topic_id == old_q.topic_id,
                self.queue_id == old_q.queue_id,
                forall|x: int|
                    #![trigger old_q.ready.covers(x)]
                    old_q.ready.covers(x) ==> self.ready.covers(x),
                forall|x: int|
                    #![trigger self.ready.covers(x)]
                    self.ready.covers(x) ==> (old_q.ready.covers(x)
                        || old_q.subscribers.in_flight(x)),
                forall|x: int|
                    #![trigger old_q.subscribers.in_flight(x)]
                    old_q.subscribers.in_flight(x) ==> (self.owes(x)),
                forall|x: int|
                    #![trigger session_held(old_q.subscribers, session_id as int, x)]
                    session_held(old_q.subscribers, session_id as int, x) ==> (self.ready.covers(x)
                        || session_held(self.subscribers, session_id as int, x)),
                forall|k: int|
                    0 <= k < i ==> (#[trigger] self.subscribers.subscribers@[k]).session_id
                        != session_id,
                forall|k: int|
                    0 <= k < self.subscribers.subscribers@.len() ==> old_q.subscribers.subscribers@.contains(
                        #[trigger] self.subscribers.subscribers@[k],
                    ),
            decreases self.subscribers.subscribers@.len() - i,
        {
            let ghost pre = *self;
            if self.subscribers.subscribers[i].session_id == session_id {
                let mut sub = self.subscribers.subscribers.remove(i);
                proof {
                    let subs = pre.subscribers.subscribers@;
                    assert(sub == subs[i as int]);
                    assert forall|k: int|
                        0 <= k < self.subscribers.subscribers@.len() implies old_q.subscribers.subscribers@.contains(
                            #[trigger] self.subscribers.subscribers@[k],
                        ) by {
                        if k < i {
                            assert(self.subscribers.subscribers@[k] == subs[k]);
                        } else {
                            assert(self.subscribers.subscribers@[k] == subs[k + 1]);
                        }
                    }
                    assert(self.wf()) by {
                        assert forall|id: int| #[trigger] self.ready.covers(id) implies !self.subscribers.in_flight(
                            id,
                        ) by {
                            if self.subscribers.in_flight(id) {
                                let j = choose|j: int|
                                    0 <= j < self.subscribers.subscribers@.len() && (
                                    #[trigger] self.subscribers.subscribers@[j]).holds(id);
                                let j0: int = if j < i {
                                    j
                                } else {
                                    j + 1
                                };
                                assert(subs[j0].holds(id));
                                assert(pre.subscribers.in_flight(id));
                            }
                        }
                        assert forall|i2: int, j2: int, x: int|
                            0 <= i2 < j2 < self.subscribers.subscribers@.len() implies !((
                        #[trigger] self.subscribers.subscribers@[i2].holds(x)) && (
                        #[trigger] self.subscribers.subscribers@[j2].holds(x))) by {
                            if self.subscribers.subscribers@[i2].holds(x)
                                && self.subscribers.subscribers@[j2].holds(x) {
                                let a0: int = if i2 < i {
                                    i2
                                } else {
                                    i2 + 1
                                };
                                let b0: int = if j2 < i {
                                    j2
                                } else {
                                    j2 + 1
                                };
                                assert(subs[a0].holds(x));
                                assert(subs[b0].holds(x));
                            }
                        }
                    }
                }
                let bucket_opt = sub.reset_delivery();
                match bucket_opt {
                    Option::Some(b) => {
                        proof {
                            let subs = pre.subscribers.subscribers@;
                            assert forall|x: int| b.spec_contains(x) implies !self.owes(x) by {
                                assert(subs[i as int].holds(x));
                                assert(pre.subscribers.in_flight(x));
                                if self.ready.covers(x) {
                                    assert(pre.ready.covers(x));
                                }
                                if self.subscribers.in_flight(x) {
                                    let j = choose|j: int|
                                        0 <= j < self.subscribers.subscribers@.len() && (
                                        #[trigger] self.subscribers.subscribers@[j]).holds(x);
                                    let j0: int = if j < i {
                                        j
                                    } else {
                                        j + 1
                                    };
                                    assert(subs[j0].holds(x));
                                    assert(j0 != i);
                                    if j0 < i {
                                        assert(!(subs[j0].holds(x) && subs[i as int].holds(x)));
                                    } else {
                                        assert(!(subs[i as int].holds(x) && subs[j0].holds(x)));
                                    }
                                }
                            }
                        }
                        self.mark_not_delivered(&b);
                        proof {
                            let subs = pre.subscribers.subscribers@;
                            assert forall|x: int|
                                session_held(old_q.subscribers, session_id as int, x) implies (
                            self.ready.covers(x) || session_held(
                                self.subscribers,
                                session_id as int,
                                x,
                            )) by {
                                if session_held(pre.subscribers, session_id as int, x)
                                    && !self.ready.covers(x) {
                                    let j = choose|j: int|
                                        0 <= j < subs.len() && (#[trigger] subs[j]).session_id
                                            == session_id && subs[j].holds(x);
                                    assert(j != i);
                                    let j2: int = if j < i {
                                        j
                                    } else {
                                        j - 1
                                    };
                                    assert(self.subscribers.subscribers@[j2] == subs[j]);
                                    assert(session_held(
                                        self.subscribers,
                                        session_id as int,
                                        x,
                                    ));
                                }
                            }
                            assert forall|x: int|
                                old_q.subscribers.in_flight(x) implies self.owes(x) by {
                                if pre.subscribers.in_flight(x) && !self.ready.covers(x) {
                                    let j = choose|j: int|
                                        0 <= j < subs.len() && (#[trigger] subs[j]).holds(x);
                                    if j == i {
                                        assert(b.spec_contains(x));
                                        assert(self.ready.covers(x));
                                    } else {
                                        let j2: int = if j < i {
                                            j
                                        } else {
                                            j - 1
                                        };
                                        assert(self.subscribers.subscribers@[j2] == subs[j]);
                                        assert(self.subscribers.in_flight(x));
                                    }
                                }
                            }
                        }
                    },
                    Option::None => {
                        proof {
                            let subs = pre.subscribers.subscribers@;
                            assert forall|x: int|
                                session_held(old_q.subscribers, session_id as int, x) implies (
                            self.ready.covers(x) || session_held(
                                self.subscribers,
                                session_id as int,
                                x,
                            )) by {
                                if session_held(pre.subscribers, session_id as int, x)
                                    && !self.ready.covers(x) {
                                    let j = choose|j: int|
                                        0 <= j < subs.len() && (#[trigger] subs[j]).session_id
                                            == session_id && subs[j].holds(x);
                                    assert(j != i);
                                    let j2: int = if j < i {
                                        j
                                    } else {
                                        j - 1
                                    };
                                    assert(self.subscribers.subscribers@[j2] == subs[j]);
                                }
                            }
                            assert forall|x: int|
                                old_q.subscribers.in_flight(x) implies self.owes(x) by {
                                if pre.subscribers.in_flight(x) && !self.ready.covers(x) {
                                    let j = choose|j: int|
                                        0 <= j < subs.len() && (#[trigger] subs[j]).holds(x);
                                    assert(j != i);
                                    let j2: int = if j < i {
                                        j
                                    } else {
                                        j - 1
                                    };
                                    assert(self.subscribers.subscribers@[j2] == subs[j]);
                                    assert(self.subscribers.in_flight(x));
                                }
                            }
                        }
                    },
                }
                if removed < usize::MAX {
                    removed = removed + 1;
                }
            } else {
                i = i + 1;
                proof {
                    assert forall|x: int|
                        session_held(old_q.subscribers, session_id as int, x) implies (
                    self.ready.covers(x) || session_held(
                        self.subscribers,
                        session_id as int,
                        x,
                    )) by {}
                }
            }
        }
        proof {
            assert forall|x: int|
                session_held(old_q.subscribers, session_id as int, x) implies self.ready.covers(
                    x,
                ) by {
                if session_held(self.subscribers, session_id as int, x) {
                    let j = choose|j: int|
                        0 <= j < self.subscribers.subscribers@.len() && (
                        #[trigger] self.subscribers.subscribers@[j]).session_id == session_id
                            && self.subscribers.subscribers@[j].holds(x);
                }
            }
        }
        removed
    }

    /// The smallest id the queue still owes, across both the ready set and
    /// every in-flight bucket: the eviction floor for page collection.
    pub fn get_min_message_id(&self) -> (r: Option<MessageId>)
        requires
            self.wf(),
        ensures
            match r {
                Option::None => forall|x: int| !self.owes(x),
                Option::Some(m) => self.owes(m as int) && forall|x: int| self.owes(x) ==> m <= x,
            },
    {
        let mut result: Option<MessageId> = self.ready.peek();
        proof {
            self.ready.lemma_empty_iff_covers_nothing();
            assert forall|x: int| partial_owes(*self, 0, x) implies self.ready.covers(x) by {}
        }
        let mut i: usize = 0;
        while i < self.subscribers.subscribers.len()
            invariant
                self.wf(),
                0 <= i <= self.subscribers.subscribers@.len(),
                match result {
                    Option::None => forall|x: int| !partial_owes(*self, i as int, x),
                    Option::Some(m) => partial_owes(*self, i as int, m as int) && forall|x: int|
                        partial_owes(*self, i as int, x) ==> m <= x,
                },
            decreases self.subscribers.subscribers@.len() - i,
        {
            let ghost prev = result;
            let sub_min: Option<MessageId> = match &self.subscribers.subscribers[i].on_delivery {
                Option::Some(b) => b.min_id,
                Option::None => Option::None,
            };
            match sub_min {
                Option::Some(m2) => {
                    let keep = match result {
                        Option::Some(m1) => m1 <= m2,
                        Option::None => false,
                    };
                    if !keep {
                        result = Option::Some(m2);
                    }
                },
                Option::None => {},
            }
            proof {
                let sub = self.subscribers.subscribers@[i as int];
                assert forall|x: int|
                    partial_owes(*self, i as int, x) implies partial_owes(*self, i + 1, x) by {
                    if !self.ready.covers(x) {
                        let k = choose|k: int|
                            0 <= k < i && k < self.subscribers.subscribers@.len() && (
                            #[trigger] self.subscribers.subscribers@[k]).holds(x);
                        assert(0 <= k < i + 1 && k < self.subscribers.subscribers@.len()
                            && self.subscribers.subscribers@[k].holds(x));
                    }
                }
                assert forall|x: int|
                    partial_owes(*self, i + 1, x) implies (partial_owes(*self, i as int, x)
                        || sub.holds(x)) by {
                    if !partial_owes(*self, i as int, x) && partial_owes(*self, i + 1, x) {
                        let k = choose|k: int|
                            0 <= k < i + 1 && k < self.subscribers.subscribers@.len() && (
                            #[trigger] self.subscribers.subscribers@[k]).holds(x);
                        assert(k == i);
                    }
                }
                match sub.on_delivery {
                    Option::Some(b) => {
                        assert forall|x: int| sub.holds(x) implies (b.min_id matches Option::Some(
                            mb,
                        ) && mb <= x) by {
                            b.lemma_min_le_contains(x);
                        }
                        if b.pages@.len() > 0 {
                            let m0 = b.pages@[0].messages@[0];
                            assert(b.spec_contains(m0.message_id as int));
                            assert(sub.holds(m0.message_id as int));
                            assert(partial_owes(*self, i + 1, m0.message_id as int));
                        }
                    },
                    Option::None => {
                        assert(forall|x: int| !sub.holds(x));
                    },
                }
                let r2 = result;
                match r2 {
                    Option::None => {
                        assert forall|x: int| !(#[trigger] partial_owes(*self, i + 1, x)) by {
                            if partial_owes(*self, i + 1, x) {
                                assert(partial_owes(*self, i as int, x) || sub.holds(x));
                            }
                        }
                    },
                    Option::Some(m) => {
                        assert(partial_owes(*self, i + 1, m as int)) by {
                            match prev {
                                Option::Some(m1) => {
                                    if m == m1 {
                                        assert(partial_owes(*self, i as int, m1 as int));
                                    }
                                },
                                Option::None => {},
                            }
                        }
                        assert forall|x: int| #[trigger] partial_owes(*self, i + 1, x) implies m
                            <= x by {
                            assert(partial_owes(*self, i as int, x) || sub.holds(x));
                        }
                    },
                }
            }
            i = i + 1;
        }
        proof {
            assert forall|x: int|
                self.owes(x) implies partial_owes(
                    *self,
                    self.subscribers.subscribers@.len() as int,
                    x,
                ) by {}
            assert forall|x: int|
                partial_owes(*self, self.subscribers.subscribers@.len() as int, x) implies self.owes(
                    x,
                ) by {}
        }
        result
    }
}

/// One listed id, as a mathematical integer.
pub open spec fn r_view(s: Seq<MessageId>, k: int) -> int {
    s[k] as int
}

/// An id held in flight by some subscriber of this session.
pub open spec fn session_held(s: SubscriberSet, session_id: int, x: int) -> bool {
    exists|i: int|
        0 <= i < s.subscribers@.len() && (#[trigger] s.subscribers@[i]).session_id == session_id
            && s.subscribers@[i].holds(x)
}

/// Removes a subscriber that has already left its queue's set, returning
/// whatever it held in flight to the ready set for redelivery.
pub fn remove_subscriber(queue: &mut TopicQueue, subscriber: QueueSubscriber)
    requires
        old(queue).wf(),
        subscriber.wf(),
        forall|x: int| #[trigger] subscriber.holds(x) ==> !old(queue).owes(x),
    ensures
        final(queue).wf(),
        forall|x: int|
            #![trigger final(queue).ready.covers(x)]
            #![trigger old(queue).ready.covers(x)]
            #![trigger subscriber.holds(x)]
            final(queue).ready.covers(x) <==> (old(queue).ready.covers(x) || subscriber.holds(x)),
        final(queue).subscribers == old(queue).subscribers,
        final(queue).kind == old(queue).kind,
        final(queue).topic_id == old(queue).topic_id,
        final(queue).queue_id == old(queue).queue_id,
{
    let mut subscriber = subscriber;
    let bucket_opt = subscriber.reset_delivery();
    match bucket_opt {
        Option::Some(b) => {
            queue.mark_not_delivered(&b);
        },
        Option::None => {},
    }
}

/// An owned copy of a string, for handing names to new components.
pub fn clone_string(s: &String) -> (r: String)
    ensures
        r@ == s@,
{
    s.clone()
}

/// Whether an id occurs in the bucket strictly before the page/offset
/// position `(pa, pb)` in lexicographic order.
pub open spec fn bucket_prefix_contains(bucket: MessagesBucket, pa: int, pb: int, x: int) -> bool {
    exists|a: int, b: int|
        0 <= a < bucket.pages@.len() && 0 <= b < (#[trigger] bucket.pages@[a]).messages@.len() && (
        a < pa || (a == pa && b < pb)) && (#[trigger] bucket.pages@[a].messages@[b]).message_id
            == x
}

impl TopicQueue {
    /// The ids a subscriber currently holds in flight, for the debug
    /// endpoint: exactly the contents of its outstanding bucket.
    pub fn get_messages_on_delivery(&self, subscriber_id: SubscriberId) -> (r: Vec<MessageId>)
        requires
            self.wf(),
        ensures
            forall|k: int|
                0 <= k < r@.len() ==> self.held_by(subscriber_id as int, #[trigger] r@[k] as int),
            forall|x: int|
                #[trigger] self.held_by(subscriber_id as int, x) ==> listed_id(r@, x),
    {
        let mut out: Vec<MessageId> = Vec::new();
        let mut i: usize = 0;
        while i < self.subscribers.subscribers.len()
            invariant
                self.wf(),
                0 <= i <= self.subscribers.subscribers@.len(),
                forall|k: int|
                    0 <= k < out@.len() ==> self.held_by(subscriber_id as int, #[trigger] r_view(
                        out@,
                        k,
                    )),
                forall|x: int|
                    #[trigger] partial_held(*self, subscriber_id as int, i as int, x)
                        ==> listed_id(out@, x),
            decreases self.subscribers.subscribers@.len() - i,
        {
            if self.subscribers.subscribers[i].id == subscriber_id {
                match &self.subscribers.subscribers[i].on_delivery {
                    Option::Some(b) => {
                        let mut a: usize = 0;
                        while a < b.pages.len()
                            invariant
                                self.wf(),
                                0 <= i < self.subscribers.subscribers@.len(),
                                self.subscribers.subscribers@[i as int].id == subscriber_id,
                                self.subscribers.subscribers@[i as int].on_delivery
                                    == Option::Some(*b),
                                0 <= a <= b.pages@.len(),
                                forall|k: int|
                                    0 <= k < out@.len() ==> self.held_by(
                                        subscriber_id as int,
                                        #[trigger] r_view(out@, k),
                                    ),
                                forall|x: int|
                                    #[trigger] partial_held(
                                        *self,
                                        subscriber_id as int,
                                        i as int,
                                        x,
                                    ) ==> listed_id(out@, x),
                                forall|x: int|
                                    #[trigger] bucket_prefix_contains(*b, a as int, 0, x)
                                        ==> listed_id(out@, x),
                            decreases b.pages@.len() - a,
                        {
                            let mut j: usize = 0;
                            while j < b.pages[a].messages.len()
                                invariant
                                    self.wf(),
                                    0 <= i < self.subscribers.subscribers@.len(),
                                    self.subscribers.subscribers@[i as int].id == subscriber_id,
                                    self.subscribers.subscribers@[i as int].on_delivery
                                        == Option::Some(*b),
                                    0 <= a < b.pages@.len(),
                                    0 <= j <= b.pages@[a as int].messages@.len(),
                                    forall|k: int|
                                        0 <= k < out@.len() ==> self.held_by(
                                            subscriber_id as int,
                                            #[trigger] r_view(out@, k),
                                        ),
                                    forall|x: int|
                                        #[trigger] partial_held(
                                            *self,
                                            subscriber_id as int,
                                            i as int,
                                            x,
                                        ) ==> listed_id(out@, x),
                                    forall|x: int|
                                        #[trigger] bucket_prefix_contains(
                                            *b,
                                            a as int,
                                            j as int,
                                            x,
                                        ) ==> listed_id(out@, x),
                                decreases b.pages@[a as int].messages@.len() - j,
                            {
                                let id = b.pages[a].messages[j].message_id;
                                let ghost prev = out@;
                                proof {
                                    assert(b.pages@[a as int].messages@[j as int].message_id
                                        == id);
                                    assert(b.spec_contains(id as int));
                                    assert(self.subscribers.subscribers@[i as int].holds(
                                        id as int,
                                    ));
                                }
                                out.push(id);
                                proof {
                                    assert forall|k: int|
                                        0 <= k < out@.len() implies self.held_by(
                                        subscriber_id as int,
                                        #[trigger] r_view(out@, k),
                                    ) by {
                                        if k < prev.len() {
                                            assert(r_view(out@, k) == r_view(prev, k));
                                            assert(self.held_by(
                                                subscriber_id as int,
                                                r_view(prev, k),
                                            ));
                                        } else {
                                            assert(r_view(out@, k) == id as int);
                                            assert(self.held_by(subscriber_id as int, id as int));
                                        }
                                    }
                                    assert forall|x: int|
                                        #[trigger] listed_id(prev, x) implies listed_id(
                                        out@,
                                        x,
                                    ) by {
                                        let k = choose|k: int|
                                            0 <= k < prev.len() && prev[k] == x;
                                        assert(out@[k] == x);
                                    }
                                    assert(listed_id(out@, id as int)) by {
                                        assert(out@[out@.len() - 1] == id);
                                    }
                                    assert forall|x: int|
                                        #[trigger] bucket_prefix_contains(
                                            *b,
                                            a as int,
                                            j + 1,
                                            x,
                                        ) implies listed_id(out@, x) by {
                                        let (pa, pb) = choose|pa: int, pb: int|
                                            0 <= pa < b.pages@.len() && 0 <= pb < (
                                            #[trigger] b.pages@[pa]).messages@.len() && (pa
                                                < a || (pa == a && pb < j + 1)) && (
                                            #[trigger] b.pages@[pa].messages@[pb]).message_id
                                                == x;
                                        if pa < a || (pa == a && pb < j) {
                                            assert(bucket_prefix_contains(
                                                *b,
                                                a as int,
                                                j as int,
                                                x,
                                            ));
                                            assert(listed_id(prev, x));
                                        } else {
                                            assert(pa == a && pb == j);
                                            assert(x == id as int);
                                        }
                                    }
                                }
                                j = j + 1;
                            }
                            proof {
                                assert forall|x: int|
                                    #[trigger] bucket_prefix_contains(*b, a + 1, 0, x)
                                        implies bucket_prefix_contains(
                                    *b,
                                    a as int,
                                    b.pages@[a as int].messages@.len() as int,
                                    x,
                                ) by {}
                            }
                            a = a + 1;
                        }
                        proof {
                            assert forall|x: int|
                                #[trigger] partial_held(
                                    *self,
                                    subscriber_id as int,
                                    i + 1,
                                    x,
                                ) implies listed_id(out@, x) by {
                                if !partial_held(*self, subscriber_id as int, i as int, x) {
                                    let k = choose|k: int|
                                        0 <= k < i + 1 && k
                                            < self.subscribers.subscribers@.len() && (
                                        #[trigger] self.subscribers.subscribers@[k]).id
                                            == subscriber_id
                                            && self.subscribers.subscribers@[k].holds(x);
                                    assert(k == i);
                                    assert(b.spec_contains(x));
                                    assert(bucket_prefix_contains(
                                        *b,
                                        b.pages@.len() as int,
                                        0,
                                        x,
                                    ));
                                }
                            }
                        }
                    },
                    Option::None => {
                        proof {
                            assert forall|x: int|
                                #[trigger] partial_held(
                                    *self,
                                    subscriber_id as int,
                                    i + 1,
                                    x,
                                ) implies listed_id(out@, x) by {
                                if !partial_held(*self, subscriber_id as int, i as int, x) {
                                    let k = choose|k: int|
                                        0 <= k < i + 1 && k
                                            < self.subscribers.subscribers@.len() && (
                                        #[trigger] self.subscribers.subscribers@[k]).id
                                            == subscriber_id
                                            && self.subscribers.subscribers@[k].holds(x);
                                    assert(k == i);
                                }
                            }
                        }
                    },
                }
            } else {
                proof {
                    assert forall|x: int|
                        #[trigger] partial_held(*self, subscriber_id as int, i + 1, x)
                            implies listed_id(out@, x) by {
                        if !partial_held(*self, subscriber_id as int, i as int, x) {
                            let k = choose|k: int|
                                0 <= k < i + 1 && k < self.subscribers.subscribers@.len() && (
                                #[trigger] self.subscribers.subscribers@[k]).id == subscriber_id
                                    && self.subscribers.subscribers@[k].holds(x);
                            assert(k == i);
                        }
                    }
                }
            }
            i = i + 1;
        }
        proof {
            assert forall|k: int| 0 <= k < out@.len() implies self.held_by(
                subscriber_id as int,
                #[trigger] out@[k] as int,
            ) by {
                assert(self.held_by(subscriber_id as int, r_view(out@, k)));
            }
            assert forall|x: int|
                #[trigger] self.held_by(subscriber_id as int, x) implies listed_id(out@, x) by {
                assert(partial_held(
                    *self,
                    subscriber_id as int,
                    self.subscribers.subscribers@.len() as int,
                    x,
                ));
            }
        }
        out
    }

    /// The persisted shape of this queue: its discipline and ready ranges.
    pub fn get_snapshot_to_persist(&self) -> (r: Option<(QueueKind, Vec<IdRange>)>)
        requires
            self.wf(),
        ensures
            match r {
                Option::Some(s) => {
                    &&& self.kind != QueueKind::DeleteOnDisconnect
                    &&& s.0 == self.kind
                    &&& s.1@ =~= self.ready.ranges()
                },
                Option::None => self.kind == QueueKind::DeleteOnDisconnect,
            },
    {
        if matches!(self.kind, QueueKind::DeleteOnDisconnect) {
            Option::None
        } else {
            Option::Some((self.kind, self.ready.get_snapshot()))
        }
    }
}

} // verus!
