//! One topic: its monotonically increasing message-id counter, its page
//! cache, its queues and its publishers. All mutation of a topic happens
//! under the topic lock, which the embedding program holds around calls into
//! this module.
use vstd::prelude::*;

use crate::ids::{spec_page_of, valid_message_id, MessageId, PageId, PAGE_WIDTH};
use crate::intervals::IdRange;
use crate::metrics::TopicMetrics;
use crate::pages::{MessageContent, Page, PageState, PageStore};
use crate::queue::{clone_string, session_held, QueueKind, TopicQueue};
use crate::subscribers::SessionId;

verus! {

/// The queues of one topic, with a counter that persistence uses to detect
/// that a snapshot has gone stale.
pub struct TopicQueueListData {
    pub queues: Vec<TopicQueue>,
    pub snapshot_id: usize,
}

impl TopicQueueListData {
    pub open spec fn wf(self) -> bool {
        &&& forall|i: int| 0 <= i < self.queues@.len() ==> (#[trigger] self.queues@[i]).wf()
        &&& forall|i: int, j: int|
            0 <= i < j < self.queues@.len() ==> (#[trigger] self.queues@[i]).queue_id@ != (
            #[trigger] self.queues@[j]).queue_id@
    }
}

/// Operations over a topic's queues.
pub struct TopicQueuesList {
    pub data: TopicQueueListData,
}

impl TopicQueuesList {
    pub open spec fn wf(self) -> bool {
        self.data.wf()
    }

    /// Some queue of the topic still owes this id.
    pub open spec fn any_owes(self, x: int) -> bool {
        exists|i: int| 0 <= i < self.data.queues@.len() && (#[trigger] self.data.queues@[i]).owes(x)
    }

    /// Whether a queue of this name exists.
    pub open spec fn has_queue(self, name: Seq<char>) -> bool {
        exists|i: int|
            0 <= i < self.data.queues@.len() && (#[trigger] self.data.queues@[i]).queue_id@ == name
    }

    /// The queue of this name, when one exists.
    pub open spec fn spec_queue(self, name: Seq<char>) -> TopicQueue {
        self.data.queues@[choose|i: int|
            0 <= i < self.data.queues@.len() && (#[trigger] self.data.queues@[i]).queue_id@
                == name]
    }

    /// With distinct names, any index holding `name` holds `spec_queue`.
    pub proof fn lemma_queue_at(self, i: int)
        requires
            self.wf(),
            0 <= i < self.data.queues@.len(),
        ensures
            self.has_queue(self.data.queues@[i].queue_id@),
            self.spec_queue(self.data.queues@[i].queue_id@) == self.data.queues@[i],
    {
        let name = self.data.queues@[i].queue_id@;
        assert(self.has_queue(name));
        let j = choose|j: int|
            0 <= j < self.data.queues@.len() && (#[trigger] self.data.queues@[j]).queue_id@
                == name;
        if i != j {
            assert(self.data.queues@[if i < j {
                i
            } else {
                j
            }].queue_id@ != self.data.queues@[if i < j {
                j
            } else {
                i
            }].queue_id@);
        }
    }

    pub fn new() -> (r: Self)
        ensures
            r.wf(),
            r.data.queues@.len() == 0,
            r.data.snapshot_id == 0,
            forall|x: int| !r.any_owes(x),
    {
        TopicQueuesList { data: TopicQueueListData { queues: Vec::new(), snapshot_id: 0 } }
    }

    fn bump_snapshot(&mut self)
        ensures
            final(self).data.queues == old(self).data.queues,
            final(self).data.snapshot_id == (if old(self).data.snapshot_id < usize::MAX {
                old(self).data.snapshot_id + 1
            } else {
                usize::MAX as int
            }),
    {
        if self.data.snapshot_id < usize::MAX {
            self.data.snapshot_id = self.data.snapshot_id + 1;
        }
    }

    /// Index of the queue with this id.
    pub fn get(&self, queue_id: &str) -> (r: Option<usize>)
        requires
            self.wf(),
        ensures
            match r {
                Option::Some(i) => i < self.data.queues@.len() && self.data.queues@[i as int].queue_id@
                    == queue_id@,
                Option::None => forall|i: int|
                    0 <= i < self.data.queues@.len() ==> (#[trigger] self.data.queues@[i]).queue_id@
                        != queue_id@,
            },
    {
        let mut i: usize = 0;
        while i < self.data.queues.len()
            invariant
                self.wf(),
                0 <= i <= self.data.queues@.len(),
                forall|k: int|
                    0 <= k < i ==> (#[trigger] self.data.queues@[k]).queue_id@ != queue_id@,
            decreases self.data.queues@.len() - i,
        {
            if crate::session::str_eq(self.data.queues[i].queue_id.as_str(), queue_id) {
                return Option::Some(i);
            }
            i = i + 1;
        }
        Option::None
    }

    /// Index of the named queue, creating it when it is absent; the second
    /// component says whether this call created it.
    pub fn add_queue_if_not_exists(&mut self, topic_id: &str, queue_id: &str, kind: QueueKind) -> (
        r: (usize, bool))
        requires
            old(self).wf(),
        ensures
            final(self).wf(),
            r.0 < final(self).data.queues@.len(),
            final(self).data.queues@[r.0 as int].queue_id@ == queue_id@,
            final(self).data.queues@[r.0 as int].wf(),
            // The flag reports exactly whether the queue had to be created.
            r.1 == !old(self).has_queue(queue_id@),
            // An existing queue gets its discipline updated in place;
            // everything else about it, and every other queue, stays.
            !r.1 ==> {
                &&& final(self).data.queues@.len() == old(self).data.queues@.len()
                &&& old(self).data.queues@[r.0 as int].queue_id@ == queue_id@
                &&& final(self).data.queues@[r.0 as int].kind == kind
                &&& final(self).data.queues@[r.0 as int].ready == old(self).data.queues@[r.0 as int].ready
                &&& final(self).data.queues@[r.0 as int].subscribers == old(self).data.queues@[r.0 as int].subscribers
                &&& final(self).data.queues@[r.0 as int].attempts == old(self).data.queues@[r.0 as int].attempts
                &&& final(self).data.queues@[r.0 as int].topic_id == old(self).data.queues@[r.0 as int].topic_id
                &&& (forall|j: int|
                    0 <= j < old(self).data.queues@.len() && j != r.0 ==> final(self).data.queues@[j] == old(self).data.queues@[j])
                &&& final(self).data.snapshot_id == old(self).data.snapshot_id
            },
            r.1 ==> {
                &&& final(self).data.queues@.len() == old(self).data.queues@.len() + 1
                &&& r.0 == old(self).data.queues@.len()
                &&& final(self).data.queues@[r.0 as int].kind == kind
                &&& (forall|x: int| !final(self).data.queues@[r.0 as int].owes(x))
                &&& final(self).data.queues@[r.0 as int].subscribers.subscribers@.len() == 0
                &&& (old(self).data.snapshot_id < usize::MAX ==> final(self).data.snapshot_id
                    == old(self).data.snapshot_id + 1)
            },
            forall|x: int|
                #![trigger final(self).any_owes(x)]
                #![trigger old(self).any_owes(x)]
                final(self).any_owes(x) == old(self).any_owes(x),
            r.1 ==> forall|i: int|
                0 <= i < old(self).data.queues@.len() ==> final(self).data.queues@[i] == old(self).data.queues@[i],
    {
        match self.get(queue_id) {
            Option::Some(i) => {
                let ghost pre_qs = self.data.queues@;
                proof {
                    assert(self.has_queue(queue_id@));
                }
                let mut tmp = TopicQueue::new(String::new(), String::new(), QueueKind::Permanent);
                core::mem::swap(&mut tmp, &mut self.data.queues[i]);
                proof {
                    assert(tmp == pre_qs[i as int]);
                }
                tmp.update_queue_type(kind);
                let ghost tmp_after = tmp;
                core::mem::swap(&mut tmp, &mut self.data.queues[i]);
                proof {
                    assert(self.data.queues@[i as int] == tmp_after);
                    assert(self.data.queues@ =~= pre_qs.update(i as int, tmp_after));
                    assert forall|a: int, b: int|
                        0 <= a < b < self.data.queues@.len() implies (
                    #[trigger] self.data.queues@[a]).queue_id@ != (
                    #[trigger] self.data.queues@[b]).queue_id@ by {
                        assert(self.data.queues@[a].queue_id@ == pre_qs[a].queue_id@);
                        assert(self.data.queues@[b].queue_id@ == pre_qs[b].queue_id@);
                    }
                    assert forall|x: int| final(self).any_owes(x) == old(self).any_owes(x) by {
                        if self.any_owes(x) {
                            let k = choose|k: int|
                                0 <= k < self.data.queues@.len() && (
                                #[trigger] self.data.queues@[k]).owes(x);
                            if k == i {
                                if tmp_after.ready.covers(x) {
                                    assert(pre_qs[k].ready.covers(x));
                                } else {
                                    assert(tmp_after.subscribers.in_flight(x));
                                }
                                assert(pre_qs[k].owes(x));
                            } else {
                                assert(pre_qs[k].owes(x));
                            }
                        }
                        if old(self).any_owes(x) {
                            let k = choose|k: int|
                                0 <= k < pre_qs.len() && (#[trigger] pre_qs[k]).owes(x);
                            if k == i {
                                if pre_qs[k].ready.covers(x) {
                                    assert(tmp_after.ready.covers(x));
                                } else {
                                    assert(pre_qs[k].subscribers.in_flight(x));
                                    assert(tmp_after.subscribers.in_flight(x));
                                }
                                assert(self.data.queues@[k].owes(x));
                            } else {
                                assert(self.data.queues@[k].owes(x));
                            }
                        }
                    }
                }
                (i, false)
            },
            Option::None => {
                let q = TopicQueue::new(
                    crate::session::str_to_string(topic_id),
                    crate::session::str_to_string(queue_id),
                    kind,
                );
                let ghost old_qs = self.data.queues@;
                self.data.queues.push(q);
                self.bump_snapshot();
                let idx = self.data.queues.len() - 1;
                proof {
                    let n = self.data.queues@.len() - 1;
                    assert forall|x: int| final(self).any_owes(x) == old(self).any_owes(x) by {
                        if self.any_owes(x) {
                            let k = choose|k: int|
                                0 <= k < self.data.queues@.len() && (
                                #[trigger] self.data.queues@[k]).owes(x);
                            if k < n {
                                assert(old_qs[k].owes(x));
                            } else {
                                assert(!self.data.queues@[n].owes(x));
                            }
                        }
                        if old(self).any_owes(x) {
                            let k = choose|k: int|
                                0 <= k < old_qs.len() && (#[trigger] old_qs[k]).owes(x);
                            assert(self.data.queues@[k].owes(x));
                        }
                    }
                }
                (idx, true)
            },
        }
    }

    /// Reinstates a queue from a persisted snapshot, replacing any queue of
    /// the same name.
    pub fn restore(&mut self, topic_id: &str, queue_id: &str, kind: QueueKind, ranges: Vec<IdRange>)
        -> (r: bool)
        requires
            old(self).wf(),
        ensures
            final(self).wf(),
            r == crate::intervals::ranges_wf(ranges@),
            r ==> exists|i: int|
                0 <= i < final(self).data.queues@.len() && (#[trigger] final(self).data.queues@[i]).queue_id@ == queue_id@ && final(self).data.queues@[i].kind
                    == kind && final(self).data.queues@[i].ready.ranges() =~= ranges@,
    {
        match TopicQueue::restore(
            crate::session::str_to_string(topic_id),
            crate::session::str_to_string(queue_id),
            kind,
            ranges,
        ) {
            Option::Some(q) => {
                match self.get(queue_id) {
                    Option::Some(i) => {
                        let ghost old_qs = self.data.queues@;
                        self.data.queues[i] = q;
                        proof {
                            assert forall|a: int, b: int|
                                0 <= a < b < self.data.queues@.len() implies (
                            #[trigger] self.data.queues@[a]).queue_id@ != (
                            #[trigger] self.data.queues@[b]).queue_id@ by {
                                assert(old_qs[a].queue_id@ == self.data.queues@[a].queue_id@
                                    || a == i);
                                assert(old_qs[b].queue_id@ == self.data.queues@[b].queue_id@
                                    || b == i);
                            }
                            assert(self.data.queues@[i as int].queue_id@ == queue_id@);
                        }
                        self.bump_snapshot();
                    },
                    Option::None => {
                        self.data.queues.push(q);
                        proof {
                            let n = self.data.queues@.len() - 1;
                            assert(self.data.queues@[n].queue_id@ == queue_id@);
                        }
                        self.bump_snapshot();
                    },
                }
                true
            },
            Option::None => false,
        }
    }

    /// Removes the named queue, handing it back.
    pub fn delete_queue(&mut self, queue_id: &str) -> (r: Option<TopicQueue>)
        requires
            old(self).wf(),
        ensures
            final(self).wf(),
            match r {
                Option::Some(q) => {
                    &&& q.wf()
                    &&& q.queue_id@ == queue_id@
                    &&& old(self).has_queue(queue_id@)
                    &&& !final(self).has_queue(queue_id@)
                    &&& exists|i: int|
                        0 <= i < old(self).data.queues@.len() && old(self).data.queues@[i] == q
                            && final(self).data.queues@ =~= old(self).data.queues@.remove(i)
                    &&& (old(self).data.snapshot_id < usize::MAX ==> final(self).data.snapshot_id
                        == old(self).data.snapshot_id + 1)
                },
                Option::None => !old(self).has_queue(queue_id@) && *final(self) == *old(self),
            },
    {
        match self.get(queue_id) {
            Option::Some(i) => {
                let ghost old_qs = self.data.queues@;
                proof {
                    assert(self.has_queue(queue_id@));
                }
                let q = self.data.queues.remove(i);
                self.bump_snapshot();
                proof {
                    assert forall|a: int, b: int|
                        0 <= a < b < self.data.queues@.len() implies (
                    #[trigger] self.data.queues@[a]).queue_id@ != (
                    #[trigger] self.data.queues@[b]).queue_id@ by {
                        let a0: int = if a < i {
                            a
                        } else {
                            a + 1
                        };
                        let b0: int = if b < i {
                            b
                        } else {
                            b + 1
                        };
                        assert(self.data.queues@[a] == old_qs[a0]);
                        assert(self.data.queues@[b] == old_qs[b0]);
                    }
                    assert forall|j: int|
                        0 <= j < self.data.queues@.len() implies (
                    #[trigger] self.data.queues@[j]).queue_id@ != queue_id@ by {
                        let j0: int = if j < i {
                            j
                        } else {
                            j + 1
                        };
                        assert(self.data.queues@[j] == old_qs[j0]);
                        let gi = i as int;
                        if j0 != gi {
                            assert(old_qs[if j0 < gi {
                                j0
                            } else {
                                gi
                            }].queue_id@ != old_qs[if j0 < gi {
                                gi
                            } else {
                                j0
                            }].queue_id@);
                        }
                    }
                    if final(self).has_queue(queue_id@) {
                        let j = choose|j: int|
                            0 <= j < self.data.queues@.len() && (
                            #[trigger] self.data.queues@[j]).queue_id@ == queue_id@;
                    }
                    assert(old_qs[i as int] == q);
                    assert(final(self).data.queues@ =~= old_qs.remove(i as int));
                }
                Option::Some(q)
            },
            Option::None => Option::None,
        }
    }

    /// The snapshot the persistence layer writes: one row per queue of a
    /// permanent discipline, carrying its name, kind and ready ranges, and
    /// nothing else.
    pub fn get_snapshot_to_persist(&self) -> (r: Vec<(String, QueueKind, Vec<IdRange>)>)
        requires
            self.wf(),
        ensures
            forall|k: int|
                0 <= k < r@.len() ==> (#[trigger] r@[k]).1 != QueueKind::DeleteOnDisconnect
                    && snapshot_row_of(*self, r@[k]),
            forall|i: int|
                0 <= i < self.data.queues@.len() && (#[trigger] self.data.queues@[i]).kind
                    != QueueKind::DeleteOnDisconnect ==> snapshot_lists(
                    r@,
                    self.data.queues@[i],
                ),
            // One row per queue: no name appears twice.
            forall|k1: int, k2: int|
                0 <= k1 < k2 < r@.len() ==> (#[trigger] r@[k1]).0@ != (#[trigger] r@[k2]).0@,
    {
        let mut out: Vec<(String, QueueKind, Vec<IdRange>)> = Vec::new();
        let ghost mut wit: Seq<int> = Seq::empty();
        let mut i: usize = 0;
        while i < self.data.queues.len()
            invariant
                self.wf(),
                0 <= i <= self.data.queues@.len(),
                wit.len() == out@.len(),
                forall|k: int| #![trigger wit[k]] 0 <= k < out@.len() ==> wit[k] < i,
                forall|k1: int, k2: int|
                    0 <= k1 < k2 < out@.len() ==> #[trigger] wit[k1] != #[trigger] wit[k2],
                forall|k: int|
                    #![trigger wit[k]]
                    0 <= k < out@.len() ==> {
                        let q = self.data.queues@[wit[k]];
                        &&& 0 <= wit[k] < self.data.queues@.len()
                        &&& out@[k].0@ == q.queue_id@
                        &&& out@[k].1 == q.kind
                        &&& out@[k].2@ =~= q.ready.ranges()
                        &&& q.kind != QueueKind::DeleteOnDisconnect
                    },
                forall|i2: int|
                    0 <= i2 < i && (#[trigger] self.data.queues@[i2]).kind
                        != QueueKind::DeleteOnDisconnect ==> snapshot_lists(
                        out@,
                        self.data.queues@[i2],
                    ),
            decreases self.data.queues@.len() - i,
        {
            match self.data.queues[i].get_snapshot_to_persist() {
                Option::Some(s) => {
                    let ghost prev = out@;
                    out.push((clone_string(&self.data.queues[i].queue_id), s.0, s.1));
                    proof {
                        wit = wit.push(i as int);
                        assert forall|i2: int|
                            0 <= i2 < i + 1 && (#[trigger] self.data.queues@[i2]).kind
                                != QueueKind::DeleteOnDisconnect implies snapshot_lists(
                            out@,
                            self.data.queues@[i2],
                        ) by {
                            if i2 < i {
                                let k = choose|k: int|
                                    0 <= k < prev.len() && (#[trigger] prev[k]).0@
                                        == self.data.queues@[i2].queue_id@ && prev[k].1
                                        == self.data.queues@[i2].kind && prev[k].2@
                                        =~= self.data.queues@[i2].ready.ranges();
                                assert(out@[k] == prev[k]);
                            } else {
                                assert(out@[out@.len() - 1].0@
                                    == self.data.queues@[i2].queue_id@);
                            }
                        }
                    }
                },
                Option::None => {},
            }
            i = i + 1;
        }
        proof {
            assert forall|k: int|
                0 <= k < out@.len() implies (#[trigger] out@[k]).1
                != QueueKind::DeleteOnDisconnect && snapshot_row_of(*self, out@[k]) by {
                let w = wit[k];
                assert(self.data.queues@[w].queue_id@ == out@[k].0@);
            }
            assert forall|k1: int, k2: int|
                0 <= k1 < k2 < out@.len() implies (#[trigger] out@[k1]).0@ != (
            #[trigger] out@[k2]).0@ by {
                let w1 = wit[k1];
                let w2 = wit[k2];
                assert(w1 != w2);
                assert(self.data.queues@[if w1 < w2 {
                    w1
                } else {
                    w2
                }].queue_id@ != self.data.queues@[if w1 < w2 {
                    w2
                } else {
                    w1
                }].queue_id@);
            }
        }
        out
    }

    /// Disconnect cleanup across every queue of the topic: the session's
    /// subscribers leave every queue and everything they held in flight is
    /// back in the ready set; queues of kind `DeleteOnDisconnect` are
    /// dropped once their last subscriber is gone, the others survive under
    /// their names.
    pub fn remove_subscribers_by_connection_id(&mut self, connection_id: SessionId)
        requires
            old(self).wf(),
        ensures
            final(self).wf(),
            // No subscriber of the session remains anywhere.
            forall|i: int, k: int|
                0 <= i < final(self).data.queues@.len() && 0 <= k < final(self).data.queues@[i].subscribers.subscribers@.len() ==> (#[trigger] final(self).data.queues@[i].subscribers.subscribers@[k]).session_id != connection_id,
            // DeleteOnDisconnect queues vanish with their last subscriber.
            forall|i: int|
                0 <= i < final(self).data.queues@.len() ==> !((#[trigger] final(self).data.queues@[i]).kind == QueueKind::DeleteOnDisconnect && final(self).data.queues@[i].subscribers.subscribers@.len() == 0),
            // Permanent queues survive under their names and kinds.
            forall|i: int|
                0 <= i < old(self).data.queues@.len() && (#[trigger] old(self).data.queues@[i]).kind != QueueKind::DeleteOnDisconnect ==> final(self).has_queue(old(self).data.queues@[i].queue_id@) && final(self).spec_queue(
                    old(self).data.queues@[i].queue_id@,
                ).kind == old(self).data.queues@[i].kind,
            // Nothing is lost without an ack: whatever the session held in a
            // surviving queue is back in that queue's ready set.
            forall|i: int, x: int|
                #![trigger session_held(old(self).data.queues@[i].subscribers, connection_id as int, x)]
                0 <= i < old(self).data.queues@.len() && old(self).data.queues@[i].kind
                    != QueueKind::DeleteOnDisconnect && session_held(
                    old(self).data.queues@[i].subscribers,
                    connection_id as int,
                    x,
                ) ==> final(self).spec_queue(old(self).data.queues@[i].queue_id@).ready.covers(x),
            // And nothing else a surviving queue owed is lost either.
            forall|i: int, x: int|
                #![trigger old(self).data.queues@[i].owes(x)]
                0 <= i < old(self).data.queues@.len() && old(self).data.queues@[i].kind
                    != QueueKind::DeleteOnDisconnect && old(self).data.queues@[i].owes(x)
                    ==> final(self).spec_queue(old(self).data.queues@[i].queue_id@).owes(x),
    {
        let ghost old_l = old(self).data.queues@;
        // First pass: clean every queue in place.
        let mut i: usize = 0;
        while i < self.data.queues.len()
            invariant
                self.wf(),
                old(self).wf(),
                old_l == old(self).data.queues@,
                self.data.queues@.len() == old_l.len(),
                self.data.snapshot_id == old(self).data.snapshot_id,
                0 <= i <= self.data.queues@.len(),
                forall|k: int|
                    0 <= k < old_l.len() ==> (#[trigger] self.data.queues@[k]).queue_id@
                        == old_l[k].queue_id@ && self.data.queues@[k].kind == old_l[k].kind,
                forall|k: int|
                    i <= k < old_l.len() ==> (#[trigger] self.data.queues@[k]) == old_l[k],
                forall|k: int, s2: int|
                    0 <= k < i && 0 <= s2 < self.data.queues@[k].subscribers.subscribers@.len()
                        ==> (#[trigger] self.data.queues@[k].subscribers.subscribers@[s2]).session_id
                        != connection_id,
                forall|k: int, x: int|
                    #![trigger session_held(old_l[k].subscribers, connection_id as int, x)]
                    0 <= k < i && session_held(old_l[k].subscribers, connection_id as int, x)
                        ==> self.data.queues@[k].ready.covers(x),
                forall|k: int, x: int|
                    #![trigger old_l[k].owes(x)]
                    0 <= k < i && old_l[k].owes(x) ==> self.data.queues@[k].owes(x),
            decreases self.data.queues@.len() - i,
        {
            let ghost pre = self.data.queues@;
            let mut tmp = TopicQueue::new(String::new(), String::new(), QueueKind::Permanent);
            core::mem::swap(&mut tmp, &mut self.data.queues[i]);
            proof {
                assert(tmp == old_l[i as int]);
            }
            tmp.remove_subscribers_by_session(connection_id);
            let ghost tmp_after = tmp;
            core::mem::swap(&mut tmp, &mut self.data.queues[i]);
            proof {
                assert(self.data.queues@[i as int] == tmp_after);
                assert(self.data.queues@ =~= pre.update(i as int, tmp_after));
                assert forall|a: int, b: int|
                    0 <= a < b < self.data.queues@.len() implies (
                #[trigger] self.data.queues@[a]).queue_id@ != (
                #[trigger] self.data.queues@[b]).queue_id@ by {
                    assert(self.data.queues@[a].queue_id@ == old_l[a].queue_id@);
                    assert(self.data.queues@[b].queue_id@ == old_l[b].queue_id@);
                    assert(old(self).data.queues@[a].queue_id@
                        != old(self).data.queues@[b].queue_id@);
                }
                assert forall|k: int, x: int|
                    #![trigger old_l[k].owes(x)]
                    0 <= k < i + 1 && old_l[k].owes(x) implies self.data.queues@[k].owes(x) by {
                    if k == i {
                        if old_l[k].ready.covers(x) {
                            assert(tmp_after.ready.covers(x));
                        } else {
                            assert(old_l[k].subscribers.in_flight(x));
                            assert(tmp_after.owes(x));
                        }
                    }
                }
            }
            i = i + 1;
        }
        let ghost q1 = self.data.queues@;
        // Second pass: drop DeleteOnDisconnect queues left without a
        // subscriber.
        let mut j: usize = 0;
        while j < self.data.queues.len()
            invariant
                self.wf(),
                0 <= j <= self.data.queues@.len(),
                forall|k: int|
                    0 <= k < self.data.queues@.len() ==> in_queue_seq(
                        q1,
                        #[trigger] self.data.queues@[k],
                    ),
                forall|k: int|
                    0 <= k < q1.len() && !((#[trigger] q1[k]).kind
                        == QueueKind::DeleteOnDisconnect && q1[k].subscribers.subscribers@.len()
                        == 0) ==> in_queue_seq(self.data.queues@, q1[k]),
                forall|k: int|
                    0 <= k < j ==> !((#[trigger] self.data.queues@[k]).kind
                        == QueueKind::DeleteOnDisconnect
                        && self.data.queues@[k].subscribers.subscribers@.len() == 0),
            decreases self.data.queues@.len() - j,
        {
            let drop_it = matches!(self.data.queues[j].kind, QueueKind::DeleteOnDisconnect)
                && self.data.queues[j].subscribers.len() == 0;
            if drop_it {
                let ghost pre2 = self.data.queues@;
                let removed = self.data.queues.remove(j);
                proof {
                    assert forall|a: int, b: int|
                        0 <= a < b < self.data.queues@.len() implies (
                    #[trigger] self.data.queues@[a]).queue_id@ != (
                    #[trigger] self.data.queues@[b]).queue_id@ by {
                        let gj = j as int;
                        let a0: int = if a < gj {
                            a
                        } else {
                            a + 1
                        };
                        let b0: int = if b < gj {
                            b
                        } else {
                            b + 1
                        };
                        assert(self.data.queues@[a] == pre2[a0]);
                        assert(self.data.queues@[b] == pre2[b0]);
                    }
                    assert forall|k: int|
                        0 <= k < self.data.queues@.len() implies in_queue_seq(
                        q1,
                        #[trigger] self.data.queues@[k],
                    ) by {
                        let gj = j as int;
                        let k0: int = if k < gj {
                            k
                        } else {
                            k + 1
                        };
                        assert(self.data.queues@[k] == pre2[k0]);
                        assert(in_queue_seq(q1, pre2[k0]));
                    }
                    assert forall|k: int|
                        0 <= k < q1.len() && !((#[trigger] q1[k]).kind
                            == QueueKind::DeleteOnDisconnect
                            && q1[k].subscribers.subscribers@.len() == 0) implies in_queue_seq(
                        self.data.queues@,
                        q1[k],
                    ) by {
                        let gj = j as int;
                        let p = choose|p: int| 0 <= p < pre2.len() && pre2[p] == q1[k];
                        assert(pre2[gj] == removed);
                        assert(removed.kind == QueueKind::DeleteOnDisconnect
                            && removed.subscribers.subscribers@.len() == 0);
                        assert(p != gj);
                        let p2: int = if p < gj {
                            p
                        } else {
                            p - 1
                        };
                        assert(self.data.queues@[p2] == q1[k]);
                    }
                }
            } else {
                j = j + 1;
            }
        }
        self.bump_snapshot();
        proof {
            assert forall|i2: int, k: int|
                0 <= i2 < final(self).data.queues@.len() && 0 <= k < final(self).data.queues@[i2].subscribers.subscribers@.len() implies (#[trigger] final(self).data.queues@[i2].subscribers.subscribers@[k]).session_id != connection_id by {
                assert(in_queue_seq(q1, self.data.queues@[i2]));
                let p = choose|p: int| 0 <= p < q1.len() && q1[p] == self.data.queues@[i2];
                assert(q1[p].subscribers.subscribers@[k].session_id != connection_id);
            }
            assert forall|i2: int|
                0 <= i2 < old_l.len() && (#[trigger] old_l[i2]).kind
                    != QueueKind::DeleteOnDisconnect implies final(self).has_queue(
                old_l[i2].queue_id@,
            ) && final(self).spec_queue(old_l[i2].queue_id@) == q1[i2] by {
                assert(q1[i2].kind == old_l[i2].kind);
                assert(in_queue_seq(self.data.queues@, q1[i2]));
                let p = choose|p: int|
                    0 <= p < self.data.queues@.len() && self.data.queues@[p] == q1[i2];
                self.lemma_queue_at(p);
                assert(q1[i2].queue_id@ == old_l[i2].queue_id@);
            }
            assert forall|i2: int, x: int|
                #![trigger session_held(old_l[i2].subscribers, connection_id as int, x)]
                0 <= i2 < old_l.len() && old_l[i2].kind != QueueKind::DeleteOnDisconnect
                    && session_held(
                    old_l[i2].subscribers,
                    connection_id as int,
                    x,
                ) implies final(self).spec_queue(old_l[i2].queue_id@).ready.covers(x) by {
                assert(q1[i2].ready.covers(x));
            }
            assert forall|i2: int, x: int|
                #![trigger old_l[i2].owes(x)]
                0 <= i2 < old_l.len() && old_l[i2].kind != QueueKind::DeleteOnDisconnect
                    && old_l[i2].owes(x) implies final(self).spec_queue(
                old_l[i2].queue_id@,
            ).owes(x) by {
                assert(q1[i2].owes(x));
            }
        }
    }

    /// The smallest id any queue of the topic still owes: the eviction floor
    /// for page collection.
    pub fn get_min_message_id(&self) -> (r: Option<MessageId>)
        requires
            self.wf(),
        ensures
            match r {
                Option::None => forall|x: int| !self.any_owes(x),
                Option::Some(m) => self.any_owes(m as int) && forall|x: int|
                    self.any_owes(x) ==> m <= x,
            },
    {
        let mut result: Option<MessageId> = Option::None;
        let mut i: usize = 0;
        while i < self.data.queues.len()
            invariant
                self.wf(),
                0 <= i <= self.data.queues@.len(),
                match result {
                    Option::None => forall|x: int| !partial_any_owes(*self, i as int, x),
                    Option::Some(m) => partial_any_owes(*self, i as int, m as int) && forall|
                        x: int,
                    |
                        partial_any_owes(*self, i as int, x) ==> m <= x,
                },
            decreases self.data.queues@.len() - i,
        {
            let ghost prev = result;
            let q_min = self.data.queues[i].get_min_message_id();
            match q_min {
                Option::Some(m2) => {
                    let keep = match result {
                        Option::Some(m1) => m1 <= m2,
                        Option::None => false,
                    };
                    if !keep {
                        result = Option::Some(m2);
                    }
                },
                Option::None => {},
            }
            proof {
                let q = self.data.queues@[i as int];
                assert forall|x: int|
                    partial_any_owes(*self, i as int, x) implies partial_any_owes(
                    *self,
                    i + 1,
                    x,
                ) by {
                    let k = choose|k: int|
                        0 <= k < i && k < self.data.queues@.len() && (
                        #[trigger] self.data.queues@[k]).owes(x);
                    assert(0 <= k < i + 1 && k < self.data.queues@.len()
                        && self.data.queues@[k].owes(x));
                }
                assert forall|x: int|
                    partial_any_owes(*self, i + 1, x) implies (partial_any_owes(*self, i as int, x)
                        || q.owes(x)) by {
                    if !partial_any_owes(*self, i as int, x) {
                        let k = choose|k: int|
                            0 <= k < i + 1 && k < self.data.queues@.len() && (
                            #[trigger] self.data.queues@[k]).owes(x);
                        assert(k == i);
                    }
                }
                let r2 = result;
                match r2 {
                    Option::None => {
                        assert forall|x: int| !(#[trigger] partial_any_owes(*self, i + 1, x)) by {
                            if partial_any_owes(*self, i + 1, x) {
                                assert(partial_any_owes(*self, i as int, x) || q.owes(x));
                            }
                        }
                    },
                    Option::Some(m) => {
                        assert(partial_any_owes(*self, i + 1, m as int)) by {
                            match q_min {
                                Option::Some(m2) => {
                                    if m == m2 {
                                        assert(q.owes(m2 as int));
                                        assert(self.data.queues@[i as int].owes(m2 as int));
                                    } else {
                                        assert(partial_any_owes(*self, i as int, m as int));
                                    }
                                },
                                Option::None => {
                                    assert(partial_any_owes(*self, i as int, m as int));
                                },
                            }
                        }
                        assert forall|x: int| #[trigger] partial_any_owes(*self, i + 1, x) implies m
                            <= x by {
                            assert(partial_any_owes(*self, i as int, x) || q.owes(x));
                        }
                    },
                }
            }
            i = i + 1;
        }
        proof {
            assert forall|x: int|
                self.any_owes(x) == partial_any_owes(
                    *self,
                    self.data.queues@.len() as int,
                    x,
                ) by {}
        }
        result
    }
}

/// The store answers a size probe for `id` with exactly this content size.
pub open spec fn stored_in(pages: PageStore, id: int, len: int) -> bool {
    pages.has_page(spec_page_of(id)) && pages.spec_page(spec_page_of(id)).spec_message_size(id)
        == crate::pages::MessageSize::MessageIsReady(len as u64)
}

/// Whether the session is recorded as an active publisher of the topic.
pub open spec fn publisher_active(t: TopicData, session_id: SessionId) -> bool {
    exists|k: int|
        0 <= k < t.publishers@.len() && (#[trigger] t.publishers@[k]).0 == session_id
            && t.publishers@[k].1
}

/// The same over a mathematical session id, for frame conditions.
pub open spec fn publisher_active_of(t: TopicData, session_id: int) -> bool {
    exists|k: int|
        0 <= k < t.publishers@.len() && (#[trigger] t.publishers@[k]).0 == session_id
            && t.publishers@[k].1
}

/// Whether this exact queue value occurs in the sequence.
pub open spec fn in_queue_seq(s: Seq<TopicQueue>, q: TopicQueue) -> bool {
    exists|j: int| 0 <= j < s.len() && s[j] == q
}

/// A snapshot row describing this queue stands somewhere in the rows.
pub open spec fn snapshot_lists(r: Seq<(String, QueueKind, Vec<IdRange>)>, q: TopicQueue) -> bool {
    exists|k: int|
        0 <= k < r.len() && (#[trigger] r[k]).0@ == q.queue_id@ && r[k].1 == q.kind && r[k].2@
            =~= q.ready.ranges()
}

/// The row describes some queue of the list.
pub open spec fn snapshot_row_of(l: TopicQueuesList, row: (String, QueueKind, Vec<IdRange>)) -> bool {
    exists|i: int|
        0 <= i < l.data.queues@.len() && (#[trigger] l.data.queues@[i]).queue_id@ == row.0@
            && l.data.queues@[i].kind == row.1 && l.data.queues@[i].ready.ranges() =~= row.2@
}

/// What the first `i` queues owe.
pub open spec fn partial_any_owes(l: TopicQueuesList, i: int, x: int) -> bool {
    exists|k: int|
        0 <= k < i && k < l.data.queues@.len() && (#[trigger] l.data.queues@[k]).owes(x)
}

/// The mutable state of one topic.
pub struct TopicData {
    pub topic_id: String,
    pub message_id: MessageId,
    pub pages: PageStore,
    pub queues: TopicQueuesList,
    pub publishers: Vec<(SessionId, bool)>,
    pub metrics: TopicMetrics,
    pub immediately_persist_is_charged: bool,
}

impl TopicData {
    pub open spec fn wf(self) -> bool {
        &&& self.pages.wf()
        &&& self.queues.wf()
        &&& self.metrics.wf()
        &&& 0 <= self.message_id <= i64::MAX - PAGE_WIDTH
        &&& forall|x: int| #[trigger] self.queues.any_owes(x) ==> 0 <= x < self.message_id
    }

    pub fn new(topic_id: String, starting_message_id: MessageId) -> (r: TopicData)
        requires
            0 <= starting_message_id <= i64::MAX - PAGE_WIDTH,
        ensures
            r.wf(),
            r.topic_id == topic_id,
            r.message_id == starting_message_id,
            r.queues.data.queues@.len() == 0,
    {
        let r = TopicData {
            topic_id,
            message_id: starting_message_id,
            pages: PageStore::new(),
            queues: TopicQueuesList::new(),
            publishers: Vec::new(),
            metrics: TopicMetrics::new(),
            immediately_persist_is_charged: false,
        };
        r
    }

    /// Charges the immediate-persist flag for a publish that asked for it.
    /// Returns whether this call armed it: only the first publish between
    /// two flushes schedules the persister, the rest ride along.
    pub fn charge_immediate_persist(&mut self) -> (r: bool)
        requires
            old(self).wf(),
        ensures
            final(self).wf(),
            r == !old(self).immediately_persist_is_charged,
            *final(self) == (TopicData { immediately_persist_is_charged: true, ..*old(self) }),
    {
        let prev = self.immediately_persist_is_charged;
        self.immediately_persist_is_charged = true;
        !prev
    }

    /// Clears the flag once the persister has run.
    pub fn discharge_immediate_persist(&mut self)
        requires
            old(self).wf(),
        ensures
            final(self).wf(),
            *final(self) == (TopicData { immediately_persist_is_charged: false, ..*old(self) }),
    {
        self.immediately_persist_is_charged = false;
    }

    /// Marks the session as an active publisher of this topic.
    pub fn set_publisher_as_active(&mut self, session_id: SessionId)
        requires
            old(self).wf(),
        ensures
            final(self).wf(),
            final(self).message_id == old(self).message_id,
            final(self).queues == old(self).queues,
            final(self).pages == old(self).pages,
            final(self).topic_id == old(self).topic_id,
            final(self).metrics == old(self).metrics,
            publisher_active(*final(self), session_id),
            forall|s: int|
                s != session_id ==> publisher_active_of(*final(self), s) == publisher_active_of(
                    *old(self),
                    s,
                ),
    {
        let mut i: usize = 0;
        let n = self.publishers.len();
        while i < n
            invariant
                0 <= i <= n,
                n == self.publishers@.len(),
                *self == (TopicData { publishers: self.publishers, ..*old(self) }),
                *self == *old(self),
                old(self).wf(),
                forall|k: int| 0 <= k < i ==> (#[trigger] self.publishers@[k]).0 != session_id,
            decreases n - i,
        {
            if self.publishers[i].0 == session_id {
                let ghost prev = self.publishers@;
                self.publishers[i] = (session_id, true);
                proof {
                    assert(self.publishers@[i as int] == (session_id, true));
                    assert forall|s: int|
                        s != session_id implies publisher_active_of(*final(self), s)
                        == publisher_active_of(*old(self), s) by {
                        if publisher_active_of(*self, s) {
                            let k = choose|k: int|
                                0 <= k < self.publishers@.len() && (
                                #[trigger] self.publishers@[k]).0 == s && self.publishers@[k].1;
                            assert(prev[k] == self.publishers@[k]);
                        }
                        if publisher_active_of(*old(self), s) {
                            let k = choose|k: int|
                                0 <= k < prev.len() && (#[trigger] prev[k]).0 == s && prev[k].1;
                            assert(self.publishers@[k] == prev[k]);
                        }
                    }
                }
                return ;
            }
            i = i + 1;
        }
        let ghost prev = self.publishers@;
        self.publishers.push((session_id, true));
        proof {
            assert(self.publishers@[self.publishers@.len() - 1] == (session_id, true));
            assert forall|s: int|
                s != session_id implies publisher_active_of(*final(self), s)
                == publisher_active_of(*old(self), s) by {
                if publisher_active_of(*self, s) {
                    let k = choose|k: int|
                        0 <= k < self.publishers@.len() && (#[trigger] self.publishers@[k]).0 == s
                            && self.publishers@[k].1;
                    assert(k < prev.len());
                    assert(prev[k] == self.publishers@[k]);
                }
                if publisher_active_of(*old(self), s) {
                    let k = choose|k: int|
                        0 <= k < prev.len() && (#[trigger] prev[k]).0 == s && prev[k].1;
                    assert(self.publishers@[k] == prev[k]);
                }
            }
        }
    }

    /// Assigns strictly increasing ids to a batch of published messages,
    /// stores them in the page cache, and makes the id range available to
    /// every queue of the topic. Returns the first assigned id and the count.
    pub fn publish_messages(
        &mut self,
        session_id: SessionId,
        messages: Vec<(Vec<u8>, Vec<(String, String)>)>,
        created_at: i64,
    ) -> (r: (MessageId, usize, bool))
        requires
            old(self).wf(),
            old(self).message_id + messages@.len() <= i64::MAX - PAGE_WIDTH,
            messages@.len() > 0,
        ensures
            final(self).wf(),
            // Monotonic ids: this batch starts exactly where the counter
            // stood and advances it by the batch size, so successive calls
            // hand out strictly increasing ids.
            r.0 == old(self).message_id,
            r.1 == messages@.len(),
            // Unless a page's byte total overflowed (surfaced in `r.2`),
            // every message of the batch stands in its page, probe-ready
            // with its exact content size.
            r.2 ==> forall|j: int|
                0 <= j < messages@.len() ==> stored_in(
                    final(self).pages,
                    r.0 + j,
                    (#[trigger] messages@[j]).0.len() as int,
                ),
            final(self).message_id == old(self).message_id + messages@.len(),
            final(self).topic_id == old(self).topic_id,
            // Every queue that existed now owes exactly the old ids plus the
            // new range.
            forall|i: int|
                0 <= i < old(self).queues.data.queues@.len() ==> {
                    let oq = #[trigger] old(self).queues.data.queues@[i];
                    let nq = final(self).queues.data.queues@[i];
                    &&& final(self).queues.data.queues@.len() == old(self).queues.data.queues@.len()
                    &&& nq.queue_id == oq.queue_id
                    &&& forall|x: int|
                        #![trigger nq.ready.covers(x)]
                        nq.ready.covers(x) <==> (oq.ready.covers(x) || r.0 <= x < r.0 + r.1)
                    &&& nq.subscribers == oq.subscribers
                },
    {
        let ghost old_self = *old(self);
        let ghost orig = messages@;
        let first_id = self.message_id;
        let count = messages.len();
        let mut messages = messages;
        let mut all_stored = true;
        let mut k: usize = 0;
        // File each message into the page cache under its assigned id.
        while k < count
            invariant
                0 <= k <= count,
                0 < count,
                messages@.len() + k == count,
                messages@ =~= orig.take(count - k),
                orig.len() == count,
                first_id == old_self.message_id,
                self.pages.wf(),
                *self == (TopicData { pages: self.pages, ..old_self }),
                old_self.wf(),
                old_self.message_id + count <= i64::MAX - PAGE_WIDTH,
                all_stored ==> forall|j: int|
                    count - k <= j < count ==> stored_in(
                        self.pages,
                        first_id + j,
                        (#[trigger] orig[j]).0.len() as int,
                    ),
            decreases count - k,
        {
            let (content, headers) = match messages.pop() {
                Option::Some(m) => m,
                Option::None => {
                    proof {
                        assert(false);
                    }
                    (Vec::new(), Vec::new())
                },
            };
            // Batch order within the page store does not matter: each
            // message lands in its own slot.
            let id = first_id + ((count - 1 - k) as i64);
            proof {
                crate::ids::lemma_page_of_in_range(id as int);
                assert(Page::page_id_wf(spec_page_of(id as int))) by {
                    let w = PAGE_WIDTH as int;
                    let gid = id as int;
                    assert((gid / w) * w <= gid) by (nonlinear_arith)
                        requires
                            w == 1000,
                            0 <= gid,
                    ;
                    assert(spec_page_of(gid) * w + w <= i64::MAX);
                }
            }
            let ghost pre_pages = self.pages;
            let ok = self.pages.insert_message(
                MessageContent { id, content, headers, created_at },
            );
            all_stored = all_stored && ok;
            proof {
                let gj = (count - 1 - k) as int;
                assert(messages@.push(orig[gj]) =~= orig.take(count - k));
                assert(orig.take(count - k).last() == orig[gj]);
                if all_stored {
                    assert(stored_in(self.pages, first_id + gj, orig[gj].0.len() as int));
                    assert forall|j: int|
                        count - (k + 1) <= j < count implies stored_in(
                        self.pages,
                        first_id + j,
                        (#[trigger] orig[j]).0.len() as int,
                    ) by {
                        if j > gj {
                            assert(stored_in(pre_pages, first_id + j, orig[j].0.len() as int));
                            let xid = first_id + j;
                            crate::ids::lemma_page_of_in_range(xid);
                            if spec_page_of(xid) != spec_page_of(id as int) {
                                assert(self.pages.spec_page(spec_page_of(xid))
                                    == pre_pages.spec_page(spec_page_of(xid)));
                            } else {
                                assert(pre_pages.spec_page(spec_page_of(id as int)).state
                                    == PageState::Ready);
                                assert(xid != id);
                            }
                        }
                    }
                }
            }
            k = k + 1;
        }
        // Open the new range to every queue.
        let last_id = first_id + (count as i64) - 1;
        let mut qi: usize = 0;
        let ghost mid_self = *self;
        while qi < self.queues.data.queues.len()
            invariant
                0 <= qi <= self.queues.data.queues@.len(),
                self.queues.data.queues@.len() == mid_self.queues.data.queues@.len(),
                *self == (TopicData { queues: self.queues, ..mid_self }),
                self.queues.data.snapshot_id == mid_self.queues.data.snapshot_id,
                mid_self.queues.wf(),
                self.queues.wf(),
                first_id == old_self.message_id,
                last_id == first_id + count - 1,
                0 <= first_id,
                first_id + count <= i64::MAX - PAGE_WIDTH,
                count > 0,
                forall|x: int| #[trigger] mid_self.queues.any_owes(x) ==> 0 <= x < first_id,
                forall|x: int, i: int|
                    #![trigger self.queues.data.queues@[i].owes(x)]
                    0 <= i < qi ==> (self.queues.data.queues@[i].owes(x) ==> 0 <= x < first_id
                        + count),
                forall|i: int|
                    qi <= i < self.queues.data.queues@.len() ==> (
                    #[trigger] self.queues.data.queues@[i]) == mid_self.queues.data.queues@[i],
                forall|i: int|
                    0 <= i < qi ==> {
                        let oq = #[trigger] mid_self.queues.data.queues@[i];
                        let nq = self.queues.data.queues@[i];
                        &&& nq.queue_id == oq.queue_id
                        &&& nq.wf()
                        &&& forall|x: int|
                            #![trigger nq.ready.covers(x)]
                            nq.ready.covers(x) <==> (oq.ready.covers(x) || first_id <= x
                                <= last_id)
                        &&& nq.subscribers == oq.subscribers
                        &&& forall|x: int| #[trigger] nq.owes(x) ==> 0 <= x < first_id + count
                    },
            decreases self.queues.data.queues@.len() - qi,
        {
            let ghost pre_qs = self.queues.data.queues@;
            let mut tmp = TopicQueue::new(String::new(), String::new(), QueueKind::Permanent);
            core::mem::swap(&mut tmp, &mut self.queues.data.queues[qi]);
            proof {
                assert(tmp == mid_self.queues.data.queues@[qi as int]);
                assert forall|x: int| #[trigger] tmp.owes(x) implies x < first_id by {
                    assert(mid_self.queues.any_owes(x));
                }
                tmp.ready.lemma_empty_iff_covers_nothing();
            }
            tmp.enqueue_range(first_id, last_id);
            let ghost tmp_after = tmp;
            core::mem::swap(&mut tmp, &mut self.queues.data.queues[qi]);
            proof {
                assert(self.queues.data.queues@[qi as int] == tmp_after);
                assert(self.queues.data.queues@ =~= pre_qs.update(qi as int, tmp_after));
                assert(tmp_after.queue_id == mid_self.queues.data.queues@[qi as int].queue_id);
                assert(pre_qs[qi as int] == mid_self.queues.data.queues@[qi as int]);
                assert(tmp_after.subscribers == mid_self.queues.data.queues@[qi as int].subscribers);
                assert forall|a: int, b: int|
                    0 <= a < b < self.queues.data.queues@.len() implies (
                #[trigger] self.queues.data.queues@[a]).queue_id@ != (
                #[trigger] self.queues.data.queues@[b]).queue_id@ by {
                    assert(self.queues.data.queues@[a].queue_id@ == pre_qs[a].queue_id@);
                    assert(self.queues.data.queues@[b].queue_id@ == pre_qs[b].queue_id@);
                }
                let nq = self.queues.data.queues@[qi as int];
                assert forall|x: int| #[trigger] nq.owes(x) implies 0 <= x < first_id + count by {
                    if nq.ready.covers(x) {
                        if !(first_id <= x <= last_id) {
                            assert(mid_self.queues.data.queues@[qi as int].ready.covers(x));
                            assert(mid_self.queues.data.queues@[qi as int].owes(x));
                            assert(mid_self.queues.any_owes(x));
                        }
                    } else {
                        assert(nq.subscribers.in_flight(x));
                        assert(mid_self.queues.data.queues@[qi as int].owes(x));
                        assert(mid_self.queues.any_owes(x));
                    }
                }
            }
            qi = qi + 1;
        }
        proof {
            if all_stored {
                assert forall|j: int|
                    0 <= j < count implies stored_in(
                    self.pages,
                    first_id + j,
                    (#[trigger] orig[j]).0.len() as int,
                ) by {}
            }
        }
        self.message_id = first_id + (count as i64);
        self.metrics.update_topic_metrics(count);
        proof {
            assert forall|x: int| #[trigger] self.queues.any_owes(x) implies 0 <= x
                < self.message_id by {
                let k2 = choose|k2: int|
                    0 <= k2 < self.queues.data.queues@.len() && (
                    #[trigger] self.queues.data.queues@[k2]).owes(x);
                assert(self.queues.data.queues@[k2].owes(x));
            }
        }
        proof {
            if all_stored {
                assert forall|j: int|
                    0 <= j < count implies stored_in(
                    final(self).pages,
                    first_id + j,
                    (#[trigger] orig[j]).0.len() as int,
                ) by {
                    assert(stored_in(mid_self.pages, first_id + j, orig[j].0.len() as int));
                    assert(self.pages == mid_self.pages);
                }
            }
        }
        (first_id, count, all_stored)
    }

    /// Evicts loaded pages below the smallest owed id. After collection no
    /// fully loaded page under the floor remains, and the page of every id a
    /// queue still owes survives exactly as it was.
    pub fn gc_message_pages(&mut self)
        requires
            old(self).wf(),
        ensures
            final(self).wf(),
            final(self).queues == old(self).queues,
            final(self).message_id == old(self).message_id,
            // Nothing stays loaded below the floor: a surviving loaded page
            // covers ids at or above the page of some still-owed id.
            forall|i: int|
                0 <= i < final(self).pages.pages@.len() && (#[trigger] final(self).pages.pages@[i]).state == PageState::Ready ==> exists|x: int|
                    old(self).queues.any_owes(x) && spec_page_of(x) <= final(self).pages.pages@[i].page_id,
            // Every owed id keeps its page.
            forall|x: int|
                #![trigger old(self).queues.any_owes(x)]
                old(self).queues.any_owes(x) && old(self).pages.has_page(spec_page_of(x)) ==> final(self).pages.has_page(spec_page_of(x)) && final(self).pages.spec_page(spec_page_of(x))
                    == old(self).pages.spec_page(spec_page_of(x)),
    {
        let min = self.queues.get_min_message_id();
        match min {
            Option::Some(m) => {
                let floor = crate::ids::get_page_id(m);
                self.pages.gc(floor);
                proof {
                    assert forall|x: int|
                        old(self).queues.any_owes(x) && old(self).pages.has_page(
                            spec_page_of(x),
                        ) implies final(self).pages.has_page(spec_page_of(x)) && final(self).pages.spec_page(spec_page_of(x)) == old(self).pages.spec_page(
                        spec_page_of(x),
                    ) by {
                        assert(m <= x);
                        crate::ids::lemma_page_of_monotonic(m as int, x);
                        assert(spec_page_of(x) >= floor);
                    }
                    assert forall|i: int|
                        0 <= i < final(self).pages.pages@.len() && (#[trigger] final(self).pages.pages@[i]).state == PageState::Ready implies exists|x: int|
                        old(self).queues.any_owes(x) && spec_page_of(x) <= final(self).pages.pages@[i].page_id by {
                        assert(self.pages.pages@[i].page_id >= floor);
                        assert(old(self).queues.any_owes(m as int) && spec_page_of(m as int)
                            <= self.pages.pages@[i].page_id);
                    }
                }
            },
            Option::None => {
                // Nothing is owed: every loaded page may go.
                self.pages.gc(i64::MAX);
                proof {
                    assert forall|i: int|
                        0 <= i < final(self).pages.pages@.len() implies (#[trigger] final(self).pages.pages@[i]).state != PageState::Ready by {
                        let p = self.pages.pages@[i];
                        if p.state == PageState::Ready {
                            assert(p.wf());
                            let w = PAGE_WIDTH as int;
                            assert(p.page_id * w >= p.page_id) by (nonlinear_arith)
                                requires
                                    w == 1000,
                                    p.page_id >= 0,
                            ;
                            assert(p.page_id < i64::MAX);
                        }
                    }
                }
            },
        }
    }
}

} // verus!
