//! Per-topic publish metrics: per-second counters that a timer rolls over
//! once a second, and a bounded history of the rolled-over values.
use vstd::prelude::*;

verus! {

/// How many one-second samples the publish history keeps.
pub const METRICS_HISTORY_LEN: usize = 120;

/// A counter accumulating within the current second.
pub struct MetricOneSecond {
    pub value: usize,
}

impl MetricOneSecond {
    pub fn new() -> (r: Self)
        ensures
            r.value == 0,
    {
        MetricOneSecond { value: 0 }
    }

    /// Adds to the running count, holding at the top of the range rather
    /// than wrapping.
    pub fn increase(&mut self, delta: usize)
        ensures
            final(self).value == (if old(self).value + delta <= usize::MAX {
                old(self).value + delta
            } else {
                usize::MAX as int
            }),
    {
        if self.value <= usize::MAX - delta {
            self.value = self.value + delta;
        } else {
            self.value = usize::MAX;
        }
    }

    /// Closes the second: hands out the count and starts the next one at
    /// zero.
    pub fn get_and_reset(&mut self) -> (r: usize)
        ensures
            r == old(self).value,
            final(self).value == 0,
    {
        let result = self.value;
        self.value = 0;
        result
    }
}

/// The last rolled-over samples, oldest first, never more than
/// `METRICS_HISTORY_LEN`.
pub struct MetricsHistory {
    pub items: Vec<i32>,
}

impl MetricsHistory {
    pub open spec fn wf(self) -> bool {
        self.items@.len() <= METRICS_HISTORY_LEN
    }

    pub fn new() -> (r: Self)
        ensures
            r.wf(),
            r.items@.len() == 0,
    {
        MetricsHistory { items: Vec::new() }
    }

    /// Appends a sample, dropping the oldest once the window is full.
    pub fn put(&mut self, value: i32)
        requires
            old(self).wf(),
        ensures
            final(self).wf(),
            final(self).items@.len() > 0,
            final(self).items@.last() == value,
            old(self).items@.len() < METRICS_HISTORY_LEN ==> final(self).items@ =~= old(
                self,
            ).items@.push(value),
            old(self).items@.len() >= METRICS_HISTORY_LEN ==> final(self).items@ =~= old(
                self,
            ).items@.drop_first().push(value),
    {
        if self.items.len() >= METRICS_HISTORY_LEN {
            self.items.remove(0);
        }
        self.items.push(value);
    }

    /// The samples, oldest first.
    pub fn get(&self) -> (r: Vec<i32>)
        ensures
            r@ =~= self.items@,
    {
        let mut out: Vec<i32> = Vec::new();
        let mut i: usize = 0;
        while i < self.items.len()
            invariant
                0 <= i <= self.items@.len(),
                out@ =~= self.items@.take(i as int),
            decreases self.items@.len() - i,
        {
            out.push(self.items[i]);
            i = i + 1;
        }
        proof {
            assert(self.items@.take(self.items@.len() as int) =~= self.items@);
        }
        out
    }
}

/// Publish throughput of one topic, as the status page reports it.
pub struct TopicMetrics {
    pub messages_per_second_going: MetricOneSecond,
    pub packets_per_second_going: MetricOneSecond,
    pub persist_queue_size: i64,
    pub messages_per_second: usize,
    pub packets_per_second: usize,
    pub publish_history: MetricsHistory,
}

impl TopicMetrics {
    pub open spec fn wf(self) -> bool {
        self.publish_history.wf()
    }

    pub fn new() -> (r: Self)
        ensures
            r.wf(),
            r.messages_per_second_going.value == 0,
            r.packets_per_second_going.value == 0,
            r.messages_per_second == 0,
            r.packets_per_second == 0,
            r.persist_queue_size == 0,
            r.publish_history.items@.len() == 0,
    {
        TopicMetrics {
            messages_per_second_going: MetricOneSecond::new(),
            packets_per_second_going: MetricOneSecond::new(),
            messages_per_second: 0,
            packets_per_second: 0,
            publish_history: MetricsHistory::new(),
            persist_queue_size: 0,
        }
    }

    /// Accounts one publish packet carrying `new_messages_count` messages.
    pub fn update_topic_metrics(&mut self, new_messages_count: usize)
        requires
            old(self).wf(),
        ensures
            final(self).wf(),
            final(self).messages_per_second_going.value == (if old(
                self,
            ).messages_per_second_going.value + new_messages_count <= usize::MAX {
                old(self).messages_per_second_going.value + new_messages_count
            } else {
                usize::MAX as int
            }),
            final(self).packets_per_second_going.value == (if old(
                self,
            ).packets_per_second_going.value + 1 <= usize::MAX {
                old(self).packets_per_second_going.value + 1
            } else {
                usize::MAX as int
            }),
            final(self).messages_per_second == old(self).messages_per_second,
            final(self).packets_per_second == old(self).packets_per_second,
            final(self).publish_history == old(self).publish_history,
    {
        self.messages_per_second_going.increase(new_messages_count);
        self.packets_per_second_going.increase(1);
    }

    /// Rolls the running second over into the published figures and the
    /// history.
    pub fn one_second_tick(&mut self, persist_queue_size: i64)
        requires
            old(self).wf(),
        ensures
            final(self).wf(),
            final(self).messages_per_second == old(self).messages_per_second_going.value,
            final(self).packets_per_second == old(self).packets_per_second_going.value,
            final(self).messages_per_second_going.value == 0,
            final(self).packets_per_second_going.value == 0,
            final(self).persist_queue_size == persist_queue_size,
            final(self).publish_history.items@.len() > 0,
            final(self).publish_history.items@.last() == (if old(
                self,
            ).messages_per_second_going.value <= i32::MAX {
                old(self).messages_per_second_going.value as i32
            } else {
                i32::MAX
            }),
    {
        let messages_per_second = self.messages_per_second_going.get_and_reset();
        self.packets_per_second = self.packets_per_second_going.get_and_reset();
        self.messages_per_second = messages_per_second;
        self.persist_queue_size = persist_queue_size;
        let sample: i32 = if messages_per_second <= i32::MAX as usize {
            messages_per_second as i32
        } else {
            i32::MAX
        };
        self.publish_history.put(sample);
    }
}

} // verus!
