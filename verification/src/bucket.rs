//! A bucket: the set of messages handed to one subscriber in one delivery,
//! grouped by page and bounded in total byte size by the delivery settings.
use vstd::prelude::*;

use crate::ids::{get_page_id, spec_page_of, valid_message_id, MessageId, PageId};

verus! {

/// One message scheduled in a bucket: its id, how many delivery attempts
/// preceded this one, and its content size in bytes.
#[derive(Clone, Copy, PartialEq, Eq, Structural, Debug)]
pub struct BucketMessage {
    pub message_id: MessageId,
    pub attempt_no: u32,
    pub size: u64,
}

/// The slice of a bucket that falls on one page.
pub struct BucketPage {
    pub page_id: PageId,
    pub messages: Vec<BucketMessage>,
}

/// Messages delivered together to one subscriber.
pub struct MessagesBucket {
    pub pages: Vec<BucketPage>,
    pub total_size: u64,
    pub total_count: usize,
    pub min_id: Option<MessageId>,
    pub max_id: Option<MessageId>,
}

/// Sum of the sizes of the messages.
pub open spec fn msgs_total_size(s: Seq<BucketMessage>) -> int
    decreases s.len(),
{
    if s.len() == 0 {
        0
    } else {
        msgs_total_size(s.drop_last()) + s.last().size
    }
}

/// Every message id in the sequence is below `id`.
pub open spec fn all_ids_below(s: Seq<BucketMessage>, id: int) -> bool {
    forall|i: int| 0 <= i < s.len() ==> (#[trigger] s[i]).message_id < id
}

impl MessagesBucket {
    /// All messages of the bucket, in delivery order.
    pub open spec fn spec_msgs(self) -> Seq<BucketMessage> {
        self.pages@.map_values(|p: BucketPage| p.messages@).flatten()
    }

    /// Whether the bucket holds a message with this id.
    pub open spec fn spec_contains(self, id: int) -> bool {
        exists|a: int, b: int|
            0 <= a < self.pages@.len() && 0 <= b < (#[trigger] self.pages@[a]).messages@.len() && (
            #[trigger] self.pages@[a].messages@[b]).message_id == id
    }

    pub open spec fn wf(self) -> bool {
        let msgs = self.spec_msgs();
        &&& forall|i: int|
            0 <= i < self.pages@.len() ==> {
                let p = #[trigger] self.pages@[i];
                &&& p.messages@.len() > 0
                &&& 0 <= p.page_id
                &&& forall|j: int|
                    0 <= j < p.messages@.len() ==> {
                        let m = #[trigger] p.messages@[j];
                        &&& valid_message_id(m.message_id as int)
                        &&& spec_page_of(m.message_id as int) == p.page_id
                    }
            }
        &&& forall|i: int, j: int|
            0 <= i < j < self.pages@.len() ==> (#[trigger] self.pages@[i]).page_id < (
            #[trigger] self.pages@[j]).page_id
        &&& forall|a: int, b: int, a2: int, b2: int|
            #![trigger self.pages@[a].messages@[b], self.pages@[a2].messages@[b2]]
            0 <= a < self.pages@.len() && 0 <= b < self.pages@[a].messages@.len() && 0 <= a2
                < self.pages@.len() && 0 <= b2 < self.pages@[a2].messages@.len() && (a < a2 || (a
                == a2 && b < b2)) ==> self.pages@[a].messages@[b].message_id
                < self.pages@[a2].messages@[b2].message_id
        &&& self.total_size == msgs_total_size(msgs)
        &&& self.total_count == msgs.len()
        &&& self.min_id == (if self.pages@.len() == 0 {
            Option::<MessageId>::None
        } else {
            Option::Some(self.pages@[0].messages@[0].message_id)
        })
        &&& self.max_id == (if self.pages@.len() == 0 {
            Option::<MessageId>::None
        } else {
            Option::Some(self.pages@.last().messages@.last().message_id)
        })
    }

    pub fn new() -> (r: Self)
        ensures
            r.wf(),
            r.spec_msgs() =~= Seq::<BucketMessage>::empty(),
            r.total_size == 0,
            r.total_count == 0,
    {
        let r = MessagesBucket {
            pages: Vec::new(),
            total_size: 0,
            total_count: 0,
            min_id: Option::None,
            max_id: Option::None,
        };
        proof {
            assert(r.pages@.map_values(|p: BucketPage| p.messages@) =~= Seq::<
                Seq<BucketMessage>,
            >::empty());
            assert(r.spec_msgs() =~= Seq::<BucketMessage>::empty());
        }
        r
    }

    pub fn messages_count(&self) -> (r: usize)
        ensures
            r == self.total_count,
    {
        self.total_count
    }

    /// Appends a message whose id lies above everything already in the
    /// bucket, extending the last page slice or opening a new one.
    #[verifier::rlimit(60)]
    pub fn add(&mut self, message_id: MessageId, attempt_no: u32, size: u64)
        requires
            old(self).wf(),
            valid_message_id(message_id as int),
            forall|x: int| old(self).spec_contains(x) ==> x < message_id,
            old(self).total_size + size <= u64::MAX,
            old(self).total_count < usize::MAX,
        ensures
            final(self).wf(),
            final(self).spec_msgs() =~= old(self).spec_msgs().push(
                BucketMessage { message_id, attempt_no, size },
            ),
            final(self).total_size == old(self).total_size + size,
            final(self).total_count == old(self).total_count + 1,
            forall|x: int|
                final(self).spec_contains(x) <==> (old(self).spec_contains(x) || x == message_id),
            // Existing page slices are untouched, and every position of the
            // result is an old position or the new final message.
            forall|a: int, b: int|
                #![trigger old(self).pages@[a].messages@[b]]
                0 <= a < old(self).pages@.len() && 0 <= b < old(self).pages@[a].messages@.len()
                    ==> a < final(self).pages@.len() && b < final(self).pages@[a].messages@.len() && final(self).pages@[a].messages@[b] == old(self).pages@[a].messages@[b],
            forall|a: int, b: int|
                #![trigger final(self).pages@[a].messages@[b]]
                0 <= a < final(self).pages@.len() && 0 <= b < final(self).pages@[a].messages@.len() ==> ((0 <= a < old(self).pages@.len() && 0 <= b < old(self).pages@[a].messages@.len() && final(self).pages@[a].messages@[b] == old(self).pages@[a].messages@[b]) || final(self).pages@[a].messages@[b]
                    == (BucketMessage { message_id, attempt_no, size })),
    {
        let m = BucketMessage { message_id, attempt_no, size };
        let page_id = get_page_id(message_id);
        let ghost old_pages = self.pages@.map_values(|p: BucketPage| p.messages@);
        let ghost old_flat = old(self).spec_msgs();
        let n = self.pages.len();
        let same_page = n > 0 && self.pages[n - 1].page_id == page_id;
        self.total_size = self.total_size + size;
        self.total_count = self.total_count + 1;
        self.max_id = Option::Some(message_id);
        if self.total_count == 1 {
            self.min_id = Option::Some(message_id);
        }
        if same_page {
            let last_opt = self.pages.pop();
            let mut last = match last_opt {
                Option::Some(p) => p,
                Option::None => {
                    proof {
                        assert(false);
                    }
                    BucketPage { page_id, messages: Vec::new() }
                },
            };
            last.messages.push(m);
            self.pages.push(last);
            proof {
                let new_pages = self.pages@.map_values(|p: BucketPage| p.messages@);
                assert(old_pages.drop_last() =~= self.pages@.drop_last().map_values(
                    |p: BucketPage| p.messages@,
                ));
                assert(new_pages =~= old_pages.drop_last().push(old_pages.last().push(m)));
                assert(old_pages =~= old_pages.drop_last().push(old_pages.last()));
                old_pages.drop_last().lemma_flatten_push(old_pages.last());
                old_pages.drop_last().lemma_flatten_push(old_pages.last().push(m));
                assert(old_flat == old_pages.drop_last().flatten() + old_pages.last());
                assert(self.spec_msgs() =~= old_flat.push(m));
                assert forall|x: int| self.spec_contains(x) implies (old(self).spec_contains(x)
                    || x == message_id) by {
                    let (a, b) = choose|a: int, b: int|
                        0 <= a < self.pages@.len() && 0 <= b < (
                        #[trigger] self.pages@[a]).messages@.len() && (
                        #[trigger] self.pages@[a].messages@[b]).message_id == x;
                    if a < self.pages@.len() - 1 {
                        assert(old(self).pages@[a].messages@[b].message_id == x);
                    } else if b < old(self).pages@[a].messages@.len() {
                        assert(old(self).pages@[a].messages@[b].message_id == x);
                    }
                }
                assert forall|x: int|
                    (old(self).spec_contains(x) || x == message_id) implies self.spec_contains(
                    x,
                ) by {
                    if x == message_id {
                        let a = self.pages@.len() - 1;
                        let b = self.pages@[a].messages@.len() - 1;
                        assert(self.pages@[a].messages@[b].message_id == x);
                    } else {
                        let (a, b) = choose|a: int, b: int|
                            0 <= a < old(self).pages@.len() && 0 <= b < (#[trigger] old(self).pages@[a]).messages@.len() && (#[trigger] old(self).pages@[a].messages@[b]).message_id == x;
                        assert(self.pages@[a].messages@[b].message_id == x);
                    }
                }
                let lastp = self.pages@.len() - 1;
                let lastb = self.pages@[lastp].messages@.len() - 1;
                assert forall|a: int, b: int, a2: int, b2: int|
                    #![trigger self.pages@[a].messages@[b], self.pages@[a2].messages@[b2]]
                    0 <= a < self.pages@.len() && 0 <= b < self.pages@[a].messages@.len() && 0
                        <= a2 < self.pages@.len() && 0 <= b2 < self.pages@[a2].messages@.len() && (
                    a < a2 || (a == a2 && b < b2)) implies self.pages@[a].messages@[b].message_id
                    < self.pages@[a2].messages@[b2].message_id by {
                    if a2 == lastp && b2 == lastb {
                        assert(self.pages@[a].messages@[b]
                            == old(self).pages@[a].messages@[b]);
                        assert(old(self).spec_contains(
                            old(self).pages@[a].messages@[b].message_id as int,
                        ));
                    } else {
                        assert(self.pages@[a].messages@[b] == old(self).pages@[a].messages@[b]);
                        assert(self.pages@[a2].messages@[b2]
                            == old(self).pages@[a2].messages@[b2]);
                    }
                }
                assert(old_flat.len() > 0);
                if lastp == 0 {
                    assert(self.pages@[0].messages@[0] == old(self).pages@[0].messages@[0]);
                }
            }
        } else {
            let mut messages: Vec<BucketMessage> = Vec::new();
            messages.push(m);
            self.pages.push(BucketPage { page_id, messages });
            proof {
                let new_pages = self.pages@.map_values(|p: BucketPage| p.messages@);
                assert(new_pages =~= old_pages.push(seq![m]));
                old_pages.lemma_flatten_push(seq![m]);
                assert(self.spec_msgs() =~= old_flat.push(m));
                if n > 0 {
                    // The new page lies strictly above the previous last one.
                    let lp = old(self).pages@[n - 1];
                    let lm = lp.messages@.last();
                    assert(old_pages[n - 1] == lp.messages@);
                    old_pages.lemma_flatten_and_flatten_alt_are_equivalent();
                    assert(old_pages.flatten_alt() == old_pages.drop_last().flatten_alt()
                        + old_pages.last());
                    assert(old_flat.len() >= lp.messages@.len()) by {
                        old_pages.lemma_flatten_length_ge_single_element_length(n - 1);
                        old_pages.lemma_flatten_and_flatten_alt_are_equivalent();
                    }
                    assert(old_flat.last() == lm) by {
                        old_pages.lemma_flatten_and_flatten_alt_are_equivalent();
                        assert(old_pages.last().len() > 0);
                    }
                    assert(lm.message_id < message_id) by {
                        assert(old(self).pages@[n - 1].messages@[lp.messages@.len() - 1] == lm);
                        assert(old(self).spec_contains(lm.message_id as int));
                    }
                    assert(spec_page_of(lm.message_id as int) == lp.page_id);
                    crate::ids::lemma_page_of_monotonic(
                        lm.message_id as int,
                        message_id as int,
                    );
                    assert(lp.page_id <= page_id);
                }
                assert forall|x: int| self.spec_contains(x) implies (old(self).spec_contains(x)
                    || x == message_id) by {
                    let (a, b) = choose|a: int, b: int|
                        0 <= a < self.pages@.len() && 0 <= b < (
                        #[trigger] self.pages@[a]).messages@.len() && (
                        #[trigger] self.pages@[a].messages@[b]).message_id == x;
                    if a < self.pages@.len() - 1 {
                        assert(old(self).pages@[a].messages@[b].message_id == x);
                    }
                }
                assert forall|x: int|
                    (old(self).spec_contains(x) || x == message_id) implies self.spec_contains(
                    x,
                ) by {
                    if x == message_id {
                        let a = self.pages@.len() - 1;
                        assert(self.pages@[a].messages@[0].message_id == x);
                    } else {
                        let (a, b) = choose|a: int, b: int|
                            0 <= a < old(self).pages@.len() && 0 <= b < (#[trigger] old(self).pages@[a]).messages@.len() && (#[trigger] old(self).pages@[a].messages@[b]).message_id == x;
                        assert(self.pages@[a].messages@[b].message_id == x);
                    }
                }
                let lastp = self.pages@.len() - 1;
                assert forall|a: int, b: int, a2: int, b2: int|
                    #![trigger self.pages@[a].messages@[b], self.pages@[a2].messages@[b2]]
                    0 <= a < self.pages@.len() && 0 <= b < self.pages@[a].messages@.len() && 0
                        <= a2 < self.pages@.len() && 0 <= b2 < self.pages@[a2].messages@.len() && (
                    a < a2 || (a == a2 && b < b2)) implies self.pages@[a].messages@[b].message_id
                    < self.pages@[a2].messages@[b2].message_id by {
                    if a2 == lastp {
                        assert(self.pages@[a].messages@[b]
                            == old(self).pages@[a].messages@[b]);
                        assert(old(self).spec_contains(
                            old(self).pages@[a].messages@[b].message_id as int,
                        ));
                    } else {
                        assert(self.pages@[a].messages@[b] == old(self).pages@[a].messages@[b]);
                        assert(self.pages@[a2].messages@[b2]
                            == old(self).pages@[a2].messages@[b2]);
                    }
                }
                if n > 0 {
                    assert(old_flat.len() >= old(self).pages@[0].messages@.len()) by {
                        old_pages.lemma_flatten_length_ge_single_element_length(0);
                        old_pages.lemma_flatten_and_flatten_alt_are_equivalent();
                    }
                    assert(self.pages@[0].messages@[0] == old(self).pages@[0].messages@[0]);
                }
            }
        }
        proof {
            let msgs = self.spec_msgs();
            assert(msgs =~= old_flat.push(m));
            assert(msgs.drop_last() =~= old_flat);
            assert(msgs_total_size(msgs) == msgs_total_size(old_flat) + size);
            if old_flat.len() > 0 {
                assert(msgs[0] == old_flat[0]);
            }
        }
    }
}

impl MessagesBucket {
    /// Everything a bucket holds, its `min_id` bounds from below.
    pub proof fn lemma_min_le_contains(self, x: int)
        requires
            self.wf(),
            self.spec_contains(x),
        ensures
            self.min_id matches Option::Some(m) && m <= x,
            self.pages@.len() > 0,
    {
        let (a, b) = choose|a: int, b: int|
            0 <= a < self.pages@.len() && 0 <= b < (#[trigger] self.pages@[a]).messages@.len() && (
            #[trigger] self.pages@[a].messages@[b]).message_id == x;
        if a > 0 || b > 0 {
            assert(self.pages@[0].messages@[0].message_id < self.pages@[a].messages@[b].message_id);
        }
    }

    /// The attempt count recorded for an id the bucket holds.
    pub open spec fn attempt_of(self, id: int) -> int {
        let (a, b) = choose|a: int, b: int|
            0 <= a < self.pages@.len() && 0 <= b < (#[trigger] self.pages@[a]).messages@.len() && (
            #[trigger] self.pages@[a].messages@[b]).message_id == id;
        self.pages@[a].messages@[b].attempt_no as int
    }

    /// `attempt_of` reads back exactly what stands at a page/offset pair.
    pub proof fn lemma_attempt_at(self, a: int, b: int)
        requires
            self.wf(),
            0 <= a < self.pages@.len(),
            0 <= b < self.pages@[a].messages@.len(),
        ensures
            self.spec_contains(self.pages@[a].messages@[b].message_id as int),
            self.attempt_of(self.pages@[a].messages@[b].message_id as int)
                == self.pages@[a].messages@[b].attempt_no as int,
    {
        let id = self.pages@[a].messages@[b].message_id as int;
        assert(self.spec_contains(id));
        let (a2, b2) = choose|a2: int, b2: int|
            0 <= a2 < self.pages@.len() && 0 <= b2 < (#[trigger] self.pages@[a2]).messages@.len()
                && (#[trigger] self.pages@[a2].messages@[b2]).message_id == id;
        self.lemma_unique_message(a, b, a2, b2);
    }

    /// A bucket with no messages holds no ids.
    pub proof fn lemma_empty_no_contains(self)
        requires
            self.wf(),
            self.total_count == 0,
        ensures
            forall|x: int| !self.spec_contains(x),
    {
        assert forall|x: int| !self.spec_contains(x) by {
            if self.spec_contains(x) {
                let (a, b) = choose|a: int, b: int|
                    0 <= a < self.pages@.len() && 0 <= b < (
                    #[trigger] self.pages@[a]).messages@.len() && (
                    #[trigger] self.pages@[a].messages@[b]).message_id == x;
                let pp = self.pages@.map_values(|p: BucketPage| p.messages@);
                pp.lemma_flatten_length_ge_single_element_length(a);
                pp.lemma_flatten_and_flatten_alt_are_equivalent();
                assert(pp[a].len() > 0);
                assert(self.spec_msgs().len() >= pp[a].len());
            }
        }
    }

    /// A well-formed bucket holds each id through one message only.
    pub proof fn lemma_unique_message(self, a: int, b: int, a2: int, b2: int)
        requires
            self.wf(),
            0 <= a < self.pages@.len(),
            0 <= b < self.pages@[a].messages@.len(),
            0 <= a2 < self.pages@.len(),
            0 <= b2 < self.pages@[a2].messages@.len(),
            self.pages@[a].messages@[b].message_id == self.pages@[a2].messages@[b2].message_id,
        ensures
            a == a2 && b == b2,
    {
        if a < a2 || (a == a2 && b < b2) {
            assert(self.pages@[a].messages@[b].message_id
                < self.pages@[a2].messages@[b2].message_id);
        } else if a2 < a || (a2 == a && b2 < b) {
            assert(self.pages@[a2].messages@[b2].message_id
                < self.pages@[a].messages@[b].message_id);
        }
    }
}

} // verus!