//! The paged message cache of a topic. Each page covers a fixed-width slice
//! of message-id space; a page is either a placeholder (`Empty` or `Loading`)
//! or fully `Ready`, with every slot of its range resolved to a message or
//! marked missing. The store keeps at most one page per page id, which is
//! what makes loading single-flight: only the caller that inserted the
//! placeholder is responsible for restoring it.
use vstd::prelude::*;

use crate::ids::{
    get_page_id, spec_page_first_id, spec_page_of, valid_message_id, MessageId, PageId, PAGE_WIDTH,
};

verus! {

/// A published message as the cache stores it.
pub struct MessageContent {
    pub id: MessageId,
    pub content: Vec<u8>,
    pub headers: Vec<(String, String)>,
    pub created_at: i64,
}

/// One slot of a page.
pub enum PageEntry {
    Ready(MessageContent),
    Missing,
}

/// Lifecycle of a page in the cache.
#[derive(Clone, Copy, PartialEq, Eq, Structural, Debug)]
pub enum PageState {
    Empty,
    Loading,
    Ready,
}

/// Outcome of a size probe for one message id.
#[derive(Clone, Copy, PartialEq, Eq, Structural, Debug)]
pub enum MessageSize {
    MessageIsReady(u64),
    NotLoaded,
    CanNotBeLoaded,
}

/// Sum of the content sizes of the ready entries.
pub open spec fn entries_size(s: Seq<PageEntry>) -> int
    decreases s.len(),
{
    if s.len() == 0 {
        0
    } else {
        entries_size(s.drop_last()) + match s.last() {
            PageEntry::Ready(m) => m.content.len() as int,
            PageEntry::Missing => 0,
        }
    }
}

/// A page: a fixed-width slice of id space.
pub struct Page {
    pub page_id: PageId,
    pub state: PageState,
    pub entries: Vec<PageEntry>,
    pub size_bytes: u64,
}

impl Page {
    /// A page id whose whole range consists of valid message ids.
    pub open spec fn page_id_wf(page_id: int) -> bool {
        0 <= page_id && spec_page_first_id(page_id) + PAGE_WIDTH <= i64::MAX
    }

    pub open spec fn wf(self) -> bool {
        &&& Self::page_id_wf(self.page_id as int)
        &&& (self.state == PageState::Ready <==> self.entries@.len() == PAGE_WIDTH)
        &&& (self.state != PageState::Ready ==> self.entries@.len() == 0)
        &&& forall|k: int|
            0 <= k < self.entries@.len() ==> match #[trigger] self.entries@[k] {
                PageEntry::Ready(m) => m.id == spec_page_first_id(self.page_id as int) + k,
                PageEntry::Missing => true,
            }
        &&& self.size_bytes == entries_size(self.entries@)
    }

    /// What a size probe for `id` must answer on this page.
    pub open spec fn spec_message_size(self, id: int) -> MessageSize {
        if self.state != PageState::Ready {
            MessageSize::NotLoaded
        } else {
            match self.entries@[id - spec_page_first_id(self.page_id as int)] {
                PageEntry::Ready(m) => MessageSize::MessageIsReady(m.content.len() as u64),
                PageEntry::Missing => MessageSize::CanNotBeLoaded,
            }
        }
    }

    /// Whether this page stores exactly this message in its slot.
    pub open spec fn holds_message(self, m: MessageContent) -> bool {
        self.state == PageState::Ready && self.entries@[m.id - spec_page_first_id(
            self.page_id as int,
        )] == PageEntry::Ready(m)
    }

    /// Whether `id` resolves to a stored message on this page.
    pub open spec fn spec_has_message(self, id: int) -> bool {
        self.state == PageState::Ready && (self.entries@[id - spec_page_first_id(
            self.page_id as int,
        )] matches PageEntry::Ready(_))
    }

    /// A placeholder for a page that is not loaded yet.
    pub fn create_empty(page_id: PageId) -> (r: Page)
        requires
            Self::page_id_wf(page_id as int),
        ensures
            r.wf(),
            r.page_id == page_id,
            r.state == PageState::Empty,
    {
        Page { page_id, state: PageState::Empty, entries: Vec::new(), size_bytes: 0 }
    }

    /// Size probe for one id of this page's range.
    pub fn get_message_size(&self, message_id: MessageId) -> (r: MessageSize)
        requires
            self.wf(),
            spec_page_first_id(self.page_id as int) <= message_id < spec_page_first_id(
                self.page_id as int,
            ) + PAGE_WIDTH,
        ensures
            r == self.spec_message_size(message_id as int),
    {
        if !matches!(self.state, PageState::Ready) {
            return MessageSize::NotLoaded;
        }
        let first = self.page_id * PAGE_WIDTH;
        let offset = (message_id - first) as usize;
        match &self.entries[offset] {
            PageEntry::Ready(m) => MessageSize::MessageIsReady(m.content.len() as u64),
            PageEntry::Missing => MessageSize::CanNotBeLoaded,
        }
    }
}

impl Page {
    /// Stores a freshly published message in its slot. Fails (leaving the
    /// page unchanged) only when the page's byte total would overflow.
    pub fn set_message(&mut self, msg: MessageContent) -> (r: bool)
        requires
            old(self).wf(),
            old(self).state == PageState::Ready,
            spec_page_first_id(old(self).page_id as int) <= msg.id < spec_page_first_id(
                old(self).page_id as int,
            ) + PAGE_WIDTH,
        ensures
            final(self).wf(),
            final(self).page_id == old(self).page_id,
            final(self).state == PageState::Ready,
            r ==> final(self).spec_message_size(msg.id as int)
                == MessageSize::MessageIsReady(msg.content.len() as u64) && final(self).spec_has_message(msg.id as int),
            !r ==> *final(self) == *old(self),
            forall|x: int|
                spec_page_first_id(old(self).page_id as int) <= x < spec_page_first_id(
                    old(self).page_id as int,
                ) + PAGE_WIDTH && x != msg.id ==> #[trigger] final(self).spec_message_size(x)
                    == old(self).spec_message_size(x),
            forall|x: int|
                spec_page_first_id(old(self).page_id as int) <= x < spec_page_first_id(
                    old(self).page_id as int,
                ) + PAGE_WIDTH && x != msg.id ==> #[trigger] final(self).spec_has_message(x)
                    == old(self).spec_has_message(x),
    {
        let first = self.page_id * PAGE_WIDTH;
        let offset = (msg.id - first) as usize;
        let old_size: u64 = match &self.entries[offset] {
            PageEntry::Ready(m) => m.content.len() as u64,
            PageEntry::Missing => 0,
        };
        let new_size: u64 = msg.content.len() as u64;
        if new_size > old_size && self.size_bytes > u64::MAX - (new_size - old_size) {
            return false;
        }
        let ghost old_entries = self.entries@;
        proof {
            lemma_entries_size_update(old_entries, offset as int);
            lemma_entries_size_nonneg(old_entries.update(offset as int, PageEntry::Missing));
        }
        let adjusted = if new_size >= old_size {
            self.size_bytes + (new_size - old_size)
        } else {
            self.size_bytes - (old_size - new_size)
        };
        self.size_bytes = adjusted;
        let ghost gm = msg;
        self.entries[offset] = PageEntry::Ready(msg);
        proof {
            lemma_entries_size_update(old_entries, offset as int);
            assert(self.entries@ =~= old_entries.update(offset as int, PageEntry::Ready(gm)));
            assert(entries_size(self.entries@) == entries_size(old_entries) - (old_size as int) + (
            new_size as int)) by {
                lemma_entries_size_update(self.entries@, offset as int);
                assert(self.entries@.update(offset as int, PageEntry::Missing)
                    =~= old_entries.update(offset as int, PageEntry::Missing));
            }
        }
        true
    }
}

proof fn lemma_entries_size_nonneg(s: Seq<PageEntry>)
    ensures
        entries_size(s) >= 0,
    decreases s.len(),
{
    if s.len() > 0 {
        lemma_entries_size_nonneg(s.drop_last());
    }
}

/// Replacing one entry with `Missing` lowers the total by that entry's size.
proof fn lemma_entries_size_update(s: Seq<PageEntry>, k: int)
    requires
        0 <= k < s.len(),
    ensures
        entries_size(s) == entries_size(s.update(k, PageEntry::Missing)) + match s[k] {
            PageEntry::Ready(m) => m.content.len() as int,
            PageEntry::Missing => 0,
        },
    decreases s.len(),
{
    if k == s.len() - 1 {
        assert(s.update(k, PageEntry::Missing).drop_last() =~= s.drop_last());
        assert(s.update(k, PageEntry::Missing).last() == PageEntry::Missing);
    } else {
        lemma_entries_size_update(s.drop_last(), k);
        assert(s.update(k, PageEntry::Missing).drop_last() =~= s.drop_last().update(
            k,
            PageEntry::Missing,
        ));
        assert(s.update(k, PageEntry::Missing).last() == s.last());
    }
}

/// Messages sorted strictly by id, all lying inside the given page.
pub open spec fn loaded_msgs_wf(s: Seq<MessageContent>, page_id: int) -> bool {
    &&& forall|i: int|
        0 <= i < s.len() ==> spec_page_first_id(page_id) <= (#[trigger] s[i]).id
            < spec_page_first_id(page_id) + PAGE_WIDTH
    &&& forall|i: int, j: int| 0 <= i < j < s.len() ==> (#[trigger] s[i]).id < (#[trigger] s[j]).id
}

/// Total content size of loaded messages.
pub open spec fn loaded_msgs_size(s: Seq<MessageContent>) -> int
    decreases s.len(),
{
    if s.len() == 0 {
        0
    } else {
        loaded_msgs_size(s.drop_last()) + s.last().content.len()
    }
}

/// Builds a fully `Ready` page out of what the store returned for the page's
/// range: every slot becomes the stored message, or `Missing` where the store
/// had none. A load that failed for good builds from an empty list, marking
/// the whole range missing, so that delivery can make progress.
pub fn build_ready_page(page_id: PageId, msgs: Vec<MessageContent>) -> (r: Page)
    requires
        Page::page_id_wf(page_id as int),
        loaded_msgs_wf(msgs@, page_id as int),
        loaded_msgs_size(msgs@) <= u64::MAX,
    ensures
        r.wf(),
        r.page_id == page_id,
        r.state == PageState::Ready,
        forall|id: int|
            spec_page_first_id(page_id as int) <= id < spec_page_first_id(page_id as int)
                + PAGE_WIDTH ==> (r.spec_has_message(id) <==> exists|i: int|
                0 <= i < msgs@.len() && (#[trigger] msgs@[i]).id == id),
        // Every handed-in message sits in its slot unchanged.
        forall|i: int| 0 <= i < msgs@.len() ==> r.holds_message(#[trigger] msgs@[i]),
{
    let ghost orig = msgs@;
    let mut msgs = msgs;
    let first = page_id * PAGE_WIDTH;
    let mut entries: Vec<PageEntry> = Vec::new();
    let mut size_bytes: u64 = 0;
    let mut k: usize = 0;
    while k < PAGE_WIDTH as usize
        invariant
            0 <= k <= PAGE_WIDTH as int,
            first == spec_page_first_id(page_id as int),
            Page::page_id_wf(page_id as int),
            loaded_msgs_wf(orig, page_id as int),
            loaded_msgs_size(orig) <= u64::MAX,
            entries@.len() == k,
            msgs@ =~= orig.skip(orig.len() - msgs@.len()),
            msgs@.len() <= orig.len(),
            forall|i: int|
                0 <= i < orig.len() - msgs@.len() ==> (#[trigger] orig[i]).id < first + k,
            forall|i: int|
                orig.len() - msgs@.len() <= i < orig.len() ==> (#[trigger] orig[i]).id >= first
                    + k,
            forall|off: int|
                0 <= off < k ==> match #[trigger] entries@[off] {
                    PageEntry::Ready(m) => m.id == first + off && (exists|i: int|
                        0 <= i < orig.len() && (#[trigger] orig[i]) == m),
                    PageEntry::Missing => !(exists|i: int|
                        0 <= i < orig.len() && (#[trigger] orig[i]).id == first + off),
                },
            size_bytes == entries_size(entries@),
            size_bytes + loaded_msgs_size(msgs@) == loaded_msgs_size(orig),
        decreases PAGE_WIDTH as int - k,
    {
        let ghost c = orig.len() - msgs@.len();
        let id = first + k as i64;
        let matched = msgs.len() > 0 && {
            let m0_id = msgs[0].id;
            m0_id == id
        };
        if matched {
            proof {
                lemma_size_head(msgs@);
                lemma_size_nonneg(msgs@.drop_first());
            }
            let m = msgs.remove(0);
            proof {
                assert(m == orig[c]);
                assert(msgs@ =~= orig.skip(c + 1));
                assert(entries@.push(PageEntry::Ready(m)).drop_last() =~= entries@);
            }
            size_bytes = size_bytes + (m.content.len() as u64);
            entries.push(PageEntry::Ready(m));
            proof {
                assert(orig[c].id == first + k);
            }
        } else {
            proof {
                if exists|i: int| 0 <= i < orig.len() && (#[trigger] orig[i]).id == id {
                    let i = choose|i: int|
                        0 <= i < orig.len() && (#[trigger] orig[i]).id == id;
                    assert(i >= c);
                    if i > c {
                        assert(orig[c].id < orig[i].id);
                    }
                    assert(false);
                }
                assert(entries@.push(PageEntry::Missing).drop_last() =~= entries@);
            }
            entries.push(PageEntry::Missing);
        }
        k = k + 1;
    }
    let r = Page { page_id, state: PageState::Ready, entries, size_bytes };
    proof {
        assert forall|id: int|
            spec_page_first_id(page_id as int) <= id < spec_page_first_id(page_id as int)
                + PAGE_WIDTH implies (r.spec_has_message(id) <==> exists|i: int|
            0 <= i < orig.len() && (#[trigger] orig[i]).id == id) by {
            let off = id - spec_page_first_id(page_id as int);
            assert(match r.entries@[off] {
                PageEntry::Ready(m) => m.id == first + off && (exists|i: int|
                    0 <= i < orig.len() && (#[trigger] orig[i]) == m),
                PageEntry::Missing => !(exists|i: int|
                    0 <= i < orig.len() && (#[trigger] orig[i]).id == first + off),
            });
            match r.entries@[off] {
                PageEntry::Ready(m) => {
                    let i = choose|i: int| 0 <= i < orig.len() && (#[trigger] orig[i]) == m;
                    assert(orig[i].id == id);
                },
                PageEntry::Missing => {},
            }
        }
        assert forall|i: int| 0 <= i < orig.len() implies r.holds_message(
            #[trigger] orig[i],
        ) by {
            let id = orig[i].id as int;
            let off = id - spec_page_first_id(page_id as int);
            match r.entries@[off] {
                PageEntry::Ready(m) => {
                    let j = choose|j: int| 0 <= j < orig.len() && (#[trigger] orig[j]) == m;
                    assert(orig[j].id == m.id);
                    if i != j {
                        if i < j {
                            assert(orig[i].id < orig[j].id);
                        } else {
                            assert(orig[j].id < orig[i].id);
                        }
                    }
                },
                PageEntry::Missing => {
                    assert(orig[i].id == first + off);
                },
            }
        }
    }
    r
}

/// The pages of one topic currently in memory, at most one per page id.
pub struct PageStore {
    pub pages: Vec<Page>,
}

impl PageStore {
    pub open spec fn wf(self) -> bool {
        &&& forall|i: int| 0 <= i < self.pages@.len() ==> (#[trigger] self.pages@[i]).wf()
        &&& forall|i: int, j: int|
            0 <= i < j < self.pages@.len() ==> (#[trigger] self.pages@[i]).page_id != (
            #[trigger] self.pages@[j]).page_id
    }

    /// Whether a page with this id is in memory, in any state.
    pub open spec fn has_page(self, page_id: int) -> bool {
        exists|i: int| 0 <= i < self.pages@.len() && (#[trigger] self.pages@[i]).page_id == page_id
    }

    /// The page with this id, when present.
    pub open spec fn spec_page(self, page_id: int) -> Page {
        self.pages@[choose|i: int|
            0 <= i < self.pages@.len() && (#[trigger] self.pages@[i]).page_id == page_id]
    }

    /// With distinct ids, any index holding `page_id` holds `spec_page`.
    pub proof fn lemma_page_at(self, i: int)
        requires
            self.wf(),
            0 <= i < self.pages@.len(),
        ensures
            self.has_page(self.pages@[i].page_id as int),
            self.spec_page(self.pages@[i].page_id as int) == self.pages@[i],
    {
        let pid = self.pages@[i].page_id as int;
        assert(self.has_page(pid));
        let j = choose|j: int|
            0 <= j < self.pages@.len() && (#[trigger] self.pages@[j]).page_id == pid;
        if i != j {
            assert(self.pages@[if i < j {
                i
            } else {
                j
            }].page_id != self.pages@[if i < j {
                j
            } else {
                i
            }].page_id);
        }
    }

    pub fn new() -> (r: Self)
        ensures
            r.wf(),
            forall|pid: int| !r.has_page(pid),
    {
        PageStore { pages: Vec::new() }
    }

    /// Index of the page with this id, if it is in memory.
    fn find(&self, page_id: PageId) -> (r: Option<usize>)
        requires
            self.wf(),
        ensures
            match r {
                Option::Some(i) => i < self.pages@.len() && self.pages@[i as int].page_id
                    == page_id && self.has_page(page_id as int) && self.spec_page(page_id as int)
                    == self.pages@[i as int],
                Option::None => !self.has_page(page_id as int),
            },
    {
        let mut i: usize = 0;
        while i < self.pages.len()
            invariant
                self.wf(),
                0 <= i <= self.pages@.len(),
                forall|k: int| 0 <= k < i ==> (#[trigger] self.pages@[k]).page_id != page_id,
            decreases self.pages@.len() - i,
        {
            if self.pages[i].page_id == page_id {
                proof {
                    self.lemma_page_at(i as int);
                }
                return Option::Some(i);
            }
            i = i + 1;
        }
        Option::None
    }

    /// A reference to the page, but only once it is fully loaded.
    pub fn get(&self, page_id: PageId) -> (r: Option<&Page>)
        requires
            self.wf(),
        ensures
            match r {
                Option::Some(p) => self.has_page(page_id as int) && *p == self.spec_page(
                    page_id as int,
                ) && p.state == PageState::Ready,
                Option::None => !self.has_page(page_id as int) || self.spec_page(
                    page_id as int,
                ).state != PageState::Ready,
            },
    {
        match self.find(page_id) {
            Option::Some(i) => {
                if matches!(self.pages[i].state, PageState::Ready) {
                    Option::Some(&self.pages[i])
                } else {
                    Option::None
                }
            },
            Option::None => Option::None,
        }
    }

    /// Ensures a slot for the page exists, inserting an `Empty` placeholder
    /// when it was absent. Returns whether this call created the slot: among
    /// concurrent requests for one page exactly the first gets `true`, and
    /// only that caller schedules a load from the store.
    pub fn get_or_reserve(&mut self, page_id: PageId) -> (was_new: bool)
        requires
            old(self).wf(),
            Page::page_id_wf(page_id as int),
        ensures
            final(self).wf(),
            final(self).has_page(page_id as int),
            was_new == old(self).reservation_would_load(page_id as int),
            was_new ==> final(self).spec_page(page_id as int).state == PageState::Empty,
            !was_new ==> *final(self) == *old(self),
            forall|pid: int|
                pid != page_id ==> (final(self).has_page(pid) == old(self).has_page(pid) && (
                old(self).has_page(pid) ==> final(self).spec_page(pid) == old(self).spec_page(
                    pid,
                ))),
    {
        match self.find(page_id) {
            Option::Some(_) => false,
            Option::None => {
                self.pages.push(Page::create_empty(page_id));
                proof {
                    let n = self.pages@.len() - 1;
                    self.lemma_page_at(n);
                    assert forall|pid: int|
                        pid != page_id implies (self.has_page(pid) == old(self).has_page(pid) && (
                        old(self).has_page(pid) ==> self.spec_page(pid) == old(self).spec_page(
                            pid,
                        ))) by {
                        if old(self).has_page(pid) {
                            let i = choose|i: int|
                                0 <= i < old(self).pages@.len() && (#[trigger] old(self).pages@[i]).page_id == pid;
                            assert(self.pages@[i] == old(self).pages@[i]);
                            self.lemma_page_at(i);
                            old(self).lemma_page_at(i);
                        }
                        if self.has_page(pid) {
                            let i = choose|i: int|
                                0 <= i < self.pages@.len() && (#[trigger] self.pages@[i]).page_id
                                    == pid;
                            assert(i < n);
                            assert(old(self).pages@[i].page_id == pid);
                        }
                    }
                }
                true
            },
        }
    }

    /// Whether a reservation of this page would make the caller responsible
    /// for loading it.
    pub open spec fn reservation_would_load(self, page_id: int) -> bool {
        !self.has_page(page_id)
    }

    /// Single-flight load: after one reservation has installed the page's
    /// slot, no later reservation of the same page is told to load it, so
    /// concurrent requests for one page cause exactly one fetch from the
    /// store.
    pub proof fn lemma_single_flight_reservation(self, page_id: int)
        requires
            self.has_page(page_id),
        ensures
            !self.reservation_would_load(page_id),
    {
    }

    /// Replaces the placeholder (or stale page) with a fully loaded one.
    pub fn restore_page(&mut self, page: Page)
        requires
            old(self).wf(),
            page.wf(),
            page.state == PageState::Ready,
        ensures
            final(self).wf(),
            final(self).has_page(page.page_id as int),
            final(self).spec_page(page.page_id as int) == page,
            forall|pid: int|
                pid != page.page_id ==> (final(self).has_page(pid) == old(self).has_page(pid) && (
                old(self).has_page(pid) ==> final(self).spec_page(pid) == old(self).spec_page(
                    pid,
                ))),
    {
        let ghost old_self = *old(self);
        let pid_val = page.page_id;
        match self.find(pid_val) {
            Option::Some(i) => {
                self.pages[i] = page;
                proof {
                    self.lemma_page_at(i as int);
                    assert forall|pid: int|
                        pid != pid_val implies (self.has_page(pid) == old_self.has_page(pid) && (
                        old_self.has_page(pid) ==> self.spec_page(pid) == old_self.spec_page(
                            pid,
                        ))) by {
                        if old_self.has_page(pid) {
                            let k = choose|k: int|
                                0 <= k < old_self.pages@.len() && (#[trigger] old_self.pages@[k]).page_id
                                    == pid;
                            assert(k != i);
                            assert(self.pages@[k] == old_self.pages@[k]);
                            self.lemma_page_at(k);
                            old_self.lemma_page_at(k);
                        }
                        if self.has_page(pid) {
                            let k = choose|k: int|
                                0 <= k < self.pages@.len() && (#[trigger] self.pages@[k]).page_id
                                    == pid;
                            assert(k != i);
                            assert(old_self.pages@[k].page_id == pid);
                        }
                    }
                }
            },
            Option::None => {
                self.pages.push(page);
                proof {
                    let n = self.pages@.len() - 1;
                    self.lemma_page_at(n);
                    assert forall|pid: int|
                        pid != pid_val implies (self.has_page(pid) == old_self.has_page(pid) && (
                        old_self.has_page(pid) ==> self.spec_page(pid) == old_self.spec_page(
                            pid,
                        ))) by {
                        if old_self.has_page(pid) {
                            let k = choose|k: int|
                                0 <= k < old_self.pages@.len() && (#[trigger] old_self.pages@[k]).page_id
                                    == pid;
                            assert(self.pages@[k] == old_self.pages@[k]);
                            self.lemma_page_at(k);
                            old_self.lemma_page_at(k);
                        }
                        if self.has_page(pid) {
                            let k = choose|k: int|
                                0 <= k < self.pages@.len() && (#[trigger] self.pages@[k]).page_id
                                    == pid;
                            assert(k < n);
                            assert(old_self.pages@[k].page_id == pid);
                        }
                    }
                }
            },
        }
    }

    /// Size probe across the whole store.
    pub fn get_message_size(&self, message_id: MessageId) -> (r: MessageSize)
        requires
            self.wf(),
            valid_message_id(message_id as int),
        ensures
            r == (if self.has_page(spec_page_of(message_id as int)) {
                self.spec_page(spec_page_of(message_id as int)).spec_message_size(
                    message_id as int,
                )
            } else {
                MessageSize::NotLoaded
            }),
    {
        let page_id = get_page_id(message_id);
        match self.find(page_id) {
            Option::Some(i) => {
                proof {
                    crate::ids::lemma_page_of_in_range(message_id as int);
                }
                self.pages[i].get_message_size(message_id)
            },
            Option::None => MessageSize::NotLoaded,
        }
    }

    /// Files a freshly published message into its page, creating the page
    /// (with every other slot missing) when it is not loaded. Fails, leaving
    /// the store unchanged, only on page byte-total overflow.
    pub fn insert_message(&mut self, msg: MessageContent) -> (r: bool)
        requires
            old(self).wf(),
            valid_message_id(msg.id as int),
            Page::page_id_wf(spec_page_of(msg.id as int)),
        ensures
            final(self).wf(),
            r ==> final(self).has_page(spec_page_of(msg.id as int)) && final(self).spec_page(
                spec_page_of(msg.id as int),
            ).state == PageState::Ready && final(self).spec_page(
                spec_page_of(msg.id as int),
            ).spec_message_size(msg.id as int) == MessageSize::MessageIsReady(
                msg.content.len() as u64,
            ),
            // A failed insert leaves the whole store as it was.
            !r ==> final(self).pages@ =~= old(self).pages@,
            forall|pid: int|
                pid != spec_page_of(msg.id as int) ==> (final(self).has_page(pid) == old(self).has_page(pid) && (old(self).has_page(pid) ==> final(self).spec_page(pid) == old(self).spec_page(pid))),
            // Other ids of the same page keep their answers when the page
            // was already loaded.
            r && old(self).has_page(spec_page_of(msg.id as int)) && old(self).spec_page(
                spec_page_of(msg.id as int),
            ).state == PageState::Ready ==> forall|x: int|
                valid_message_id(x) && spec_page_of(x) == spec_page_of(msg.id as int) && x
                    != msg.id ==> #[trigger] final(self).spec_page(
                    spec_page_of(msg.id as int),
                ).spec_message_size(x) == old(self).spec_page(
                    spec_page_of(msg.id as int),
                ).spec_message_size(x),
    {
        let pid = get_page_id(msg.id);
        proof {
            crate::ids::lemma_page_of_in_range(msg.id as int);
        }
        let found = match self.find(pid) {
            Option::Some(i) => {
                if matches!(self.pages[i].state, PageState::Ready) {
                    Option::Some(i)
                } else {
                    Option::None
                }
            },
            Option::None => Option::None,
        };
        match found {
            Option::Some(i) => {
                let ghost old_pages = self.pages@;
                let mut tmp = Page::create_empty(pid);
                core::mem::swap(&mut tmp, &mut self.pages[i]);
                let ok = tmp.set_message(msg);
                core::mem::swap(&mut tmp, &mut self.pages[i]);
                proof {
                    if ok {
                        assert(self.pages@ =~= old_pages.update(
                            i as int,
                            self.pages@[i as int],
                        ));
                    } else {
                        assert(self.pages@ =~= old_pages);
                    }
                    assert forall|j: int| 0 <= j < self.pages@.len() implies (
                    #[trigger] self.pages@[j]).wf() by {
                        if j != i {
                            assert(self.pages@[j] == old_pages[j]);
                        }
                    }
                    assert(self.wf()) by {
                        assert forall|a: int, b: int|
                            0 <= a < b < self.pages@.len() implies (
                        #[trigger] self.pages@[a]).page_id != (
                        #[trigger] self.pages@[b]).page_id by {
                            assert(self.pages@[a].page_id == old_pages[a].page_id);
                            assert(self.pages@[b].page_id == old_pages[b].page_id);
                        }
                    }
                    self.lemma_page_at(i as int);
                    assert forall|pid2: int|
                        pid2 != pid implies (final(self).has_page(pid2) == old(self).has_page(
                            pid2,
                        ) && (old(self).has_page(pid2) ==> final(self).spec_page(pid2) == old(self).spec_page(pid2))) by {
                        if old(self).has_page(pid2) {
                            let k = choose|k: int|
                                0 <= k < old_pages.len() && (#[trigger] old_pages[k]).page_id
                                    == pid2;
                            assert(k != i);
                            assert(self.pages@[k] == old_pages[k]);
                            self.lemma_page_at(k);
                            old(self).lemma_page_at(k);
                        }
                        if self.has_page(pid2) {
                            let k = choose|k: int|
                                0 <= k < self.pages@.len() && (#[trigger] self.pages@[k]).page_id
                                    == pid2;
                            assert(k != i);
                            assert(old_pages[k].page_id == pid2);
                        }
                    }
                    if ok {
                        old(self).lemma_page_at(i as int);
                        assert forall|x: int|
                            valid_message_id(x) && spec_page_of(x) == spec_page_of(msg.id as int)
                                && x != msg.id implies #[trigger] final(self).spec_page(
                            spec_page_of(msg.id as int),
                        ).spec_message_size(x) == old(self).spec_page(
                            spec_page_of(msg.id as int),
                        ).spec_message_size(x) by {
                            crate::ids::lemma_page_of_in_range(x);
                        }
                    }
                }
                ok
            },
            Option::None => {
                let mut p = build_ready_page(pid, Vec::new());
                let ok = p.set_message(msg);
                if ok {
                    self.restore_page(p);
                }
                ok
            },
        }
    }

    /// The stored message for this id, for serialization.
    pub fn get_message(&self, message_id: MessageId) -> (r: Option<&MessageContent>)
        requires
            self.wf(),
            valid_message_id(message_id as int),
        ensures
            match r {
                Option::Some(m) => {
                    &&& m.id == message_id
                    &&& self.has_page(spec_page_of(message_id as int))
                    &&& self.spec_page(spec_page_of(message_id as int)).spec_has_message(
                        message_id as int,
                    )
                },
                Option::None => !self.has_page(spec_page_of(message_id as int)) || !self.spec_page(
                    spec_page_of(message_id as int),
                ).spec_has_message(message_id as int),
            },
    {
        let page_id = get_page_id(message_id);
        match self.find(page_id) {
            Option::Some(i) => {
                let page = &self.pages[i];
                if !matches!(page.state, PageState::Ready) {
                    return Option::None;
                }
                proof {
                    crate::ids::lemma_page_of_in_range(message_id as int);
                }
                let first = page.page_id * PAGE_WIDTH;
                let offset = (message_id - first) as usize;
                match &page.entries[offset] {
                    PageEntry::Ready(m) => Option::Some(m),
                    PageEntry::Missing => Option::None,
                }
            },
            Option::None => Option::None,
        }
    }

    /// Evicts every fully loaded page below the eviction floor. Placeholders
    /// still being loaded are kept whatever their id.
    pub fn gc(&mut self, min_required_page_id: PageId)
        requires
            old(self).wf(),
        ensures
            final(self).wf(),
            // The garbage-collection safety bound: nothing old and loaded survives.
            forall|i: int|
                0 <= i < final(self).pages@.len() ==> ((#[trigger] final(self).pages@[i]).page_id
                    >= min_required_page_id || final(self).pages@[i].state != PageState::Ready),
            // Exactly the pages above the floor or still loading survive, unchanged.
            forall|pid: int|
                final(self).has_page(pid) <==> (old(self).has_page(pid) && (pid
                    >= min_required_page_id || old(self).spec_page(pid).state
                    != PageState::Ready)),
            forall|pid: int|
                final(self).has_page(pid) ==> final(self).spec_page(pid) == old(self).spec_page(
                    pid,
                ),
    {
        let ghost old_s = self.pages@;
        let ghost keep = |p: Page| p.page_id >= min_required_page_id || p.state != PageState::Ready;
        let mut i: usize = 0;
        let ghost mut k: int = 0;
        while i < self.pages.len()
            invariant
                old(self).wf(),
                old_s == old(self).pages@,
                forall|p: Page| #[trigger] keep(p) <==> (p.page_id >= min_required_page_id
                    || p.state != PageState::Ready),
                0 <= k <= old_s.len(),
                self.pages@ =~= old_s.take(k).filter(keep) + old_s.skip(k),
                i == old_s.take(k).filter(keep).len(),
            decreases old_s.len() - k,
        {
            let ghost kk = k;
            proof {
                assert(old_s.take(kk + 1).drop_last() =~= old_s.take(kk));
                assert(old_s.take(kk + 1).last() == old_s[kk]);
                old_s.take(kk).lemma_filter_len(keep);
                assert(self.pages@[i as int] == old_s[kk]);
            }
            let p_keep = self.pages[i].page_id >= min_required_page_id || !matches!(
                self.pages[i].state,
                PageState::Ready,
            );
            if p_keep {
                i = i + 1;
            } else {
                self.pages.remove(i);
            }
            proof {
                k = kk + 1;
                reveal(Seq::filter);
                assert(old_s.take(kk + 1).filter(keep) == if keep(old_s[kk]) {
                    old_s.take(kk).filter(keep).push(old_s[kk])
                } else {
                    old_s.take(kk).filter(keep)
                });
                assert(self.pages@ =~= old_s.take(kk + 1).filter(keep) + old_s.skip(kk + 1));
            }
        }
        proof {
            assert(old_s.take(old_s.len() as int) =~= old_s);
            assert(old_s.skip(old_s.len() as int) =~= Seq::<Page>::empty());
            let f = old_s.filter(keep);
            assert(self.pages@ =~= f);
            assert forall|idx: int| 0 <= idx < self.pages@.len() implies keep(
                #[trigger] self.pages@[idx],
            ) by {
                old_s.lemma_filter_pred(keep, idx);
            }
            assert forall|i1: int, j1: int| 0 <= i1 < j1 < self.pages@.len() implies (
            #[trigger] self.pages@[i1]).page_id != (#[trigger] self.pages@[j1]).page_id by {
                lemma_filter_distinct(old_s, keep, i1, j1);
            }
            assert forall|idx: int| 0 <= idx < self.pages@.len() implies (
            #[trigger] self.pages@[idx]).wf() by {
                lemma_filter_member(old_s, keep, idx);
                let oi = choose|oi: int| 0 <= oi < old_s.len() && old_s[oi] == f[idx];
                assert(old_s[oi].wf());
            }
            assert(self.wf());
            assert forall|pid: int| final(self).has_page(pid) implies (old(self).has_page(pid) && (
            pid >= min_required_page_id || old(self).spec_page(pid).state != PageState::Ready))
                && final(self).spec_page(pid) == old(self).spec_page(pid) by {
                let idx = choose|idx: int|
                    0 <= idx < self.pages@.len() && (#[trigger] self.pages@[idx]).page_id == pid;
                old_s.lemma_filter_pred(keep, idx);
                lemma_filter_member(old_s, keep, idx);
                let oi = choose|oi: int| 0 <= oi < old_s.len() && old_s[oi] == f[idx];
                old(self).lemma_page_at(oi);
                self.lemma_page_at(idx);
            }
            assert forall|pid: int|
                (old(self).has_page(pid) && (pid >= min_required_page_id || old(self).spec_page(
                    pid,
                ).state != PageState::Ready)) implies final(self).has_page(pid) by {
                let oi = choose|oi: int|
                    0 <= oi < old_s.len() && (#[trigger] old_s[oi]).page_id == pid;
                old(self).lemma_page_at(oi);
                old_s.lemma_filter_contains(keep, oi);
                let idx = choose|idx: int| 0 <= idx < f.len() && f[idx] == old_s[oi];
                assert(self.pages@[idx].page_id == pid);
            }
        }
    }
}

/// Every element of a filtered sequence occurs in the sequence it was filtered from.
proof fn lemma_filter_member(s: Seq<Page>, pred: spec_fn(Page) -> bool, i: int)
    requires
        0 <= i < s.filter(pred).len(),
    ensures
        exists|j: int| 0 <= j < s.len() && s[j] == s.filter(pred)[i],
    decreases s.len(),
{
    if s.len() > 0 {
        reveal(Seq::filter);
        let f = s.filter(pred);
        let fd = s.drop_last().filter(pred);
        assert(f == if pred(s.last()) {
            fd.push(s.last())
        } else {
            fd
        });
        if pred(s.last()) && i == f.len() - 1 {
            assert(s[s.len() - 1] == f[i]);
        } else {
            lemma_filter_member(s.drop_last(), pred, i);
            let j = choose|j: int| 0 <= j < s.drop_last().len() && s.drop_last()[j] == fd[i];
            assert(s[j] == f[i]);
        }
    }
}

/// Filtering a sequence of pages with distinct ids keeps the ids distinct.
proof fn lemma_filter_distinct(s: Seq<Page>, pred: spec_fn(Page) -> bool, i: int, j: int)
    requires
        forall|a: int, b: int|
            0 <= a < b < s.len() ==> (#[trigger] s[a]).page_id != (#[trigger] s[b]).page_id,
        0 <= i < j < s.filter(pred).len(),
    ensures
        s.filter(pred)[i].page_id != s.filter(pred)[j].page_id,
    decreases s.len(),
{
    if s.len() > 0 {
        reveal(Seq::filter);
        let f = s.filter(pred);
        let fd = s.drop_last().filter(pred);
        assert(f == if pred(s.last()) {
            fd.push(s.last())
        } else {
            fd
        });
        if pred(s.last()) && j == f.len() - 1 {
            // f[j] is s.last(); f[i] came from the prefix.
            lemma_filter_member(s.drop_last(), pred, i);
            let oi = choose|oi: int| 0 <= oi < s.drop_last().len() && s.drop_last()[oi] == fd[i];
            assert(s[oi] == fd[i]);
            assert(s[oi].page_id != s.last().page_id);
        } else {
            lemma_filter_distinct(s.drop_last(), pred, i, j);
        }
    }
}

proof fn lemma_size_nonneg(s: Seq<MessageContent>)
    ensures
        loaded_msgs_size(s) >= 0,
    decreases s.len(),
{
    if s.len() > 0 {
        lemma_size_nonneg(s.drop_last());
    }
}

/// Removing the head message splits the total content size.
proof fn lemma_size_head(s: Seq<MessageContent>)
    requires
        s.len() > 0,
    ensures
        loaded_msgs_size(s) == s[0].content.len() + loaded_msgs_size(s.drop_first()),
    decreases s.len(),
{
    if s.len() == 1 {
        assert(s.drop_last().len() == 0);
        assert(s.drop_first().len() == 0);
        assert(loaded_msgs_size(s.drop_last()) == 0);
        assert(loaded_msgs_size(s.drop_first()) == 0);
        assert(loaded_msgs_size(s) == loaded_msgs_size(s.drop_last()) + s.last().content.len());
        assert(s.last() == s[0]);
    } else {
        lemma_size_head(s.drop_last());
        assert(s.drop_last().drop_first() =~= s.drop_first().drop_last());
        assert(s.drop_last()[0] == s[0]);
        assert(s.drop_first().last() == s.last());
        assert(s.drop_first().len() > 0);
        assert(loaded_msgs_size(s.drop_first()) == loaded_msgs_size(s.drop_first().drop_last())
            + s.drop_first().last().content.len());
    }
}

} // verus!
