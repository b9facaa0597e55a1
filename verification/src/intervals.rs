//! The ready set of a queue: a set of message ids kept as sorted,
//! non-overlapping, non-adjacent inclusive ranges, so that a bulk publish of
//! consecutive ids occupies one entry instead of one entry per id.
use vstd::prelude::*;

use crate::ids::{valid_message_id, MessageId};

verus! {

/// An inclusive range of message ids.
#[derive(Clone, Copy, PartialEq, Eq, Structural, Debug)]
pub struct IdRange {
    pub from_id: MessageId,
    pub to_id: MessageId,
}

/// A single range is well formed when its bounds are valid message ids in
/// order.
pub open spec fn range_wf(r: IdRange) -> bool {
    valid_message_id(r.from_id as int) && valid_message_id(r.to_id as int) && r.from_id <= r.to_id
}

/// Ranges are well formed, strictly sorted, and separated by at least one
/// absent id (adjacent ranges are always merged).
pub open spec fn ranges_wf(s: Seq<IdRange>) -> bool {
    &&& forall|i: int| 0 <= i < s.len() ==> range_wf(#[trigger] s[i])
    &&& forall|i: int, j: int|
        0 <= i < j < s.len() ==> (#[trigger] s[i]).to_id + 1 < (#[trigger] s[j]).from_id
}

/// Whether an id lies in one of the ranges.
pub open spec fn ranges_cover(s: Seq<IdRange>, id: int) -> bool {
    exists|i: int| 0 <= i < s.len() && (#[trigger] s[i]).from_id <= id <= s[i].to_id
}

/// Number of ids covered by the ranges.
pub open spec fn ranges_count(s: Seq<IdRange>) -> int
    decreases s.len(),
{
    if s.len() == 0 {
        0
    } else {
        ranges_count(s.drop_last()) + s.last().to_id - s.last().from_id + 1
    }
}

/// The set of message ids a queue still owes its subscribers.
pub struct IntervalSet {
    items: Vec<IdRange>,
}

impl IntervalSet {
    /// The ranges themselves, for snapshots and proofs.
    pub closed spec fn ranges(self) -> Seq<IdRange> {
        self.items@
    }

    /// Structural invariant of the representation.
    pub open spec fn wf(self) -> bool {
        ranges_wf(self.ranges())
    }

    /// Whether `id` is in the set.
    pub open spec fn covers(self, id: int) -> bool {
        ranges_cover(self.ranges(), id)
    }

    /// The set as a mathematical set of ids.
    pub open spec fn to_set(self) -> Set<int> {
        Set::new(|id: int| self.covers(id))
    }

    pub open spec fn spec_is_empty(self) -> bool {
        self.ranges().len() == 0
    }

    pub fn new() -> (r: Self)
        ensures
            r.wf(),
            r.ranges() =~= Seq::<IdRange>::empty(),
            forall|id: int| !r.covers(id),
    {
        IntervalSet { items: Vec::new() }
    }

    pub fn is_empty(&self) -> (r: bool)
        ensures
            r == self.spec_is_empty(),
    {
        self.items.len() == 0
    }

    /// Everything a well-formed set covers is a valid message id.
    pub proof fn lemma_covers_valid(self, id: int)
        requires
            self.wf(),
            self.covers(id),
        ensures
            valid_message_id(id),
    {
        let k = choose|k: int|
            0 <= k < self.ranges().len() && (#[trigger] self.ranges()[k]).from_id <= id
                <= self.ranges()[k].to_id;
        assert(range_wf(self.ranges()[k]));
    }

    /// An empty interval set covers nothing; a non-empty well-formed one
    /// covers its first lower bound.
    pub proof fn lemma_empty_iff_covers_nothing(self)
        requires
            self.wf(),
        ensures
            self.spec_is_empty() <==> forall|id: int| !self.covers(id),
    {
        if !self.spec_is_empty() {
            let r = self.ranges()[0];
            assert(self.covers(r.from_id as int));
        }
    }

    /// Number of ids in the set.
    pub fn len(&self) -> (r: u64)
        requires
            self.wf(),
        ensures
            r == ranges_count(self.ranges()),
    {
        let mut total: u64 = 0;
        let mut i: usize = 0;
        while i < self.items.len()
            invariant
                self.wf(),
                0 <= i <= self.items.len(),
                total == ranges_count(self.ranges().take(i as int)),
                i > 0 ==> total <= self.ranges()[i - 1].to_id + 1,
            decreases self.items.len() - i,
        {
            let r = self.items[i];
            proof {
                assert(self.ranges().take(i + 1).drop_last() =~= self.ranges().take(i as int));
                assert(self.ranges().take(i + 1).last() == r);
                if i > 0 {
                    assert(self.ranges()[i - 1].to_id + 1 < r.from_id);
                }
            }
            total = total + (r.to_id - r.from_id) as u64 + 1;
            i = i + 1;
        }
        proof {
            assert(self.ranges().take(self.items.len() as int) =~= self.ranges());
        }
        total
    }

    /// Smallest id in the set, without removing it.
    pub fn peek(&self) -> (r: Option<MessageId>)
        requires
            self.wf(),
        ensures
            match r {
                Option::None => self.spec_is_empty(),
                Option::Some(m) => {
                    &&& self.covers(m as int)
                    &&& forall|id: int| self.covers(id) ==> m <= id
                },
            },
    {
        if self.items.len() == 0 {
            Option::None
        } else {
            let m = self.items[0].from_id;
            proof {
                assert(self.covers(m as int));
                assert forall|id: int| self.covers(id) implies m <= id by {
                    let k = choose|k: int|
                        0 <= k < self.ranges().len() && (#[trigger] self.ranges()[k]).from_id <= id
                            <= self.ranges()[k].to_id;
                    if k > 0 {
                        assert(self.ranges()[0].to_id + 1 < self.ranges()[k].from_id);
                    }
                }
            }
            Option::Some(m)
        }
    }

    /// Removes and returns the smallest id.
    pub fn dequeue(&mut self) -> (r: Option<MessageId>)
        requires
            old(self).wf(),
        ensures
            final(self).wf(),
            match r {
                Option::None => {
                    &&& old(self).spec_is_empty()
                    &&& *final(self) == *old(self)
                },
                Option::Some(m) => {
                    &&& old(self).covers(m as int)
                    &&& forall|id: int| old(self).covers(id) ==> m <= id
                    &&& forall|id: int|
                        final(self).covers(id) <==> (old(self).covers(id) && id != m)
                    &&& ranges_count(final(self).ranges()) == ranges_count(old(self).ranges()) - 1
                },
            },
    {
        if self.items.len() == 0 {
            return Option::None;
        }
        let first = self.items[0];
        let m = first.from_id;
        proof {
            assert(self.covers(m as int));
            assert forall|id: int| self.covers(id) implies m <= id by {
                let k = choose|k: int|
                    0 <= k < self.ranges().len() && (#[trigger] self.ranges()[k]).from_id <= id
                        <= self.ranges()[k].to_id;
                if k > 0 {
                    assert(self.ranges()[0].to_id + 1 < self.ranges()[k].from_id);
                }
            }
        }
        let ghost old_s = self.ranges();
        if first.from_id == first.to_id {
            self.items.remove(0);
            proof {
                lemma_count_head(old_s);
                assert(self.ranges() =~= old_s.drop_first());
                assert forall|id: int| final(self).covers(id) implies old(self).covers(id) && id
                    != m by {
                    let k = choose|k: int|
                        0 <= k < self.ranges().len() && (#[trigger] self.ranges()[k]).from_id <= id
                            <= self.ranges()[k].to_id;
                    assert(old_s[k + 1].from_id <= id <= old_s[k + 1].to_id);
                    assert(old_s[0].to_id + 1 < old_s[k + 1].from_id);
                }
                assert forall|id: int| old(self).covers(id) && id != m implies final(self).covers(id) by {
                    let k = choose|k: int|
                        0 <= k < old_s.len() && (#[trigger] old_s[k]).from_id <= id
                            <= old_s[k].to_id;
                    if k == 0 {
                        assert(id == m);
                    } else {
                        assert(self.ranges()[k - 1].from_id <= id <= self.ranges()[k - 1].to_id);
                    }
                }
            }
        } else {
            self.items[0] = IdRange { from_id: m + 1, to_id: first.to_id };
            proof {
                lemma_count_head(old_s);
                lemma_count_head(self.ranges());
                assert(self.ranges().drop_first() =~= old_s.drop_first());
                assert forall|id: int| final(self).covers(id) implies old(self).covers(id) && id
                    != m by {
                    let k = choose|k: int|
                        0 <= k < self.ranges().len() && (#[trigger] self.ranges()[k]).from_id <= id
                            <= self.ranges()[k].to_id;
                    assert(old_s[k].from_id <= id <= old_s[k].to_id);
                    if k > 0 {
                        assert(old_s[0].to_id + 1 < old_s[k].from_id);
                    }
                }
                assert forall|id: int| old(self).covers(id) && id != m implies final(self).covers(id) by {
                    let k = choose|k: int|
                        0 <= k < old_s.len() && (#[trigger] old_s[k]).from_id <= id
                            <= old_s[k].to_id;
                    assert(self.ranges()[k].from_id <= id <= self.ranges()[k].to_id);
                }
            }
        }
        Option::Some(m)
    }

    /// Adds one id, merging with a touching range on either side.
    pub fn enqueue(&mut self, id: MessageId)
        requires
            old(self).wf(),
            valid_message_id(id as int),
        ensures
            final(self).wf(),
            forall|x: int| final(self).covers(x) <==> (old(self).covers(x) || x == id),
    {
        let ghost old_s = self.ranges();
        let mut i: usize = 0;
        while i < self.items.len() && self.items[i].to_id + 1 < id
            invariant
                *self == *old(self),
                old_s == self.ranges(),
                0 <= i <= self.items.len(),
                forall|k: int| 0 <= k < i ==> (#[trigger] self.ranges()[k]).to_id + 1 < id,
                self.wf(),
                valid_message_id(id as int),
            decreases self.items.len() - i,
        {
            i = i + 1;
        }
        if i == self.items.len() {
            // id lies above every range and touches none of them.
            self.items.push(IdRange { from_id: id, to_id: id });
            proof {
                assert(self.ranges() =~= old_s.push(IdRange { from_id: id, to_id: id }));
                self.lemma_covers_after_point_insert(old_s, id, i as int);
            }
            return ;
        }
        let cur = self.items[i];
        if id + 1 < cur.from_id {
            // id falls in the gap before range i and touches nothing.
            self.items.insert(i, IdRange { from_id: id, to_id: id });
            proof {
                self.lemma_covers_after_point_insert(old_s, id, i as int);
            }
            return ;
        }
        if cur.from_id <= id && id <= cur.to_id {
            // Already present.
            proof {
                assert(old(self).covers(id as int));
            }
            return ;
        }
        if id + 1 == cur.from_id {
            // Extend range i downward.
            self.items[i] = IdRange { from_id: id, to_id: cur.to_id };
            proof {
                let s = self.ranges();
                assert forall|x: int| ranges_cover(s, x) implies ranges_cover(old_s, x) || x
                    == id by {
                    let k = choose|k: int|
                        0 <= k < s.len() && (#[trigger] s[k]).from_id <= x <= s[k].to_id;
                    if k != i {
                        assert(old_s[k].from_id <= x <= old_s[k].to_id);
                    } else if x != id {
                        assert(old_s[k].from_id <= x <= old_s[k].to_id);
                    }
                }
                assert forall|x: int| ranges_cover(old_s, x) || x == id implies ranges_cover(
                    s,
                    x,
                ) by {
                    if x == id {
                        assert(s[i as int].from_id <= x <= s[i as int].to_id);
                    } else {
                        let k = choose|k: int|
                            0 <= k < old_s.len() && (#[trigger] old_s[k]).from_id <= x
                                <= old_s[k].to_id;
                        assert(s[k].from_id <= x <= s[k].to_id);
                    }
                }
            }
            return ;
        }
        // Now id == cur.to_id + 1: extend range i upward, possibly fusing
        // with range i + 1.
        let fuse = i + 1 < self.items.len() && id + 1 == self.items[i + 1].from_id;
        if fuse {
            let next_to = self.items[i + 1].to_id;
            self.items[i] = IdRange { from_id: cur.from_id, to_id: next_to };
            self.items.remove(i + 1);
            proof {
                let s = self.ranges();
                assert forall|x: int| ranges_cover(s, x) implies ranges_cover(old_s, x) || x
                    == id by {
                    let k = choose|k: int|
                        0 <= k < s.len() && (#[trigger] s[k]).from_id <= x <= s[k].to_id;
                    if k < i {
                        assert(old_s[k].from_id <= x <= old_s[k].to_id);
                    } else if k == i {
                        if x != id {
                            if x <= cur.to_id {
                                assert(old_s[k].from_id <= x <= old_s[k].to_id);
                            } else {
                                assert(old_s[i + 1].from_id <= x <= old_s[i + 1].to_id);
                            }
                        }
                    } else {
                        assert(old_s[k + 1].from_id <= x <= old_s[k + 1].to_id);
                    }
                }
                assert forall|x: int| ranges_cover(old_s, x) || x == id implies ranges_cover(
                    s,
                    x,
                ) by {
                    if x == id {
                        assert(s[i as int].from_id <= x <= s[i as int].to_id);
                    } else {
                        let k = choose|k: int|
                            0 <= k < old_s.len() && (#[trigger] old_s[k]).from_id <= x
                                <= old_s[k].to_id;
                        if k < i {
                            assert(s[k].from_id <= x <= s[k].to_id);
                        } else if k == i || k == i + 1 {
                            assert(s[i as int].from_id <= x <= s[i as int].to_id);
                        } else {
                            assert(s[k - 1].from_id <= x <= s[k - 1].to_id);
                        }
                    }
                }
            }
        } else {
            self.items[i] = IdRange { from_id: cur.from_id, to_id: id };
            proof {
                let s = self.ranges();
                assert forall|x: int| ranges_cover(s, x) implies ranges_cover(old_s, x) || x
                    == id by {
                    let k = choose|k: int|
                        0 <= k < s.len() && (#[trigger] s[k]).from_id <= x <= s[k].to_id;
                    if k != i || x != id {
                        assert(old_s[k].from_id <= x <= old_s[k].to_id);
                    }
                }
                assert forall|x: int| ranges_cover(old_s, x) || x == id implies ranges_cover(
                    s,
                    x,
                ) by {
                    if x == id {
                        assert(s[i as int].from_id <= x <= s[i as int].to_id);
                    } else {
                        let k = choose|k: int|
                            0 <= k < old_s.len() && (#[trigger] old_s[k]).from_id <= x
                                <= old_s[k].to_id;
                        assert(s[k].from_id <= x <= s[k].to_id);
                    }
                }
            }
        }
    }

    /// After inserting the lone range `{id, id}` at position `i` of `old_s`,
    /// where it touches neither neighbour, coverage is coverage of `old_s`
    /// plus `id`.
    proof fn lemma_covers_after_point_insert(self, old_s: Seq<IdRange>, id: MessageId, i: int)
        requires
            ranges_wf(old_s),
            valid_message_id(id as int),
            0 <= i <= old_s.len(),
            self.ranges() =~= old_s.insert(i, IdRange { from_id: id, to_id: id }),
            forall|k: int| 0 <= k < i ==> (#[trigger] old_s[k]).to_id + 1 < id,
            i < old_s.len() ==> id + 1 < old_s[i].from_id,
        ensures
            self.wf(),
            forall|x: int| self.covers(x) <==> (ranges_cover(old_s, x) || x == id),
    {
        let s = self.ranges();
        assert forall|x: int| ranges_cover(s, x) implies ranges_cover(old_s, x) || x == id by {
            let k = choose|k: int|
                0 <= k < s.len() && (#[trigger] s[k]).from_id <= x <= s[k].to_id;
            if k < i {
                assert(old_s[k].from_id <= x <= old_s[k].to_id);
            } else if k > i {
                assert(old_s[k - 1].from_id <= x <= old_s[k - 1].to_id);
            }
        }
        assert forall|x: int| ranges_cover(old_s, x) || x == id implies ranges_cover(s, x) by {
            if x == id {
                assert(s[i].from_id <= x <= s[i].to_id);
            } else {
                let k = choose|k: int|
                    0 <= k < old_s.len() && (#[trigger] old_s[k]).from_id <= x <= old_s[k].to_id;
                if k < i {
                    assert(s[k].from_id <= x <= s[k].to_id);
                } else {
                    assert(s[k + 1].from_id <= x <= s[k + 1].to_id);
                }
            }
        }
    }

    /// Adds the inclusive range `[from_id, to_id]`, which must lie strictly
    /// above everything already present. This is the bulk-publish path: a
    /// million consecutive ids occupy one entry.
    pub fn push_back_range(&mut self, from_id: MessageId, to_id: MessageId)
        requires
            old(self).wf(),
            valid_message_id(from_id as int),
            valid_message_id(to_id as int),
            from_id <= to_id,
            forall|id: int| old(self).covers(id) ==> id < from_id,
        ensures
            final(self).wf(),
            forall|x: int|
                final(self).covers(x) <==> (old(self).covers(x) || from_id <= x <= to_id),
    {
        let ghost old_s = self.ranges();
        let n = self.items.len();
        proof {
            if n > 0 {
                assert forall|k: int| 0 <= k < n implies (#[trigger] old_s[k]).to_id
                    < from_id by {
                    assert(old(self).covers(old_s[k].to_id as int));
                }
            }
        }
        if n > 0 && self.items[n - 1].to_id + 1 == from_id {
            let last = self.items[n - 1];
            self.items[n - 1] = IdRange { from_id: last.from_id, to_id };
            proof {
                let s = self.ranges();
                assert forall|x: int| ranges_cover(s, x) implies ranges_cover(old_s, x) || (from_id
                    <= x <= to_id) by {
                    let k = choose|k: int|
                        0 <= k < s.len() && (#[trigger] s[k]).from_id <= x <= s[k].to_id;
                    if k + 1 < s.len() || x < from_id {
                        assert(old_s[k].from_id <= x <= old_s[k].to_id);
                    }
                }
                assert forall|x: int|
                    ranges_cover(old_s, x) || (from_id <= x <= to_id) implies ranges_cover(
                    s,
                    x,
                ) by {
                    if from_id <= x <= to_id {
                        assert(s[n - 1].from_id <= x <= s[n - 1].to_id);
                    } else {
                        let k = choose|k: int|
                            0 <= k < old_s.len() && (#[trigger] old_s[k]).from_id <= x
                                <= old_s[k].to_id;
                        assert(s[k].from_id <= x <= s[k].to_id);
                    }
                }
            }
        } else {
            self.items.push(IdRange { from_id, to_id });
            proof {
                let s = self.ranges();
                assert forall|x: int| ranges_cover(s, x) implies ranges_cover(old_s, x) || (from_id
                    <= x <= to_id) by {
                    let k = choose|k: int|
                        0 <= k < s.len() && (#[trigger] s[k]).from_id <= x <= s[k].to_id;
                    if k < n {
                        assert(old_s[k].from_id <= x <= old_s[k].to_id);
                    }
                }
                assert forall|x: int|
                    ranges_cover(old_s, x) || (from_id <= x <= to_id) implies ranges_cover(
                    s,
                    x,
                ) by {
                    if from_id <= x <= to_id {
                        assert(s[n as int].from_id <= x <= s[n as int].to_id);
                    } else {
                        let k = choose|k: int|
                            0 <= k < old_s.len() && (#[trigger] old_s[k]).from_id <= x
                                <= old_s[k].to_id;
                        assert(s[k].from_id <= x <= s[k].to_id);
                    }
                }
            }
        }
    }

    /// The ranges as a plain vector, for persistence snapshots.
    pub fn get_snapshot(&self) -> (r: Vec<IdRange>)
        ensures
            r@ =~= self.ranges(),
    {
        let mut out: Vec<IdRange> = Vec::new();
        let mut i: usize = 0;
        while i < self.items.len()
            invariant
                0 <= i <= self.items.len(),
                out@ =~= self.ranges().take(i as int),
            decreases self.items.len() - i,
        {
            out.push(self.items[i]);
            i = i + 1;
        }
        proof {
            assert(self.ranges().take(self.items.len() as int) =~= self.ranges());
        }
        out
    }

    /// Rebuilds a set from persisted ranges; `None` when they are not sorted,
    /// merged and in-bounds as `get_snapshot` writes them.
    pub fn restore(ranges: Vec<IdRange>) -> (r: Option<IntervalSet>)
        ensures
            match r {
                Option::Some(s) => {
                    &&& s.wf()
                    &&& s.ranges() =~= ranges@
                    &&& ranges_wf(ranges@)
                },
                Option::None => !ranges_wf(ranges@),
            },
    {
        let n = ranges.len();
        let mut i: usize = 0;
        while i < n
            invariant
                0 <= i <= n,
                n == ranges.len(),
                forall|k: int| 0 <= k < i ==> range_wf(#[trigger] ranges@[k]),
                forall|k: int| 0 < k < i ==> ranges@[k - 1].to_id + 1 < (#[trigger] ranges@[k]).from_id,
            decreases n - i,
        {
            let r = ranges[i];
            if !(0 <= r.from_id && r.from_id <= r.to_id && r.to_id < i64::MAX) {
                return Option::None;
            }
            if i > 0 && !(ranges[i - 1].to_id + 1 < r.from_id) {
                return Option::None;
            }
            i = i + 1;
        }
        proof {
            assert forall|a: int, b: int| 0 <= a < b < n implies (#[trigger] ranges@[a]).to_id + 1
                < (#[trigger] ranges@[b]).from_id by {
                lemma_sorted_gaps(ranges@, a, b);
            }
        }
        Option::Some(IntervalSet { items: ranges })
    }
}

/// The count splits at the first range.
pub proof fn lemma_count_head(s: Seq<IdRange>)
    requires
        s.len() > 0,
    ensures
        ranges_count(s) == (s[0].to_id - s[0].from_id + 1) + ranges_count(s.drop_first()),
    decreases s.len(),
{
    if s.len() == 1 {
        assert(s.drop_last().len() == 0);
        assert(s.drop_first().len() == 0);
        assert(ranges_count(s.drop_last()) == 0);
        assert(ranges_count(s.drop_first()) == 0);
        assert(ranges_count(s) == ranges_count(s.drop_last()) + s.last().to_id - s.last().from_id
            + 1);
        assert(s.last() == s[0]);
    } else {
        lemma_count_head(s.drop_last());
        assert(s.drop_last().drop_first() =~= s.drop_first().drop_last());
        assert(s.drop_last()[0] == s[0]);
        assert(s.drop_first().last() == s.last());
        assert(s.drop_first().len() > 0);
        assert(ranges_count(s.drop_first()) == ranges_count(s.drop_first().drop_last())
            + s.drop_first().last().to_id - s.drop_first().last().from_id + 1);
    }
}

/// A well-formed range list covers a non-negative number of ids.
pub proof fn lemma_count_nonneg(s: Seq<IdRange>)
    requires
        forall|i: int| 0 <= i < s.len() ==> range_wf(#[trigger] s[i]),
    ensures
        ranges_count(s) >= 0,
    decreases s.len(),
{
    if s.len() > 0 {
        lemma_count_nonneg(s.drop_last());
        assert(range_wf(s[s.len() - 1]));
    }
}

/// Chained adjacent gaps give gaps between any two positions.
proof fn lemma_sorted_gaps(s: Seq<IdRange>, a: int, b: int)
    requires
        forall|k: int| 0 <= k < s.len() ==> range_wf(#[trigger] s[k]),
        forall|k: int| 0 < k < s.len() ==> s[k - 1].to_id + 1 < (#[trigger] s[k]).from_id,
        0 <= a < b < s.len(),
    ensures
        s[a].to_id + 1 < s[b].from_id,
    decreases b - a,
{
    if a + 1 < b {
        lemma_sorted_gaps(s, a + 1, b);
    }
}

} // verus!
