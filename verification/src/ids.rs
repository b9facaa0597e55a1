//! Message and page identifiers. A message id is a non-negative 64-bit
//! integer, assigned monotonically per topic at publish time. Id space is
//! split into fixed-width pages: page `p` covers `[p * PAGE_WIDTH, (p + 1) *
//! PAGE_WIDTH)`.
use vstd::prelude::*;

verus! {

/// Number of message ids covered by one page.
pub const PAGE_WIDTH: i64 = 1000;

pub type MessageId = i64;

pub type PageId = i64;

/// A message id the system accepts: non-negative and far enough from the top
/// of the id space that page arithmetic cannot overflow.
pub open spec fn valid_message_id(id: int) -> bool {
    0 <= id < i64::MAX
}

/// The page a message id belongs to, as a mathematical function.
pub open spec fn spec_page_of(id: int) -> int {
    id / (PAGE_WIDTH as int)
}

/// First message id of a page.
pub open spec fn spec_page_first_id(page_id: int) -> int {
    page_id * (PAGE_WIDTH as int)
}

/// The page a message id belongs to.
pub fn get_page_id(id: MessageId) -> (r: PageId)
    requires
        valid_message_id(id as int),
    ensures
        r == spec_page_of(id as int),
        0 <= r <= id,
{
    id / PAGE_WIDTH
}

/// First message id covered by a page.
pub fn get_first_message_id_of_page(page_id: PageId) -> (r: MessageId)
    requires
        0 <= page_id,
        page_id * (PAGE_WIDTH as int) < i64::MAX,
    ensures
        r == spec_page_first_id(page_id as int),
{
    page_id * PAGE_WIDTH
}

/// Last message id covered by a page.
pub fn get_last_message_id_of_page(page_id: PageId) -> (r: MessageId)
    requires
        0 <= page_id,
        page_id * (PAGE_WIDTH as int) + (PAGE_WIDTH as int) <= i64::MAX,
    ensures
        r == spec_page_first_id(page_id as int) + PAGE_WIDTH - 1,
        spec_page_of(r as int) == page_id,
{
    let first = page_id * PAGE_WIDTH;
    proof {
        lemma_page_of_range(page_id as int, (first + PAGE_WIDTH - 1) as int);
    }
    first + PAGE_WIDTH - 1
}

/// Every id inside a page's range maps back to that page.
pub proof fn lemma_page_of_range(page_id: int, id: int)
    requires
        0 <= page_id,
        spec_page_first_id(page_id) <= id < spec_page_first_id(page_id + 1),
    ensures
        spec_page_of(id) == page_id,
{
    let w = PAGE_WIDTH as int;
    assert(page_id * w <= id < (page_id + 1) * w);
    assert((page_id + 1) * w == page_id * w + w) by (nonlinear_arith);
    assert(id / w == page_id) by (nonlinear_arith)
        requires
            w == 1000,
            page_id * w <= id < page_id * w + w,
            0 <= page_id,
    ;
}

/// A message id lies inside the range of its own page.
pub proof fn lemma_page_of_in_range(id: int)
    requires
        0 <= id,
    ensures
        spec_page_first_id(spec_page_of(id)) <= id < spec_page_first_id(spec_page_of(id))
            + PAGE_WIDTH,
        0 <= spec_page_of(id) <= id,
{
    let w = PAGE_WIDTH as int;
    assert((id / w) * w <= id < (id / w) * w + w && 0 <= id / w <= id) by (nonlinear_arith)
        requires
            w == 1000,
            0 <= id,
    ;
}

/// Page ids grow with message ids.
pub proof fn lemma_page_of_monotonic(a: int, b: int)
    requires
        0 <= a <= b,
    ensures
        spec_page_of(a) <= spec_page_of(b),
{
    let w = PAGE_WIDTH as int;
    assert(a / w <= b / w) by (nonlinear_arith)
        requires
            w == 1000,
            0 <= a <= b,
    ;
}

} // verus!
