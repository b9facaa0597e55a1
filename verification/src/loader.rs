//! Decisions of the page loader. The blob-store fetch itself is I/O and
//! runs outside; this module decides, after each failed attempt, whether to
//! retry or to give the cache an all-missing page so delivery can proceed.
use vstd::prelude::*;

use crate::ids::PageId;
use crate::pages::{build_ready_page, Page, PageState};

verus! {

/// Retries stop after this many failed attempts.
pub const MAX_LOAD_ATTEMPTS: u32 = 5;

/// How a load attempt failed: a fault worth retrying, or a format or
/// compression fault that no retry will cure.
#[derive(Clone, Copy, PartialEq, Eq, Structural, Debug)]
pub enum PageLoadError {
    Transient,
    ZipOperationError,
}

/// What the loader does next.
#[derive(Clone, Copy, PartialEq, Eq, Structural, Debug)]
pub enum LoadDecision {
    Retry,
    GiveUpMissing,
}

/// After the attempt numbered `attempt_no` (counting from zero) failed with
/// `error`: a corrupt page is never retried, and a transient fault is
/// retried until the attempt budget is spent.
pub fn next_load_decision(attempt_no: u32, error: PageLoadError) -> (r: LoadDecision)
    ensures
        r == (match error {
            PageLoadError::ZipOperationError => LoadDecision::GiveUpMissing,
            PageLoadError::Transient => {
                if attempt_no + 1 >= MAX_LOAD_ATTEMPTS {
                    LoadDecision::GiveUpMissing
                } else {
                    LoadDecision::Retry
                }
            },
        }),
{
    match error {
        PageLoadError::ZipOperationError => LoadDecision::GiveUpMissing,
        PageLoadError::Transient => {
            if attempt_no >= MAX_LOAD_ATTEMPTS - 1 {
                LoadDecision::GiveUpMissing
            } else {
                LoadDecision::Retry
            }
        },
    }
}

/// The page a terminally failed load yields: fully loaded, every slot
/// missing, so that delivery drops the range and moves on.
pub fn create_page_as_missing(page_id: PageId) -> (r: Page)
    requires
        Page::page_id_wf(page_id as int),
    ensures
        r.wf(),
        r.page_id == page_id,
        r.state == PageState::Ready,
        forall|id: int|
            crate::ids::spec_page_first_id(page_id as int) <= id
                < crate::ids::spec_page_first_id(page_id as int) + crate::ids::PAGE_WIDTH ==> !(
            #[trigger] r.spec_has_message(id)) && r.spec_message_size(id)
                == crate::pages::MessageSize::CanNotBeLoaded,
{
    let empty: Vec<crate::pages::MessageContent> = Vec::new();
    let r = build_ready_page(page_id, empty);
    proof {
        let first = crate::ids::spec_page_first_id(page_id as int);
        assert forall|id: int|
            first <= id < first + crate::ids::PAGE_WIDTH implies !(#[trigger] r.spec_has_message(
            id,
        )) && r.spec_message_size(id) == crate::pages::MessageSize::CanNotBeLoaded by {
            assert(!r.spec_has_message(id));
            let off = id - first;
            assert(match r.entries@[off] {
                crate::pages::PageEntry::Ready(_) => false,
                crate::pages::PageEntry::Missing => true,
            });
        }
    }
    r
}

} // verus!
