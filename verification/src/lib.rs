//! Core of a message-bus server: topics hold pages of messages identified by
//! monotonically increasing ids; queues track which ids are still owed to
//! subscribers as interval sets; delivery builds size-bounded buckets and
//! keeps the in-flight set consistent across confirmations and disconnects.
use vstd::prelude::*;

pub mod bucket;
pub mod delivery;
pub mod errors;
pub mod ids;
pub mod intervals;
pub mod loader;
pub mod metrics;
pub mod operations;
pub mod pages;
pub mod queue;
pub mod session;
pub mod status;
pub mod subscribers;
pub mod topic;

verus! {

} // verus!
