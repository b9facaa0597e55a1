//! How operations fail. Per-request failures are surfaced to the client as
//! a reject packet and never disturb other sessions.
use vstd::prelude::*;

verus! {

#[derive(Debug)]
pub enum OperationFailResult {
    ShuttingDown,
    TopicNotFound { topic_id: String },
    QueueNotFound { queue_id: String },
    SubscriberNotFound { id: i64 },
    SessionIsDisconnected,
    ProtocolError,
    MessageIdOverflow,
}

impl OperationFailResult {
    /// A short name for logs and reject packets.
    pub fn as_text(&self) -> (r: String)
        ensures
            r@ == match self {
                OperationFailResult::ShuttingDown => "shutting down"@,
                OperationFailResult::TopicNotFound { .. } => "topic not found"@,
                OperationFailResult::QueueNotFound { .. } => "queue not found"@,
                OperationFailResult::SubscriberNotFound { .. } => "subscriber not found"@,
                OperationFailResult::SessionIsDisconnected => "session is disconnected"@,
                OperationFailResult::ProtocolError => "protocol error"@,
                OperationFailResult::MessageIdOverflow => "message id space exhausted"@,
            },
    {
        match self {
            OperationFailResult::ShuttingDown => crate::session::str_to_string("shutting down"),
            OperationFailResult::TopicNotFound { .. } => crate::session::str_to_string(
                "topic not found",
            ),
            OperationFailResult::QueueNotFound { .. } => crate::session::str_to_string(
                "queue not found",
            ),
            OperationFailResult::SubscriberNotFound { .. } => crate::session::str_to_string(
                "subscriber not found",
            ),
            OperationFailResult::SessionIsDisconnected => crate::session::str_to_string(
                "session is disconnected",
            ),
            OperationFailResult::ProtocolError => crate::session::str_to_string("protocol error"),
            OperationFailResult::MessageIdOverflow => crate::session::str_to_string(
                "message id space exhausted",
            ),
        }
    }
}

} // verus!
