//! The messages exchanged with the browser.

use vstd::prelude::*;
use crate::json::{get_member, has_member};

verus! {

/// Identifies a request on one connection; the response carries it back.
#[derive(Debug, Clone, Copy, PartialEq, Eq, Hash, Structural)]
pub struct CallId(pub u64);

/// A command ready to be sent: its method, the session it is for, and its
/// parameters.
#[derive(Debug)]
pub struct Request {
    pub method: String,
    pub session_id: Option<String>,
    pub params: serde_json::Value,
}

/// A request as it goes on the wire, with the id that was assigned to it.
#[derive(Debug)]
pub struct MethodCall {
    pub id: CallId,
    pub method: String,
    pub session_id: Option<String>,
    pub params: serde_json::Value,
}

/// The error object of a response.
#[derive(Debug)]
pub struct ResponseError {
    pub code: i64,
    pub message: String,
}

/// An inbound message that answers the request with the same id.
#[derive(Debug)]
pub struct Response {
    pub id: CallId,
    pub result: Option<serde_json::Value>,
    pub error: Option<ResponseError>,
}

/// The result of a command together with the id and method of its request.
#[derive(Debug)]
pub struct CommandResponse<T> {
    pub id: CallId,
    pub result: T,
    pub method: String,
}

/// What an inbound message is.
#[derive(Debug, Clone, Copy, PartialEq, Eq, Structural)]
pub enum MessageKind {
    /// The answer to a request: it carries the id of the request.
    Response,
    /// An event: it carries no id, but the method that names it.
    Event,
    /// Neither of the two.
    Unknown,
}

/// What a message with the given members is: one with an `id` answers a
/// request, one without an `id` and with a `method` is an event.
pub open spec fn kind_of(message: serde_json::Value) -> MessageKind {
    if has_member(message, "id"@) {
        MessageKind::Response
    } else if has_member(message, "method"@) {
        MessageKind::Event
    } else {
        MessageKind::Unknown
    }
}

/// Tells the answers to requests from the events among the inbound messages.
pub fn message_kind(message: &serde_json::Value) -> (kind: MessageKind)
    ensures
        kind == kind_of(*message),
{
    if get_member(message, "id").is_some() {
        MessageKind::Response
    } else if get_member(message, "method").is_some() {
        MessageKind::Event
    } else {
        MessageKind::Unknown
    }
}

} // verus!
