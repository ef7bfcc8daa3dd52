//! The decisions of one connection's handler: where a request goes and what
//! is sent there, what answers a backend that cannot be reached, and how the
//! connection moves from one phase to the next.

use vstd::prelude::*;
use vstd::slice::slice_to_vec;
use crate::header::ReadError;
use crate::rewrite::rewrite_request_path;
use crate::rewrite::rewritten;
use crate::rewrite::strip_prefix;
use crate::rewrite::stripped;
use crate::route::resolves_to;
use crate::route::RouteConfig;

verus! {

/// The text of the response that answers a backend that cannot be reached.
pub open spec fn bad_gateway_text() -> Seq<char> {
    "HTTP/1.1 502 Bad Gateway\r\nContent-Length: 15\r\n\r\nBad Gateway\r\n"@
}

/// The response that the client is sent when the backend cannot be reached.
pub fn bad_gateway_response() -> (response: Vec<u8>)
    ensures
        response@ == vstd::utf8::encode_utf8(bad_gateway_text()),
{
    slice_to_vec("HTTP/1.1 502 Bad Gateway\r\nContent-Length: 15\r\n\r\nBad Gateway\r\n".as_bytes())
}

/// Where one request goes and what is sent there.
#[derive(Clone, Debug)]
pub struct ForwardPlan {
    /// The backend to connect to.
    pub backend: String,
    /// The route prefix that matched; empty where the default backend serves.
    pub matched_prefix: String,
    /// The path as the backend will see it, where rewriting is on.
    pub rewritten_path: Option<String>,
    /// The bytes to send to the backend first.
    pub request: Vec<u8>,
}

/// The path that the backend sees for `path` under the matched `prefix`.
pub open spec fn forwarded_path(path: Seq<char>, prefix: Seq<char>) -> Seq<char> {
    if prefix.len() > 0 {
        stripped(path, prefix)
    } else {
        path
    }
}

/// Routes the request with path `path` and buffered bytes `raw`: the backend
/// is the one that the path resolves to, and the bytes are rewritten exactly
/// when rewriting is on and a prefix matched.
pub fn plan_forward(config: &RouteConfig, path: &str, raw: &[u8]) -> (plan: ForwardPlan)
    ensures
        resolves_to(
            config.table(),
            config.default_backend_text(),
            path@,
            plan.backend@,
            plan.matched_prefix@,
        ),
        plan.request@ == if config.rewrites() {
            rewritten(raw@, plan.matched_prefix@)
        } else {
            raw@
        },
        match plan.rewritten_path {
            Some(p) => config.rewrites() && p@ == forwarded_path(path@, plan.matched_prefix@),
            None => !config.rewrites(),
        },
{
    let (backend, prefix) = config.get_backend_and_prefix(path);
    if config.rewrite_paths() {
        let request = rewrite_request_path(raw, path, prefix);
        let new_path = if prefix.is_empty() {
            String::from_str(path)
        } else {
            strip_prefix(path, prefix)
        };
        ForwardPlan {
            backend: String::from_str(backend),
            matched_prefix: String::from_str(prefix),
            rewritten_path: Some(new_path),
            request,
        }
    } else {
        ForwardPlan {
            backend: String::from_str(backend),
            matched_prefix: String::from_str(prefix),
            rewritten_path: None,
            request: slice_to_vec(raw),
        }
    }
}

/// How the relay between client and backend failed.
#[derive(Clone, Copy, Debug, PartialEq, Eq, Structural)]
pub enum RelayFault {
    /// One side ended its stream in the middle of a transfer.
    UnexpectedEof,
    /// One side reset the connection.
    ConnectionReset,
    /// Any other I/O error.
    Other,
}

/// Whether a relay fault is worth a log line: an ended stream and a reset
/// connection are not.
pub open spec fn is_logged(fault: RelayFault) -> bool {
    fault == RelayFault::Other
}

/// Whether the handler logs the relay fault `fault`.
pub fn should_log(fault: RelayFault) -> (log: bool)
    ensures
        log == is_logged(fault),
{
    match fault {
        RelayFault::UnexpectedEof => false,
        RelayFault::ConnectionReset => false,
        RelayFault::Other => true,
    }
}

/// The phases of one connection.
#[derive(Clone, Copy, Debug, PartialEq, Eq, Structural)]
pub enum Phase {
    /// The client is connected; its head is being read.
    Accepted,
    /// The request is routed; the backend is being dialled.
    BackendConnecting,
    /// The backend is connected; the request is being sent to it.
    BackendConnected,
    /// Bytes flow both ways.
    Relaying,
    /// The connection is over.
    Closed,
}

/// What happened to the connection since the last action.
#[derive(Clone, Copy, Debug, PartialEq, Eq, Structural)]
pub enum Event {
    /// The head arrived and gave a path.
    HeadRead,
    /// Header acquisition failed.
    ReadFailed(ReadError),
    /// The backend accepted the connection.
    Connected,
    /// The backend could not be reached.
    ConnectFailed,
    /// The request was written to the backend.
    Forwarded,
    /// Writing the request to the backend failed.
    ForwardFailed,
    /// The relay ended because one side closed.
    RelayEnded,
    /// The relay ended with a fault.
    RelayFailed(RelayFault),
}

/// What the handler does next.
#[derive(Clone, Copy, Debug, PartialEq, Eq, Structural)]
pub enum Action {
    /// Route the request and dial the backend.
    Connect,
    /// Send the request bytes to the backend.
    Forward,
    /// Relay bytes both ways until one side closes.
    Relay,
    /// Send the bad-gateway response to the client, log and close.
    ReplyBadGateway,
    /// Log the cause and close, sending nothing.
    LogAndClose,
    /// Close, sending and logging nothing.
    Close,
}

/// The handler's transition: the phase and action that follow `event` in
/// `phase`. An event that does not belong to the phase closes the
/// connection.
pub open spec fn transition(phase: Phase, event: Event) -> (Phase, Action) {
    match (phase, event) {
        (Phase::Accepted, Event::HeadRead) => (Phase::BackendConnecting, Action::Connect),
        (Phase::Accepted, Event::ReadFailed(_)) => (Phase::Closed, Action::LogAndClose),
        (Phase::BackendConnecting, Event::Connected) => (Phase::BackendConnected, Action::Forward),
        (Phase::BackendConnecting, Event::ConnectFailed) => (
            Phase::Closed,
            Action::ReplyBadGateway,
        ),
        (Phase::BackendConnected, Event::Forwarded) => (Phase::Relaying, Action::Relay),
        (Phase::BackendConnected, Event::ForwardFailed) => (Phase::Closed, Action::LogAndClose),
        (Phase::Relaying, Event::RelayEnded) => (Phase::Closed, Action::Close),
        (Phase::Relaying, Event::RelayFailed(fault)) => (
            Phase::Closed,
            if is_logged(fault) {
                Action::LogAndClose
            } else {
                Action::Close
            },
        ),
        _ => (Phase::Closed, Action::Close),
    }
}

/// Moves the connection on by one event.
pub fn advance(phase: Phase, event: Event) -> (next: (Phase, Action))
    ensures
        next == transition(phase, event),
{
    match (phase, event) {
        (Phase::Accepted, Event::HeadRead) => (Phase::BackendConnecting, Action::Connect),
        (Phase::Accepted, Event::ReadFailed(_)) => (Phase::Closed, Action::LogAndClose),
        (Phase::BackendConnecting, Event::Connected) => (Phase::BackendConnected, Action::Forward),
        (Phase::BackendConnecting, Event::ConnectFailed) => (
            Phase::Closed,
            Action::ReplyBadGateway,
        ),
        (Phase::BackendConnected, Event::Forwarded) => (Phase::Relaying, Action::Relay),
        (Phase::BackendConnected, Event::ForwardFailed) => (Phase::Closed, Action::LogAndClose),
        (Phase::Relaying, Event::RelayEnded) => (Phase::Closed, Action::Close),
        (Phase::Relaying, Event::RelayFailed(fault)) => {
            if should_log(fault) {
                (Phase::Closed, Action::LogAndClose)
            } else {
                (Phase::Closed, Action::Close)
            }
        },
        _ => (Phase::Closed, Action::Close),
    }
}

/// Whether `event` reports a failure.
pub open spec fn is_failure(event: Event) -> bool {
    event is ReadFailed || event is ConnectFailed || event is ForwardFailed || event is RelayFailed
}

/// Every failure closes the connection, and the bad-gateway response is sent
/// for one cause only: a backend that cannot be reached while it is dialled.
pub proof fn lemma_failures_close(phase: Phase, event: Event)
    ensures
        is_failure(event) ==> transition(phase, event).0 == Phase::Closed,
        transition(phase, event).1 == Action::ReplyBadGateway <==> phase
            == Phase::BackendConnecting && event == Event::ConnectFailed,
        phase == Phase::Closed ==> transition(phase, event) == (Phase::Closed, Action::Close),
{
}

} // verus!
