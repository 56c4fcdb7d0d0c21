//! The decisions of the server core: how connections are dispatched, and
//! what a connection handler does after each step.
use vstd::prelude::*;
use crate::error::HttpError;

verus! {

/// How the accept loop runs the handler of each accepted connection.
#[derive(Debug, Clone, Copy, PartialEq, Eq, Structural)]
pub enum Strategy {
    /// A task of its own for each connection, with no bound.
    PerConnection,
    /// Each connection handled in the accept loop before the next accept.
    Synchronous,
    /// A pool of this many workers; a full pool holds the accept loop back.
    Pool(usize),
}

/// The strategy that a thread count selects: 0 gives a task per connection,
/// 1 synchronous handling, more a pool of that many workers.
pub fn strategy_for(threads: usize) -> (r: Strategy)
    ensures
        threads == 0 ==> r == Strategy::PerConnection,
        threads == 1 ==> r == Strategy::Synchronous,
        threads > 1 ==> r == Strategy::Pool(threads),
{
    if threads == 0 {
        Strategy::PerConnection
    } else if threads == 1 {
        Strategy::Synchronous
    } else {
        Strategy::Pool(threads)
    }
}

/// What happened in the last step of a connection.
#[derive(Debug, Clone, Copy, PartialEq, Eq, Structural)]
pub enum ConnEvent {
    /// The connection was accepted and its peer address is known.
    Opened,
    /// The peer address could not be read.
    NoPeer,
    /// A request was received.
    RequestRead,
    /// Receiving a request failed.
    RequestFailed(HttpError),
    /// The server's request callback gave a response.
    Answered,
    /// The server's request callback gave no response.
    NoAnswer,
    /// The response was sent.
    ResponseSent,
    /// Sending the response failed.
    SendFailed(HttpError),
}

/// What a connection handler does next.
#[derive(Debug, Clone, Copy, PartialEq, Eq, Structural)]
pub enum ConnAction {
    /// Receive a request.
    ReadRequest,
    /// Hand the request to the server's request callback.
    CallHandler,
    /// Send the response.
    SendResponse,
    /// Hand the error to the server's error callback, then close.
    ReportAndClose(HttpError),
    /// Close the connection without writing anything more.
    Close,
}

/// The next step of a connection handler. A failed receive or send is
/// reported to the error callback and closes the connection; no response
/// closes it unanswered; a missing peer address drops it silently. After a
/// response is sent the handler reads the next request on the same socket
/// when `persistent`, and closes otherwise.
pub fn next_action(event: ConnEvent, persistent: bool) -> (r: ConnAction)
    ensures
        r == match event {
            ConnEvent::Opened => ConnAction::ReadRequest,
            ConnEvent::NoPeer => ConnAction::Close,
            ConnEvent::RequestRead => ConnAction::CallHandler,
            ConnEvent::RequestFailed(e) => ConnAction::ReportAndClose(e),
            ConnEvent::Answered => ConnAction::SendResponse,
            ConnEvent::NoAnswer => ConnAction::Close,
            ConnEvent::ResponseSent => if persistent {
                ConnAction::ReadRequest
            } else {
                ConnAction::Close
            },
            ConnEvent::SendFailed(e) => ConnAction::ReportAndClose(e),
        },
{
    match event {
        ConnEvent::Opened => ConnAction::ReadRequest,
        ConnEvent::NoPeer => ConnAction::Close,
        ConnEvent::RequestRead => ConnAction::CallHandler,
        ConnEvent::RequestFailed(e) => ConnAction::ReportAndClose(e),
        ConnEvent::Answered => ConnAction::SendResponse,
        ConnEvent::NoAnswer => ConnAction::Close,
        ConnEvent::ResponseSent => if persistent {
            ConnAction::ReadRequest
        } else {
            ConnAction::Close
        },
        ConnEvent::SendFailed(e) => ConnAction::ReportAndClose(e),
    }
}

/// Whether the accept loop accepts another connection: only while the
/// server has not been asked to stop.
pub fn keep_accepting(running: bool) -> (r: bool)
    ensures
        r == running,
{
    running
}

} // verus!
