//! Decisions of the acceptor and of each connection task. The tasks themselves perform the
//! I/O and report back what happened.
use vstd::prelude::*;

verus! {

/// File descriptors kept back from the connection cap for the listener, logs and the like.
pub const RESERVED_FDS: u64 = 64;

/// Connection cap used when the descriptor limit could not be raised.
pub const FALLBACK_MAX_CONNECTIONS: u64 = 512;

/// The connection cap: the raised descriptor limit less the reserve, or the fallback where
/// the limit could not be raised.
pub fn max_connections(raised_to: Option<u64>) -> (r: u64)
    ensures
        match raised_to {
            Some(to) => r == if to >= RESERVED_FDS {
                (to - RESERVED_FDS) as u64
            } else {
                0
            },
            None => r == FALLBACK_MAX_CONNECTIONS,
        },
{
    match raised_to {
        Some(to) => if to >= RESERVED_FDS {
            to - RESERVED_FDS
        } else {
            0
        },
        None => FALLBACK_MAX_CONNECTIONS,
    }
}

/// Whether another connection may be accepted while `open` are open.
pub fn may_accept(open: u64, max: u64) -> (r: bool)
    ensures
        r == (open < max),
{
    open < max
}

/// Where a connection task stands.
#[derive(Clone, Copy, Debug, PartialEq, Eq, Structural)]
pub enum ConnState {
    /// Accepted, not yet known to the router.
    Init,
    /// Registered; its reader and writer run.
    Running,
    /// One of reader and writer ended; the other is being cancelled.
    Draining,
    /// Cleaned up: gone from the router, queue and socket closed.
    Gone,
}

/// What a connection task reports.
#[derive(Clone, Copy, Debug, PartialEq, Eq, Structural)]
pub enum ConnEvent {
    /// The peer was registered with the router.
    Registered,
    /// The reader ended: end of stream, a framing error, or cancellation.
    ReaderEnded,
    /// The writer ended: a socket error, its queue closed, or cancellation.
    WriterEnded,
}

/// What a connection task must do next.
#[derive(Clone, Copy, Debug, PartialEq, Eq, Structural)]
pub enum ConnAction {
    /// Start the reader and the writer.
    Start,
    /// Cancel the writer.
    CancelWriter,
    /// Cancel the reader.
    CancelReader,
    /// Remove the peer from the router, drop its handle and close the socket.
    Cleanup,
    /// Nothing.
    Idle,
}

/// The next state of a connection and the action it calls for. When either half ends the
/// other is cancelled; when both have ended the connection is cleaned up. Events that do
/// not fit the state change nothing.
pub fn conn_step(state: ConnState, event: ConnEvent) -> (r: (ConnState, ConnAction))
    ensures
        r == match (state, event) {
            (ConnState::Init, ConnEvent::Registered) => (ConnState::Running, ConnAction::Start),
            (ConnState::Running, ConnEvent::ReaderEnded) => (
                ConnState::Draining,
                ConnAction::CancelWriter,
            ),
            (ConnState::Running, ConnEvent::WriterEnded) => (
                ConnState::Draining,
                ConnAction::CancelReader,
            ),
            (ConnState::Draining, ConnEvent::ReaderEnded) => (ConnState::Gone, ConnAction::Cleanup),
            (ConnState::Draining, ConnEvent::WriterEnded) => (ConnState::Gone, ConnAction::Cleanup),
            _ => (state, ConnAction::Idle),
        },
{
    match (state, event) {
        (ConnState::Init, ConnEvent::Registered) => (ConnState::Running, ConnAction::Start),
        (ConnState::Running, ConnEvent::ReaderEnded) => (ConnState::Draining, ConnAction::CancelWriter),
        (ConnState::Running, ConnEvent::WriterEnded) => (ConnState::Draining, ConnAction::CancelReader),
        (ConnState::Draining, ConnEvent::ReaderEnded) => (ConnState::Gone, ConnAction::Cleanup),
        (ConnState::Draining, ConnEvent::WriterEnded) => (ConnState::Gone, ConnAction::Cleanup),
        _ => (state, ConnAction::Idle),
    }
}

} // verus!
