//! The server's accept loop, one step at a time: what to do after each poll of the
//! listener. The caller polls, acts, and asks again.
use vstd::prelude::*;

verus! {

/// How long the loop sleeps when no connection is waiting, in milliseconds.
pub const POLL_MS: u64 = 10;

/// What a non-blocking `accept` on the listener gave.
#[derive(Debug, Clone, Copy, PartialEq, Eq, Structural)]
pub enum AcceptEvent {
    /// A connection was accepted.
    Accepted,
    /// No connection was waiting.
    WouldBlock,
    /// Another error.
    Failed,
}

/// What the loop does next.
#[derive(Debug, Clone, Copy, PartialEq, Eq, Structural)]
pub enum ServerAction {
    /// Hand the accepted connection to a worker, then poll again.
    Dispatch,
    /// Sleep this many milliseconds, then poll again.
    Sleep(u64),
    /// Stop accepting; the pool finishes the connections in hand.
    Stop,
    /// Stop with the error.
    Fail,
}

/// The next action, given whether shutdown was asked for and what the last poll gave:
/// once shutdown is asked for the loop stops, also on an error; otherwise an accepted
/// connection is dispatched, an empty poll sleeps `POLL_MS`, and an error fails the loop.
pub fn accept_step(shutdown: bool, event: AcceptEvent) -> (a: ServerAction)
    ensures
        shutdown ==> a == ServerAction::Stop,
        !shutdown ==> a == (match event {
            AcceptEvent::Accepted => ServerAction::Dispatch,
            AcceptEvent::WouldBlock => ServerAction::Sleep(POLL_MS),
            AcceptEvent::Failed => ServerAction::Fail,
        }),
{
    if shutdown {
        ServerAction::Stop
    } else {
        match event {
            AcceptEvent::Accepted => ServerAction::Dispatch,
            AcceptEvent::WouldBlock => ServerAction::Sleep(POLL_MS),
            AcceptEvent::Failed => ServerAction::Fail,
        }
    }
}

} // verus!
