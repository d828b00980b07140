//! What an application makes of its connections.
use vstd::prelude::*;

verus! {

/// What is to happen after an application has taken in received bytes.
#[derive(Clone, Copy, PartialEq, Eq, Structural, Debug)]
pub enum ChunkOutcome {
    Accepted,
    /// There was more than the application can hold.
    Overrun,
    CloseReconnect,
    ClosePermanent,
}

/// How a close that the application asks for treats the dial target. It gives
/// requests outside the receive path both recoverable and terminal outcomes, as
/// [`ChunkOutcome`] does for the receive path.
#[derive(Clone, Copy, PartialEq, Eq, Structural, Debug)]
pub enum CloseKind {
    /// Drop the socket and redial (idle timeout, rotation).
    Reconnect,
    /// Drop the socket and do not redial (retries exhausted, credentials
    /// rejected).
    Permanent,
}

/// What an application asks for outside the receive path.
#[derive(Clone, Copy, PartialEq, Eq, Structural, Debug)]
pub struct Requests {
    /// Which halves of the connection to shut down.
    pub shutdown: Option<i32>,
    pub close: Option<CloseKind>,
}

impl Default for Requests {
    fn default() -> (requests: Self)
        ensures
            requests.shutdown is None,
            requests.close is None,
    {
        Requests { shutdown: None, close: None }
    }
}

} // verus!
