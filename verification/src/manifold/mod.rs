//! Manifolds: units of work that share one driver.
use vstd::prelude::*;

pub mod connector;
pub mod datagram;
pub mod env;
pub mod file;
pub mod listener;
pub mod pending;
pub mod timer;
pub mod typed;

use crate::time::Instant;

verus! {

/// What an application makes of received bytes or of a new connection.
#[derive(Clone, Copy, PartialEq, Eq, Structural, Debug)]
pub enum Outcome {
    Accepted,
    /// There was more than the application can hold.
    Overrun,
    /// The connection is to be closed once it has nothing left to send.
    CloseAfter,
}

/// When the bytes of a write are given back to the queue they came from.
#[derive(Clone, Copy, PartialEq, Eq, Structural, Debug)]
pub enum Reclaim {
    OnSubmit,
    OnComplete,
}

/// Why a listener or connector cannot be set up.
#[derive(Debug)]
pub enum SetupError<X> {
    /// The capacity is not in `1..=2^24-1`.
    Capacity,
    /// The application cannot say how much it retains.
    Retention(X),
    /// The storage for outgoing bytes was made for another configuration.
    Storage,
}

/// What a manifold asks of the driver when it has nothing left to do this turn.
#[derive(Clone, Copy, PartialEq, Eq, Structural, Debug)]
pub enum Idle {
    /// Poll again without sleeping.
    Busy,
    /// Sleep until the given instant, or until a completion when there is none.
    Park(Option<Instant>),
}

} // verus!
