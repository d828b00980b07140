//! When a session is over.
use vstd::prelude::*;

verus! {

#[derive(Clone, Copy, PartialEq, Eq, Structural, Debug)]
pub enum Close {
    Keep,
    Reconnect,
    Permanent,
}

/// What a session says of its connection.
pub trait Lifecycle: Default {
    /// Whether the connection is to be closed, and whether it is to be dialed
    /// again.
    spec fn closing(&self) -> Close;

    /// A close has to wait until the session is drained.
    spec fn deferring(&self) -> bool;

    spec fn drained(&self) -> bool;

    fn wants_close(&self) -> (close: Close)
        ensures
            close == self.closing(),
    ;

    fn defer_close(&self) -> (defer: bool)
        ensures
            defer == self.deferring(),
    ;

    fn is_drained(&self) -> (drained: bool)
        ensures
            drained == self.drained(),
    ;
}

/// A session without a state of its own: it is never closed from within and
/// always drained.
pub struct Stateless;

impl Default for Stateless {
    fn default() -> (state: Self) {
        Stateless
    }
}

impl Lifecycle for Stateless {
    open spec fn closing(&self) -> Close {
        Close::Keep
    }

    open spec fn deferring(&self) -> bool {
        false
    }

    open spec fn drained(&self) -> bool {
        true
    }

    fn wants_close(&self) -> (close: Close) {
        Close::Keep
    }

    fn defer_close(&self) -> (defer: bool) {
        false
    }

    fn is_drained(&self) -> (drained: bool) {
        true
    }
}
/// A session without a state keeps its connection, and a close has nothing to wait
/// for.
pub proof fn law_stateless_is_kept_and_drained(state: Stateless)
    ensures
        state.closing() is Keep,
        !state.deferring(),
        state.drained(),
{
}


} // verus!
