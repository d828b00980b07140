//! Outgoing connections.
use vstd::prelude::*;

pub mod app;
pub mod codec;
pub mod engine;
pub mod lifecycle;
pub mod port;
pub mod session;
pub mod source;
pub mod state;

verus! {

} // verus!
