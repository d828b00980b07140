//! Protocol logic of a completion-driven network runtime: timers, buffer
//! arenas, connection sources, operation tables and the decisions that drive
//! listeners and connectors.
//!
//! The crate performs no input or output. Each operation takes what the driver
//! reported as plain values and answers with what the driver has to do next.
use vstd::prelude::*;

pub mod collections;
pub mod manifold;
pub mod memstats;
pub mod park;
pub mod time;
pub mod token;

verus! {

} // verus!
