//! Handles of parked tasks.
use vstd::prelude::*;

verus! {

/// The number by which the driver finds a parked task again.
///
/// Waking is the driver's work: operations that wake tasks hand the handles
/// back in the order in which the tasks are to be woken.
#[derive(Clone, Copy, PartialEq, Eq, Structural, Debug)]
pub struct WakeRef {
    pub id: u64,
}

} // verus!
