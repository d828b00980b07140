//! Accepting for a listener whose capacity is fixed.
use vstd::prelude::*;

pub mod accept;

verus! {

} // verus!
