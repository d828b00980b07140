//! Fixed-capacity collections that the rest of the crate is built on.
use vstd::prelude::*;

pub mod accumulator;
pub mod backlog;
pub mod heap;
pub mod ring;
pub mod seqs;
pub mod slab;
pub mod slots;
pub mod table;

verus! {

} // verus!
