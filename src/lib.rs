//! A cycle-collecting shared-ownership pointer runtime, modelled over an arena of boxes.
//!
//! Boxes are addressed by their index in a heap; a handle holds the index of its box and
//! every box holds the handles stored in its value. Plain reference counting frees a box
//! when its count reaches zero, and a trial-deletion collector reclaims boxes that are
//! only reachable from each other.
use vstd::prelude::*;

pub mod erased;
pub mod heap;
pub mod gc;
pub mod laws;
pub mod sync;
pub mod unsync;

verus! {

/// The identity of a box: its index in the heap. Two handles to the same box carry
/// equal identities.
#[derive(Clone, Copy, Debug, PartialEq, Eq, Hash, Structural)]
pub struct AllocationId(pub usize);

} // verus!
