//! Optional GPU rendering: the canvas renderer suffices, so the GPU path is
//! a stub that reports itself unavailable.
use vstd::prelude::*;

verus! {

/// Whether a GPU rendering pipeline is available (it never is).
pub fn available() -> (r: bool)
    ensures
        !r,
{
    false
}

} // verus!
