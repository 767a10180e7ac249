use vstd::prelude::*;

verus! {

/// The handle of a draw primitive that a renderer keeps between frames.
#[derive(Copy, Clone, Eq, PartialEq, Hash, Debug, Structural)]
pub struct PrimId(pub u32);

} // verus!
