use vstd::prelude::*;

verus! {

/// What of a node is stale. The three flags are independent.
#[derive(Default, Debug, Copy, Clone, PartialEq, Eq, Structural)]
pub struct Dirty {
    /// The node's own measured size must be recomputed.
    pub self_dirty: bool,
    /// The node's pass over its children must run again.
    pub child_dirty: bool,
    /// The node must be painted again, whether or not its geometry changed.
    pub paint_dirty: bool,
}

impl Dirty {
    /// Every flag of `self` that is set is set in `later` too.
    pub open spec fn within(self, later: Dirty) -> bool {
        &&& self.self_dirty ==> later.self_dirty
        &&& self.child_dirty ==> later.child_dirty
        &&& self.paint_dirty ==> later.paint_dirty
    }

    /// All three flags set: the state of a node that was just built.
    pub fn all() -> (d: Dirty)
        ensures
            d == (Dirty { self_dirty: true, child_dirty: true, paint_dirty: true }),
    {
        Dirty { self_dirty: true, child_dirty: true, paint_dirty: true }
    }
}

} // verus!
