use vstd::prelude::*;

verus! {

/// What a widget is handed while it builds its children.
pub struct BuildCtx;

} // verus!
