use vstd::prelude::*;

verus! {

/// The wooden trunk block (id 21), which the mesher draws with a model of its
/// own, turned by the block's direction bits.
pub struct ChestInfo {}

} // verus!
