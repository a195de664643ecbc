use vstd::prelude::*;

verus! {

/// The ladder block (id 20), which the mesher draws with a model of its own,
/// turned by the block's direction bits.
pub struct LadderInfo {}

} // verus!
