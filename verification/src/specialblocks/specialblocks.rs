use vstd::prelude::*;

verus! {

/// The blocks that are drawn with a model of their own rather than as a cube.
pub struct SpecialBlocks {}

impl SpecialBlocks {
    /// Whether block `id` is drawn with a model of its own: only the door (19).
    pub fn contains(id: u32) -> (b: bool)
        ensures
            b == (id == 19),
    {
        id == 19
    }
}

} // verus!
