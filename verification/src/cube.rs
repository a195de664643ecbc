use vstd::prelude::*;

verus! {

/// The six faces of a block, in the order the mesher walks them.
#[derive(PartialEq, Eq, Structural, Clone, Copy, Debug)]
pub enum CubeSide {
    LEFT,
    RIGHT,
    BOTTOM,
    TOP,
    FRONT,
    BACK,
}

/// Position of a face in the order above.
pub open spec fn side_index(side: CubeSide) -> int {
    match side {
        CubeSide::LEFT => 0,
        CubeSide::RIGHT => 1,
        CubeSide::BOTTOM => 2,
        CubeSide::TOP => 3,
        CubeSide::FRONT => 4,
        CubeSide::BACK => 5,
    }
}

impl CubeSide {
    /// The face at position `i`; positions past the last face give `LEFT`.
    pub fn from_primitive(i: usize) -> (s: CubeSide)
        ensures
            i < 6 ==> side_index(s) == i,
            i >= 6 ==> s == CubeSide::LEFT,
    {
        match i {
            1 => CubeSide::RIGHT,
            2 => CubeSide::BOTTOM,
            3 => CubeSide::TOP,
            4 => CubeSide::FRONT,
            5 => CubeSide::BACK,
            _ => CubeSide::LEFT,
        }
    }
}

} // verus!
