use vstd::prelude::*;

use crate::vec::IVec3;

verus! {

/// The boxes of the collision cage around a body, named by where they sit
/// relative to the block the body's feet are in.
#[derive(PartialEq, Eq, Structural, Clone, Copy, Debug)]
pub enum Side {
    ROOF,
    FLOOR,
    LEFTTOP,
    LEFTBOTTOM,
    RIGHTTOP,
    RIGHTBOTTOM,
    FRONTTOP,
    FRONTBOTTOM,
    BACKTOP,
    BACKBOTTOM,
    BACKRIGHTTOP,
    BACKRIGHTBOTTOM,
    BACKLEFTTOP,
    BACKLEFTBOTTOM,
    FRONTRIGHTTOP,
    FRONTRIGHTBOTTOM,
    FRONTLEFTTOP,
    FRONTLEFTBOTTOM,
    INBOTTOM,
    INTOP,
    BOTTOMFRONTEDGE,
    BOTTOMLEFTEDGE,
    BOTTOMRIGHTEDGE,
    BOTTOMBACKEDGE,
}

/// The position of a side in the order above.
pub open spec fn side_number(s: Side) -> int {
    match s {
        Side::ROOF => 0,
        Side::FLOOR => 1,
        Side::LEFTTOP => 2,
        Side::LEFTBOTTOM => 3,
        Side::RIGHTTOP => 4,
        Side::RIGHTBOTTOM => 5,
        Side::FRONTTOP => 6,
        Side::FRONTBOTTOM => 7,
        Side::BACKTOP => 8,
        Side::BACKBOTTOM => 9,
        Side::BACKRIGHTTOP => 10,
        Side::BACKRIGHTBOTTOM => 11,
        Side::BACKLEFTTOP => 12,
        Side::BACKLEFTBOTTOM => 13,
        Side::FRONTRIGHTTOP => 14,
        Side::FRONTRIGHTBOTTOM => 15,
        Side::FRONTLEFTTOP => 16,
        Side::FRONTLEFTBOTTOM => 17,
        Side::INBOTTOM => 18,
        Side::INTOP => 19,
        Side::BOTTOMFRONTEDGE => 20,
        Side::BOTTOMLEFTEDGE => 21,
        Side::BOTTOMRIGHTEDGE => 22,
        Side::BOTTOMBACKEDGE => 23,
    }
}

/// Where each box of the cage sits, relative to the block of the body's feet
/// (x: left -1 / right +1, y: down -1 / up +1, z: back -1 / front +1).
pub open spec fn side_offset(s: Side) -> (int, int, int) {
    match s {
        Side::ROOF => (0, 2, 0),
        Side::FLOOR => (0, -1, 0),
        Side::LEFTTOP => (-1, 1, 0),
        Side::LEFTBOTTOM => (-1, 0, 0),
        Side::RIGHTTOP => (1, 1, 0),
        Side::RIGHTBOTTOM => (1, 0, 0),
        Side::FRONTTOP => (0, 1, 1),
        Side::FRONTBOTTOM => (0, 0, 1),
        Side::BACKTOP => (0, 1, -1),
        Side::BACKBOTTOM => (0, 0, -1),
        Side::BACKRIGHTTOP => (1, 1, -1),
        Side::BACKRIGHTBOTTOM => (1, 0, -1),
        Side::BACKLEFTTOP => (-1, 1, -1),
        Side::BACKLEFTBOTTOM => (-1, 0, -1),
        Side::FRONTRIGHTTOP => (1, 1, 1),
        Side::FRONTRIGHTBOTTOM => (1, 0, 1),
        Side::FRONTLEFTTOP => (-1, 1, 1),
        Side::FRONTLEFTBOTTOM => (-1, 0, 1),
        Side::INBOTTOM => (0, 0, 0),
        Side::INTOP => (0, 1, 0),
        Side::BOTTOMFRONTEDGE => (0, -1, 1),
        Side::BOTTOMLEFTEDGE => (-1, -1, 0),
        Side::BOTTOMRIGHTEDGE => (1, -1, 0),
        Side::BOTTOMBACKEDGE => (0, -1, -1),
    }
}

impl Side {
    /// The side at position `i`; positions past the last side give `ROOF`.
    pub fn from_primitive(i: usize) -> (s: Side)
        ensures
            i < 24 ==> side_number(s) == i,
            i >= 24 ==> s == Side::ROOF,
    {
        match i {
            1 => Side::FLOOR,
            2 => Side::LEFTTOP,
            3 => Side::LEFTBOTTOM,
            4 => Side::RIGHTTOP,
            5 => Side::RIGHTBOTTOM,
            6 => Side::FRONTTOP,
            7 => Side::FRONTBOTTOM,
            8 => Side::BACKTOP,
            9 => Side::BACKBOTTOM,
            10 => Side::BACKRIGHTTOP,
            11 => Side::BACKRIGHTBOTTOM,
            12 => Side::BACKLEFTTOP,
            13 => Side::BACKLEFTBOTTOM,
            14 => Side::FRONTRIGHTTOP,
            15 => Side::FRONTRIGHTBOTTOM,
            16 => Side::FRONTLEFTTOP,
            17 => Side::FRONTLEFTBOTTOM,
            18 => Side::INBOTTOM,
            19 => Side::INTOP,
            20 => Side::BOTTOMFRONTEDGE,
            21 => Side::BOTTOMLEFTEDGE,
            22 => Side::BOTTOMRIGHTEDGE,
            23 => Side::BOTTOMBACKEDGE,
            _ => Side::ROOF,
        }
    }

    /// The position of this side, the index of its box, normal and penetration in the cage.
    pub fn index(&self) -> (i: usize)
        ensures
            i == side_number(*self),
    {
        match self {
            Side::ROOF => 0,
            Side::FLOOR => 1,
            Side::LEFTTOP => 2,
            Side::LEFTBOTTOM => 3,
            Side::RIGHTTOP => 4,
            Side::RIGHTBOTTOM => 5,
            Side::FRONTTOP => 6,
            Side::FRONTBOTTOM => 7,
            Side::BACKTOP => 8,
            Side::BACKBOTTOM => 9,
            Side::BACKRIGHTTOP => 10,
            Side::BACKRIGHTBOTTOM => 11,
            Side::BACKLEFTTOP => 12,
            Side::BACKLEFTBOTTOM => 13,
            Side::FRONTRIGHTTOP => 14,
            Side::FRONTRIGHTBOTTOM => 15,
            Side::FRONTLEFTTOP => 16,
            Side::FRONTLEFTBOTTOM => 17,
            Side::INBOTTOM => 18,
            Side::INTOP => 19,
            Side::BOTTOMFRONTEDGE => 20,
            Side::BOTTOMLEFTEDGE => 21,
            Side::BOTTOMRIGHTEDGE => 22,
            Side::BOTTOMBACKEDGE => 23,
        }
    }

    /// Where this side's box sits relative to the block of the body's feet.
    pub fn position_offset(&self) -> (o: IVec3)
        ensures
            (o.x as int, o.y as int, o.z as int) == side_offset(*self),
    {
        let (x, y, z) = match self {
            Side::ROOF => (0, 2, 0),
            Side::FLOOR => (0, -1, 0),
            Side::LEFTTOP => (-1, 1, 0),
            Side::LEFTBOTTOM => (-1, 0, 0),
            Side::RIGHTTOP => (1, 1, 0),
            Side::RIGHTBOTTOM => (1, 0, 0),
            Side::FRONTTOP => (0, 1, 1),
            Side::FRONTBOTTOM => (0, 0, 1),
            Side::BACKTOP => (0, 1, -1),
            Side::BACKBOTTOM => (0, 0, -1),
            Side::BACKRIGHTTOP => (1, 1, -1),
            Side::BACKRIGHTBOTTOM => (1, 0, -1),
            Side::BACKLEFTTOP => (-1, 1, -1),
            Side::BACKLEFTBOTTOM => (-1, 0, -1),
            Side::FRONTRIGHTTOP => (1, 1, 1),
            Side::FRONTRIGHTBOTTOM => (1, 0, 1),
            Side::FRONTLEFTTOP => (-1, 1, 1),
            Side::FRONTLEFTBOTTOM => (-1, 0, 1),
            Side::INBOTTOM => (0, 0, 0),
            Side::INTOP => (0, 1, 0),
            Side::BOTTOMFRONTEDGE => (0, -1, 1),
            Side::BOTTOMLEFTEDGE => (-1, -1, 0),
            Side::BOTTOMRIGHTEDGE => (1, -1, 0),
            Side::BOTTOMBACKEDGE => (0, -1, -1),
        };
        IVec3 { x, y, z }
    }
}

/// Numbering a side and reading the number back gives the same side, and
/// distinct sides have distinct numbers.
pub proof fn law_side_number_roundtrip(s: Side, t: Side)
    ensures
        0 <= side_number(s) < 24,
        side_number(s) == side_number(t) ==> s == t,
{
}


/// How many boxes of the cage are checked against the world: the first 18
/// sides, up to `FRONTLEFTBOTTOM`; the six after them are never read.
pub const CAGE_BOXES: usize = 18;

/// The blocks the cage checks when the body's feet are in the block at
/// `position`, in side order: each checked side's offset added to the position.
pub fn cage_spots(position: IVec3) -> (v: Vec<IVec3>)
    requires
        i32::MIN + 1 <= position.x <= i32::MAX - 1,
        i32::MIN + 1 <= position.y <= i32::MAX - 2,
        i32::MIN + 1 <= position.z <= i32::MAX - 1,
    ensures
        v@.len() == CAGE_BOXES,
        forall|s: Side|
            side_number(s) < CAGE_BOXES ==> (#[trigger] v@[side_number(s)]).x == position.x + side_offset(s).0
                && v@[side_number(s)].y == position.y + side_offset(s).1
                && v@[side_number(s)].z == position.z + side_offset(s).2,
{
    let mut v: Vec<IVec3> = Vec::new();
    let mut i: usize = 0;
    while i < CAGE_BOXES
        invariant
            0 <= i <= CAGE_BOXES,
            v@.len() == i,
            i32::MIN + 1 <= position.x <= i32::MAX - 1,
            i32::MIN + 1 <= position.y <= i32::MAX - 2,
            i32::MIN + 1 <= position.z <= i32::MAX - 1,
            forall|s: Side|
                side_number(s) < i ==> (#[trigger] v@[side_number(s)]).x == position.x + side_offset(s).0
                    && v@[side_number(s)].y == position.y + side_offset(s).1
                    && v@[side_number(s)].z == position.z + side_offset(s).2,
        decreases CAGE_BOXES - i,
    {
        let side = Side::from_primitive(i);
        let o = side.position_offset();
        let spot = IVec3 { x: position.x + o.x, y: position.y + o.y, z: position.z + o.z };
        let ghost before = v@;
        v.push(spot);
        proof {
            assert forall|s: Side| side_number(s) < i + 1 implies (#[trigger] v@[side_number(s)]).x == position.x
                + side_offset(s).0 && v@[side_number(s)].y == position.y + side_offset(s).1
                && v@[side_number(s)].z == position.z + side_offset(s).2 by {
                if side_number(s) == i {
                    assert(s == side);
                } else {
                    assert(v@[side_number(s)] == before[side_number(s)]);
                }
            }
        }
        i = i + 1;
    }
    v
}

/// The sides of the cage that are solid, in side order, given whether each
/// block of `cage_spots` is solid.
pub fn solid_sides(readings: &Vec<bool>) -> (v: Vec<Side>)
    requires
        readings@.len() == CAGE_BOXES,
    ensures
        forall|k: int| 0 <= k < v@.len() ==> side_number(#[trigger] v@[k]) < CAGE_BOXES && readings@[side_number(v@[k])],
        forall|k1: int, k2: int| 0 <= k1 < k2 < v@.len() ==> side_number(#[trigger] v@[k1]) < side_number(#[trigger] v@[k2]),
        forall|i: int| 0 <= i < CAGE_BOXES && #[trigger] readings@[i] ==> exists|k: int| 0 <= k < v@.len() && side_number(#[trigger] v@[k]) == i,
{
    let mut v: Vec<Side> = Vec::new();
    let mut i: usize = 0;
    while i < CAGE_BOXES
        invariant
            0 <= i <= CAGE_BOXES,
            readings@.len() == CAGE_BOXES,
            forall|k: int| 0 <= k < v@.len() ==> side_number(#[trigger] v@[k]) < i && readings@[side_number(v@[k])],
            forall|k1: int, k2: int| 0 <= k1 < k2 < v@.len() ==> side_number(#[trigger] v@[k1]) < side_number(#[trigger] v@[k2]),
            forall|j: int| 0 <= j < i && #[trigger] readings@[j] ==> exists|k: int| 0 <= k < v@.len() && side_number(#[trigger] v@[k]) == j,
        decreases CAGE_BOXES - i,
    {
        if readings[i] {
            let side = Side::from_primitive(i);
            let ghost before = v@;
            v.push(side);
            proof {
                assert(v@ == before.push(side));
                assert forall|j: int| 0 <= j < i + 1 && #[trigger] readings@[j] implies exists|k: int|
                    0 <= k < v@.len() && side_number(#[trigger] v@[k]) == j by {
                    if j == i {
                        assert(side_number(v@[before.len() as int]) == j);
                    } else {
                        let k = choose|k: int| 0 <= k < before.len() && side_number(#[trigger] before[k]) == j;
                        assert(v@[k] == before[k]);
                    }
                }
            }
        }
        i = i + 1;
    }
    v
}


/// The checked boxes of the cage sit at pairwise distinct places, each where its
/// name says: the eight boxes around the feet (`..BOTTOM`) at the feet's height,
/// one step right (+x) or left (-x), front (+z) or back (-z) as named, each
/// `..TOP` box right above its `..BOTTOM` box, the roof two above the feet and
/// the floor one below.
pub proof fn law_cage_boxes_where_named(s: Side, t: Side)
    ensures
        side_number(s) < CAGE_BOXES && side_number(t) < CAGE_BOXES && s != t ==> side_offset(s) != side_offset(t),
        side_offset(Side::ROOF) == (0int, 2int, 0int),
        side_offset(Side::FLOOR) == (0int, -1int, 0int),
        side_offset(Side::LEFTBOTTOM) == (-1int, 0int, 0int),
        side_offset(Side::RIGHTBOTTOM) == (1int, 0int, 0int),
        side_offset(Side::FRONTBOTTOM) == (0int, 0int, 1int),
        side_offset(Side::BACKBOTTOM) == (0int, 0int, -1int),
        side_offset(Side::BACKRIGHTBOTTOM) == (1int, 0int, -1int),
        side_offset(Side::BACKLEFTBOTTOM) == (-1int, 0int, -1int),
        side_offset(Side::FRONTRIGHTBOTTOM) == (1int, 0int, 1int),
        side_offset(Side::FRONTLEFTBOTTOM) == (-1int, 0int, 1int),
        side_offset(Side::LEFTTOP) == (side_offset(Side::LEFTBOTTOM).0, 1int, side_offset(Side::LEFTBOTTOM).2),
        side_offset(Side::RIGHTTOP) == (side_offset(Side::RIGHTBOTTOM).0, 1int, side_offset(Side::RIGHTBOTTOM).2),
        side_offset(Side::FRONTTOP) == (side_offset(Side::FRONTBOTTOM).0, 1int, side_offset(Side::FRONTBOTTOM).2),
        side_offset(Side::BACKTOP) == (side_offset(Side::BACKBOTTOM).0, 1int, side_offset(Side::BACKBOTTOM).2),
        side_offset(Side::BACKRIGHTTOP) == (side_offset(Side::BACKRIGHTBOTTOM).0, 1int, side_offset(
            Side::BACKRIGHTBOTTOM,
        ).2),
        side_offset(Side::BACKLEFTTOP) == (side_offset(Side::BACKLEFTBOTTOM).0, 1int, side_offset(
            Side::BACKLEFTBOTTOM,
        ).2),
        side_offset(Side::FRONTRIGHTTOP) == (side_offset(Side::FRONTRIGHTBOTTOM).0, 1int, side_offset(
            Side::FRONTRIGHTBOTTOM,
        ).2),
        side_offset(Side::FRONTLEFTTOP) == (side_offset(Side::FRONTLEFTBOTTOM).0, 1int, side_offset(
            Side::FRONTLEFTBOTTOM,
        ).2),
{
}

} // verus!
