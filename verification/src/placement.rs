use vstd::prelude::*;

use crate::blockinfo::{Blocks, spec_is_non_placeable};
use crate::specialblocks::door::{
    door_axis, door_other_half, door_side_neighbors, door_top, new_door_halves, pair_with_neighbor, pairs_with, DOORTOP_BITS, OPPOSITEDOOR_BITS,
};
use crate::vec::IVec3;

verus! {

/// The cell a held block is to be placed into and what surrounds it: whether
/// the block there may be replaced, the block the player's camera is in, the
/// block values above and below the cell, and those of the cells to the left
/// and right of a door placed there (see `door_side_neighbors`) and above them.
pub struct PlaceSite {
    pub point: IVec3,
    pub replaceable: bool,
    pub player: IVec3,
    pub above: u32,
    pub below: u32,
    pub left: u32,
    pub left_up: u32,
    pub right: u32,
    pub right_up: u32,
}

/// What placing a block does: the block values written, in order, and whether
/// one item of the held stack is used up.
pub struct Placement {
    pub writes: Vec<(IVec3, u32)>,
    pub consumes: bool,
}

/// A position moved along the axes, as a triple of integers.
pub open spec fn moved(p: IVec3, dx: int, dy: int, dz: int) -> (int, int, int) {
    (p.x + dx, p.y + dy, p.z + dz)
}

/// A block value with its mirrored-half bit set to `b`.
pub open spec fn with_opposite(v: u32, b: u32) -> u32 {
    (v & !OPPOSITEDOOR_BITS) | (b << 20u32)
}

/// Whether the placement is refused outright: the cell may not be replaced or
/// it is the player's cell or the one below it.
pub open spec fn placement_refused(site: PlaceSite) -> bool {
    ||| !site.replaceable
    ||| site.point == site.player
    ||| (site.point.x == site.player.x && site.point.y == site.player.y - 1 && site.point.z == site.player.z)
}

/// The writes of placing a door facing `direction`: nothing unless the cell
/// above is air and the one below is not. Otherwise a door beside it facing
/// the same way (right first, then left) becomes the plain half of a double
/// door and the new door the mirrored one; then the two halves of the new door.
pub open spec fn door_writes(id: u32, direction: u32, site: PlaceSite) -> Seq<((int, int, int), u32)> {
    if site.above == 0 && site.below != 0 {
        let b0 = id | (direction << 16u32);
        let t0 = (id | DOORTOP_BITS) | (direction << 16u32);
        let (ax, az) = door_axis(direction);
        let s = if direction < 2 { 1int } else { -1int };
        let right = moved(site.point, s * ax, 0, s * az);
        let left = moved(site.point, -(s * ax), 0, -(s * az));
        let pr = pairs_with(site.right, direction);
        let pl = pairs_with(site.left, direction);
        let b1 = if pr { with_opposite(b0, 1) } else { b0 };
        let t1 = if pr { with_opposite(t0, 1) } else { t0 };
        let b2 = if pl { with_opposite(b1, 1) } else { b1 };
        let t2 = if pl { with_opposite(t1, 1) } else { t1 };
        let rw = if pr {
            seq![(right, with_opposite(site.right, 0)), ((right.0, right.1 + 1, right.2), with_opposite(site.right_up, 0))]
        } else {
            seq![]
        };
        let lw = if pl {
            seq![(left, with_opposite(site.left, 0)), ((left.0, left.1 + 1, left.2), with_opposite(site.left_up, 0))]
        } else {
            seq![]
        };
        rw + lw + seq![(moved(site.point, 0, 0, 0), b2), (moved(site.point, 0, 1, 0), t2)]
    } else {
        seq![]
    }
}

/// The writes of placing block `id` facing `direction` at the site: a door as
/// `door_writes` says; a conveyor (45), ladder (20) or chest (21) turned to
/// face the player; any other block that can be placed as it is; nothing when
/// the placement is refused or the block cannot be placed.
pub open spec fn placement_writes(id: u32, direction: u32, site: PlaceSite) -> Seq<((int, int, int), u32)> {
    if placement_refused(site) {
        seq![]
    } else if id == 19 {
        door_writes(id, direction, site)
    } else if id == 45 || id == 20 || id == 21 {
        seq![(moved(site.point, 0, 0, 0), id | (direction << 16u32))]
    } else if !spec_is_non_placeable(id) {
        seq![(moved(site.point, 0, 0, 0), id)]
    } else {
        seq![]
    }
}

/// A block write with its position as a triple of integers.
pub open spec fn write_view(w: (IVec3, u32)) -> ((int, int, int), u32) {
    ((w.0.x as int, w.0.y as int, w.0.z as int), w.1)
}

/// Whether every neighbour of the site that a placement may write stays inside `i32`.
pub open spec fn site_in_range(site: PlaceSite) -> bool {
    &&& i32::MIN < site.point.x < i32::MAX
    &&& i32::MIN < site.point.y < i32::MAX - 1
    &&& i32::MIN < site.point.z < i32::MAX
    &&& i32::MIN < site.player.y
}

/// Places the held block `id` (the player facing `direction`, 0 to 3) at the
/// site: the block values to write, in order, and whether an item is used up
/// (whenever the placement is not refused and the block can be placed, even
/// when a door finds no room).
pub fn plan_placement(id: u32, direction: u32, site: &PlaceSite) -> (p: Placement)
    requires
        direction < 4,
        site_in_range(*site),
    ensures
        p.writes@.map_values(|w: (IVec3, u32)| write_view(w)) == placement_writes(id, direction, *site),
        p.consumes == (!placement_refused(*site) && !spec_is_non_placeable(id)),
{
    let pt = site.point;
    let refused = !site.replaceable || (pt.x == site.player.x && pt.y == site.player.y && pt.z == site.player.z) || (
    pt.x == site.player.x && pt.y == site.player.y - 1 && pt.z == site.player.z);
    let mut writes: Vec<(IVec3, u32)> = Vec::new();
    if refused {
        proof {
            assert(writes@.map_values(|w: (IVec3, u32)| write_view(w)) =~= placement_writes(id, direction, *site));
        }
        return Placement { writes, consumes: false };
    }
    let placeable = !Blocks::is_non_placeable(id);
    if id == 19 {
        if site.above == 0 && site.below != 0 {
            let (mut bottom, mut top) = new_door_halves(id, direction);
            let (left, right) = door_side_neighbors(pt, direction);
            let ghost b0 = bottom;
            let ghost t0 = top;
            let ghost (ax, az) = door_axis(direction);
            let ghost sgn = if direction < 2 { 1int } else { -1int };
            let ghost rpos = moved(pt, sgn * ax, 0, sgn * az);
            let ghost lpos = moved(pt, -(sgn * ax), 0, -(sgn * az));
            proof {
                assert((right.x as int, right.y as int, right.z as int) == rpos);
                assert((left.x as int, left.y as int, left.z as int) == lpos);
            }
            let mut rb = site.right;
            let mut rt = site.right_up;
            let paired_right = pair_with_neighbor(&mut bottom, &mut top, &mut rb, &mut rt, direction);
            let ghost b1 = bottom;
            let ghost t1 = top;
            if paired_right {
                writes.push((right, rb));
                writes.push((IVec3 { x: right.x, y: right.y + 1, z: right.z }, rt));
            }
            let ghost rw = writes@.map_values(|w: (IVec3, u32)| write_view(w));
            proof {
                if paired_right {
                    assert(rw =~= seq![
                        (rpos, with_opposite(site.right, 0)),
                        ((rpos.0, rpos.1 + 1, rpos.2), with_opposite(site.right_up, 0)),
                    ]);
                } else {
                    assert(rw =~= Seq::<((int, int, int), u32)>::empty());
                }
            }
            let mut lb = site.left;
            let mut lt = site.left_up;
            let paired_left = pair_with_neighbor(&mut bottom, &mut top, &mut lb, &mut lt, direction);
            let ghost w1 = writes@;
            if paired_left {
                writes.push((left, lb));
                writes.push((IVec3 { x: left.x, y: left.y + 1, z: left.z }, lt));
            }
            let ghost lw = if paired_left {
                seq![(lpos, with_opposite(site.left, 0)), ((lpos.0, lpos.1 + 1, lpos.2), with_opposite(site.left_up, 0))]
            } else {
                Seq::<((int, int, int), u32)>::empty()
            };
            proof {
                assert(writes@.map_values(|w: (IVec3, u32)| write_view(w)) =~= rw + lw);
            }
            let ghost w2 = writes@;
            writes.push((pt, bottom));
            writes.push((IVec3 { x: pt.x, y: pt.y + 1, z: pt.z }, top));
            proof {
                assert(writes@.map_values(|w: (IVec3, u32)| write_view(w)) =~= rw + lw + seq![
                    (moved(pt, 0, 0, 0), bottom),
                    (moved(pt, 0, 1, 0), top),
                ]);
                assert(b0 == id | (direction << 16u32));
                assert(t0 == (id | DOORTOP_BITS) | (direction << 16u32));
                assert(b1 == if pairs_with(site.right, direction) { with_opposite(b0, 1) } else { b0 });
                assert(t1 == if pairs_with(site.right, direction) { with_opposite(t0, 1) } else { t0 });
                assert(bottom == if pairs_with(site.left, direction) { with_opposite(b1, 1) } else { b1 });
                assert(top == if pairs_with(site.left, direction) { with_opposite(t1, 1) } else { t1 });
                assert(writes@.map_values(|w: (IVec3, u32)| write_view(w)) =~= placement_writes(id, direction, *site));
            }
        } else {
            proof {
                assert(writes@.map_values(|w: (IVec3, u32)| write_view(w)) =~= placement_writes(id, direction, *site));
            }
        }
    } else if id == 45 || id == 20 || id == 21 {
        let mut oriented = id;
        Blocks::set_direction_bits(&mut oriented, direction);
        writes.push((pt, oriented));
        proof {
            assert(writes@.map_values(|w: (IVec3, u32)| write_view(w)) =~= placement_writes(id, direction, *site));
        }
    } else {
        if placeable {
            writes.push((pt, id));
        }
        proof {
            assert(writes@.map_values(|w: (IVec3, u32)| write_view(w)) =~= placement_writes(id, direction, *site));
        }
    }
    Placement { writes, consumes: placeable }
}


/// How a broken block is cleared.
#[derive(PartialEq, Eq, Structural, Clone, Copy, Debug)]
pub enum BreakKind {
    /// Clear the hit block and every block of the same kind joined to it (the
    /// unattainable red crystal, kind 16), starting from the hit block.
    Cluster,
    /// Clear both halves of a door.
    Door,
    /// Clear the hit block alone.
    Single,
}

/// What breaking the block at `hit` does: how it is cleared, the cells set to
/// air directly, and the item dropped, if any.
pub struct BreakPlan {
    pub kind: BreakKind,
    pub clears: Vec<IVec3>,
    pub drop: Option<(u32, u32)>,
}

/// The kind of block a block value holds (its low 16 bits).
pub open spec fn block_kind(bits: u32) -> u32 {
    bits & 0xFFFF
}

/// How breaking a block of value `bits` clears it.
pub open spec fn break_kind_of(bits: u32) -> BreakKind {
    if block_kind(bits) == 16 {
        BreakKind::Cluster
    } else if block_kind(bits) == 19 {
        BreakKind::Door
    } else {
        BreakKind::Single
    }
}

/// The cells cleared directly: none for a crystal cluster (the fill clears them), the
/// hit cell and the door's other half for a door, else the hit cell.
pub open spec fn break_clears_of(bits: u32, hit: IVec3) -> Seq<(int, int, int)> {
    match break_kind_of(bits) {
        BreakKind::Cluster => Seq::empty(),
        BreakKind::Door => seq![
            moved(hit, 0, 0, 0),
            if door_top(bits) == 1 {
                moved(hit, 0, -1, 0)
            } else {
                moved(hit, 0, 1, 0)
            },
        ],
        BreakKind::Single => seq![moved(hit, 0, 0, 0)],
    }
}

/// The dropped item: one red crystal (kind 17) for a crystal cluster, nothing for a
/// door or for air, else one item of the broken kind.
pub open spec fn break_drop_of(bits: u32) -> Option<(u32, u32)> {
    match break_kind_of(bits) {
        BreakKind::Cluster => Some((17u32, 1u32)),
        BreakKind::Door => None,
        BreakKind::Single => if block_kind(bits) != 0 {
            Some((block_kind(bits), 1u32))
        } else {
            None
        },
    }
}

/// Plans breaking the block of value `bits` at `hit`.
pub fn plan_break(bits: u32, hit: IVec3) -> (p: BreakPlan)
    requires
        block_kind(bits) == 19 ==> i32::MIN < hit.y < i32::MAX,
    ensures
        p.kind == break_kind_of(bits),
        p.clears@.map_values(|c: IVec3| moved(c, 0, 0, 0)) == break_clears_of(bits, hit),
        p.drop == break_drop_of(bits),
{
    let kind = bits & Blocks::block_id_bits();
    if kind == 16 {
        let p = BreakPlan { kind: BreakKind::Cluster, clears: Vec::new(), drop: Some((17, 1)) };
        assert(p.clears@.map_values(|c: IVec3| moved(c, 0, 0, 0)) =~= break_clears_of(bits, hit));
        p
    } else if kind == 19 {
        let other = door_other_half(hit, bits);
        let p = BreakPlan { kind: BreakKind::Door, clears: vec![hit, other], drop: None };
        assert(p.clears@.map_values(|c: IVec3| moved(c, 0, 0, 0)) =~= break_clears_of(bits, hit));
        p
    } else {
        let drop = if kind != 0 {
            Some((kind, 1))
        } else {
            None
        };
        let p = BreakPlan { kind: BreakKind::Single, clears: vec![hit], drop };
        assert(p.clears@.map_values(|c: IVec3| moved(c, 0, 0, 0)) =~= break_clears_of(bits, hit));
        p
    }
}


/// A placement is refused only where the cell may not be replaced or is the
/// player's own cell or the cell right under it, all three coordinates compared;
/// so a cell off the player's column (another x or z) always takes an ordinary
/// placeable block, written as it is at that cell, one item being used up.
pub proof fn law_placement_refused_only_on_player(id: u32, direction: u32, site: PlaceSite)
    ensures
        placement_refused(site) <==> (!site.replaceable || (site.point.x == site.player.x
            && site.point.y == site.player.y && site.point.z == site.player.z) || (site.point.x
            == site.player.x && site.point.y == site.player.y - 1 && site.point.z == site.player.z)),
        site.replaceable && (site.point.x != site.player.x || site.point.z != site.player.z)
            ==> !placement_refused(site),
        site.replaceable && (site.point.x != site.player.x || site.point.z != site.player.z) && id != 19
            && id != 45 && id != 20 && id != 21 && !spec_is_non_placeable(id) ==> placement_writes(
            id,
            direction,
            site,
        ) == seq![((site.point.x as int, site.point.y as int, site.point.z as int), id)],
{
}

/// Breaking any block other than air, a crystal cluster (16) or a door (19)
/// clears just that block and drops exactly one item of the broken block's own
/// kind (its low 16 bits); breaking air drops nothing.
pub proof fn law_break_drops_broken_kind(bits: u32, hit: IVec3)
    ensures
        (bits & 0xFFFF) != 0 && (bits & 0xFFFF) != 16 && (bits & 0xFFFF) != 19 ==> break_kind_of(bits)
            == BreakKind::Single && break_drop_of(bits) == Some(((bits & 0xFFFF) as u32, 1u32))
            && break_clears_of(bits, hit) == seq![(hit.x as int, hit.y as int, hit.z as int)],
        (bits & 0xFFFF) == 0 ==> break_drop_of(bits) is None,
        (bits & 0xFFFF) == 16 ==> break_drop_of(bits) == Some((17u32, 1u32)),
{
}

} // verus!
