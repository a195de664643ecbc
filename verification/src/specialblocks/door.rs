use vstd::prelude::*;

use crate::vec::IVec3;

verus! {

/// The flag bits of a door block: bits 16 and 17 hold the direction it faces,
/// bit 18 whether it is open, bit 19 whether this is the upper half, and bit 20
/// whether it is hinged on the other side (the right-hand door of a pair).
pub struct DoorInfo {}

/// Bit 18: the door is open.
pub const DOOROPEN_BITS: u32 = 0b0000_0000_0000_0100_0000_0000_0000_0000;
/// Bit 19: this is the upper half of a door.
pub const DOORTOP_BITS: u32 = 0b0000_0000_0000_1000_0000_0000_0000_0000;
/// Bit 20: the door is hinged on the other side.
pub const OPPOSITEDOOR_BITS: u32 = 0b0000_0000_0001_0000_0000_0000_0000_0000;
/// Bits 16 and 17: the direction the door faces.
pub const BLOCK_DIRECTION_BITS: u32 = 0b0000_0000_0000_0011_0000_0000_0000_0000;

/// The direction a door faces (0 to 3).
pub open spec fn door_direction(v: u32) -> u32 {
    (v / 0x1_0000) % 4
}

/// Whether the door is open (1) or shut (0).
pub open spec fn door_open(v: u32) -> u32 {
    (v / 0x4_0000) % 2
}

/// Whether this is the upper half of a door (1) or the lower (0).
pub open spec fn door_top(v: u32) -> u32 {
    (v / 0x8_0000) % 2
}

/// Whether the door is the mirrored half of a pair (1) or not (0).
pub open spec fn door_opposite(v: u32) -> u32 {
    (v / 0x10_0000) % 2
}

/// Which of the four rotated door models shows a door with these flags: an open
/// door turns a quarter further, clockwise for a plain door and back for the
/// mirrored one.
pub open spec fn door_model(flags: u32) -> int {
    let d = door_direction(flags) as int;
    let o = door_open(flags) as int;
    if door_opposite(flags) == 1 {
        if d - o < 0 { 3 } else { d - o }
    } else {
        (d + o) % 4
    }
}

impl DoorInfo {
    /// The direction a door faces, read from bits 16 and 17.
    pub fn get_direction_bits(input: u32) -> (d: u32)
        ensures
            d == door_direction(input),
    {
        let d = (input & BLOCK_DIRECTION_BITS) >> 16;
        assert(d == (input / 0x1_0000) % 4) by (bit_vector)
            requires
                d == (input & 0b0000_0000_0000_0011_0000_0000_0000_0000u32) >> 16u32,
        ;
        d
    }

    /// Ors `direction`, moved up 16 places, into the block value.
    pub fn set_direction_bits(input: &mut u32, direction: u32)
        ensures
            *final(input) == (*old(input) | (direction << 16u32)),
    {
        let bits = direction << 16;
        *input |= bits;
    }

    /// Whether a door is hinged on the other side (bit 20), as 0 or 1.
    pub fn get_opposite_door_bits(input: u32) -> (b: u32)
        ensures
            b == door_opposite(input),
    {
        let b = (input & OPPOSITEDOOR_BITS) >> 20;
        assert(b == (input / 0x10_0000) % 2) by (bit_vector)
            requires
                b == (input & 0b0000_0000_0001_0000_0000_0000_0000_0000u32) >> 20u32,
        ;
        b
    }

    /// Clears bit 20 and ors in `bit` moved up 20 places.
    pub fn set_opposite_door_bits(input: &mut u32, bit: u32)
        ensures
            *final(input) == ((*old(input) & !OPPOSITEDOOR_BITS) | (bit << 20u32)),
    {
        let bits = bit << 20;
        *input = (*input) & !OPPOSITEDOOR_BITS;
        *input |= bits;
    }

    /// Whether a door is open (bit 18), as 0 or 1.
    pub fn get_door_open_bit(input: u32) -> (b: u32)
        ensures
            b == door_open(input),
    {
        let b = (input & DOOROPEN_BITS) >> 18;
        assert(b == (input / 0x4_0000) % 2) by (bit_vector)
            requires
                b == (input & 0b0000_0000_0000_0100_0000_0000_0000_0000u32) >> 18u32,
        ;
        b
    }

    /// Clears bit 18 and ors in `bit` moved up 18 places.
    pub fn set_door_open_bit(input: &mut u32, bit: u32)
        ensures
            *final(input) == ((*old(input) & !DOOROPEN_BITS) | (bit << 18u32)),
    {
        let bits = bit << 18;
        *input = (*input) & !DOOROPEN_BITS;
        *input |= bits;
    }

    /// Flips bit 18.
    pub fn toggle_door_open_bit(input: &mut u32)
        ensures
            *final(input) == *old(input) ^ DOOROPEN_BITS,
    {
        *input ^= DOOROPEN_BITS;
    }

    /// Whether a door block is the upper half (bit 19), as 0 or 1.
    pub fn get_door_top_bit(input: u32) -> (b: u32)
        ensures
            b == door_top(input),
    {
        let b = (input & DOORTOP_BITS) >> 19;
        assert(b == (input / 0x8_0000) % 2) by (bit_vector)
            requires
                b == (input & 0b0000_0000_0000_1000_0000_0000_0000_0000u32) >> 19u32,
        ;
        b
    }

    /// The index of the door model the mesher draws for a door with these flags.
    pub fn door_model_index(flags: u32) -> (m: usize)
        ensures
            m == door_model(flags),
            m < 4,
    {
        let direction = DoorInfo::get_direction_bits(flags);
        let open = DoorInfo::get_door_open_bit(flags);
        let opposite = DoorInfo::get_opposite_door_bits(flags);
        if opposite == 1 {
            if direction < open {
                3
            } else {
                (direction - open) as usize
            }
        } else {
            ((direction + open) % 4) as usize
        }
    }
}

/// Setting the open bit and reading it back gives the bit that was set, and no
/// other bit of the block value changes.
pub proof fn lemma_door_open_set_get(v: u32, b: u32)
    requires
        b < 2,
    ensures
        door_open((v & !DOOROPEN_BITS) | (b << 18u32)) == b,
        ((v & !DOOROPEN_BITS) | (b << 18u32)) & !DOOROPEN_BITS == v & !DOOROPEN_BITS,
{
    assert(((v & !0x4_0000u32) | (b << 18u32)) / 0x4_0000 % 2 == b
        && ((v & !0x4_0000u32) | (b << 18u32)) & !0x4_0000u32 == v & !0x4_0000u32) by (bit_vector)
        requires
            b < 2,
    ;
}

/// Toggling a door flips its open bit, leaves every other bit alone, and two
/// toggles give back the value one started from.
pub proof fn lemma_door_toggle(v: u32)
    ensures
        door_open(v ^ DOOROPEN_BITS) == 1 - door_open(v),
        (v ^ DOOROPEN_BITS) & !DOOROPEN_BITS == v & !DOOROPEN_BITS,
        (v ^ DOOROPEN_BITS) ^ DOOROPEN_BITS == v,
{
    assert((v ^ 0x4_0000u32) / 0x4_0000 % 2 == 1 - (v / 0x4_0000 % 2)
        && (v ^ 0x4_0000u32) & !0x4_0000u32 == v & !0x4_0000u32
        && (v ^ 0x4_0000u32) ^ 0x4_0000u32 == v) by (bit_vector);
}

/// Setting the mirrored-half bit and reading it back gives the bit that was set,
/// and no other bit of the block value changes.
pub proof fn lemma_door_opposite_set_get(v: u32, b: u32)
    requires
        b < 2,
    ensures
        door_opposite((v & !OPPOSITEDOOR_BITS) | (b << 20u32)) == b,
        ((v & !OPPOSITEDOOR_BITS) | (b << 20u32)) & !OPPOSITEDOOR_BITS == v & !OPPOSITEDOOR_BITS,
{
    assert(((v & !0x10_0000u32) | (b << 20u32)) / 0x10_0000 % 2 == b
        && ((v & !0x10_0000u32) | (b << 20u32)) & !0x10_0000u32 == v & !0x10_0000u32) by (bit_vector)
        requires
            b < 2,
    ;
}

/// Writing a direction (0 to 3) into a value whose direction bits are clear and
/// reading it back gives that direction; the id bits (the low 16) stay as they were.
pub proof fn lemma_direction_set_get(v: u32, d: u32)
    requires
        door_direction(v) == 0,
        d < 4,
    ensures
        door_direction(v | (d << 16u32)) == d,
        (v | (d << 16u32)) % 0x1_0000 == v % 0x1_0000,
{
    assert((v | (d << 16u32)) / 0x1_0000 % 4 == d && (v | (d << 16u32)) % 0x1_0000 == v % 0x1_0000)
        by (bit_vector)
        requires
            v / 0x1_0000 % 4 == 0,
            d < 4,
    ;
}

/// The position of a door's other half: below an upper half, above a lower one.
pub fn door_other_half(pos: IVec3, bits: u32) -> (o: IVec3)
    requires
        i32::MIN < pos.y < i32::MAX,
    ensures
        o.x == pos.x,
        o.z == pos.z,
        door_top(bits) == 1 ==> o.y == pos.y - 1,
        door_top(bits) != 1 ==> o.y == pos.y + 1,
{
    if DoorInfo::get_door_top_bit(bits) == 1 {
        IVec3 { x: pos.x, y: pos.y - 1, z: pos.z }
    } else {
        IVec3 { x: pos.x, y: pos.y + 1, z: pos.z }
    }
}

/// The axis along which the two blocks beside a door facing `direction` lie:
/// x for directions 0 and 2, z for 1 and 3.
pub open spec fn door_axis(direction: u32) -> (int, int) {
    if direction == 0 || direction == 2 {
        (1, 0)
    } else {
        (0, 1)
    }
}

/// The blocks on the left and right of a door placed at `p` facing `direction`.
pub fn door_side_neighbors(p: IVec3, direction: u32) -> (r: (IVec3, IVec3))
    requires
        direction < 4,
        i32::MIN < p.x < i32::MAX,
        i32::MIN < p.z < i32::MAX,
    ensures
        ({
            let (ax, az) = door_axis(direction);
            let s = if direction < 2 { 1int } else { -1int };
            &&& r.0.x == p.x - s * ax && r.0.y == p.y && r.0.z == p.z - s * az
            &&& r.1.x == p.x + s * ax && r.1.y == p.y && r.1.z == p.z + s * az
        }),
{
    let (ax, az): (i32, i32) = if direction == 0 || direction == 2 { (1, 0) } else { (0, 1) };
    if direction == 0 || direction == 1 {
        (IVec3 { x: p.x - ax, y: p.y, z: p.z - az }, IVec3 { x: p.x + ax, y: p.y, z: p.z + az })
    } else {
        (IVec3 { x: p.x + ax, y: p.y, z: p.z + az }, IVec3 { x: p.x - ax, y: p.y, z: p.z - az })
    }
}

/// The lower and upper block values of a new door of kind `id` facing
/// `direction`; the upper one carries the top bit.
pub fn new_door_halves(id: u32, direction: u32) -> (r: (u32, u32))
    ensures
        r.0 == (id | (direction << 16u32)),
        r.1 == ((id | DOORTOP_BITS) | (direction << 16u32)),
{
    let mut bottom_id = id;
    let mut top_id = id | DOORTOP_BITS;
    DoorInfo::set_direction_bits(&mut bottom_id, direction);
    DoorInfo::set_direction_bits(&mut top_id, direction);
    (bottom_id, top_id)
}

/// Whether a block next to a new door joins it as a double door: it is the
/// lower half of a door facing the same way.
pub open spec fn pairs_with(neigh_bottom: u32, direction: u32) -> bool {
    neigh_bottom % 0x1_0000 == 19 && door_direction(neigh_bottom) == direction && door_top(neigh_bottom) == 0
}

/// Joins a new door with the door beside it when `pairs_with` holds: the new
/// door's halves become the mirrored ones and the neighbour's halves the plain
/// ones. Returns whether they were joined; otherwise nothing changes.
pub fn pair_with_neighbor(
    new_bottom: &mut u32,
    new_top: &mut u32,
    neigh_bottom: &mut u32,
    neigh_top: &mut u32,
    direction: u32,
) -> (paired: bool)
    ensures
        paired == pairs_with(*old(neigh_bottom), direction),
        paired ==> *final(new_bottom) == ((*old(new_bottom) & !OPPOSITEDOOR_BITS) | (1u32 << 20u32))
            && *final(new_top) == ((*old(new_top) & !OPPOSITEDOOR_BITS) | (1u32 << 20u32))
            && *final(neigh_bottom) == ((*old(neigh_bottom) & !OPPOSITEDOOR_BITS) | (0u32 << 20u32))
            && *final(neigh_top) == ((*old(neigh_top) & !OPPOSITEDOOR_BITS) | (0u32 << 20u32)),
        !paired ==> *final(new_bottom) == *old(new_bottom) && *final(new_top) == *old(new_top)
            && *final(neigh_bottom) == *old(neigh_bottom) && *final(neigh_top) == *old(neigh_top),
{
    let nb = *neigh_bottom;
    let id = nb & 0xFFFF;
    assert(id == nb % 0x1_0000) by (bit_vector)
        requires
            id == nb & 0xFFFFu32,
    ;
    if id == 19 && DoorInfo::get_direction_bits(nb) == direction && DoorInfo::get_door_top_bit(nb) == 0 {
        DoorInfo::set_opposite_door_bits(new_top, 1);
        DoorInfo::set_opposite_door_bits(new_bottom, 1);
        DoorInfo::set_opposite_door_bits(neigh_bottom, 0);
        DoorInfo::set_opposite_door_bits(neigh_top, 0);
        true
    } else {
        false
    }
}

/// A double door opens symmetrically: two doors facing the same way, one plain
/// and one mirrored, show the same model while shut and opposite models (half
/// a turn apart) while both are open.
pub proof fn law_double_door_models(plain: u32, mirrored: u32)
    requires
        door_direction(plain) == door_direction(mirrored),
        door_opposite(plain) == 0,
        door_opposite(mirrored) == 1,
        door_open(plain) == door_open(mirrored),
    ensures
        door_open(plain) == 0 ==> door_model(plain) == door_model(mirrored),
        door_open(plain) == 1 ==> (door_model(plain) - door_model(mirrored)) % 4 == 2,
{
}

} // verus!
