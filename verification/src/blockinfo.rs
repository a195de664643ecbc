use vstd::prelude::*;

use crate::chunk::LightColor;
use crate::cube::{CubeSide, side_index};

verus! {

/// The two bits of a block value that hold the direction the block faces.
pub const BLOCK_DIRECTION_BITS: u32 = 0b0000_0000_0000_0011_0000_0000_0000_0000;

/// The number of block ids that have textures.
pub const NUM_TEXTURED_BLOCKS: u32 = 47;

/// Static facts about block ids: names, textures, and which groups an id belongs to.
pub struct Blocks {}

/// The display name of a block id.
pub open spec fn block_name(id: u32) -> Seq<char> {
    match id {
        0 => "Air"@,
        1 => "Sand"@,
        2 => "Water"@,
        3 => "Grass"@,
        4 => "Dirt"@,
        5 => "Cobblestone"@,
        6 => "Wood"@,
        7 => "Leaves"@,
        8 => "Glass"@,
        9 => "Stone"@,
        10 => "Wood Planks"@,
        11 => "Bush Leaves"@,
        12 => "Petrified Wood"@,
        13 => "Red Stone"@,
        14 => "Salted Earth"@,
        15 => "Bedrock"@,
        16 => "Red Crystal Unattainable"@,
        17 => "Red Crystal"@,
        18 => "Light"@,
        19 => "Door"@,
        20 => "Ladder"@,
        21 => "Wooden Trunk"@,
        22 => "Bamboo"@,
        23 => "Tall Grass"@,
        24 => "Blue Light"@,
        25 => "Purple Light"@,
        26 => "Yellow Light"@,
        27 => "Red Light"@,
        28 => "Green Light"@,
        29 => "Orange Light"@,
        30 => "Teal Light"@,
        31 => "Crafting Bench"@,
        32 => "Apple"@,
        33 => "Bamboo Piece"@,
        34 => "Dead Leaf Mulch"@,
        35 => "Metal Rock"@,
        36 => "Crude Blade"@,
        37 => "Crude Pick"@,
        38 => "Crude Mattock"@,
        39 => "Crude Axe"@,
        40 => "Jump Switcher Block"@,
        41 => "Jump Switcher Block"@,
        42 => "Trampoline Block"@,
        43 => "Rubber Tree Wood"@,
        44 => "Rubber Tree Leaves"@,
        45 => "Conveyor"@,
        46 => "Auto Trampoline"@,
        _ => "Unknown Item"@,
    }
}

/// The atlas cells of a textured block: sides, bottom, top.
pub open spec fn block_texs(id: u32) -> ((u8, u8), (u8, u8), (u8, u8))
    recommends
        id < NUM_TEXTURED_BLOCKS,
{
    match id {
        0 => ((0, 0), (0, 0), (0, 0)),
        1 => ((1, 0), (1, 0), (1, 0)),
        2 => ((2, 0), (2, 0), (2, 0)),
        3 => ((3, 0), (4, 0), (3, 1)),
        4 => ((4, 0), (4, 0), (4, 0)),
        5 => ((5, 0), (5, 0), (5, 0)),
        6 => ((6, 0), (6, 1), (6, 1)),
        7 => ((7, 0), (7, 0), (7, 0)),
        8 => ((8, 0), (8, 0), (8, 0)),
        9 => ((9, 0), (9, 0), (9, 0)),
        10 => ((10, 0), (10, 0), (10, 0)),
        11 => ((7, 1), (7, 1), (7, 1)),
        12 => ((4, 2), (4, 2), (4, 2)),
        13 => ((6, 2), (6, 2), (6, 2)),
        14 => ((7, 2), (7, 2), (7, 2)),
        15 => ((8, 2), (8, 2), (8, 2)),
        16 => ((0, 3), (0, 3), (0, 3)),
        17 => ((0, 4), (0, 4), (0, 4)),
        18 => ((12, 1), (12, 1), (12, 1)),
        19 => ((12, 0), (12, 0), (12, 0)),
        20 => ((0, 1), (0, 1), (0, 1)),
        21 => ((15, 0), (15, 0), (15, 0)),
        22 => ((13, 1), (14, 1), (14, 1)),
        23 => ((1, 3), (1, 3), (1, 3)),
        24 => ((10, 2), (10, 2), (10, 2)),
        25 => ((11, 2), (11, 2), (11, 2)),
        26 => ((12, 2), (12, 2), (12, 2)),
        27 => ((13, 2), (13, 2), (13, 2)),
        28 => ((10, 3), (10, 3), (10, 3)),
        29 => ((11, 3), (11, 3), (11, 3)),
        30 => ((12, 3), (12, 3), (12, 3)),
        31 => ((1, 5), (1, 5), (1, 5)),
        32 => ((3, 3), (3, 3), (3, 3)),
        33 => ((2, 3), (2, 3), (2, 3)),
        34 => ((7, 4), (7, 4), (7, 4)),
        35 => ((2, 4), (2, 4), (2, 4)),
        36 => ((2, 5), (2, 5), (2, 5)),
        37 => ((3, 5), (3, 5), (3, 5)),
        38 => ((4, 5), (4, 5), (4, 5)),
        39 => ((5, 5), (5, 5), (5, 5)),
        40 => ((10, 4), (10, 4), (10, 4)),
        41 => ((11, 4), (11, 4), (11, 4)),
        42 => ((10, 5), (10, 5), (10, 5)),
        43 => ((0, 8), (2, 8), (2, 8)),
        44 => ((1, 8), (1, 8), (1, 8)),
        45 => ((10, 6), (10, 6), (10, 6)),
        46 => ((11, 5), (11, 5), (11, 5)),
        _ => ((0, 0), (0, 0), (0, 0)),
    }
}

/// The atlas cell shown on one face of a block: bottom and top have their own
/// cells, the four other faces share the side cell.
pub open spec fn face_tex(id: u32, side: CubeSide) -> (u8, u8) {
    let row = block_texs(id);
    if side_index(side) == 2 {
        row.1
    } else if side_index(side) == 3 {
        row.2
    } else {
        row.0
    }
}

/// Water (2) and glass (8) let light and sight through.
pub open spec fn spec_is_transparent(id: u32) -> bool {
    id == 2 || id == 8
}

/// Ladders (20) and bamboo (22) can be climbed.
pub open spec fn spec_is_climbable(id: u32) -> bool {
    id == 20 || id == 22
}

/// Blocks with holes or models of their own, drawn with what lies behind them.
pub open spec fn spec_is_semi_transparent(id: u32) -> bool {
    id == 7 || id == 11 || id == 19 || id == 20 || id == 21 || id == 22 || id == 23 || id == 31
        || id == 44
}

/// Items that are not placed as blocks: food, red crystals and tools.
pub open spec fn spec_is_non_placeable(id: u32) -> bool {
    id == 32 || id == 33 || id == 17 || id == 36 || id == 37 || id == 38 || id == 39
}

/// Blocks that give off light.
pub open spec fn spec_is_light(id: u32) -> bool {
    id == 18 || id == 24 || id == 25 || id == 26 || id == 27 || id == 28 || id == 29 || id == 30
}

/// Blocks that can be eaten: apples (32) and bamboo pieces (33).
pub open spec fn spec_is_food(id: u32) -> bool {
    id == 32 || id == 33
}

/// The colour a light block shines with; ids that are no coloured light shine white.
pub open spec fn light_color(id: u32) -> (u16, u16, u16) {
    if id == 24 {
        (0, 0, 15)
    } else if id == 25 {
        (7, 0, 10)
    } else if id == 26 {
        (15, 15, 0)
    } else if id == 27 {
        (15, 0, 0)
    } else if id == 28 {
        (0, 15, 0)
    } else if id == 29 {
        (15, 7, 0)
    } else if id == 30 {
        (2, 15, 12)
    } else {
        (15, 15, 15)
    }
}

/// The sound series played when walking on a block.
pub open spec fn walk_series(id: u32) -> Seq<char> {
    if id == 3 || id == 22 {
        "grassstepseries"@
    } else if id == 34 {
        "mulchstepseries"@
    } else if id == 7 || id == 11 {
        "plantplaceseries"@
    } else if id == 1 {
        "sandstepseries"@
    } else if id == 6 || id == 10 {
        "woodstepseries"@
    } else if id == 4 {
        "dirtstepseries"@
    } else if id == 2 {
        "waterstepseries"@
    } else {
        "stonestepseries"@
    }
}

/// The sound series played when a block is placed or broken.
pub open spec fn place_series(id: u32) -> Seq<char> {
    if id == 3 {
        "grassstepseries"@
    } else if id == 34 {
        "mulchstepseries"@
    } else if id == 7 || id == 22 || id == 11 {
        "plantplaceseries"@
    } else if id == 8 || id == 18 {
        "glassplaceseries"@
    } else if id == 19 {
        "doorseries"@
    } else {
        "stoneplaceseries"@
    }
}

fn texs_row(id: u32) -> (r: ((u8, u8), (u8, u8), (u8, u8)))
    requires
        id < NUM_TEXTURED_BLOCKS,
    ensures
        r == block_texs(id),
{
    match id {
        0 => ((0, 0), (0, 0), (0, 0)),
        1 => ((1, 0), (1, 0), (1, 0)),
        2 => ((2, 0), (2, 0), (2, 0)),
        3 => ((3, 0), (4, 0), (3, 1)),
        4 => ((4, 0), (4, 0), (4, 0)),
        5 => ((5, 0), (5, 0), (5, 0)),
        6 => ((6, 0), (6, 1), (6, 1)),
        7 => ((7, 0), (7, 0), (7, 0)),
        8 => ((8, 0), (8, 0), (8, 0)),
        9 => ((9, 0), (9, 0), (9, 0)),
        10 => ((10, 0), (10, 0), (10, 0)),
        11 => ((7, 1), (7, 1), (7, 1)),
        12 => ((4, 2), (4, 2), (4, 2)),
        13 => ((6, 2), (6, 2), (6, 2)),
        14 => ((7, 2), (7, 2), (7, 2)),
        15 => ((8, 2), (8, 2), (8, 2)),
        16 => ((0, 3), (0, 3), (0, 3)),
        17 => ((0, 4), (0, 4), (0, 4)),
        18 => ((12, 1), (12, 1), (12, 1)),
        19 => ((12, 0), (12, 0), (12, 0)),
        20 => ((0, 1), (0, 1), (0, 1)),
        21 => ((15, 0), (15, 0), (15, 0)),
        22 => ((13, 1), (14, 1), (14, 1)),
        23 => ((1, 3), (1, 3), (1, 3)),
        24 => ((10, 2), (10, 2), (10, 2)),
        25 => ((11, 2), (11, 2), (11, 2)),
        26 => ((12, 2), (12, 2), (12, 2)),
        27 => ((13, 2), (13, 2), (13, 2)),
        28 => ((10, 3), (10, 3), (10, 3)),
        29 => ((11, 3), (11, 3), (11, 3)),
        30 => ((12, 3), (12, 3), (12, 3)),
        31 => ((1, 5), (1, 5), (1, 5)),
        32 => ((3, 3), (3, 3), (3, 3)),
        33 => ((2, 3), (2, 3), (2, 3)),
        34 => ((7, 4), (7, 4), (7, 4)),
        35 => ((2, 4), (2, 4), (2, 4)),
        36 => ((2, 5), (2, 5), (2, 5)),
        37 => ((3, 5), (3, 5), (3, 5)),
        38 => ((4, 5), (4, 5), (4, 5)),
        39 => ((5, 5), (5, 5), (5, 5)),
        40 => ((10, 4), (10, 4), (10, 4)),
        41 => ((11, 4), (11, 4), (11, 4)),
        42 => ((10, 5), (10, 5), (10, 5)),
        43 => ((0, 8), (2, 8), (2, 8)),
        44 => ((1, 8), (1, 8), (1, 8)),
        45 => ((10, 6), (10, 6), (10, 6)),
        46 => ((11, 5), (11, 5), (11, 5)),
        _ => ((0, 0), (0, 0), (0, 0)),
    }
}

impl Blocks {
    /// The name a block is shown by.
    pub fn get_name(id: u32) -> (name: &'static str)
        ensures
            name@ == block_name(id),
    {
        match id {
        0 => "Air",
        1 => "Sand",
        2 => "Water",
        3 => "Grass",
        4 => "Dirt",
        5 => "Cobblestone",
        6 => "Wood",
        7 => "Leaves",
        8 => "Glass",
        9 => "Stone",
        10 => "Wood Planks",
        11 => "Bush Leaves",
        12 => "Petrified Wood",
        13 => "Red Stone",
        14 => "Salted Earth",
        15 => "Bedrock",
        16 => "Red Crystal Unattainable",
        17 => "Red Crystal",
        18 => "Light",
        19 => "Door",
        20 => "Ladder",
        21 => "Wooden Trunk",
        22 => "Bamboo",
        23 => "Tall Grass",
        24 => "Blue Light",
        25 => "Purple Light",
        26 => "Yellow Light",
        27 => "Red Light",
        28 => "Green Light",
        29 => "Orange Light",
        30 => "Teal Light",
        31 => "Crafting Bench",
        32 => "Apple",
        33 => "Bamboo Piece",
        34 => "Dead Leaf Mulch",
        35 => "Metal Rock",
        36 => "Crude Blade",
        37 => "Crude Pick",
        38 => "Crude Mattock",
        39 => "Crude Axe",
        40 => "Jump Switcher Block",
        41 => "Jump Switcher Block",
        42 => "Trampoline Block",
        43 => "Rubber Tree Wood",
        44 => "Rubber Tree Leaves",
        45 => "Conveyor",
        46 => "Auto Trampoline",
            _ => "Unknown Item",
        }
    }

    /// The colour of the light a block gives off (see `light_color`).
    pub fn get_light_color(id: u32) -> (c: LightColor)
        ensures
            (c.x, c.y, c.z) == light_color(id),
    {
        match id {
            24 => LightColor { x: 0, y: 0, z: 15 },
            25 => LightColor { x: 7, y: 0, z: 10 },
            26 => LightColor { x: 15, y: 15, z: 0 },
            27 => LightColor { x: 15, y: 0, z: 0 },
            28 => LightColor { x: 0, y: 15, z: 0 },
            29 => LightColor { x: 15, y: 7, z: 0 },
            30 => LightColor { x: 2, y: 15, z: 12 },
            _ => LightColor { x: 15, y: 15, z: 15 },
        }
    }

    /// How many blocks have textures.
    pub fn get_texs_length() -> (n: usize)
        ensures
            n == NUM_TEXTURED_BLOCKS,
    {
        47
    }

    /// The place in the texture atlas of a block's texture for one side.
    pub fn get_tex_coords(id: u32, side: CubeSide) -> (t: (u8, u8))
        requires
            id < NUM_TEXTURED_BLOCKS,
        ensures
            t == face_tex(id, side),
    {
        let row = texs_row(id);
        match side {
            CubeSide::BOTTOM => row.1,
            CubeSide::TOP => row.2,
            _ => row.0,
        }
    }

    /// Whether a block is transparent (see `spec_is_transparent`).
    pub fn is_transparent(id: u32) -> (b: bool)
        ensures
            b == spec_is_transparent(id),
    {
        id == 2 || id == 8
    }

    /// Whether a block can be climbed.
    pub fn is_climbable(id: u32) -> (b: bool)
        ensures
            b == spec_is_climbable(id),
    {
        id == 20 || id == 22
    }

    /// Whether a block is partly see-through.
    pub fn is_semi_transparent(id: u32) -> (b: bool)
        ensures
            b == spec_is_semi_transparent(id),
    {
        id == 7 || id == 11 || id == 19 || id == 20 || id == 21 || id == 22 || id == 23 || id == 31
            || id == 44
    }

    /// Whether an item cannot be placed as a block.
    pub fn is_non_placeable(id: u32) -> (b: bool)
        ensures
            b == spec_is_non_placeable(id),
    {
        id == 32 || id == 33 || id == 17 || id == 36 || id == 37 || id == 38 || id == 39
    }

    /// Whether a block gives off light.
    pub fn is_light(id: u32) -> (b: bool)
        ensures
            b == spec_is_light(id),
    {
        id == 18 || id == 24 || id == 25 || id == 26 || id == 27 || id == 28 || id == 29 || id == 30
    }

    /// Whether a block can be eaten.
    pub fn is_food(id: u32) -> (b: bool)
        ensures
            b == spec_is_food(id),
    {
        id == 32 || id == 33
    }

    /// The mask of the low 16 bits, which hold a block's id.
    pub fn block_id_bits() -> (m: u32)
        ensures
            m == 0xFFFF,
    {
        0b0000_0000_0000_0000_1111_1111_1111_1111
    }

    /// The direction a block faces, read from bits 16 and 17.
    pub fn get_direction_bits(input: u32) -> (d: u32)
        ensures
            d == (input / 0x1_0000) % 4,
    {
        let d = (input & BLOCK_DIRECTION_BITS) >> 16;
        assert(d == (input / 0x1_0000) % 4) by (bit_vector)
            requires
                d == (input & 0b0000_0000_0000_0011_0000_0000_0000_0000u32) >> 16u32,
        ;
        d
    }

    /// Ors `direction`, moved up 16 places, into the block value.
    pub fn set_direction_bits(input: &mut u32, direction: u32)
        ensures
            *final(input) == (*old(input) | (direction << 16u32)),
    {
        let bits = direction << 16;
        *input |= bits;
    }

    /// The mask of the high 16 bits, which hold a block's flags.
    pub fn block_flag_bits() -> (m: u32)
        ensures
            m == 0xFFFF_0000,
    {
        0b1111_1111_1111_1111_0000_0000_0000_0000
    }

    /// Hunger and stamina restored by eating; every food gives the same.
    pub fn get_food_stats(id: u32) -> (s: (i32, i32))
        ensures
            s == (6i32, 50i32),
    {
        (6, 50)
    }

    /// The series of sounds played when walking on a block.
    pub fn get_walk_series(id: u32) -> (s: &'static str)
        ensures
            s@ == walk_series(id),
    {
        match id {
            3 => "grassstepseries",
            34 => "mulchstepseries",
            7 => "plantplaceseries",
            11 => "plantplaceseries",
            1 => "sandstepseries",
            6 => "woodstepseries",
            4 => "dirtstepseries",
            10 => "woodstepseries",
            22 => "grassstepseries",
            2 => "waterstepseries",
            _ => "stonestepseries",
        }
    }

    /// The series of sounds played when placing a block.
    pub fn get_place_series(id: u32) -> (s: &'static str)
        ensures
            s@ == place_series(id),
    {
        match id {
            3 => "grassstepseries",
            34 => "mulchstepseries",
            7 => "plantplaceseries",
            8 => "glassplaceseries",
            22 => "plantplaceseries",
            18 => "glassplaceseries",
            19 => "doorseries",
            11 => "plantplaceseries",
            _ => "stoneplaceseries",
        }
    }
}

} // verus!
