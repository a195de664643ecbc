use vstd::prelude::*;

use crate::chunk::{chunk_coord, chunk_pair, push_unique, spot_to_chunk_pos};
use crate::vec::{IVec2, IVec3};

verus! {

/// The height of the water line of generated terrain.
pub const WATER_LEVEL: i32 = 30;

/// The blocks a stretch of generated terrain is made of: deep underground, on
/// the surface, just under the surface, in hollows below the water line, and on
/// beaches.
#[derive(PartialEq, Eq, Structural, Clone, Copy, Debug)]
pub struct Palette {
    pub underdirt: u32,
    pub surface: u32,
    pub undersurface: u32,
    pub liquid: u32,
    pub beach: u32,
}

/// The palette of a biome: all stone (1) with water where the first biome
/// noise is positive; otherwise dirt (4) over stone (5) under grass (3), or
/// under block 34 where the second biome noise is positive, with water (2)
/// and sand (1) beaches.
pub open spec fn biome_palette_spec(stony: bool, alt_surface: bool) -> Palette {
    if stony {
        Palette { underdirt: 1, surface: 1, undersurface: 1, liquid: 2, beach: 1 }
    } else {
        Palette { underdirt: 5, surface: if alt_surface { 34 } else { 3 }, undersurface: 4, liquid: 2, beach: 1 }
    }
}

/// The palette of a biome (see `biome_palette_spec`), given whether the first
/// and second biome noises are positive.
pub fn biome_palette(stony: bool, alt_surface: bool) -> (p: Palette)
    ensures
        p == biome_palette_spec(stony, alt_surface),
{
    let mut underdirt: u32 = 5;
    let mut surface: u32 = 3;
    let mut undersurface: u32 = 4;
    let mut liquid: u32 = 2;
    let mut beach: u32 = 1;
    if stony {
        underdirt = 1;
        surface = 1;
        undersurface = 1;
        liquid = 2;
        beach = 1;
    } else {
        if alt_surface {
            surface = 34;
        }
    }
    Palette { underdirt, surface, undersurface, liquid, beach }
}

/// What the terrain noises say about one position: whether the ground noise
/// is above its threshold there and 10 blocks above it; whether the ore noise
/// is high; whether the position is above the beach line; whether the ground
/// noise is above its threshold 5 blocks up and below it 1 block up; and
/// whether a cave hollows the position.
#[derive(PartialEq, Eq, Structural, Clone, Copy, Debug)]
pub struct TerrainSample {
    pub solid: bool,
    pub solid_10_above: bool,
    pub ore: bool,
    pub above_beach: bool,
    pub solid_5_above: bool,
    pub open_1_above: bool,
    pub cave: bool,
}

/// The generated block at height `y`: bedrock (15) at height 0; inside the
/// ground, ore (35) or the deep block well under the surface, the surface or
/// under-surface block near the top above the beach line (or under an
/// overhang), a beach block below it; outside the ground, the liquid below the
/// water line and air above; and air wherever a cave hollows anything but liquid.
pub open spec fn natural_block_spec(y: i32, p: Palette, s: TerrainSample) -> u32 {
    if y == 0 {
        15
    } else {
        let ret = if s.solid {
            if s.solid_10_above {
                if s.ore { 35 } else { p.underdirt }
            } else if s.above_beach || s.solid_5_above {
                if s.open_1_above { p.surface } else { p.undersurface }
            } else {
                p.beach
            }
        } else if y < WATER_LEVEL {
            p.liquid
        } else {
            0
        };
        if ret != 2 && s.cave { 0 } else { ret }
    }
}

/// The generated block at height `y` for a palette and what the noises say
/// there (see `natural_block_spec`).
pub fn natural_block(y: i32, p: &Palette, s: &TerrainSample) -> (b: u32)
    ensures
        b == natural_block_spec(y, *p, *s),
{
    if y == 0 {
        return 15;
    }
    let ret = if s.solid {
        if s.solid_10_above {
            if s.ore {
                35
            } else {
                p.underdirt
            }
        } else {
            if s.above_beach || s.solid_5_above {
                if s.open_1_above {
                    p.surface
                } else {
                    p.undersurface
                }
            } else {
                p.beach
            }
        }
    } else {
        if y < WATER_LEVEL {
            p.liquid
        } else {
            0
        }
    };
    if ret != 2 {
        if s.cave {
            return 0;
        }
    }
    ret
}


/// One voxel of a model to be stamped into the world: its place inside the box
/// of the part of the model it belongs to, that box's footprint, and its colour.
#[derive(PartialEq, Eq, Structural, Clone, Copy, Debug)]
pub struct StampVoxel {
    pub x: u8,
    pub y: u8,
    pub z: u8,
    pub size_x: u32,
    pub size_y: u32,
    pub color: u8,
}

/// Where a voxel lands when its model is stamped at `spot`: the footprint is
/// centred on the spot and the model's z axis becomes the world's height.
pub open spec fn stamp_point(spot: IVec3, v: StampVoxel) -> (int, int, int) {
    (
        spot.x + (v.x - v.size_x / 2),
        spot.y + v.z,
        spot.z + (v.y - v.size_y / 2),
    )
}

/// The block a voxel's colour becomes: the colour index, at most the last
/// textured block (46 + 1 = 47).
pub open spec fn stamp_block(color: u8) -> u32 {
    if color > 47 {
        47
    } else {
        color as u32
    }
}

/// Whether every voxel of a stamp lands on a position that fits in `i32`.
pub open spec fn stamp_fits(spot: IVec3, voxels: Seq<StampVoxel>) -> bool {
    forall|k: int|
        0 <= k < voxels.len() ==> {
            let p = #[trigger] stamp_point(spot, voxels[k]);
            i32::MIN <= p.0 <= i32::MAX && i32::MIN <= p.1 <= i32::MAX && i32::MIN <= p.2 <= i32::MAX
        }
}

/// The chunks the first `n` voxels of a stamp land in.
pub open spec fn stamp_chunks(spot: IVec3, voxels: Seq<StampVoxel>, n: int) -> Set<(int, int)> {
    Set::new(
        |c: (int, int)|
            exists|k: int|
                0 <= k < n && c == (
                    chunk_coord(#[trigger] stamp_point(spot, voxels[k]).0),
                    chunk_coord(stamp_point(spot, voxels[k]).2),
                ),
    )
}

/// The blocks stamping a model at `spot` writes, one per voxel and in the
/// voxels' order, and the chunks they land in, each once.
pub fn stamp_writes(spot: IVec3, voxels: &Vec<StampVoxel>) -> (r: (Vec<(IVec3, u32)>, Vec<IVec2>))
    requires
        stamp_fits(spot, voxels@),
    ensures
        r.0@.len() == voxels@.len(),
        forall|k: int|
            0 <= k < voxels@.len() ==> (#[trigger] r.0@[k]).0.x == stamp_point(spot, voxels@[k]).0
                && r.0@[k].0.y == stamp_point(spot, voxels@[k]).1
                && r.0@[k].0.z == stamp_point(spot, voxels@[k]).2
                && r.0@[k].1 == stamp_block(voxels@[k].color),
        r.1@.map_values(|e: IVec2| chunk_pair(e)).to_set() == stamp_chunks(spot, voxels@, voxels@.len() as int),
        r.1@.map_values(|e: IVec2| chunk_pair(e)).no_duplicates(),
{
    let mut writes: Vec<(IVec3, u32)> = Vec::new();
    let mut chunks: Vec<IVec2> = Vec::new();
    let mut k: usize = 0;
    proof {
        assert(chunks@.map_values(|e: IVec2| chunk_pair(e)) =~= Seq::<(int, int)>::empty());
        assert(chunks@.map_values(|e: IVec2| chunk_pair(e)).to_set() =~= stamp_chunks(spot, voxels@, 0));
    }
    while k < voxels.len()
        invariant
            0 <= k <= voxels@.len(),
            stamp_fits(spot, voxels@),
            writes@.len() == k,
            forall|j: int|
                0 <= j < k ==> (#[trigger] writes@[j]).0.x == stamp_point(spot, voxels@[j]).0
                    && writes@[j].0.y == stamp_point(spot, voxels@[j]).1
                    && writes@[j].0.z == stamp_point(spot, voxels@[j]).2
                    && writes@[j].1 == stamp_block(voxels@[j].color),
            chunks@.map_values(|e: IVec2| chunk_pair(e)).to_set() == stamp_chunks(spot, voxels@, k as int),
            chunks@.map_values(|e: IVec2| chunk_pair(e)).no_duplicates(),
        decreases voxels@.len() - k,
    {
        let v = voxels[k];
        proof {
            let p = stamp_point(spot, voxels@[k as int]);
            assert(i32::MIN <= p.0 <= i32::MAX && i32::MIN <= p.1 <= i32::MAX && i32::MIN <= p.2 <= i32::MAX);
        }
        let hx: i32 = (v.size_x / 2) as i32;
        let hy: i32 = (v.size_y / 2) as i32;
        let px: i32 = v.x as i32 - hx;
        let pz: i32 = v.y as i32 - hy;
        let here = IVec3 { x: spot.x + px, y: spot.y + v.z as i32, z: spot.z + pz };
        let block: u32 = if v.color > 47 {
            47
        } else {
            v.color as u32
        };
        writes.push((here, block));
        let c = spot_to_chunk_pos(&here);
        let ghost before = chunks@.map_values(|e: IVec2| chunk_pair(e)).to_set();
        push_unique(&mut chunks, c);
        proof {
            let after = chunks@.map_values(|e: IVec2| chunk_pair(e)).to_set();
            let want = stamp_chunks(spot, voxels@, k + 1);
            assert(chunk_pair(c) == (
                chunk_coord(stamp_point(spot, voxels@[k as int]).0),
                chunk_coord(stamp_point(spot, voxels@[k as int]).2),
            ));
            assert forall|cc: (int, int)| after.contains(cc) implies #[trigger] want.contains(cc) by {
                if cc != chunk_pair(c) {
                    assert(before.contains(cc));
                }
            }
            assert forall|cc: (int, int)| want.contains(cc) implies #[trigger] after.contains(cc) by {
                let j = choose|j: int|
                    0 <= j < k + 1 && cc == (
                        chunk_coord(#[trigger] stamp_point(spot, voxels@[j]).0),
                        chunk_coord(stamp_point(spot, voxels@[j]).2),
                    );
                if j < k {
                    assert(before.contains(cc));
                }
            }
            assert(after =~= want);
        }
        k = k + 1;
    }
    (writes, chunks)
}


/// Caves hollow everything but liquid: above the bottom layer, wherever the
/// cave noise says cave, the generated block is air (0) or water (2). Outside
/// caves, solid ground of any biome is never air, and the bottom layer is
/// always bedrock (15).
pub proof fn law_caves_hollow(y: i32, p: Palette, s: TerrainSample, stony: bool, alt: bool)
    ensures
        y != 0 && s.cave ==> natural_block_spec(y, p, s) == 0 || natural_block_spec(y, p, s) == 2,
        y != 0 && !s.cave && s.solid && p == biome_palette_spec(stony, alt) ==> natural_block_spec(y, p, s)
            != 0,
        y == 0 ==> natural_block_spec(y, p, s) == 15,
{
}

} // verus!
