use vstd::prelude::*;

use crate::blockinfo::{Blocks, spec_is_semi_transparent, spec_is_transparent};
use crate::cube::CubeSide;
use crate::vec::{IVec2, IVec3};

use dashmap::DashMap;

verus! {

/// The chunk position a chunk slot holds before it is first used.
pub const CHUNKPOSDEFAULT: i32 = 999999;

/// The width of a chunk along x and z, in blocks.
pub const CW: i32 = 15;

/// The height of the world, in blocks.
pub const CH: i32 = 256;

/// An amount of red, green and blue light, each from 0 to 15 where it is shown.
#[derive(PartialEq, Eq, Structural, Clone, Copy, Debug)]
pub struct LightColor {
    pub x: u16,
    pub y: u16,
    pub z: u16,
}

/// The light one source casts on a block: how much, from where, and which
/// neighbouring blocks it went on to.
pub struct LightRay {
    pub value: LightColor,
    pub origin: IVec3,
    pub directions: Vec<CubeSide>,
}

/// All the light rays that reach one block.
pub struct LightSegment {
    pub rays: Vec<LightRay>,
}

/// The sum of one colour channel over the first `n` rays.
pub open spec fn channel_sum(rays: Seq<LightRay>, channel: int, n: int) -> int
    decreases n,
{
    if n <= 0 {
        0
    } else {
        channel_sum(rays, channel, n - 1) + channel_of(rays[n - 1].value, channel)
    }
}

/// Channel 0, 1 or 2 (red, green, blue) of a light colour.
pub open spec fn channel_of(c: LightColor, channel: int) -> int {
    if channel == 0 {
        c.x as int
    } else if channel == 1 {
        c.y as int
    } else {
        c.z as int
    }
}

/// A channel's light, capped at full brightness (15).
pub open spec fn capped(v: int) -> int {
    if v < 15 { v } else { 15 }
}

/// The rays' channel sums stay within `u16`, as adding them up in `u16` needs.
pub open spec fn sums_fit(rays: Seq<LightRay>) -> bool {
    forall|c: int| 0 <= c < 3 ==> #[trigger] channel_sum(rays, c, rays.len() as int) <= u16::MAX
}

/// Channel sums over more rays are never smaller.
proof fn lemma_channel_sum_mono(rays: Seq<LightRay>, c: int, i: int, n: int)
    requires
        0 <= i <= n,
    ensures
        channel_sum(rays, c, i) <= channel_sum(rays, c, n),
    decreases n - i,
{
    if i < n {
        lemma_channel_sum_mono(rays, c, i, n - 1);
    }
}

impl LightSegment {
    /// The light a block receives: each channel summed over the rays and capped at 15.
    pub fn sum(&self) -> (res: LightColor)
        requires
            sums_fit(self.rays@),
        ensures
            res.x == capped(channel_sum(self.rays@, 0, self.rays@.len() as int)),
            res.y == capped(channel_sum(self.rays@, 1, self.rays@.len() as int)),
            res.z == capped(channel_sum(self.rays@, 2, self.rays@.len() as int)),
    {
        let ghost rays = self.rays@;
        let ghost n = rays.len() as int;
        let mut x: u16 = 0;
        let mut y: u16 = 0;
        let mut z: u16 = 0;
        let mut i: usize = 0;
        proof {
            assert(channel_sum(rays, 0, n) <= u16::MAX);
            assert(channel_sum(rays, 1, n) <= u16::MAX);
            assert(channel_sum(rays, 2, n) <= u16::MAX);
        }
        while i < self.rays.len()
            invariant
                rays == self.rays@,
                n == rays.len(),
                0 <= i <= n,
                x == channel_sum(rays, 0, i as int),
                y == channel_sum(rays, 1, i as int),
                z == channel_sum(rays, 2, i as int),
                channel_sum(rays, 0, n) <= u16::MAX,
                channel_sum(rays, 1, n) <= u16::MAX,
                channel_sum(rays, 2, n) <= u16::MAX,
            decreases n - i,
        {
            proof {
                lemma_channel_sum_mono(rays, 0, i + 1, n);
                lemma_channel_sum_mono(rays, 1, i + 1, n);
                lemma_channel_sum_mono(rays, 2, i + 1, n);
            }
            let v = self.rays[i].value;
            x = x + v.x;
            y = y + v.y;
            z = z + v.z;
            i = i + 1;
        }
        LightColor { x: if x < 15 { x } else { 15 }, y: if y < 15 { y } else { 15 }, z: if z < 15 { z } else { 15 } }
    }
}

/// A slot of the chunk system: which geometry buffer it uses, whether it is in
/// use, and which chunk it holds.
#[derive(Clone, Copy)]
pub struct ChunkFacade {
    pub geo_index: usize,
    pub used: bool,
    pub pos: IVec2,
}

/// A chunk mesh ready to upload: where it goes, which chunk it shows, and the
/// lengths of its solid, transparent, model and weather vertex data.
pub struct ReadyMesh {
    pub geo_index: usize,
    pub newpos: IVec2,
    pub newlength: i32,
    pub newtlength: i32,
    pub newvlength: i32,
    pub newwvlength: i32,
}

impl ReadyMesh {
    /// A finished mesh for the chunk slot `index`, now at `newpos`, with the lengths of its buffers.
    pub fn new(
        index: usize,
        newpos: &IVec2,
        newlength: i32,
        newtlength: i32,
        newvlength: i32,
        newwvlength: i32,
    ) -> (m: ReadyMesh)
        ensures
            m.geo_index == index,
            m.newpos == *newpos,
            m.newlength == newlength,
            m.newtlength == newtlength,
            m.newvlength == newvlength,
            m.newwvlength == newwvlength,
    {
        ReadyMesh { geo_index: index, newpos: *newpos, newlength, newtlength, newvlength, newwvlength }
    }
}

/// A change the world's automata want: turn the block at `spot` into `changeto`
/// if it is still `expectedhere`.
pub struct AutomataChange {
    pub expectedhere: u32,
    pub spot: IVec3,
    pub changeto: u32,
}

impl AutomataChange {
    /// A change of the block at `spot` from `expectedhere` to `changeto`.
    pub fn new(expectedhere: u32, spot: IVec3, changeto: u32) -> (c: Self)
        ensures
            c.expectedhere == expectedhere,
            c.spot == spot,
            c.changeto == changeto,
    {
        Self { expectedhere, spot, changeto }
    }
}

/// The height of the highest block of a column whose id (low 16 bits) is `id`,
/// where `column[j]` is the block value at height `j`: the grass (3) that the
/// weather automaton may turn into snow (48).
fn topmost_with_id(column: &Vec<u32>, id: u32) -> (r: Option<usize>)
    ensures
        match r {
            Some(j) => j < column@.len() && column@[j as int] & 0xFFFF == id
                && forall|k: int| j < k < column@.len() ==> #[trigger] column@[k] & 0xFFFF != id,
            None => forall|k: int| 0 <= k < column@.len() ==> #[trigger] column@[k] & 0xFFFF != id,
        },
{
    let mut j: usize = column.len();
    while j > 0
        invariant
            j <= column@.len(),
            forall|k: int| j <= k < column@.len() ==> #[trigger] column@[k] & 0xFFFF != id,
        decreases j,
    {
        j = j - 1;
        if column[j] & 0xFFFF == id {
            return Some(j);
        }
    }
    None
}

/// The change the weather automaton makes to a column: the topmost grass
/// block (id 3) at `(x, j, z)` becomes snow (48), if the column has grass.
pub fn snow_change(column: &Vec<u32>, x: i32, z: i32) -> (c: Option<AutomataChange>)
    requires
        column@.len() <= i32::MAX,
    ensures
        match c {
            Some(ch) => ch.expectedhere == 3 && ch.changeto == 48 && ch.spot.x == x && ch.spot.z == z
                && 0 <= ch.spot.y < column@.len() && column@[ch.spot.y as int] & 0xFFFF == 3
                && forall|k: int| ch.spot.y < k < column@.len() ==> #[trigger] column@[k] & 0xFFFF != 3,
            None => forall|k: int| 0 <= k < column@.len() ==> #[trigger] column@[k] & 0xFFFF != 3,
        },
{
    match topmost_with_id(column, 3) {
        Some(j) => Some(AutomataChange::new(3, IVec3 { x, y: j as i32, z }, 48)),
        None => None,
    }
}

/// The chunk that holds block coordinate `v`: `v` divided by the chunk width,
/// rounded down.
pub open spec fn chunk_coord(v: int) -> int {
    v / (CW as int)
}

/// `v` divided by 15, rounded down.
fn floor_div_cw(v: i32) -> (q: i32)
    ensures
        q == chunk_coord(v as int),
{
    let w: i64 = v as i64;
    if w >= 0 {
        (w / 15) as i32
    } else {
        let m: i64 = -w + 14;
        let q = m / 15;
        assert(-q == w / 15) by (nonlinear_arith)
            requires
                m == -w + 14,
                w < 0,
                q == m / 15,
        ;
        (-q) as i32
    }
}

/// The chunk a block position lies in.
pub fn spot_to_chunk_pos(spot: &IVec3) -> (c: IVec2)
    ensures
        c.x == chunk_coord(spot.x as int),
        c.y == chunk_coord(spot.z as int),
{
    IVec2 { x: floor_div_cw(spot.x), y: floor_div_cw(spot.z) }
}

/// A block lies inside the chunk `spot_to_chunk_pos` names: that chunk's first
/// column is at most the block's, and the next chunk's first column is past it.
pub proof fn law_chunk_contains_spot(v: int)
    ensures
        chunk_coord(v) * 15 <= v < chunk_coord(v) * 15 + 15,
{
    assert(chunk_coord(v) * 15 <= v < chunk_coord(v) * 15 + 15) by (nonlinear_arith);
}

/// Whether a block stops movement: anything but air, water (2) and tall grass
/// (23), and every block the collision map adds.
pub open spec fn blocks_movement(block: u32, in_collision_map: bool) -> bool {
    (block % 0x1_0000 != 2 && block % 0x1_0000 != 23 && block != 0) || in_collision_map
}

/// The collision test for the block value at a position, given whether the
/// collision map lists that position.
pub fn collision_predicate(block: u32, in_collision_map: bool) -> (b: bool)
    ensures
        b == blocks_movement(block, in_collision_map),
{
    let id = block & Blocks::block_id_bits();
    assert(id == block % 0x1_0000) by (bit_vector)
        requires
            id == block & 0xFFFFu32,
    ;
    let isntwater = id != 2;
    let isnttallgrass = id != 23;
    isntwater && isnttallgrass && block != 0 || in_collision_map
}

/// Which rebuild queue a chunk goes on: light rebuilds first, then rebuilds the
/// player caused, then background rebuilds.
#[derive(PartialEq, Eq, Structural, Clone, Copy, Debug)]
pub enum RebuildQueue {
    Light,
    User,
    Background,
}

/// The queue `queue_geoindex_rerender` puts a rebuild request on.
pub fn rebuild_queue(user_power: bool, light: bool) -> (q: RebuildQueue)
    ensures
        light ==> q == RebuildQueue::Light,
        !light && user_power ==> q == RebuildQueue::User,
        !light && !user_power ==> q == RebuildQueue::Background,
{
    if light {
        RebuildQueue::Light
    } else if user_power {
        RebuildQueue::User
    } else {
        RebuildQueue::Background
    }
}

/// Whether the mesher draws the face of block `block` that borders block
/// `neigh` (both ids). A see-through block shows a face to air and to
/// half-transparent neighbours, and water also to other clear blocks; a solid
/// block shows a face to air and to every see-through neighbour.
pub open spec fn face_shown(block: u32, neigh: u32) -> bool {
    if spec_is_transparent(block) || spec_is_semi_transparent(block) {
        neigh == 0 || spec_is_semi_transparent(neigh) || (block == 2 && neigh != 2 && spec_is_transparent(neigh))
    } else {
        neigh == 0 || spec_is_transparent(neigh) || spec_is_semi_transparent(neigh)
    }
}

/// Whether the face of `block` that touches `neigh` is drawn (see `face_shown`).
pub fn face_visible(block: u32, neigh: u32) -> (b: bool)
    ensures
        b == face_shown(block, neigh),
{
    if Blocks::is_transparent(block) || Blocks::is_semi_transparent(block) {
        let neigh_semi_trans = Blocks::is_semi_transparent(neigh);
        let water_bordering_transparent = block == 2 && neigh != 2 && Blocks::is_transparent(neigh);
        neigh == 0 || neigh_semi_trans || water_bordering_transparent
    } else {
        let neighbor_transparent = Blocks::is_transparent(neigh) || Blocks::is_semi_transparent(neigh);
        neigh == 0 || neighbor_transparent
    }
}

/// How much darker a corner gets for 0 to 3 blocks around it.
pub open spec fn amb_change(occluders: int) -> int {
    if occluders == 0 {
        0
    } else if occluders == 1 {
        3
    } else if occluders == 2 {
        6
    } else {
        10
    }
}

/// The brightness of a face corner: the face's base light, darkened by the
/// blocks around the corner and by 3 more when the column above is covered,
/// then kept between 0 and 15.
pub open spec fn corner_light(base: u8, occluders: int, covered: bool) -> int {
    let l = base - amb_change(occluders) - if covered { 3int } else { 0int };
    if l < 0 { 0 } else if l > 15 { 15 } else { l }
}

/// The brightness of a face corner (see `corner_light`).
pub fn vertex_light(base: u8, occluders: usize, covered: bool) -> (l: u8)
    requires
        occluders <= 3,
    ensures
        l == corner_light(base, occluders as int, covered),
        l <= 15,
{
    let amb: i32 = if occluders == 0 {
        0
    } else if occluders == 1 {
        3
    } else if occluders == 2 {
        6
    } else {
        10
    };
    let base_light: i32 = base as i32 - amb;
    let adjusted_light: i32 = if covered { base_light - 3 } else { base_light };
    if adjusted_light < 0 {
        0
    } else if adjusted_light > 15 {
        15
    } else {
        adjusted_light as u8
    }
}

#[verifier::external_type_specification]
#[verifier::external_body]
#[verifier::reject_recursive_types(K)]
#[verifier::reject_recursive_types(V)]
#[verifier::reject_recursive_types(S)]
pub struct ExDashMap<K, V, S>(dashmap::DashMap<K, V, S>);

/// A concurrent map from block position to block value.
pub type BlockMap = DashMap<(i32, i32, i32), u32>;

/// The map with no entries.
pub open spec fn no_blocks() -> Map<(i32, i32, i32), u32> {
    Map::empty()
}

/// The entries a block map holds: block position to block value.
pub uninterp spec fn block_map_contents(m: BlockMap) -> Map<(i32, i32, i32), u32>;

/// `DashMap::new`: a new map holds no entries.
#[verifier::external_body]
fn block_map_new() -> (m: BlockMap)
    ensures
        block_map_contents(m) == no_blocks(),
{
    DashMap::new()
}

/// `DashMap::insert`: afterwards the key maps to the value and every other
/// entry is as it was (dashmap's `_insert` inserts into the key's shard's map).
#[verifier::external_body]
fn block_map_insert(m: &mut BlockMap, key: (i32, i32, i32), value: u32)
    ensures
        block_map_contents(*final(m)) == block_map_contents(*old(m)).insert(key, value),
{
    m.insert(key, value);
}

/// `DashMap::get`, with the guard it hands out turned into the value: the value
/// the key maps to, or `None` when the map has no entry for it.
#[verifier::external_body]
fn block_map_get(m: &BlockMap, key: (i32, i32, i32)) -> (r: Option<u32>)
    ensures
        block_map_contents(*m).contains_key(key) ==> r == Some(block_map_contents(*m)[key]),
        !block_map_contents(*m).contains_key(key) ==> r is None,
{
    m.get(&key).map(|v| *v)
}

/// `DashMap::clear`: afterwards the map holds no entries.
#[verifier::external_body]
fn block_map_clear(m: &mut BlockMap)
    ensures
        block_map_contents(*final(m)) == no_blocks(),
{
    m.clear();
}

/// The blocks that differ from the generated terrain: those the player placed
/// or removed (`userdatamap`) and those world generation stamped in, such as
/// trees (`nonuserdatamap`). A block the player set wins over a stamped one.
pub struct WorldBlocks {
    pub userdatamap: BlockMap,
    pub nonuserdatamap: BlockMap,
}

/// The block value stored for a position, if any: the player's entry first,
/// then the stamped one. `None` means the generated terrain decides.
pub open spec fn stored_block(
    user: Map<(i32, i32, i32), u32>,
    nonuser: Map<(i32, i32, i32), u32>,
    k: (i32, i32, i32),
) -> Option<u32> {
    if user.contains_key(k) {
        Some(user[k])
    } else if nonuser.contains_key(k) {
        Some(nonuser[k])
    } else {
        None
    }
}

impl WorldBlocks {
    /// The player's entries, as a map.
    pub open spec fn user(&self) -> Map<(i32, i32, i32), u32> {
        block_map_contents(self.userdatamap)
    }

    /// The stamped entries, as a map.
    pub open spec fn nonuser(&self) -> Map<(i32, i32, i32), u32> {
        block_map_contents(self.nonuserdatamap)
    }

    /// No entries: every block is as generated.
    pub fn new() -> (w: WorldBlocks)
        ensures
            w.user() == no_blocks(),
            w.nonuser() == no_blocks(),
    {
        WorldBlocks { userdatamap: block_map_new(), nonuserdatamap: block_map_new() }
    }

    /// Records a block: in the player's map when the player set it, otherwise in
    /// the map of stamped blocks.
    pub fn set_block_no_sound(&mut self, spot: IVec3, block: u32, user_power: bool)
        ensures
            user_power ==> final(self).user() == old(self).user().insert(spot.key(), block)
                && final(self).nonuser() == old(self).nonuser(),
            !user_power ==> final(self).nonuser() == old(self).nonuser().insert(spot.key(), block)
                && final(self).user() == old(self).user(),
    {
        if user_power {
            block_map_insert(&mut self.userdatamap, (spot.x, spot.y, spot.z), block);
        } else {
            block_map_insert(&mut self.nonuserdatamap, (spot.x, spot.y, spot.z), block);
        }
    }

    /// The stored block at a position (see `stored_block`); the caller falls back
    /// to the generated terrain when this is `None`.
    pub fn stored_blockat(&self, spot: IVec3) -> (b: Option<u32>)
        ensures
            b == stored_block(self.user(), self.nonuser(), spot.key()),
    {
        let k = (spot.x, spot.y, spot.z);
        match block_map_get(&self.userdatamap, k) {
            Some(id) => Some(id),
            None => block_map_get(&self.nonuserdatamap, k),
        }
    }

    /// Forgets every stored block (the start of loading a world).
    pub fn clear(&mut self)
        ensures
            final(self).user() == no_blocks(),
            final(self).nonuser() == no_blocks(),
    {
        block_map_clear(&mut self.userdatamap);
        block_map_clear(&mut self.nonuserdatamap);
    }
}

/// Reading a block back after setting it: a block the player set is what the
/// position then holds; a stamped block is what it holds unless the player set
/// that position before; every other position holds what it held.
pub proof fn law_set_then_read(
    user: Map<(i32, i32, i32), u32>,
    nonuser: Map<(i32, i32, i32), u32>,
    spot: (i32, i32, i32),
    block: u32,
    other: (i32, i32, i32),
)
    requires
        other != spot,
    ensures
        stored_block(user.insert(spot, block), nonuser, spot) == Some(block),
        stored_block(user, nonuser.insert(spot, block), spot) == (if user.contains_key(spot) {
            Some(user[spot])
        } else {
            Some(block)
        }),
        stored_block(user.insert(spot, block), nonuser, other) == stored_block(user, nonuser, other),
        stored_block(user, nonuser.insert(spot, block), other) == stored_block(user, nonuser, other),
{
}

/// The chunks whose meshes show a changed block: with `neighbors`, the chunks of
/// the six blocks that share a face with it (each once), otherwise the block's
/// own chunk.
pub open spec fn rerender_chunk_set(spot: IVec3, neighbors: bool) -> Set<(int, int)> {
    if neighbors {
        Set::new(
            |c: (int, int)|
                exists|d: int|
                    0 <= d < 6 && c == (
                        chunk_coord(spot.x + face_offset(d).0),
                        chunk_coord(spot.z + face_offset(d).2),
                    ),
        )
    } else {
        set![(chunk_coord(spot.x as int), chunk_coord(spot.z as int))]
    }
}

/// The offset of the block across face `d` of a block, faces in the order of `CubeSide`.
pub open spec fn face_offset(d: int) -> (int, int, int) {
    if d == 0 {
        (-1, 0, 0)
    } else if d == 1 {
        (1, 0, 0)
    } else if d == 2 {
        (0, -1, 0)
    } else if d == 3 {
        (0, 1, 0)
    } else if d == 4 {
        (0, 0, 1)
    } else {
        (0, 0, -1)
    }
}

/// The chunk of a position, as a pair of integers.
pub open spec fn chunk_pair(c: IVec2) -> (int, int) {
    (c.x as int, c.y as int)
}

/// What setting a block asks of the renderer: whether light must be redone
/// (the new or the old block is a light), whether the lights whose rays cross
/// the block's neighbours must be redone (an opaque block was placed without
/// either being a light, and not by the automata), and which chunks to rebuild.
pub struct RerenderPlan {
    pub light: bool,
    pub check_light_intercepts: bool,
    pub chunks: Vec<IVec2>,
}

/// Whether a coordinate can move one block either way within `i32`.
pub open spec fn inner_coord(v: i32) -> bool {
    i32::MIN < v < i32::MAX
}

/// Adds a chunk to the list unless it is already there.
pub(crate) fn push_unique(v: &mut Vec<IVec2>, c: IVec2)
    ensures
        final(v)@.map_values(|e: IVec2| chunk_pair(e)).to_set() == old(v)@.map_values(|e: IVec2| chunk_pair(e)).to_set().insert(chunk_pair(c)),
        old(v)@.map_values(|e: IVec2| chunk_pair(e)).no_duplicates() ==> final(v)@.map_values(|e: IVec2| chunk_pair(e)).no_duplicates(),
{
    let ghost before = v@.map_values(|e: IVec2| chunk_pair(e));
    let mut i: usize = 0;
    while i < v.len()
        invariant
            0 <= i <= v@.len(),
            v@.map_values(|e: IVec2| chunk_pair(e)) == before,
            forall|j: int| 0 <= j < i ==> chunk_pair(#[trigger] v@[j]) != chunk_pair(c),
        decreases v@.len() - i,
    {
        if v[i].x == c.x && v[i].y == c.y {
            proof {
                assert(before[i as int] == chunk_pair(c));
                assert(before.to_set().insert(chunk_pair(c)) =~= before.to_set());
            }
            return;
        }
        i = i + 1;
    }
    v.push(c);
    proof {
        let after = v@.map_values(|e: IVec2| chunk_pair(e));
        assert(after =~= before.push(chunk_pair(c)));
        assert(!before.contains(chunk_pair(c))) by {
            if before.contains(chunk_pair(c)) {
                let j = choose|j: int| 0 <= j < before.len() && before[j] == chunk_pair(c);
                assert(chunk_pair(v@[j]) == chunk_pair(c));
            }
        }
        broadcast use vstd::seq_lib::group_seq_properties;
        assert(after.to_set() =~= before.to_set().insert(chunk_pair(c)));
    }
}

/// The rendering work a block change causes (see `RerenderPlan`), for a block
/// going from `existing` to `block` at `spot`.
pub fn rerender_plan(spot: IVec3, existing: u32, block: u32, neighbors: bool, automata: bool) -> (p: RerenderPlan)
    requires
        inner_coord(spot.x),
        inner_coord(spot.y),
        inner_coord(spot.z),
    ensures
        p.light == (crate::blockinfo::spec_is_light(block) || crate::blockinfo::spec_is_light(existing)),
        p.check_light_intercepts == (!p.light && !automata && !spec_is_transparent(block % 0x1_0000)),
        p.chunks@.map_values(|e: IVec2| chunk_pair(e)).to_set() == rerender_chunk_set(spot, neighbors),
        p.chunks@.map_values(|e: IVec2| chunk_pair(e)).no_duplicates(),
{
    let light = Blocks::is_light(block) || Blocks::is_light(existing);
    let id = block & Blocks::block_id_bits();
    assert(id == block % 0x1_0000) by (bit_vector)
        requires
            id == block & 0xFFFFu32,
    ;
    let check = !light && !automata && !Blocks::is_transparent(id);
    let mut chunks: Vec<IVec2> = Vec::new();
    if neighbors {
        let offs: [(i32, i32, i32); 6] = [(-1, 0, 0), (1, 0, 0), (0, -1, 0), (0, 1, 0), (0, 0, 1), (0, 0, -1)];
        let mut d: usize = 0;
        while d < 6
            invariant
                0 <= d <= 6,
                inner_coord(spot.x),
                inner_coord(spot.y),
                inner_coord(spot.z),
                forall|e: int| 0 <= e < 6 ==> (offs@[e].0 as int, offs@[e].1 as int, offs@[e].2 as int) == #[trigger] face_offset(e),
                chunks@.map_values(|e: IVec2| chunk_pair(e)).no_duplicates(),
                chunks@.map_values(|e: IVec2| chunk_pair(e)).to_set() == Set::new(
                    |c: (int, int)|
                        exists|e: int|
                            0 <= e < d && c == (
                                chunk_coord(spot.x + face_offset(e).0),
                                chunk_coord(spot.z + face_offset(e).2),
                            ),
                ),
            decreases 6 - d,
        {
            let o = offs[d];
            proof {
                assert((o.0 as int, o.1 as int, o.2 as int) == face_offset(d as int));
            }
            let here = IVec3 { x: spot.x + o.0, y: spot.y + o.1, z: spot.z + o.2 };
            let c = spot_to_chunk_pos(&here);
            let ghost before = chunks@.map_values(|e: IVec2| chunk_pair(e)).to_set();
            push_unique(&mut chunks, c);
            proof {
                let after = chunks@.map_values(|e: IVec2| chunk_pair(e)).to_set();
                let want = Set::new(
                    |cc: (int, int)|
                        exists|e: int|
                            0 <= e < d + 1 && cc == (
                                chunk_coord(spot.x + face_offset(e).0),
                                chunk_coord(spot.z + face_offset(e).2),
                            ),
                );
                assert forall|cc: (int, int)| after.contains(cc) implies #[trigger] want.contains(cc) by {
                    if cc != chunk_pair(c) {
                        assert(before.contains(cc));
                    } else {
                        assert(cc == (chunk_coord(spot.x + face_offset(d as int).0), chunk_coord(spot.z + face_offset(d as int).2)));
                    }
                }
                assert forall|cc: (int, int)| want.contains(cc) implies #[trigger] after.contains(cc) by {
                    let e = choose|e: int|
                        0 <= e < d + 1 && cc == (
                            chunk_coord(spot.x + face_offset(e).0),
                            chunk_coord(spot.z + face_offset(e).2),
                        );
                    if e < d {
                        assert(before.contains(cc));
                    }
                }
                assert(after =~= want);
            }
            d = d + 1;
        }
        proof {
            assert(chunks@.map_values(|e: IVec2| chunk_pair(e)).to_set() =~= rerender_chunk_set(spot, neighbors));
        }
    } else {
        let c = spot_to_chunk_pos(&spot);
        chunks.push(c);
        proof {
            let m = chunks@.map_values(|e: IVec2| chunk_pair(e));
            assert(m =~= seq![chunk_pair(c)]);
            broadcast use vstd::seq_lib::group_seq_properties;
            assert(m.to_set() =~= set![chunk_pair(c)]) by {
                assert(m.to_set().contains(chunk_pair(c))) by { assert(m[0] == chunk_pair(c)); }
            }
        }
    }
    RerenderPlan { light, check_light_intercepts: check, chunks }
}

} // verus!
