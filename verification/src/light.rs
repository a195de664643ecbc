use vstd::prelude::*;

use crate::blockinfo::{Blocks, spec_is_semi_transparent, spec_is_transparent};
use crate::chunk::{LightColor, channel_of, chunk_coord, chunk_pair, face_offset, push_unique, spot_to_chunk_pos};
use crate::vec::{IVec2, IVec3};

verus! {

/// How many cells light travels from its source along one axis at most: a
/// source shines at most 15 per channel and loses 2 per step.
pub const LIGHT_REACH: i32 = 7;

/// The number of cells in the cube of offsets from -7 to 7 on each axis.
pub const LIGHT_CELLS: usize = 3375;

/// The cell of the source itself, offset (0, 0, 0).
pub const SOURCE_CELL: usize = 1687;

/// Whether an offset from the source lies in the cube light can reach.
pub open spec fn in_reach(x: int, y: int, z: int) -> bool {
    -7 <= x <= 7 && -7 <= y <= 7 && -7 <= z <= 7
}

/// The cell of an offset: x-major, then y, then z.
pub open spec fn cell_index(x: int, y: int, z: int) -> int {
    (x + 7) * 225 + (y + 7) * 15 + (z + 7)
}

/// The number of steps from the source to an offset, moving one axis at a time.
pub open spec fn steps_from_source(x: int, y: int, z: int) -> int {
    (if x < 0 { -x } else { x }) + (if y < 0 { -y } else { y }) + (if z < 0 { -z } else { z })
}

/// A channel of `v` after `m` steps of losing 2, never below zero.
pub open spec fn decayed(v: int, m: int) -> int {
    if v - 2 * m > 0 { v - 2 * m } else { 0 }
}

/// Whether every channel of `c` is at most the source's after `m` steps.
pub open spec fn within_decay(c: LightColor, source: LightColor, m: int) -> bool {
    &&& c.x <= decayed(source.x as int, m)
    &&& c.y <= decayed(source.y as int, m)
    &&& c.z <= decayed(source.z as int, m)
}

/// A light one step further on: each channel 2 less, never below zero.
pub open spec fn dimmed(c: LightColor) -> LightColor {
    LightColor {
        x: if c.x > 2 { (c.x - 2) as u16 } else { 0 },
        y: if c.y > 2 { (c.y - 2) as u16 } else { 0 },
        z: if c.z > 2 { (c.z - 2) as u16 } else { 0 },
    }
}

/// Whether a light is strong enough to spread: some channel above 1.
pub open spec fn bright(c: LightColor) -> bool {
    c.x > 1 || c.y > 1 || c.z > 1
}

/// Whether `a` is at least `b` in every channel.
pub open spec fn covers(a: LightColor, b: LightColor) -> bool {
    a.x >= b.x && a.y >= b.y && a.z >= b.z
}

/// The channelwise maximum of two lights.
pub open spec fn brighter_of(a: LightColor, b: LightColor) -> LightColor {
    LightColor {
        x: if a.x < b.x { b.x } else { a.x },
        y: if a.y < b.y { b.y } else { a.y },
        z: if a.z < b.z { b.z } else { a.z },
    }
}

/// Whether light goes on through a block value: air, clear and half-clear blocks.
pub open spec fn light_passes(b: u32) -> bool {
    let id = (b % 0x1_0000) as u32;
    id == 0 || spec_is_transparent(id) || spec_is_semi_transparent(id)
}

/// Whether light spreads on from an offset: the block there lets it through, or
/// it is the source.
pub open spec fn spreads(blocks: Seq<u32>, x: int, y: int, z: int) -> bool {
    light_passes(blocks[cell_index(x, y, z)]) || (x == 0 && y == 0 && z == 0)
}

/// The offset one step across face `d` (faces in the order of `CubeSide`).
pub open spec fn neighbor(x: int, y: int, z: int, d: int) -> (int, int, int) {
    (x + face_offset(d).0, y + face_offset(d).1, z + face_offset(d).2)
}

/// The face opposite face `d`.
pub open spec fn opposite(d: int) -> int {
    if d % 2 == 0 { d + 1 } else { d - 1 }
}

/// The ray a field holds at an offset.
pub open spec fn ray_at(rays: Seq<Option<LightColor>>, x: int, y: int, z: int) -> Option<LightColor> {
    rays[cell_index(x, y, z)]
}

/// The light one source casts: for each cell of the cube around it, the ray
/// that reached it, if any, and the faces across which it spread on.
pub struct OriginLight {
    pub rays: Vec<Option<LightColor>>,
    pub dirs: Vec<[bool; 6]>,
}

/// The weight of a light for the termination argument.
pub open spec fn weight(c: LightColor) -> nat {
    (c.x + c.y + c.z) as nat
}

/// Seven to the power `n`.
pub open spec fn pow7(n: nat) -> nat
    decreases n,
{
    if n == 0 { 1 } else { 7 * pow7((n - 1) as nat) }
}

/// The work left on a stack of pending cells: each entry counts seven to the
/// power of its weight, which outweighs the six dimmer entries it can add.
pub open spec fn stack_load(s: Seq<(LightColor, i32, i32, i32)>) -> nat
    decreases s.len(),
{
    if s.len() == 0 { 0 } else { stack_load(s.drop_last()) + pow7(weight(s.last().0)) }
}

proof fn lemma_pow7_mono(a: nat, b: nat)
    requires
        a <= b,
    ensures
        pow7(a) <= pow7(b),
    decreases b,
{
    if a < b {
        lemma_pow7_mono(a, (b - 1) as nat);
    }
}

proof fn lemma_pow7_pos(a: nat)
    ensures
        pow7(a) >= 1,
    decreases a,
{
    if a > 0 {
        lemma_pow7_pos((a - 1) as nat);
    }
}

/// A bright light within the decay bound at an offset spreads only to offsets
/// inside the cube, and its dimmed light is within the bound there.
proof fn lemma_step_decay(x: int, y: int, z: int, d: int, v: LightColor, source: LightColor)
    requires
        in_reach(x, y, z),
        within_decay(v, source, steps_from_source(x, y, z)),
        bright(v),
        source.x <= 15,
        source.y <= 15,
        source.z <= 15,
        0 <= d < 6,
    ensures
        in_reach(neighbor(x, y, z, d).0, neighbor(x, y, z, d).1, neighbor(x, y, z, d).2),
        within_decay(
            dimmed(v),
            source,
            steps_from_source(neighbor(x, y, z, d).0, neighbor(x, y, z, d).1, neighbor(x, y, z, d).2),
        ),
        steps_from_source(x, y, z) <= 6,
{
}

proof fn lemma_stack_load_push(s: Seq<(LightColor, i32, i32, i32)>, e: (LightColor, i32, i32, i32))
    ensures
        stack_load(s.push(e)) == stack_load(s) + pow7(weight(e.0)),
{
    assert(s.push(e).drop_last() =~= s);
}

proof fn lemma_cell_index(x: int, y: int, z: int, a: int, b: int, c: int)
    requires
        in_reach(x, y, z),
        in_reach(a, b, c),
    ensures
        0 <= cell_index(x, y, z) < 3375,
        cell_index(x, y, z) == cell_index(a, b, c) ==> x == a && y == b && z == c,
{
}

/// The cell of an offset, as an index.
fn cell_of(x: i32, y: i32, z: i32) -> (i: usize)
    requires
        in_reach(x as int, y as int, z as int),
    ensures
        i == cell_index(x as int, y as int, z as int),
        i < 3375,
{
    proof {
        lemma_cell_index(x as int, y as int, z as int, x as int, y as int, z as int);
    }
    ((x + 7) * 225 + (y + 7) * 15 + (z + 7)) as usize
}

/// Whether light goes on through a block value (see `light_passes`).
pub fn passes_light(b: u32) -> (r: bool)
    ensures
        r == light_passes(b),
{
    let id = b & Blocks::block_id_bits();
    assert(id == b % 0x1_0000) by (bit_vector)
        requires
            id == b & 0xFFFFu32,
    ;
    id == 0 || Blocks::is_transparent(id) || Blocks::is_semi_transparent(id)
}

fn dim(c: LightColor) -> (r: LightColor)
    ensures
        r == dimmed(c),
{
    LightColor {
        x: if c.x > 2 { c.x - 2 } else { 0 },
        y: if c.y > 2 { c.y - 2 } else { 0 },
        z: if c.z > 2 { c.z - 2 } else { 0 },
    }
}

/// Whether an entry of the stack of pending cells lies at an offset.
pub open spec fn entry_at(e: (LightColor, i32, i32, i32), x: int, y: int, z: int) -> bool {
    e.1 == x && e.2 == y && e.3 == z
}

/// Whether some entry of the stack lies at an offset.
pub open spec fn pending(s: Seq<(LightColor, i32, i32, i32)>, x: int, y: int, z: int) -> bool {
    exists|k: int| 0 <= k < s.len() && #[trigger] entry_at(s[k], x, y, z)
}

/// The state of a propagation that the loop keeps: shapes, where entries lie,
/// how bright they and the rays are, and what the source cell holds.
#[verifier::opaque]
pub open spec fn propagation_ok(
    rays: Seq<Option<LightColor>>,
    dirs: Seq<[bool; 6]>,
    visited: Seq<bool>,
    stack: Seq<(LightColor, i32, i32, i32)>,
    source: LightColor,
) -> bool {
    &&& rays.len() == 3375
    &&& dirs.len() == 3375
    &&& visited.len() == 3375
    &&& forall|k: int|
        0 <= k < stack.len() ==> {
            let e = #[trigger] stack[k];
            &&& in_reach(e.1 as int, e.2 as int, e.3 as int)
            &&& within_decay(e.0, source, steps_from_source(e.1 as int, e.2 as int, e.3 as int))
        }
    &&& forall|x: int, y: int, z: int|
        in_reach(x, y, z) ==> match #[trigger] ray_at(rays, x, y, z) {
            Some(r) => within_decay(r, source, steps_from_source(x, y, z)),
            None => true,
        }
    &&& visited[1687]
    &&& rays[1687] is None ==> stack == seq![(source, 0i32, 0i32, 0i32)]
    &&& rays[1687] is Some ==> rays[1687] == Some(source)
}

/// Whether channel `ch` at offset `p` is at least `need`: by the ray there, or
/// by an entry still waiting there.
pub open spec fn reaches(
    rays: Seq<Option<LightColor>>,
    stack: Seq<(LightColor, i32, i32, i32)>,
    p: (int, int, int),
    ch: int,
    need: int,
) -> bool {
    &&& in_reach(p.0, p.1, p.2)
    &&& {
        ||| match ray_at(rays, p.0, p.1, p.2) {
            Some(q) => channel_of(q, ch) >= need,
            None => false,
        }
        ||| exists|k: int|
            0 <= k < stack.len() && #[trigger] entry_at(stack[k], p.0, p.1, p.2) && channel_of(stack[k].0, ch)
                >= need
    }
}

/// Whether the light `c` at an offset has been passed on across the first
/// `upto` faces: each neighbour holds, or waits for, every channel above 1,
/// less 2.
pub open spec fn spread_from(
    rays: Seq<Option<LightColor>>,
    stack: Seq<(LightColor, i32, i32, i32)>,
    x: int,
    y: int,
    z: int,
    c: LightColor,
    upto: int,
) -> bool {
    forall|d: int, ch: int|
        0 <= d < upto && 0 <= ch < 3 && channel_of(c, ch) > 1 ==> #[trigger] reaches(
            rays,
            stack,
            neighbor(x, y, z, d),
            ch,
            channel_of(c, ch) - 2,
        )
}

/// Whether the ray at an offset, where light spreads from there, has been
/// passed on across all six faces.
pub open spec fn spread_done(
    rays: Seq<Option<LightColor>>,
    stack: Seq<(LightColor, i32, i32, i32)>,
    blocks: Seq<u32>,
    x: int,
    y: int,
    z: int,
) -> bool {
    match ray_at(rays, x, y, z) {
        Some(r) => spreads(blocks, x, y, z) ==> spread_from(rays, stack, x, y, z, r, 6),
        None => true,
    }
}

/// A later state keeps what an earlier one had: every ray is still there and
/// at least as bright, and every entry is still waiting at its place or has
/// been taken into a ray at least as bright.
pub open spec fn keeps(
    rays1: Seq<Option<LightColor>>,
    s1: Seq<(LightColor, i32, i32, i32)>,
    rays2: Seq<Option<LightColor>>,
    s2: Seq<(LightColor, i32, i32, i32)>,
) -> bool {
    &&& rays1.len() == 3375
    &&& rays2.len() == 3375
    &&& forall|i: int|
        0 <= i < 3375 ==> match #[trigger] rays1[i] {
            Some(a) => match rays2[i] {
                Some(b) => covers(b, a),
                None => false,
            },
            None => true,
        }
    &&& forall|k: int|
        0 <= k < s1.len() ==> (k < s2.len() && s2[k] == s1[k]) || match ray_at(
            rays2,
            (#[trigger] s1[k]).1 as int,
            s1[k].2 as int,
            s1[k].3 as int,
        ) {
            Some(b) => covers(b, s1[k].0),
            None => false,
        }
}

proof fn lemma_reaches_keep(
    rays1: Seq<Option<LightColor>>,
    s1: Seq<(LightColor, i32, i32, i32)>,
    rays2: Seq<Option<LightColor>>,
    s2: Seq<(LightColor, i32, i32, i32)>,
    p: (int, int, int),
    ch: int,
    need: int,
)
    requires
        keeps(rays1, s1, rays2, s2),
        reaches(rays1, s1, p, ch, need),
        0 <= ch < 3,
    ensures
        reaches(rays2, s2, p, ch, need),
{
    lemma_cell_index(p.0, p.1, p.2, p.0, p.1, p.2);
    let idx = cell_index(p.0, p.1, p.2);
    let via_ray = match ray_at(rays1, p.0, p.1, p.2) {
        Some(q) => channel_of(q, ch) >= need,
        None => false,
    };
    if via_ray {
        assert(rays1[idx] is Some);
    } else {
        let k = choose|k: int|
            0 <= k < s1.len() && #[trigger] entry_at(s1[k], p.0, p.1, p.2) && channel_of(s1[k].0, ch) >= need;
        let e = s1[k];
        if k < s2.len() && s2[k] == s1[k] {
            assert(entry_at(s2[k], p.0, p.1, p.2));
        } else {
            assert(e.1 as int == p.0 && e.2 as int == p.1 && e.3 as int == p.2);
        }
    }
}

proof fn lemma_spread_from_keep(
    rays1: Seq<Option<LightColor>>,
    s1: Seq<(LightColor, i32, i32, i32)>,
    rays2: Seq<Option<LightColor>>,
    s2: Seq<(LightColor, i32, i32, i32)>,
    x: int,
    y: int,
    z: int,
    c: LightColor,
    upto: int,
)
    requires
        keeps(rays1, s1, rays2, s2),
        spread_from(rays1, s1, x, y, z, c, upto),
    ensures
        spread_from(rays2, s2, x, y, z, c, upto),
{
    assert forall|d: int, ch: int| 0 <= d < upto && 0 <= ch < 3 && channel_of(c, ch) > 1 implies #[trigger] reaches(
        rays2,
        s2,
        neighbor(x, y, z, d),
        ch,
        channel_of(c, ch) - 2,
    ) by {
        lemma_reaches_keep(rays1, s1, rays2, s2, neighbor(x, y, z, d), ch, channel_of(c, ch) - 2);
    }
}

/// The invariant of spreading: every ray where light spreads has been passed
/// on, every cell marked as reached holds a ray or waits for one, every ray
/// and every waiting entry lies at a marked cell.
pub open spec fn spread_ok(
    rays: Seq<Option<LightColor>>,
    visited: Seq<bool>,
    stack: Seq<(LightColor, i32, i32, i32)>,
    blocks: Seq<u32>,
) -> bool {
    &&& forall|a: int, b: int, c: int| in_reach(a, b, c) ==> #[trigger] spread_done(rays, stack, blocks, a, b, c)
    &&& forall|a: int, b: int, c: int|
        in_reach(a, b, c) && #[trigger] visited[cell_index(a, b, c)] ==> ray_at(rays, a, b, c) is Some || pending(
            stack,
            a,
            b,
            c,
        )
    &&& forall|a: int, b: int, c: int|
        in_reach(a, b, c) && (#[trigger] ray_at(rays, a, b, c)) is Some ==> visited[cell_index(a, b, c)]
    &&& forall|k: int|
        0 <= k < stack.len() ==> visited[cell_index(
            (#[trigger] stack[k]).1 as int,
            stack[k].2 as int,
            stack[k].3 as int,
        )]
}

/// Taking the last entry off the stack into the ray at its cell keeps what the
/// state had, keeps every other cell's light passed on and the old light of
/// this cell passed on, and keeps the marks.
proof fn lemma_pop_merge(
    rays1: Seq<Option<LightColor>>,
    visited: Seq<bool>,
    before: Seq<(LightColor, i32, i32, i32)>,
    blocks: Seq<u32>,
    rays2: Seq<Option<LightColor>>,
    s2: Seq<(LightColor, i32, i32, i32)>,
    v: LightColor,
    x: i32,
    y: i32,
    z: i32,
    merged: LightColor,
)
    requires
        spread_ok(rays1, visited, before, blocks),
        rays1.len() == 3375,
        visited.len() == 3375,
        before.len() > 0,
        before.last() == (v, x, y, z),
        in_reach(x as int, y as int, z as int),
        s2 == before.drop_last(),
        merged == match rays1[cell_index(x as int, y as int, z as int)] {
            Some(o) => brighter_of(o, v),
            None => v,
        },
        rays2 == rays1.update(cell_index(x as int, y as int, z as int), Some(merged)),
    ensures
        keeps(rays1, before, rays2, s2),
        forall|a: int, b: int, c: int|
            in_reach(a, b, c) && !(a == x && b == y && c == z) ==> #[trigger] spread_done(rays2, s2, blocks, a, b, c),
        match rays1[cell_index(x as int, y as int, z as int)] {
            Some(o) => spreads(blocks, x as int, y as int, z as int) ==> spread_from(
                rays2,
                s2,
                x as int,
                y as int,
                z as int,
                o,
                6,
            ),
            None => true,
        },
        forall|a: int, b: int, c: int|
            in_reach(a, b, c) && #[trigger] visited[cell_index(a, b, c)] ==> ray_at(rays2, a, b, c) is Some
                || pending(s2, a, b, c),
        forall|a: int, b: int, c: int|
            in_reach(a, b, c) && (#[trigger] ray_at(rays2, a, b, c)) is Some ==> visited[cell_index(a, b, c)],
        forall|k: int|
            0 <= k < s2.len() ==> visited[cell_index(
                (#[trigger] s2[k]).1 as int,
                s2[k].2 as int,
                s2[k].3 as int,
            )],
{
    let ci = cell_index(x as int, y as int, z as int);
    lemma_cell_index(x as int, y as int, z as int, x as int, y as int, z as int);
    let last = before.len() - 1;
    assert(before[last] == (v, x, y, z));
    assert forall|k: int| 0 <= k < s2.len() implies s2[k] == before[k] by {}
    assert forall|i: int| 0 <= i < 3375 implies match #[trigger] rays1[i] {
        Some(a) => match rays2[i] {
            Some(b) => covers(b, a),
            None => false,
        },
        None => true,
    } by {
        if i != ci {
            assert(rays2[i] == rays1[i]);
        }
    }
    assert forall|k: int| 0 <= k < before.len() implies (k < s2.len() && s2[k] == before[k]) || match ray_at(
        rays2,
        (#[trigger] before[k]).1 as int,
        before[k].2 as int,
        before[k].3 as int,
    ) {
        Some(b) => covers(b, before[k].0),
        None => false,
    } by {
        if k == last {
            assert(ray_at(rays2, x as int, y as int, z as int) == Some(merged));
        }
    }
    assert(keeps(rays1, before, rays2, s2));
    assert forall|a: int, b: int, c: int| in_reach(a, b, c) && !(a == x && b == y && c == z) implies #[trigger] spread_done(
        rays2,
        s2,
        blocks,
        a,
        b,
        c,
    ) by {
        lemma_cell_index(a, b, c, x as int, y as int, z as int);
        assert(ray_at(rays2, a, b, c) == ray_at(rays1, a, b, c));
        assert(spread_done(rays1, before, blocks, a, b, c));
        if let Some(r) = ray_at(rays1, a, b, c) {
            if spreads(blocks, a, b, c) {
                lemma_spread_from_keep(rays1, before, rays2, s2, a, b, c, r, 6);
            }
        }
    }
    assert(spread_done(rays1, before, blocks, x as int, y as int, z as int));
    if let Some(o) = rays1[ci] {
        if spreads(blocks, x as int, y as int, z as int) {
            lemma_spread_from_keep(rays1, before, rays2, s2, x as int, y as int, z as int, o, 6);
        }
    }
    assert forall|a: int, b: int, c: int| in_reach(a, b, c) && #[trigger] visited[cell_index(a, b, c)] implies ray_at(
        rays2,
        a,
        b,
        c,
    ) is Some || pending(s2, a, b, c) by {
        lemma_cell_index(a, b, c, x as int, y as int, z as int);
        if !(a == x && b == y && c == z) {
            assert(ray_at(rays2, a, b, c) == ray_at(rays1, a, b, c));
            if ray_at(rays1, a, b, c) is None {
                assert(pending(before, a, b, c));
                let k = choose|k: int| 0 <= k < before.len() && #[trigger] entry_at(before[k], a, b, c);
                assert(k != last);
                assert(entry_at(s2[k], a, b, c));
            }
        }
    }
    assert forall|a: int, b: int, c: int| in_reach(a, b, c) && (#[trigger] ray_at(rays2, a, b, c)) is Some implies visited[cell_index(
        a,
        b,
        c,
    )] by {
        lemma_cell_index(a, b, c, x as int, y as int, z as int);
        if !(a == x && b == y && c == z) {
            assert(ray_at(rays2, a, b, c) == ray_at(rays1, a, b, c));
        } else {
            assert(visited[cell_index((before[last]).1 as int, before[last].2 as int, before[last].3 as int)]);
        }
    }
    assert forall|k: int| 0 <= k < s2.len() implies visited[cell_index(
        (#[trigger] s2[k]).1 as int,
        s2[k].2 as int,
        s2[k].3 as int,
    )] by {
        assert(s2[k] == before[k]);
    }
}

/// Every cell but the one at `(x, y, z)` has passed its light on.
#[verifier::opaque]
pub open spec fn others_done(
    rays: Seq<Option<LightColor>>,
    stack: Seq<(LightColor, i32, i32, i32)>,
    blocks: Seq<u32>,
    x: int,
    y: int,
    z: int,
) -> bool {
    forall|a: int, b: int, c: int|
        in_reach(a, b, c) && !(a == x && b == y && c == z) ==> #[trigger] spread_done(rays, stack, blocks, a, b, c)
}

proof fn lemma_others_keep(
    rays: Seq<Option<LightColor>>,
    s1: Seq<(LightColor, i32, i32, i32)>,
    s2: Seq<(LightColor, i32, i32, i32)>,
    blocks: Seq<u32>,
    x: int,
    y: int,
    z: int,
)
    requires
        keeps(rays, s1, rays, s2),
        others_done(rays, s1, blocks, x, y, z),
    ensures
        others_done(rays, s2, blocks, x, y, z),
{
    reveal(others_done);
    assert forall|a: int, b: int, c: int| in_reach(a, b, c) && !(a == x && b == y && c == z) implies #[trigger] spread_done(
        rays,
        s2,
        blocks,
        a,
        b,
        c,
    ) by {
        assert(spread_done(rays, s1, blocks, a, b, c));
        if let Some(r) = ray_at(rays, a, b, c) {
            if spreads(blocks, a, b, c) {
                lemma_spread_from_keep(rays, s1, rays, s2, a, b, c, r, 6);
            }
        }
    }
}

proof fn lemma_keeps_push(
    rays: Seq<Option<LightColor>>,
    s: Seq<(LightColor, i32, i32, i32)>,
    e: (LightColor, i32, i32, i32),
)
    requires
        rays.len() == 3375,
    ensures
        keeps(rays, s, rays, s.push(e)),
        keeps(rays, s, rays, s),
{
    assert forall|i: int| 0 <= i < 3375 implies match #[trigger] rays[i] {
        Some(a) => match rays[i] {
            Some(b) => covers(b, a),
            None => false,
        },
        None => true,
    } by {}
    assert forall|k: int| 0 <= k < s.len() implies (k < s.push(e).len() && s.push(e)[k] == s[k]) by {}
}

/// The marks of reached cells: a marked cell holds a ray or waits for one,
/// and every ray and every waiting entry lies at a marked cell.
#[verifier::opaque]
pub open spec fn marks_ok(
    rays: Seq<Option<LightColor>>,
    visited: Seq<bool>,
    stack: Seq<(LightColor, i32, i32, i32)>,
) -> bool {
    &&& forall|a: int, b: int, c: int|
        in_reach(a, b, c) && #[trigger] visited[cell_index(a, b, c)] ==> ray_at(rays, a, b, c) is Some || pending(
            stack,
            a,
            b,
            c,
        )
    &&& forall|a: int, b: int, c: int|
        in_reach(a, b, c) && (#[trigger] ray_at(rays, a, b, c)) is Some ==> visited[cell_index(a, b, c)]
    &&& forall|k: int|
        0 <= k < stack.len() ==> visited[cell_index(
            (#[trigger] stack[k]).1 as int,
            stack[k].2 as int,
            stack[k].3 as int,
        )]
}

/// Whether the neighbour across face `d` of an offset lets light on, holds a
/// bright ray, and that ray one step dimmer is at least `amount` in channel `ch`.
pub open spec fn feeds_channel(
    rays: Seq<Option<LightColor>>,
    blocks: Seq<u32>,
    x: int,
    y: int,
    z: int,
    d: int,
    ch: int,
    amount: int,
) -> bool {
    let p = neighbor(x, y, z, d);
    &&& in_reach(p.0, p.1, p.2)
    &&& spreads(blocks, p.0, p.1, p.2)
    &&& match ray_at(rays, p.0, p.1, p.2) {
        Some(rp) => bright(rp) && channel_of(dimmed(rp), ch) >= amount,
        None => false,
    }
}

/// Whether the neighbour across face `d` of an offset lets light on, holds a
/// bright ray, and that ray one step dimmer covers `c` in every channel.
pub open spec fn feeds(
    rays: Seq<Option<LightColor>>,
    blocks: Seq<u32>,
    x: int,
    y: int,
    z: int,
    d: int,
    c: LightColor,
) -> bool {
    let p = neighbor(x, y, z, d);
    &&& in_reach(p.0, p.1, p.2)
    &&& spreads(blocks, p.0, p.1, p.2)
    &&& match ray_at(rays, p.0, p.1, p.2) {
        Some(rp) => bright(rp) && covers(dimmed(rp), c),
        None => false,
    }
}

/// Whether each channel of the light `r` at an offset came from some neighbour
/// (channels may come from different neighbours).
pub open spec fn sourced(rays: Seq<Option<LightColor>>, blocks: Seq<u32>, x: int, y: int, z: int, r: LightColor) -> bool {
    &&& exists|d: int| 0 <= d < 6 && #[trigger] feeds_channel(rays, blocks, x, y, z, d, 0, r.x as int)
    &&& exists|d: int| 0 <= d < 6 && #[trigger] feeds_channel(rays, blocks, x, y, z, d, 1, r.y as int)
    &&& exists|d: int| 0 <= d < 6 && #[trigger] feeds_channel(rays, blocks, x, y, z, d, 2, r.z as int)
}

/// Whether a waiting entry came from one neighbour that covers all its channels.
pub open spec fn entry_fed(rays: Seq<Option<LightColor>>, blocks: Seq<u32>, e: (LightColor, i32, i32, i32)) -> bool {
    exists|d: int| 0 <= d < 6 && #[trigger] feeds(rays, blocks, e.1 as int, e.2 as int, e.3 as int, d, e.0)
}

/// Every ray away from the source came from its neighbours; once the source
/// holds its ray, every waiting entry came from one neighbour.
#[verifier::opaque]
pub open spec fn sources_ok(
    rays: Seq<Option<LightColor>>,
    stack: Seq<(LightColor, i32, i32, i32)>,
    blocks: Seq<u32>,
) -> bool {
    &&& forall|a: int, b: int, c: int|
        in_reach(a, b, c) && !(a == 0 && b == 0 && c == 0) ==> match #[trigger] ray_at(rays, a, b, c) {
            Some(r) => sourced(rays, blocks, a, b, c, r),
            None => true,
        }
    &&& rays[1687] is Some ==> forall|k: int|
        0 <= k < stack.len() ==> entry_fed(rays, blocks, #[trigger] stack[k])
}

/// Rays only grow: every ray of `rays1` is in `rays2`, at least as bright.
pub open spec fn rays_grow(rays1: Seq<Option<LightColor>>, rays2: Seq<Option<LightColor>>) -> bool {
    &&& rays1.len() == 3375
    &&& rays2.len() == 3375
    &&& forall|i: int|
        0 <= i < 3375 ==> match #[trigger] rays1[i] {
            Some(a) => match rays2[i] {
                Some(b) => covers(b, a),
                None => false,
            },
            None => true,
        }
}

proof fn lemma_feeds_grow(
    rays1: Seq<Option<LightColor>>,
    rays2: Seq<Option<LightColor>>,
    blocks: Seq<u32>,
    x: int,
    y: int,
    z: int,
    d: int,
    c: LightColor,
    ch: int,
    amount: int,
)
    requires
        rays_grow(rays1, rays2),
    ensures
        feeds(rays1, blocks, x, y, z, d, c) ==> feeds(rays2, blocks, x, y, z, d, c),
        feeds_channel(rays1, blocks, x, y, z, d, ch, amount) ==> feeds_channel(rays2, blocks, x, y, z, d, ch, amount),
{
    let p = neighbor(x, y, z, d);
    if in_reach(p.0, p.1, p.2) {
        lemma_cell_index(p.0, p.1, p.2, p.0, p.1, p.2);
        let idx = cell_index(p.0, p.1, p.2);
        assert(rays1[idx] == ray_at(rays1, p.0, p.1, p.2));
    }
}

proof fn lemma_sourced_grow(
    rays1: Seq<Option<LightColor>>,
    rays2: Seq<Option<LightColor>>,
    blocks: Seq<u32>,
    x: int,
    y: int,
    z: int,
    r: LightColor,
)
    requires
        rays_grow(rays1, rays2),
        sourced(rays1, blocks, x, y, z, r),
    ensures
        sourced(rays2, blocks, x, y, z, r),
{
    let d0 = choose|d: int| 0 <= d < 6 && #[trigger] feeds_channel(rays1, blocks, x, y, z, d, 0, r.x as int);
    let d1 = choose|d: int| 0 <= d < 6 && #[trigger] feeds_channel(rays1, blocks, x, y, z, d, 1, r.y as int);
    let d2 = choose|d: int| 0 <= d < 6 && #[trigger] feeds_channel(rays1, blocks, x, y, z, d, 2, r.z as int);
    lemma_feeds_grow(rays1, rays2, blocks, x, y, z, d0, r, 0, r.x as int);
    lemma_feeds_grow(rays1, rays2, blocks, x, y, z, d1, r, 1, r.y as int);
    lemma_feeds_grow(rays1, rays2, blocks, x, y, z, d2, r, 2, r.z as int);
}

/// The merged ray at a cell is sourced when the entry came from one neighbour
/// and the old ray, if any, was sourced.
proof fn lemma_merge_sourced(
    rays: Seq<Option<LightColor>>,
    blocks: Seq<u32>,
    a: int,
    b: int,
    c: int,
    old: Option<LightColor>,
    v: LightColor,
    merged: LightColor,
    dv: int,
)
    requires
        0 <= dv < 6,
        feeds(rays, blocks, a, b, c, dv, v),
        merged == match old {
            Some(o) => brighter_of(o, v),
            None => v,
        },
        match old {
            Some(o) => sourced(rays, blocks, a, b, c, o),
            None => true,
        },
    ensures
        sourced(rays, blocks, a, b, c, merged),
{
    assert(feeds_channel(rays, blocks, a, b, c, dv, 0, v.x as int));
    assert(feeds_channel(rays, blocks, a, b, c, dv, 1, v.y as int));
    assert(feeds_channel(rays, blocks, a, b, c, dv, 2, v.z as int));
    if let Some(o) = old {
        let d0 = choose|d: int| 0 <= d < 6 && #[trigger] feeds_channel(rays, blocks, a, b, c, d, 0, o.x as int);
        let d1 = choose|d: int| 0 <= d < 6 && #[trigger] feeds_channel(rays, blocks, a, b, c, d, 1, o.y as int);
        let d2 = choose|d: int| 0 <= d < 6 && #[trigger] feeds_channel(rays, blocks, a, b, c, d, 2, o.z as int);
        if o.x >= v.x {
            assert(feeds_channel(rays, blocks, a, b, c, d0, 0, merged.x as int));
        } else {
            assert(feeds_channel(rays, blocks, a, b, c, dv, 0, merged.x as int));
        }
        if o.y >= v.y {
            assert(feeds_channel(rays, blocks, a, b, c, d1, 1, merged.y as int));
        } else {
            assert(feeds_channel(rays, blocks, a, b, c, dv, 1, merged.y as int));
        }
        if o.z >= v.z {
            assert(feeds_channel(rays, blocks, a, b, c, d2, 2, merged.z as int));
        } else {
            assert(feeds_channel(rays, blocks, a, b, c, dv, 2, merged.z as int));
        }
    } else {
        assert(feeds_channel(rays, blocks, a, b, c, dv, 0, merged.x as int));
        assert(feeds_channel(rays, blocks, a, b, c, dv, 1, merged.y as int));
        assert(feeds_channel(rays, blocks, a, b, c, dv, 2, merged.z as int));
    }
}

proof fn lemma_rays_grow_update(rays1: Seq<Option<LightColor>>, ci: int, merged: LightColor)
    requires
        rays1.len() == 3375,
        0 <= ci < 3375,
        match rays1[ci] {
            Some(o) => covers(merged, o),
            None => true,
        },
    ensures
        rays_grow(rays1, rays1.update(ci, Some(merged))),
{
    let rays2 = rays1.update(ci, Some(merged));
    assert forall|i: int| 0 <= i < 3375 implies match #[trigger] rays1[i] {
        Some(a) => match rays2[i] {
            Some(b) => covers(b, a),
            None => false,
        },
        None => true,
    } by {
        if i != ci {
            assert(rays2[i] == rays1[i]);
        }
    }
}

/// Taking the last entry into the ray at its cell keeps every ray and entry
/// sourced.
proof fn lemma_sources_pop(
    rays1: Seq<Option<LightColor>>,
    before: Seq<(LightColor, i32, i32, i32)>,
    blocks: Seq<u32>,
    rays2: Seq<Option<LightColor>>,
    s2: Seq<(LightColor, i32, i32, i32)>,
    v: LightColor,
    x: i32,
    y: i32,
    z: i32,
    merged: LightColor,
)
    requires
        sources_ok(rays1, before, blocks),
        rays1.len() == 3375,
        before.len() > 0,
        before.last() == (v, x, y, z),
        in_reach(x as int, y as int, z as int),
        s2 == before.drop_last(),
        merged == match rays1[cell_index(x as int, y as int, z as int)] {
            Some(o) => brighter_of(o, v),
            None => v,
        },
        rays2 == rays1.update(cell_index(x as int, y as int, z as int), Some(merged)),
        rays1[1687] is None ==> x == 0 && y == 0 && z == 0 && s2.len() == 0,
    ensures
        sources_ok(rays2, s2, blocks),
        rays_grow(rays1, rays2),
{
    reveal(sources_ok);
    let ci = cell_index(x as int, y as int, z as int);
    lemma_cell_index(x as int, y as int, z as int, x as int, y as int, z as int);
    let last = before.len() - 1;
    assert(before[last] == (v, x, y, z));
    lemma_rays_grow_update(rays1, ci, merged);
    let (xi, yi, zi) = (x as int, y as int, z as int);
    assert forall|i: int| 0 <= i < 3375 && i != cell_index(xi, yi, zi) implies rays2[i] == rays1[i] by {}
    assert forall|k: int| 0 <= k < s2.len() implies s2[k] == before[k] by {}
    if !(xi == 0 && yi == 0 && zi == 0) {
        assert(rays1[1687] is Some);
        assert(entry_fed(rays1, blocks, before[last]));
        let dv = choose|d: int| 0 <= d < 6 && #[trigger] feeds(rays1, blocks, xi, yi, zi, d, v);
        lemma_feeds_grow(rays1, rays2, blocks, xi, yi, zi, dv, v, 0, 0);
        if let Some(o) = rays1[ci] {
            assert(ray_at(rays1, xi, yi, zi) == Some(o));
            lemma_sourced_grow(rays1, rays2, blocks, xi, yi, zi, o);
        }
        lemma_merge_sourced(rays2, blocks, xi, yi, zi, rays1[ci], v, merged, dv);
    }
    lemma_sources_others(rays1, rays2, blocks, xi, yi, zi);
    if rays1[1687] is Some {
        lemma_sources_entries(rays1, before, rays2, s2, blocks);
    }
}

proof fn lemma_sources_others(
    rays1: Seq<Option<LightColor>>,
    rays2: Seq<Option<LightColor>>,
    blocks: Seq<u32>,
    xi: int,
    yi: int,
    zi: int,
)
    requires
        rays_grow(rays1, rays2),
        in_reach(xi, yi, zi),
        forall|a: int, b: int, c: int|
            in_reach(a, b, c) && !(a == 0 && b == 0 && c == 0) ==> match #[trigger] ray_at(rays1, a, b, c) {
                Some(r) => sourced(rays1, blocks, a, b, c, r),
                None => true,
            },
        forall|i: int| 0 <= i < 3375 && i != cell_index(xi, yi, zi) ==> rays2[i] == rays1[i],
        !(xi == 0 && yi == 0 && zi == 0) ==> match ray_at(rays2, xi, yi, zi) {
            Some(r) => sourced(rays2, blocks, xi, yi, zi, r),
            None => true,
        },
    ensures
        forall|a: int, b: int, c: int|
            in_reach(a, b, c) && !(a == 0 && b == 0 && c == 0) ==> match #[trigger] ray_at(rays2, a, b, c) {
                Some(r) => sourced(rays2, blocks, a, b, c, r),
                None => true,
            },
{
    assert forall|a: int, b: int, c: int| in_reach(a, b, c) && !(a == 0 && b == 0 && c == 0) implies match #[trigger] ray_at(
        rays2,
        a,
        b,
        c,
    ) {
        Some(r) => sourced(rays2, blocks, a, b, c, r),
        None => true,
    } by {
        lemma_cell_index(a, b, c, xi, yi, zi);
        if !(a == xi && b == yi && c == zi) {
            assert(ray_at(rays2, a, b, c) == ray_at(rays1, a, b, c));
            if let Some(r) = ray_at(rays1, a, b, c) {
                lemma_sourced_grow(rays1, rays2, blocks, a, b, c, r);
            }
        }
    }
}

proof fn lemma_sources_entries(
    rays1: Seq<Option<LightColor>>,
    before: Seq<(LightColor, i32, i32, i32)>,
    rays2: Seq<Option<LightColor>>,
    s2: Seq<(LightColor, i32, i32, i32)>,
    blocks: Seq<u32>,
)
    requires
        rays_grow(rays1, rays2),
        s2.len() <= before.len(),
        forall|k: int| 0 <= k < s2.len() ==> s2[k] == before[k],
        forall|k: int|
            0 <= k < before.len() ==> entry_fed(rays1, blocks, #[trigger] before[k]),
    ensures
        forall|k: int|
            0 <= k < s2.len() ==> entry_fed(rays2, blocks, #[trigger] s2[k]),
{
    assert forall|k: int| 0 <= k < s2.len() implies entry_fed(rays2, blocks, #[trigger] s2[k]) by {
        assert(s2[k] == before[k]);
        let e = before[k];
        let dk = choose|d: int| 0 <= d < 6 && #[trigger] feeds(rays1, blocks, e.1 as int, e.2 as int, e.3 as int, d, e.0);
        lemma_feeds_grow(rays1, rays2, blocks, e.1 as int, e.2 as int, e.3 as int, dk, e.0, 0, 0);
    }
}

proof fn lemma_opposite(d: int)
    requires
        0 <= d < 6,
    ensures
        0 <= opposite(d) < 6,
        opposite(opposite(d)) == d,
        face_offset(opposite(d)).0 == -face_offset(d).0,
        face_offset(opposite(d)).1 == -face_offset(d).1,
        face_offset(opposite(d)).2 == -face_offset(d).2,
{
}

/// Whether every face marked at a cell leads from a cell holding a ray to a
/// reached cell inside the cube.
#[verifier::opaque]
pub open spec fn links_ok(rays: Seq<Option<LightColor>>, dirs: Seq<[bool; 6]>, visited: Seq<bool>) -> bool {
    forall|a: int, b: int, c: int, d: int|
        in_reach(a, b, c) && 0 <= d < 6 && #[trigger] dirs[cell_index(a, b, c)][d] ==> {
            let p = neighbor(a, b, c, d);
            &&& ray_at(rays, a, b, c) is Some
            &&& in_reach(p.0, p.1, p.2)
            &&& visited[cell_index(p.0, p.1, p.2)]
        }
}

/// Whether the neighbour across face `d` of an offset holds a ray, marks the
/// face back to the offset, and comes earlier in `rank`.
pub open spec fn tree_parent(
    rays: Seq<Option<LightColor>>,
    dirs: Seq<[bool; 6]>,
    rank: Seq<int>,
    a: int,
    b: int,
    c: int,
    d: int,
) -> bool {
    let p = neighbor(a, b, c, d);
    &&& in_reach(p.0, p.1, p.2)
    &&& ray_at(rays, p.0, p.1, p.2) is Some
    &&& dirs[cell_index(p.0, p.1, p.2)][opposite(d)]
    &&& 0 <= rank[cell_index(p.0, p.1, p.2)] < rank[cell_index(a, b, c)]
}

/// Ranks below `counter` for the reached cells under which every reached cell
/// but the source has an earlier neighbour that marked the face to it.
pub open spec fn tree_with(
    rays: Seq<Option<LightColor>>,
    dirs: Seq<[bool; 6]>,
    visited: Seq<bool>,
    rank: Seq<int>,
    counter: int,
) -> bool {
    &&& rank.len() == 3375
    &&& forall|a: int, b: int, c: int|
        in_reach(a, b, c) && #[trigger] visited[cell_index(a, b, c)] ==> 0 <= rank[cell_index(a, b, c)] < counter
    &&& forall|a: int, b: int, c: int|
        in_reach(a, b, c) && !(a == 0 && b == 0 && c == 0) && #[trigger] visited[cell_index(a, b, c)] ==> exists|
            d: int,
        | 0 <= d < 6 && #[trigger] tree_parent(rays, dirs, rank, a, b, c, d)
}

/// Some ranking makes the reached cells a tree rooted at the source.
#[verifier::opaque]
pub open spec fn tree_ok(rays: Seq<Option<LightColor>>, dirs: Seq<[bool; 6]>, visited: Seq<bool>) -> bool {
    exists|rank: Seq<int>, counter: int| tree_with(rays, dirs, visited, rank, counter)
}

proof fn lemma_links_tree_grow(
    rays1: Seq<Option<LightColor>>,
    rays2: Seq<Option<LightColor>>,
    dirs: Seq<[bool; 6]>,
    visited: Seq<bool>,
)
    requires
        rays_grow(rays1, rays2),
        links_ok(rays1, dirs, visited),
        tree_ok(rays1, dirs, visited),
    ensures
        links_ok(rays2, dirs, visited),
        tree_ok(rays2, dirs, visited),
{
    reveal(links_ok);
    reveal(tree_ok);
    assert forall|a: int, b: int, c: int, d: int| in_reach(a, b, c) && 0 <= d < 6 && #[trigger] dirs[cell_index(a, b, c)][d] implies ({
        let p = neighbor(a, b, c, d);
        &&& ray_at(rays2, a, b, c) is Some
        &&& in_reach(p.0, p.1, p.2)
        &&& visited[cell_index(p.0, p.1, p.2)]
    }) by {
        lemma_cell_index(a, b, c, a, b, c);
        assert(rays1[cell_index(a, b, c)] is Some);
    }
    let (rank, counter) = choose|rank: Seq<int>, counter: int| tree_with(rays1, dirs, visited, rank, counter);
    assert forall|a: int, b: int, c: int|
        in_reach(a, b, c) && !(a == 0 && b == 0 && c == 0) && #[trigger] visited[cell_index(a, b, c)] implies exists|d: int|
        0 <= d < 6 && #[trigger] tree_parent(rays2, dirs, rank, a, b, c, d) by {
        let d = choose|d: int| 0 <= d < 6 && #[trigger] tree_parent(rays1, dirs, rank, a, b, c, d);
        let p = neighbor(a, b, c, d);
        lemma_cell_index(p.0, p.1, p.2, p.0, p.1, p.2);
        assert(rays1[cell_index(p.0, p.1, p.2)] is Some);
        assert(tree_parent(rays2, dirs, rank, a, b, c, d));
    }
    assert(tree_with(rays2, dirs, visited, rank, counter));
}

proof fn lemma_links_push(
    rays: Seq<Option<LightColor>>,
    dirs0: Seq<[bool; 6]>,
    vis0: Seq<bool>,
    dirs1: Seq<[bool; 6]>,
    x: int,
    y: int,
    z: int,
    d: int,
)
    requires
        links_ok(rays, dirs0, vis0),
        rays.len() == 3375,
        vis0.len() == 3375,
        dirs0.len() == 3375,
        in_reach(x, y, z),
        0 <= d < 6,
        in_reach(neighbor(x, y, z, d).0, neighbor(x, y, z, d).1, neighbor(x, y, z, d).2),
        ray_at(rays, x, y, z) is Some,
        dirs1.len() == 3375,
        forall|i: int| 0 <= i < 3375 && i != cell_index(x, y, z) ==> dirs1[i] == dirs0[i],
        forall|e: int| 0 <= e < 6 ==> dirs1[cell_index(x, y, z)][e] == (e == d || dirs0[cell_index(x, y, z)][e]),
    ensures
        ({
            let p = neighbor(x, y, z, d);
            links_ok(rays, dirs1, vis0.update(cell_index(p.0, p.1, p.2), true))
        }),
{
    reveal(links_ok);
    let p = neighbor(x, y, z, d);
    let pj = cell_index(p.0, p.1, p.2);
    let ci = cell_index(x, y, z);
    let vis1 = vis0.update(pj, true);
    lemma_cell_index(p.0, p.1, p.2, x, y, z);
    lemma_cell_index(x, y, z, x, y, z);
    assert forall|a: int, b: int, c: int, e: int| in_reach(a, b, c) && 0 <= e < 6 && #[trigger] dirs1[cell_index(a, b, c)][e] implies ({
        let q = neighbor(a, b, c, e);
        &&& ray_at(rays, a, b, c) is Some
        &&& in_reach(q.0, q.1, q.2)
        &&& vis1[cell_index(q.0, q.1, q.2)]
    }) by {
        lemma_cell_index(a, b, c, x, y, z);
        let q = neighbor(a, b, c, e);
        if cell_index(a, b, c) == ci && e == d {
            assert(q == p);
        } else {
            assert(dirs0[cell_index(a, b, c)][e]);
            lemma_cell_index(q.0, q.1, q.2, p.0, p.1, p.2);
        }
    }
}

proof fn lemma_tree_push_new_cell(
    rays: Seq<Option<LightColor>>,
    dirs1: Seq<[bool; 6]>,
    rank: Seq<int>,
    rank1: Seq<int>,
    x: int,
    y: int,
    z: int,
    d: int,
)
    requires
        rank.len() == 3375,
        in_reach(x, y, z),
        0 <= d < 6,
        in_reach(neighbor(x, y, z, d).0, neighbor(x, y, z, d).1, neighbor(x, y, z, d).2),
        ray_at(rays, x, y, z) is Some,
        0 <= rank[cell_index(x, y, z)] < rank1[cell_index(neighbor(x, y, z, d).0, neighbor(x, y, z, d).1, neighbor(x, y, z, d).2)],
        rank1[cell_index(x, y, z)] == rank[cell_index(x, y, z)],
        dirs1[cell_index(x, y, z)][d],
    ensures
        ({
            let p = neighbor(x, y, z, d);
            exists|e: int| 0 <= e < 6 && #[trigger] tree_parent(rays, dirs1, rank1, p.0, p.1, p.2, e)
        }),
{
    let p = neighbor(x, y, z, d);
    lemma_opposite(d);
    let od = opposite(d);
    assert(neighbor(p.0, p.1, p.2, od) == (x, y, z));
    assert(tree_parent(rays, dirs1, rank1, p.0, p.1, p.2, od));
}

proof fn lemma_tree_push_old_cell(
    rays: Seq<Option<LightColor>>,
    dirs0: Seq<[bool; 6]>,
    dirs1: Seq<[bool; 6]>,
    rank: Seq<int>,
    rank1: Seq<int>,
    pj: int,
    a: int,
    b: int,
    c: int,
    e: int,
)
    requires
        tree_parent(rays, dirs0, rank, a, b, c, e),
        0 <= e < 6,
        in_reach(a, b, c),
        cell_index(a, b, c) != pj,
        rays[pj] is None,
        forall|i: int| 0 <= i < 3375 && i != pj ==> rank1[i] == rank[i],
        forall|i: int, f: int| 0 <= i < 3375 && 0 <= f < 6 && #[trigger] dirs0[i][f] ==> dirs1[i][f],
    ensures
        tree_parent(rays, dirs1, rank1, a, b, c, e),
{
    let q = neighbor(a, b, c, e);
    lemma_cell_index(q.0, q.1, q.2, q.0, q.1, q.2);
    lemma_cell_index(a, b, c, a, b, c);
    lemma_opposite(e);
    assert(dirs0[cell_index(q.0, q.1, q.2)][opposite(e)]);
}

proof fn lemma_tree_push(
    rays: Seq<Option<LightColor>>,
    dirs0: Seq<[bool; 6]>,
    vis0: Seq<bool>,
    dirs1: Seq<[bool; 6]>,
    x: int,
    y: int,
    z: int,
    d: int,
)
    requires
        tree_ok(rays, dirs0, vis0),
        rays.len() == 3375,
        vis0.len() == 3375,
        dirs0.len() == 3375,
        in_reach(x, y, z),
        0 <= d < 6,
        in_reach(neighbor(x, y, z, d).0, neighbor(x, y, z, d).1, neighbor(x, y, z, d).2),
        ray_at(rays, x, y, z) is Some,
        vis0[cell_index(x, y, z)],
        forall|i: int| 0 <= i < 3375 && (#[trigger] rays[i]) is Some ==> vis0[i],
        dirs1.len() == 3375,
        forall|i: int| 0 <= i < 3375 && i != cell_index(x, y, z) ==> dirs1[i] == dirs0[i],
        forall|e: int| 0 <= e < 6 ==> dirs1[cell_index(x, y, z)][e] == (e == d || dirs0[cell_index(x, y, z)][e]),
    ensures
        ({
            let p = neighbor(x, y, z, d);
            tree_ok(rays, dirs1, vis0.update(cell_index(p.0, p.1, p.2), true))
        }),
{
    reveal(tree_ok);
    let p = neighbor(x, y, z, d);
    let pj = cell_index(p.0, p.1, p.2);
    let ci = cell_index(x, y, z);
    let vis1 = vis0.update(pj, true);
    lemma_cell_index(p.0, p.1, p.2, x, y, z);
    lemma_cell_index(x, y, z, x, y, z);
    let (rank, counter) = choose|rank: Seq<int>, counter: int| tree_with(rays, dirs0, vis0, rank, counter);
    let rank1 = if vis0[pj] { rank } else { rank.update(pj, counter) };
    let counter1 = counter + 1;
    assert forall|i: int, f: int| 0 <= i < 3375 && 0 <= f < 6 && #[trigger] dirs0[i][f] implies dirs1[i][f] by {
        if i == ci {
            assert(dirs1[ci][f] == (f == d || dirs0[ci][f]));
        }
    }
    assert forall|a: int, b: int, c: int| in_reach(a, b, c) && #[trigger] vis1[cell_index(a, b, c)] implies 0 <= rank1[cell_index(
        a,
        b,
        c,
    )] < counter1 by {
        lemma_cell_index(a, b, c, p.0, p.1, p.2);
        if cell_index(a, b, c) != pj || vis0[pj] {
            assert(vis0[cell_index(a, b, c)]);
        }
    }
    assert forall|a: int, b: int, c: int|
        in_reach(a, b, c) && !(a == 0 && b == 0 && c == 0) && #[trigger] vis1[cell_index(a, b, c)] implies exists|e: int|
        0 <= e < 6 && #[trigger] tree_parent(rays, dirs1, rank1, a, b, c, e) by {
        lemma_cell_index(a, b, c, p.0, p.1, p.2);
        if cell_index(a, b, c) == pj && !vis0[pj] {
            assert(vis0[ci]);
            assert(0 <= rank[ci] < counter);
            lemma_tree_push_new_cell(rays, dirs1, rank, rank1, x, y, z, d);
            assert(p == (a, b, c));
        } else {
            assert(vis0[cell_index(a, b, c)]);
            let e = choose|e: int| 0 <= e < 6 && #[trigger] tree_parent(rays, dirs0, rank, a, b, c, e);
            if vis0[pj] {
                assert(tree_parent(rays, dirs1, rank1, a, b, c, e)) by {
                    let q = neighbor(a, b, c, e);
                    lemma_cell_index(q.0, q.1, q.2, q.0, q.1, q.2);
                    lemma_opposite(e);
                    assert(dirs0[cell_index(q.0, q.1, q.2)][opposite(e)]);
                }
            } else {
                assert(rays[pj] is None);
                lemma_tree_push_old_cell(rays, dirs0, dirs1, rank, rank1, pj, a, b, c, e);
            }
        }
    }
    assert(tree_with(rays, dirs1, vis1, rank1, counter1));
}

/// The state between spreading steps: shapes and brightness bounds, light
/// passed on, marks, and where every ray and entry came from.
#[verifier::opaque]
spec fn state_ok(
    rays: Seq<Option<LightColor>>,
    dirs: Seq<[bool; 6]>,
    visited: Seq<bool>,
    stack: Seq<(LightColor, i32, i32, i32)>,
    blocks: Seq<u32>,
    source: LightColor,
) -> bool {
    &&& propagation_ok(rays, dirs, visited, stack, source)
    &&& spread_ok(rays, visited, stack, blocks)
    &&& sources_ok(rays, stack, blocks)
    &&& links_ok(rays, dirs, visited)
    &&& tree_ok(rays, dirs, visited)
}

/// The state while the light `v` taken at `(x, y, z)` (merged there with the
/// earlier ray `prior` into `merged`) is passed on across the first `d` faces.
#[verifier::opaque]
spec fn relax_ok(
    rays: Seq<Option<LightColor>>,
    dirs: Seq<[bool; 6]>,
    visited: Seq<bool>,
    stack: Seq<(LightColor, i32, i32, i32)>,
    blocks: Seq<u32>,
    source: LightColor,
    x: int,
    y: int,
    z: int,
    v: LightColor,
    merged: LightColor,
    prior: Option<LightColor>,
    d: int,
) -> bool {
    &&& propagation_ok(rays, dirs, visited, stack, source)
    &&& rays[1687] is Some
    &&& in_reach(x, y, z)
    &&& within_decay(v, source, steps_from_source(x, y, z))
    &&& ray_at(rays, x, y, z) == Some(merged)
    &&& merged == match prior {
        Some(o) => brighter_of(o, v),
        None => v,
    }
    &&& others_done(rays, stack, blocks, x, y, z)
    &&& match prior {
        Some(o) => spreads(blocks, x, y, z) ==> spread_from(rays, stack, x, y, z, o, 6),
        None => true,
    }
    &&& spread_from(rays, stack, x, y, z, v, d)
    &&& marks_ok(rays, visited, stack)
    &&& sources_ok(rays, stack, blocks)
    &&& links_ok(rays, dirs, visited)
    &&& tree_ok(rays, dirs, visited)
}

proof fn lemma_state_start(
    rays: Seq<Option<LightColor>>,
    dirs: Seq<[bool; 6]>,
    visited: Seq<bool>,
    stack: Seq<(LightColor, i32, i32, i32)>,
    blocks: Seq<u32>,
    source: LightColor,
)
    requires
        rays == Seq::new(3375, |j: int| None::<LightColor>),
        dirs == Seq::new(3375, |j: int| [false, false, false, false, false, false]),
        visited == Seq::new(3375, |j: int| false).update(1687, true),
        stack == seq![(source, 0i32, 0i32, 0i32)],
    ensures
        state_ok(rays, dirs, visited, stack, blocks, source),
{
    reveal(links_ok);
    reveal(tree_ok);
    let rank = Seq::new(3375, |j: int| 0int);
    assert forall|a: int, b: int, c: int| in_reach(a, b, c) && #[trigger] visited[cell_index(a, b, c)] implies 0 <= rank[cell_index(
        a,
        b,
        c,
    )] < 1 by {
        lemma_cell_index(a, b, c, a, b, c);
    }
    assert forall|a: int, b: int, c: int|
        in_reach(a, b, c) && !(a == 0 && b == 0 && c == 0) && #[trigger] visited[cell_index(a, b, c)] implies exists|e: int|
        0 <= e < 6 && #[trigger] tree_parent(rays, dirs, rank, a, b, c, e) by {
        lemma_cell_index(a, b, c, 0, 0, 0);
    }
    assert(tree_with(rays, dirs, visited, rank, 1));
    assert forall|a: int, b: int, c: int, d: int| in_reach(a, b, c) && 0 <= d < 6 && #[trigger] dirs[cell_index(a, b, c)][d] implies ({
        let p = neighbor(a, b, c, d);
        &&& ray_at(rays, a, b, c) is Some
        &&& in_reach(p.0, p.1, p.2)
        &&& visited[cell_index(p.0, p.1, p.2)]
    }) by {
        lemma_cell_index(a, b, c, a, b, c);
    }
    reveal(propagation_ok);
    reveal(sources_ok);
    reveal(state_ok);
    assert forall|x: int, y: int, z: int| in_reach(x, y, z) implies match #[trigger] ray_at(rays, x, y, z) {
        Some(r) => within_decay(r, source, steps_from_source(x, y, z)),
        None => true,
    } by {
        lemma_cell_index(x, y, z, x, y, z);
    }
    assert forall|a: int, b: int, c: int| in_reach(a, b, c) implies #[trigger] spread_done(rays, stack, blocks, a, b, c) by {
        lemma_cell_index(a, b, c, a, b, c);
    }
    assert forall|a: int, b: int, c: int| in_reach(a, b, c) && #[trigger] visited[cell_index(a, b, c)] implies ray_at(
        rays,
        a,
        b,
        c,
    ) is Some || pending(stack, a, b, c) by {
        lemma_cell_index(a, b, c, 0, 0, 0);
        assert(entry_at(stack[0], 0, 0, 0));
    }
    assert forall|a: int, b: int, c: int| in_reach(a, b, c) && (#[trigger] ray_at(rays, a, b, c)) is Some implies visited[cell_index(
        a,
        b,
        c,
    )] by {
        lemma_cell_index(a, b, c, a, b, c);
    }
    assert forall|a: int, b: int, c: int| in_reach(a, b, c) && !(a == 0 && b == 0 && c == 0) implies match #[trigger] ray_at(
        rays,
        a,
        b,
        c,
    ) {
        Some(r) => sourced(rays, blocks, a, b, c, r),
        None => true,
    } by {
        lemma_cell_index(a, b, c, a, b, c);
    }
}

/// What the top entry of a good state says: it lies in the cube within the
/// decay bound, and it is the source's own entry while the source has no ray.
proof fn lemma_state_top(
    rays: Seq<Option<LightColor>>,
    dirs: Seq<[bool; 6]>,
    visited: Seq<bool>,
    stack: Seq<(LightColor, i32, i32, i32)>,
    blocks: Seq<u32>,
    source: LightColor,
)
    requires
        state_ok(rays, dirs, visited, stack, blocks, source),
        stack.len() > 0,
    ensures
        in_reach(stack.last().1 as int, stack.last().2 as int, stack.last().3 as int),
        within_decay(stack.last().0, source, steps_from_source(stack.last().1 as int, stack.last().2 as int, stack.last().3 as int)),
        rays[1687] is None ==> stack.last() == (source, 0i32, 0i32, 0i32) && stack.len() == 1,
        rays.len() == 3375,
        dirs.len() == 3375,
        visited.len() == 3375,
{
    reveal(propagation_ok);
    reveal(state_ok);
    let e = stack[stack.len() - 1];
    assert(e == stack.last());
}

/// Taking the top entry into its ray starts the passing on of its light.
proof fn lemma_after_merge(
    rays1: Seq<Option<LightColor>>,
    dirs: Seq<[bool; 6]>,
    visited: Seq<bool>,
    before: Seq<(LightColor, i32, i32, i32)>,
    blocks: Seq<u32>,
    source: LightColor,
    rays2: Seq<Option<LightColor>>,
    s2: Seq<(LightColor, i32, i32, i32)>,
    v: LightColor,
    x: i32,
    y: i32,
    z: i32,
    merged: LightColor,
)
    requires
        state_ok(rays1, dirs, visited, before, blocks, source),
        before.len() > 0,
        before.last() == (v, x, y, z),
        s2 == before.drop_last(),
        in_reach(x as int, y as int, z as int),
        merged == match rays1[cell_index(x as int, y as int, z as int)] {
            Some(o) => brighter_of(o, v),
            None => v,
        },
        rays2 == rays1.update(cell_index(x as int, y as int, z as int), Some(merged)),
    ensures
        relax_ok(
            rays2,
            dirs,
            visited,
            s2,
            blocks,
            source,
            x as int,
            y as int,
            z as int,
            v,
            merged,
            rays1[cell_index(x as int, y as int, z as int)],
            0,
        ),
        stack_load(before) == stack_load(s2) + pow7(weight(v)),
{
    reveal(propagation_ok);
    reveal(others_done);
    reveal(marks_ok);
    reveal(state_ok);
    reveal(relax_ok);
    let ci = cell_index(x as int, y as int, z as int);
    lemma_cell_index(x as int, y as int, z as int, x as int, y as int, z as int);
    let last = before.len() - 1;
    assert(before[last] == (v, x, y, z));
    assert(before.drop_last() == s2);
    assert(within_decay(v, source, steps_from_source(x as int, y as int, z as int)));
    assert forall|k: int| 0 <= k < s2.len() implies ({
        let e = #[trigger] s2[k];
        &&& in_reach(e.1 as int, e.2 as int, e.3 as int)
        &&& within_decay(e.0, source, steps_from_source(e.1 as int, e.2 as int, e.3 as int))
    }) by {
        assert(s2[k] == before[k]);
    }
    assert forall|a: int, b: int, c: int| in_reach(a, b, c) implies match #[trigger] ray_at(rays2, a, b, c) {
        Some(r) => within_decay(r, source, steps_from_source(a, b, c)),
        None => true,
    } by {
        lemma_cell_index(a, b, c, x as int, y as int, z as int);
        if cell_index(a, b, c) != ci {
            assert(ray_at(rays2, a, b, c) == ray_at(rays1, a, b, c));
        }
    }
    if rays1[1687] is None {
        assert(before == seq![(source, 0i32, 0i32, 0i32)]);
        assert(before[0] == (v, x, y, z));
        assert(s2.len() == 0);
    }
    lemma_pop_merge(rays1, visited, before, blocks, rays2, s2, v, x, y, z, merged);
    lemma_sources_pop(rays1, before, blocks, rays2, s2, v, x, y, z, merged);
    lemma_links_tree_grow(rays1, rays2, dirs, visited);
    assert(ray_at(rays2, x as int, y as int, z as int) == Some(merged));
}

/// After the light taken at `(x, y, z)` has been passed on across every face
/// it spreads to, the state is good again.
proof fn lemma_finish_cell(
    rays: Seq<Option<LightColor>>,
    dirs: Seq<[bool; 6]>,
    visited: Seq<bool>,
    stack: Seq<(LightColor, i32, i32, i32)>,
    blocks: Seq<u32>,
    source: LightColor,
    x: int,
    y: int,
    z: int,
    v: LightColor,
    merged: LightColor,
    prior: Option<LightColor>,
    d: int,
)
    requires
        relax_ok(rays, dirs, visited, stack, blocks, source, x, y, z, v, merged, prior, d),
        spreads(blocks, x, y, z) && bright(v) ==> d == 6,
    ensures
        state_ok(rays, dirs, visited, stack, blocks, source),
{
    reveal(others_done);
    reveal(marks_ok);
    reveal(state_ok);
    reveal(relax_ok);
    if spreads(blocks, x, y, z) {
        assert forall|dd: int, ch: int| 0 <= dd < 6 && 0 <= ch < 3 && channel_of(merged, ch) > 1 implies #[trigger] reaches(
            rays,
            stack,
            neighbor(x, y, z, dd),
            ch,
            channel_of(merged, ch) - 2,
        ) by {
            let from_old = match prior {
                Some(o) => channel_of(o, ch) == channel_of(merged, ch),
                None => false,
            };
            if !from_old {
                assert(channel_of(v, ch) == channel_of(merged, ch));
                assert(bright(v));
            }
        }
    }
    assert(spread_done(rays, stack, blocks, x, y, z));
    assert forall|a: int, b: int, c: int| in_reach(a, b, c) implies #[trigger] spread_done(rays, stack, blocks, a, b, c) by {
        if !(a == x && b == y && c == z) {
            assert(others_done(rays, stack, blocks, x, y, z));
        }
    }
}

proof fn lemma_relax_facts(
    rays: Seq<Option<LightColor>>,
    dirs: Seq<[bool; 6]>,
    visited: Seq<bool>,
    stack: Seq<(LightColor, i32, i32, i32)>,
    blocks: Seq<u32>,
    source: LightColor,
    x: int,
    y: int,
    z: int,
    v: LightColor,
    merged: LightColor,
    prior: Option<LightColor>,
    d: int,
)
    requires
        relax_ok(rays, dirs, visited, stack, blocks, source, x, y, z, v, merged, prior, d),
    ensures
        rays.len() == 3375,
        dirs.len() == 3375,
        visited.len() == 3375,
        in_reach(x, y, z),
        within_decay(v, source, steps_from_source(x, y, z)),
        marks_ok(rays, visited, stack),
        forall|i: int| 0 <= i < 3375 && (#[trigger] rays[i]) is Some ==> visited[i],
        ray_at(rays, x, y, z) is Some,
{
    reveal(propagation_ok);
    reveal(relax_ok);
    reveal(marks_ok);
    assert forall|i: int| 0 <= i < 3375 && (#[trigger] rays[i]) is Some implies visited[i] by {
        let a = i / 225 - 7;
        let b = (i % 225) / 15 - 7;
        let c = i % 15 - 7;
        assert(cell_index(a, b, c) == i);
        assert(in_reach(a, b, c));
        assert(ray_at(rays, a, b, c) is Some);
    }
}

proof fn lemma_marks_push(
    rays: Seq<Option<LightColor>>,
    vis0: Seq<bool>,
    s0: Seq<(LightColor, i32, i32, i32)>,
    e: (LightColor, i32, i32, i32),
)
    requires
        marks_ok(rays, vis0, s0),
        rays.len() == 3375,
        vis0.len() == 3375,
        in_reach(e.1 as int, e.2 as int, e.3 as int),
        forall|k: int| 0 <= k < s0.len() ==> in_reach((#[trigger] s0[k]).1 as int, s0[k].2 as int, s0[k].3 as int),
    ensures
        marks_ok(rays, vis0.update(cell_index(e.1 as int, e.2 as int, e.3 as int), true), s0.push(e)),
{
    reveal(marks_ok);
    let nb = (e.1 as int, e.2 as int, e.3 as int);
    let vis1 = vis0.update(cell_index(nb.0, nb.1, nb.2), true);
    let s1 = s0.push(e);
    let last = s1.len() - 1;
    lemma_cell_index(nb.0, nb.1, nb.2, nb.0, nb.1, nb.2);
    assert(entry_at(s1[last], nb.0, nb.1, nb.2));
    assert forall|a: int, b: int, c: int| in_reach(a, b, c) && #[trigger] vis1[cell_index(a, b, c)] implies ray_at(
        rays,
        a,
        b,
        c,
    ) is Some || pending(s1, a, b, c) by {
        lemma_cell_index(a, b, c, nb.0, nb.1, nb.2);
        if a == nb.0 && b == nb.1 && c == nb.2 {
            assert(entry_at(s1[last], a, b, c));
        } else {
            assert(vis0[cell_index(a, b, c)]);
            if ray_at(rays, a, b, c) is None {
                let k = choose|k: int| 0 <= k < s0.len() && #[trigger] entry_at(s0[k], a, b, c);
                assert(entry_at(s1[k], a, b, c));
            }
        }
    }
    assert forall|a: int, b: int, c: int| in_reach(a, b, c) && (#[trigger] ray_at(rays, a, b, c)) is Some implies vis1[cell_index(
        a,
        b,
        c,
    )] by {
        lemma_cell_index(a, b, c, nb.0, nb.1, nb.2);
    }
    assert forall|k: int| 0 <= k < s1.len() implies vis1[cell_index(
        (#[trigger] s1[k]).1 as int,
        s1[k].2 as int,
        s1[k].3 as int,
    )] by {
        if k < s0.len() {
            assert(s1[k] == s0[k]);
            let f = s0[k];
            lemma_cell_index(f.1 as int, f.2 as int, f.3 as int, nb.0, nb.1, nb.2);
        }
    }
}

proof fn lemma_spread_step(
    rays: Seq<Option<LightColor>>,
    s0: Seq<(LightColor, i32, i32, i32)>,
    s1: Seq<(LightColor, i32, i32, i32)>,
    blocks: Seq<u32>,
    x: int,
    y: int,
    z: int,
    v: LightColor,
    prior: Option<LightColor>,
    d: int,
)
    requires
        keeps(rays, s0, rays, s1),
        others_done(rays, s0, blocks, x, y, z),
        match prior {
            Some(o) => spreads(blocks, x, y, z) ==> spread_from(rays, s0, x, y, z, o, 6),
            None => true,
        },
        spread_from(rays, s0, x, y, z, v, d),
        forall|ch: int|
            0 <= ch < 3 && channel_of(v, ch) > 1 ==> #[trigger] reaches(
                rays,
                s1,
                neighbor(x, y, z, d),
                ch,
                channel_of(v, ch) - 2,
            ),
    ensures
        others_done(rays, s1, blocks, x, y, z),
        match prior {
            Some(o) => spreads(blocks, x, y, z) ==> spread_from(rays, s1, x, y, z, o, 6),
            None => true,
        },
        spread_from(rays, s1, x, y, z, v, d + 1),
{
    lemma_others_keep(rays, s0, s1, blocks, x, y, z);
    if let Some(o) = prior {
        if spreads(blocks, x, y, z) {
            lemma_spread_from_keep(rays, s0, rays, s1, x, y, z, o, 6);
        }
    }
    lemma_spread_from_keep(rays, s0, rays, s1, x, y, z, v, d);
    assert forall|dd: int, ch: int| 0 <= dd < d + 1 && 0 <= ch < 3 && channel_of(v, ch) > 1 implies #[trigger] reaches(
        rays,
        s1,
        neighbor(x, y, z, dd),
        ch,
        channel_of(v, ch) - 2,
    ) by {
        if dd == d {
            assert(reaches(rays, s1, neighbor(x, y, z, d), ch, channel_of(v, ch) - 2));
        }
    }
}

proof fn lemma_propagation_push(
    rays: Seq<Option<LightColor>>,
    dirs0: Seq<[bool; 6]>,
    vis0: Seq<bool>,
    s0: Seq<(LightColor, i32, i32, i32)>,
    source: LightColor,
    e: (LightColor, i32, i32, i32),
    dirs1: Seq<[bool; 6]>,
)
    requires
        propagation_ok(rays, dirs0, vis0, s0, source),
        rays[1687] is Some,
        in_reach(e.1 as int, e.2 as int, e.3 as int),
        within_decay(e.0, source, steps_from_source(e.1 as int, e.2 as int, e.3 as int)),
        dirs1.len() == dirs0.len(),
    ensures
        propagation_ok(rays, dirs1, vis0.update(cell_index(e.1 as int, e.2 as int, e.3 as int), true), s0.push(e), source),
        forall|k: int| 0 <= k < s0.len() ==> in_reach((#[trigger] s0[k]).1 as int, s0[k].2 as int, s0[k].3 as int),
        rays.len() == 3375,
        vis0.len() == 3375,
{
    reveal(propagation_ok);
    let s1 = s0.push(e);
    lemma_cell_index(e.1 as int, e.2 as int, e.3 as int, e.1 as int, e.2 as int, e.3 as int);
    assert forall|k: int| 0 <= k < s1.len() implies ({
        let f = #[trigger] s1[k];
        &&& in_reach(f.1 as int, f.2 as int, f.3 as int)
        &&& within_decay(f.0, source, steps_from_source(f.1 as int, f.2 as int, f.3 as int))
    }) by {
        if k < s0.len() {
            assert(s1[k] == s0[k]);
        }
    }
}

proof fn lemma_sources_push(
    rays: Seq<Option<LightColor>>,
    s0: Seq<(LightColor, i32, i32, i32)>,
    blocks: Seq<u32>,
    e: (LightColor, i32, i32, i32),
)
    requires
        sources_ok(rays, s0, blocks),
        rays[1687] is Some,
        entry_fed(rays, blocks, e),
    ensures
        sources_ok(rays, s0.push(e), blocks),
{
    reveal(sources_ok);
    let s1 = s0.push(e);
    assert forall|k: int| 0 <= k < s1.len() implies entry_fed(rays, blocks, #[trigger] s1[k]) by {
        if k < s0.len() {
            assert(s1[k] == s0[k]);
        }
    }
}

/// The state after passing the light on across face `d` by pushing an entry
/// for the neighbour there.
proof fn lemma_relax_pushed(
    rays: Seq<Option<LightColor>>,
    dirs0: Seq<[bool; 6]>,
    vis0: Seq<bool>,
    s0: Seq<(LightColor, i32, i32, i32)>,
    blocks: Seq<u32>,
    source: LightColor,
    x: int,
    y: int,
    z: int,
    v: LightColor,
    merged: LightColor,
    prior: Option<LightColor>,
    d: int,
    e: (LightColor, i32, i32, i32),
    dirs1: Seq<[bool; 6]>,
)
    requires
        relax_ok(rays, dirs0, vis0, s0, blocks, source, x, y, z, v, merged, prior, d),
        0 <= d < 6,
        bright(v),
        spreads(blocks, x, y, z),
        source.x <= 15,
        source.y <= 15,
        source.z <= 15,
        e.0 == dimmed(v),
        (e.1 as int, e.2 as int, e.3 as int) == neighbor(x, y, z, d),
        dirs1.len() == dirs0.len(),
        forall|k: int| 0 <= k < 3375 && k != cell_index(x, y, z) ==> dirs1[k] == dirs0[k],
        forall|f: int| 0 <= f < 6 ==> dirs1[cell_index(x, y, z)][f] == (f == d || dirs0[cell_index(x, y, z)][f]),
    ensures
        relax_ok(
            rays,
            dirs1,
            vis0.update(cell_index(e.1 as int, e.2 as int, e.3 as int), true),
            s0.push(e),
            blocks,
            source,
            x,
            y,
            z,
            v,
            merged,
            prior,
            d + 1,
        ),
{
    reveal(relax_ok);
    let nb = neighbor(x, y, z, d);
    let s1 = s0.push(e);
    let last = s1.len() - 1;
    lemma_step_decay(x, y, z, d, v, source);
    lemma_cell_index(nb.0, nb.1, nb.2, nb.0, nb.1, nb.2);
    lemma_propagation_push(rays, dirs0, vis0, s0, source, e, dirs1);
    lemma_relax_facts(rays, dirs0, vis0, s0, blocks, source, x, y, z, v, merged, prior, d);
    lemma_cell_index(x, y, z, x, y, z);
    assert(rays[cell_index(x, y, z)] is Some);
    assert(vis0[cell_index(x, y, z)]);
    lemma_links_push(rays, dirs0, vis0, dirs1, x, y, z, d);
    lemma_tree_push(rays, dirs0, vis0, dirs1, x, y, z, d);
    lemma_keeps_push(rays, s0, e);
    lemma_marks_push(rays, vis0, s0, e);
    assert(entry_at(s1[last], nb.0, nb.1, nb.2));
    assert forall|ch: int| 0 <= ch < 3 && channel_of(v, ch) > 1 implies #[trigger] reaches(
        rays,
        s1,
        neighbor(x, y, z, d),
        ch,
        channel_of(v, ch) - 2,
    ) by {
        assert(entry_at(s1[last], nb.0, nb.1, nb.2) && channel_of(s1[last].0, ch) >= channel_of(v, ch) - 2);
    }
    lemma_spread_step(rays, s0, s1, blocks, x, y, z, v, prior, d);
    lemma_opposite(d);
    let od = opposite(d);
    assert(neighbor(nb.0, nb.1, nb.2, od) == (x, y, z));
    assert(feeds(rays, blocks, nb.0, nb.1, nb.2, od, e.0));
    assert(entry_fed(rays, blocks, e));
    lemma_sources_push(rays, s0, blocks, e);
}

/// The state after passing the light on across face `d` without a new entry,
/// the neighbour there holding or awaiting at least the dimmed light.
proof fn lemma_relax_skipped(
    rays: Seq<Option<LightColor>>,
    dirs: Seq<[bool; 6]>,
    visited: Seq<bool>,
    stack: Seq<(LightColor, i32, i32, i32)>,
    blocks: Seq<u32>,
    source: LightColor,
    x: int,
    y: int,
    z: int,
    v: LightColor,
    merged: LightColor,
    prior: Option<LightColor>,
    d: int,
)
    requires
        relax_ok(rays, dirs, visited, stack, blocks, source, x, y, z, v, merged, prior, d),
        0 <= d < 6,
        bright(v),
        spreads(blocks, x, y, z),
        source.x <= 15,
        source.y <= 15,
        source.z <= 15,
        ({
            let nb = neighbor(x, y, z, d);
            let ex = match ray_at(rays, nb.0, nb.1, nb.2) {
                Some(c) => c,
                None => LightColor { x: 0, y: 0, z: 0 },
            };
            visited[cell_index(nb.0, nb.1, nb.2)] && covers(ex, dimmed(v))
        }),
    ensures
        relax_ok(rays, dirs, visited, stack, blocks, source, x, y, z, v, merged, prior, d + 1),
{
    reveal(marks_ok);
    reveal(relax_ok);
    let nb = neighbor(x, y, z, d);
    lemma_step_decay(x, y, z, d, v, source);
    lemma_cell_index(nb.0, nb.1, nb.2, nb.0, nb.1, nb.2);
    lemma_relax_facts(rays, dirs, visited, stack, blocks, source, x, y, z, v, merged, prior, d);
    lemma_keeps_push(rays, stack, (v, 0, 0, 0));
    assert forall|ch: int| 0 <= ch < 3 && channel_of(v, ch) > 1 implies #[trigger] reaches(
        rays,
        stack,
        neighbor(x, y, z, d),
        ch,
        channel_of(v, ch) - 2,
    ) by {
        if ray_at(rays, nb.0, nb.1, nb.2) is None {
            assert(pending(stack, nb.0, nb.1, nb.2));
            let k = choose|k: int| 0 <= k < stack.len() && #[trigger] entry_at(stack[k], nb.0, nb.1, nb.2);
            assert(entry_at(stack[k], nb.0, nb.1, nb.2) && channel_of(stack[k].0, ch) >= channel_of(v, ch) - 2);
        }
    }
    lemma_spread_step(rays, stack, stack, blocks, x, y, z, v, prior, d);
}

/// Passes the light `v` taken at `(x, y, z)` on across face `d`: the
/// neighbour there gets an entry with the light dimmed by one step unless it
/// was reached before and already holds at least that much.
fn relax_toward(
    rays: &Vec<Option<LightColor>>,
    dirs: &mut Vec<[bool; 6]>,
    visited: &mut Vec<bool>,
    stack: &mut Vec<(LightColor, i32, i32, i32)>,
    blocks: &Vec<u32>,
    source: LightColor,
    x: i32,
    y: i32,
    z: i32,
    i: usize,
    v: LightColor,
    red: LightColor,
    d: usize,
    Ghost(merged): Ghost<LightColor>,
    Ghost(prior): Ghost<Option<LightColor>>,
)
    requires
        relax_ok(
            rays@,
            old(dirs)@,
            old(visited)@,
            old(stack)@,
            blocks@,
            source,
            x as int,
            y as int,
            z as int,
            v,
            merged,
            prior,
            d as int,
        ),
        d < 6,
        bright(v),
        spreads(blocks@, x as int, y as int, z as int),
        red == dimmed(v),
        i == cell_index(x as int, y as int, z as int),
        blocks@.len() == 3375,
        source.x <= 15,
        source.y <= 15,
        source.z <= 15,
    ensures
        relax_ok(
            rays@,
            final(dirs)@,
            final(visited)@,
            final(stack)@,
            blocks@,
            source,
            x as int,
            y as int,
            z as int,
            v,
            merged,
            prior,
            d as int + 1,
        ),
        stack_load(final(stack)@) <= stack_load(old(stack)@) + pow7(weight(red)),
{
    proof {
        lemma_relax_facts(rays@, dirs@, visited@, stack@, blocks@, source, x as int, y as int, z as int, v, merged, prior, d as int);
        lemma_cell_index(x as int, y as int, z as int, x as int, y as int, z as int);
    }
    let offs: [(i32, i32, i32); 6] = [(-1, 0, 0), (1, 0, 0), (0, -1, 0), (0, 1, 0), (0, 0, 1), (0, 0, -1)];
    let o = offs[d];
    proof {
        assert((o.0 as int, o.1 as int, o.2 as int) == face_offset(d as int));
        lemma_step_decay(x as int, y as int, z as int, d as int, v, source);
    }
    let nx = x + o.0;
    let ny = y + o.1;
    let nz = z + o.2;
    let j = cell_of(nx, ny, nz);
    let ex = match rays[j] {
        Some(c) => c,
        None => LightColor { x: 0, y: 0, z: 0 },
    };
    let ghost s0 = stack@;
    let ghost vis0 = visited@;
    let ghost dirs0 = dirs@;
    if !visited[j] || ex.x < red.x || ex.y < red.y || ex.z < red.z {
        stack.push((red, nx, ny, nz));
        visited.set(j, true);
        let ghost dd0 = dirs[i as int];
        let mut dd = dirs[i];
        dd[d] = true;
        dirs.set(i, dd);
        proof {
            assert forall|f: int| 0 <= f < 6 implies dirs@[i as int][f] == (f == d || dirs0[i as int][f]) by {
                assert(dd@ == dd0@.update(d as int, true));
            }
            lemma_stack_load_push(s0, (red, nx, ny, nz));
            lemma_relax_pushed(
                rays@,
                dirs0,
                vis0,
                s0,
                blocks@,
                source,
                x as int,
                y as int,
                z as int,
                v,
                merged,
                prior,
                d as int,
                (red, nx, ny, nz),
                dirs@,
            );
        }
    } else {
        proof {
            lemma_relax_skipped(
                rays@,
                dirs@,
                visited@,
                stack@,
                blocks@,
                source,
                x as int,
                y as int,
                z as int,
                v,
                merged,
                prior,
                d as int,
            );
        }
    }
}

/// Whether channel `ch` of the ray at offset `p` is at least `need`.
pub open spec fn holds_at_least(rays: Seq<Option<LightColor>>, p: (int, int, int), ch: int, need: int) -> bool {
    &&& in_reach(p.0, p.1, p.2)
    &&& match ray_at(rays, p.0, p.1, p.2) {
        Some(q) => channel_of(q, ch) >= need,
        None => false,
    }
}

/// Whether the ray at an offset has been passed on: where light spreads on
/// from there, every neighbour holds each channel of it that is above 1, less 2.
pub open spec fn passed_on(rays: Seq<Option<LightColor>>, blocks: Seq<u32>, x: int, y: int, z: int) -> bool {
    match ray_at(rays, x, y, z) {
        Some(r) => spreads(blocks, x, y, z) ==> forall|d: int, ch: int|
            0 <= d < 6 && 0 <= ch < 3 && channel_of(r, ch) > 1 ==> #[trigger] holds_at_least(
                rays,
                neighbor(x, y, z, d),
                ch,
                channel_of(r, ch) - 2,
            ),
        None => true,
    }
}

/// Whether every face marked at a cell leads from a ray to a ray inside the cube.
pub open spec fn links_lead_to_rays(rays: Seq<Option<LightColor>>, dirs: Seq<[bool; 6]>) -> bool {
    forall|a: int, b: int, c: int, d: int|
        in_reach(a, b, c) && 0 <= d < 6 && #[trigger] dirs[cell_index(a, b, c)][d] ==> {
            let p = neighbor(a, b, c, d);
            &&& ray_at(rays, a, b, c) is Some
            &&& in_reach(p.0, p.1, p.2)
            &&& ray_at(rays, p.0, p.1, p.2) is Some
        }
}

/// Whether the rays form a tree rooted at the source along the marked faces:
/// under some ranking, every ray but the source's has a neighbour holding a ray
/// that comes earlier and marks the face towards it.
pub open spec fn spread_tree(rays: Seq<Option<LightColor>>, dirs: Seq<[bool; 6]>) -> bool {
    exists|rank: Seq<int>|
        rank.len() == 3375 && forall|a: int, b: int, c: int|
            in_reach(a, b, c) && !(a == 0 && b == 0 && c == 0) && (#[trigger] ray_at(rays, a, b, c)) is Some ==> exists|
                d: int,
            | 0 <= d < 6 && #[trigger] tree_parent(rays, dirs, rank, a, b, c, d)
}

proof fn lemma_state_final(
    rays: Seq<Option<LightColor>>,
    dirs: Seq<[bool; 6]>,
    visited: Seq<bool>,
    blocks: Seq<u32>,
    source: LightColor,
)
    requires
        state_ok(rays, dirs, visited, Seq::empty(), blocks, source),
    ensures
        rays.len() == 3375,
        dirs.len() == 3375,
        rays[1687] == Some(source),
        forall|x: int, y: int, z: int|
            in_reach(x, y, z) ==> match #[trigger] ray_at(rays, x, y, z) {
                Some(r) => within_decay(r, source, steps_from_source(x, y, z)),
                None => true,
            },
        forall|x: int, y: int, z: int| in_reach(x, y, z) ==> #[trigger] passed_on(rays, blocks, x, y, z),
        forall|x: int, y: int, z: int|
            in_reach(x, y, z) && !(x == 0 && y == 0 && z == 0) ==> match #[trigger] ray_at(rays, x, y, z) {
                Some(r) => sourced(rays, blocks, x, y, z, r),
                None => true,
            },
        links_lead_to_rays(rays, dirs),
        spread_tree(rays, dirs),
{
    reveal(state_ok);
    reveal(propagation_ok);
    reveal(sources_ok);
    reveal(links_ok);
    reveal(tree_ok);
    let empty = Seq::<(LightColor, i32, i32, i32)>::empty();
    assert forall|x: int, y: int, z: int| in_reach(x, y, z) implies #[trigger] passed_on(rays, blocks, x, y, z) by {
        assert(spread_done(rays, empty, blocks, x, y, z));
        if let Some(r) = ray_at(rays, x, y, z) {
            if spreads(blocks, x, y, z) {
                assert forall|d: int, ch: int| 0 <= d < 6 && 0 <= ch < 3 && channel_of(r, ch) > 1 implies #[trigger] holds_at_least(
                    rays,
                    neighbor(x, y, z, d),
                    ch,
                    channel_of(r, ch) - 2,
                ) by {
                    assert(reaches(rays, empty, neighbor(x, y, z, d), ch, channel_of(r, ch) - 2));
                }
            }
        }
    }
    assert forall|a: int, b: int, c: int, d: int| in_reach(a, b, c) && 0 <= d < 6 && #[trigger] dirs[cell_index(a, b, c)][d] implies ({
        let p = neighbor(a, b, c, d);
        &&& ray_at(rays, a, b, c) is Some
        &&& in_reach(p.0, p.1, p.2)
        &&& ray_at(rays, p.0, p.1, p.2) is Some
    }) by {
        let p = neighbor(a, b, c, d);
        assert(visited[cell_index(p.0, p.1, p.2)]);
        assert(!pending(empty, p.0, p.1, p.2));
    }
    let (rank, counter) = choose|rank: Seq<int>, counter: int| tree_with(rays, dirs, visited, rank, counter);
    assert forall|a: int, b: int, c: int|
        in_reach(a, b, c) && !(a == 0 && b == 0 && c == 0) && (#[trigger] ray_at(rays, a, b, c)) is Some implies exists|d: int|
        0 <= d < 6 && #[trigger] tree_parent(rays, dirs, rank, a, b, c, d) by {
        assert(visited[cell_index(a, b, c)]);
    }
}

/// The light a source of colour `source` casts over the cube of cells around
/// it, given the block values of those cells (`blocks`, indexed by
/// `cell_index`). Light spreads from the source and from every cell it lights
/// that lets light through, losing 2 per channel and step, as long as some
/// channel is above 1; a cell keeps the brightest light that reached it.
pub fn propagate_light(blocks: &Vec<u32>, source: LightColor) -> (f: OriginLight)
    requires
        blocks@.len() == 3375,
        source.x <= 15,
        source.y <= 15,
        source.z <= 15,
    ensures
        f.rays@.len() == 3375,
        f.dirs@.len() == 3375,
        f.rays@[1687] == Some(source),
        forall|x: int, y: int, z: int|
            in_reach(x, y, z) ==> match #[trigger] ray_at(f.rays@, x, y, z) {
                Some(r) => within_decay(r, source, steps_from_source(x, y, z)),
                None => true,
            },
        forall|x: int, y: int, z: int| in_reach(x, y, z) ==> #[trigger] passed_on(f.rays@, blocks@, x, y, z),
        forall|x: int, y: int, z: int|
            in_reach(x, y, z) && !(x == 0 && y == 0 && z == 0) ==> match #[trigger] ray_at(f.rays@, x, y, z) {
                Some(r) => sourced(f.rays@, blocks@, x, y, z, r),
                None => true,
            },
        links_lead_to_rays(f.rays@, f.dirs@),
        links_in_cube(f.rays@, f.dirs@),
        spread_tree(f.rays@, f.dirs@),
{
    let mut rays: Vec<Option<LightColor>> = Vec::new();
    let mut dirs: Vec<[bool; 6]> = Vec::new();
    let mut visited: Vec<bool> = Vec::new();
    let mut i: usize = 0;
    while i < 3375
        invariant
            0 <= i <= 3375,
            rays@ == Seq::new(i as nat, |j: int| None::<LightColor>),
            dirs@ == Seq::new(i as nat, |j: int| [false, false, false, false, false, false]),
            visited@ == Seq::new(i as nat, |j: int| false),
        decreases 3375 - i,
    {
        rays.push(None);
        dirs.push([false, false, false, false, false, false]);
        visited.push(false);
        i = i + 1;
        assert(rays@ =~= Seq::new(i as nat, |j: int| None::<LightColor>));
        assert(dirs@ =~= Seq::new(i as nat, |j: int| [false, false, false, false, false, false]));
        assert(visited@ =~= Seq::new(i as nat, |j: int| false));
    }
    visited.set(1687, true);
    let mut stack: Vec<(LightColor, i32, i32, i32)> = Vec::new();
    stack.push((source, 0, 0, 0));
    proof {
        assert(stack@ =~= seq![(source, 0i32, 0i32, 0i32)]);
        lemma_state_start(rays@, dirs@, visited@, stack@, blocks@, source);
    }
    while stack.len() > 0
        invariant
            blocks@.len() == 3375,
            source.x <= 15,
            source.y <= 15,
            source.z <= 15,
            state_ok(rays@, dirs@, visited@, stack@, blocks@, source),
        decreases stack_load(stack@),
    {
        let ghost before = stack@;
        let ghost old_rays = rays@;
        proof {
            lemma_state_top(rays@, dirs@, visited@, stack@, blocks@, source);
        }
        let n = stack.pop().unwrap();
        let (v, x, y, z) = n;
        proof {
            assert(stack@ =~= before.drop_last());
        }
        let i = cell_of(x, y, z);
        let going = passes_light(blocks[i]) || (x == 0 && y == 0 && z == 0);
        let merged = match rays[i] {
            Some(c) => LightColor {
                x: if c.x < v.x { v.x } else { c.x },
                y: if c.y < v.y { v.y } else { c.y },
                z: if c.z < v.z { v.z } else { c.z },
            },
            None => v,
        };
        rays.set(i, Some(merged));
        let ghost prior = old_rays[i as int];
        proof {
            lemma_after_merge(old_rays, dirs@, visited@, before, blocks@, source, rays@, stack@, v, x, y, z, merged);
            lemma_pow7_pos(weight(v));
        }
        let ghost base = stack_load(stack@);
        let ghost mut dd: int = 0;
        if going && (v.x > 1 || v.y > 1 || v.z > 1) {
            let red = dim(v);
            let ghost p = pow7((weight(v) - 1) as nat);
            proof {
                lemma_pow7_mono(weight(red), (weight(v) - 1) as nat);
                lemma_pow7_pos((weight(v) - 1) as nat);
            }
            let mut d: usize = 0;
            while d < 6
                invariant
                    0 <= d <= 6,
                    blocks@.len() == 3375,
                    source.x <= 15,
                    source.y <= 15,
                    source.z <= 15,
                    relax_ok(
                        rays@,
                        dirs@,
                        visited@,
                        stack@,
                        blocks@,
                        source,
                        x as int,
                        y as int,
                        z as int,
                        v,
                        merged,
                        prior,
                        d as int,
                    ),
                    i == cell_index(x as int, y as int, z as int),
                    bright(v),
                    spreads(blocks@, x as int, y as int, z as int),
                    red == dimmed(v),
                    pow7(weight(red)) <= p,
                    stack_load(stack@) <= base + d * p,
                decreases 6 - d,
            {
                proof {
                    assert((d + 1) * p == d * p + p) by (nonlinear_arith);
                }
                relax_toward(
                    &rays,
                    &mut dirs,
                    &mut visited,
                    &mut stack,
                    blocks,
                    source,
                    x,
                    y,
                    z,
                    i,
                    v,
                    red,
                    d,
                    Ghost(merged),
                    Ghost(prior),
                );
                d = d + 1;
            }
            proof {
                dd = 6;
                assert(pow7(weight(v)) == 7 * p);
                assert(6 * p < 7 * p) by (nonlinear_arith)
                    requires
                        p >= 1,
                ;
            }
        }
        proof {
            assert(going == spreads(blocks@, x as int, y as int, z as int));
            lemma_finish_cell(rays@, dirs@, visited@, stack@, blocks@, source, x as int, y as int, z as int, v, merged, prior, dd);
        }
    }
    proof {
        assert(stack@ =~= Seq::<(LightColor, i32, i32, i32)>::empty());
        lemma_state_final(rays@, dirs@, visited@, blocks@, source);
    }
    OriginLight { rays, dirs }
}

/// The number of cells that hold a ray.
pub open spec fn ray_count(rays: Seq<Option<LightColor>>) -> nat
    decreases rays.len(),
{
    if rays.len() == 0 {
        0
    } else {
        ray_count(rays.drop_last()) + if rays.last() is Some { 1nat } else { 0nat }
    }
}

proof fn lemma_ray_count_remove(rays: Seq<Option<LightColor>>, i: int)
    requires
        0 <= i < rays.len(),
        rays[i] is Some,
    ensures
        ray_count(rays.update(i, None)) + 1 == ray_count(rays),
    decreases rays.len(),
{
    let r2 = rays.update(i, None);
    if i == rays.len() - 1 {
        assert(r2.drop_last() =~= rays.drop_last());
    } else {
        assert(r2.drop_last() =~= rays.drop_last().update(i, None));
        lemma_ray_count_remove(rays.drop_last(), i);
    }
}

/// Whether a cell held a ray before and holds none now.
pub open spec fn removed_at(
    old_rays: Seq<Option<LightColor>>,
    rays: Seq<Option<LightColor>>,
    a: int,
    b: int,
    c: int,
) -> bool {
    ray_at(old_rays, a, b, c) is Some && ray_at(rays, a, b, c) is None
}

/// Whether every face marked at a cell holding a ray leads into the cube.
pub open spec fn links_in_cube(rays: Seq<Option<LightColor>>, dirs: Seq<[bool; 6]>) -> bool {
    forall|a: int, b: int, c: int, d: int|
        in_reach(a, b, c) && 0 <= d < 6 && ray_at(rays, a, b, c) is Some && #[trigger] dirs[cell_index(a, b, c)][d]
            ==> in_reach(neighbor(a, b, c, d).0, neighbor(a, b, c, d).1, neighbor(a, b, c, d).2)
}

/// Removing rays changes nothing else: a ray left is as it was, with its
/// faces; a removed ray loses its faces; a cell without a ray stays so.
pub open spec fn only_removed(
    old_rays: Seq<Option<LightColor>>,
    old_dirs: Seq<[bool; 6]>,
    rays: Seq<Option<LightColor>>,
    dirs: Seq<[bool; 6]>,
) -> bool {
    &&& rays.len() == 3375
    &&& dirs.len() == 3375
    &&& forall|i: int|
        0 <= i < 3375 ==> {
            ||| (#[trigger] rays[i] == old_rays[i] && dirs[i] == old_dirs[i])
            ||| (old_rays[i] is Some && rays[i] is None && dirs[i] == [false, false, false, false, false, false])
        }
}

/// Whether the removal reached everything linked from the source: the
/// source's ray is gone, and every face marked at a removed ray leads to a
/// cell without a ray.
pub open spec fn removal_closed(
    old_rays: Seq<Option<LightColor>>,
    old_dirs: Seq<[bool; 6]>,
    rays: Seq<Option<LightColor>>,
) -> bool {
    &&& (old_rays[1687] is Some ==> rays[1687] is None)
    &&& forall|a: int, b: int, c: int, d: int|
        in_reach(a, b, c) && 0 <= d < 6 && removed_at(old_rays, rays, a, b, c) && #[trigger] old_dirs[cell_index(
            a,
            b,
            c,
        )][d] ==> ray_at(rays, neighbor(a, b, c, d).0, neighbor(a, b, c, d).1, neighbor(a, b, c, d).2) is None
}

/// Whether the neighbour across face `d` of a removed ray was removed too,
/// marked the face towards it, and comes earlier in `rank`.
pub open spec fn removal_parent(
    old_rays: Seq<Option<LightColor>>,
    old_dirs: Seq<[bool; 6]>,
    rays: Seq<Option<LightColor>>,
    rank: Seq<int>,
    a: int,
    b: int,
    c: int,
    d: int,
) -> bool {
    let p = neighbor(a, b, c, d);
    &&& in_reach(p.0, p.1, p.2)
    &&& removed_at(old_rays, rays, p.0, p.1, p.2)
    &&& old_dirs[cell_index(p.0, p.1, p.2)][opposite(d)]
    &&& 0 <= rank[cell_index(p.0, p.1, p.2)] < rank[cell_index(a, b, c)]
}

/// Whether only rays linked from the source were removed: under some ranking,
/// every removed ray but the source's has an earlier removed neighbour that
/// marked the face towards it.
pub open spec fn removal_supported(
    old_rays: Seq<Option<LightColor>>,
    old_dirs: Seq<[bool; 6]>,
    rays: Seq<Option<LightColor>>,
) -> bool {
    exists|rank: Seq<int>|
        rank.len() == 3375 && forall|a: int, b: int, c: int|
            in_reach(a, b, c) && !(a == 0 && b == 0 && c == 0) && #[trigger] removed_at(old_rays, rays, a, b, c) ==> exists|
                d: int,
            | 0 <= d < 6 && #[trigger] removal_parent(old_rays, old_dirs, rays, rank, a, b, c, d)
}

/// The offsets a removal visits: the source, and every cell across a face
/// marked at a removed ray.
pub open spec fn removal_touches(
    old_rays: Seq<Option<LightColor>>,
    old_dirs: Seq<[bool; 6]>,
    rays: Seq<Option<LightColor>>,
    t: (i32, i32, i32),
) -> bool {
    ||| t == (0i32, 0i32, 0i32)
    ||| exists|a: int, b: int, c: int, d: int|
        in_reach(a, b, c) && 0 <= d < 6 && removed_at(old_rays, rays, a, b, c) && #[trigger] old_dirs[cell_index(
            a,
            b,
            c,
        )][d] && neighbor(a, b, c, d) == (t.0 as int, t.1 as int, t.2 as int)
}

/// The neighbour across face `d` as a triple of `i32`.
pub open spec fn neighbor_i32(x: i32, y: i32, z: i32, d: int) -> (i32, i32, i32) {
    let p = neighbor(x as int, y as int, z as int, d);
    (p.0 as i32, p.1 as i32, p.2 as i32)
}

/// The neighbours across the first `n` faces that `ds` marks, in face order.
pub open spec fn marked_neighbors(x: i32, y: i32, z: i32, ds: [bool; 6], n: int) -> Seq<(i32, i32, i32)>
    decreases n,
{
    if n <= 0 {
        seq![]
    } else {
        marked_neighbors(x, y, z, ds, n - 1) + if ds[n - 1] {
            seq![neighbor_i32(x, y, z, n - 1)]
        } else {
            seq![]
        }
    }
}

/// Whether an offset waits on the stack of a removal.
pub open spec fn waiting(stack: Seq<(i32, i32, i32)>, p: (int, int, int)) -> bool {
    exists|k: int| 0 <= k < stack.len() && #[trigger] stack[k] == (p.0 as i32, p.1 as i32, p.2 as i32)
}

/// Whether a waiting offset is the source or sits across a face marked at an
/// earlier removed ray.
pub open spec fn stack_parent(
    old_rays: Seq<Option<LightColor>>,
    old_dirs: Seq<[bool; 6]>,
    rays: Seq<Option<LightColor>>,
    rank: Seq<int>,
    counter: int,
    e: (i32, i32, i32),
) -> bool {
    ||| e == (0i32, 0i32, 0i32)
    ||| exists|d: int|
        0 <= d < 6 && {
            let p = #[trigger] neighbor(e.0 as int, e.1 as int, e.2 as int, d);
            &&& in_reach(p.0, p.1, p.2)
            &&& removed_at(old_rays, rays, p.0, p.1, p.2)
            &&& old_dirs[cell_index(p.0, p.1, p.2)][opposite(d)]
            &&& 0 <= rank[cell_index(p.0, p.1, p.2)] < counter
        }
}

/// A ranking of the removed rays under which each has an earlier removed
/// neighbour that marked the face towards it, and each waiting offset is the
/// source or sits across such a face.
pub open spec fn removal_ranked(
    old_rays: Seq<Option<LightColor>>,
    old_dirs: Seq<[bool; 6]>,
    rays: Seq<Option<LightColor>>,
    stack: Seq<(i32, i32, i32)>,
    rank: Seq<int>,
    counter: int,
) -> bool {
    &&& rank.len() == 3375
    &&& counter >= 0
    &&& forall|a: int, b: int, c: int|
        in_reach(a, b, c) && #[trigger] removed_at(old_rays, rays, a, b, c) ==> 0 <= rank[cell_index(a, b, c)] < counter
    &&& forall|a: int, b: int, c: int|
        in_reach(a, b, c) && !(a == 0 && b == 0 && c == 0) && #[trigger] removed_at(old_rays, rays, a, b, c) ==> exists|
            d: int,
        | 0 <= d < 6 && #[trigger] removal_parent(old_rays, old_dirs, rays, rank, a, b, c, d)
    &&& forall|k: int| 0 <= k < stack.len() ==> stack_parent(old_rays, old_dirs, rays, rank, counter, #[trigger] stack[k])
}

/// The shape of a removal's state: lengths, what changed, links into the
/// cube, and waiting offsets inside it.
#[verifier::opaque]
spec fn removal_shape(
    old_rays: Seq<Option<LightColor>>,
    old_dirs: Seq<[bool; 6]>,
    rays: Seq<Option<LightColor>>,
    dirs: Seq<[bool; 6]>,
    stack: Seq<(i32, i32, i32)>,
) -> bool {
    &&& old_rays.len() == 3375
    &&& old_dirs.len() == 3375
    &&& only_removed(old_rays, old_dirs, rays, dirs)
    &&& links_in_cube(old_rays, old_dirs)
    &&& forall|k: int| 0 <= k < stack.len() ==> in_reach((#[trigger] stack[k]).0 as int, stack[k].1 as int, stack[k].2 as int)
}

/// What a removal still owes: the source and every cell across a face marked
/// at a removed ray has lost its ray and been visited, or waits on the stack.
#[verifier::opaque]
spec fn removal_pending(
    old_rays: Seq<Option<LightColor>>,
    old_dirs: Seq<[bool; 6]>,
    rays: Seq<Option<LightColor>>,
    stack: Seq<(i32, i32, i32)>,
    touched: Seq<(i32, i32, i32)>,
) -> bool {
    &&& (old_rays[1687] is Some ==> rays[1687] is None || waiting(stack, (0, 0, 0)))
    &&& touched.contains((0i32, 0i32, 0i32)) || waiting(stack, (0, 0, 0))
    &&& forall|a: int, b: int, c: int, d: int|
        in_reach(a, b, c) && 0 <= d < 6 && removed_at(old_rays, rays, a, b, c) && #[trigger] old_dirs[cell_index(
            a,
            b,
            c,
        )][d] ==> {
            let p = neighbor(a, b, c, d);
            &&& ray_at(rays, p.0, p.1, p.2) is None || waiting(stack, p)
            &&& touched.contains((p.0 as i32, p.1 as i32, p.2 as i32)) || waiting(stack, p)
        }
}

/// Every visited or waiting offset is one the removal touches.
#[verifier::opaque]
spec fn removal_touch_sound(
    old_rays: Seq<Option<LightColor>>,
    old_dirs: Seq<[bool; 6]>,
    rays: Seq<Option<LightColor>>,
    stack: Seq<(i32, i32, i32)>,
    touched: Seq<(i32, i32, i32)>,
) -> bool {
    &&& forall|k: int| 0 <= k < touched.len() ==> removal_touches(old_rays, old_dirs, rays, #[trigger] touched[k])
    &&& forall|k: int| 0 <= k < stack.len() ==> removal_touches(old_rays, old_dirs, rays, #[trigger] stack[k])
}

/// Some ranking supports the removal so far.
#[verifier::opaque]
spec fn removal_rank_ok(
    old_rays: Seq<Option<LightColor>>,
    old_dirs: Seq<[bool; 6]>,
    rays: Seq<Option<LightColor>>,
    stack: Seq<(i32, i32, i32)>,
) -> bool {
    exists|rank: Seq<int>, counter: int| #[trigger] removal_ranked(old_rays, old_dirs, rays, stack, rank, counter)
}

/// The state of a removal between steps.
spec fn removal_ok(
    old_rays: Seq<Option<LightColor>>,
    old_dirs: Seq<[bool; 6]>,
    rays: Seq<Option<LightColor>>,
    dirs: Seq<[bool; 6]>,
    stack: Seq<(i32, i32, i32)>,
    touched: Seq<(i32, i32, i32)>,
) -> bool {
    &&& removal_shape(old_rays, old_dirs, rays, dirs, stack)
    &&& removal_pending(old_rays, old_dirs, rays, stack, touched)
    &&& removal_touch_sound(old_rays, old_dirs, rays, stack, touched)
    &&& removal_rank_ok(old_rays, old_dirs, rays, stack)
}

/// Whether `t` is the neighbour across one of the first `n` faces that `ds` marks.
pub open spec fn from_marked(x: i32, y: i32, z: i32, ds: [bool; 6], n: int, t: (i32, i32, i32)) -> bool {
    exists|e: int| 0 <= e < n && ds[e] && #[trigger] neighbor_i32(x, y, z, e) == t
}

proof fn lemma_marked_neighbors(x: i32, y: i32, z: i32, ds: [bool; 6], n: int)
    requires
        0 <= n <= 6,
    ensures
        forall|e: int| 0 <= e < n && ds[e] ==> marked_neighbors(x, y, z, ds, n).contains(neighbor_i32(x, y, z, e)),
        forall|k: int|
            0 <= k < marked_neighbors(x, y, z, ds, n).len() ==> from_marked(
                x,
                y,
                z,
                ds,
                n,
                #[trigger] marked_neighbors(x, y, z, ds, n)[k],
            ),
    decreases n,
{
    if n > 0 {
        lemma_marked_neighbors(x, y, z, ds, n - 1);
        let prev = marked_neighbors(x, y, z, ds, n - 1);
        let cur = marked_neighbors(x, y, z, ds, n);
        assert forall|e: int| 0 <= e < n && ds[e] implies cur.contains(neighbor_i32(x, y, z, e)) by {
            if e < n - 1 {
                let k = choose|k: int| 0 <= k < prev.len() && prev[k] == neighbor_i32(x, y, z, e);
                assert(cur[k] == prev[k]);
            } else {
                assert(cur[prev.len() as int] == neighbor_i32(x, y, z, e));
            }
        }
        assert forall|k: int| 0 <= k < cur.len() implies from_marked(x, y, z, ds, n, #[trigger] cur[k]) by {
            if k < prev.len() {
                assert(cur[k] == prev[k]);
                assert(from_marked(x, y, z, ds, n - 1, prev[k]));
                let e = choose|e: int| 0 <= e < n - 1 && ds[e] && #[trigger] neighbor_i32(x, y, z, e) == prev[k];
                assert(neighbor_i32(x, y, z, e) == cur[k]);
            } else {
                assert(cur[k] == neighbor_i32(x, y, z, n - 1));
            }
        }
    }
}

proof fn lemma_removal_start(old_rays: Seq<Option<LightColor>>, old_dirs: Seq<[bool; 6]>)
    requires
        old_rays.len() == 3375,
        old_dirs.len() == 3375,
        links_in_cube(old_rays, old_dirs),
    ensures
        removal_ok(old_rays, old_dirs, old_rays, old_dirs, seq![(0i32, 0i32, 0i32)], seq![]),
{
    reveal(removal_shape);
    reveal(removal_pending);
    reveal(removal_touch_sound);
    reveal(removal_rank_ok);
    let stack = seq![(0i32, 0i32, 0i32)];
    assert(stack[0] == (0i32, 0i32, 0i32));
    assert(waiting(stack, (0, 0, 0)));
    let rank = Seq::new(3375, |i: int| 0int);
    assert(removal_ranked(old_rays, old_dirs, old_rays, stack, rank, 0));
}

/// What the top of a good removal stack says.
proof fn lemma_removal_top(
    old_rays: Seq<Option<LightColor>>,
    old_dirs: Seq<[bool; 6]>,
    rays: Seq<Option<LightColor>>,
    dirs: Seq<[bool; 6]>,
    stack: Seq<(i32, i32, i32)>,
    touched: Seq<(i32, i32, i32)>,
)
    requires
        removal_ok(old_rays, old_dirs, rays, dirs, stack, touched),
        stack.len() > 0,
    ensures
        in_reach(stack.last().0 as int, stack.last().1 as int, stack.last().2 as int),
        rays.len() == 3375,
        dirs.len() == 3375,
        old_rays.len() == 3375,
        old_dirs.len() == 3375,
        links_in_cube(old_rays, old_dirs),
        ({
            let c = stack.last();
            let ci = cell_index(c.0 as int, c.1 as int, c.2 as int);
            rays[ci] is Some ==> rays[ci] == old_rays[ci] && dirs[ci] == old_dirs[ci]
        }),
        ({
            let c = stack.last();
            let ci = cell_index(c.0 as int, c.1 as int, c.2 as int);
            forall|e: int|
                0 <= e < 6 && rays[ci] is Some && old_dirs[ci][e] ==> in_reach(
                    neighbor(c.0 as int, c.1 as int, c.2 as int, e).0,
                    neighbor(c.0 as int, c.1 as int, c.2 as int, e).1,
                    neighbor(c.0 as int, c.1 as int, c.2 as int, e).2,
                )
        }),
{
    reveal(removal_shape);
    let c = stack[stack.len() - 1];
    assert(c == stack.last());
    let (x, y, z) = (c.0 as int, c.1 as int, c.2 as int);
    lemma_cell_index(x, y, z, x, y, z);
    let ci = cell_index(x, y, z);
    assert(rays[ci] == old_rays[ci] && dirs[ci] == old_dirs[ci] || old_rays[ci] is Some && rays[ci] is None);
    assert forall|e: int| 0 <= e < 6 && rays[ci] is Some && old_dirs[ci][e] implies in_reach(
        neighbor(x, y, z, e).0,
        neighbor(x, y, z, e).1,
        neighbor(x, y, z, e).2,
    ) by {
        assert(ray_at(old_rays, x, y, z) is Some);
        assert(old_dirs[cell_index(x, y, z)][e]);
    }
}

proof fn lemma_waiting_pop(stack: Seq<(i32, i32, i32)>, p: (int, int, int))
    requires
        stack.len() > 0,
        waiting(stack, p),
    ensures
        waiting(stack.drop_last(), p) || stack.last() == (p.0 as i32, p.1 as i32, p.2 as i32),
{
    let k = choose|k: int| 0 <= k < stack.len() && #[trigger] stack[k] == (p.0 as i32, p.1 as i32, p.2 as i32);
    if k < stack.len() - 1 {
        assert(stack.drop_last()[k] == stack[k]);
    }
}

proof fn lemma_ranked_keep(
    old_rays: Seq<Option<LightColor>>,
    old_dirs: Seq<[bool; 6]>,
    rays: Seq<Option<LightColor>>,
    stack: Seq<(i32, i32, i32)>,
    s2: Seq<(i32, i32, i32)>,
    rank: Seq<int>,
    counter: int,
)
    requires
        removal_ranked(old_rays, old_dirs, rays, stack, rank, counter),
        forall|k: int| 0 <= k < s2.len() ==> stack.contains(#[trigger] s2[k]),
    ensures
        removal_ranked(old_rays, old_dirs, rays, s2, rank, counter),
{
    assert forall|k: int| 0 <= k < s2.len() implies stack_parent(old_rays, old_dirs, rays, rank, counter, #[trigger] s2[k]) by {
        let j = choose|j: int| 0 <= j < stack.len() && stack[j] == s2[k];
        assert(stack_parent(old_rays, old_dirs, rays, rank, counter, stack[j]));
    }
}

proof fn lemma_pop_none_shape(
    old_rays: Seq<Option<LightColor>>,
    old_dirs: Seq<[bool; 6]>,
    rays: Seq<Option<LightColor>>,
    dirs: Seq<[bool; 6]>,
    stack: Seq<(i32, i32, i32)>,
)
    requires
        removal_shape(old_rays, old_dirs, rays, dirs, stack),
        stack.len() > 0,
    ensures
        removal_shape(old_rays, old_dirs, rays, dirs, stack.drop_last()),
{
    reveal(removal_shape);
    let s2 = stack.drop_last();
    assert forall|k: int| 0 <= k < s2.len() implies in_reach((#[trigger] s2[k]).0 as int, s2[k].1 as int, s2[k].2 as int) by {
        assert(s2[k] == stack[k]);
    }
}

proof fn lemma_pop_none_pending(
    old_rays: Seq<Option<LightColor>>,
    old_dirs: Seq<[bool; 6]>,
    rays: Seq<Option<LightColor>>,
    stack: Seq<(i32, i32, i32)>,
    touched: Seq<(i32, i32, i32)>,
)
    requires
        removal_pending(old_rays, old_dirs, rays, stack, touched),
        stack.len() > 0,
        in_reach(stack.last().0 as int, stack.last().1 as int, stack.last().2 as int),
        ray_at(rays, stack.last().0 as int, stack.last().1 as int, stack.last().2 as int) is None,
    ensures
        removal_pending(old_rays, old_dirs, rays, stack.drop_last(), touched.push(stack.last())),
{
    reveal(removal_pending);
    let c = stack.last();
    let s2 = stack.drop_last();
    let t2 = touched.push(c);
    assert(t2[touched.len() as int] == c);
    lemma_cell_index(c.0 as int, c.1 as int, c.2 as int, 0, 0, 0);
    if old_rays[1687] is Some && rays[1687] is Some {
        lemma_waiting_pop(stack, (0, 0, 0));
    }
    if !touched.contains((0i32, 0i32, 0i32)) {
        lemma_waiting_pop(stack, (0, 0, 0));
    } else {
        let j = choose|j: int| 0 <= j < touched.len() && touched[j] == (0i32, 0i32, 0i32);
        assert(t2[j] == touched[j]);
    }
    assert forall|a: int, b: int, cc: int, d: int|
        in_reach(a, b, cc) && 0 <= d < 6 && removed_at(old_rays, rays, a, b, cc) && #[trigger] old_dirs[cell_index(
            a,
            b,
            cc,
        )][d] implies ({
        let p = neighbor(a, b, cc, d);
        &&& ray_at(rays, p.0, p.1, p.2) is None || waiting(s2, p)
        &&& t2.contains((p.0 as i32, p.1 as i32, p.2 as i32)) || waiting(s2, p)
    }) by {
        let p = neighbor(a, b, cc, d);
        if waiting(stack, p) {
            lemma_waiting_pop(stack, p);
        }
        if touched.contains((p.0 as i32, p.1 as i32, p.2 as i32)) {
            let j = choose|j: int| 0 <= j < touched.len() && touched[j] == (p.0 as i32, p.1 as i32, p.2 as i32);
            assert(t2[j] == touched[j]);
        }
    }
}

proof fn lemma_pop_touch(
    old_rays: Seq<Option<LightColor>>,
    old_dirs: Seq<[bool; 6]>,
    rays: Seq<Option<LightColor>>,
    stack: Seq<(i32, i32, i32)>,
    touched: Seq<(i32, i32, i32)>,
)
    requires
        removal_touch_sound(old_rays, old_dirs, rays, stack, touched),
        stack.len() > 0,
    ensures
        removal_touch_sound(old_rays, old_dirs, rays, stack.drop_last(), touched.push(stack.last())),
        removal_touches(old_rays, old_dirs, rays, stack.last()),
{
    reveal(removal_touch_sound);
    let last = stack.len() - 1;
    let s2 = stack.drop_last();
    let t2 = touched.push(stack.last());
    assert(stack[last] == stack.last());
    assert forall|k: int| 0 <= k < t2.len() implies removal_touches(old_rays, old_dirs, rays, #[trigger] t2[k]) by {
        if k < touched.len() {
            assert(t2[k] == touched[k]);
        } else {
            assert(t2[k] == stack[last]);
        }
    }
    assert forall|k: int| 0 <= k < s2.len() implies removal_touches(old_rays, old_dirs, rays, #[trigger] s2[k]) by {
        assert(s2[k] == stack[k]);
    }
}

proof fn lemma_pop_none_rank(
    old_rays: Seq<Option<LightColor>>,
    old_dirs: Seq<[bool; 6]>,
    rays: Seq<Option<LightColor>>,
    stack: Seq<(i32, i32, i32)>,
)
    requires
        removal_rank_ok(old_rays, old_dirs, rays, stack),
        stack.len() > 0,
    ensures
        removal_rank_ok(old_rays, old_dirs, rays, stack.drop_last()),
{
    reveal(removal_rank_ok);
    let s2 = stack.drop_last();
    let (rank, counter) = choose|rank: Seq<int>, counter: int| #[trigger] removal_ranked(old_rays, old_dirs, rays, stack, rank, counter);
    assert forall|k: int| 0 <= k < s2.len() implies stack.contains(#[trigger] s2[k]) by {
        assert(stack[k] == s2[k]);
    }
    lemma_ranked_keep(old_rays, old_dirs, rays, stack, s2, rank, counter);
    assert(removal_ranked(old_rays, old_dirs, rays, s2, rank, counter));
}

/// Whether `s2` keeps every waiting offset of `s1`.
pub open spec fn stack_extends(s1: Seq<(i32, i32, i32)>, s2: Seq<(i32, i32, i32)>) -> bool {
    s1.len() <= s2.len() && forall|k: int| 0 <= k < s1.len() ==> #[trigger] s2[k] == s1[k]
}

proof fn lemma_waiting_extends(s1: Seq<(i32, i32, i32)>, s2: Seq<(i32, i32, i32)>, p: (int, int, int))
    requires
        stack_extends(s1, s2),
        waiting(s1, p),
    ensures
        waiting(s2, p),
{
    let k = choose|k: int| 0 <= k < s1.len() && #[trigger] s1[k] == (p.0 as i32, p.1 as i32, p.2 as i32);
    assert(s2[k] == s1[k]);
}

proof fn lemma_pop_some_shape(
    old_rays: Seq<Option<LightColor>>,
    old_dirs: Seq<[bool; 6]>,
    rays: Seq<Option<LightColor>>,
    dirs: Seq<[bool; 6]>,
    stack: Seq<(i32, i32, i32)>,
)
    requires
        removal_shape(old_rays, old_dirs, rays, dirs, stack),
        stack.len() > 0,
        ({
            let c = stack.last();
            rays[cell_index(c.0 as int, c.1 as int, c.2 as int)] is Some
        }),
    ensures
        ({
            let c = stack.last();
            let ci = cell_index(c.0 as int, c.1 as int, c.2 as int);
            removal_shape(
                old_rays,
                old_dirs,
                rays.update(ci, None),
                dirs.update(ci, [false, false, false, false, false, false]),
                stack.drop_last() + marked_neighbors(c.0, c.1, c.2, old_dirs[ci], 6),
            )
        }),
{
    reveal(removal_shape);
    let c = stack.last();
    let last = stack.len() - 1;
    assert(stack[last] == c);
    let (x, y, z) = (c.0 as int, c.1 as int, c.2 as int);
    lemma_cell_index(x, y, z, x, y, z);
    let ci = cell_index(x, y, z);
    let rays2 = rays.update(ci, None);
    let dirs2 = dirs.update(ci, [false, false, false, false, false, false]);
    let ds = old_dirs[ci];
    let extra = marked_neighbors(c.0, c.1, c.2, ds, 6);
    let s2 = stack.drop_last() + extra;
    assert(rays[ci] == old_rays[ci] && dirs[ci] == old_dirs[ci] || old_rays[ci] is Some && rays[ci] is None);
    assert forall|i: int| 0 <= i < 3375 implies {
        ||| (#[trigger] rays2[i] == old_rays[i] && dirs2[i] == old_dirs[i])
        ||| (old_rays[i] is Some && rays2[i] is None && dirs2[i] == [false, false, false, false, false, false])
    } by {
        if i != ci {
            assert(rays2[i] == rays[i] && dirs2[i] == dirs[i]);
        }
    }
    lemma_marked_neighbors(c.0, c.1, c.2, ds, 6);
    assert forall|k: int| 0 <= k < s2.len() implies in_reach((#[trigger] s2[k]).0 as int, s2[k].1 as int, s2[k].2 as int) by {
        if k < last {
            assert(s2[k] == stack[k]);
        } else {
            let t = extra[k - last];
            assert(s2[k] == t);
            assert(from_marked(c.0, c.1, c.2, ds, 6, extra[k - last]));
            let e = choose|e: int| 0 <= e < 6 && ds[e] && #[trigger] neighbor_i32(c.0, c.1, c.2, e) == t;
            assert(ray_at(old_rays, x, y, z) is Some);
            assert(old_dirs[cell_index(x, y, z)][e]);
        }
    }
}

proof fn lemma_pop_some_pending(
    old_rays: Seq<Option<LightColor>>,
    old_dirs: Seq<[bool; 6]>,
    rays: Seq<Option<LightColor>>,
    stack: Seq<(i32, i32, i32)>,
    touched: Seq<(i32, i32, i32)>,
)
    requires
        removal_pending(old_rays, old_dirs, rays, stack, touched),
        stack.len() > 0,
        rays.len() == 3375,
        old_rays.len() == 3375,
        links_in_cube(old_rays, old_dirs),
        in_reach(stack.last().0 as int, stack.last().1 as int, stack.last().2 as int),
        ({
            let c = stack.last();
            let ci = cell_index(c.0 as int, c.1 as int, c.2 as int);
            rays[ci] is Some && old_rays[ci] is Some
        }),
    ensures
        ({
            let c = stack.last();
            let ci = cell_index(c.0 as int, c.1 as int, c.2 as int);
            removal_pending(
                old_rays,
                old_dirs,
                rays.update(ci, None),
                stack.drop_last() + marked_neighbors(c.0, c.1, c.2, old_dirs[ci], 6),
                touched.push(c),
            )
        }),
{
    reveal(removal_pending);
    let c = stack.last();
    let (x, y, z) = (c.0 as int, c.1 as int, c.2 as int);
    lemma_cell_index(x, y, z, x, y, z);
    let ci = cell_index(x, y, z);
    let rays2 = rays.update(ci, None);
    let ds = old_dirs[ci];
    let extra = marked_neighbors(c.0, c.1, c.2, ds, 6);
    let s1 = stack.drop_last();
    let s2 = s1 + extra;
    let t2 = touched.push(c);
    assert(t2[touched.len() as int] == c);
    assert(stack_extends(s1, s2));
    lemma_marked_neighbors(c.0, c.1, c.2, ds, 6);
    lemma_cell_index(x, y, z, 0, 0, 0);
    if old_rays[1687] is Some && rays2[1687] is Some {
        lemma_waiting_pop(stack, (0, 0, 0));
        lemma_waiting_extends(s1, s2, (0, 0, 0));
    }
    if !touched.contains((0i32, 0i32, 0i32)) {
        lemma_waiting_pop(stack, (0, 0, 0));
        if waiting(s1, (0, 0, 0)) {
            lemma_waiting_extends(s1, s2, (0, 0, 0));
        }
    } else {
        let j = choose|j: int| 0 <= j < touched.len() && touched[j] == (0i32, 0i32, 0i32);
        assert(t2[j] == touched[j]);
    }
    assert forall|a: int, b: int, cc: int, d: int|
        in_reach(a, b, cc) && 0 <= d < 6 && removed_at(old_rays, rays2, a, b, cc) && #[trigger] old_dirs[cell_index(
            a,
            b,
            cc,
        )][d] implies ({
        let p = neighbor(a, b, cc, d);
        &&& ray_at(rays2, p.0, p.1, p.2) is None || waiting(s2, p)
        &&& t2.contains((p.0 as i32, p.1 as i32, p.2 as i32)) || waiting(s2, p)
    }) by {
        let p = neighbor(a, b, cc, d);
        lemma_cell_index(a, b, cc, x, y, z);
        if a == x && b == y && cc == z {
            assert(ds[d]);
            assert(extra.contains(neighbor_i32(c.0, c.1, c.2, d)));
            let k = choose|k: int| 0 <= k < extra.len() && extra[k] == neighbor_i32(c.0, c.1, c.2, d);
            assert(s2[s1.len() + k] == extra[k]);
            assert(waiting(s2, p));
        } else {
            assert(removed_at(old_rays, rays, a, b, cc));
            assert(ray_at(old_rays, a, b, cc) is Some);
            assert(in_reach(p.0, p.1, p.2));
            lemma_cell_index(p.0, p.1, p.2, x, y, z);
            if waiting(stack, p) {
                lemma_waiting_pop(stack, p);
                if waiting(s1, p) {
                    lemma_waiting_extends(s1, s2, p);
                }
            }
            if touched.contains((p.0 as i32, p.1 as i32, p.2 as i32)) {
                let j = choose|j: int| 0 <= j < touched.len() && touched[j] == (p.0 as i32, p.1 as i32, p.2 as i32);
                assert(t2[j] == touched[j]);
            }
        }
    }
}

proof fn lemma_touches_grow(
    old_rays: Seq<Option<LightColor>>,
    old_dirs: Seq<[bool; 6]>,
    rays: Seq<Option<LightColor>>,
    rays2: Seq<Option<LightColor>>,
    t: (i32, i32, i32),
)
    requires
        removal_touches(old_rays, old_dirs, rays, t),
        rays.len() == 3375,
        rays2.len() == 3375,
        forall|i: int| 0 <= i < rays.len() && rays[i] is None ==> #[trigger] rays2[i] is None,
    ensures
        removal_touches(old_rays, old_dirs, rays2, t),
{
    if t != (0i32, 0i32, 0i32) {
        let (a, b, c, d) = choose|a: int, b: int, c: int, d: int|
            in_reach(a, b, c) && 0 <= d < 6 && removed_at(old_rays, rays, a, b, c) && #[trigger] old_dirs[cell_index(
                a,
                b,
                c,
            )][d] && neighbor(a, b, c, d) == (t.0 as int, t.1 as int, t.2 as int);
        lemma_cell_index(a, b, c, a, b, c);
        assert(rays2[cell_index(a, b, c)] is None);
        assert(removed_at(old_rays, rays2, a, b, c));
    }
}

proof fn lemma_pop_some_touch(
    old_rays: Seq<Option<LightColor>>,
    old_dirs: Seq<[bool; 6]>,
    rays: Seq<Option<LightColor>>,
    stack: Seq<(i32, i32, i32)>,
    touched: Seq<(i32, i32, i32)>,
)
    requires
        removal_touch_sound(old_rays, old_dirs, rays, stack, touched),
        stack.len() > 0,
        rays.len() == 3375,
        in_reach(stack.last().0 as int, stack.last().1 as int, stack.last().2 as int),
        ({
            let c = stack.last();
            let ci = cell_index(c.0 as int, c.1 as int, c.2 as int);
            old_rays[ci] is Some
        }),
    ensures
        ({
            let c = stack.last();
            let ci = cell_index(c.0 as int, c.1 as int, c.2 as int);
            removal_touch_sound(
                old_rays,
                old_dirs,
                rays.update(ci, None),
                stack.drop_last() + marked_neighbors(c.0, c.1, c.2, old_dirs[ci], 6),
                touched.push(c),
            )
        }),
{
    lemma_pop_touch(old_rays, old_dirs, rays, stack, touched);
    reveal(removal_touch_sound);
    let c = stack.last();
    let (x, y, z) = (c.0 as int, c.1 as int, c.2 as int);
    lemma_cell_index(x, y, z, x, y, z);
    let ci = cell_index(x, y, z);
    let rays2 = rays.update(ci, None);
    let ds = old_dirs[ci];
    let extra = marked_neighbors(c.0, c.1, c.2, ds, 6);
    let s1 = stack.drop_last();
    let s2 = s1 + extra;
    let t2 = touched.push(c);
    lemma_marked_neighbors(c.0, c.1, c.2, ds, 6);
    assert forall|i: int| 0 <= i < rays.len() && rays[i] is None implies #[trigger] rays2[i] is None by {}
    assert forall|k: int| 0 <= k < t2.len() implies removal_touches(old_rays, old_dirs, rays2, #[trigger] t2[k]) by {
        lemma_touches_grow(old_rays, old_dirs, rays, rays2, t2[k]);
    }
    assert forall|k: int| 0 <= k < s2.len() implies removal_touches(old_rays, old_dirs, rays2, #[trigger] s2[k]) by {
        if k < s1.len() {
            assert(s2[k] == s1[k]);
            lemma_touches_grow(old_rays, old_dirs, rays, rays2, s1[k]);
        } else {
            let t = extra[k - s1.len()];
            assert(s2[k] == t);
            assert(from_marked(c.0, c.1, c.2, ds, 6, extra[k - s1.len()]));
            let e = choose|e: int| 0 <= e < 6 && ds[e] && #[trigger] neighbor_i32(c.0, c.1, c.2, e) == t;
            assert(removed_at(old_rays, rays2, x, y, z));
            assert(old_dirs[cell_index(x, y, z)][e]);
            let q = neighbor(x, y, z, e);
            assert(-8 <= q.0 <= 8 && -8 <= q.1 <= 8 && -8 <= q.2 <= 8);
            assert(neighbor(x, y, z, e) == (t.0 as int, t.1 as int, t.2 as int));
        }
    }
}

proof fn lemma_pop_some_rank_removed(
    old_rays: Seq<Option<LightColor>>,
    old_dirs: Seq<[bool; 6]>,
    rays: Seq<Option<LightColor>>,
    stack: Seq<(i32, i32, i32)>,
    rank: Seq<int>,
    counter: int,
    x: int,
    y: int,
    z: int,
)
    requires
        removal_ranked(old_rays, old_dirs, rays, stack, rank, counter),
        stack.len() > 0,
        stack.last() == (x as i32, y as i32, z as i32),
        rays.len() == 3375,
        in_reach(x, y, z),
        rays[cell_index(x, y, z)] is Some,
        old_rays[cell_index(x, y, z)] is Some,
    ensures
        ({
            let ci = cell_index(x, y, z);
            let rays2 = rays.update(ci, None);
            let rank2 = rank.update(ci, counter);
            &&& forall|a: int, b: int, cc: int|
                in_reach(a, b, cc) && #[trigger] removed_at(old_rays, rays2, a, b, cc) ==> 0 <= rank2[cell_index(a, b, cc)]
                    < counter + 1
            &&& forall|a: int, b: int, cc: int|
                in_reach(a, b, cc) && !(a == 0 && b == 0 && cc == 0) && #[trigger] removed_at(old_rays, rays2, a, b, cc)
                    ==> exists|d: int| 0 <= d < 6 && #[trigger] removal_parent(old_rays, old_dirs, rays2, rank2, a, b, cc, d)
        }),
{
    lemma_cell_index(x, y, z, x, y, z);
    let ci = cell_index(x, y, z);
    let rays2 = rays.update(ci, None);
    let rank2 = rank.update(ci, counter);
    let last = stack.len() - 1;
    assert(stack[last] == stack.last());
    assert forall|a: int, b: int, cc: int| in_reach(a, b, cc) && #[trigger] removed_at(old_rays, rays2, a, b, cc) implies 0
        <= rank2[cell_index(a, b, cc)] < counter + 1 by {
        lemma_cell_index(a, b, cc, x, y, z);
        if cell_index(a, b, cc) != ci {
            assert(removed_at(old_rays, rays, a, b, cc));
        }
    }
    assert forall|a: int, b: int, cc: int|
        in_reach(a, b, cc) && !(a == 0 && b == 0 && cc == 0) && #[trigger] removed_at(old_rays, rays2, a, b, cc) implies exists|
        d: int,
    | 0 <= d < 6 && #[trigger] removal_parent(old_rays, old_dirs, rays2, rank2, a, b, cc, d) by {
        lemma_cell_index(a, b, cc, x, y, z);
        if cell_index(a, b, cc) != ci {
            assert(removed_at(old_rays, rays, a, b, cc));
            let d = choose|d: int| 0 <= d < 6 && #[trigger] removal_parent(old_rays, old_dirs, rays, rank, a, b, cc, d);
            let p = neighbor(a, b, cc, d);
            lemma_cell_index(p.0, p.1, p.2, x, y, z);
            assert(removal_parent(old_rays, old_dirs, rays2, rank2, a, b, cc, d));
        } else {
            assert(stack_parent(old_rays, old_dirs, rays, rank, counter, stack[last]));
            let d = choose|d: int|
                0 <= d < 6 && {
                    let p = #[trigger] neighbor(x, y, z, d);
                    &&& in_reach(p.0, p.1, p.2)
                    &&& removed_at(old_rays, rays, p.0, p.1, p.2)
                    &&& old_dirs[cell_index(p.0, p.1, p.2)][opposite(d)]
                    &&& 0 <= rank[cell_index(p.0, p.1, p.2)] < counter
                };
            let p = neighbor(x, y, z, d);
            lemma_cell_index(p.0, p.1, p.2, x, y, z);
            assert(removal_parent(old_rays, old_dirs, rays2, rank2, a, b, cc, d));
        }
    }
}

proof fn lemma_stack_parent_keep(
    old_rays: Seq<Option<LightColor>>,
    old_dirs: Seq<[bool; 6]>,
    rays: Seq<Option<LightColor>>,
    rank: Seq<int>,
    counter: int,
    x: int,
    y: int,
    z: int,
    e: (i32, i32, i32),
)
    requires
        stack_parent(old_rays, old_dirs, rays, rank, counter, e),
        rays.len() == 3375,
        rank.len() == 3375,
        in_reach(x, y, z),
        rays[cell_index(x, y, z)] is Some,
    ensures
        ({
            let ci = cell_index(x, y, z);
            stack_parent(old_rays, old_dirs, rays.update(ci, None), rank.update(ci, counter), counter + 1, e)
        }),
{
    lemma_cell_index(x, y, z, x, y, z);
    let ci = cell_index(x, y, z);
    let rays2 = rays.update(ci, None);
    let rank2 = rank.update(ci, counter);
    if e != (0i32, 0i32, 0i32) {
        let d = choose|d: int|
            0 <= d < 6 && {
                let p = #[trigger] neighbor(e.0 as int, e.1 as int, e.2 as int, d);
                &&& in_reach(p.0, p.1, p.2)
                &&& removed_at(old_rays, rays, p.0, p.1, p.2)
                &&& old_dirs[cell_index(p.0, p.1, p.2)][opposite(d)]
                &&& 0 <= rank[cell_index(p.0, p.1, p.2)] < counter
            };
        let p = neighbor(e.0 as int, e.1 as int, e.2 as int, d);
        lemma_cell_index(p.0, p.1, p.2, x, y, z);
        assert({
            let p = #[trigger] neighbor(e.0 as int, e.1 as int, e.2 as int, d);
            &&& in_reach(p.0, p.1, p.2)
            &&& removed_at(old_rays, rays2, p.0, p.1, p.2)
            &&& old_dirs[cell_index(p.0, p.1, p.2)][opposite(d)]
            &&& 0 <= rank2[cell_index(p.0, p.1, p.2)] < counter + 1
        });
    }
}

proof fn lemma_stack_parent_new(
    old_rays: Seq<Option<LightColor>>,
    old_dirs: Seq<[bool; 6]>,
    rays: Seq<Option<LightColor>>,
    rank: Seq<int>,
    counter: int,
    c: (i32, i32, i32),
    e: int,
)
    requires
        rays.len() == 3375,
        rank.len() == 3375,
        counter >= 0,
        in_reach(c.0 as int, c.1 as int, c.2 as int),
        rays[cell_index(c.0 as int, c.1 as int, c.2 as int)] is Some,
        old_rays[cell_index(c.0 as int, c.1 as int, c.2 as int)] is Some,
        0 <= e < 6,
        old_dirs[cell_index(c.0 as int, c.1 as int, c.2 as int)][e],
    ensures
        ({
            let ci = cell_index(c.0 as int, c.1 as int, c.2 as int);
            stack_parent(
                old_rays,
                old_dirs,
                rays.update(ci, None),
                rank.update(ci, counter),
                counter + 1,
                neighbor_i32(c.0, c.1, c.2, e),
            )
        }),
{
    let (x, y, z) = (c.0 as int, c.1 as int, c.2 as int);
    lemma_cell_index(x, y, z, x, y, z);
    let ci = cell_index(x, y, z);
    let rays2 = rays.update(ci, None);
    let rank2 = rank.update(ci, counter);
    let t = neighbor_i32(c.0, c.1, c.2, e);
    lemma_opposite(e);
    let od = opposite(e);
    let q = neighbor(x, y, z, e);
    assert(-8 <= q.0 <= 8 && -8 <= q.1 <= 8 && -8 <= q.2 <= 8);
    assert(neighbor(t.0 as int, t.1 as int, t.2 as int, od) == (x, y, z));
    assert({
        let p = #[trigger] neighbor(t.0 as int, t.1 as int, t.2 as int, od);
        &&& in_reach(p.0, p.1, p.2)
        &&& removed_at(old_rays, rays2, p.0, p.1, p.2)
        &&& old_dirs[cell_index(p.0, p.1, p.2)][opposite(od)]
        &&& 0 <= rank2[cell_index(p.0, p.1, p.2)] < counter + 1
    });
}

proof fn lemma_pop_some_stack(
    old_rays: Seq<Option<LightColor>>,
    old_dirs: Seq<[bool; 6]>,
    rays: Seq<Option<LightColor>>,
    stack: Seq<(i32, i32, i32)>,
    rank: Seq<int>,
    counter: int,
)
    requires
        forall|k: int| 0 <= k < stack.len() ==> stack_parent(old_rays, old_dirs, rays, rank, counter, #[trigger] stack[k]),
        rank.len() == 3375,
        counter >= 0,
        stack.len() > 0,
        rays.len() == 3375,
        in_reach(stack.last().0 as int, stack.last().1 as int, stack.last().2 as int),
        ({
            let c = stack.last();
            let ci = cell_index(c.0 as int, c.1 as int, c.2 as int);
            rays[ci] is Some && old_rays[ci] is Some
        }),
    ensures
        ({
            let c = stack.last();
            let ci = cell_index(c.0 as int, c.1 as int, c.2 as int);
            let s2 = stack.drop_last() + marked_neighbors(c.0, c.1, c.2, old_dirs[ci], 6);
            forall|k: int|
                0 <= k < s2.len() ==> stack_parent(
                    old_rays,
                    old_dirs,
                    rays.update(ci, None),
                    rank.update(ci, counter),
                    counter + 1,
                    #[trigger] s2[k],
                )
        }),
{
    let c = stack.last();
    let (x, y, z) = (c.0 as int, c.1 as int, c.2 as int);
    lemma_cell_index(x, y, z, x, y, z);
    let ci = cell_index(x, y, z);
    let rays2 = rays.update(ci, None);
    let ds = old_dirs[ci];
    let extra = marked_neighbors(c.0, c.1, c.2, ds, 6);
    let s1 = stack.drop_last();
    let s2 = s1 + extra;
    let rank2 = rank.update(ci, counter);
    lemma_marked_neighbors(c.0, c.1, c.2, ds, 6);
    assert forall|k: int| 0 <= k < s2.len() implies stack_parent(old_rays, old_dirs, rays2, rank2, counter + 1, #[trigger] s2[k]) by {
        if k < s1.len() {
            assert(s2[k] == stack[k]);
            lemma_stack_parent_keep(old_rays, old_dirs, rays, rank, counter, x, y, z, stack[k]);
        } else {
            let t = extra[k - s1.len()];
            assert(s2[k] == t);
            assert(from_marked(c.0, c.1, c.2, ds, 6, extra[k - s1.len()]));
            let e = choose|e: int| 0 <= e < 6 && ds[e] && #[trigger] neighbor_i32(c.0, c.1, c.2, e) == t;
            lemma_stack_parent_new(old_rays, old_dirs, rays, rank, counter, c, e);
        }
    }
}

proof fn lemma_pop_some_rank(
    old_rays: Seq<Option<LightColor>>,
    old_dirs: Seq<[bool; 6]>,
    rays: Seq<Option<LightColor>>,
    stack: Seq<(i32, i32, i32)>,
)
    requires
        removal_rank_ok(old_rays, old_dirs, rays, stack),
        stack.len() > 0,
        rays.len() == 3375,
        in_reach(stack.last().0 as int, stack.last().1 as int, stack.last().2 as int),
        ({
            let c = stack.last();
            let ci = cell_index(c.0 as int, c.1 as int, c.2 as int);
            rays[ci] is Some && old_rays[ci] is Some
        }),
    ensures
        ({
            let c = stack.last();
            let ci = cell_index(c.0 as int, c.1 as int, c.2 as int);
            removal_rank_ok(
                old_rays,
                old_dirs,
                rays.update(ci, None),
                stack.drop_last() + marked_neighbors(c.0, c.1, c.2, old_dirs[ci], 6),
            )
        }),
{
    reveal(removal_rank_ok);
    let c = stack.last();
    let (x, y, z) = (c.0 as int, c.1 as int, c.2 as int);
    let ci = cell_index(x, y, z);
    let (rank, counter) = choose|rank: Seq<int>, counter: int| #[trigger] removal_ranked(old_rays, old_dirs, rays, stack, rank, counter);
    lemma_pop_some_rank_removed(old_rays, old_dirs, rays, stack, rank, counter, x, y, z);
    lemma_pop_some_stack(old_rays, old_dirs, rays, stack, rank, counter);
    let rays2 = rays.update(ci, None);
    let s2 = stack.drop_last() + marked_neighbors(c.0, c.1, c.2, old_dirs[ci], 6);
    assert(removal_ranked(old_rays, old_dirs, rays2, s2, rank.update(ci, counter), counter + 1));
}

proof fn lemma_removal_final(
    old_rays: Seq<Option<LightColor>>,
    old_dirs: Seq<[bool; 6]>,
    rays: Seq<Option<LightColor>>,
    dirs: Seq<[bool; 6]>,
    touched: Seq<(i32, i32, i32)>,
)
    requires
        removal_ok(old_rays, old_dirs, rays, dirs, Seq::empty(), touched),
    ensures
        only_removed(old_rays, old_dirs, rays, dirs),
        removal_closed(old_rays, old_dirs, rays),
        removal_supported(old_rays, old_dirs, rays),
        forall|t: (i32, i32, i32)| touched.contains(t) <==> removal_touches(old_rays, old_dirs, rays, t),
{
    reveal(removal_shape);
    reveal(removal_pending);
    reveal(removal_touch_sound);
    reveal(removal_rank_ok);
    let empty = Seq::<(i32, i32, i32)>::empty();
    assert(!waiting(empty, (0, 0, 0)));
    assert forall|a: int, b: int, c: int, d: int|
        in_reach(a, b, c) && 0 <= d < 6 && removed_at(old_rays, rays, a, b, c) && #[trigger] old_dirs[cell_index(
            a,
            b,
            c,
        )][d] implies ray_at(rays, neighbor(a, b, c, d).0, neighbor(a, b, c, d).1, neighbor(a, b, c, d).2) is None by {
        assert(!waiting(empty, neighbor(a, b, c, d)));
    }
    let (rank, counter) = choose|rank: Seq<int>, counter: int| #[trigger] removal_ranked(old_rays, old_dirs, rays, empty, rank, counter);
    assert(rank.len() == 3375 && forall|a: int, b: int, c: int|
        in_reach(a, b, c) && !(a == 0 && b == 0 && c == 0) && #[trigger] removed_at(old_rays, rays, a, b, c) ==> exists|
            d: int,
        | 0 <= d < 6 && #[trigger] removal_parent(old_rays, old_dirs, rays, rank, a, b, c, d));
    assert forall|t: (i32, i32, i32)| touched.contains(t) <==> removal_touches(old_rays, old_dirs, rays, t) by {
        if touched.contains(t) {
            let k = choose|k: int| 0 <= k < touched.len() && touched[k] == t;
            assert(removal_touches(old_rays, old_dirs, rays, touched[k]));
        }
        if removal_touches(old_rays, old_dirs, rays, t) && t != (0i32, 0i32, 0i32) {
            let (a, b, c, d) = choose|a: int, b: int, c: int, d: int|
                in_reach(a, b, c) && 0 <= d < 6 && removed_at(old_rays, rays, a, b, c) && #[trigger] old_dirs[cell_index(
                    a,
                    b,
                    c,
                )][d] && neighbor(a, b, c, d) == (t.0 as int, t.1 as int, t.2 as int);
            assert(!waiting(empty, neighbor(a, b, c, d)));
        }
    }
}

/// Removes a source's light from its field, as the world forgets a light:
/// starting at the source, every ray met is dropped together with its marked
/// faces, and the cells across those faces are visited in turn. Returns the
/// offsets visited, which name the chunks whose meshes change.
pub fn remove_light(f: &mut OriginLight) -> (touched: Vec<(i32, i32, i32)>)
    requires
        old(f).rays@.len() == 3375,
        old(f).dirs@.len() == 3375,
        links_in_cube(old(f).rays@, old(f).dirs@),
    ensures
        only_removed(old(f).rays@, old(f).dirs@, final(f).rays@, final(f).dirs@),
        removal_closed(old(f).rays@, old(f).dirs@, final(f).rays@),
        removal_supported(old(f).rays@, old(f).dirs@, final(f).rays@),
        forall|t: (i32, i32, i32)|
            touched@.contains(t) <==> removal_touches(old(f).rays@, old(f).dirs@, final(f).rays@, t),
{
    let ghost old_rays = f.rays@;
    let ghost old_dirs = f.dirs@;
    let mut stack: Vec<(i32, i32, i32)> = Vec::new();
    stack.push((0, 0, 0));
    let mut touched: Vec<(i32, i32, i32)> = Vec::new();
    proof {
        assert(stack@ =~= seq![(0i32, 0i32, 0i32)]);
        assert(touched@ =~= Seq::<(i32, i32, i32)>::empty());
        lemma_removal_start(old_rays, old_dirs);
    }
    while stack.len() > 0
        invariant
            removal_ok(old_rays, old_dirs, f.rays@, f.dirs@, stack@, touched@),
        decreases ray_count(f.rays@), stack@.len(),
    {
        proof {
            lemma_removal_top(old_rays, old_dirs, f.rays@, f.dirs@, stack@, touched@);
        }
        let ghost st = stack@;
        let ghost tc = touched@;
        let ghost r0 = f.rays@;
        let ghost d0 = f.dirs@;
        let c = stack.pop().unwrap();
        proof {
            assert(stack@ =~= st.drop_last());
            assert(st[st.len() - 1] == c);
        }
        touched.push(c);
        let i = cell_of(c.0, c.1, c.2);
        if f.rays[i].is_some() {
            let ds = f.dirs[i];
            f.rays.set(i, None);
            f.dirs.set(i, [false, false, false, false, false, false]);
            let offs: [(i32, i32, i32); 6] = [(-1, 0, 0), (1, 0, 0), (0, -1, 0), (0, 1, 0), (0, 0, 1), (0, 0, -1)];
            let mut d: usize = 0;
            while d < 6
                invariant
                    0 <= d <= 6,
                    in_reach(c.0 as int, c.1 as int, c.2 as int),
                    stack@ == st.drop_last() + marked_neighbors(c.0, c.1, c.2, ds, d as int),
                    forall|e: int| 0 <= e < 6 ==> (offs@[e].0 as int, offs@[e].1 as int, offs@[e].2 as int) == #[trigger] face_offset(e),
                decreases 6 - d,
            {
                let o = offs[d];
                proof {
                    assert((o.0 as int, o.1 as int, o.2 as int) == face_offset(d as int));
                }
                let ghost before_push = stack@;
                if ds[d] {
                    stack.push((c.0 + o.0, c.1 + o.1, c.2 + o.2));
                }
                proof {
                    let next = marked_neighbors(c.0, c.1, c.2, ds, d as int + 1);
                    assert(next == marked_neighbors(c.0, c.1, c.2, ds, d as int) + if ds[d as int] {
                        seq![neighbor_i32(c.0, c.1, c.2, d as int)]
                    } else {
                        seq![]
                    });
                    if ds[d as int] {
                        assert(stack@ =~= st.drop_last() + next);
                    } else {
                        assert(stack@ =~= st.drop_last() + next);
                    }
                }
                d = d + 1;
            }
            proof {
                assert(r0[i as int] is Some);
                assert(ds == old_dirs[i as int]);
                lemma_pop_some_shape(old_rays, old_dirs, r0, d0, st);
                lemma_pop_some_pending(old_rays, old_dirs, r0, st, tc);
                lemma_pop_some_touch(old_rays, old_dirs, r0, st, tc);
                lemma_pop_some_rank(old_rays, old_dirs, r0, st);
                lemma_ray_count_remove(r0, i as int);
                assert(f.rays@ == r0.update(i as int, None));
            }
        } else {
            proof {
                lemma_cell_index(c.0 as int, c.1 as int, c.2 as int, c.0 as int, c.1 as int, c.2 as int);
                lemma_pop_none_shape(old_rays, old_dirs, r0, d0, st);
                lemma_pop_none_pending(old_rays, old_dirs, r0, st, tc);
                lemma_pop_touch(old_rays, old_dirs, r0, st, tc);
                lemma_pop_none_rank(old_rays, old_dirs, r0, st);
            }
        }
    }
    proof {
        assert(stack@ =~= Seq::<(i32, i32, i32)>::empty());
        lemma_removal_final(old_rays, old_dirs, f.rays@, f.dirs@, touched@);
    }
    touched
}

proof fn lemma_tree_removed(
    rays0: Seq<Option<LightColor>>,
    dirs0: Seq<[bool; 6]>,
    rays1: Seq<Option<LightColor>>,
    rank: Seq<int>,
    a: int,
    b: int,
    c: int,
)
    requires
        rays0.len() == 3375,
        rank.len() == 3375,
        forall|x: int, y: int, z: int|
            in_reach(x, y, z) && !(x == 0 && y == 0 && z == 0) && (#[trigger] ray_at(rays0, x, y, z)) is Some ==> exists|
                d: int,
            | 0 <= d < 6 && #[trigger] tree_parent(rays0, dirs0, rank, x, y, z, d),
        removal_closed(rays0, dirs0, rays1),
        in_reach(a, b, c),
        ray_at(rays0, a, b, c) is Some,
        !(a == 0 && b == 0 && c == 0) ==> rank[cell_index(a, b, c)] >= 0,
    ensures
        ray_at(rays1, a, b, c) is None,
    decreases (if a == 0 && b == 0 && c == 0 { 0 } else { rank[cell_index(a, b, c)] + 1 }),
{
    if a == 0 && b == 0 && c == 0 {
        assert(cell_index(0, 0, 0) == 1687);
    } else {
        let d = choose|d: int| 0 <= d < 6 && #[trigger] tree_parent(rays0, dirs0, rank, a, b, c, d);
        let p = neighbor(a, b, c, d);
        lemma_tree_removed(rays0, dirs0, rays1, rank, p.0, p.1, p.2);
        lemma_opposite(d);
        let od = opposite(d);
        assert(neighbor(p.0, p.1, p.2, od) == (a, b, c));
        assert(removed_at(rays0, rays1, p.0, p.1, p.2));
        assert(dirs0[cell_index(p.0, p.1, p.2)][od]);
    }
}

/// Forgetting a light undoes spreading it: removal from the source, run on
/// the field that spreading a source's light produced, leaves no ray anywhere
/// in the cube.
pub proof fn law_remove_undoes_propagate(
    rays0: Seq<Option<LightColor>>,
    dirs0: Seq<[bool; 6]>,
    rays1: Seq<Option<LightColor>>,
    dirs1: Seq<[bool; 6]>,
)
    requires
        rays0.len() == 3375,
        rays0[1687] is Some,
        spread_tree(rays0, dirs0),
        only_removed(rays0, dirs0, rays1, dirs1),
        removal_closed(rays0, dirs0, rays1),
    ensures
        forall|x: int, y: int, z: int| in_reach(x, y, z) ==> (#[trigger] ray_at(rays1, x, y, z)) is None,
{
    let rank = choose|rank: Seq<int>|
        rank.len() == 3375 && forall|a: int, b: int, c: int|
            in_reach(a, b, c) && !(a == 0 && b == 0 && c == 0) && (#[trigger] ray_at(rays0, a, b, c)) is Some ==> exists|
                d: int,
            | 0 <= d < 6 && #[trigger] tree_parent(rays0, dirs0, rank, a, b, c, d);
    assert forall|x: int, y: int, z: int| in_reach(x, y, z) implies (#[trigger] ray_at(rays1, x, y, z)) is None by {
        lemma_cell_index(x, y, z, x, y, z);
        let i = cell_index(x, y, z);
        assert(rays1[i] == rays0[i] && dirs1[i] == dirs0[i] || rays0[i] is Some && rays1[i] is None);
        if ray_at(rays0, x, y, z) is Some {
            if !(x == 0 && y == 0 && z == 0) {
                let d = choose|d: int| 0 <= d < 6 && #[trigger] tree_parent(rays0, dirs0, rank, x, y, z, d);
            }
            lemma_tree_removed(rays0, dirs0, rays1, rank, x, y, z);
        }
    }
}

/// The offset of cell `i` of the cube.
pub open spec fn offset_of_cell(i: int) -> (int, int, int) {
    (i / 225 - 7, (i % 225) / 15 - 7, i % 15 - 7)
}

proof fn lemma_offset_of_cell(i: int)
    requires
        0 <= i < 3375,
    ensures
        in_reach(offset_of_cell(i).0, offset_of_cell(i).1, offset_of_cell(i).2),
        cell_index(offset_of_cell(i).0, offset_of_cell(i).1, offset_of_cell(i).2) == i,
{
}

fn offset_at(i: usize) -> (t: (i32, i32, i32))
    requires
        i < 3375,
    ensures
        (t.0 as int, t.1 as int, t.2 as int) == offset_of_cell(i as int),
        in_reach(t.0 as int, t.1 as int, t.2 as int),
        cell_index(t.0 as int, t.1 as int, t.2 as int) == i,
{
    proof {
        lemma_offset_of_cell(i as int);
    }
    ((i / 225) as i32 - 7, ((i % 225) / 15) as i32 - 7, (i % 15) as i32 - 7)
}

/// The offsets of the cube around a source, in cell order: the positions, relative
/// to the source, whose block values `propagate_light` takes.
pub fn reach_offsets() -> (v: Vec<(i32, i32, i32)>)
    ensures
        v@.len() == 3375,
        forall|i: int|
            0 <= i < 3375 ==> in_reach((#[trigger] v@[i]).0 as int, v@[i].1 as int, v@[i].2 as int) && cell_index(
                v@[i].0 as int,
                v@[i].1 as int,
                v@[i].2 as int,
            ) == i,
{
    let mut v: Vec<(i32, i32, i32)> = Vec::new();
    let mut i: usize = 0;
    while i < 3375
        invariant
            0 <= i <= 3375,
            v@.len() == i,
            forall|j: int|
                0 <= j < i ==> in_reach((#[trigger] v@[j]).0 as int, v@[j].1 as int, v@[j].2 as int) && cell_index(
                    v@[j].0 as int,
                    v@[j].1 as int,
                    v@[j].2 as int,
                ) == j,
        decreases 3375 - i,
    {
        let t = offset_at(i);
        v.push(t);
        i = i + 1;
    }
    v
}

/// The offsets of the cells a source lights and from which its light spreads
/// on: the cells whose meshes the light changes.
pub fn lit_offsets(f: &OriginLight, blocks: &Vec<u32>) -> (v: Vec<(i32, i32, i32)>)
    requires
        f.rays@.len() == 3375,
        blocks@.len() == 3375,
    ensures
        forall|t: (i32, i32, i32)|
            v@.contains(t) <==> (in_reach(t.0 as int, t.1 as int, t.2 as int) && ray_at(
                f.rays@,
                t.0 as int,
                t.1 as int,
                t.2 as int,
            ) is Some && spreads(blocks@, t.0 as int, t.1 as int, t.2 as int)),
{
    let mut v: Vec<(i32, i32, i32)> = Vec::new();
    let mut i: usize = 0;
    while i < 3375
        invariant
            0 <= i <= 3375,
            f.rays@.len() == 3375,
            blocks@.len() == 3375,
            forall|t: (i32, i32, i32)|
                v@.contains(t) <==> (in_reach(t.0 as int, t.1 as int, t.2 as int) && cell_index(
                    t.0 as int,
                    t.1 as int,
                    t.2 as int,
                ) < i && ray_at(f.rays@, t.0 as int, t.1 as int, t.2 as int) is Some && spreads(
                    blocks@,
                    t.0 as int,
                    t.1 as int,
                    t.2 as int,
                )),
        decreases 3375 - i,
    {
        let t = offset_at(i);
        let lit = f.rays[i].is_some() && (passes_light(blocks[i]) || (t.0 == 0 && t.1 == 0 && t.2 == 0));
        let ghost v0 = v@;
        if lit {
            v.push(t);
        }
        proof {
            assert forall|u: (i32, i32, i32)| v@.contains(u) <==> (in_reach(u.0 as int, u.1 as int, u.2 as int) && cell_index(
                u.0 as int,
                u.1 as int,
                u.2 as int,
            ) < i + 1 && ray_at(f.rays@, u.0 as int, u.1 as int, u.2 as int) is Some && spreads(
                blocks@,
                u.0 as int,
                u.1 as int,
                u.2 as int,
            )) by {
                if in_reach(u.0 as int, u.1 as int, u.2 as int) {
                    lemma_cell_index(u.0 as int, u.1 as int, u.2 as int, t.0 as int, t.1 as int, t.2 as int);
                }
                if lit {
                    if v@.contains(u) && !v0.contains(u) {
                        let k = choose|k: int| 0 <= k < v@.len() && v@[k] == u;
                        assert(k == v0.len());
                    }
                    if v0.contains(u) {
                        let k = choose|k: int| 0 <= k < v0.len() && v0[k] == u;
                        assert(v@[k] == u);
                    }
                    if u == t {
                        assert(v@[v0.len() as int] == t);
                    }
                }
            }
        }
        i = i + 1;
    }
    proof {
        assert forall|t: (i32, i32, i32)| v@.contains(t) <==> (in_reach(t.0 as int, t.1 as int, t.2 as int) && ray_at(
            f.rays@,
            t.0 as int,
            t.1 as int,
            t.2 as int,
        ) is Some && spreads(blocks@, t.0 as int, t.1 as int, t.2 as int)) by {
            if in_reach(t.0 as int, t.1 as int, t.2 as int) {
                lemma_cell_index(t.0 as int, t.1 as int, t.2 as int, t.0 as int, t.1 as int, t.2 as int);
            }
        }
    }
    v
}

/// Whether a position can move 7 blocks either way along each axis within `i32`.
pub open spec fn source_in_range(origin: IVec3) -> bool {
    &&& i32::MIN + 7 <= origin.x <= i32::MAX - 7
    &&& i32::MIN + 7 <= origin.y <= i32::MAX - 7
    &&& i32::MIN + 7 <= origin.z <= i32::MAX - 7
}

/// The chunks other than the source's own that hold the positions of the
/// first `n` offsets from the source.
pub open spec fn offset_chunks(origin: IVec3, offs: Seq<(i32, i32, i32)>, n: int) -> Set<(int, int)> {
    Set::new(
        |c: (int, int)|
            c != (chunk_coord(origin.x as int), chunk_coord(origin.z as int)) && exists|k: int|
                0 <= k < n && c == (chunk_coord(origin.x + offs[k].0), chunk_coord(origin.z + offs[k].2)),
    )
}

/// The chunks, other than the source's own, that hold the positions at the
/// given offsets from the source, each once: the chunks whose meshes a change
/// of the source's light touches.
pub fn implicated_chunks(origin: IVec3, offs: &Vec<(i32, i32, i32)>) -> (v: Vec<IVec2>)
    requires
        source_in_range(origin),
        forall|k: int| 0 <= k < offs@.len() ==> in_reach((#[trigger] offs@[k]).0 as int, offs@[k].1 as int, offs@[k].2 as int),
    ensures
        v@.map_values(|e: IVec2| chunk_pair(e)).to_set() == offset_chunks(origin, offs@, offs@.len() as int),
        v@.map_values(|e: IVec2| chunk_pair(e)).no_duplicates(),
{
    let home = spot_to_chunk_pos(&origin);
    let mut v: Vec<IVec2> = Vec::new();
    let mut k: usize = 0;
    proof {
        assert(v@.map_values(|e: IVec2| chunk_pair(e)).to_set() =~= offset_chunks(origin, offs@, 0));
        assert(v@.map_values(|e: IVec2| chunk_pair(e)) =~= Seq::<(int, int)>::empty());
    }
    while k < offs.len()
        invariant
            0 <= k <= offs@.len(),
            source_in_range(origin),
            forall|j: int| 0 <= j < offs@.len() ==> in_reach((#[trigger] offs@[j]).0 as int, offs@[j].1 as int, offs@[j].2 as int),
            chunk_pair(home) == (chunk_coord(origin.x as int), chunk_coord(origin.z as int)),
            v@.map_values(|e: IVec2| chunk_pair(e)).to_set() == offset_chunks(origin, offs@, k as int),
            v@.map_values(|e: IVec2| chunk_pair(e)).no_duplicates(),
        decreases offs@.len() - k,
    {
        let t = offs[k];
        proof {
            assert(in_reach(t.0 as int, t.1 as int, t.2 as int));
        }
        let spot = IVec3 { x: origin.x + t.0, y: origin.y + t.1, z: origin.z + t.2 };
        let c = spot_to_chunk_pos(&spot);
        let ghost before = v@.map_values(|e: IVec2| chunk_pair(e)).to_set();
        if c.x != home.x || c.y != home.y {
            push_unique(&mut v, c);
        }
        proof {
            let after = v@.map_values(|e: IVec2| chunk_pair(e)).to_set();
            let want = offset_chunks(origin, offs@, k + 1);
            assert forall|cc: (int, int)| after.contains(cc) implies #[trigger] want.contains(cc) by {
                if cc != chunk_pair(c) {
                    assert(before.contains(cc));
                    let j = choose|j: int|
                        0 <= j < k && cc == (chunk_coord(origin.x + offs@[j].0), chunk_coord(origin.z + offs@[j].2));
                }
            }
            assert forall|cc: (int, int)| want.contains(cc) implies #[trigger] after.contains(cc) by {
                let j = choose|j: int|
                    0 <= j < k + 1 && cc == (chunk_coord(origin.x + offs@[j].0), chunk_coord(origin.z + offs@[j].2));
                if j < k {
                    assert(before.contains(cc));
                } else {
                    assert(cc == chunk_pair(c));
                }
            }
            assert(after =~= want);
        }
        k = k + 1;
    }
    v
}

} // verus!
