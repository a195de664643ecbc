use vstd::prelude::*;

use crate::chunk::{ChunkFacade, chunk_pair};
use crate::vec::IVec2;

verus! {

broadcast use vstd::seq_lib::group_seq_properties;

/// Whether every chunk position within `r` of `user` (and the squared
/// distances between them) stays well inside `i32`.
pub open spec fn square_fits(user: IVec2, r: int) -> bool {
    &&& 0 <= r <= 255
    &&& -1_000_000_000 <= user.x <= 1_000_000_000
    &&& -1_000_000_000 <= user.y <= 1_000_000_000
}

/// Row `i` of the square around `user`: the first `n` positions with x offset
/// `i` and y offsets from `-r` upwards.
pub open spec fn grid_row(user: IVec2, r: int, i: int, n: int) -> Seq<(int, int)>
    decreases n,
{
    if n <= 0 {
        seq![]
    } else {
        grid_row(user, r, i, n - 1).push((user.x + i, user.y - r + n - 1))
    }
}

/// The first `m` rows of the square around `user`, x offsets from `-r` upwards.
pub open spec fn grid_rows(user: IVec2, r: int, m: int) -> Seq<(int, int)>
    decreases m,
{
    if m <= 0 {
        seq![]
    } else {
        grid_rows(user, r, m - 1) + grid_row(user, r, -r + m - 1, 2 * r)
    }
}

/// The chunk positions with offsets from `-r` to `r - 1` on both axes around
/// `user`, x offset outermost.
pub open spec fn square_around(user: IVec2, r: int) -> Seq<(int, int)> {
    grid_rows(user, r, 2 * r)
}

/// The squared distance between two chunk positions.
pub open spec fn dist2(c: (int, int), user: IVec2) -> int {
    (c.0 - user.x) * (c.0 - user.x) + (c.1 - user.y) * (c.1 - user.y)
}

/// The test for positions at squared distance `d` from `user`.
pub open spec fn at_dist(user: IVec2, d: int) -> spec_fn((int, int)) -> bool {
    |c: (int, int)| dist2(c, user) == d
}

/// The test for positions that no loaded chunk holds.
pub open spec fn free_of(taken: Seq<(int, int)>) -> spec_fn((int, int)) -> bool {
    |c: (int, int)| !taken.contains(c)
}

/// The positions of `s` ordered by squared distance from `user`, up to `d`,
/// keeping the order of `s` among equally distant ones.
pub open spec fn nearest_first(s: Seq<(int, int)>, user: IVec2, d: int) -> Seq<(int, int)>
    decreases d + 1,
{
    if d < 0 {
        seq![]
    } else {
        nearest_first(s, user, d - 1) + s.filter(at_dist(user, d))
    }
}

/// The chunk positions around `user` that no loaded chunk holds, nearest first.
pub open spec fn needed_order(user: IVec2, r: int, taken: Seq<(int, int)>) -> Seq<(int, int)> {
    nearest_first(square_around(user, r).filter(free_of(taken)), user, 2 * r * r)
}

/// Whether `c` is one of the chunk positions in `v`.
fn holds_position(v: &Vec<IVec2>, c: IVec2) -> (b: bool)
    ensures
        b == v@.map_values(|e: IVec2| chunk_pair(e)).contains(chunk_pair(c)),
{
    let ghost m = v@.map_values(|e: IVec2| chunk_pair(e));
    let mut i: usize = 0;
    while i < v.len()
        invariant
            0 <= i <= v@.len(),
            m == v@.map_values(|e: IVec2| chunk_pair(e)),
            forall|j: int| 0 <= j < i ==> m[j] != chunk_pair(c),
        decreases v@.len() - i,
    {
        if v[i].x == c.x && v[i].y == c.y {
            assert(m[i as int] == chunk_pair(c));
            return true;
        }
        i = i + 1;
    }
    false
}

/// The chunk positions to load around the player's chunk `user`: those with
/// offsets from `-radius` to `radius - 1` on both axes that no loaded chunk
/// (`taken`) holds, nearest first, in grid order among equally distant ones.
pub fn needed_chunks(user: IVec2, radius: u8, taken: &Vec<IVec2>) -> (v: Vec<IVec2>)
    requires
        square_fits(user, radius as int),
    ensures
        v@.map_values(|e: IVec2| chunk_pair(e)) == needed_order(
            user,
            radius as int,
            taken@.map_values(|e: IVec2| chunk_pair(e)),
        ),
{
    let r: i32 = radius as i32;
    let ghost ri = r as int;
    let ghost tk = taken@.map_values(|e: IVec2| chunk_pair(e));
    let ghost nt = free_of(tk);
    let mut grid: Vec<IVec2> = Vec::new();
    let mut i: i32 = -r;
    proof {
        assert(grid@.map_values(|e: IVec2| chunk_pair(e)) =~= grid_rows(user, ri, 0).filter(nt)) by {
            reveal(Seq::filter);
        }
    }
    while i < r
        invariant
            square_fits(user, ri),
            ri == r,
            -r <= i <= r,
            nt == free_of(tk),
            tk == taken@.map_values(|e: IVec2| chunk_pair(e)),
            grid@.map_values(|e: IVec2| chunk_pair(e)) == grid_rows(user, ri, i + ri).filter(nt),
        decreases r - i,
    {
        let mut k: i32 = -r;
        proof {
            assert(grid_row(user, ri, i as int, 0).filter(nt) =~= Seq::<(int, int)>::empty()) by {
                reveal(Seq::filter);
            }
            assert(grid@.map_values(|e: IVec2| chunk_pair(e)) =~= grid_rows(user, ri, i + ri).filter(nt) + grid_row(
                user,
                ri,
                i as int,
                0,
            ).filter(nt));
        }
        while k < r
            invariant
                square_fits(user, ri),
                ri == r,
                -r <= i < r,
                -r <= k <= r,
                nt == free_of(tk),
                tk == taken@.map_values(|e: IVec2| chunk_pair(e)),
                grid@.map_values(|e: IVec2| chunk_pair(e)) == grid_rows(user, ri, i + ri).filter(nt) + grid_row(
                    user,
                    ri,
                    i as int,
                    k + ri,
                ).filter(nt),
            decreases r - k,
        {
            let spot = IVec2 { x: user.x + i, y: user.y + k };
            let held = holds_position(taken, spot);
            let ghost g0 = grid@;
            let ghost row0 = grid_row(user, ri, i as int, k + ri);
            proof {
                assert(grid_row(user, ri, i as int, k + ri + 1) == row0.push(chunk_pair(spot)));
                row0.lemma_filter_push(chunk_pair(spot), nt);
            }
            if !held {
                grid.push(spot);
                proof {
                    assert(grid@.map_values(|e: IVec2| chunk_pair(e)) =~= g0.map_values(|e: IVec2| chunk_pair(e)).push(
                        chunk_pair(spot),
                    ));
                }
            }
            k = k + 1;
        }
        proof {
            let a = grid_rows(user, ri, i + ri);
            let b = grid_row(user, ri, i as int, 2 * ri);
            Seq::filter_distributes_over_add(a, b, nt);
            assert(grid_rows(user, ri, i + ri + 1) == a + b);
        }
        i = i + 1;
    }
    let ghost g = grid@.map_values(|e: IVec2| chunk_pair(e));
    proof {
        assert(g == square_around(user, ri).filter(nt));
    }
    proof {
        assert(0 <= ri * ri <= 65025) by (nonlinear_arith)
            requires
                0 <= ri <= 255,
        ;
    }
    let r128: i128 = r as i128;
    proof {
        assert(0 <= r128 * r128 <= 65025) by (nonlinear_arith)
            requires
                0 <= r128 <= 255,
        ;
    }
    let rr: i128 = r128 * r128;
    let dmax: i128 = 2 * rr;
    proof {
        assert(2 * ri * ri == 2 * (ri * ri)) by (nonlinear_arith);
    }
    let mut out: Vec<IVec2> = Vec::new();
    let mut d: i128 = 0;
    while d <= dmax
        invariant
            0 <= d <= dmax + 1,
            dmax == 2 * ri * ri,
            dmax <= 130050,
            g == grid@.map_values(|e: IVec2| chunk_pair(e)),
            out@.map_values(|e: IVec2| chunk_pair(e)) == nearest_first(g, user, d - 1),
        decreases dmax + 1 - d,
    {
        let mut j: usize = 0;
        proof {
            assert(g.take(0).filter(at_dist(user, d as int)) =~= Seq::<(int, int)>::empty()) by {
                reveal(Seq::filter);
            }
            assert(out@.map_values(|e: IVec2| chunk_pair(e)) =~= nearest_first(g, user, d - 1) + g.take(0).filter(
                at_dist(user, d as int),
            ));
        }
        while j < grid.len()
            invariant
                0 <= j <= grid@.len(),
                0 <= d <= dmax,
                g == grid@.map_values(|e: IVec2| chunk_pair(e)),
                out@.map_values(|e: IVec2| chunk_pair(e)) == nearest_first(g, user, d - 1) + g.take(j as int).filter(
                    at_dist(user, d as int),
                ),
            decreases grid@.len() - j,
        {
            let e = grid[j];
            let dx: i128 = e.x as i128 - user.x as i128;
            let dy: i128 = e.y as i128 - user.y as i128;
            proof {
                assert(dx * dx <= 0x1_0000_0000_0000_0000) by (nonlinear_arith)
                    requires
                        -0x1_0000_0000 <= dx <= 0x1_0000_0000,
                ;
                assert(dy * dy <= 0x1_0000_0000_0000_0000) by (nonlinear_arith)
                    requires
                        -0x1_0000_0000 <= dy <= 0x1_0000_0000,
                ;
                assert(dx * dx >= 0 && dy * dy >= 0) by (nonlinear_arith);
            }
            let ghost o0 = out@;
            proof {
                assert(g.take(j as int + 1) == g.take(j as int).push(g[j as int]));
                g.take(j as int).lemma_filter_push(g[j as int], at_dist(user, d as int));
                assert(g[j as int] == chunk_pair(e));
                assert(dist2(g[j as int], user) == dx * dx + dy * dy);
            }
            if dx * dx + dy * dy == d {
                out.push(e);
                proof {
                    assert(out@.map_values(|e: IVec2| chunk_pair(e)) =~= o0.map_values(|e: IVec2| chunk_pair(e)).push(
                        chunk_pair(e),
                    ));
                }
            }
            j = j + 1;
        }
        proof {
            assert(g.take(grid@.len() as int) =~= g);
        }
        d = d + 1;
    }
    out
}

/// Whether a chunk slot may be handed to a new position first: it is unused,
/// or its chunk is at least `2 * radius` away (moving along the axes) from `user`.
pub open spec fn reusable_first(cf: ChunkFacade, user: IVec2, r: int) -> bool {
    !cf.used || {
        let dx = cf.pos.x - user.x;
        let dy = cf.pos.y - user.y;
        (if dx < 0 { -dx } else { dx }) + (if dy < 0 { -dy } else { dy }) >= 2 * r
    }
}

/// The chunk slots in the order they are handed out: the unused and distant
/// ones first, then the rest, each group in its original order.
pub fn facade_order(facades: &Vec<ChunkFacade>, user: IVec2, radius: u8) -> (v: Vec<ChunkFacade>)
    ensures
        v@ == facades@.filter(|cf: ChunkFacade| reusable_first(cf, user, radius as int)) + facades@.filter(
            |cf: ChunkFacade| !reusable_first(cf, user, radius as int),
        ),
{
    let ghost p = |cf: ChunkFacade| reusable_first(cf, user, radius as int);
    let ghost q = |cf: ChunkFacade| !reusable_first(cf, user, radius as int);
    let mut first: Vec<ChunkFacade> = Vec::new();
    let mut rest: Vec<ChunkFacade> = Vec::new();
    let mut i: usize = 0;
    proof {
        assert(facades@.take(0).filter(p) =~= Seq::<ChunkFacade>::empty()) by {
            reveal(Seq::filter);
        }
        assert(facades@.take(0).filter(q) =~= Seq::<ChunkFacade>::empty()) by {
            reveal(Seq::filter);
        }
    }
    while i < facades.len()
        invariant
            0 <= i <= facades@.len(),
            p == (|cf: ChunkFacade| reusable_first(cf, user, radius as int)),
            q == (|cf: ChunkFacade| !reusable_first(cf, user, radius as int)),
            first@ == facades@.take(i as int).filter(p),
            rest@ == facades@.take(i as int).filter(q),
        decreases facades@.len() - i,
    {
        let cf = facades[i];
        let dx: i64 = cf.pos.x as i64 - user.x as i64;
        let dy: i64 = cf.pos.y as i64 - user.y as i64;
        let adx: i64 = if dx < 0 { -dx } else { dx };
        let ady: i64 = if dy < 0 { -dy } else { dy };
        let early = !cf.used || adx + ady >= 2 * (radius as i64);
        proof {
            assert(facades@.take(i as int + 1) == facades@.take(i as int).push(cf));
            facades@.take(i as int).lemma_filter_push(cf, p);
            facades@.take(i as int).lemma_filter_push(cf, q);
        }
        if early {
            first.push(cf);
        } else {
            rest.push(cf);
        }
        i = i + 1;
    }
    proof {
        assert(facades@.take(facades@.len() as int) =~= facades@);
    }
    let mut k: usize = 0;
    let ghost f0 = first@;
    while k < rest.len()
        invariant
            0 <= k <= rest@.len(),
            first@ == f0 + rest@.take(k as int),
        decreases rest@.len() - k,
    {
        first.push(rest[k]);
        proof {
            assert(rest@.take(k as int + 1) == rest@.take(k as int).push(rest@[k as int]));
        }
        k = k + 1;
    }
    proof {
        assert(rest@.take(rest@.len() as int) =~= rest@);
    }
    first
}

} // verus!
