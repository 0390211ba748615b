//! Clearance checking: whether a disc-shaped agent fits at a world position,
//! and whether a straight segment between two positions stays clear.
//!
//! All geometry is exact integer arithmetic. An agent's `size` is given in
//! thousandths of a tile (the disc's diameter is `size / 1000` tiles, its
//! radius `size * tile_size / 2000` world units), and every comparison
//! against the radius is carried out on scaled squares, so no precision is
//! lost to rounding.

use vstd::prelude::*;

verus! {

use crate::grid::{TerrainMap, GroundConfigs};
use vstd::arithmetic::div_mod::{
    lemma_fundamental_div_mod_converse, lemma_div_is_ordered, lemma_div_pos_is_pos,
};

/// Upper bound on an agent's size (a diameter of a thousand tiles), so that
/// scaled squares fit the machine integers.
pub const MAX_AGENT_SIZE: u32 = 1000000;

/// Coordinate bound accepted by the segment sampler.
pub const MAX_SEG_COORD: i64 = 2147483648;

pub open spec fn clamp_int(v: int, lo: int, hi: int) -> int {
    if v < lo {
        lo
    } else if v > hi {
        hi
    } else {
        v
    }
}

/// How many cells out the clearance scan must look:
/// the radius in tiles, rounded up.
pub open spec fn spec_radius_tiles(size: int) -> int {
    (size + 1999) / 2000
}

/// `r` is the integer square root of `x`, rounded down.
pub open spec fn is_sqrt_floor(x: int, r: int) -> bool {
    0 <= r && r * r <= x && x < (r + 1) * (r + 1)
}

/// The integer square root of `x`, rounded down.
pub open spec fn sqrt_floor_of(x: int) -> int {
    choose|r: int| is_sqrt_floor(x, r)
}

/// Division rounded to the nearest integer, ties up; `b` must be positive.
pub open spec fn spec_round_div(a: int, b: int) -> int {
    (2 * a + b) / (2 * b)
}

impl TerrainMap {
    /// Whether the (impassable) cell `(tx, ty)` is close enough to reject an
    /// agent of the given size standing at `(wx, wy)`: the distance from the
    /// point to the cell's square footprint is under the radius minus the
    /// quarter-tile tolerance. Compared as `2000^2 d^2 < (cell (size-500))^2`.
    pub open spec fn spec_tile_blocks(
        &self, cfg: &GroundConfigs, wx: int, wy: int, size: int, tx: int, ty: int,
    ) -> bool {
        &&& !self.spec_tile_passable(cfg, tx, ty)
        &&& size > 500
        &&& {
            let c = self.spec_tile_to_world(tx, ty);
            let half = self.tile_size as int / 2;
            let px = clamp_int(wx, c.0 - half, c.0 + half);
            let py = clamp_int(wy, c.1 - half, c.1 + half);
            let d2 = (wx - px) * (wx - px) + (wy - py) * (wy - py);
            let rhs = self.tile_size as int * (size - 500);
            4000000 * d2 < rhs * rhs
        }
    }

    /// Whether a disc of the given size centred at `(wx, wy)` fits: the
    /// occupied cell is passable, and no impassable cell within the scan
    /// radius comes closer than the tolerance allows. Out of bounds never
    /// fits; size 0 degenerates to the plain cell check.
    #[verifier::opaque]
    pub open spec fn spec_passable_for_size(
        &self, cfg: &GroundConfigs, wx: int, wy: int, size: int,
    ) -> bool {
        match self.spec_world_to_tile(wx, wy) {
            Some(t) => self.spec_tile_passable(cfg, t.0, t.1) && {
                let rt = spec_radius_tiles(size);
                forall|ax: int, ay: int|
                    t.0 - rt <= ax <= t.0 + rt && t.1 - rt <= ay <= t.1 + rt
                        ==> !(#[trigger] self.spec_tile_blocks(cfg, wx, wy, size, ax, ay))
            },
            None => false,
        }
    }

    /// The sample count for a segment of squared length `d2`: the distance
    /// divided by the sampling interval, rounded up and capped at 50. The
    /// interval is half the radius, but no finer than a quarter tile.
    pub open spec fn spec_num_samples(&self, size: int, d2: int) -> int {
        let inum = self.tile_size as int * (if size < 1000 { 1000int } else { size });
        let d = sqrt_floor_of(d2);
        let n0 = (d * 4000 + inum - 1) / inum;
        let n1 = if n0 > 50 { 50int } else { n0 };
        if n1 == 0 { 1int } else { n1 }
    }

    /// The `i`-th of `n + 1` evenly spaced sample points from `(fx, fy)` to
    /// `(tx, ty)`, each coordinate rounded to the nearest world unit.
    pub open spec fn spec_sample_point(fx: int, fy: int, tx: int, ty: int, n: int, i: int) -> (int, int) {
        (fx + spec_round_div((tx - fx) * i, n), fy + spec_round_div((ty - fy) * i, n))
    }

    /// Whether a straight move between the two positions keeps the agent
    /// clear throughout: every sample point along the segment is passable
    /// for the size. A very short segment (under a tenth of a tile) only
    /// checks its destination.
    #[verifier::opaque]
    pub open spec fn spec_segment_clear(
        &self, cfg: &GroundConfigs, fx: int, fy: int, tx: int, ty: int, size: int,
    ) -> bool {
        let d2 = (tx - fx) * (tx - fx) + (ty - fy) * (ty - fy);
        if 100 * d2 < self.tile_size as int * self.tile_size as int {
            self.spec_passable_for_size(cfg, tx, ty, size)
        } else {
            let n = self.spec_num_samples(size, d2);
            forall|i: int| 0 <= i <= n ==> #[trigger] self.spec_passable_for_size(
                cfg,
                Self::spec_sample_point(fx, fy, tx, ty, n, i).0,
                Self::spec_sample_point(fx, fy, tx, ty, n, i).1,
                size,
            )
        }
    }

    /// Exact test of `spec_tile_blocks` for one candidate cell.
    fn tile_blocks_at(
        &self, cfg: &GroundConfigs, world_x: i64, world_y: i64, size: u32, tx: i32, ty: i32,
    ) -> (r: bool)
        requires
            self.wf(),
            size <= MAX_AGENT_SIZE,
            -4294967296 <= world_x <= 4294967296,
            -4294967296 <= world_y <= 4294967296,
            -65536 <= tx <= 65536,
            -65536 <= ty <= 65536,
        ensures
            r == self.spec_tile_blocks(cfg, world_x as int, world_y as int, size as int, tx as int, ty as int),
    {
        if self.is_tile_passable(tx, ty, cfg) {
            return false;
        }
        if size <= 500 {
            return false;
        }
        proof {
            crate::grid::lemma_grid_extent_bound(self.width as int, self.tile_size as int);
            crate::grid::lemma_grid_extent_bound(self.height as int, self.tile_size as int);
            lemma_mul_abs_bound(tx as int, 65536, self.tile_size as int, 32768);
            lemma_mul_abs_bound(ty as int, 65536, self.tile_size as int, 32768);
        }
        let (cx, cy) = self.tile_to_world_coords(tx, ty);
        let half: i64 = (self.tile_size / 2) as i64;
        let px: i64 = if world_x < cx - half {
            cx - half
        } else if world_x > cx + half {
            cx + half
        } else {
            world_x
        };
        let py: i64 = if world_y < cy - half {
            cy - half
        } else if world_y > cy + half {
            cy + half
        } else {
            world_y
        };
        let ddx: i128 = (world_x - px) as i128;
        let ddy: i128 = (world_y - py) as i128;
        proof {
            lemma_square_bound(ddx as int, 17179869184);
            lemma_square_bound(ddy as int, 17179869184);
        }
        let d2: i128 = ddx * ddx + ddy * ddy;
        proof {
            lemma_mul_upper_bound(self.tile_size as int, 32768, size - 500, 1000000);
        }
        let rhs: i128 = self.tile_size as i128 * (size - 500) as i128;
        proof {
            lemma_square_bound(rhs as int, 32768000000000);
        }
        4000000 * d2 < rhs * rhs
    }

    /// Whether a disc of the given size centred at the world position
    /// overlaps no impassable cell beyond the tolerance. Size is in
    /// thousandths of a tile; radius 0 degenerates to a point check.
    pub fn is_position_passable_for_size(
        &self, world_x: i64, world_y: i64, size: u32, cfg: &GroundConfigs,
    ) -> (r: bool)
        requires
            self.wf(),
            size <= MAX_AGENT_SIZE,
        ensures
            r == self.spec_passable_for_size(cfg, world_x as int, world_y as int, size as int),
    {
        proof {
            reveal(TerrainMap::spec_passable_for_size);
        }
        let (ctx, cty) = match self.world_to_tile_coords(world_x, world_y) {
            Some(t) => t,
            None => {
                return false;
            },
        };
        if !self.is_tile_passable(ctx, cty, cfg) {
            return false;
        }
        proof {
            crate::grid::lemma_world_coord_in_extent(self, world_x as int, world_y as int);
        }
        let rt: i32 = ((size + 1999) / 2000) as i32;
        let ghost wx = world_x as int;
        let ghost wy = world_y as int;
        let ghost sz = size as int;
        let mut dx: i32 = -rt;
        while dx <= rt
            invariant
                self.wf(),
                size <= MAX_AGENT_SIZE,
                rt == spec_radius_tiles(sz),
                0 <= rt <= 500,
                -rt <= dx <= rt + 1,
                0 <= ctx < self.width,
                0 <= cty < self.height,
                -4294967296 <= wx <= 4294967296,
                -4294967296 <= wy <= 4294967296,
                wx == world_x as int && wy == world_y as int && sz == size as int,
                self.spec_world_to_tile(wx, wy) == Some((ctx as int, cty as int)),
                forall|ax: int, ay: int|
                    ctx - rt <= ax < ctx + dx && cty - rt <= ay <= cty + rt
                        ==> !(#[trigger] self.spec_tile_blocks(cfg, wx, wy, sz, ax, ay)),
            decreases rt + 1 - dx,
        {
            proof {
                reveal(TerrainMap::spec_passable_for_size);
            }
            let mut dy: i32 = -rt;
            while dy <= rt
                invariant
                    self.wf(),
                    size <= MAX_AGENT_SIZE,
                    rt == spec_radius_tiles(sz),
                    0 <= rt <= 500,
                    -rt <= dx <= rt,
                    -rt <= dy <= rt + 1,
                    0 <= ctx < self.width,
                    0 <= cty < self.height,
                    -4294967296 <= wx <= 4294967296,
                    -4294967296 <= wy <= 4294967296,
                    wx == world_x as int && wy == world_y as int && sz == size as int,
                    self.spec_world_to_tile(wx, wy) == Some((ctx as int, cty as int)),
                    forall|ax: int, ay: int|
                        ctx - rt <= ax < ctx + dx && cty - rt <= ay <= cty + rt
                            ==> !(#[trigger] self.spec_tile_blocks(cfg, wx, wy, sz, ax, ay)),
                    forall|ay: int|
                        cty - rt <= ay < cty + dy
                            ==> !(#[trigger] self.spec_tile_blocks(cfg, wx, wy, sz, ctx + dx, ay)),
                decreases rt + 1 - dy,
            {
                proof {
                    reveal(TerrainMap::spec_passable_for_size);
                }
                if self.tile_blocks_at(cfg, world_x, world_y, size, ctx + dx, cty + dy) {
                    return false;
                }
                dy = dy + 1;
            }
            dx = dx + 1;
        }
        proof {
            reveal(TerrainMap::spec_passable_for_size);
        }
        true
    }
}

impl TerrainMap {
    /// Whether an agent of the given size can travel the straight segment
    /// between the two world positions: the segment is sampled at an
    /// interval no coarser than half the radius (and no finer than a
    /// quarter tile), at most 51 points, and every sample must be passable
    /// for the size.
    pub fn is_path_segment_clear(
        &self, from_world: (i64, i64), to_world: (i64, i64), size: u32, cfg: &GroundConfigs,
    ) -> (r: bool)
        requires
            self.wf(),
            size <= MAX_AGENT_SIZE,
            -MAX_SEG_COORD <= from_world.0 <= MAX_SEG_COORD,
            -MAX_SEG_COORD <= from_world.1 <= MAX_SEG_COORD,
            -MAX_SEG_COORD <= to_world.0 <= MAX_SEG_COORD,
            -MAX_SEG_COORD <= to_world.1 <= MAX_SEG_COORD,
        ensures
            r == self.spec_segment_clear(
                cfg,
                from_world.0 as int, from_world.1 as int,
                to_world.0 as int, to_world.1 as int,
                size as int,
            ),
    {
        proof {
            reveal(TerrainMap::spec_segment_clear);
        }
        let dx: i64 = to_world.0 - from_world.0;
        let dy: i64 = to_world.1 - from_world.1;
        proof {
            lemma_square_bound(dx as int, 4294967296);
            lemma_square_bound(dy as int, 4294967296);
            lemma_mul_upper_bound(self.tile_size as int, 32768, self.tile_size as int, 32768);
        }
        let d2: i128 = dx as i128 * dx as i128 + dy as i128 * dy as i128;
        let cell2: i128 = self.tile_size as i128 * self.tile_size as i128;
        if 100 * d2 < cell2 {
            return self.is_position_passable_for_size(to_world.0, to_world.1, size, cfg);
        }
        let dfloor: u64 = isqrt_u128(d2 as u128);
        proof {
            assert(is_sqrt_floor(d2 as int, dfloor as int));
            assert(exists|r: int| is_sqrt_floor(d2 as int, r));
            lemma_sqrt_floor_unique(d2 as int, dfloor as int, sqrt_floor_of(d2 as int));
        }
        let ival: u32 = if size < 1000 { 1000 } else { size };
        proof {
            lemma_mul_upper_bound(self.tile_size as int, 32768, ival as int, 1000000);
            assert((self.tile_size as int) * (ival as int) >= 1000) by (nonlinear_arith)
                requires self.tile_size as int >= 1, ival as int >= 1000;
        }
        let inum: u64 = self.tile_size as u64 * ival as u64;
        let n0: u128 = (dfloor as u128 * 4000 + inum as u128 - 1) / inum as u128;
        let n1: u64 = if n0 > 50 { 50 } else { n0 as u64 };
        let n: u64 = if n1 == 0 { 1 } else { n1 };
        let ghost fx = from_world.0 as int;
        let ghost fy = from_world.1 as int;
        let ghost tx = to_world.0 as int;
        let ghost ty = to_world.1 as int;
        let ghost sz = size as int;
        let ghost gd2 = d2 as int;
        assert(n == self.spec_num_samples(sz, gd2));
        let mut i: u64 = 0;
        while i <= n
            invariant
                self.wf(),
                size <= MAX_AGENT_SIZE,
                1 <= n <= 50,
                gd2 == (tx - fx) * (tx - fx) + (ty - fy) * (ty - fy),
                !(100 * gd2 < (self.tile_size as int) * (self.tile_size as int)),
                n as int == self.spec_num_samples(sz, gd2),
                0 <= i <= n + 1,
                -4294967296 <= dx as int <= 4294967296,
                -4294967296 <= dy as int <= 4294967296,
                dx as int == tx - fx,
                dy as int == ty - fy,
                fx == from_world.0 as int && fy == from_world.1 as int,
                tx == to_world.0 as int && ty == to_world.1 as int,
                sz == size as int,
                -MAX_SEG_COORD <= from_world.0 <= MAX_SEG_COORD,
                -MAX_SEG_COORD <= from_world.1 <= MAX_SEG_COORD,
                forall|j: int| 0 <= j < i ==> #[trigger] self.spec_passable_for_size(
                    cfg,
                    Self::spec_sample_point(fx, fy, tx, ty, n as int, j).0,
                    Self::spec_sample_point(fx, fy, tx, ty, n as int, j).1,
                    sz,
                ),
            decreases n + 1 - i,
        {
            proof {
                reveal(TerrainMap::spec_segment_clear);
            }
            let ox: i64 = lerp_offset(dx, i, n);
            let oy: i64 = lerp_offset(dy, i, n);
            let sample_x: i64 = from_world.0 + ox;
            let sample_y: i64 = from_world.1 + oy;
            if !self.is_position_passable_for_size(sample_x, sample_y, size, cfg) {
                assert(!self.spec_passable_for_size(
                    cfg,
                    Self::spec_sample_point(fx, fy, tx, ty, n as int, i as int).0,
                    Self::spec_sample_point(fx, fy, tx, ty, n as int, i as int).1,
                    sz,
                ));
                return false;
            }
            i = i + 1;
        }
        proof {
            reveal(TerrainMap::spec_segment_clear);
        }
        true
    }
}

/// The integer square root, rounded down.
fn isqrt_u128(x: u128) -> (r: u64)
    ensures
        is_sqrt_floor(x as int, r as int),
{
    let mut lo: u128 = 0;
    let mut hi: u128 = 18446744073709551616;
    proof {
        assert((hi as int) * (hi as int) > x as int) by (nonlinear_arith)
            requires
                hi as int == 18446744073709551616,
                x as int <= 340282366920938463463374607431768211455,
        ;
    }
    while lo + 1 < hi
        invariant
            lo < hi <= 18446744073709551616,
            (lo as int) * (lo as int) <= x as int,
            (x as int) < (hi as int) * (hi as int),
        decreases hi - lo,
    {
        let mid: u128 = lo + (hi - lo) / 2;
        proof {
            assert((mid as int) * (mid as int) < 340282366920938463463374607431768211456int)
                by (nonlinear_arith)
                requires 0 <= mid as int <= 18446744073709551615int;
        }
        let sq: u128 = mid * mid;
        if sq <= x {
            lo = mid;
        } else {
            hi = mid;
        }
    }
    lo as u64
}

/// The integer square root is unique.
proof fn lemma_sqrt_floor_unique(x: int, r1: int, r2: int)
    requires
        is_sqrt_floor(x, r1),
        is_sqrt_floor(x, r2),
    ensures
        r1 == r2,
{
    assert(r1 == r2) by (nonlinear_arith)
        requires
            0 <= r1 && r1 * r1 <= x && x < (r1 + 1) * (r1 + 1),
            0 <= r2 && r2 * r2 <= x && x < (r2 + 1) * (r2 + 1),
    ;
}

/// The offset of the `i`-th of `n + 1` evenly spaced samples across a span
/// of `delta`: `delta * i / n` rounded to the nearest integer. The result
/// never leaves the span.
fn lerp_offset(delta: i64, i: u64, n: u64) -> (r: i64)
    requires
        1 <= n <= 50,
        0 <= i <= n,
        -4294967296 <= delta <= 4294967296,
    ensures
        r as int == spec_round_div(delta as int * i as int, n as int),
        delta >= 0 ==> 0 <= r <= delta,
        delta < 0 ==> delta <= r <= 0,
{
    proof {
        lemma_mul_abs_bound(delta as int, 4294967296, i as int, 50);
        lemma_round_div_in_span(delta as int, i as int, n as int);
    }
    let a: i128 = delta as i128 * i as i128;
    let num: i128 = 2 * a + n as i128;
    let den: i128 = 2 * n as i128;
    if num >= 0 {
        let q: u128 = num as u128 / den as u128;
        proof {
            lemma_div_pos_is_pos(num as int, den as int);
        }
        q as i64
    } else {
        let m: u128 = (-num) as u128;
        let q: u128 = (m + den as u128 - 1) / den as u128;
        proof {
            lemma_div_of_negated(m as int, den as int);
        }
        -(q as i64)
    }
}

/// For positive `m` and `d`, floor division of `-m` by `d` is the negated
/// ceiling division of `m` by `d`.
proof fn lemma_div_of_negated(m: int, d: int)
    requires
        0 < m,
        0 < d,
    ensures
        (-m) / d == -((m + d - 1) / d),
{
    let k = m / d;
    let s = m % d;
    vstd::arithmetic::div_mod::lemma_fundamental_div_mod(m, d);
    if s == 0 {
        assert(-m == (-k) * d + 0) by (nonlinear_arith)
            requires m == d * k;
        lemma_fundamental_div_mod_converse(-m, d, -k, 0);
        assert(m + d - 1 == k * d + (d - 1)) by (nonlinear_arith)
            requires m == d * k;
        lemma_fundamental_div_mod_converse(m + d - 1, d, k, d - 1);
    } else {
        assert(-m == (-(k + 1)) * d + (d - s)) by (nonlinear_arith)
            requires m == d * k + s;
        lemma_fundamental_div_mod_converse(-m, d, -(k + 1), d - s);
        assert(m + d - 1 == (k + 1) * d + (s - 1)) by (nonlinear_arith)
            requires m == d * k + s;
        lemma_fundamental_div_mod_converse(m + d - 1, d, k + 1, s - 1);
    }
}

/// The rounded sample offset stays between 0 and `delta`.
proof fn lemma_round_div_in_span(delta: int, i: int, n: int)
    requires
        1 <= n,
        0 <= i <= n,
    ensures
        delta >= 0 ==> 0 <= spec_round_div(delta * i, n) <= delta,
        delta < 0 ==> delta <= spec_round_div(delta * i, n) <= 0,
{
    let a = delta * i;
    let b = delta * n;
    lemma_fundamental_div_mod_converse(n, 2 * n, 0, n);
    assert(2 * b + n == delta * (2 * n) + n) by (nonlinear_arith)
        requires b == delta * n;
    lemma_fundamental_div_mod_converse(2 * b + n, 2 * n, delta, n);
    if delta >= 0 {
        assert(0 <= a && a <= b) by (nonlinear_arith)
            requires a == delta * i, b == delta * n, 0 <= delta, 0 <= i <= n;
        lemma_div_is_ordered(n, 2 * a + n, 2 * n);
        lemma_div_is_ordered(2 * a + n, 2 * b + n, 2 * n);
    } else {
        assert(b <= a && a <= 0) by (nonlinear_arith)
            requires a == delta * i, b == delta * n, delta < 0, 0 <= i <= n;
        lemma_div_is_ordered(2 * a + n, n, 2 * n);
        lemma_div_is_ordered(2 * b + n, 2 * a + n, 2 * n);
    }
}

/// `|a| <= m` gives `a^2 <= m^2`.
proof fn lemma_square_bound(a: int, m: int)
    requires
        -m <= a <= m,
        0 <= m,
    ensures
        0 <= a * a <= m * m,
{
    assert(0 <= a * a <= m * m) by (nonlinear_arith)
        requires -m <= a <= m, 0 <= m;
}

/// `|a| <= ma` and `0 <= b <= mb` give `|a b| <= ma mb`.
proof fn lemma_mul_abs_bound(a: int, ma: int, b: int, mb: int)
    requires
        -ma <= a <= ma,
        0 <= b <= mb,
        0 <= ma,
    ensures
        -(ma * mb) <= a * b <= ma * mb,
{
    assert(-(ma * mb) <= a * b <= ma * mb) by (nonlinear_arith)
        requires -ma <= a <= ma, 0 <= b <= mb, 0 <= ma;
}

/// Bounded factors give a bounded product.
proof fn lemma_mul_upper_bound(a: int, ma: int, b: int, mb: int)
    requires
        0 <= a <= ma,
        0 <= b <= mb,
    ensures
        0 <= a * b <= ma * mb,
{
    assert(0 <= a * b <= ma * mb) by (nonlinear_arith)
        requires 0 <= a <= ma, 0 <= b <= mb;
}

} // verus!
