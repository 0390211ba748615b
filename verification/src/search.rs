//! Grid path search: A* over 8-connected cells, with straight moves costing
//! 10 and diagonal moves 14, an octile-distance heuristic, and (in the
//! clearance-aware mode) size-dependent filtering of neighbours and of the
//! segments between them.

use vstd::prelude::*;

verus! {

use crate::grid::{TerrainMap, GroundConfigs};
use crate::clearance::MAX_AGENT_SIZE;
use crate::cache::{
    PathfindingCache, PathCacheKey, PassabilityCacheKey, CachedPassability,
    spec_path_key, spec_pass_key, spec_bump, path_view, CacheStats,
};

/// Whether the cache would miss on this passability key: no entry, or one
/// stored at an older terrain version.
pub open spec fn spec_pass_no_hit(c: &PathfindingCache, k: PassabilityCacheKey) -> bool {
    match c.spec_pass_lookup(k) {
        Some(e) => e.terrain_version != c.terrain_version,
        None => true,
    }
}

/// Whether the cache would miss on this path key: no entry, or one stored
/// at an older terrain version.
pub open spec fn spec_path_no_hit(c: &PathfindingCache, k: PathCacheKey) -> bool {
    match c.spec_path_lookup(k) {
        Some(e) => e.terrain_version != c.terrain_version,
        None => true,
    }
}

/// Which passability rule the search uses for a move between cells.
#[derive(Clone, Copy)]
pub enum SearchMode {
    /// A move only needs its destination cell to be a passable tile.
    Tiles,
    /// A move needs clearance for an agent of this size (in thousandths of
    /// a tile) at the destination centre and along the whole segment.
    Clearance(u32),
}

pub open spec fn spec_mode_ok(mode: SearchMode) -> bool {
    match mode {
        SearchMode::Tiles => true,
        SearchMode::Clearance(size) => size <= MAX_AGENT_SIZE,
    }
}

/// Cost of one move between adjacent cells: 14 if diagonal, else 10.
pub open spec fn spec_step_cost(a: (int, int), b: (int, int)) -> int {
    if a.0 != b.0 && a.1 != b.1 { 14int } else { 10int }
}

/// Whether the search may move from cell `a` to cell `b`: the cells are
/// 8-connected neighbours and `b` is open under the mode's rule.
pub open spec fn spec_move_allowed(
    map: &TerrainMap, cfg: &GroundConfigs, mode: SearchMode, a: (int, int), b: (int, int),
) -> bool {
    &&& -1 <= b.0 - a.0 <= 1
    &&& -1 <= b.1 - a.1 <= 1
    &&& b != a
    &&& match mode {
        SearchMode::Tiles => map.spec_tile_passable(cfg, b.0, b.1),
        SearchMode::Clearance(size) => {
            let aw = map.spec_tile_to_world(a.0, a.1);
            let bw = map.spec_tile_to_world(b.0, b.1);
            &&& map.spec_passable_for_size(cfg, bw.0, bw.1, size as int)
            &&& map.spec_segment_clear(cfg, aw.0, aw.1, bw.0, bw.1, size as int)
        },
    }
}

/// A valid route: starts at `start`, ends at `goal`, every step allowed.
pub open spec fn spec_is_path(
    map: &TerrainMap, cfg: &GroundConfigs, mode: SearchMode,
    q: Seq<(int, int)>, start: (int, int), goal: (int, int),
) -> bool {
    &&& q.len() >= 1
    &&& q[0] == start
    &&& q[q.len() - 1] == goal
    &&& forall|i: int| 0 <= i < q.len() - 1 ==> spec_move_allowed(map, cfg, mode, q[i], #[trigger] q[i + 1])
}

/// Total cost of a route: the sum of its step costs.
pub open spec fn spec_path_cost(q: Seq<(int, int)>) -> int
    decreases q.len(),
{
    if q.len() <= 1 {
        0int
    } else {
        spec_step_cost(q[0], q[1]) + spec_path_cost(q.drop_first())
    }
}

/// The cell path as mathematical pairs.
pub open spec fn cells_of(p: Seq<(i32, i32)>) -> Seq<(int, int)> {
    p.map_values(|c: (i32, i32)| (c.0 as int, c.1 as int))
}

/// The octile distance between two cells, with the same 10/4 weights the
/// step costs use; this is the search's heuristic.
pub open spec fn spec_octile(a: (int, int), b: (int, int)) -> int {
    let dx = if a.0 >= b.0 { a.0 - b.0 } else { b.0 - a.0 };
    let dy = if a.1 >= b.1 { a.1 - b.1 } else { b.1 - a.1 };
    if dx >= dy { 10 * dx + 4 * dy } else { 10 * dy + 4 * dx }
}

/// The heuristic of the search: octile distance to the goal.
fn octile_distance(c: (i32, i32), goal: (i32, i32)) -> (r: u32)
    requires
        -2 <= c.0 <= 40000,
        -2 <= c.1 <= 40000,
        -2 <= goal.0 <= 40000,
        -2 <= goal.1 <= 40000,
    ensures
        r as int == spec_octile((c.0 as int, c.1 as int), (goal.0 as int, goal.1 as int)),
{
    let dx: i32 = if c.0 >= goal.0 { c.0 - goal.0 } else { goal.0 - c.0 };
    let dy: i32 = if c.1 >= goal.1 { c.1 - goal.1 } else { goal.1 - c.1 };
    let hi: i32 = if dx >= dy { dx } else { dy };
    let lo: i32 = if dx >= dy { dy } else { dx };
    (hi * 10 + lo * 4) as u32
}

/// Whether the search may step from `a` to `b`, by the mode's rule.
fn move_allowed(
    map: &TerrainMap, cfg: &GroundConfigs, mode: SearchMode, a: (i32, i32), b: (i32, i32),
) -> (r: bool)
    requires
        map.wf(),
        spec_mode_ok(mode),
        -1 <= a.0 <= 32768 && -1 <= a.1 <= 32768,
        -1 <= b.0 <= 32768 && -1 <= b.1 <= 32768,
    ensures
        r == spec_move_allowed(map, cfg, mode, (a.0 as int, a.1 as int), (b.0 as int, b.1 as int)),
{
    let adj: bool = b.0 - a.0 >= -1 && b.0 - a.0 <= 1 && b.1 - a.1 >= -1 && b.1 - a.1 <= 1
        && !(b.0 == a.0 && b.1 == a.1);
    if !adj {
        return false;
    }
    match mode {
        SearchMode::Tiles => map.is_tile_passable(b.0, b.1, cfg),
        SearchMode::Clearance(size) => {
            proof {
                reveal(TerrainMap::spec_passable_for_size);
                reveal(TerrainMap::spec_segment_clear);
                lemma_center_in_seg_range(map, a.0 as int, a.1 as int);
                lemma_center_in_seg_range(map, b.0 as int, b.1 as int);
            }
            let aw = map.tile_to_world_coords(a.0, a.1);
            let bw = map.tile_to_world_coords(b.0, b.1);
            if !map.is_position_passable_for_size(bw.0, bw.1, size, cfg) {
                return false;
            }
            map.is_path_segment_clear(aw, bw, size, cfg)
        },
    }
}

/// Cell centres of near-grid cells stay within the segment sampler's
/// coordinate bound.
proof fn lemma_center_in_seg_range(map: &TerrainMap, tx: int, ty: int)
    requires
        map.wf(),
        -1 <= tx <= 32768,
        -1 <= ty <= 32768,
    ensures
        -2147483648 <= map.spec_tile_to_world(tx, ty).0 <= 2147483648,
        -2147483648 <= map.spec_tile_to_world(tx, ty).1 <= 2147483648,
{
    crate::grid::lemma_grid_extent_bound(map.width as int, map.tile_size as int);
    crate::grid::lemma_grid_extent_bound(map.height as int, map.tile_size as int);
    assert(-1073741824 <= tx * map.tile_size as int <= 1073741824int) by (nonlinear_arith)
        requires -1 <= tx <= 32768, 0 <= map.tile_size as int <= 32768;
    assert(-1073741824 <= ty * map.tile_size as int <= 1073741824int) by (nonlinear_arith)
        requires -1 <= ty <= 32768, 0 <= map.tile_size as int <= 32768;
}

/// The moves the search may take out of cell `c`, each with its cost:
/// exactly the allowed moves to the eight neighbours.
fn successor_moves(
    map: &TerrainMap, cfg: &GroundConfigs, mode: SearchMode, c: (i32, i32),
) -> (r: Vec<((i32, i32), u32)>)
    requires
        map.wf(),
        spec_mode_ok(mode),
        0 <= c.0 < map.width,
        0 <= c.1 < map.height,
    ensures
        forall|j: int| 0 <= j < r@.len() ==> {
            &&& spec_move_allowed(map, cfg, mode, (c.0 as int, c.1 as int),
                ((#[trigger] r@[j]).0.0 as int, r@[j].0.1 as int))
            &&& r@[j].1 as int == spec_step_cost(
                (c.0 as int, c.1 as int), (r@[j].0.0 as int, r@[j].0.1 as int))
        },
        forall|b: (int, int)|
            #[trigger] spec_move_allowed(map, cfg, mode, (c.0 as int, c.1 as int), b)
                ==> exists|j: int| 0 <= j < r@.len()
                    && ((#[trigger] r@[j]).0.0 as int, r@[j].0.1 as int) == b,
{
    let mut out: Vec<((i32, i32), u32)> = Vec::new();
    let mut dx: i32 = -1;
    while dx <= 1
        invariant
            map.wf(),
            spec_mode_ok(mode),
            0 <= c.0 < map.width <= 32768,
            0 <= c.1 < map.height <= 32768,
            -1 <= dx <= 2,
            forall|j: int| 0 <= j < out@.len() ==> {
                &&& spec_move_allowed(map, cfg, mode, (c.0 as int, c.1 as int),
                    ((#[trigger] out@[j]).0.0 as int, out@[j].0.1 as int))
                &&& out@[j].1 as int == spec_step_cost(
                    (c.0 as int, c.1 as int), (out@[j].0.0 as int, out@[j].0.1 as int))
            },
            forall|b: (int, int)|
                #[trigger] spec_move_allowed(map, cfg, mode, (c.0 as int, c.1 as int), b)
                    && b.0 - c.0 < dx
                    ==> exists|j: int| 0 <= j < out@.len()
                        && ((#[trigger] out@[j]).0.0 as int, out@[j].0.1 as int) == b,
        decreases 2 - dx,
    {
        let mut dy: i32 = -1;
        while dy <= 1
            invariant
                map.wf(),
                spec_mode_ok(mode),
                0 <= c.0 < map.width <= 32768,
                0 <= c.1 < map.height <= 32768,
                -1 <= dx <= 1,
                -1 <= dy <= 2,
                forall|j: int| 0 <= j < out@.len() ==> {
                    &&& spec_move_allowed(map, cfg, mode, (c.0 as int, c.1 as int),
                        ((#[trigger] out@[j]).0.0 as int, out@[j].0.1 as int))
                    &&& out@[j].1 as int == spec_step_cost(
                        (c.0 as int, c.1 as int), (out@[j].0.0 as int, out@[j].0.1 as int))
                },
                forall|b: (int, int)|
                    #[trigger] spec_move_allowed(map, cfg, mode, (c.0 as int, c.1 as int), b)
                        && (b.0 - c.0 < dx
                            || (b.0 - c.0 == dx && b.1 - c.1 < dy))
                        ==> exists|j: int| 0 <= j < out@.len()
                            && ((#[trigger] out@[j]).0.0 as int, out@[j].0.1 as int) == b,
            decreases 2 - dy,
        {
            let nb: (i32, i32) = (c.0 + dx, c.1 + dy);
            let ghost old_out = out@;
            if move_allowed(map, cfg, mode, (c.0, c.1), nb) {
                let cost: u32 = if dx != 0 && dy != 0 { 14 } else { 10 };
                out.push((nb, cost));
            }
            proof {
                assert forall|b: (int, int)|
                    spec_move_allowed(map, cfg, mode, (c.0 as int, c.1 as int), b)
                        && (b.0 - c.0 < dx || (b.0 - c.0 == dx && b.1 - c.1 < dy + 1))
                    implies exists|j: int| 0 <= j < out@.len()
                        && ((#[trigger] out@[j]).0.0 as int, out@[j].0.1 as int) == b
                by {
                    if b.0 - c.0 == dx && b.1 - c.1 == dy {
                        assert(b == (c.0 + dx as int, c.1 + dy as int));
                        assert(((out@[out@.len() - 1]).0.0 as int,
                            (out@[out@.len() - 1]).0.1 as int) == b);
                    } else {
                        let j0 = choose|j: int| 0 <= j < old_out.len()
                            && ((#[trigger] old_out[j]).0.0 as int, old_out[j].0.1 as int) == b;
                        assert(((out@[j0]).0.0 as int, (out@[j0]).0.1 as int) == b);
                    }
                }
            }
            dy = dy + 1;
        }
        dx = dx + 1;
    }
    out
}

/// Relies on `pathfinding::prelude::astar`: it returns a path from `start`
/// to `goal` chained through the successor function, together with its
/// cost, whenever one exists, and `None` only when none exists; the cost of
/// the returned path is the least possible, the heuristic being admissible
/// (see `lemma_octile_admissible`: octile distance never exceeds the cost
/// of a route). The search sums costs in `u32`; `map.wf()` caps either
/// dimension at 16384 cells, so a route visits under 2^28 cells and every
/// sum the search forms — a route prefix's cost, at most 14 per step, plus
/// one octile estimate — stays below 2^32.
#[verifier::external_body]
fn astar_search(
    map: &TerrainMap, cfg: &GroundConfigs, mode: SearchMode, start: (i32, i32), goal: (i32, i32),
) -> (r: Option<Vec<(i32, i32)>>)
    requires
        map.wf(),
        spec_mode_ok(mode),
        0 <= start.0 < map.width,
        0 <= start.1 < map.height,
        0 <= goal.0 < map.width,
        0 <= goal.1 < map.height,
    ensures
        match r {
            Some(p) => {
                &&& spec_is_path(map, cfg, mode, cells_of(p@),
                    (start.0 as int, start.1 as int), (goal.0 as int, goal.1 as int))
                &&& forall|q: Seq<(int, int)>|
                    spec_is_path(map, cfg, mode, q,
                        (start.0 as int, start.1 as int), (goal.0 as int, goal.1 as int))
                        ==> spec_path_cost(cells_of(p@)) <= spec_path_cost(q)
            },
            None => !exists|q: Seq<(int, int)>|
                spec_is_path(map, cfg, mode, q,
                    (start.0 as int, start.1 as int), (goal.0 as int, goal.1 as int)),
        },
{
    pathfinding::prelude::astar(
        &start,
        |c: &(i32, i32)| successor_moves(map, cfg, mode, *c),
        |c: &(i32, i32)| octile_distance(*c, goal),
        |c: &(i32, i32)| *c == goal,
    ).map(|pc| pc.0)
}

/// World waypoints `wp` are exactly the cell centres of the route `q`.
pub open spec fn spec_waypoints_of(
    map: &TerrainMap, q: Seq<(int, int)>, wp: Seq<(i64, i64)>,
) -> bool {
    &&& wp.len() == q.len()
    &&& forall|i: int| 0 <= i < q.len()
        ==> ((#[trigger] wp[i]).0 as int, wp[i].1 as int) == map.spec_tile_to_world(q[i].0, q[i].1)
}

/// A route that no other valid route undercuts.
pub open spec fn spec_min_cost_path(
    map: &TerrainMap, cfg: &GroundConfigs, mode: SearchMode,
    q: Seq<(int, int)>, start: (int, int), goal: (int, int),
) -> bool {
    &&& spec_is_path(map, cfg, mode, q, start, goal)
    &&& forall|q2: Seq<(int, int)>|
        spec_is_path(map, cfg, mode, q2, start, goal)
            ==> spec_path_cost(q) <= spec_path_cost(q2)
}

/// Maps a cell route to the world positions of the cell centres.
fn cells_to_world(map: &TerrainMap, cells: &Vec<(i32, i32)>) -> (r: Vec<(i64, i64)>)
    requires
        map.wf(),
    ensures
        spec_waypoints_of(map, cells_of(cells@), r@),
{
    let mut out: Vec<(i64, i64)> = Vec::new();
    let mut i: usize = 0;
    while i < cells.len()
        invariant
            map.wf(),
            0 <= i <= cells@.len(),
            out@.len() == i,
            forall|j: int| 0 <= j < i
                ==> ((#[trigger] out@[j]).0 as int, out@[j].1 as int)
                    == map.spec_tile_to_world(cells@[j].0 as int, cells@[j].1 as int),
        decreases cells@.len() - i,
    {
        let w = map.tile_to_world_coords(cells[i].0, cells[i].1);
        out.push(w);
        i = i + 1;
    }
    out
}

impl TerrainMap {
    /// A least-cost route between the cells under the two world positions,
    /// ignoring agent size: `None` when either position is outside the
    /// grid, when either endpoint's cell is impassable, or when no route
    /// exists; otherwise the waypoints are the centres of a valid
    /// least-cost cell route from the start cell to the goal cell.
    #[verifier::rlimit(60)]
    #[verifier::spinoff_prover]
    pub fn find_path(
        &self, start_world: (i64, i64), goal_world: (i64, i64), cfg: &GroundConfigs,
    ) -> (r: Option<Vec<(i64, i64)>>)
        requires
            self.wf(),
        ensures
            match (
                self.spec_world_to_tile(start_world.0 as int, start_world.1 as int),
                self.spec_world_to_tile(goal_world.0 as int, goal_world.1 as int),
            ) {
                (Some(st), Some(gt)) => {
                    if !self.spec_tile_passable(cfg, st.0, st.1)
                        || !self.spec_tile_passable(cfg, gt.0, gt.1) {
                        r.is_none()
                    } else {
                        &&& (r matches Some(wp) ==> exists|q: Seq<(int, int)>|
                            #[trigger] spec_min_cost_path(self, cfg, SearchMode::Tiles, q, st, gt)
                                && spec_waypoints_of(self, q, wp@))
                        &&& (r is None ==> !exists|q: Seq<(int, int)>|
                            spec_is_path(self, cfg, SearchMode::Tiles, q, st, gt))
                    }
                },
                _ => r.is_none(),
            },
    {
        let st = match self.world_to_tile_coords(start_world.0, start_world.1) {
            Some(t) => t,
            None => { return None; },
        };
        let gt = match self.world_to_tile_coords(goal_world.0, goal_world.1) {
            Some(t) => t,
            None => { return None; },
        };
        if !self.is_tile_passable(st.0, st.1, cfg) {
            return None;
        }
        if !self.is_tile_passable(gt.0, gt.1, cfg) {
            return None;
        }
        match astar_search(self, cfg, SearchMode::Tiles, st, gt) {
            Some(cells) => {
                let wp = cells_to_world(self, &cells);
                proof {
                    let q0 = cells_of(cells@);
                    assert(spec_min_cost_path(self, cfg, SearchMode::Tiles, q0,
                        (st.0 as int, st.1 as int), (gt.0 as int, gt.1 as int)));
                    assert(spec_waypoints_of(self, q0, wp@));
                    match (
                        self.spec_world_to_tile(start_world.0 as int, start_world.1 as int),
                        self.spec_world_to_tile(goal_world.0 as int, goal_world.1 as int),
                    ) {
                        (Some(stm), Some(gtm)) => {
                            assert(spec_min_cost_path(self, cfg, SearchMode::Tiles, q0, stm, gtm));
                        },
                        _ => {},
                    }
                }
                Some(wp)
            },
            None => {
                proof {
                    assert(!exists|q: Seq<(int, int)>| spec_is_path(
                        self, cfg, SearchMode::Tiles, q,
                        (st.0 as int, st.1 as int), (gt.0 as int, gt.1 as int)));
                }
                None
            },
        }
    }

    /// A least-cost clearance-aware route for an agent of the given size
    /// (in thousandths of a tile) between the two world positions. `None`
    /// when either position is outside the grid, when either position is
    /// not clearance-passable for the size, or when no route whose moves
    /// all keep the required clearance exists; otherwise the waypoints are
    /// the cell centres of such a route of least cost.
    #[verifier::rlimit(60)]
    #[verifier::spinoff_prover]
    pub fn find_path_for_size(
        &self, start_world: (i64, i64), goal_world: (i64, i64), size: u32, cfg: &GroundConfigs,
    ) -> (r: Option<Vec<(i64, i64)>>)
        requires
            self.wf(),
            size <= MAX_AGENT_SIZE,
        ensures
            match (
                self.spec_world_to_tile(start_world.0 as int, start_world.1 as int),
                self.spec_world_to_tile(goal_world.0 as int, goal_world.1 as int),
            ) {
                (Some(st), Some(gt)) => {
                    if !self.spec_passable_for_size(
                        cfg, start_world.0 as int, start_world.1 as int, size as int)
                        || !self.spec_passable_for_size(
                            cfg, goal_world.0 as int, goal_world.1 as int, size as int) {
                        r.is_none()
                    } else {
                        match r {
                            Some(wp) => exists|q: Seq<(int, int)>|
                                #[trigger] spec_min_cost_path(
                                    self, cfg, SearchMode::Clearance(size), q, st, gt)
                                    && spec_waypoints_of(self, q, wp@),
                            None => !exists|q: Seq<(int, int)>|
                                spec_is_path(self, cfg, SearchMode::Clearance(size), q, st, gt),
                        }
                    }
                },
                _ => r.is_none(),
            },
    {
        let st = match self.world_to_tile_coords(start_world.0, start_world.1) {
            Some(t) => t,
            None => { return None; },
        };
        let gt = match self.world_to_tile_coords(goal_world.0, goal_world.1) {
            Some(t) => t,
            None => { return None; },
        };
        if !self.is_position_passable_for_size(start_world.0, start_world.1, size, cfg) {
            return None;
        }
        if !self.is_position_passable_for_size(goal_world.0, goal_world.1, size, cfg) {
            return None;
        }
        match astar_search(self, cfg, SearchMode::Clearance(size), st, gt) {
            Some(cells) => {
                let wp = cells_to_world(self, &cells);
                proof {
                    let q0 = cells_of(cells@);
                    assert(spec_min_cost_path(self, cfg, SearchMode::Clearance(size), q0,
                        (st.0 as int, st.1 as int), (gt.0 as int, gt.1 as int)));
                    assert(spec_waypoints_of(self, q0, wp@));
                    match (
                        self.spec_world_to_tile(start_world.0 as int, start_world.1 as int),
                        self.spec_world_to_tile(goal_world.0 as int, goal_world.1 as int),
                    ) {
                        (Some(stm), Some(gtm)) => {
                            assert(spec_min_cost_path(
                                self, cfg, SearchMode::Clearance(size), q0, stm, gtm));
                        },
                        _ => {},
                    }
                }
                Some(wp)
            },
            None => None,
        }
    }
}

impl TerrainMap {
    /// Clearance passability of a world position, answered from the cache
    /// when it holds an entry at the current terrain version, and computed
    /// and cached otherwise. Out-of-grid positions are impassable and do
    /// not touch the cache.
    fn passability_for_size_cached(
        &self, cfg: &GroundConfigs, cache: &mut PathfindingCache,
        world_x: i64, world_y: i64, size: u32,
    ) -> (r: bool)
        requires
            self.wf(),
            size <= MAX_AGENT_SIZE,
            old(cache).wf(),
        ensures
            final(cache).wf(),
            final(cache).terrain_version == old(cache).terrain_version,
            final(cache).clock_ms == old(cache).clock_ms,
            forall|k2: PathCacheKey|
                final(cache).spec_path_lookup(k2) == old(cache).spec_path_lookup(k2),
            match self.spec_world_to_tile(world_x as int, world_y as int) {
                None => r == false && *final(cache) == *old(cache),
                Some(t) => {
                    let k = spec_pass_key(t.0 as i32, t.1 as i32, size as int);
                    if spec_pass_no_hit(old(cache), k) {
                        &&& r == self.spec_passable_for_size(
                            cfg, world_x as int, world_y as int, size as int)
                        &&& final(cache).spec_pass_lookup(k) == Some(CachedPassability {
                            is_passable: r,
                            terrain_version: old(cache).terrain_version,
                            last_accessed: old(cache).clock_ms,
                        })
                        &&& forall|k2: PassabilityCacheKey| k2 != k
                            ==> final(cache).spec_pass_lookup(k2)
                                == old(cache).spec_pass_lookup(k2)
                        &&& final(cache).stats == (CacheStats {
                            passability_cache_misses: spec_bump(
                                old(cache).stats.passability_cache_misses),
                            ..old(cache).stats
                        })
                    } else {
                        &&& r == old(cache).spec_pass_lookup(k).unwrap().is_passable
                        &&& forall|k2: PassabilityCacheKey| k2 != k
                            ==> final(cache).spec_pass_lookup(k2)
                                == old(cache).spec_pass_lookup(k2)
                        &&& final(cache).stats == (CacheStats {
                            passability_cache_hits: spec_bump(
                                old(cache).stats.passability_cache_hits),
                            ..old(cache).stats
                        })
                    }
                },
            },
    {
        let (tx, ty) = match self.world_to_tile_coords(world_x, world_y) {
            Some(t) => t,
            None => { return false; },
        };
        match cache.get_passability(tx, ty, size) {
            Some(b) => b,
            None => {
                let b = self.is_position_passable_for_size(world_x, world_y, size, cfg);
                cache.cache_passability(tx, ty, size, b);
                b
            },
        }
    }

    /// `find_path_for_size` answered through the cache: a stored answer at
    /// the current terrain version (a "no path" answer included) is
    /// returned as a hit; on a miss the route — its endpoint clearance
    /// checks themselves answered through the passability tier — is
    /// computed, stored under the request's key at the current version, and
    /// returned. When the cache holds no current passability entry for
    /// either endpoint, the answer is exactly that of the uncached search.
    pub fn find_path_for_size_cached(
        &self, start_world: (i64, i64), goal_world: (i64, i64), size: u32,
        cfg: &GroundConfigs, cache: &mut PathfindingCache,
    ) -> (r: Option<Vec<(i64, i64)>>)
        requires
            self.wf(),
            size <= MAX_AGENT_SIZE,
            old(cache).wf(),
        ensures
            final(cache).wf(),
            match (
                self.spec_world_to_tile(start_world.0 as int, start_world.1 as int),
                self.spec_world_to_tile(goal_world.0 as int, goal_world.1 as int),
            ) {
                (Some(st), Some(gt)) => {
                    let k = spec_path_key(
                        (st.0 as i32, st.1 as i32), (gt.0 as i32, gt.1 as i32), size as int);
                    if !spec_path_no_hit(old(cache), k) {
                        &&& path_view(r) == path_view(
                            old(cache).spec_path_lookup(k).unwrap().path)
                        &&& final(cache).stats == (CacheStats {
                            path_cache_hits: spec_bump(old(cache).stats.path_cache_hits),
                            ..old(cache).stats
                        })
                        &&& final(cache).terrain_version == old(cache).terrain_version
                    } else {
                        &&& (match final(cache).spec_path_lookup(k) {
                            Some(e2) => path_view(e2.path) == path_view(r)
                                && e2.terrain_version == old(cache).terrain_version,
                            None => false,
                        })
                        &&& final(cache).terrain_version == old(cache).terrain_version
                        &&& final(cache).stats.path_cache_misses
                            == spec_bump(old(cache).stats.path_cache_misses)
                        &&& final(cache).stats.path_cache_hits
                            == old(cache).stats.path_cache_hits
                        &&& (r matches Some(wp) ==> exists|q: Seq<(int, int)>|
                            #[trigger] spec_min_cost_path(
                                self, cfg, SearchMode::Clearance(size), q, st, gt)
                                && spec_waypoints_of(self, q, wp@))
                        &&& (spec_pass_no_hit(old(cache),
                                spec_pass_key(st.0 as i32, st.1 as i32, size as int))
                            && spec_pass_no_hit(old(cache),
                                spec_pass_key(gt.0 as i32, gt.1 as i32, size as int))
                            ==> {
                                let s_ok = self.spec_passable_for_size(
                                    cfg, start_world.0 as int, start_world.1 as int,
                                    size as int);
                                let g_ok = self.spec_passable_for_size(
                                    cfg, goal_world.0 as int, goal_world.1 as int,
                                    size as int);
                                let same_key = spec_pass_key(st.0 as i32, st.1 as i32, size as int)
                                    == spec_pass_key(gt.0 as i32, gt.1 as i32, size as int);
                                &&& (!s_ok ==> r is None)
                                &&& (!same_key && !g_ok ==> r is None)
                                &&& (s_ok && (same_key || g_ok) && r is None
                                    ==> !exists|q: Seq<(int, int)>| spec_is_path(
                                        self, cfg, SearchMode::Clearance(size), q, st, gt))
                            })
                    }
                },
                _ => r is None && *final(cache) == *old(cache),
            },
    {
        let st = match self.world_to_tile_coords(start_world.0, start_world.1) {
            Some(t) => t,
            None => { return None; },
        };
        let gt = match self.world_to_tile_coords(goal_world.0, goal_world.1) {
            Some(t) => t,
            None => { return None; },
        };
        match cache.get_path(st, gt, size) {
            Some(hit) => hit,
            None => {
                let s_ok = self.passability_for_size_cached(
                    cfg, cache, start_world.0, start_world.1, size);
                let g_ok = self.passability_for_size_cached(
                    cfg, cache, goal_world.0, goal_world.1, size);
                let result: Option<Vec<(i64, i64)>> = if !s_ok || !g_ok {
                    None
                } else {
                    match astar_search(self, cfg, SearchMode::Clearance(size), st, gt) {
                        Some(cells) => {
                            let wp = cells_to_world(self, &cells);
                            proof {
                                let q0 = cells_of(cells@);
                                assert(spec_min_cost_path(
                                    self, cfg, SearchMode::Clearance(size), q0,
                                    (st.0 as int, st.1 as int), (gt.0 as int, gt.1 as int)));
                                assert(spec_waypoints_of(self, q0, wp@));
                                match (
                                    self.spec_world_to_tile(
                                        start_world.0 as int, start_world.1 as int),
                                    self.spec_world_to_tile(
                                        goal_world.0 as int, goal_world.1 as int),
                                ) {
                                    (Some(stm), Some(gtm)) => {
                                        assert(spec_min_cost_path(
                                            self, cfg, SearchMode::Clearance(size), q0,
                                            stm, gtm));
                                    },
                                    _ => {},
                                }
                            }
                            Some(wp)
                        },
                        None => None,
                    }
                };
                let copy = crate::cache::clone_path(&result);
                cache.cache_path(st, gt, size, copy, self);
                result
            },
        }
    }
}


/// Chebyshev distance between two cells.
pub open spec fn spec_cheby(a: (int, int), b: (int, int)) -> int {
    let dx = if a.0 >= b.0 { a.0 - b.0 } else { b.0 - a.0 };
    let dy = if a.1 >= b.1 { a.1 - b.1 } else { b.1 - a.1 };
    if dx >= dy { dx } else { dy }
}

/// `t` is a passable cell and no passable cell lies nearer (in Chebyshev
/// distance) to `ct`.
pub open spec fn spec_nearest_passable(
    map: &TerrainMap, cfg: &GroundConfigs, ct: (int, int), t: (int, int),
) -> bool {
    &&& map.spec_tile_passable(cfg, t.0, t.1)
    &&& forall|t2: (int, int)| #[trigger] map.spec_tile_passable(cfg, t2.0, t2.1)
        ==> spec_cheby(t2, ct) >= spec_cheby(t, ct)
}

impl TerrainMap {
    /// The centre of the passable cell nearest (in Chebyshev distance) to
    /// the cell under the given world position, searching outward up to 20
    /// cells: the position's own cell if passable, otherwise some passable
    /// cell at the least distance at which one exists, or `None` when the
    /// position is off the grid or no passable cell lies within reach.
    pub fn find_nearest_passable_tile(
        &self, start_world: (i64, i64), cfg: &GroundConfigs,
    ) -> (r: Option<(i64, i64)>)
        requires
            self.wf(),
        ensures
            match self.spec_world_to_tile(start_world.0 as int, start_world.1 as int) {
                None => r is None,
                Some(ct) => {
                    if self.spec_tile_passable(cfg, ct.0, ct.1) {
                        r matches Some(w)
                            && (w.0 as int, w.1 as int) == self.spec_tile_to_world(ct.0, ct.1)
                    } else {
                        match r {
                            Some(w) => exists|t: (int, int)|
                                #[trigger] spec_nearest_passable(self, cfg, ct, t)
                                && (w.0 as int, w.1 as int)
                                    == self.spec_tile_to_world(t.0, t.1)
                                && 1 <= spec_cheby(t, ct) <= 20,
                            None => forall|t: (int, int)| spec_cheby(t, ct) <= 20
                                ==> !(#[trigger] self.spec_tile_passable(cfg, t.0, t.1)),
                        }
                    }
                },
            },
    {
        let (cx, cy) = match self.world_to_tile_coords(start_world.0, start_world.1) {
            Some(t) => t,
            None => { return None; },
        };
        if self.is_tile_passable(cx, cy, cfg) {
            return Some(self.tile_to_world_coords(cx, cy));
        }
        let ghost ct = (cx as int, cy as int);
        let mut radius: i32 = 1;
        while radius <= 20
            invariant
                self.wf(),
                0 <= cx < self.width,
                0 <= cy < self.height,
                ct == (cx as int, cy as int),
                self.spec_world_to_tile(start_world.0 as int, start_world.1 as int)
                    == Some(ct),
                !self.spec_tile_passable(cfg, ct.0, ct.1),
                1 <= radius <= 21,
                forall|t: (int, int)| spec_cheby(t, ct) < radius
                    ==> !(#[trigger] self.spec_tile_passable(cfg, t.0, t.1)),
            decreases 21 - radius,
        {
            let mut dx: i32 = -radius;
            while dx <= radius
                invariant
                    self.wf(),
                    0 <= cx < self.width,
                    0 <= cy < self.height,
                    ct == (cx as int, cy as int),
                    self.spec_world_to_tile(start_world.0 as int, start_world.1 as int)
                        == Some(ct),
                    !self.spec_tile_passable(cfg, ct.0, ct.1),
                    1 <= radius <= 20,
                    -radius <= dx <= radius + 1,
                    forall|t: (int, int)| spec_cheby(t, ct) < radius
                        ==> !(#[trigger] self.spec_tile_passable(cfg, t.0, t.1)),
                    forall|t: (int, int)| spec_cheby(t, ct) == radius && t.0 - ct.0 < dx
                        ==> !(#[trigger] self.spec_tile_passable(cfg, t.0, t.1)),
                decreases radius + 1 - dx,
            {
                let mut dy: i32 = -radius;
                while dy <= radius
                    invariant
                        self.wf(),
                        0 <= cx < self.width,
                        0 <= cy < self.height,
                        ct == (cx as int, cy as int),
                        self.spec_world_to_tile(start_world.0 as int, start_world.1 as int)
                            == Some(ct),
                        !self.spec_tile_passable(cfg, ct.0, ct.1),
                        1 <= radius <= 20,
                        -radius <= dx <= radius,
                        -radius <= dy <= radius + 1,
                        forall|t: (int, int)| spec_cheby(t, ct) < radius
                            ==> !(#[trigger] self.spec_tile_passable(cfg, t.0, t.1)),
                        forall|t: (int, int)| spec_cheby(t, ct) == radius && t.0 - ct.0 < dx
                            ==> !(#[trigger] self.spec_tile_passable(cfg, t.0, t.1)),
                        forall|t: (int, int)| spec_cheby(t, ct) == radius
                            && t.0 - ct.0 == dx && t.1 - ct.1 < dy
                            ==> !(#[trigger] self.spec_tile_passable(cfg, t.0, t.1)),
                    decreases radius + 1 - dy,
                {
                    let on_ring: bool = dx == -radius || dx == radius
                        || dy == -radius || dy == radius;
                    if on_ring {
                        let tx: i32 = cx + dx;
                        let ty: i32 = cy + dy;
                        if self.is_tile_passable(tx, ty, cfg) {
                            let w = self.tile_to_world_coords(tx, ty);
                            proof {
                                let t0 = (tx as int, ty as int);
                                assert(spec_cheby(t0, ct) == radius);
                                assert forall|t2: (int, int)|
                                    #[trigger] self.spec_tile_passable(cfg, t2.0, t2.1)
                                    implies spec_cheby(t2, ct) >= spec_cheby(t0, ct)
                                by {
                                    if spec_cheby(t2, ct) < radius {
                                        assert(!self.spec_tile_passable(cfg, t2.0, t2.1));
                                    }
                                }
                                assert(spec_nearest_passable(self, cfg, ct, t0)
                                    && (w.0 as int, w.1 as int)
                                        == self.spec_tile_to_world(t0.0, t0.1)
                                    && 1 <= spec_cheby(t0, ct) <= 20);
                            }
                            return Some(w);
                        }
                    }
                    proof {
                        assert forall|t: (int, int)| spec_cheby(t, ct) == radius
                            && t.0 - ct.0 == dx && t.1 - ct.1 == dy
                            implies !(#[trigger] self.spec_tile_passable(cfg, t.0, t.1))
                        by {
                            assert(t == (cx + dx as int, cy + dy as int));
                        }
                    }
                    dy = dy + 1;
                }
                dx = dx + 1;
            }
            proof {
                assert forall|t: (int, int)| spec_cheby(t, ct) < radius + 1
                    implies !(#[trigger] self.spec_tile_passable(cfg, t.0, t.1))
                by {
                    if spec_cheby(t, ct) == radius {
                        assert(t.0 - ct.0 < radius + 1);
                    }
                }
            }
            radius = radius + 1;
        }
        None
    }
}

/// One allowed move cannot bring a cell closer to `g` (in octile
/// distance) by more than the move's own cost.
pub proof fn lemma_octile_step(a: (int, int), b: (int, int), g: (int, int))
    requires
        -1 <= b.0 - a.0 <= 1,
        -1 <= b.1 - a.1 <= 1,
    ensures
        spec_octile(a, g) <= spec_step_cost(a, b) + spec_octile(b, g),
{
}

/// The octile heuristic is admissible: no valid route from `start` to
/// `goal`, in either mode, costs less than the octile distance between
/// them. This is the condition under which the underlying search is bound
/// to return a least-cost route.
pub proof fn lemma_octile_admissible(
    map: &TerrainMap, cfg: &GroundConfigs, mode: SearchMode,
    q: Seq<(int, int)>, start: (int, int), goal: (int, int),
)
    requires
        spec_is_path(map, cfg, mode, q, start, goal),
    ensures
        spec_path_cost(q) >= spec_octile(start, goal),
    decreases q.len(),
{
    if q.len() == 1 {
        assert(start == goal);
    } else {
        let rest = q.drop_first();
        assert(spec_move_allowed(map, cfg, mode, q[0int], q[0int + 1]));
        assert(spec_is_path(map, cfg, mode, rest, q[1], goal)) by {
            assert(rest[rest.len() - 1] == q[q.len() - 1]);
            assert forall|i: int| 0 <= i < rest.len() - 1
                implies spec_move_allowed(map, cfg, mode, rest[i], #[trigger] rest[i + 1])
            by {
                assert(rest[i] == q[i + 1] && rest[i + 1] == q[i + 2]);
                assert(spec_move_allowed(map, cfg, mode, q[i + 1], q[i + 1 + 1]));
            }
        }
        lemma_octile_admissible(map, cfg, mode, rest, q[1], goal);
        lemma_octile_step(q[0], q[1], goal);
    }
}

} // verus!
