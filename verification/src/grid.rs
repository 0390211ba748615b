//! The grid: terrain classes per cell, the passability side table, and the
//! exact world/cell coordinate transforms.

use vstd::prelude::*;

verus! {

use vstd::arithmetic::div_mod::{
    lemma_fundamental_div_mod_converse, lemma_div_is_ordered, lemma_div_pos_is_pos,
};

/// Index into the terrain-class side table.
pub type TerrainType = usize;

/// Upper bound on the grid dimensions and on the cell size: every
/// coordinate computation fits comfortably in the machine integers, and a
/// route over the grid can never sum its 10/14 step costs past the 32-bit
/// ceiling the search adds them in (14 * 16384 * 16384 stays below 2^32).
pub const MAX_GRID_DIM: u32 = 16384;

/// One terrain class: the sprite it is drawn with and whether agents may
/// stand on it.
pub struct GroundConfig {
    pub sprite: String,
    pub passable: bool,
}

/// The terrain-class side table. The index of an entry is its
/// `TerrainType`; entries also carry the class name they were loaded under.
pub struct GroundConfigs {
    pub entries: Vec<(String, GroundConfig)>,
}

impl GroundConfigs {
    /// Whether terrain class `t` names a passable entry of the table.
    /// Unknown classes are impassable.
    pub open spec fn spec_is_passable(&self, t: int) -> bool {
        0 <= t < self.entries@.len() && self.entries@[t].1.passable
    }

    pub fn new() -> (r: GroundConfigs)
        ensures
            r.entries@.len() == 0,
    {
        GroundConfigs { entries: Vec::new() }
    }

    /// Appends a terrain class; its index is the table length before the call.
    pub fn add_class(&mut self, name: &str, sprite: &str, passable: bool)
        ensures
            final(self).entries@.len() == old(self).entries@.len() + 1,
            forall|j: int| 0 <= j < old(self).entries@.len()
                ==> final(self).entries@[j] == old(self).entries@[j],
            final(self).entries@.last().0@ == name@,
            final(self).entries@.last().1.sprite@ == sprite@,
            final(self).entries@.last().1.passable == passable,
    {
        let n: String = name.to_owned();
        let s: String = sprite.to_owned();
        self.entries.push((n, GroundConfig { sprite: s, passable }));
    }

    /// True iff class `t` exists and is passable.
    pub fn is_passable(&self, t: TerrainType) -> (r: bool)
        ensures
            r == self.spec_is_passable(t as int),
    {
        if t < self.entries.len() {
            self.entries[t].1.passable
        } else {
            false
        }
    }

    /// The index that the given class name was registered under; the first
    /// match wins.
    pub fn terrain_index(&self, name: &str) -> (r: Option<usize>)
        ensures
            match r {
                Some(i) => 0 <= i < self.entries@.len()
                    && self.entries@[i as int].0@ == name@
                    && (forall|j: int| 0 <= j < i ==> self.entries@[j].0@ != name@),
                None => forall|j: int| 0 <= j < self.entries@.len()
                    ==> self.entries@[j].0@ != name@,
            },
    {
        let query: String = name.to_owned();
        let mut i: usize = 0;
        while i < self.entries.len()
            invariant
                query@ == name@,
                0 <= i <= self.entries@.len(),
                forall|j: int| 0 <= j < i ==> self.entries@[j].0@ != name@,
            decreases self.entries@.len() - i,
        {
            if self.entries[i].0 == query {
                return Some(i);
            }
            i = i + 1;
        }
        None
    }
}

/// The ordered list of cell edits made since the cache last consumed them.
pub struct TerrainChanges {
    pub changed_tiles: Vec<(u32, u32, TerrainType)>,
}

impl Default for TerrainChanges {
    fn default() -> (r: TerrainChanges)
        ensures
            r.changed_tiles@.len() == 0,
    {
        TerrainChanges { changed_tiles: Vec::new() }
    }
}

impl TerrainChanges {
    /// Records one cell edit at the end of the list.
    pub fn add_change(&mut self, x: u32, y: u32, terrain_type: TerrainType)
        ensures
            final(self).changed_tiles@ =~= old(self).changed_tiles@.push((x, y, terrain_type)),
    {
        self.changed_tiles.push((x, y, terrain_type));
    }

    /// Empties the list; called by the consumer once a batch is processed.
    pub fn clear(&mut self)
        ensures
            final(self).changed_tiles@.len() == 0,
    {
        self.changed_tiles.clear();
    }
}

/// The terrain grid: `width` by `height` cells of `tile_size` world units,
/// centred on the world origin.
pub struct TerrainMap {
    pub width: u32,
    pub height: u32,
    pub tile_size: u32,
    pub tiles: Vec<Vec<TerrainType>>,
}

impl TerrainMap {
    /// Well-formedness: the cell array matches the declared dimensions and
    /// every dimension is within the machine bound.
    pub open spec fn wf(&self) -> bool {
        &&& 1 <= self.tile_size <= MAX_GRID_DIM
        &&& self.width <= MAX_GRID_DIM
        &&& self.height <= MAX_GRID_DIM
        &&& self.tiles@.len() == self.width
        &&& forall|i: int| 0 <= i < self.width ==> (#[trigger] self.tiles@[i])@.len() == self.height
    }

    pub open spec fn spec_tile_at(&self, tx: int, ty: int) -> TerrainType {
        self.tiles@[tx]@[ty]
    }

    pub open spec fn in_bounds(&self, tx: int, ty: int) -> bool {
        0 <= tx < self.width && 0 <= ty < self.height
    }

    /// Westward offset of the grid: cell (0,0) starts at world x `-off_x()`.
    pub open spec fn off_x(&self) -> int {
        (self.width as int * self.tile_size as int) / 2
    }

    pub open spec fn off_y(&self) -> int {
        (self.height as int * self.tile_size as int) / 2
    }

    /// The world position of a cell's centre.
    pub open spec fn spec_tile_to_world(&self, tx: int, ty: int) -> (int, int) {
        (
            tx * self.tile_size as int - self.off_x() + self.tile_size as int / 2,
            ty * self.tile_size as int - self.off_y() + self.tile_size as int / 2,
        )
    }

    /// The cell containing a world position, or `None` outside the grid.
    pub open spec fn spec_world_to_tile(&self, wx: int, wy: int) -> Option<(int, int)> {
        let sx = wx + self.off_x();
        let sy = wy + self.off_y();
        if 0 <= sx < self.width as int * self.tile_size as int
            && 0 <= sy < self.height as int * self.tile_size as int {
            Some((sx / (self.tile_size as int), sy / (self.tile_size as int)))
        } else {
            None
        }
    }

    /// Whether the cell `(tx, ty)` is inside the grid and carries a passable
    /// terrain class; anything out of bounds is impassable.
    pub open spec fn spec_tile_passable(&self, cfg: &GroundConfigs, tx: int, ty: int) -> bool {
        self.in_bounds(tx, ty) && cfg.spec_is_passable(self.spec_tile_at(tx, ty) as int)
    }

    /// A fresh grid where every cell holds terrain class 0.
    pub fn new(width: u32, height: u32, tile_size: u32) -> (r: TerrainMap)
        requires
            1 <= tile_size <= MAX_GRID_DIM,
            width <= MAX_GRID_DIM,
            height <= MAX_GRID_DIM,
        ensures
            r.wf(),
            r.width == width,
            r.height == height,
            r.tile_size == tile_size,
            forall|tx: int, ty: int| r.in_bounds(tx, ty) ==> r.spec_tile_at(tx, ty) == 0usize,
    {
        let row: Vec<TerrainType> = vec_filled_with_zero(height as usize);
        let mut tiles: Vec<Vec<TerrainType>> = Vec::new();
        let mut i: usize = 0;
        while i < width as usize
            invariant
                0 <= i <= width,
                tiles@.len() == i,
                row@.len() == height,
                forall|k: int| 0 <= k < row@.len() ==> row@[k] == 0usize,
                forall|k: int| 0 <= k < i ==> (#[trigger] tiles@[k])@ =~= row@,
            decreases width - i,
        {
            tiles.push(row.clone());
            i = i + 1;
        }
        TerrainMap { width, height, tile_size, tiles }
    }

    /// Overwrites the terrain class of an in-bounds cell; out-of-bounds
    /// coordinates are ignored.
    pub fn set_tile(&mut self, x: u32, y: u32, terrain_type: TerrainType)
        requires
            old(self).wf(),
        ensures
            final(self).wf(),
            final(self).width == old(self).width,
            final(self).height == old(self).height,
            final(self).tile_size == old(self).tile_size,
            x < old(self).width && y < old(self).height ==> {
                &&& final(self).spec_tile_at(x as int, y as int) == terrain_type
                &&& forall|tx: int, ty: int|
                    old(self).in_bounds(tx, ty) && !(tx == x as int && ty == y as int)
                        ==> final(self).spec_tile_at(tx, ty) == old(self).spec_tile_at(tx, ty)
            },
            !(x < old(self).width && y < old(self).height) ==> *final(self) == *old(self),
    {
        if x < self.width && y < self.height {
            self.tiles[x as usize][y as usize] = terrain_type;
            assert(forall|tx: int, ty: int|
                old(self).in_bounds(tx, ty) && !(tx == x as int && ty == y as int)
                    ==> self.spec_tile_at(tx, ty) == old(self).spec_tile_at(tx, ty));
        }
    }

    /// True iff the cell is in bounds and its class is passable.
    pub fn is_tile_passable(&self, tile_x: i32, tile_y: i32, cfg: &GroundConfigs) -> (r: bool)
        requires
            self.wf(),
        ensures
            r == self.spec_tile_passable(cfg, tile_x as int, tile_y as int),
    {
        if tile_x >= 0 && (tile_x as u32) < self.width && tile_y >= 0 && (tile_y as u32) < self.height {
            cfg.is_passable(self.tiles[tile_x as usize][tile_y as usize])
        } else {
            false
        }
    }

    /// Converts a world position to the cell containing it, `None` outside
    /// the grid extent.
    pub fn world_to_tile_coords(&self, world_x: i64, world_y: i64) -> (r: Option<(i32, i32)>)
        requires
            self.wf(),
        ensures
            r.is_some() == self.spec_world_to_tile(world_x as int, world_y as int).is_some(),
            r matches Some(t) ==> {
                &&& self.spec_world_to_tile(world_x as int, world_y as int)
                    == Some((t.0 as int, t.1 as int))
                &&& self.in_bounds(t.0 as int, t.1 as int)
            },
    {
        proof {
            lemma_grid_extent_bound(self.width as int, self.tile_size as int);
            lemma_grid_extent_bound(self.height as int, self.tile_size as int);
        }
        let cell: i128 = self.tile_size as i128;
        let lx: i128 = self.width as i128 * cell;
        let ly: i128 = self.height as i128 * cell;
        let sx: i128 = world_x as i128 + lx / 2;
        let sy: i128 = world_y as i128 + ly / 2;
        if 0 <= sx && sx < lx && 0 <= sy && sy < ly {
            let tx: u64 = (sx as u64) / (self.tile_size as u64);
            let ty: u64 = (sy as u64) / (self.tile_size as u64);
            proof {
                let c = self.tile_size as int;
                lemma_div_pos_is_pos(sx as int, c);
                lemma_div_pos_is_pos(sy as int, c);
                lemma_div_is_ordered(sx as int, lx as int - 1, c);
                lemma_div_is_ordered(sy as int, ly as int - 1, c);
                assert((self.width as int - 1) * c + (c - 1) == lx as int - 1) by (nonlinear_arith)
                    requires lx as int == self.width as int * c;
                assert((self.height as int - 1) * c + (c - 1) == ly as int - 1) by (nonlinear_arith)
                    requires ly as int == self.height as int * c;
                lemma_fundamental_div_mod_converse(
                    lx as int - 1, c, self.width as int - 1, c - 1);
                lemma_fundamental_div_mod_converse(
                    ly as int - 1, c, self.height as int - 1, c - 1);
            }
            Some((tx as i32, ty as i32))
        } else {
            None
        }
    }

    /// The world position of a cell's centre; defined for any cell index,
    /// also outside the grid.
    pub fn tile_to_world_coords(&self, tile_x: i32, tile_y: i32) -> (r: (i64, i64))
        requires
            self.wf(),
        ensures
            r.0 as int == self.spec_tile_to_world(tile_x as int, tile_y as int).0,
            r.1 as int == self.spec_tile_to_world(tile_x as int, tile_y as int).1,
    {
        proof {
            lemma_grid_extent_bound(self.width as int, self.tile_size as int);
            lemma_grid_extent_bound(self.height as int, self.tile_size as int);
            lemma_tile_coord_product_bound(tile_x as int, self.tile_size as int);
            lemma_tile_coord_product_bound(tile_y as int, self.tile_size as int);
        }
        let cell: i64 = self.tile_size as i64;
        let half_w: i64 = (self.width as i64 * cell) / 2;
        let half_h: i64 = (self.height as i64 * cell) / 2;
        let wx: i64 = tile_x as i64 * cell - half_w + cell / 2;
        let wy: i64 = tile_y as i64 * cell - half_h + cell / 2;
        (wx, wy)
    }

    /// The terrain class under a world position, `None` outside the grid.
    pub fn get_terrain_at_world_pos(&self, world_x: i64, world_y: i64) -> (r: Option<TerrainType>)
        requires
            self.wf(),
        ensures
            match self.spec_world_to_tile(world_x as int, world_y as int) {
                Some(t) => r == Some(self.spec_tile_at(t.0, t.1)),
                None => r.is_none(),
            },
    {
        match self.world_to_tile_coords(world_x, world_y) {
            Some((tx, ty)) => Some(self.tiles[tx as usize][ty as usize]),
            None => None,
        }
    }

    /// Whether the cell under a world position is passable; out-of-bounds
    /// positions are impassable.
    pub fn is_passable_at_world_pos(&self, world_x: i64, world_y: i64, cfg: &GroundConfigs) -> (r: bool)
        requires
            self.wf(),
        ensures
            r == match self.spec_world_to_tile(world_x as int, world_y as int) {
                Some(t) => self.spec_tile_passable(cfg, t.0, t.1),
                None => false,
            },
    {
        match self.world_to_tile_coords(world_x, world_y) {
            Some((tx, ty)) => self.is_tile_passable(tx, ty, cfg),
            None => false,
        }
    }

    /// Edits the cell under a world position and records the edit in the
    /// pending change set; returns whether the position was inside the grid.
    pub fn set_tile_at_world_pos(
        &mut self,
        world_x: i64,
        world_y: i64,
        terrain_type: TerrainType,
        terrain_changes: &mut TerrainChanges,
    ) -> (r: bool)
        requires
            old(self).wf(),
        ensures
            final(self).wf(),
            final(self).width == old(self).width,
            final(self).height == old(self).height,
            final(self).tile_size == old(self).tile_size,
            r == old(self).spec_world_to_tile(world_x as int, world_y as int).is_some(),
            match old(self).spec_world_to_tile(world_x as int, world_y as int) {
                Some(t) => {
                    &&& final(self).spec_tile_at(t.0, t.1) == terrain_type
                    &&& forall|tx: int, ty: int|
                        old(self).in_bounds(tx, ty) && !(tx == t.0 && ty == t.1)
                            ==> final(self).spec_tile_at(tx, ty) == old(self).spec_tile_at(tx, ty)
                    &&& final(terrain_changes).changed_tiles@
                        =~= old(terrain_changes).changed_tiles@.push(
                            (t.0 as u32, t.1 as u32, terrain_type))
                },
                None => *final(self) == *old(self)
                    && *final(terrain_changes) == *old(terrain_changes),
            },
    {
        match self.world_to_tile_coords(world_x, world_y) {
            Some((tx, ty)) => {
                self.set_tile(tx as u32, ty as u32, terrain_type);
                terrain_changes.add_change(tx as u32, ty as u32, terrain_type);
                true
            },
            None => false,
        }
    }
}

/// A world position inside the grid extent is within a gigaunit of the
/// origin.
pub proof fn lemma_world_coord_in_extent(map: &TerrainMap, wx: int, wy: int)
    requires
        map.wf(),
        map.spec_world_to_tile(wx, wy).is_some(),
    ensures
        -1073741824 <= wx <= 1073741824,
        -1073741824 <= wy <= 1073741824,
{
    lemma_grid_extent_bound(map.width as int, map.tile_size as int);
    lemma_grid_extent_bound(map.height as int, map.tile_size as int);
}

/// A grid axis spans at most `MAX_GRID_DIM * MAX_GRID_DIM` world units.
pub proof fn lemma_grid_extent_bound(dim: int, cell: int)
    requires
        0 <= dim <= MAX_GRID_DIM,
        0 <= cell <= MAX_GRID_DIM,
    ensures
        0 <= dim * cell <= 1073741824int,
{
    assert(0 <= dim * cell <= 1073741824int) by (nonlinear_arith)
        requires 0 <= dim <= 32768, 0 <= cell <= 32768;
}

/// A cell index times the cell size stays well inside `i64`.
proof fn lemma_tile_coord_product_bound(t: int, cell: int)
    requires
        -2147483648 <= t <= 2147483647,
        0 <= cell <= MAX_GRID_DIM,
    ensures
        -70368744177664int <= t * cell <= 70368744177664int,
{
    assert(-70368744177664int <= t * cell <= 70368744177664int) by (nonlinear_arith)
        requires -2147483648 <= t <= 2147483647, 0 <= cell <= 32768;
}

/// Builds a vector of `n` zeroes.
fn vec_filled_with_zero(n: usize) -> (r: Vec<TerrainType>)
    ensures
        r@.len() == n,
        forall|k: int| 0 <= k < n ==> r@[k] == 0usize,
{
    let mut v: Vec<TerrainType> = Vec::new();
    let mut i: usize = 0;
    while i < n
        invariant
            0 <= i <= n,
            v@.len() == i,
            forall|k: int| 0 <= k < i ==> v@[k] == 0usize,
        decreases n - i,
    {
        v.push(0);
        i = i + 1;
    }
    v
}

/// Coordinate round trip: for every in-bounds cell, converting its centre
/// back to a cell yields the same cell.
pub proof fn lemma_tile_world_round_trip(map: &TerrainMap, tx: int, ty: int)
    requires
        map.wf(),
        map.in_bounds(tx, ty),
    ensures
        map.spec_world_to_tile(
            map.spec_tile_to_world(tx, ty).0,
            map.spec_tile_to_world(tx, ty).1,
        ) == Some((tx, ty)),
{
    let cell = map.tile_size as int;
    let sx = map.spec_tile_to_world(tx, ty).0 + map.off_x();
    let sy = map.spec_tile_to_world(tx, ty).1 + map.off_y();
    assert(sx == tx * cell + cell / 2);
    assert(sy == ty * cell + cell / 2);
    assert(0 <= cell / 2 < cell);
    assert(tx * cell + cell / 2 < map.width as int * cell
        && ty * cell + cell / 2 < map.height as int * cell
        && 0 <= tx * cell && 0 <= ty * cell) by (nonlinear_arith)
        requires
            0 <= tx < map.width as int,
            0 <= ty < map.height as int,
            0 <= cell / 2 < cell,
    ;
    lemma_fundamental_div_mod_converse(sx, cell, tx, cell / 2);
    lemma_fundamental_div_mod_converse(sy, cell, ty, cell / 2);
}

} // verus!
