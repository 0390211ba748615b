//! Layout arithmetic for composing sprite sheets: where the sprite with a
//! given index lands on a fixed-size grid of tiles, and how large the sheet
//! must be. The file handling around it (finding, decoding and writing the
//! images) lives outside the library.

use vstd::prelude::*;

verus! {

/// Lays sprites out on a sheet of fixed-size square tiles, a fixed number
/// of tiles per row.
pub struct TilesetGenerator {
    pub tile_size: u32,
    pub tiles_per_row: u32,
}

impl TilesetGenerator {
    pub open spec fn wf(&self) -> bool {
        1 <= self.tile_size <= 4096 && 1 <= self.tiles_per_row <= 4096
    }

    pub fn new(tile_size: u32, tiles_per_row: u32) -> (r: TilesetGenerator)
        requires
            1 <= tile_size <= 4096,
            1 <= tiles_per_row <= 4096,
        ensures
            r.wf(),
            r.tile_size == tile_size,
            r.tiles_per_row == tiles_per_row,
    {
        TilesetGenerator { tile_size, tiles_per_row }
    }

    /// The pixel offset of the sprite with the given index: left-to-right,
    /// top-to-bottom, `tiles_per_row` sprites per row.
    pub fn sprite_offset(&self, index: u32) -> (r: (u32, u32))
        requires
            self.wf(),
            index <= 1048575,
        ensures
            r.0 == (index as int % self.tiles_per_row as int) * self.tile_size as int,
            r.1 == (index as int / self.tiles_per_row as int) * self.tile_size as int,
    {
        let row: u32 = index / self.tiles_per_row;
        let col: u32 = index % self.tiles_per_row;
        proof {
            assert(row <= 1048575 && col < 4096) by (nonlinear_arith)
                requires
                    row as int == index as int / self.tiles_per_row as int,
                    col as int == index as int % self.tiles_per_row as int,
                    index <= 1048575,
                    1 <= self.tiles_per_row <= 4096,
            ;
            assert((col as int) * (self.tile_size as int) < 16777216
                && (row as int) * (self.tile_size as int) <= 4294963200int) by (nonlinear_arith)
                requires
                    row <= 1048575 && col < 4096,
                    1 <= self.tile_size <= 4096,
            ;
        }
        (col * self.tile_size, row * self.tile_size)
    }

    /// The pixel dimensions of a sheet holding `sprite_count` sprites: full
    /// rows of `tiles_per_row`, the last row possibly partial.
    pub fn sheet_dimensions(&self, sprite_count: u32) -> (r: (u32, u32))
        requires
            self.wf(),
            1 <= sprite_count <= 1048575,
        ensures
            r.0 == self.tiles_per_row as int * self.tile_size as int,
            r.1 == ((sprite_count + self.tiles_per_row - 1) as int
                / self.tiles_per_row as int) * self.tile_size as int,
            r.1 >= self.tile_size,
    {
        let rows: u32 = (sprite_count + self.tiles_per_row - 1) / self.tiles_per_row;
        proof {
            assert(1 <= rows <= 1048575) by (nonlinear_arith)
                requires
                    rows as int == (sprite_count + self.tiles_per_row - 1) as int
                        / self.tiles_per_row as int,
                    1 <= sprite_count <= 1048575,
                    1 <= self.tiles_per_row <= 4096,
            ;
            assert((self.tiles_per_row as int) * (self.tile_size as int) <= 16777216)
                by (nonlinear_arith)
                requires 1 <= self.tiles_per_row <= 4096, 1 <= self.tile_size <= 4096;
            assert((rows as int) * (self.tile_size as int) <= 4294963200int
                && (rows as int) * (self.tile_size as int) >= self.tile_size as int)
                by (nonlinear_arith)
                requires 1 <= rows <= 1048575, 1 <= self.tile_size <= 4096;
        }
        (self.tiles_per_row * self.tile_size, rows * self.tile_size)
    }
}

} // verus!
