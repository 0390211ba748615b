//! Clearance-aware grid pathfinding with a version-stamped spatial cache and a
//! priority-ordered request scheduler.
//!
//! World positions are integer coordinates (`i64`); a grid cell spans
//! `tile_size` world units and the grid is centred on the world origin.
//! Agent sizes are given in thousandths of a tile, so a size of `1000`
//! stands for a disc whose diameter is one tile.

pub mod grid;
pub mod clearance;
pub mod search;
pub mod cache;
pub mod scheduler;
pub mod tileset;
