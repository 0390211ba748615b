use gridpath::grid::{TerrainMap, GroundConfigs};
use gridpath::cache::PathfindingCache;
use gridpath::scheduler::{RequestScheduler, PathfindingPriority};
use gridpath::tileset::TilesetGenerator;

fn create_test_ground_configs() -> GroundConfigs {
    let mut cfg = GroundConfigs::new();
    cfg.add_class("dirt", "tileset::grounds::dirt", true);
    cfg.add_class("grass", "tileset::grounds::grass", true);
    cfg.add_class("stone", "tileset::grounds::stone", false);
    cfg.add_class("water", "tileset::grounds::water", false);
    cfg
}

fn open_map(n: u32, tile: u32) -> TerrainMap {
    let mut map = TerrainMap::new(n, n, tile);
    let cfg = create_test_ground_configs();
    let grass = cfg.terrain_index("grass").unwrap_or(2);
    for x in 0..n {
        for y in 0..n {
            map.set_tile(x, y, grass);
        }
    }
    map
}

#[test]
fn test_coordinate_round_trip_every_cell() {
    // With a grid of odd tile size and odd dimensions too, cell centres
    // must convert back to their own cell.
    for (w, h, tile) in [(7, 5, 9), (10, 10, 32), (3, 8, 1)] {
        let map = TerrainMap::new(w, h, tile);
        for x in 0..w as i32 {
            for y in 0..h as i32 {
                let (wx, wy) = map.tile_to_world_coords(x, y);
                assert_eq!(map.world_to_tile_coords(wx, wy), Some((x, y)));
            }
        }
    }
}

#[test]
fn test_quantization_buckets() {
    let cache = PathfindingCache::new();
    // Sizes 1.0 and 1.01 (thousandths of a tile) share a bucket...
    assert_eq!(cache.quantize_size(1000), cache.quantize_size(1010));
    assert_eq!(cache.quantize_size(1000), 8);
    // ...sizes 1.0 and 2.0 do not.
    assert_ne!(cache.quantize_size(1000), cache.quantize_size(2000));
    assert_eq!(cache.quantize_size(2000), 16);
    // The bucket saturates at a byte.
    assert_eq!(cache.quantize_size(1000000), 255);
}

#[test]
fn test_walled_off_goal_caches_no_path() {
    // A 3x3 stone ring isolates a passable centre cell; the answer is a
    // cached "no path".
    let mut map = open_map(7, 32);
    let cfg = create_test_ground_configs();
    let stone = cfg.terrain_index("stone").unwrap_or(3);
    for x in 2..5 {
        for y in 2..5 {
            if !(x == 3 && y == 3) {
                map.set_tile(x, y, stone);
            }
        }
    }

    let mut cache = PathfindingCache::new();
    let start = map.tile_to_world_coords(0, 0);
    let goal = map.tile_to_world_coords(3, 3);

    let first = map.find_path_for_size_cached(start, goal, 500, &cfg, &mut cache);
    assert!(first.is_none(), "Walled-off goal should be unreachable");
    assert_eq!(cache.stats.path_cache_misses, 1);

    let second = map.find_path_for_size_cached(start, goal, 500, &cfg, &mut cache);
    assert!(second.is_none(), "The no-path answer should be served from the cache");
    assert_eq!(cache.stats.path_cache_hits, 1, "Cached 'no path' still counts as a hit");
}

#[test]
fn test_ring_scenario_interior_path() {
    // 5x5 grid: a stone ring at the border leaves a 3x3 passable interior;
    // a small agent crosses the interior corner to corner, and every
    // waypoint stays inside the interior.
    let mut map = open_map(5, 32);
    let cfg = create_test_ground_configs();
    let stone = cfg.terrain_index("stone").unwrap_or(3);
    for x in 0..5 {
        for y in 0..5 {
            if x == 0 || x == 4 || y == 0 || y == 4 {
                map.set_tile(x, y, stone);
            }
        }
    }

    let start = map.tile_to_world_coords(1, 1);
    let goal = map.tile_to_world_coords(3, 3);
    let path = map.find_path_for_size(start, goal, 500, &cfg)
        .expect("The interior should be traversable");
    assert!(!path.is_empty());
    for (wx, wy) in path {
        let (tx, ty) = map.world_to_tile_coords(wx, wy).expect("Waypoints stay on the grid");
        assert!((1..=3).contains(&tx) && (1..=3).contains(&ty),
            "Waypoint ({}, {}) should lie in the 3x3 interior", tx, ty);
    }
}

#[test]
fn test_wall_scenario_path_avoids_wall() {
    // 10x10 grid with a one-cell-thick stone wall spanning columns 2..=6 at
    // row 2; a size-1.0 agent still gets from (1,1) to (8,8) and never
    // stands on a wall cell.
    let mut map = open_map(10, 32);
    let cfg = create_test_ground_configs();
    let stone = cfg.terrain_index("stone").unwrap_or(3);
    for x in 2..=6 {
        map.set_tile(x, 2, stone);
    }

    let start = map.tile_to_world_coords(1, 1);
    let goal = map.tile_to_world_coords(8, 8);
    let path = map.find_path_for_size(start, goal, 1000, &cfg)
        .expect("A route around the wall exists");
    for (wx, wy) in path {
        let (tx, ty) = map.world_to_tile_coords(wx, wy).expect("Waypoints stay on the grid");
        assert!(!(ty == 2 && (2..=6).contains(&tx)),
            "Waypoint ({}, {}) must not sit on the wall", tx, ty);
    }
}

#[test]
fn test_invalidation_of_touched_footprint() {
    // After a change on a cached path's footprint, the next lookup misses
    // and the terrain version has strictly increased.
    let map = open_map(8, 32);
    let cfg = create_test_ground_configs();
    let stone = cfg.terrain_index("stone").unwrap_or(3);
    let mut cache = PathfindingCache::new();

    let start = map.tile_to_world_coords(0, 0);
    let goal = map.tile_to_world_coords(7, 7);
    let first = map.find_path_for_size_cached(start, goal, 500, &cfg, &mut cache);
    assert!(first.is_some());
    let version_before = cache.terrain_version;

    // (3,3) or (4,4) lies under the diagonal route's footprint.
    let mut changes = gridpath::grid::TerrainChanges::default();
    changes.add_change(3, 3, stone);
    changes.add_change(4, 4, stone);
    cache.invalidate_from_terrain_changes(&changes);

    assert!(cache.terrain_version > version_before,
        "Invalidation must strictly increase the terrain version");
    let misses_before = cache.stats.path_cache_misses;
    let _again = map.find_path_for_size_cached(start, goal, 500, &cfg, &mut cache);
    assert_eq!(cache.stats.path_cache_misses, misses_before + 1,
        "The lookup after invalidation must be a miss");
}

#[test]
fn test_expiry_evicts_old_entries() {
    let map = open_map(6, 32);
    let cfg = create_test_ground_configs();
    let mut cache = PathfindingCache::new();

    let start = map.tile_to_world_coords(0, 0);
    let goal = map.tile_to_world_coords(5, 5);
    let _ = map.find_path_for_size_cached(start, goal, 500, &cfg, &mut cache);
    assert!(cache.stats.cache_size > 0);

    // Move the clock past the 30-second time-to-live and sweep.
    cache.set_clock(31000);
    cache.cleanup_expired_entries();
    assert_eq!(cache.stats.cache_size, 0, "Expired entries should be gone");

    let misses_before = cache.stats.path_cache_misses;
    let _ = map.find_path_for_size_cached(start, goal, 500, &cfg, &mut cache);
    assert_eq!(cache.stats.path_cache_misses, misses_before + 1);
}

#[test]
fn test_scheduler_full_pipeline_with_priorities() {
    let map = open_map(6, 32);
    let cfg = create_test_ground_configs();
    let mut sched = RequestScheduler::new();

    let a = sched.submit(
        map.tile_to_world_coords(0, 0), map.tile_to_world_coords(5, 5), 500,
        PathfindingPriority::Low);
    let b = sched.submit(
        map.tile_to_world_coords(1, 1), map.tile_to_world_coords(4, 4), 500,
        PathfindingPriority::Critical);

    let tasks = sched.tick(&map);
    assert_eq!(tasks.len(), 2);
    assert_eq!(tasks[0].request_id, b, "Critical dispatches before Low");
    assert_eq!(tasks[1].request_id, a);

    for task in &tasks {
        let result = RequestScheduler::run_task(&map, &cfg, task);
        sched.complete(result, &map);
    }
    assert!(sched.poll(a).expect("result for the Low request").path.is_some());
    assert!(sched.poll(b).expect("result for the Critical request").path.is_some());
}

#[test]
fn test_out_of_bounds_request_resolves_to_no_path() {
    let map = open_map(4, 32);
    let cfg = create_test_ground_configs();
    let mut sched = RequestScheduler::new();

    let id = sched.submit((100000, 100000), (0, 0), 500, PathfindingPriority::Normal);
    let tasks = sched.tick(&map);
    assert_eq!(tasks.len(), 1, "Out-of-bounds requests are dispatched, not dropped");
    let result = RequestScheduler::run_task(&map, &cfg, &tasks[0]);
    assert!(result.path.is_none(), "An out-of-bounds start yields no path");
    sched.complete(result, &map);
    assert!(sched.poll(id).unwrap().path.is_none());
}

#[test]
fn test_segment_clearance_blocks_diagonal_squeeze() {
    // Two stone cells meeting at a corner: their shared corner lies on the
    // straight segment between the adjacent centres, so a mid-size agent
    // may not cut the diagonal, while a point-size one may.
    let mut map = open_map(4, 32);
    let cfg = create_test_ground_configs();
    let stone = cfg.terrain_index("stone").unwrap_or(3);
    map.set_tile(1, 2, stone);
    map.set_tile(2, 1, stone);

    let from = map.tile_to_world_coords(1, 1);
    let to = map.tile_to_world_coords(2, 2);
    assert!(map.is_path_segment_clear(from, to, 0, &cfg),
        "A point agent passes through the corner");
    assert!(!map.is_path_segment_clear(from, to, 1500, &cfg),
        "A wide agent must not squeeze through the corner");
}

#[test]
fn test_tileset_layout_positions() {
    let gen = TilesetGenerator::new(16, 16);
    assert_eq!(gen.sprite_offset(0), (0, 0));
    assert_eq!(gen.sprite_offset(1), (16, 0));
    assert_eq!(gen.sprite_offset(16), (0, 16));
    assert_eq!(gen.sprite_offset(35), (3 * 16, 2 * 16));
    assert_eq!(gen.sheet_dimensions(1), (256, 16));
    assert_eq!(gen.sheet_dimensions(16), (256, 16));
    assert_eq!(gen.sheet_dimensions(17), (256, 32));
}

#[test]
fn test_nearest_passable_prefers_closest_ring() {
    let mut map = open_map(9, 32);
    let cfg = create_test_ground_configs();
    let stone = cfg.terrain_index("stone").unwrap_or(3);
    // Make the centre and its immediate ring impassable; the nearest
    // passable cells are at Chebyshev distance 2.
    for x in 3..=5 {
        for y in 3..=5 {
            map.set_tile(x, y, stone);
        }
    }
    let centre = map.tile_to_world_coords(4, 4);
    let found = map.find_nearest_passable_tile(centre, &cfg)
        .expect("Passable cells exist two rings out");
    let (tx, ty) = map.world_to_tile_coords(found.0, found.1).unwrap();
    let cheby = (tx - 4).abs().max((ty - 4).abs());
    assert_eq!(cheby, 2, "The found cell should be in the nearest passable ring");
}
