use std::time::Instant;

use gridpath::grid::{TerrainMap, TerrainChanges, GroundConfigs};
use gridpath::cache::PathfindingCache;

fn create_test_ground_configs() -> GroundConfigs {
    let mut cfg = GroundConfigs::new();
    cfg.add_class("dirt", "tileset::grounds::dirt", true);
    cfg.add_class("grass", "tileset::grounds::grass", true);
    cfg.add_class("stone", "tileset::grounds::stone", false);
    cfg.add_class("water", "tileset::grounds::water", false);
    cfg
}

fn create_test_terrain() -> TerrainMap {
    let mut terrain_map = TerrainMap::new(10, 10, 32);
    let ground_configs = create_test_ground_configs();
    let grass_type = ground_configs.terrain_index("grass").unwrap_or(2);
    let stone_type = ground_configs.terrain_index("stone").unwrap_or(3);

    // Horizontal stone barrier at row 2, columns 2..=6; grass elsewhere.
    for x in 0..10 {
        for y in 0..10 {
            if y == 2 && x >= 2 && x <= 6 {
                terrain_map.set_tile(x, y, stone_type);
            } else {
                terrain_map.set_tile(x, y, grass_type);
            }
        }
    }

    terrain_map
}

fn find_path_cached_test(
    terrain_map: &TerrainMap,
    start: (i64, i64),
    goal: (i64, i64),
    size: u32,
    cache: &mut PathfindingCache,
) -> Option<Vec<(i64, i64)>> {
    let ground_configs = create_test_ground_configs();
    terrain_map.find_path_for_size_cached(start, goal, size, &ground_configs, cache)
}

fn hit_ratio(cache: &PathfindingCache) -> f64 {
    let (hits, misses) = cache.get_hit_ratio();
    let total = hits + misses;
    if total > 0 {
        hits as f64 / total as f64
    } else {
        0.0
    }
}

#[test]
fn test_cache_basic_hit_miss_behavior() {
    let terrain_map = create_test_terrain();
    let mut cache = PathfindingCache::new();

    let start = terrain_map.tile_to_world_coords(1, 1);
    let goal = terrain_map.tile_to_world_coords(8, 8);
    let size = 1000;

    assert_eq!(cache.stats.path_cache_hits, 0);
    assert_eq!(cache.stats.path_cache_misses, 0);

    let path1 = find_path_cached_test(&terrain_map, start, goal, size, &mut cache);
    assert!(path1.is_some(), "Should find a path");
    assert_eq!(cache.stats.path_cache_hits, 0);
    assert_eq!(cache.stats.path_cache_misses, 1);

    let path2 = find_path_cached_test(&terrain_map, start, goal, size, &mut cache);
    assert!(path2.is_some(), "Should find cached path");
    assert_eq!(cache.stats.path_cache_hits, 1);
    assert_eq!(cache.stats.path_cache_misses, 1);

    assert_eq!(path1, path2, "Cached path should match original");
}

#[test]
fn test_cache_size_quantization() {
    let terrain_map = create_test_terrain();
    let mut cache = PathfindingCache::new();

    let start = terrain_map.tile_to_world_coords(1, 1);
    let goal = terrain_map.tile_to_world_coords(8, 8);

    let _path1 = find_path_cached_test(&terrain_map, start, goal, 1000, &mut cache);
    assert_eq!(cache.stats.path_cache_misses, 1);

    // A very similar size should hit the cache thanks to quantization.
    let _path2 = find_path_cached_test(&terrain_map, start, goal, 1010, &mut cache);
    assert_eq!(cache.stats.path_cache_hits, 1, "Similar sizes should hit cache");

    let _path3 = find_path_cached_test(&terrain_map, start, goal, 2000, &mut cache);
    assert_eq!(cache.stats.path_cache_misses, 2, "Different size should miss cache");
}

#[test]
fn test_cache_different_start_goal_combinations() {
    let terrain_map = create_test_terrain();
    let mut cache = PathfindingCache::new();

    let start1 = terrain_map.tile_to_world_coords(1, 1);
    let goal1 = terrain_map.tile_to_world_coords(8, 8);
    let start2 = terrain_map.tile_to_world_coords(1, 4);
    let goal2 = terrain_map.tile_to_world_coords(8, 4);
    let size = 1000;

    let _path1 = find_path_cached_test(&terrain_map, start1, goal1, size, &mut cache);
    let _path2 = find_path_cached_test(&terrain_map, start2, goal2, size, &mut cache);
    assert_eq!(cache.stats.path_cache_misses, 2, "Different paths should miss cache");

    let _path1_repeat = find_path_cached_test(&terrain_map, start1, goal1, size, &mut cache);
    let _path2_repeat = find_path_cached_test(&terrain_map, start2, goal2, size, &mut cache);
    assert_eq!(cache.stats.path_cache_hits, 2, "Same paths should hit cache");
}

#[test]
fn test_passability_cache() {
    let terrain_map = create_test_terrain();
    let mut cache = PathfindingCache::new();

    let passable_pos = terrain_map.tile_to_world_coords(1, 1);
    let size = 1000;

    assert_eq!(cache.stats.passability_cache_hits, 0);
    let result1 = find_path_cached_test(&terrain_map, passable_pos, passable_pos, size, &mut cache);
    assert!(result1.is_some());

    assert!(cache.stats.passability_cache_misses > 0, "Should have passability cache misses");

    find_path_cached_test(&terrain_map, passable_pos, passable_pos, size, &mut cache);

    assert!(cache.stats.passability_cache_hits > 0, "Should have passability cache hits");
}

#[test]
fn test_terrain_change_invalidation() {
    let mut terrain_map = create_test_terrain();
    let mut cache = PathfindingCache::new();
    let mut terrain_changes = TerrainChanges::default();
    let ground_configs = create_test_ground_configs();
    let stone_type = ground_configs.terrain_index("stone").unwrap_or(3);

    let start = terrain_map.tile_to_world_coords(1, 1);
    let goal = terrain_map.tile_to_world_coords(8, 4);
    let size = 1000;

    let path1 = find_path_cached_test(&terrain_map, start, goal, size, &mut cache);
    assert!(path1.is_some());
    assert_eq!(cache.stats.path_cache_misses, 1);

    let path2 = find_path_cached_test(&terrain_map, start, goal, size, &mut cache);
    assert_eq!(path1, path2);
    assert_eq!(cache.stats.path_cache_hits, 1);

    let change_pos = terrain_map.tile_to_world_coords(4, 4);
    terrain_map.set_tile_at_world_pos(change_pos.0, change_pos.1, stone_type, &mut terrain_changes);

    cache.invalidate_from_terrain_changes(&terrain_changes);
    assert_eq!(cache.stats.terrain_invalidations, 1);

    let path3 = find_path_cached_test(&terrain_map, start, goal, size, &mut cache);
    assert_eq!(cache.stats.path_cache_misses, 2, "Should miss cache after terrain change");
    assert!(path3.is_some(), "Should still find a path after terrain change");

    terrain_changes.clear();
}

#[test]
fn test_terrain_invalidation_basic() {
    let terrain_map = create_test_terrain();
    let mut cache = PathfindingCache::new();
    let mut terrain_changes = TerrainChanges::default();
    let ground_configs = create_test_ground_configs();
    let stone_type = ground_configs.terrain_index("stone").unwrap_or(3);

    let start = terrain_map.tile_to_world_coords(1, 1);
    let goal = terrain_map.tile_to_world_coords(8, 8);
    let size = 1000;

    let path1 = find_path_cached_test(&terrain_map, start, goal, size, &mut cache);
    assert!(path1.is_some());
    assert_eq!(cache.stats.path_cache_misses, 1);

    let path2 = find_path_cached_test(&terrain_map, start, goal, size, &mut cache);
    assert_eq!(path1, path2);
    assert_eq!(cache.stats.path_cache_hits, 1);

    terrain_changes.add_change(5, 5, stone_type);
    cache.invalidate_from_terrain_changes(&terrain_changes);

    let path3 = find_path_cached_test(&terrain_map, start, goal, size, &mut cache);
    assert!(path3.is_some(), "Should still be able to find paths after invalidation");

    terrain_changes.clear();
}

#[test]
fn test_passability_cache_basic_operation() {
    let terrain_map = create_test_terrain();
    let mut cache = PathfindingCache::new();

    let start = terrain_map.tile_to_world_coords(1, 1);
    let goal = terrain_map.tile_to_world_coords(8, 8);
    let size = 1000;

    let path1 = find_path_cached_test(&terrain_map, start, goal, size, &mut cache);
    assert!(path1.is_some());
    let initial_passability_checks =
        cache.stats.passability_cache_hits + cache.stats.passability_cache_misses;

    let goal2 = terrain_map.tile_to_world_coords(7, 7);
    let path2 = find_path_cached_test(&terrain_map, start, goal2, size, &mut cache);
    assert!(path2.is_some(), "Should find path for similar request");

    let final_passability_checks =
        cache.stats.passability_cache_hits + cache.stats.passability_cache_misses;
    assert!(final_passability_checks > initial_passability_checks,
           "Should have more passability cache activity from similar pathfinding request");
}

#[test]
fn test_cache_hit_ratio_calculation() {
    let terrain_map = create_test_terrain();
    let mut cache = PathfindingCache::new();

    let start = terrain_map.tile_to_world_coords(1, 1);
    let goal = terrain_map.tile_to_world_coords(8, 8);
    let size = 1000;

    assert_eq!(hit_ratio(&cache), 0.0);

    let _path1 = find_path_cached_test(&terrain_map, start, goal, size, &mut cache);
    assert_eq!(hit_ratio(&cache), 0.0); // 0 hits / 1 total

    let _path2 = find_path_cached_test(&terrain_map, start, goal, size, &mut cache);
    assert_eq!(hit_ratio(&cache), 0.5); // 1 hit / 2 total

    let _path3 = find_path_cached_test(&terrain_map, start, goal, size, &mut cache);
    assert!((hit_ratio(&cache) - 0.6666667).abs() < 0.001); // 2 hits / 3 total
}

#[test]
fn test_cache_cleanup_expired_entries() {
    let terrain_map = create_test_terrain();
    let mut cache = PathfindingCache::new();

    let start = terrain_map.tile_to_world_coords(1, 1);
    let goal = terrain_map.tile_to_world_coords(8, 8);
    let size = 1000;

    let _path1 = find_path_cached_test(&terrain_map, start, goal, size, &mut cache);
    assert!(cache.stats.cache_size > 0);

    let _path2 = find_path_cached_test(&terrain_map, start, goal, size, &mut cache);
    assert_eq!(cache.stats.path_cache_hits, 1);

    cache.cleanup_expired_entries();

    // Since the clock has not advanced, entries are not expired yet.
    let _path3 = find_path_cached_test(&terrain_map, start, goal, size, &mut cache);
    assert_eq!(cache.stats.path_cache_hits, 2, "Recently accessed entries should not be cleaned up");
}

#[test]
fn test_cache_performance_with_multiple_sizes() {
    let terrain_map = create_test_terrain();
    let mut cache = PathfindingCache::new();

    let start = terrain_map.tile_to_world_coords(1, 1);
    let goal = terrain_map.tile_to_world_coords(8, 8);

    let sizes = vec![500, 1000, 1500, 2000, 2500];

    for size in &sizes {
        let _path = find_path_cached_test(&terrain_map, start, goal, *size, &mut cache);
    }
    assert_eq!(cache.stats.path_cache_misses, sizes.len() as u64);

    for size in &sizes {
        let _path = find_path_cached_test(&terrain_map, start, goal, *size, &mut cache);
    }
    assert_eq!(cache.stats.path_cache_hits, sizes.len() as u64);

    assert!(cache.stats.cache_size >= sizes.len(), "Should cache different sizes separately");
}

#[test]
fn test_no_path_caching() {
    let mut terrain_map = create_test_terrain();
    let mut cache = PathfindingCache::new();
    let ground_configs = create_test_ground_configs();
    let stone_type = ground_configs.terrain_index("stone").unwrap_or(3);

    // A full-width stone band separates the top from the bottom.
    for x in 0..10 {
        for y in 3..7 {
            terrain_map.set_tile(x, y, stone_type);
        }
    }

    let start = terrain_map.tile_to_world_coords(1, 1); // above the band
    let goal = terrain_map.tile_to_world_coords(1, 8);  // below the band
    let size = 2000;

    let path1 = find_path_cached_test(&terrain_map, start, goal, size, &mut cache);
    assert!(path1.is_none(), "Should not find path through complete barrier");
    assert_eq!(cache.stats.path_cache_misses, 1);

    let path2 = find_path_cached_test(&terrain_map, start, goal, size, &mut cache);
    assert!(path2.is_none(), "Should return cached no-path result");
    assert_eq!(cache.stats.path_cache_hits, 1, "Should cache 'no path' results");
}

#[test]
fn test_performance_benchmark_cache_vs_nocache() {
    let terrain_map = create_test_terrain();
    let mut cache = PathfindingCache::new();

    let start = terrain_map.tile_to_world_coords(1, 1);
    let goal = terrain_map.tile_to_world_coords(8, 8);
    let size = 1000;

    let start_time = Instant::now();
    let _path1 = find_path_cached_test(&terrain_map, start, goal, size, &mut cache);
    let uncached_duration = start_time.elapsed();

    let start_time = Instant::now();
    let _path2 = find_path_cached_test(&terrain_map, start, goal, size, &mut cache);
    let cached_duration = start_time.elapsed();

    println!("Uncached: {:?}, Cached: {:?}", uncached_duration, cached_duration);
    assert!(cached_duration < uncached_duration / 3,
           "Cached pathfinding should be at least 3x faster than uncached");

    assert_eq!(cache.stats.path_cache_hits, 1);
    assert_eq!(cache.stats.path_cache_misses, 1);
}

#[test]
fn test_cache_memory_scaling() {
    let terrain_map = create_test_terrain();
    let mut cache = PathfindingCache::new();

    let mut path_count = 0;
    for start_x in [1, 3, 5] {
        for start_y in [1, 4, 7] {
            for goal_x in [6, 8] {
                for goal_y in [1, 4, 7] {
                    let start = terrain_map.tile_to_world_coords(start_x, start_y);
                    let goal = terrain_map.tile_to_world_coords(goal_x, goal_y);
                    let _path = find_path_cached_test(&terrain_map, start, goal, 1000, &mut cache);
                    path_count += 1;
                }
            }
        }
    }

    assert_eq!(cache.stats.path_cache_misses, path_count);
    assert!(cache.stats.cache_size > 0, "Cache should contain entries");

    let start = terrain_map.tile_to_world_coords(1, 1);
    let goal = terrain_map.tile_to_world_coords(8, 8);
    for _ in 0..5 {
        let _path = find_path_cached_test(&terrain_map, start, goal, 1000, &mut cache);
    }

    let ratio = hit_ratio(&cache);
    assert!(ratio >= 0.0 && ratio <= 1.0, "Hit ratio should be valid percentage: {}", ratio);
    assert!(cache.stats.path_cache_hits > 0, "Should have some cache hits from repeated requests");
}

#[test]
fn test_cache_with_multiple_paths() {
    let terrain_map = create_test_terrain();
    let mut cache = PathfindingCache::new();

    let paths = vec![
        (terrain_map.tile_to_world_coords(1, 1), terrain_map.tile_to_world_coords(8, 1)),
        (terrain_map.tile_to_world_coords(1, 4), terrain_map.tile_to_world_coords(8, 4)),
        (terrain_map.tile_to_world_coords(1, 7), terrain_map.tile_to_world_coords(8, 7)),
    ];

    for (start, goal) in &paths {
        let path = find_path_cached_test(&terrain_map, *start, *goal, 1000, &mut cache);
        assert!(path.is_some(), "Should find path for {:?} to {:?}", start, goal);
    }
    assert_eq!(cache.stats.path_cache_misses, 3);

    for (start, goal) in &paths {
        let path = find_path_cached_test(&terrain_map, *start, *goal, 1000, &mut cache);
        assert!(path.is_some(), "Should find cached path for {:?} to {:?}", start, goal);
    }
    assert_eq!(cache.stats.path_cache_hits, 3, "All paths should be cached");
}

#[test]
fn test_cache_with_large_terrain_map() {
    let mut terrain_map = TerrainMap::new(50, 50, 32);
    let ground_configs = create_test_ground_configs();
    let grass_type = ground_configs.terrain_index("grass").unwrap_or(2);
    let stone_type = ground_configs.terrain_index("stone").unwrap_or(3);

    for x in 0..50 {
        for y in 0..50 {
            terrain_map.set_tile(x, y, grass_type);
        }
    }
    for x in 10..40 {
        terrain_map.set_tile(x, 25, stone_type);
    }
    for y in 10..20 {
        terrain_map.set_tile(15, y, stone_type);
    }

    let mut cache = PathfindingCache::new();

    let start = terrain_map.tile_to_world_coords(5, 5);
    let goal = terrain_map.tile_to_world_coords(45, 45);
    let size = 1000;

    let start_time = Instant::now();
    let path1 = find_path_cached_test(&terrain_map, start, goal, size, &mut cache);
    let first_duration = start_time.elapsed();

    assert!(path1.is_some(), "Should find path in large map");
    assert_eq!(cache.stats.path_cache_misses, 1);

    let start_time = Instant::now();
    let path2 = find_path_cached_test(&terrain_map, start, goal, size, &mut cache);
    let cached_duration = start_time.elapsed();

    assert_eq!(path1, path2, "Cached path should match original");
    assert_eq!(cache.stats.path_cache_hits, 1);

    println!("Large map - First: {:?}, Cached: {:?}", first_duration, cached_duration);
    assert!(cached_duration < first_duration / 10,
           "Cache should provide at least 10x speedup for complex paths");
}

#[test]
fn test_cache_behavior_with_impossible_paths() {
    let mut terrain_map = TerrainMap::new(5, 5, 32);
    let ground_configs = create_test_ground_configs();
    let grass_type = ground_configs.terrain_index("grass").unwrap_or(2);
    let stone_type = ground_configs.terrain_index("stone").unwrap_or(3);

    for x in 0..5 {
        for y in 0..5 {
            terrain_map.set_tile(x, y, grass_type);
        }
    }
    for x in 0..5 {
        terrain_map.set_tile(x, 2, stone_type);
    }

    let mut cache = PathfindingCache::new();

    let start = terrain_map.tile_to_world_coords(1, 1);
    let goal = terrain_map.tile_to_world_coords(1, 3);
    let size = 500;

    let start_time = Instant::now();
    let path1 = find_path_cached_test(&terrain_map, start, goal, size, &mut cache);
    let first_duration = start_time.elapsed();

    assert!(path1.is_none(), "Should not find path through complete barrier");
    assert_eq!(cache.stats.path_cache_misses, 1);

    let start_time = Instant::now();
    let path2 = find_path_cached_test(&terrain_map, start, goal, size, &mut cache);
    let cached_duration = start_time.elapsed();

    assert!(path2.is_none(), "Cached result should also be None");
    assert_eq!(cache.stats.path_cache_hits, 1);

    assert!(cached_duration < first_duration, "Cached impossible path should be faster");
}

#[test]
fn test_cache_version_management() {
    let terrain_map = create_test_terrain();
    let mut cache = PathfindingCache::new();
    let mut terrain_changes = TerrainChanges::default();
    let ground_configs = create_test_ground_configs();
    let stone_type = ground_configs.terrain_index("stone").unwrap_or(3);

    let start = terrain_map.tile_to_world_coords(1, 1);
    let goal = terrain_map.tile_to_world_coords(8, 8);
    let size = 1000;

    let _path1 = find_path_cached_test(&terrain_map, start, goal, size, &mut cache);
    let initial_version = cache.terrain_version;

    terrain_changes.add_change(5, 5, stone_type);
    cache.invalidate_from_terrain_changes(&terrain_changes);
    assert!(cache.terrain_version > initial_version, "Terrain version should increment");

    let _path2 = find_path_cached_test(&terrain_map, start, goal, size, &mut cache);
    assert_eq!(cache.stats.path_cache_misses, 2, "Should miss cache after version change");

    let _path3 = find_path_cached_test(&terrain_map, start, goal, size, &mut cache);
    assert_eq!(cache.stats.path_cache_hits, 1, "Should hit cache for new version");

    terrain_changes.clear();
}
