use gridpath::grid::{TerrainMap, GroundConfigs};

fn create_test_ground_configs() -> GroundConfigs {
    let mut cfg = GroundConfigs::new();
    cfg.add_class("dirt", "tileset::grounds::dirt", true);
    cfg.add_class("grass", "tileset::grounds::grass", true);
    cfg.add_class("stone", "tileset::grounds::stone", false);
    cfg.add_class("water", "tileset::grounds::water", false);
    cfg
}

fn create_test_terrain_map(width: u32, height: u32, tile_size: u32) -> TerrainMap {
    let mut terrain_map = TerrainMap::new(width, height, tile_size);
    let ground_configs = create_test_ground_configs();

    for x in 0..width {
        for y in 0..height {
            let terrain = if x == 0 || x == width - 1 || y == 0 || y == height - 1 {
                ground_configs.terrain_index("grass").unwrap_or(2)
            } else if x < width / 3 && y >= height / 3 && y < 2 * height / 3 {
                ground_configs.terrain_index("water").unwrap_or(0)
            } else if x == width / 2 && y == height / 2 {
                ground_configs.terrain_index("stone").unwrap_or(3)
            } else {
                ground_configs.terrain_index("grass").unwrap_or(2)
            };
            terrain_map.set_tile(x, y, terrain);
        }
    }

    terrain_map
}

#[test]
fn test_player_spawns_on_passable_terrain() {
    let terrain_map = create_test_terrain_map(10, 10, 32);
    let ground_configs = create_test_ground_configs();

    let spawn_pos = terrain_map.find_nearest_passable_tile((0, 0), &ground_configs);
    assert!(spawn_pos.is_some(), "Should find a passable spawn position");

    let (x, y) = spawn_pos.unwrap();
    let (tile_x, tile_y) = terrain_map.world_to_tile_coords(x, y).unwrap();
    assert!(terrain_map.is_tile_passable(tile_x, tile_y, &ground_configs), "Spawn position should be passable");
}

#[test]
fn test_player_cannot_move_through_stone() {
    let terrain_map = create_test_terrain_map(10, 10, 32);
    let ground_configs = create_test_ground_configs();

    // Stone is at (5, 5) in the test map.
    let stone_world_pos = terrain_map.tile_to_world_coords(5, 5);
    assert!(!terrain_map.is_passable_at_world_pos(stone_world_pos.0, stone_world_pos.1, &ground_configs),
            "Stone tiles should be impassable");
}

#[test]
fn test_player_cannot_move_through_water() {
    let terrain_map = create_test_terrain_map(10, 10, 32);
    let ground_configs = create_test_ground_configs();

    // Water sits in the left third; (1, 4) is inside it on a 10x10 map.
    let water_world_pos = terrain_map.tile_to_world_coords(1, 4);
    assert!(!terrain_map.is_passable_at_world_pos(water_world_pos.0, water_world_pos.1, &ground_configs),
            "Water tiles should be impassable");
}

#[test]
fn test_pathfinding_around_obstacles() {
    let terrain_map = create_test_terrain_map(10, 10, 32);
    let ground_configs = create_test_ground_configs();

    let start_tile = (8, 8);
    let end_tile = (8, 0);

    let start = terrain_map.tile_to_world_coords(start_tile.0, start_tile.1);
    let end = terrain_map.tile_to_world_coords(end_tile.0, end_tile.1);

    assert!(terrain_map.is_passable_at_world_pos(start.0, start.1, &ground_configs), "Start should be passable");
    assert!(terrain_map.is_passable_at_world_pos(end.0, end.1, &ground_configs), "End should be passable");

    let path = terrain_map.find_path(start, end, &ground_configs);
    assert!(path.is_some(), "Should find a path between passable locations");

    let path = path.unwrap();
    assert!(path.len() >= 2, "Path should have at least start and end points");

    for &(x, y) in &path {
        assert!(terrain_map.is_passable_at_world_pos(x, y, &ground_configs),
                "All path points should be on passable terrain at ({}, {})", x, y);
    }
}

#[test]
fn test_pathfinding_fails_when_no_path_exists() {
    let mut terrain_map = TerrainMap::new(5, 5, 32);
    let ground_configs = create_test_ground_configs();
    let grass_type = ground_configs.terrain_index("grass").unwrap_or(2);
    let stone_type = ground_configs.terrain_index("stone").unwrap_or(3);

    for x in 0..5 {
        for y in 0..5 {
            terrain_map.set_tile(x, y, grass_type);
        }
    }

    for x in 1..4 {
        for y in 1..4 {
            terrain_map.set_tile(x, y, stone_type);
        }
    }

    // Passable but unreachable centre.
    terrain_map.set_tile(2, 2, grass_type);

    let start = terrain_map.tile_to_world_coords(0, 0);
    let end = terrain_map.tile_to_world_coords(2, 2);

    assert!(terrain_map.is_passable_at_world_pos(start.0, start.1, &ground_configs), "Start should be passable");
    assert!(terrain_map.is_passable_at_world_pos(end.0, end.1, &ground_configs), "End should be passable");

    let path = terrain_map.find_path(start, end, &ground_configs);
    assert!(path.is_none(), "Should not find path when destination is unreachable");
}

#[test]
fn test_coordinate_conversion_accuracy() {
    let terrain_map = create_test_terrain_map(10, 10, 32);

    for tile_x in 0..10 {
        for tile_y in 0..10 {
            let (world_x, world_y) = terrain_map.tile_to_world_coords(tile_x, tile_y);
            let converted_back = terrain_map.world_to_tile_coords(world_x, world_y);

            assert_eq!(converted_back, Some((tile_x, tile_y)),
                      "Coordinate conversion should be accurate for tile ({}, {})", tile_x, tile_y);
        }
    }
}

#[test]
fn test_map_boundary_handling() {
    let terrain_map = create_test_terrain_map(5, 5, 32);

    assert_eq!(terrain_map.world_to_tile_coords(-1000, -1000), None);
    assert_eq!(terrain_map.world_to_tile_coords(1000, 1000), None);

    let ground_configs = create_test_ground_configs();
    assert!(!terrain_map.is_tile_passable(-1, -1, &ground_configs));
    assert!(!terrain_map.is_tile_passable(10, 10, &ground_configs));

    assert!(!terrain_map.is_passable_at_world_pos(-1000, -1000, &ground_configs));
    assert_eq!(terrain_map.get_terrain_at_world_pos(-1000, -1000), None);
}
