use gridpath::grid::{TerrainMap, TerrainChanges, GroundConfigs};

fn create_test_ground_configs() -> GroundConfigs {
    let mut cfg = GroundConfigs::new();
    cfg.add_class("dirt", "tileset::grounds::dirt", true);
    cfg.add_class("grass", "tileset::grounds::grass", true);
    cfg.add_class("stone", "tileset::grounds::stone", false);
    cfg.add_class("water", "tileset::grounds::water", false);
    cfg
}

fn create_test_terrain_map(width: u32, height: u32, tile_size: u32) -> TerrainMap {
    let mut terrain_map = TerrainMap::new(width, height, tile_size);
    let ground_configs = create_test_ground_configs();

    // Grass on the edges, water in the middle-left band, one stone cell in
    // the middle, grass elsewhere.
    for x in 0..width {
        for y in 0..height {
            let terrain = if x == 0 || x == width - 1 || y == 0 || y == height - 1 {
                ground_configs.terrain_index("grass").unwrap_or(2)
            } else if x < width / 3 && y >= height / 3 && y < 2 * height / 3 {
                ground_configs.terrain_index("water").unwrap_or(0)
            } else if x == width / 2 && y == height / 2 {
                ground_configs.terrain_index("stone").unwrap_or(3)
            } else {
                ground_configs.terrain_index("grass").unwrap_or(2)
            };
            terrain_map.set_tile(x, y, terrain);
        }
    }

    terrain_map
}

#[test]
fn test_map_generates_with_correct_dimensions() {
    let width = 20;
    let height = 15;
    let tile_size = 32;

    let terrain_map = TerrainMap::new(width, height, tile_size);

    assert_eq!(terrain_map.width, width);
    assert_eq!(terrain_map.height, height);
    assert_eq!(terrain_map.tile_size, tile_size);
    assert_eq!(terrain_map.tiles.len(), width as usize);
    assert_eq!(terrain_map.tiles[0].len(), height as usize);
}

#[test]
fn test_all_terrain_types_present() {
    let terrain_map = create_test_terrain_map(10, 10, 32);
    let ground_configs = create_test_ground_configs();
    let grass_type = ground_configs.terrain_index("grass").unwrap_or(2);
    let water_type = ground_configs.terrain_index("water").unwrap_or(0);
    let stone_type = ground_configs.terrain_index("stone").unwrap_or(3);

    let mut found_grass = false;
    let mut found_water = false;
    let mut found_stone = false;

    for x in 0..terrain_map.width {
        for y in 0..terrain_map.height {
            let terrain_type = terrain_map.tiles[x as usize][y as usize];
            if terrain_type == grass_type {
                found_grass = true;
            } else if terrain_type == water_type {
                found_water = true;
            } else if terrain_type == stone_type {
                found_stone = true;
            }
        }
    }

    assert!(found_grass, "Map should contain grass tiles");
    assert!(found_water, "Map should contain water tiles");
    assert!(found_stone, "Map should contain stone tiles");
}

#[test]
fn test_terrain_passability_rules() {
    let ground_configs = create_test_ground_configs();
    let grass_type = ground_configs.terrain_index("grass").unwrap_or(2);
    let dirt_type = ground_configs.terrain_index("dirt").unwrap_or(1);
    let stone_type = ground_configs.terrain_index("stone").unwrap_or(3);
    let water_type = ground_configs.terrain_index("water").unwrap_or(0);

    assert!(ground_configs.is_passable(grass_type), "Grass should be passable");
    assert!(ground_configs.is_passable(dirt_type), "Dirt should be passable");
    assert!(!ground_configs.is_passable(stone_type), "Stone should be impassable");
    assert!(!ground_configs.is_passable(water_type), "Water should be impassable");
}

#[test]
fn test_tile_setting_and_getting() {
    let mut terrain_map = TerrainMap::new(5, 5, 32);
    let ground_configs = create_test_ground_configs();
    let grass_type = ground_configs.terrain_index("grass").unwrap_or(2);
    let water_type = ground_configs.terrain_index("water").unwrap_or(0);
    let stone_type = ground_configs.terrain_index("stone").unwrap_or(3);
    let dirt_type = ground_configs.terrain_index("dirt").unwrap_or(1);

    terrain_map.set_tile(0, 0, grass_type);
    terrain_map.set_tile(1, 1, water_type);
    terrain_map.set_tile(2, 2, stone_type);
    terrain_map.set_tile(3, 3, dirt_type);

    assert_eq!(terrain_map.tiles[0][0], grass_type);
    assert_eq!(terrain_map.tiles[1][1], water_type);
    assert_eq!(terrain_map.tiles[2][2], stone_type);
    assert_eq!(terrain_map.tiles[3][3], dirt_type);
}

#[test]
fn test_out_of_bounds_tile_setting() {
    let mut terrain_map = TerrainMap::new(3, 3, 32);
    let ground_configs = create_test_ground_configs();
    let stone_type = ground_configs.terrain_index("stone").unwrap_or(3);
    let water_type = ground_configs.terrain_index("water").unwrap_or(0);

    // These should not panic or corrupt memory.
    terrain_map.set_tile(10, 10, stone_type);
    terrain_map.set_tile(u32::MAX, u32::MAX, water_type);

    // Original tiles should be unchanged (default to 0).
    for x in 0..3 {
        for y in 0..3 {
            assert_eq!(terrain_map.tiles[x][y], 0);
        }
    }
}

#[test]
fn test_world_position_terrain_lookup() {
    let mut terrain_map = TerrainMap::new(5, 5, 32);
    let ground_configs = create_test_ground_configs();
    let water_type = ground_configs.terrain_index("water").unwrap_or(0);

    terrain_map.set_tile(2, 2, water_type);

    let (world_x, world_y) = terrain_map.tile_to_world_coords(2, 2);

    let terrain = terrain_map.get_terrain_at_world_pos(world_x, world_y);
    assert_eq!(terrain, Some(water_type));
}

#[test]
fn test_coordinate_system_consistency() {
    let terrain_map = TerrainMap::new(6, 4, 16);

    for tile_x in 0..6 {
        for tile_y in 0..4 {
            let (world_x, world_y) = terrain_map.tile_to_world_coords(tile_x as i32, tile_y as i32);
            let tile_coords = terrain_map.world_to_tile_coords(world_x, world_y);

            assert_eq!(tile_coords, Some((tile_x as i32, tile_y as i32)),
                      "Coordinate conversion should be bidirectional for tile ({}, {})", tile_x, tile_y);
        }
    }
}

#[test]
fn test_map_center_coordinates() {
    let terrain_map = TerrainMap::new(4, 4, 10);

    // For a 4x4 map with tile size 10, world spans -20 to +20 in both axes.
    let center_tile_coords = terrain_map.world_to_tile_coords(0, 0);
    assert!(center_tile_coords.is_some(), "Center of world should map to valid tile coordinates");

    let (world_x, world_y) = terrain_map.tile_to_world_coords(0, 0);
    assert!(world_x < 0 && world_y < 0, "First tile should be in negative world coordinates");

    let (world_x, world_y) = terrain_map.tile_to_world_coords(3, 3);
    assert!(world_x > 0 && world_y > 0, "Last tile should be in positive world coordinates");
}

#[test]
fn test_passable_tile_finder() {
    let mut terrain_map = TerrainMap::new(5, 5, 32);
    let ground_configs = create_test_ground_configs();
    let stone_type = ground_configs.terrain_index("stone").unwrap_or(3);
    let grass_type = ground_configs.terrain_index("grass").unwrap_or(2);

    for x in 0..5 {
        for y in 0..5 {
            terrain_map.set_tile(x, y, stone_type);
        }
    }

    terrain_map.set_tile(3, 3, grass_type);

    let passable_pos = terrain_map.find_nearest_passable_tile((0, 0), &ground_configs);
    assert!(passable_pos.is_some(), "Should find the one passable tile");

    let (px, py) = passable_pos.unwrap();
    let tile_coords = terrain_map.world_to_tile_coords(px, py).unwrap();
    assert_eq!(tile_coords, (3, 3), "Should find the grass tile at (3,3)");
}

#[test]
fn test_no_passable_tile_available() {
    let mut terrain_map = TerrainMap::new(3, 3, 32);
    let ground_configs = create_test_ground_configs();
    let stone_type = ground_configs.terrain_index("stone").unwrap_or(3);

    for x in 0..3 {
        for y in 0..3 {
            terrain_map.set_tile(x, y, stone_type);
        }
    }

    let passable_pos = terrain_map.find_nearest_passable_tile((0, 0), &ground_configs);
    assert!(passable_pos.is_none(), "Should return None when no passable tiles exist");
}

#[test]
fn test_tile_size_affects_world_coordinates() {
    let terrain_map_small = TerrainMap::new(2, 2, 10);
    let terrain_map_large = TerrainMap::new(2, 2, 50);

    let (small_x, small_y) = terrain_map_small.tile_to_world_coords(1, 1);
    let (large_x, large_y) = terrain_map_large.tile_to_world_coords(1, 1);

    assert!(large_x.abs() > small_x.abs(), "Larger tile size should result in larger world coordinates");
    assert!(large_y.abs() > small_y.abs(), "Larger tile size should result in larger world coordinates");
}

#[test]
fn test_border_tile_handling() {
    let terrain_map = create_test_terrain_map(5, 5, 32);

    let border_positions = vec![
        (0, 0), (0, 4), (4, 0), (4, 4), // corners
        (0, 2), (4, 2), (2, 0), (2, 4), // edge midpoints
    ];

    for (tile_x, tile_y) in border_positions {
        let (world_x, world_y) = terrain_map.tile_to_world_coords(tile_x, tile_y);
        let terrain = terrain_map.get_terrain_at_world_pos(world_x, world_y);
        assert!(terrain.is_some(), "Border tile ({}, {}) should be accessible", tile_x, tile_y);
    }
}

#[test]
fn test_terrain_map_default_initialization() {
    let terrain_map = TerrainMap::new(3, 3, 16);

    for x in 0..3 {
        for y in 0..3 {
            assert_eq!(terrain_map.tiles[x][y], 0,
                   "Default terrain should be 0 for tile ({}, {})", x, y);
        }
    }
}

#[test]
fn test_terrain_modification_tracking() {
    let mut terrain_map = TerrainMap::new(5, 5, 32);
    let mut terrain_changes = TerrainChanges::default();

    assert!(terrain_changes.changed_tiles.is_empty());

    let ground_configs = create_test_ground_configs();
    let stone_type = ground_configs.terrain_index("stone").unwrap_or(3);

    let success = terrain_map.set_tile_at_world_pos(0, 0, stone_type, &mut terrain_changes);
    assert!(success);
    assert_eq!(terrain_changes.changed_tiles.len(), 1);

    let (_x, _y, terrain_type) = terrain_changes.changed_tiles[0];
    assert_eq!(terrain_type, stone_type);

    terrain_changes.clear();
    assert!(terrain_changes.changed_tiles.is_empty());
}

#[test]
fn test_terrain_passability_toggle_logic() {
    let ground_configs = create_test_ground_configs();
    let grass_type = ground_configs.terrain_index("grass").unwrap_or(2);
    let dirt_type = ground_configs.terrain_index("dirt").unwrap_or(1);
    let stone_type = ground_configs.terrain_index("stone").unwrap_or(3);
    let water_type = ground_configs.terrain_index("water").unwrap_or(0);

    assert!(ground_configs.is_passable(grass_type));
    assert!(ground_configs.is_passable(dirt_type));

    assert!(!ground_configs.is_passable(stone_type));
    assert!(!ground_configs.is_passable(water_type));

    let passable_terrain = grass_type;
    let impassable_terrain = stone_type;

    let new_terrain_from_passable = if ground_configs.is_passable(passable_terrain) {
        stone_type
    } else {
        dirt_type
    };

    let new_terrain_from_impassable = if ground_configs.is_passable(impassable_terrain) {
        stone_type
    } else {
        dirt_type
    };

    assert_eq!(new_terrain_from_passable, stone_type);
    assert_eq!(new_terrain_from_impassable, dirt_type);
}
