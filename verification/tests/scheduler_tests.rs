use gridpath::grid::{TerrainMap, GroundConfigs};
use gridpath::scheduler::{
    PathfindingRequest, PathfindingPriority, PathfindingRequestCounter, RequestScheduler,
    RequestState, sort_requests_by_priority,
};

fn create_test_ground_configs() -> GroundConfigs {
    let mut cfg = GroundConfigs::new();
    cfg.add_class("dirt", "tileset::grounds::dirt", true);
    cfg.add_class("grass", "tileset::grounds::grass", true);
    cfg.add_class("stone", "tileset::grounds::stone", false);
    cfg.add_class("water", "tileset::grounds::water", false);
    cfg
}

fn create_simple_terrain() -> TerrainMap {
    let mut terrain_map = TerrainMap::new(5, 5, 32);
    let cfg = create_test_ground_configs();
    let grass = cfg.terrain_index("grass").unwrap_or(2);

    for x in 0..5 {
        for y in 0..5 {
            terrain_map.set_tile(x, y, grass);
        }
    }

    terrain_map
}

#[test]
fn test_pathfinding_request_creation() {
    let request = PathfindingRequest::new((0, 0), (100, 100), 1000);
    assert_eq!(request.start, (0, 0));
    assert_eq!(request.goal, (100, 100));
    assert_eq!(request.size, 1000);
    assert_eq!(request.priority, PathfindingPriority::Normal);
}

#[test]
fn test_pathfinding_request_with_priority() {
    let request = PathfindingRequest::new((0, 0), (100, 100), 1000)
        .with_priority(PathfindingPriority::High);
    assert_eq!(request.priority, PathfindingPriority::High);
}

#[test]
fn test_pathfinding_priority_ordering() {
    assert!(PathfindingPriority::Critical > PathfindingPriority::High);
    assert!(PathfindingPriority::High > PathfindingPriority::Normal);
    assert!(PathfindingPriority::Normal > PathfindingPriority::Low);
}

#[test]
fn test_pathfinding_request_counter() {
    let mut counter = PathfindingRequestCounter::default();

    let id1 = counter.next_id();
    let id2 = counter.next_id();
    let id3 = counter.next_id();

    assert_eq!(id1, 0);
    assert_eq!(id2, 1);
    assert_eq!(id3, 2);

    // Wraparound behaviour.
    counter.next_id = u64::MAX;
    let id_max = counter.next_id();
    let id_wrapped = counter.next_id();

    assert_eq!(id_max, u64::MAX);
    assert_eq!(id_wrapped, 0);
}

#[test]
fn test_scheduler_dispatch_and_completion() {
    let map = create_simple_terrain();
    let cfg = create_test_ground_configs();
    let mut sched = RequestScheduler::new();

    let start = map.tile_to_world_coords(0, 0);
    let goal = map.tile_to_world_coords(4, 4);
    let id = sched.submit(start, goal, 500, PathfindingPriority::Normal);

    assert_eq!(sched.request_state(id), Some(RequestState::Requested));
    assert!(sched.poll(id).is_none());

    // First tick dispatches (the cache is empty).
    let tasks = sched.tick(&map);
    assert_eq!(tasks.len(), 1);
    assert_eq!(tasks[0].request_id, id);
    assert_eq!(sched.request_state(id), Some(RequestState::Dispatched));

    // The driver runs the task and hands the result back.
    let result = RequestScheduler::run_task(&map, &cfg, &tasks[0]);
    assert!(result.path.is_some(), "Open terrain should yield a path");
    sched.complete(result, &map);
    assert_eq!(sched.request_state(id), Some(RequestState::Resolved));

    let polled = sched.poll(id).expect("Result should be pollable");
    assert!(polled.path.is_some());
    assert_eq!(polled.request_id, id);
    assert!(sched.poll(id).is_none(), "Polling consumes the result");
}

#[test]
fn test_scheduler_cache_hit_resolves_without_dispatch() {
    let map = create_simple_terrain();
    let cfg = create_test_ground_configs();
    let mut sched = RequestScheduler::new();

    let start = map.tile_to_world_coords(0, 0);
    let goal = map.tile_to_world_coords(4, 4);

    // First round: dispatch, run, complete (this stores the path).
    let id1 = sched.submit(start, goal, 500, PathfindingPriority::Normal);
    let tasks = sched.tick(&map);
    assert_eq!(tasks.len(), 1);
    let result = RequestScheduler::run_task(&map, &cfg, &tasks[0]);
    sched.complete(result, &map);
    let first = sched.poll(id1).unwrap();

    // Second round: the identical request resolves from the cache in the
    // tick itself; nothing is dispatched.
    let id2 = sched.submit(start, goal, 500, PathfindingPriority::Normal);
    let tasks = sched.tick(&map);
    assert_eq!(tasks.len(), 0, "Cache hit should resolve without dispatch");
    let second = sched.poll(id2).unwrap();
    assert_eq!(first.path, second.path, "Cached result should match the computed one");
}

#[test]
fn test_scheduler_invalidation_forces_redispatch() {
    let map = create_simple_terrain();
    let cfg = create_test_ground_configs();
    let stone = cfg.terrain_index("stone").unwrap_or(3);
    let mut sched = RequestScheduler::new();

    let start = map.tile_to_world_coords(0, 0);
    let goal = map.tile_to_world_coords(4, 4);

    let id1 = sched.submit(start, goal, 500, PathfindingPriority::Normal);
    let tasks = sched.tick(&map);
    let result = RequestScheduler::run_task(&map, &cfg, &tasks[0]);
    sched.complete(result, &map);
    sched.poll(id1).unwrap();

    // A terrain edit invalidates the cache, so the request dispatches again.
    let version_before = sched.cache.terrain_version;
    sched.notify_terrain_changed(2, 2, stone);
    sched.apply_terrain_changes();
    assert!(sched.cache.terrain_version > version_before, "Version should rise");

    let _id2 = sched.submit(start, goal, 500, PathfindingPriority::Normal);
    let tasks = sched.tick(&map);
    assert_eq!(tasks.len(), 1, "Stale cache entry should not count as a hit");
}

#[test]
fn test_scheduler_priority_sorting() {
    let reqs = vec![
        PathfindingRequest::new((0, 0), (1, 1), 500).with_priority(PathfindingPriority::Low),
        PathfindingRequest::new((0, 0), (2, 2), 500).with_priority(PathfindingPriority::Critical),
        PathfindingRequest::new((0, 0), (3, 3), 500).with_priority(PathfindingPriority::Normal),
        PathfindingRequest::new((0, 0), (4, 4), 500).with_priority(PathfindingPriority::High),
    ];
    let sorted = sort_requests_by_priority(&reqs);
    assert_eq!(sorted.len(), 4);
    assert_eq!(sorted[0].priority, PathfindingPriority::Critical);
    assert_eq!(sorted[1].priority, PathfindingPriority::High);
    assert_eq!(sorted[2].priority, PathfindingPriority::Normal);
    assert_eq!(sorted[3].priority, PathfindingPriority::Low);
}

#[test]
fn test_scheduler_discard_orphans() {
    let map = create_simple_terrain();
    let mut sched = RequestScheduler::new();

    let start = map.tile_to_world_coords(0, 0);
    let goal = map.tile_to_world_coords(4, 4);
    let id = sched.submit(start, goal, 500, PathfindingPriority::Normal);
    assert_eq!(sched.request_state(id), Some(RequestState::Requested));

    sched.discard(id);
    assert_eq!(sched.request_state(id), None, "Discarded request should be gone");
    assert!(sched.poll(id).is_none());
}
