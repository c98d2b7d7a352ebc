use void_terrain::{camera_pos_to_chunk_pos, chunk_origin, ChunkCoord, ConfigError, MapGeometry};

fn geometry(world: u32, despawn: u32) -> MapGeometry {
    MapGeometry::new(world, world, 16, 16, 32, 2, despawn).unwrap()
}

#[test]
fn new_reports_each_configuration_error() {
    assert_eq!(MapGeometry::new(0, 24, 16, 16, 32, 2, 3328), Err(ConfigError::ZeroWorldExtent));
    assert_eq!(MapGeometry::new(32, 0, 16, 16, 32, 2, 3328), Err(ConfigError::ZeroWorldExtent));
    assert_eq!(MapGeometry::new(32, 24, 0, 16, 32, 2, 3328), Err(ConfigError::ZeroChunkSize));
    assert_eq!(MapGeometry::new(32, 24, 16, 0, 32, 2, 3328), Err(ConfigError::ZeroChunkSize));
    assert_eq!(MapGeometry::new(32, 24, 16, 16, 0, 2, 3328), Err(ConfigError::ZeroTileSize));
    assert_eq!(MapGeometry::new(2_000_000, 24, 16, 16, 32, 2, 3328), Err(ConfigError::TooLarge));
    assert_eq!(MapGeometry::new(32, 24, 16, 16, 4096, 2, 3328), Err(ConfigError::TooLarge));
    assert_eq!(
        MapGeometry::new(32, 24, 16, 16, 32, 2, 1810),
        Err(ConfigError::DespawnWithinSpawnWindow)
    );
    assert!(MapGeometry::new(32, 24, 16, 16, 32, 2, 1811).is_ok());
}

#[test]
fn overworld_geometry() {
    let g = MapGeometry::overworld();
    assert_eq!(MapGeometry::new(32, 24, 16, 16, 32, 2, 3328), Ok(g));
    assert_eq!(g.chunk_columns(), 2);
    assert_eq!(g.chunk_rows(), 2);
    assert_eq!(g.max_spawned_chunks(), 4);
    assert_eq!(g.chunk_pixel_width(), 512);
    let g = MapGeometry::new(33, 17, 16, 16, 32, 2, 3328).unwrap();
    assert_eq!(g.max_spawned_chunks(), 6);
}

#[test]
fn viewpoint_chunk_rounds_toward_negative_infinity() {
    let g = MapGeometry::overworld();
    assert_eq!(camera_pos_to_chunk_pos(&g, 0, 0), ChunkCoord { x: 0, y: 0 });
    assert_eq!(camera_pos_to_chunk_pos(&g, 511, 512), ChunkCoord { x: 0, y: 1 });
    assert_eq!(camera_pos_to_chunk_pos(&g, -1, -1), ChunkCoord { x: -1, y: -1 });
    assert_eq!(camera_pos_to_chunk_pos(&g, -512, -513), ChunkCoord { x: -1, y: -2 });
    assert_eq!(camera_pos_to_chunk_pos(&g, 1023, -1024), ChunkCoord { x: 1, y: -2 });
    assert_eq!(camera_pos_to_chunk_pos(&g, i32::MIN, i32::MAX), ChunkCoord { x: -4194304, y: 4194303 });
}

#[test]
fn spawn_window_is_clamped_to_the_map() {
    // 64 x 64 tiles in chunks of 16: chunks (0, 0) to (3, 3).
    let g = geometry(64, 3328);
    let w = g.spawn_window(0, 0);
    assert_eq!((w.min_x, w.max_x, w.min_y, w.max_y), (0, 2, 0, 2));
    let w = g.spawn_window(3 * 512 + 10, 3 * 512 + 10);
    assert_eq!((w.min_x, w.max_x, w.min_y, w.max_y), (1, 3, 1, 3));
    let w = g.spawn_window(2 * 512, 512);
    assert_eq!((w.min_x, w.max_x, w.min_y, w.max_y), (0, 3, 0, 3));
}

#[test]
fn spawn_window_far_outside_the_map_is_empty() {
    let g = geometry(64, 3328);
    let w = g.spawn_window(100_000, 100);
    assert!(w.min_x > w.max_x);
    let w = g.spawn_window(-2000, -2000);
    assert!(w.min_x > w.max_x && w.min_y > w.max_y);
    let w = g.spawn_window(-600, 0);
    assert_eq!((w.min_x, w.max_x), (0, 0));
}

#[test]
fn chunk_origin_in_pixels() {
    let g = MapGeometry::overworld();
    assert_eq!(chunk_origin(&g, ChunkCoord { x: 2, y: -3 }), (1024, -1536));
    assert_eq!(chunk_origin(&g, ChunkCoord { x: 0, y: 0 }), (0, 0));
}

#[test]
fn despawn_distance_from_chunk_centres() {
    let g = MapGeometry::overworld();
    assert!(!g.is_beyond(0, 0, ChunkCoord { x: 0, y: 0 }));
    assert!(g.is_beyond(0, 0, ChunkCoord { x: 10, y: 0 }));
    // Doubled distance to the centre of (1, 1) from (4000, 0) is just inside.
    assert!(!g.is_beyond(4000, 0, ChunkCoord { x: 1, y: 1 }));
    assert!(g.is_beyond(4000, 0, ChunkCoord { x: 1, y: 2 }));
    assert!(g.is_beyond(i32::MAX, i32::MIN, ChunkCoord { x: i32::MIN, y: i32::MAX }));
}
