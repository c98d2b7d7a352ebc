use std::cell::RefCell;

use void_terrain::{
    classify_biome, spawn_chunk, ChunkCoord, ChunkManager, GameState, MapGeometry, MoveCheck,
    TerrainSample, TileType,
};

/// Deep water on tiles whose coordinates sum to an even number, grass on the
/// others.
fn checkerboard(wx: i64, wy: i64) -> TerrainSample {
    let elevation = if (wx + wy).rem_euclid(2) == 0 { 50 } else { 500 };
    TerrainSample { elevation, moisture: 300, temperature: 500 }
}

/// 160 x 160 tiles: chunks (0, 0) to (9, 9).
fn big_geometry() -> MapGeometry {
    MapGeometry::new(160, 160, 16, 16, 32, 2, 3328).unwrap()
}

fn coords(list: &[ChunkCoord]) -> Vec<(i32, i32)> {
    let mut v: Vec<(i32, i32)> = list.iter().map(|c| (c.x, c.y)).collect();
    v.sort();
    v
}

fn grid(xs: std::ops::RangeInclusive<i32>, ys: std::ops::RangeInclusive<i32>) -> Vec<(i32, i32)> {
    let mut v = Vec::new();
    for x in xs {
        for y in ys.clone() {
            v.push((x, y));
        }
    }
    v.sort();
    v
}

#[test]
fn spawn_window_at_origin_in_row_order() {
    let g = MapGeometry::new(64, 64, 16, 16, 32, 2, 3328).unwrap();
    let mut m = ChunkManager::new(g);
    let spawned = m.spawn_chunk_around_camera(0, 0, &checkerboard);
    let order: Vec<(i32, i32)> = spawned.iter().map(|c| (c.x, c.y)).collect();
    assert_eq!(
        order,
        vec![(0, 0), (1, 0), (2, 0), (0, 1), (1, 1), (2, 1), (0, 2), (1, 2), (2, 2)]
    );
    assert_eq!(m.len(), 9);
    assert!(m.contains(ChunkCoord { x: 2, y: 2 }));
    assert!(!m.contains(ChunkCoord { x: 3, y: 0 }));
    assert!(!m.contains(ChunkCoord { x: -1, y: 0 }));
}

#[test]
fn spawning_twice_adds_nothing() {
    let mut m = ChunkManager::new(big_geometry());
    assert_eq!(m.spawn_chunk_around_camera(100, 100, &checkerboard).len(), 9);
    assert!(m.spawn_chunk_around_camera(100, 100, &checkerboard).is_empty());
    assert_eq!(m.len(), 9);
}

#[test]
fn same_viewpoint_never_thrashes() {
    let mut m = ChunkManager::new(big_geometry());
    // Viewpoint in chunk (5, 5); the window is chunks 3 to 7 on both axes.
    let report = m.tick(5 * 512 + 100, 5 * 512 + 400, &checkerboard);
    assert_eq!(coords(&report.spawned), grid(3..=7, 3..=7));
    assert!(report.despawned.is_empty());
    for _ in 0..3 {
        let again = m.tick(5 * 512 + 100, 5 * 512 + 400, &checkerboard);
        assert!(again.spawned.is_empty());
        assert!(again.despawned.is_empty());
    }
    assert_eq!(m.len(), 25);
}

#[test]
fn moving_despawns_far_chunks_and_spawns_new_ones() {
    let mut m = ChunkManager::new(big_geometry());
    m.tick(0, 0, &checkerboard);
    assert_eq!(m.len(), 9);
    let report = m.tick(4000, 0, &checkerboard);
    assert_eq!(coords(&report.despawned), vec![(0, 0), (0, 1), (0, 2), (1, 2)]);
    assert_eq!(coords(&report.spawned), grid(5..=9, 0..=2));
    assert_eq!(m.len(), 20);
    assert!(m.contains(ChunkCoord { x: 1, y: 1 }));
    assert!(!m.contains(ChunkCoord { x: 1, y: 2 }));
}

#[test]
fn despawn_pass_alone() {
    let mut m = ChunkManager::new(big_geometry());
    m.spawn_chunk_around_camera(0, 0, &checkerboard);
    let gone = m.despawn_outofrange_chunks(4000, 0);
    assert_eq!(coords(&gone), vec![(0, 0), (0, 1), (0, 2), (1, 2)]);
    assert_eq!(m.len(), 5);
    assert!(m.despawn_outofrange_chunks(4000, 0).is_empty());
}

#[test]
fn chunk_count_stays_within_the_world() {
    let small = MapGeometry::overworld();
    let mut m = ChunkManager::new(small);
    let mut big = ChunkManager::new(big_geometry());
    let path = [
        (0, 0),
        (600, 600),
        (-5000, 300),
        (1500, -20000),
        (90000, 90000),
        (2000, 2000),
        (5100, 5100),
        (700, 4000),
        (-1, -1),
    ];
    for &(x, y) in path.iter() {
        m.tick(x, y, &checkerboard);
        big.tick(x, y, &checkerboard);
        assert!(m.len() as u64 <= small.max_spawned_chunks());
        assert!(big.len() as u64 <= 100);
    }
    let mut fresh = ChunkManager::new(small);
    fresh.tick(0, 0, &checkerboard);
    assert_eq!(fresh.len(), 4);
}

#[test]
fn regenerate_request_clears_the_map() {
    let mut m = ChunkManager::new(big_geometry());
    let (state, report) = m.update(GameState::GameRunning, 0, 0, &checkerboard);
    assert_eq!(state, GameState::GameRunning);
    assert_eq!(report.spawned.len(), 9);
    let (state, report) = m.update(GameState::DirtyMap, 0, 0, &checkerboard);
    assert_eq!(state, GameState::GameRunning);
    assert!(report.spawned.is_empty());
    assert_eq!(coords(&report.despawned), grid(0..=2, 0..=2));
    assert_eq!(m.len(), 0);
    let (_, report) = m.update(GameState::GameRunning, 0, 0, &checkerboard);
    assert_eq!(report.spawned.len(), 9);
}

#[test]
fn reset_map_returns_every_chunk() {
    let mut m = ChunkManager::new(big_geometry());
    m.tick(3000, 3000, &checkerboard);
    let before = m.len();
    let gone = m.reset_map();
    assert_eq!(gone.len(), before);
    assert_eq!(m.len(), 0);
}

#[test]
fn tile_lookup_and_movement() {
    let mut m = ChunkManager::new(big_geometry());
    m.tick(0, 0, &checkerboard);
    assert_eq!(m.tile_at(0, 0), Some(TileType::DeepWater));
    assert_eq!(m.tile_at(32, 0), Some(TileType::Grass));
    assert_eq!(m.tile_at(600, 40), Some(TileType::Grass));
    assert_eq!(m.tile_at(-5, 0), None);
    assert_eq!(m.tile_at(5000, 0), None);
    assert_eq!(m.move_legality(0, 0), MoveCheck::Blocked);
    assert_eq!(m.move_legality(32, 0), MoveCheck::Walkable);
    assert_eq!(m.move_legality(-5, 0), MoveCheck::NoChunk);
}

#[test]
fn generated_chunk_is_complete_and_sampled_at_world_tiles() {
    let g = MapGeometry::overworld();
    let seen: RefCell<Vec<(i64, i64)>> = RefCell::new(Vec::new());
    let sampler = |wx: i64, wy: i64| {
        seen.borrow_mut().push((wx, wy));
        checkerboard(wx, wy)
    };
    let chunk = spawn_chunk(&g, ChunkCoord { x: 2, y: -3 }, &sampler);
    assert_eq!(chunk.tiles.len(), 256);
    assert_eq!(chunk.coord, ChunkCoord { x: 2, y: -3 });
    assert_eq!(seen.borrow().len(), 256);
    assert_eq!(seen.borrow()[0], (32, -48));
    assert_eq!(seen.borrow()[17], (33, -47));
    for y in 0..16u32 {
        for x in 0..16u32 {
            let expected = classify_biome(&checkerboard(32 + x as i64, -48 + y as i64));
            assert_eq!(chunk.tile(x, y), Some(expected));
        }
    }
    assert_eq!(chunk.tile(16, 0), None);
    assert_eq!(chunk.tile(0, 16), None);
}

#[test]
fn managed_chunks_are_always_complete() {
    let mut m = ChunkManager::new(big_geometry());
    m.tick(2500, 1500, &checkerboard);
    for chunk in m.chunks.iter() {
        assert_eq!(chunk.tiles.len(), 16 * 16);
        assert_eq!((chunk.width, chunk.height), (16, 16));
    }
}
