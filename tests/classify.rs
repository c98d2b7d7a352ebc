use void_terrain::{biome, classify_biome, normalize_noise, smoothstep, TerrainSample, TileType, UNIT};

fn kind(e: u32, m: u32, t: u32) -> TileType {
    classify_biome(&TerrainSample { elevation: e, moisture: m, temperature: t })
}

#[test]
fn low_elevation_is_deep_water() {
    assert_eq!(kind(50, 500, 500), TileType::DeepWater);
}

#[test]
fn cold_high_mountain_is_snow() {
    assert_eq!(kind(950, 100, 100), TileType::Snow);
}

#[test]
fn classification_is_total() {
    for e in (0..=UNIT).step_by(25) {
        for m in (0..=UNIT).step_by(25) {
            for t in (0..=UNIT).step_by(25) {
                assert_ne!(kind(e, m, t), TileType::Unknown);
            }
        }
    }
    assert_ne!(kind(u32::MAX, u32::MAX, u32::MAX), TileType::Unknown);
}

#[test]
fn water_depth_classes() {
    assert_eq!(kind(180, 500, 500), TileType::DeepWater);
    assert_eq!(kind(220, 500, 500), TileType::ShallowWater);
    assert_eq!(kind(250, 500, 500), TileType::Shore);
}

#[test]
fn dry_beach_above_the_water_line() {
    assert_eq!(kind(260, 300, 500), TileType::Dirt);
    assert_eq!(kind(299, 449, 500), TileType::Dirt);
    assert_eq!(kind(260, 500, 500), TileType::Forest);
    assert_eq!(kind(300, 300, 500), TileType::Grass);
}

#[test]
fn mountain_band_splits_by_temperature() {
    assert_eq!(kind(900, 500, 500), TileType::Rock);
    assert_eq!(kind(850, 300, 100), TileType::Snow);
    assert_eq!(kind(830, 300, 500), TileType::Savannah);
}

#[test]
fn moisture_and_temperature_rules_in_order() {
    assert_eq!(kind(600, 500, 200), TileType::Forest);
    assert_eq!(kind(600, 100, 700), TileType::Sand);
    assert_eq!(kind(600, 100, 600), TileType::Savannah);
    assert_eq!(kind(600, 800, 500), TileType::Forest);
    assert_eq!(kind(600, 300, 500), TileType::Savannah);
    assert_eq!(kind(400, 300, 500), TileType::Grass);
}

#[test]
fn biome_gives_texture_index() {
    assert_eq!(biome(50, 500, 500), 0);
    assert_eq!(biome(950, 100, 100), 10);
    assert_eq!(biome(400, 300, 500), 3);
}

#[test]
fn smoothstep_edges_and_middle() {
    assert_eq!(smoothstep(180, 260, 0), 0);
    assert_eq!(smoothstep(180, 260, 180), 0);
    assert_eq!(smoothstep(180, 260, 220), 500);
    assert_eq!(smoothstep(180, 260, 250), 957);
    assert_eq!(smoothstep(180, 260, 260), UNIT);
    assert_eq!(smoothstep(180, 260, 1000), UNIT);
    assert_eq!(smoothstep(0, 1000, 250), 156);
}

#[test]
fn smoothstep_is_monotone() {
    let mut last = 0;
    for x in 0..=UNIT {
        let s = smoothstep(180, 260, x);
        assert!(s >= last);
        assert!(s <= UNIT);
        last = s;
    }
    assert_eq!(last, UNIT);
}

#[test]
fn normalize_noise_maps_onto_unit_range() {
    assert_eq!(normalize_noise(-1000), 0);
    assert_eq!(normalize_noise(-2000), 0);
    assert_eq!(normalize_noise(0), 500);
    assert_eq!(normalize_noise(1), 500);
    assert_eq!(normalize_noise(-1), 499);
    assert_eq!(normalize_noise(1000), 1000);
    assert_eq!(normalize_noise(3000), 1000);
    assert_eq!(normalize_noise(i32::MIN), 0);
    assert_eq!(normalize_noise(i32::MAX), 1000);
}
