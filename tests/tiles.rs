use void_terrain::{tile_walkable, TileType};

#[test]
fn index_round_trips_through_kind() {
    for i in 0u32..=11 {
        assert_eq!(TileType::from(i).index(), i);
    }
    assert_eq!(TileType::from(0), TileType::DeepWater);
    assert_eq!(TileType::from(10), TileType::Snow);
    assert_eq!(TileType::Shore.index(), 9);
}

#[test]
fn indices_past_the_table_are_unknown() {
    assert_eq!(TileType::from(11), TileType::Unknown);
    assert_eq!(TileType::from(12), TileType::Unknown);
    assert_eq!(TileType::from(u32::MAX), TileType::Unknown);
}

#[test]
fn walkability_by_index() {
    for blocked in [0u32, 4, 5, 8, 11, 12, 400] {
        assert!(!tile_walkable(blocked), "index {} should be blocked", blocked);
    }
    for open in [1u32, 2, 3, 6, 7, 9, 10] {
        assert!(tile_walkable(open), "index {} should be walkable", open);
    }
}

#[test]
fn walkability_by_kind() {
    assert!(!TileType::DeepWater.is_walkable());
    assert!(!TileType::Mountain.is_walkable());
    assert!(!TileType::Unknown.is_walkable());
    assert!(TileType::Sand.is_walkable());
    assert!(TileType::Shore.is_walkable());
}
