use vstd::prelude::*;

verus! {

/// The closed set of tile kinds. Each kind has a stable texture index in
/// `0..=11` (see [`TileType::index`]); `Unknown` is the sentinel for an unknown
/// index.
#[derive(Debug, Hash, PartialEq, Eq, Structural, Clone, Copy)]
pub enum TileType {
    DeepWater,
    Dirt,
    Forest,
    Grass,
    Mountain,
    Rock,
    Sand,
    Savannah,
    ShallowWater,
    Shore,
    Snow,
    Unknown,
}

/// Texture index of a tile kind.
pub open spec fn index_of(t: TileType) -> u32 {
    match t {
        TileType::DeepWater => 0,
        TileType::Dirt => 1,
        TileType::Forest => 2,
        TileType::Grass => 3,
        TileType::Mountain => 4,
        TileType::Rock => 5,
        TileType::Sand => 6,
        TileType::Savannah => 7,
        TileType::ShallowWater => 8,
        TileType::Shore => 9,
        TileType::Snow => 10,
        TileType::Unknown => 11,
    }
}

/// Tile kind of a texture index; every index past the table is `Unknown`.
pub open spec fn kind_of(i: u32) -> TileType {
    if i == 0 {
        TileType::DeepWater
    } else if i == 1 {
        TileType::Dirt
    } else if i == 2 {
        TileType::Forest
    } else if i == 3 {
        TileType::Grass
    } else if i == 4 {
        TileType::Mountain
    } else if i == 5 {
        TileType::Rock
    } else if i == 6 {
        TileType::Sand
    } else if i == 7 {
        TileType::Savannah
    } else if i == 8 {
        TileType::ShallowWater
    } else if i == 9 {
        TileType::Shore
    } else if i == 10 {
        TileType::Snow
    } else {
        TileType::Unknown
    }
}

/// Whether a unit can stand on a tile of this kind.
pub open spec fn walkable(t: TileType) -> bool {
    !(t == TileType::DeepWater || t == TileType::Rock || t == TileType::ShallowWater
        || t == TileType::Mountain || t == TileType::Unknown)
}

impl TileType {
    /// The texture index of this kind.
    pub fn index(self) -> (r: u32)
        ensures
            r == index_of(self),
            r <= 11,
    {
        match self {
            TileType::DeepWater => 0,
            TileType::Dirt => 1,
            TileType::Forest => 2,
            TileType::Grass => 3,
            TileType::Mountain => 4,
            TileType::Rock => 5,
            TileType::Sand => 6,
            TileType::Savannah => 7,
            TileType::ShallowWater => 8,
            TileType::Shore => 9,
            TileType::Snow => 10,
            TileType::Unknown => 11,
        }
    }

    /// Whether a unit can stand on a tile of this kind.
    pub fn is_walkable(self) -> (r: bool)
        ensures
            r == walkable(self),
    {
        !matches!(self, TileType::DeepWater | TileType::Rock | TileType::ShallowWater
            | TileType::Mountain | TileType::Unknown)
    }
}

impl From<u32> for TileType {
    fn from(tile_type: u32) -> (r: TileType)
        ensures
            r == kind_of(tile_type),
    {
        match tile_type {
            0 => TileType::DeepWater,
            1 => TileType::Dirt,
            2 => TileType::Forest,
            3 => TileType::Grass,
            4 => TileType::Mountain,
            5 => TileType::Rock,
            6 => TileType::Sand,
            7 => TileType::Savannah,
            8 => TileType::ShallowWater,
            9 => TileType::Shore,
            10 => TileType::Snow,
            _ => TileType::Unknown,
        }
    }
}

impl vstd::std_specs::convert::FromSpecImpl<u32> for TileType {
    open spec fn obeys_from_spec() -> bool {
        true
    }

    open spec fn from_spec(v: u32) -> TileType {
        kind_of(v)
    }
}

/// Whether the tile with texture index `tile_index` can be walked on.
pub fn tile_walkable(tile_index: u32) -> (r: bool)
    ensures
        r == walkable(kind_of(tile_index)),
{
    let tile_type = TileType::from(tile_index);
    tile_type.is_walkable()
}

/// The texture index and the tile kind are inverse to each other: every kind
/// has its own index, and every index in `0..=11` names exactly one kind.
pub proof fn lemma_index_bijection(t: TileType, i: u32)
    ensures
        kind_of(index_of(t)) == t,
        i <= 11 ==> index_of(kind_of(i)) == i,
        i > 11 ==> kind_of(i) == TileType::Unknown,
{
}

} // verus!
