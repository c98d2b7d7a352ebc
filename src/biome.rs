use vstd::prelude::*;
use crate::fixed::{smoothstep, smoothstep_spec, UNIT};
use crate::tile_type::{index_of, TileType};

verus! {

/// Lower and upper edge of the water band's smoothstep.
pub const WATER_LOW: u32 = 180;
pub const WATER_HIGH: u32 = 260;
/// Edges of the beach band's smoothstep, directly above the water band.
pub const BEACH_LOW: u32 = 260;
pub const BEACH_HIGH: u32 = 300;
/// Edges of the mountain band's smoothstep.
pub const MOUNTAIN_LOW: u32 = 800;
pub const MOUNTAIN_HIGH: u32 = 860;

/// Elevation, moisture and temperature of one tile, each in `[0, UNIT]`.
#[derive(Debug, PartialEq, Eq, Structural, Clone, Copy)]
pub struct TerrainSample {
    pub elevation: u32,
    pub moisture: u32,
    pub temperature: u32,
}

impl TerrainSample {
    /// All three fields lie in `[0, UNIT]`.
    pub open spec fn wf(self) -> bool {
        self.elevation <= UNIT && self.moisture <= UNIT && self.temperature <= UNIT
    }
}

/// The biome cascade: the first rule that holds decides the kind.
pub open spec fn classify_spec(e: int, m: int, t: int) -> TileType {
    let water = smoothstep_spec(WATER_LOW as int, WATER_HIGH as int, e);
    let beach = smoothstep_spec(BEACH_LOW as int, BEACH_HIGH as int, e);
    let mountain = smoothstep_spec(MOUNTAIN_LOW as int, MOUNTAIN_HIGH as int, e);
    if water < 330 {
        TileType::DeepWater
    } else if water < 660 {
        TileType::ShallowWater
    } else if water < UNIT {
        TileType::Shore
    } else if beach < UNIT && m < 450 {
        TileType::Dirt
    } else if mountain > 800 {
        if t < 300 {
            TileType::Snow
        } else {
            TileType::Rock
        }
    } else if t < 350 && m > 450 {
        TileType::Forest
    } else if m < 150 && t > 600 {
        TileType::Sand
    } else if m > 700 {
        TileType::Forest
    } else if m > 450 {
        TileType::Forest
    } else if e > 500 {
        TileType::Savannah
    } else {
        TileType::Grass
    }
}

/// Kind of the tile with this sample.
pub open spec fn classify_sample(s: TerrainSample) -> TileType {
    classify_spec(s.elevation as int, s.moisture as int, s.temperature as int)
}

/// Classifies a terrain sample into a tile kind. Total: every sample gets a
/// kind, and never the `Unknown` sentinel.
pub fn classify_biome(sample: &TerrainSample) -> (r: TileType)
    ensures
        r == classify_sample(*sample),
        r != TileType::Unknown,
{
    let e = sample.elevation;
    let m = sample.moisture;
    let t = sample.temperature;
    // Water depth classes from one continuous band.
    let water_f = smoothstep(WATER_LOW, WATER_HIGH, e);
    if water_f < 330 {
        return TileType::DeepWater;
    }
    if water_f < 660 {
        return TileType::ShallowWater;
    }
    if water_f < UNIT {
        return TileType::Shore;
    }
    // Dry beaches right above the water line.
    let beach_f = smoothstep(BEACH_LOW, BEACH_HIGH, e);
    if beach_f < UNIT && m < 450 {
        return TileType::Dirt;
    }
    // Mountains, with a snow line set by temperature.
    let mountain_f = smoothstep(MOUNTAIN_LOW, MOUNTAIN_HIGH, e);
    if mountain_f > 800 {
        if t < 300 {
            return TileType::Snow;
        }
        return TileType::Rock;
    }
    // The rest by moisture and temperature.
    if t < 350 && m > 450 {
        return TileType::Forest;
    }
    if m < 150 && t > 600 {
        return TileType::Sand;
    }
    if m > 700 {
        return TileType::Forest;
    }
    if m > 450 {
        return TileType::Forest;
    }
    if e > 500 {
        return TileType::Savannah;
    }
    TileType::Grass
}

/// Texture index of the biome for elevation `e`, moisture `m` and
/// temperature `t`.
pub fn biome(e: u32, m: u32, t: u32) -> (r: u32)
    ensures
        r == index_of(classify_spec(e as int, m as int, t as int)),
        r < 11,
{
    let sample = TerrainSample { elevation: e, moisture: m, temperature: t };
    classify_biome(&sample).index()
}

/// Classification is total: every elevation, moisture and temperature gets
/// one of the eleven defined kinds, never the `Unknown` sentinel.
pub proof fn lemma_classification_total(e: int, m: int, t: int)
    ensures
        classify_spec(e, m, t) != TileType::Unknown,
        index_of(classify_spec(e, m, t)) < 11,
{
}

} // verus!
