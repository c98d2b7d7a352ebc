//! Terrain generation and chunk streaming for a procedurally generated,
//! tile-based overworld.
//!
//! Values that are real numbers in `[0, 1]` (elevation, moisture,
//! temperature, smoothstep weights) are carried as fixed-point integers in
//! units of `1 / UNIT`. Noise fields themselves are sampled by the host
//! application, which hands the readings to [`compose_sample`].
mod biome;
mod chunk;
mod fixed;
mod geometry;
mod streamer;
mod terrain;
mod tile_type;

pub use biome::{biome, classify_biome, TerrainSample};
pub use chunk::{chunk_origin, spawn_chunk, Chunk};
pub use fixed::{floor_div, normalize_noise, smoothstep, UNIT};
pub use geometry::{camera_pos_to_chunk_pos, ChunkCoord, ChunkWindow, ConfigError, MapGeometry};
pub use streamer::{ChunkManager, EdgeDetectionEvent, GameState, MoveCheck, TickReport};
pub use terrain::{compose_sample, redistribute, MapSeed, NoiseReadings, OverWorldMapConfig};
pub use tile_type::{tile_walkable, TileType};
