use vstd::prelude::*;
use crate::fixed::floor_div;

verus! {

/// Largest accepted world extent, chunk extent and spawn radius, in tiles or
/// chunks.
pub const MAX_EXTENT: u32 = 1048576;
/// Largest accepted tile size, in pixels.
pub const MAX_TILE_SIZE: u32 = 1024;

/// Position of a chunk in the chunk grid (not in tiles or pixels).
#[derive(Debug, Hash, PartialEq, Eq, Structural, Clone, Copy)]
pub struct ChunkCoord {
    pub x: i32,
    pub y: i32,
}

/// Fatal configuration errors, reported before any generation begins.
#[derive(Debug, PartialEq, Eq, Structural, Clone, Copy)]
pub enum ConfigError {
    ZeroWorldExtent,
    ZeroChunkSize,
    ZeroTileSize,
    ZeroOctaves,
    /// An extent, a radius or a tile size past what the library accepts.
    TooLarge,
    /// The despawn distance does not exceed the farthest chunk centre of the
    /// spawn window, so chunks would flicker in and out at its border.
    DespawnWithinSpawnWindow,
    /// The redistribution exponent is outside `1/4 ..= 12/4`.
    ExponentOutOfRange,
}

/// An inclusive rectangle of chunk coordinates; empty when a minimum
/// exceeds its maximum.
#[derive(Debug, PartialEq, Eq, Structural, Clone, Copy)]
pub struct ChunkWindow {
    pub min_x: i64,
    pub max_x: i64,
    pub min_y: i64,
    pub max_y: i64,
}

impl ChunkWindow {
    pub open spec fn contains(self, c: ChunkCoord) -> bool {
        self.min_x <= c.x <= self.max_x && self.min_y <= c.y <= self.max_y
    }
}

/// Sizes of the finite world and of its chunks, and the streaming distances.
#[derive(Debug, PartialEq, Eq, Structural, Clone, Copy)]
pub struct MapGeometry {
    /// World extent, in tiles.
    pub world_width: u32,
    pub world_height: u32,
    /// Chunk extent, in tiles.
    pub chunk_width: u32,
    pub chunk_height: u32,
    /// Side of a tile, in pixels.
    pub tile_size: u32,
    /// Half-width of the spawn window, in chunks.
    pub spawn_radius: u32,
    /// Distance from the viewpoint beyond which a chunk centre is despawned,
    /// in pixels.
    pub despawn_distance: u32,
}

/// Four times the squared distance from the farthest point of the spawn
/// window's chunk centres to the viewpoint, at most.
pub open spec fn window_reach4(
    radius: int,
    chunk_width: int,
    chunk_height: int,
    tile_size: int,
) -> int {
    let sx = (2 * radius + 1) * (chunk_width * tile_size);
    let sy = (2 * radius + 1) * (chunk_height * tile_size);
    sx * sx + sy * sy
}

impl MapGeometry {
    pub open spec fn sizes_ok(self) -> bool {
        0 < self.world_width <= MAX_EXTENT && 0 < self.world_height <= MAX_EXTENT && 0
            < self.chunk_width <= MAX_EXTENT && 0 < self.chunk_height <= MAX_EXTENT && 0
            < self.tile_size <= MAX_TILE_SIZE && self.spawn_radius <= MAX_EXTENT
    }

    /// Despawn distance strictly beyond every chunk centre of the spawn window.
    pub open spec fn hysteresis_ok(self) -> bool {
        4 * (self.despawn_distance as int) * (self.despawn_distance as int) > window_reach4(
            self.spawn_radius as int,
            self.chunk_width as int,
            self.chunk_height as int,
            self.tile_size as int,
        )
    }

    pub open spec fn valid(self) -> bool {
        self.sizes_ok() && self.hysteresis_ok()
    }

    /// Chunk extent in pixels.
    pub open spec fn chunk_px_w(self) -> int {
        self.chunk_width * self.tile_size
    }

    pub open spec fn chunk_px_h(self) -> int {
        self.chunk_height * self.tile_size
    }

    /// Number of chunk columns and rows covering the world.
    pub open spec fn chunks_x(self) -> int {
        (self.world_width + self.chunk_width - 1) / (self.chunk_width as int)
    }

    pub open spec fn chunks_y(self) -> int {
        (self.world_height + self.chunk_height - 1) / (self.chunk_height as int)
    }

    /// Most chunks the finite world can hold.
    pub open spec fn max_chunks(self) -> int {
        self.chunks_x() * self.chunks_y()
    }

    /// Whether a chunk coordinate lies in the finite world.
    pub open spec fn in_map(self, c: ChunkCoord) -> bool {
        0 <= c.x < self.chunks_x() && 0 <= c.y < self.chunks_y()
    }

    /// Chunk column and row that contain the pixel position `(vx, vy)`.
    pub open spec fn view_x(self, vx: int) -> int {
        vx / self.chunk_px_w()
    }

    pub open spec fn view_y(self, vy: int) -> int {
        vy / self.chunk_px_h()
    }

    /// The spawn window around the viewpoint: every chunk within
    /// `spawn_radius` of the viewpoint's chunk on both axes, intersected with
    /// the finite world.
    pub open spec fn in_window(self, vx: int, vy: int, c: ChunkCoord) -> bool {
        self.in_map(c) && self.view_x(vx) - self.spawn_radius <= c.x <= self.view_x(vx)
            + self.spawn_radius && self.view_y(vy) - self.spawn_radius <= c.y <= self.view_y(vy)
            + self.spawn_radius
    }

    /// Four times the squared pixel distance from `(vx, vy)` to the centre of
    /// chunk `c`.
    pub open spec fn dist4(self, vx: int, vy: int, c: ChunkCoord) -> int {
        let dx = 2 * vx - (2 * c.x + 1) * self.chunk_px_w();
        let dy = 2 * vy - (2 * c.y + 1) * self.chunk_px_h();
        dx * dx + dy * dy
    }

    /// Whether chunk `c`'s centre lies farther than the despawn distance from
    /// `(vx, vy)`.
    pub open spec fn beyond(self, vx: int, vy: int, c: ChunkCoord) -> bool {
        self.dist4(vx, vy, c) > 4 * (self.despawn_distance as int) * (
        self.despawn_distance as int)
    }

    /// Checks a geometry and returns it, or the first configuration error.
    pub fn new(
        world_width: u32,
        world_height: u32,
        chunk_width: u32,
        chunk_height: u32,
        tile_size: u32,
        spawn_radius: u32,
        despawn_distance: u32,
    ) -> (r: Result<MapGeometry, ConfigError>)
        ensures
            world_width == 0 || world_height == 0 ==> r == Err::<MapGeometry, ConfigError>(
                ConfigError::ZeroWorldExtent,
            ),
            world_width > 0 && world_height > 0 && (chunk_width == 0 || chunk_height == 0) ==> r
                == Err::<MapGeometry, ConfigError>(ConfigError::ZeroChunkSize),
            world_width > 0 && world_height > 0 && chunk_width > 0 && chunk_height > 0
                && tile_size == 0 ==> r == Err::<MapGeometry, ConfigError>(
                ConfigError::ZeroTileSize,
            ),
            world_width > 0 && world_height > 0 && chunk_width > 0 && chunk_height > 0
                && tile_size > 0 && (world_width > MAX_EXTENT || world_height > MAX_EXTENT
                || chunk_width > MAX_EXTENT || chunk_height > MAX_EXTENT || tile_size
                > MAX_TILE_SIZE || spawn_radius > MAX_EXTENT) ==> r == Err::<
                MapGeometry,
                ConfigError,
            >(ConfigError::TooLarge),
            ({
                let g = MapGeometry {
                    world_width,
                    world_height,
                    chunk_width,
                    chunk_height,
                    tile_size,
                    spawn_radius,
                    despawn_distance,
                };
                &&& g.sizes_ok() && !g.hysteresis_ok() ==> r == Err::<MapGeometry, ConfigError>(
                    ConfigError::DespawnWithinSpawnWindow,
                )
                &&& g.valid() ==> r == Ok::<MapGeometry, ConfigError>(g)
            }),
    {
        if world_width == 0 || world_height == 0 {
            return Err(ConfigError::ZeroWorldExtent);
        }
        if chunk_width == 0 || chunk_height == 0 {
            return Err(ConfigError::ZeroChunkSize);
        }
        if tile_size == 0 {
            return Err(ConfigError::ZeroTileSize);
        }
        if world_width > MAX_EXTENT || world_height > MAX_EXTENT || chunk_width > MAX_EXTENT
            || chunk_height > MAX_EXTENT || tile_size > MAX_TILE_SIZE || spawn_radius
            > MAX_EXTENT {
            return Err(ConfigError::TooLarge);
        }
        let span: u128 = 2 * (spawn_radius as u128) + 1;
        proof {
            assert(chunk_width * tile_size <= 0x4000_0000) by (nonlinear_arith)
                requires chunk_width <= MAX_EXTENT, tile_size <= MAX_TILE_SIZE;
            assert(chunk_height * tile_size <= 0x4000_0000) by (nonlinear_arith)
                requires chunk_height <= MAX_EXTENT, tile_size <= MAX_TILE_SIZE;
        }
        let pw: u128 = (chunk_width as u128) * (tile_size as u128);
        let ph: u128 = (chunk_height as u128) * (tile_size as u128);
        proof {
            assert(pw <= 0x4000_0000) by (nonlinear_arith)
                requires pw == chunk_width * tile_size, chunk_width <= MAX_EXTENT, tile_size
                    <= MAX_TILE_SIZE;
            assert(ph <= 0x4000_0000) by (nonlinear_arith)
                requires ph == chunk_height * tile_size, chunk_height <= MAX_EXTENT, tile_size
                    <= MAX_TILE_SIZE;
            assert(span * pw <= 0x20_0001 * 0x4000_0000) by (nonlinear_arith)
                requires span <= 0x20_0001, pw <= 0x4000_0000;
            assert(span * ph <= 0x20_0001 * 0x4000_0000) by (nonlinear_arith)
                requires span <= 0x20_0001, ph <= 0x4000_0000;
        }
        let sx: u128 = span * pw;
        let sy: u128 = span * ph;
        proof {
            assert(sx * sx <= (0x20_0001 * 0x4000_0000) * (0x20_0001 * 0x4000_0000)) by (nonlinear_arith)
                requires sx <= 0x20_0001 * 0x4000_0000;
            assert(sy * sy <= (0x20_0001 * 0x4000_0000) * (0x20_0001 * 0x4000_0000)) by (nonlinear_arith)
                requires sy <= 0x20_0001 * 0x4000_0000;
        }
        let reach: u128 = sx * sx + sy * sy;
        let d: u128 = despawn_distance as u128;
        proof {
            assert(4 * d * d <= 4 * 0xFFFF_FFFFu128 * 0xFFFF_FFFFu128) by (nonlinear_arith)
                requires d <= 0xFFFF_FFFFu128;
        }
        if 4 * d * d <= reach {
            return Err(ConfigError::DespawnWithinSpawnWindow);
        }
        Ok(
            MapGeometry {
                world_width,
                world_height,
                chunk_width,
                chunk_height,
                tile_size,
                spawn_radius,
                despawn_distance,
            },
        )
    }

    /// The overworld's geometry: 32 x 24 tiles of 32 pixels in chunks of
    /// 16 x 16 tiles, a spawn window two chunks wide on each side of the
    /// viewpoint, and chunks despawned six and a half chunk widths away.
    pub fn overworld() -> (g: MapGeometry)
        ensures
            g.valid(),
            g.world_width == 32 && g.world_height == 24,
            g.chunk_width == 16 && g.chunk_height == 16,
            g.tile_size == 32 && g.spawn_radius == 2 && g.despawn_distance == 3328,
    {
        proof {
            assert(window_reach4(2, 16, 16, 32) == 13107200) by (nonlinear_arith);
            assert(4 * 3328int * 3328int == 44302336) by (nonlinear_arith);
        }
        MapGeometry {
            world_width: 32,
            world_height: 24,
            chunk_width: 16,
            chunk_height: 16,
            tile_size: 32,
            spawn_radius: 2,
            despawn_distance: 3328,
        }
    }

    /// Chunk extent in pixels.
    pub fn chunk_pixel_width(&self) -> (r: i64)
        requires
            self.valid(),
        ensures
            r == self.chunk_px_w(),
            0 < r <= 0x4000_0000,
    {
        proof {
            assert(0 < self.chunk_width * self.tile_size <= 0x4000_0000) by (nonlinear_arith)
                requires 0 < self.chunk_width <= MAX_EXTENT, 0 < self.tile_size <= MAX_TILE_SIZE;
        }
        (self.chunk_width as i64) * (self.tile_size as i64)
    }

    pub fn chunk_pixel_height(&self) -> (r: i64)
        requires
            self.valid(),
        ensures
            r == self.chunk_px_h(),
            0 < r <= 0x4000_0000,
    {
        proof {
            assert(0 < self.chunk_height * self.tile_size <= 0x4000_0000) by (nonlinear_arith)
                requires 0 < self.chunk_height <= MAX_EXTENT, 0 < self.tile_size <= MAX_TILE_SIZE;
        }
        (self.chunk_height as i64) * (self.tile_size as i64)
    }

    /// Whether the centre of chunk `c` lies farther than the despawn distance
    /// from the pixel position `(vx, vy)`.
    pub fn is_beyond(&self, vx: i32, vy: i32, c: ChunkCoord) -> (r: bool)
        requires
            self.valid(),
        ensures
            r == self.beyond(vx as int, vy as int, c),
    {
        let w = self.chunk_pixel_width() as i128;
        let h = self.chunk_pixel_height() as i128;
        proof {
            assert(-0x1_0000_0000i128 * 0x4000_0000i128 <= (2 * c.x + 1) * w <= 0x1_0000_0000i128
                * 0x4000_0000i128) by (nonlinear_arith)
                requires 0 < w <= 0x4000_0000, -0x8000_0000 <= c.x < 0x8000_0000;
            assert(-0x1_0000_0000i128 * 0x4000_0000i128 <= (2 * c.y + 1) * h <= 0x1_0000_0000i128
                * 0x4000_0000i128) by (nonlinear_arith)
                requires 0 < h <= 0x4000_0000, -0x8000_0000 <= c.y < 0x8000_0000;
        }
        let dx: i128 = 2 * (vx as i128) - (2 * (c.x as i128) + 1) * w;
        let dy: i128 = 2 * (vy as i128) - (2 * (c.y as i128) + 1) * h;
        proof {
            assert(dx * dx <= 0x5000_0000_0000_0000i128 * 0x5000_0000_0000_0000i128)
                by (nonlinear_arith)
                requires -0x5000_0000_0000_0000i128 <= dx <= 0x5000_0000_0000_0000i128;
            assert(dy * dy <= 0x5000_0000_0000_0000i128 * 0x5000_0000_0000_0000i128)
                by (nonlinear_arith)
                requires -0x5000_0000_0000_0000i128 <= dy <= 0x5000_0000_0000_0000i128;
            assert(0 <= dx * dx && 0 <= dy * dy) by (nonlinear_arith);
            assert(4 * (self.despawn_distance as int) * (self.despawn_distance as int)
                <= 4 * 0xFFFF_FFFFi128 * 0xFFFF_FFFFi128) by (nonlinear_arith)
                requires self.despawn_distance <= 0xFFFF_FFFFu32;
        }
        let d: i128 = self.despawn_distance as i128;
        dx * dx + dy * dy > 4 * d * d
    }

    /// The spawn window around the viewpoint `(vx, vy)` (pixels): the
    /// chunks within `spawn_radius` of the viewpoint's chunk on both axes,
    /// intersected with the world's chunk range. It never reaches outside the
    /// world.
    pub fn spawn_window(&self, vx: i32, vy: i32) -> (r: ChunkWindow)
        requires
            self.valid(),
        ensures
            forall|c: ChunkCoord| #[trigger] r.contains(c) <==> self.in_window(vx as int, vy as int, c),
            r.min_x == if self.view_x(vx as int) - self.spawn_radius > 0 {
                self.view_x(vx as int) - self.spawn_radius
            } else {
                0
            },
            r.max_x == if self.view_x(vx as int) + self.spawn_radius < self.chunks_x() - 1 {
                self.view_x(vx as int) + self.spawn_radius
            } else {
                self.chunks_x() - 1
            },
            r.min_y == if self.view_y(vy as int) - self.spawn_radius > 0 {
                self.view_y(vy as int) - self.spawn_radius
            } else {
                0
            },
            r.max_y == if self.view_y(vy as int) + self.spawn_radius < self.chunks_y() - 1 {
                self.view_y(vy as int) + self.spawn_radius
            } else {
                self.chunks_y() - 1
            },
            0 <= r.min_x,
            0 <= r.min_y,
            r.max_x < self.chunks_x(),
            r.max_y < self.chunks_y(),
    {
        let view = camera_pos_to_chunk_pos(self, vx, vy);
        let radius = self.spawn_radius as i64;
        let columns = self.chunk_columns();
        let rows = self.chunk_rows();
        let min_x: i64 = if view.x as i64 - radius > 0 { view.x as i64 - radius } else { 0 };
        let max_x: i64 = if view.x as i64 + radius < columns - 1 { view.x as i64 + radius } else { columns - 1 };
        let min_y: i64 = if view.y as i64 - radius > 0 { view.y as i64 - radius } else { 0 };
        let max_y: i64 = if view.y as i64 + radius < rows - 1 { view.y as i64 + radius } else { rows - 1 };
        ChunkWindow { min_x, max_x, min_y, max_y }
    }

    /// Number of chunk columns covering the world.
    pub fn chunk_columns(&self) -> (r: i64)
        requires
            self.valid(),
        ensures
            r == self.chunks_x(),
            1 <= r <= MAX_EXTENT,
    {
        proof { lemma_chunk_count(self.world_width as int, self.chunk_width as int); }
        ((self.world_width as i64) + (self.chunk_width as i64) - 1) / (self.chunk_width as i64)
    }

    /// Number of chunk rows covering the world.
    pub fn chunk_rows(&self) -> (r: i64)
        requires
            self.valid(),
        ensures
            r == self.chunks_y(),
            1 <= r <= MAX_EXTENT,
    {
        proof { lemma_chunk_count(self.world_height as int, self.chunk_height as int); }
        ((self.world_height as i64) + (self.chunk_height as i64) - 1) / (self.chunk_height as i64)
    }

    /// Most chunks that can exist at once: the world's chunk columns times
    /// its chunk rows.
    pub fn max_spawned_chunks(&self) -> (r: u64)
        requires
            self.valid(),
        ensures
            r == self.max_chunks(),
    {
        let cx = self.chunk_columns();
        let cy = self.chunk_rows();
        proof {
            assert(cx * cy <= MAX_EXTENT * MAX_EXTENT) by (nonlinear_arith)
                requires 1 <= cx <= MAX_EXTENT, 1 <= cy <= MAX_EXTENT;
        }
        (cx as u64) * (cy as u64)
    }
}

proof fn lemma_chunk_count(world: int, chunk: int)
    requires
        0 < world <= MAX_EXTENT,
        0 < chunk,
    ensures
        1 <= (world + chunk - 1) / chunk <= world,
{
    assert(1 <= (world + chunk - 1) / chunk) by (nonlinear_arith)
        requires 0 < world, 0 < chunk;
    assert((world + chunk - 1) / chunk <= world) by (nonlinear_arith)
        requires 0 < world, 0 < chunk;
}

/// Chunk that contains the pixel position `(x, y)`, rounding toward negative
/// infinity on both axes.
pub fn camera_pos_to_chunk_pos(geometry: &MapGeometry, x: i32, y: i32) -> (c: ChunkCoord)
    requires
        geometry.valid(),
    ensures
        c.x == geometry.view_x(x as int),
        c.y == geometry.view_y(y as int),
{
    let w = geometry.chunk_pixel_width();
    let h = geometry.chunk_pixel_height();
    let cx = floor_div(x as i64, w);
    let cy = floor_div(y as i64, h);
    proof {
        assert(i32::MIN <= cx <= i32::MAX) by (nonlinear_arith)
            requires cx == (x as int) / (w as int), 0 < w, i32::MIN <= x <= i32::MAX;
        assert(i32::MIN <= cy <= i32::MAX) by (nonlinear_arith)
            requires cy == (y as int) / (h as int), 0 < h, i32::MIN <= y <= i32::MAX;
    }
    ChunkCoord { x: cx as i32, y: cy as i32 }
}

} // verus!
