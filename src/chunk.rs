use vstd::prelude::*;
use crate::biome::{classify_biome, classify_sample, TerrainSample};
use crate::geometry::{ChunkCoord, MapGeometry, MAX_EXTENT};
use crate::tile_type::TileType;

verus! {

/// A fully generated chunk: its coordinate and its grid of tiles, stored row
/// by row (`tiles[y * width + x]`).
#[derive(Debug)]
pub struct Chunk {
    pub coord: ChunkCoord,
    pub width: u32,
    pub height: u32,
    pub tiles: Vec<TileType>,
}

impl Chunk {
    /// Every cell of the grid holds a tile.
    pub open spec fn wf(&self) -> bool {
        self.tiles@.len() == self.width * self.height
    }

    /// The tile at local column `x` and row `y`.
    pub open spec fn at(&self, x: int, y: int) -> TileType {
        self.tiles@[y * self.width + x]
    }

    /// The tile at local column `x` and row `y`, or `None` outside the grid.
    pub fn tile(&self, x: u32, y: u32) -> (r: Option<TileType>)
        requires
            self.wf(),
        ensures
            x < self.width && y < self.height ==> r == Some(self.at(x as int, y as int)),
            !(x < self.width && y < self.height) ==> r.is_none(),
    {
        if x < self.width && y < self.height {
            let n = self.tiles.len();
            proof {
                lemma_cell_in_grid(x as int, y as int, self.width as int, self.height as int);
                assert(0 <= y * self.width <= y * self.width + x < self.tiles@.len());
            }
            let i: usize = (y as usize) * (self.width as usize) + (x as usize);
            Some(self.tiles[i])
        } else {
            None
        }
    }
}

/// Row-major cells of a `w` x `h` grid lie inside it, and earlier cells come
/// first.
pub proof fn lemma_cell_in_grid(x: int, y: int, w: int, h: int)
    requires
        0 <= x < w,
        0 <= y < h,
    ensures
        0 <= y * w + x < w * h,
        y * w + x + 1 <= w * h,
{
    assert(0 <= y * w) by (nonlinear_arith)
        requires 0 <= y, 0 <= w;
    assert(y * w + x < w * h) by (nonlinear_arith)
        requires 0 <= x < w, 0 <= y < h;
}

proof fn lemma_cell_order(a: int, b: int, x: int, y: int, w: int)
    requires
        0 <= a < w,
        0 <= x < w,
        0 <= b,
        b < y || (b == y && a < x),
    ensures
        b * w + a < y * w + x,
{
    if b < y {
        assert(b * w + a < y * w + x) by (nonlinear_arith)
            requires 0 <= a < w, 0 <= x, b < y, 0 <= b;
    }
}

/// World tile index, on one axis, of local index `local` inside chunk `c`
/// of extent `size`.
pub open spec fn world_tile(c: int, size: int, local: int) -> int {
    c * size + local
}

/// Whether `t` is the kind that the sampler may give for world tile
/// `(wx, wy)`.
pub open spec fn sampled_as<F: Fn(i64, i64) -> TerrainSample>(
    sample: F,
    wx: int,
    wy: int,
    t: TileType,
) -> bool {
    exists|s: TerrainSample| #[trigger]
        sample.ensures((wx as i64, wy as i64), s) && t == classify_sample(s)
}

/// World pixel position of a chunk's lower-left corner:
/// `coord * chunk_size * tile_size` on each axis.
pub fn chunk_origin(geometry: &MapGeometry, coord: ChunkCoord) -> (r: (i64, i64))
    requires
        geometry.valid(),
    ensures
        r.0 == coord.x * geometry.chunk_px_w(),
        r.1 == coord.y * geometry.chunk_px_h(),
{
    let w = geometry.chunk_pixel_width();
    let h = geometry.chunk_pixel_height();
    proof {
        assert(-0x8000_0000i64 * 0x4000_0000i64 <= coord.x * w <= 0x8000_0000i64 * 0x4000_0000i64)
            by (nonlinear_arith)
            requires 0 < w <= 0x4000_0000, -0x8000_0000 <= coord.x < 0x8000_0000;
        assert(-0x8000_0000i64 * 0x4000_0000i64 <= coord.y * h <= 0x8000_0000i64 * 0x4000_0000i64)
            by (nonlinear_arith)
            requires 0 < h <= 0x4000_0000, -0x8000_0000 <= coord.y < 0x8000_0000;
    }
    ((coord.x as i64) * w, (coord.y as i64) * h)
}

/// Generates the chunk at `coord`: for every local tile `(x, y)` it samples
/// the terrain at world tile `coord * chunk_size + (x, y)`, classifies the
/// sample and stores the kind. The chunk is returned only once every cell is
/// filled.
pub fn spawn_chunk<F: Fn(i64, i64) -> TerrainSample>(
    geometry: &MapGeometry,
    coord: ChunkCoord,
    sample: &F,
) -> (chunk: Chunk)
    requires
        geometry.valid(),
        forall|wx: i64, wy: i64| #[trigger] sample.requires((wx, wy)),
    ensures
        chunk.wf(),
        chunk.coord == coord,
        chunk.width == geometry.chunk_width,
        chunk.height == geometry.chunk_height,
        forall|x: int, y: int|
            0 <= x < chunk.width && 0 <= y < chunk.height ==> sampled_as(
                *sample,
                world_tile(coord.x as int, chunk.width as int, x),
                world_tile(coord.y as int, chunk.height as int, y),
                #[trigger] chunk.at(x, y),
            ),
{
    let w = geometry.chunk_width;
    let h = geometry.chunk_height;
    let mut tiles: Vec<TileType> = Vec::new();
    let mut y: u32 = 0;
    while y < h
        invariant
            geometry.valid(),
            w == geometry.chunk_width,
            h == geometry.chunk_height,
            forall|wx: i64, wy: i64| #[trigger] sample.requires((wx, wy)),
            y <= h,
            tiles@.len() == y * w,
            forall|a: int, b: int|
                0 <= a < w && 0 <= b < y ==> sampled_as(
                    *sample,
                    world_tile(coord.x as int, w as int, a),
                    world_tile(coord.y as int, h as int, b),
                    #[trigger] tiles@[b * w + a],
                ),
        decreases h - y,
    {
        let mut x: u32 = 0;
        while x < w
            invariant
                geometry.valid(),
                w == geometry.chunk_width,
                h == geometry.chunk_height,
                forall|wx: i64, wy: i64| #[trigger] sample.requires((wx, wy)),
                y < h,
                x <= w,
                tiles@.len() == y * w + x,
                forall|a: int, b: int|
                    0 <= a < w && 0 <= b && (b < y || (b == y && a < x)) ==> sampled_as(
                        *sample,
                        world_tile(coord.x as int, w as int, a),
                        world_tile(coord.y as int, h as int, b),
                        #[trigger] tiles@[b * w + a],
                    ),
            decreases w - x,
        {
            proof {
                assert(-0x8000_0000i64 * 0x10_0000i64 <= coord.x * w <= 0x8000_0000i64
                    * 0x10_0000i64) by (nonlinear_arith)
                    requires 0 < w <= MAX_EXTENT, -0x8000_0000 <= coord.x < 0x8000_0000;
                assert(-0x8000_0000i64 * 0x10_0000i64 <= coord.y * h <= 0x8000_0000i64
                    * 0x10_0000i64) by (nonlinear_arith)
                    requires 0 < h <= MAX_EXTENT, -0x8000_0000 <= coord.y < 0x8000_0000;
            }
            let wx: i64 = (coord.x as i64) * (w as i64) + (x as i64);
            let wy: i64 = (coord.y as i64) * (h as i64) + (y as i64);
            let s = sample(wx, wy);
            let t = classify_biome(&s);
            let ghost before = tiles@;
            tiles.push(t);
            proof {
                assert(sampled_as(*sample, wx as int, wy as int, t));
                assert forall|a: int, b: int|
                    0 <= a < w && 0 <= b && (b < y || (b == y && a < x + 1)) implies sampled_as(
                        *sample,
                        world_tile(coord.x as int, w as int, a),
                        world_tile(coord.y as int, h as int, b),
                        #[trigger] tiles@[b * w + a],
                    ) by {
                    if b == y && a == x {
                        assert(b * w + a == before.len());
                    } else {
                        lemma_cell_order(a, b, x as int, y as int, w as int);
                        assert(tiles@[b * w + a] == before[b * w + a]);
                    }
                }
            }
            x = x + 1;
        }
        proof {
            assert((y + 1) * w == y * w + w) by (nonlinear_arith);
        }
        y = y + 1;
    }
    let chunk = Chunk { coord, width: w, height: h, tiles };
    proof {
        assert(tiles@.len() == w * h) by (nonlinear_arith)
            requires tiles@.len() == y * w, y == h;
    }
    chunk
}

/// Generation is deterministic whenever the sampler is: two chunks generated
/// at the same coordinate with the same geometry, from a sampler that gives
/// one sample per world tile, hold the same kind in every cell.
pub proof fn lemma_generation_deterministic<F: Fn(i64, i64) -> TerrainSample>(
    sample: F,
    first: Chunk,
    second: Chunk,
    x: int,
    y: int,
)
    requires
        forall|wx: i64, wy: i64, s1: TerrainSample, s2: TerrainSample|
            #[trigger] sample.ensures((wx, wy), s1) && #[trigger] sample.ensures((wx, wy), s2)
                ==> s1 == s2,
        first.coord == second.coord,
        first.width == second.width,
        first.height == second.height,
        0 <= x < first.width,
        0 <= y < first.height,
        sampled_as(
            sample,
            world_tile(first.coord.x as int, first.width as int, x),
            world_tile(first.coord.y as int, first.height as int, y),
            first.at(x, y),
        ),
        sampled_as(
            sample,
            world_tile(second.coord.x as int, second.width as int, x),
            world_tile(second.coord.y as int, second.height as int, y),
            second.at(x, y),
        ),
    ensures
        first.at(x, y) == second.at(x, y),
{
    let wx = world_tile(first.coord.x as int, first.width as int, x);
    let wy = world_tile(first.coord.y as int, first.height as int, y);
    let s1 = choose|s: TerrainSample|
        #[trigger] sample.ensures((wx as i64, wy as i64), s) && first.at(x, y) == classify_sample(s);
    let s2 = choose|s: TerrainSample|
        #[trigger] sample.ensures((wx as i64, wy as i64), s) && second.at(x, y) == classify_sample(s);
    assert(s1 == s2);
}

} // verus!
