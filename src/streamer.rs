use vstd::prelude::*;
use crate::biome::TerrainSample;
use crate::chunk::{chunk_origin, sampled_as, spawn_chunk, world_tile, Chunk};
use crate::tile_type::{walkable, TileType};
use crate::geometry::{camera_pos_to_chunk_pos, ChunkCoord, MapGeometry};

verus! {

/// Whether `p` comes before `q` in row order: lower row first, then lower
/// column.
pub open spec fn row_before(p: ChunkCoord, q: ChunkCoord) -> bool {
    p.y < q.y || (p.y == q.y && p.x < q.x)
}

/// Whether `s` lists its coordinates in strictly increasing row order.
pub open spec fn in_row_order(s: Seq<ChunkCoord>) -> bool {
    forall|a: int, b: int| 0 <= a < b < s.len() ==> row_before(#[trigger] s[a], #[trigger] s[b])
}

/// Whether some chunk of `s` sits at `c`.
pub open spec fn holds_coord(s: Seq<Chunk>, c: ChunkCoord) -> bool {
    exists|i: int| 0 <= i < s.len() && (#[trigger] s[i]).coord == c
}

/// Whether `chunk` is what the sampler generates for its coordinate under
/// `geometry`: a full grid of the geometry's chunk size, each cell classified
/// from a sample of its world tile.
pub open spec fn generated_by<F: Fn(i64, i64) -> TerrainSample>(
    sample: F,
    geometry: MapGeometry,
    chunk: Chunk,
) -> bool {
    &&& chunk.wf()
    &&& chunk.width == geometry.chunk_width
    &&& chunk.height == geometry.chunk_height
    &&& forall|x: int, y: int|
        0 <= x < chunk.width && 0 <= y < chunk.height ==> sampled_as(
            sample,
            world_tile(chunk.coord.x as int, chunk.width as int, x),
            world_tile(chunk.coord.y as int, chunk.height as int, y),
            #[trigger] chunk.at(x, y),
        )
}

/// Mode of the map: streaming as usual, or waiting to be reset after a
/// regenerate request.
#[derive(Debug, PartialEq, Eq, Structural, Clone, Copy)]
pub enum GameState {
    GameRunning,
    DirtyMap,
}

/// Signal that the viewpoint stands on a tile at the world's border.
#[derive(Debug, PartialEq, Eq, Structural, Clone, Copy)]
pub struct EdgeDetectionEvent {}

/// What one streaming tick did: the chunks it created and those it removed.
#[derive(Debug)]
pub struct TickReport {
    pub spawned: Vec<ChunkCoord>,
    pub despawned: Vec<ChunkCoord>,
}

/// Answer to a movement-legality query.
#[derive(Debug, PartialEq, Eq, Structural, Clone, Copy)]
pub enum MoveCheck {
    /// No spawned chunk covers the destination.
    NoChunk,
    /// The destination tile cannot be walked on.
    Blocked,
    /// The destination tile can be walked on.
    Walkable,
}

/// What a streaming tick from `before` to `after` at viewpoint `(vx, vy)`
/// does: it removes exactly the chunks beyond the despawn distance, keeps the
/// others untouched, and adds a freshly generated chunk for every chunk of
/// the spawn window that was missing.
pub open spec fn tick_post<F: Fn(i64, i64) -> TerrainSample>(
    before: ChunkManager,
    after: ChunkManager,
    vx: int,
    vy: int,
    spawned: Seq<ChunkCoord>,
    despawned: Seq<ChunkCoord>,
    sample: F,
) -> bool {
    let g = before.geometry;
    &&& after.wf()
    &&& after.geometry == g
    &&& despawned.no_duplicates()
    &&& in_row_order(spawned)
    &&& forall|c: ChunkCoord| #[trigger]
        despawned.contains(c) <==> before.has(c) && g.beyond(vx, vy, c)
    &&& forall|c: ChunkCoord| #[trigger]
        after.has(c) <==> (before.has(c) && !g.beyond(vx, vy, c)) || spawned.contains(c)
    &&& forall|c: ChunkCoord| #[trigger]
        spawned.contains(c) ==> g.in_window(vx, vy, c) && !before.has(c)
    &&& forall|c: ChunkCoord| #[trigger] after.has(c) ==> !g.beyond(vx, vy, c)
    &&& forall|c: ChunkCoord| g.in_window(vx, vy, c) ==> #[trigger] after.has(c)
    &&& forall|i: int|
        0 <= i < after.chunks@.len() ==> #[trigger] before.chunks@.contains(after.chunks@[i])
            || generated_by(sample, g, after.chunks@[i])
}

/// Within a chunk's grid, the column of pixel `p` when the chunk starts at
/// chunk index `c` of pixel size `span` and tiles are `tile` pixels wide.
pub open spec fn local_tile(p: int, c: int, span: int, tile: int) -> int {
    (p - c * span) / tile
}

/// Appending a chunk adds exactly its coordinate.
pub proof fn lemma_holds_push(s: Seq<Chunk>, ch: Chunk, c: ChunkCoord)
    ensures
        holds_coord(s.push(ch), c) <==> holds_coord(s, c) || ch.coord == c,
{
    let t = s.push(ch);
    if holds_coord(s, c) {
        let i = choose|i: int| 0 <= i < s.len() && (#[trigger] s[i]).coord == c;
        assert(t[i] == s[i]);
    }
    if ch.coord == c {
        assert(t[s.len() as int] == ch);
    }
    if holds_coord(t, c) {
        let i = choose|i: int| 0 <= i < t.len() && (#[trigger] t[i]).coord == c;
        if i < s.len() {
            assert(t[i] == s[i]);
        }
    }
}

/// The set of spawned chunks of a finite world, and their tile grids.
#[derive(Debug)]
pub struct ChunkManager {
    pub geometry: MapGeometry,
    pub chunks: Vec<Chunk>,
}

impl ChunkManager {
    /// Whether the chunk at `c` is spawned.
    pub open spec fn has(&self, c: ChunkCoord) -> bool {
        holds_coord(self.chunks@, c)
    }

    /// The coordinates of the spawned chunks.
    pub open spec fn spawned(&self) -> Set<ChunkCoord> {
        Set::new(|c: ChunkCoord| self.has(c))
    }

    /// Well formed: a valid geometry; every chunk complete, of the
    /// geometry's size and inside the world; no coordinate twice; no more
    /// chunks than the world holds.
    pub open spec fn wf(&self) -> bool {
        &&& self.geometry.valid()
        &&& self.chunks@.len() <= self.geometry.max_chunks()
        &&& forall|i: int|
            0 <= i < self.chunks@.len() ==> {
                let ch = #[trigger] self.chunks@[i];
                &&& ch.wf()
                &&& ch.width == self.geometry.chunk_width
                &&& ch.height == self.geometry.chunk_height
                &&& self.geometry.in_map(ch.coord)
            }
        &&& forall|i: int, j: int|
            0 <= i < j < self.chunks@.len() ==> (#[trigger] self.chunks@[i]).coord != (
            #[trigger] self.chunks@[j]).coord
    }

    /// An empty manager for a checked geometry.
    pub fn new(geometry: MapGeometry) -> (r: ChunkManager)
        requires
            geometry.valid(),
        ensures
            r.wf(),
            r.geometry == geometry,
            r.chunks@.len() == 0,
    {
        ChunkManager { geometry, chunks: Vec::new() }
    }

    /// Number of spawned chunks.
    pub fn len(&self) -> (r: usize)
        ensures
            r == self.chunks@.len(),
    {
        self.chunks.len()
    }

    /// Position of the chunk at `c` among the spawned chunks, if spawned.
    pub fn find(&self, c: ChunkCoord) -> (r: Option<usize>)
        ensures
            r.is_none() ==> !self.has(c),
            r.is_some() ==> r.unwrap() < self.chunks@.len() && self.chunks@[r.unwrap() as int].coord
                == c,
    {
        let mut i: usize = 0;
        while i < self.chunks.len()
            invariant
                i <= self.chunks@.len(),
                forall|k: int| 0 <= k < i ==> (#[trigger] self.chunks@[k]).coord != c,
            decreases self.chunks@.len() - i,
        {
            if self.chunks[i].coord == c {
                return Some(i);
            }
            i = i + 1;
        }
        None
    }

    /// Whether the chunk at `c` is spawned.
    pub fn contains(&self, c: ChunkCoord) -> (r: bool)
        ensures
            r == self.has(c),
    {
        self.find(c).is_some()
    }

    /// Spawns, in row order, every chunk of the spawn window around the
    /// viewpoint `(vx, vy)` (pixels) that is not spawned yet, generating its
    /// tiles with `sample`. It would stop at the world's chunk budget, which
    /// the window can never exceed. Returns the coordinates spawned, in order.
    pub fn spawn_chunk_around_camera<F: Fn(i64, i64) -> TerrainSample>(
        &mut self,
        vx: i32,
        vy: i32,
        sample: &F,
    ) -> (spawned: Vec<ChunkCoord>)
        requires
            old(self).wf(),
            forall|wx: i64, wy: i64| #[trigger] sample.requires((wx, wy)),
        ensures
            final(self).wf(),
            final(self).geometry == old(self).geometry,
            old(self).chunks@.len() <= final(self).chunks@.len(),
            final(self).chunks@.subrange(0, old(self).chunks@.len() as int) == old(self).chunks@,
            spawned@.len() == final(self).chunks@.len() - old(self).chunks@.len(),
            in_row_order(spawned@),
            forall|j: int|
                0 <= j < spawned@.len() ==> final(self).chunks@[old(self).chunks@.len() + j].coord
                    == #[trigger] spawned@[j],
            forall|i: int|
                old(self).chunks@.len() <= i < final(self).chunks@.len() ==> {
                    let ch = #[trigger] final(self).chunks@[i];
                    &&& generated_by(*sample, old(self).geometry, ch)
                    &&& old(self).geometry.in_window(vx as int, vy as int, ch.coord)
                    &&& !old(self).has(ch.coord)
                },
            forall|c: ChunkCoord|
                #[trigger] final(self).has(c) <==> old(self).has(c) || spawned@.contains(c),
            forall|c: ChunkCoord|
                old(self).geometry.in_window(vx as int, vy as int, c)
                    ==> #[trigger] final(self).has(c),
    {
        let ghost start = self.chunks@;
        let ghost g = self.geometry;
        let window = self.geometry.spawn_window(vx, vy);
        let columns = self.geometry.chunk_columns();
        let rows = self.geometry.chunk_rows();
        let cap = self.geometry.max_spawned_chunks();
        let lo_x = window.min_x;
        let hi_x = window.max_x;
        let lo_y = window.min_y;
        let hi_y = window.max_y;
        proof {
            assert forall|c: ChunkCoord|
                g.in_window(vx as int, vy as int, c) <==> lo_x <= c.x <= hi_x && lo_y <= c.y
                    <= hi_y by {
                assert(window.contains(c) <==> g.in_window(vx as int, vy as int, c));
            }
        }
        let mut spawned: Vec<ChunkCoord> = Vec::new();
        let mut y: i64 = lo_y;
        while y <= hi_y
            invariant
                self.wf(),
                self.geometry == g,
                forall|wx: i64, wy: i64| #[trigger] sample.requires((wx, wy)),
                cap == g.max_chunks(),
                g == old(self).geometry,
                start == old(self).chunks@,
                forall|c: ChunkCoord|
                    g.in_window(vx as int, vy as int, c) <==> lo_x <= c.x <= hi_x && lo_y <= c.y
                        <= hi_y,
                0 <= lo_x,
                0 <= lo_y,
                hi_x < columns <= 0x10_0000,
                hi_y < rows <= 0x10_0000,
                lo_y <= y,
                start.len() <= self.chunks@.len(),
                self.chunks@.subrange(0, start.len() as int) == start,
                spawned@.len() == self.chunks@.len() - start.len(),
                in_row_order(spawned@),
                forall|j: int| 0 <= j < spawned@.len() ==> (#[trigger] spawned@[j]).y < y,
                forall|j: int|
                    0 <= j < spawned@.len() ==> self.chunks@[start.len() + j].coord
                        == #[trigger] spawned@[j],
                forall|i: int|
                    start.len() <= i < self.chunks@.len() ==> {
                        let ch = #[trigger] self.chunks@[i];
                        &&& generated_by(*sample, g, ch)
                        &&& g.in_window(vx as int, vy as int, ch.coord)
                        &&& !holds_coord(start, ch.coord)
                    },
                forall|c: ChunkCoord|
                    #[trigger] self.has(c) <==> holds_coord(start, c) || spawned@.contains(c),
                forall|c: ChunkCoord|
                    g.in_window(vx as int, vy as int, c) && c.y < y ==> #[trigger] self.has(c),
            decreases hi_y + 1 - y,
        {
            let mut x: i64 = lo_x;
            while x <= hi_x
                invariant
                    self.wf(),
                    self.geometry == g,
                    forall|wx: i64, wy: i64| #[trigger] sample.requires((wx, wy)),
                    cap == g.max_chunks(),
                    g == old(self).geometry,
                    start == old(self).chunks@,
                    forall|c: ChunkCoord|
                        g.in_window(vx as int, vy as int, c) <==> lo_x <= c.x <= hi_x && lo_y
                            <= c.y <= hi_y,
                    0 <= lo_x,
                    0 <= lo_y,
                    hi_x < columns <= 0x10_0000,
                    hi_y < rows <= 0x10_0000,
                    lo_y <= y <= hi_y,
                    lo_x <= x,
                    start.len() <= self.chunks@.len(),
                    self.chunks@.subrange(0, start.len() as int) == start,
                    spawned@.len() == self.chunks@.len() - start.len(),
                    in_row_order(spawned@),
                    forall|j: int|
                        0 <= j < spawned@.len() ==> row_before(
                            #[trigger] spawned@[j],
                            ChunkCoord { x: x as i32, y: y as i32 },
                        ),
                    forall|j: int|
                        0 <= j < spawned@.len() ==> self.chunks@[start.len() + j].coord
                            == #[trigger] spawned@[j],
                    forall|i: int|
                        start.len() <= i < self.chunks@.len() ==> {
                            let ch = #[trigger] self.chunks@[i];
                            &&& generated_by(*sample, g, ch)
                            &&& g.in_window(vx as int, vy as int, ch.coord)
                            &&& !holds_coord(start, ch.coord)
                        },
                    forall|c: ChunkCoord|
                        #[trigger] self.has(c) <==> holds_coord(start, c) || spawned@.contains(c),
                    forall|c: ChunkCoord|
                        g.in_window(vx as int, vy as int, c) && (c.y < y || (c.y == y && c.x < x))
                            ==> #[trigger] self.has(c),
                decreases hi_x + 1 - x,
            {
                if self.chunks.len() as u64 >= cap {
                    proof {
                        assert forall|d: ChunkCoord| g.in_window(vx as int, vy as int, d)
                            implies #[trigger] self.has(d) by {
                            if !self.has(d) {
                                lemma_missing_chunk_leaves_room(*self, d);
                            }
                        }
                    }
                    return spawned;
                }
                let c = ChunkCoord { x: x as i32, y: y as i32 };
                if !self.contains(c) {
                    let ch = spawn_chunk(&self.geometry, c, sample);
                    let ghost before = self.chunks@;
                    let ghost before_self = *self;
                    let ghost before_spawned = spawned@;
                    self.chunks.push(ch);
                    spawned.push(c);
                    proof {
                        assert forall|d: ChunkCoord| #[trigger] self.has(d) <==> holds_coord(before, d)
                            || d == c by {
                            lemma_holds_push(before, ch, d);
                            assert(before_self.has(d) <==> holds_coord(start, d)
                                || before_spawned.contains(d));
                        }
                        assert forall|d: ChunkCoord|
                            g.in_window(vx as int, vy as int, d) && (d.y < y || (d.y == y && d.x < x
                                + 1)) implies #[trigger] self.has(d) by {
                            lemma_holds_push(before, ch, d);
                            if d != c {
                                assert(before_self.has(d));
                            }
                        }
                        assert forall|d: ChunkCoord| #[trigger] spawned@.contains(d)
                            <==> before_spawned.contains(d) || d == c by {
                            if spawned@.contains(d) {
                                let j = choose|j: int| 0 <= j < spawned@.len() && spawned@[j] == d;
                                if j < before_spawned.len() {
                                    assert(before_spawned[j] == d);
                                }
                            }
                            if before_spawned.contains(d) {
                                let j = choose|j: int| 0 <= j < before_spawned.len() && before_spawned[j] == d;
                                assert(spawned@[j] == d);
                            }
                            if d == c {
                                assert(spawned@[before_spawned.len() as int] == d);
                            }
                        }
                        assert forall|d: ChunkCoord| #[trigger] self.has(d) <==> holds_coord(start, d)
                            || spawned@.contains(d) by {
                            lemma_holds_push(before, ch, d);
                            assert(before_self.has(d) <==> holds_coord(start, d)
                                || before_spawned.contains(d));
                            assert(spawned@.contains(d) <==> before_spawned.contains(d) || d == c);
                        }
                        assert(self.chunks@.subrange(0, start.len() as int) =~= start) by {
                            assert(before.subrange(0, start.len() as int) == start);
                        }
                        assert forall|i: int, j: int|
                            0 <= i < j < self.chunks@.len() implies (#[trigger] self.chunks@[i]).coord != (
                            #[trigger] self.chunks@[j]).coord by {
                            if j == before.len() {
                                assert(holds_coord(before, before[i].coord));
                            } else {
                                assert(self.chunks@[i] == before[i]);
                                assert(self.chunks@[j] == before[j]);
                            }
                        }
                        assert forall|i: int|
                            start.len() <= i < self.chunks@.len() implies {
                                let ch = #[trigger] self.chunks@[i];
                                &&& generated_by(*sample, g, ch)
                                &&& g.in_window(vx as int, vy as int, ch.coord)
                                &&& !holds_coord(start, ch.coord)
                            } by {
                            if i < before.len() {
                                assert(self.chunks@[i] == before[i]);
                            } else {
                                assert(!holds_coord(start, c));
                            }
                        }
                        assert forall|a: int, b: int| 0 <= a < b < spawned@.len() implies row_before(
                            #[trigger] spawned@[a],
                            #[trigger] spawned@[b],
                        ) by {
                            assert(spawned@[a] == before_spawned[a]);
                            if b < before_spawned.len() {
                                assert(spawned@[b] == before_spawned[b]);
                            }
                        }
                        assert forall|j: int| 0 <= j < spawned@.len() implies row_before(
                            #[trigger] spawned@[j],
                            ChunkCoord { x: (x + 1) as i32, y: y as i32 },
                        ) by {
                            if j < before_spawned.len() {
                                assert(spawned@[j] == before_spawned[j]);
                            }
                        }
                        assert forall|j: int|
                            0 <= j < spawned@.len() implies self.chunks@[start.len() + j].coord
                                == #[trigger] spawned@[j] by {
                            if j < before_spawned.len() {
                                assert(spawned@[j] == before_spawned[j]);
                                assert(self.chunks@[start.len() + j] == before[start.len() + j]);
                            }
                        }
                    }
                }
                x = x + 1;
            }
            y = y + 1;
        }
        spawned
    }

    /// Removes every chunk whose centre lies beyond the despawn distance from
    /// the viewpoint `(vx, vy)` (pixels) and returns their coordinates. The
    /// other chunks stay as they are.
    pub fn despawn_outofrange_chunks(&mut self, vx: i32, vy: i32) -> (gone: Vec<ChunkCoord>)
        requires
            old(self).wf(),
        ensures
            final(self).wf(),
            final(self).geometry == old(self).geometry,
            forall|c: ChunkCoord|
                #[trigger] final(self).has(c) <==> old(self).has(c) && !old(
                    self,
                ).geometry.beyond(vx as int, vy as int, c),
            forall|c: ChunkCoord|
                #[trigger] gone@.contains(c) <==> old(self).has(c) && old(self).geometry.beyond(
                    vx as int,
                    vy as int,
                    c,
                ),
            gone@.no_duplicates(),
            forall|j: int|
                0 <= j < final(self).chunks@.len() ==> old(self).chunks@.contains(
                    #[trigger] final(self).chunks@[j],
                ),
    {
        let ghost g = self.geometry;
        let ghost orig = self.chunks@;
        let ghost n = orig.len();
        let mut rest: Vec<Chunk> = Vec::new();
        std::mem::swap(&mut rest, &mut self.chunks);
        let mut kept: Vec<Chunk> = Vec::new();
        let mut gone: Vec<ChunkCoord> = Vec::new();
        // Where each kept chunk and each despawned coordinate came from.
        let ghost mut kept_src: Seq<int> = Seq::empty();
        let ghost mut gone_src: Seq<int> = Seq::empty();
        while rest.len() > 0
            invariant
                self.geometry == g,
                g.valid(),
                n == orig.len(),
                orig.len() <= g.max_chunks(),
                forall|i: int|
                    0 <= i < n ==> {
                        let ch = #[trigger] orig[i];
                        &&& ch.wf()
                        &&& ch.width == g.chunk_width
                        &&& ch.height == g.chunk_height
                        &&& g.in_map(ch.coord)
                    },
                forall|i: int, j: int|
                    0 <= i < j < n ==> (#[trigger] orig[i]).coord != (#[trigger] orig[j]).coord,
                rest@.len() <= n,
                rest@ == orig.subrange(0, rest@.len() as int),
                kept@.len() + gone@.len() == n - rest@.len(),
                kept_src.len() == kept@.len(),
                gone_src.len() == gone@.len(),
                forall|j: int|
                    0 <= j < kept@.len() ==> {
                        let i = #[trigger] kept_src[j];
                        &&& rest@.len() <= i < n
                        &&& kept@[j] == orig[i]
                        &&& !g.beyond(vx as int, vy as int, orig[i].coord)
                    },
                forall|j: int|
                    0 <= j < gone@.len() ==> {
                        let i = #[trigger] gone_src[j];
                        &&& rest@.len() <= i < n
                        &&& gone@[j] == orig[i].coord
                        &&& g.beyond(vx as int, vy as int, orig[i].coord)
                    },
                forall|i: int|
                    rest@.len() <= i < n && !g.beyond(vx as int, vy as int, orig[i].coord)
                        ==> #[trigger] kept@.contains(orig[i]),
                forall|i: int|
                    rest@.len() <= i < n && g.beyond(vx as int, vy as int, orig[i].coord)
                        ==> #[trigger] gone@.contains(orig[i].coord),
                forall|a: int, b: int|
                    0 <= a < b < kept@.len() ==> (#[trigger] kept@[a]).coord != (
                    #[trigger] kept@[b]).coord,
                forall|a: int, b: int|
                    0 <= a < b < gone@.len() ==> #[trigger] gone@[a] != #[trigger] gone@[b],
            decreases rest@.len(),
        {
            let ghost k = (rest@.len() - 1) as int;
            let ch = rest.pop().unwrap();
            assert(ch == orig[k]);
            if self.geometry.is_beyond(vx, vy, ch.coord) {
                let ghost before = gone@;
                proof {
                    assert forall|a: int| 0 <= a < before.len() implies before[a] != ch.coord by {
                        let i = gone_src[a];
                        assert(orig[k].coord != orig[i].coord);
                    }
                }
                gone.push(ch.coord);
                proof {
                    gone_src = gone_src.push(k);
                    assert forall|i: int|
                        rest@.len() <= i < n && g.beyond(vx as int, vy as int, orig[i].coord)
                            implies #[trigger] gone@.contains(orig[i].coord) by {
                        if i == k {
                            assert(gone@[before.len() as int] == orig[i].coord);
                        } else {
                            assert(before.contains(orig[i].coord));
                            let j = choose|j: int| 0 <= j < before.len() && before[j] == orig[i].coord;
                            assert(gone@[j] == orig[i].coord);
                        }
                    }
                    assert forall|i: int|
                        rest@.len() <= i < n && !g.beyond(vx as int, vy as int, orig[i].coord)
                            implies #[trigger] kept@.contains(orig[i]) by {
                        assert(i != k);
                    }
                    assert forall|j: int| 0 <= j < gone@.len() implies {
                        let i = #[trigger] gone_src[j];
                        &&& rest@.len() <= i < n
                        &&& gone@[j] == orig[i].coord
                        &&& g.beyond(vx as int, vy as int, orig[i].coord)
                    } by {
                        if j < before.len() {
                            assert(gone@[j] == before[j]);
                        }
                    }
                }
            } else {
                let ghost before = kept@;
                proof {
                    assert forall|a: int| 0 <= a < before.len() implies before[a].coord != ch.coord by {
                        let i = kept_src[a];
                        assert(orig[k].coord != orig[i].coord);
                    }
                }
                kept.push(ch);
                proof {
                    kept_src = kept_src.push(k);
                    assert forall|i: int|
                        rest@.len() <= i < n && !g.beyond(vx as int, vy as int, orig[i].coord)
                            implies #[trigger] kept@.contains(orig[i]) by {
                        if i == k {
                            assert(kept@[before.len() as int] == orig[i]);
                        } else {
                            assert(before.contains(orig[i]));
                            let j = choose|j: int| 0 <= j < before.len() && before[j] == orig[i];
                            assert(kept@[j] == orig[i]);
                        }
                    }
                    assert forall|i: int|
                        rest@.len() <= i < n && g.beyond(vx as int, vy as int, orig[i].coord)
                            implies #[trigger] gone@.contains(orig[i].coord) by {
                        assert(i != k);
                    }
                    assert forall|j: int| 0 <= j < kept@.len() implies {
                        let i = #[trigger] kept_src[j];
                        &&& rest@.len() <= i < n
                        &&& kept@[j] == orig[i]
                        &&& !g.beyond(vx as int, vy as int, orig[i].coord)
                    } by {
                        if j < before.len() {
                            assert(kept@[j] == before[j]);
                        }
                    }
                }
            }
        }
        self.chunks = kept;
        proof {
            assert forall|c: ChunkCoord|
                #[trigger] self.has(c) <==> holds_coord(orig, c) && !g.beyond(
                    vx as int,
                    vy as int,
                    c,
                ) by {
                if self.has(c) {
                    let j = choose|j: int| 0 <= j < kept@.len() && (#[trigger] kept@[j]).coord == c;
                    let i = kept_src[j];
                    assert(orig[i].coord == c);
                }
                if holds_coord(orig, c) && !g.beyond(vx as int, vy as int, c) {
                    let i = choose|i: int| 0 <= i < n && (#[trigger] orig[i]).coord == c;
                    assert(kept@.contains(orig[i]));
                    let j = choose|j: int| 0 <= j < kept@.len() && kept@[j] == orig[i];
                    assert(kept@[j].coord == c);
                }
            }
            assert forall|c: ChunkCoord|
                #[trigger] gone@.contains(c) <==> holds_coord(orig, c) && g.beyond(
                    vx as int,
                    vy as int,
                    c,
                ) by {
                if gone@.contains(c) {
                    let j = choose|j: int| 0 <= j < gone@.len() && gone@[j] == c;
                    let i = gone_src[j];
                    assert(orig[i].coord == c);
                }
                if holds_coord(orig, c) && g.beyond(vx as int, vy as int, c) {
                    let i = choose|i: int| 0 <= i < n && (#[trigger] orig[i]).coord == c;
                    assert(gone@.contains(orig[i].coord));
                }
            }
            assert forall|j: int| 0 <= j < kept@.len() implies orig.contains(#[trigger] kept@[j]) by {
                let i = kept_src[j];
                assert(orig[i] == kept@[j]);
            }
            assert(kept@.len() <= n);
            assert forall|i: int|
                0 <= i < kept@.len() implies {
                    let ch = #[trigger] kept@[i];
                    &&& ch.wf()
                    &&& ch.width == g.chunk_width
                    &&& ch.height == g.chunk_height
                    &&& g.in_map(ch.coord)
                } by {
                let k = kept_src[i];
                assert(orig[k] == kept@[i]);
            }
            assert(gone@.no_duplicates());
        }
        gone
    }

    /// The chunk covering pixel `(px, py)`.
    pub open spec fn cover(&self, px: int, py: int) -> ChunkCoord {
        ChunkCoord {
            x: self.geometry.view_x(px) as i32,
            y: self.geometry.view_y(py) as i32,
        }
    }

    /// The tile at pixel `(px, py)`, or `None` where no spawned chunk covers
    /// it.
    pub open spec fn tile_at_spec(&self, px: int, py: int) -> Option<TileType> {
        let c = self.cover(px, py);
        if self.has(c) {
            let i = choose|i: int| 0 <= i < self.chunks@.len() && (#[trigger] self.chunks@[i]).coord == c;
            Some(
                self.chunks@[i].at(
                    local_tile(px, c.x as int, self.geometry.chunk_px_w(), self.geometry.tile_size as int),
                    local_tile(py, c.y as int, self.geometry.chunk_px_h(), self.geometry.tile_size as int),
                ),
            )
        } else {
            None
        }
    }

    /// The tile at pixel position `(px, py)`, or `None` if no spawned chunk
    /// covers it.
    pub fn tile_at(&self, px: i32, py: i32) -> (r: Option<TileType>)
        requires
            self.wf(),
        ensures
            r == self.tile_at_spec(px as int, py as int),
    {
        let c = camera_pos_to_chunk_pos(&self.geometry, px, py);
        proof {
            assert(c == self.cover(px as int, py as int));
        }
        match self.find(c) {
            None => None,
            Some(i) => {
                let origin = chunk_origin(&self.geometry, c);
                let tile = self.geometry.tile_size as i64;
                let w = self.geometry.chunk_pixel_width();
                let h = self.geometry.chunk_pixel_height();
                proof {
                    vstd::arithmetic::div_mod::lemma_fundamental_div_mod(px as int, w as int);
                    vstd::arithmetic::div_mod::lemma_fundamental_div_mod(py as int, h as int);
                    let (xi, yi, wi, hi) = (px as int, py as int, w as int, h as int);
                    vstd::arithmetic::div_mod::lemma_mod_pos_bound(xi, wi);
                    vstd::arithmetic::div_mod::lemma_mod_pos_bound(yi, hi);
                    assert(origin.0 == (xi / wi) * wi);
                    assert(origin.1 == (yi / hi) * hi);
                    assert(0 <= xi - origin.0 < wi) by (nonlinear_arith)
                        requires
                            xi == wi * (xi / wi) + (xi % wi),
                            0 <= xi % wi < wi,
                            origin.0 == (xi / wi) * wi,
                    ;
                    assert(0 <= yi - origin.1 < hi) by (nonlinear_arith)
                        requires
                            yi == hi * (yi / hi) + (yi % hi),
                            0 <= yi % hi < hi,
                            origin.1 == (yi / hi) * hi,
                    ;
                }
                let ox: i64 = px as i64 - origin.0;
                let oy: i64 = py as i64 - origin.1;
                proof {
                    let g = self.geometry;
                    assert(0 <= ox < w);
                    assert(0 <= oy < h);
                    assert(ox / tile < g.chunk_width) by (nonlinear_arith)
                        requires 0 <= ox < w, w == g.chunk_width * tile, 0 < tile;
                    assert(oy / tile < g.chunk_height) by (nonlinear_arith)
                        requires 0 <= oy < h, h == g.chunk_height * tile, 0 < tile;
                    assert(0 <= ox / tile) by (nonlinear_arith)
                        requires 0 <= ox, 0 < tile;
                    assert(0 <= oy / tile) by (nonlinear_arith)
                        requires 0 <= oy, 0 < tile;
                    let j = choose|j: int| 0 <= j < self.chunks@.len() && (#[trigger] self.chunks@[j]).coord == c;
                    assert(j == i as int);
                }
                let lx: i64 = ox / tile;
                let ly: i64 = oy / tile;
                self.chunks[i].tile(lx as u32, ly as u32)
            },
        }
    }

    /// Whether a unit may move to pixel `(px, py)`: `NoChunk` where no
    /// spawned chunk covers it, else whether its tile is walkable.
    pub fn move_legality(&self, px: i32, py: i32) -> (r: MoveCheck)
        requires
            self.wf(),
        ensures
            r == (match self.tile_at_spec(px as int, py as int) {
                None => MoveCheck::NoChunk,
                Some(t) => if walkable(t) {
                    MoveCheck::Walkable
                } else {
                    MoveCheck::Blocked
                },
            }),
    {
        match self.tile_at(px, py) {
            None => MoveCheck::NoChunk,
            Some(t) => if t.is_walkable() {
                MoveCheck::Walkable
            } else {
                MoveCheck::Blocked
            },
        }
    }

    /// One streaming tick at viewpoint `(vx, vy)` (pixels): the despawn pass,
    /// then the spawn pass.
    pub fn tick<F: Fn(i64, i64) -> TerrainSample>(&mut self, vx: i32, vy: i32, sample: &F) -> (r:
        TickReport)
        requires
            old(self).wf(),
            forall|wx: i64, wy: i64| #[trigger] sample.requires((wx, wy)),
        ensures
            tick_post(*old(self), *final(self), vx as int, vy as int, r.spawned@, r.despawned@, *sample),
    {
        let ghost start = *self;
        let despawned = self.despawn_outofrange_chunks(vx, vy);
        let ghost mid = *self;
        let spawned = self.spawn_chunk_around_camera(vx, vy, sample);
        proof {
            let g = start.geometry;
            assert forall|c: ChunkCoord| #[trigger] spawned@.contains(c) implies g.in_window(
                vx as int,
                vy as int,
                c,
            ) && !mid.has(c) by {
                let j = choose|j: int| 0 <= j < spawned@.len() && spawned@[j] == c;
                let ch = self.chunks@[mid.chunks@.len() + j];
                assert(ch.coord == spawned@[j]);
            }
            assert forall|c: ChunkCoord| #[trigger] spawned@.contains(c) implies g.in_window(
                vx as int,
                vy as int,
                c,
            ) && !start.has(c) by {
                assert(mid.has(c) <==> start.has(c) && !g.beyond(vx as int, vy as int, c));
                lemma_window_within_despawn(g, vx as int, vy as int, c);
            }
            assert forall|c: ChunkCoord| #[trigger] self.has(c) implies !g.beyond(
                vx as int,
                vy as int,
                c,
            ) by {
                assert(mid.has(c) <==> start.has(c) && !g.beyond(vx as int, vy as int, c));
                if spawned@.contains(c) {
                    lemma_window_within_despawn(g, vx as int, vy as int, c);
                }
            }
            assert forall|i: int| 0 <= i < self.chunks@.len() implies #[trigger] start.chunks@.contains(
                self.chunks@[i],
            ) || generated_by(*sample, g, self.chunks@[i]) by {
                if i < mid.chunks@.len() {
                    assert(self.chunks@.subrange(0, mid.chunks@.len() as int)[i] == mid.chunks@[i]);
                    assert(mid.chunks@[i] == self.chunks@[i]);
                }
            }
        }
        TickReport { spawned, despawned }
    }

    /// Removes every chunk, as a regenerate request asks, and returns the
    /// coordinates that were spawned.
    pub fn reset_map(&mut self) -> (gone: Vec<ChunkCoord>)
        requires
            old(self).wf(),
        ensures
            final(self).wf(),
            final(self).geometry == old(self).geometry,
            final(self).chunks@.len() == 0,
            gone@.no_duplicates(),
            forall|c: ChunkCoord| #[trigger] gone@.contains(c) <==> old(self).has(c),
    {
        let mut gone: Vec<ChunkCoord> = Vec::new();
        let mut i: usize = 0;
        while i < self.chunks.len()
            invariant
                self.wf(),
                i <= self.chunks@.len(),
                gone@.len() == i,
                forall|j: int| 0 <= j < i ==> #[trigger] gone@[j] == self.chunks@[j].coord,
            decreases self.chunks@.len() - i,
        {
            gone.push(self.chunks[i].coord);
            i = i + 1;
        }
        proof {
            assert forall|c: ChunkCoord| #[trigger] gone@.contains(c) <==> self.has(c) by {
                if gone@.contains(c) {
                    let j = choose|j: int| 0 <= j < gone@.len() && gone@[j] == c;
                    assert(self.chunks@[j].coord == c);
                }
                if self.has(c) {
                    let j = choose|j: int| 0 <= j < self.chunks@.len() && (#[trigger] self.chunks@[j]).coord == c;
                    assert(gone@[j] == c);
                }
            }
            assert forall|a: int, b: int| 0 <= a < b < gone@.len() implies gone@[a] != gone@[b] by {
                assert(gone@[a] == self.chunks@[a].coord);
                assert(gone@[b] == self.chunks@[b].coord);
            }
        }
        self.chunks.clear();
        gone
    }

    /// One frame of the map: a pending regenerate request (`DirtyMap`) clears
    /// every chunk and spawns nothing; otherwise the frame is a streaming
    /// tick. Either way the map is streaming afterwards.
    pub fn update<F: Fn(i64, i64) -> TerrainSample>(
        &mut self,
        state: GameState,
        vx: i32,
        vy: i32,
        sample: &F,
    ) -> (r: (GameState, TickReport))
        requires
            old(self).wf(),
            forall|wx: i64, wy: i64| #[trigger] sample.requires((wx, wy)),
        ensures
            r.0 == GameState::GameRunning,
            state == GameState::DirtyMap ==> {
                &&& final(self).wf()
                &&& final(self).geometry == old(self).geometry
                &&& final(self).chunks@.len() == 0
                &&& r.1.spawned@.len() == 0
                &&& r.1.despawned@.no_duplicates()
                &&& forall|c: ChunkCoord| #[trigger]
                    r.1.despawned@.contains(c) <==> old(self).has(c)
            },
            state == GameState::GameRunning ==> tick_post(
                *old(self),
                *final(self),
                vx as int,
                vy as int,
                r.1.spawned@,
                r.1.despawned@,
                *sample,
            ),
    {
        match state {
            GameState::DirtyMap => {
                let despawned = self.reset_map();
                (GameState::GameRunning, TickReport { spawned: Vec::new(), despawned })
            },
            GameState::GameRunning => {
                let report = self.tick(vx, vy, sample);
                (GameState::GameRunning, report)
            },
        }
    }
}

/// Distinct chunk coordinates inside the world number at most the world's
/// chunk count.
proof fn lemma_distinct_in_map_bounded(g: MapGeometry, s: Seq<ChunkCoord>)
    requires
        g.valid(),
        s.no_duplicates(),
        forall|i: int| 0 <= i < s.len() ==> g.in_map(#[trigger] s[i]),
    ensures
        s.len() <= g.max_chunks(),
{
    let nx = g.chunks_x();
    let ny = g.chunks_y();
    let idx = s.map_values(|c: ChunkCoord| c.y * nx + c.x);
    assert(idx.no_duplicates()) by {
        assert forall|a: int, b: int| 0 <= a < idx.len() && 0 <= b < idx.len() && a != b implies idx[a]
            != idx[b] by {
            let (ca, cb) = (s[a], s[b]);
            assert(g.in_map(ca) && g.in_map(cb));
            if idx[a] == idx[b] {
                vstd::arithmetic::div_mod::lemma_fundamental_div_mod_converse(
                    idx[a],
                    nx,
                    ca.y as int,
                    ca.x as int,
                );
                vstd::arithmetic::div_mod::lemma_fundamental_div_mod_converse(
                    idx[b],
                    nx,
                    cb.y as int,
                    cb.x as int,
                );
                assert(ca == cb);
            }
        }
    }
    assert(idx.to_set().subset_of(vstd::set_lib::set_int_range(0, nx * ny))) by {
        assert forall|v: int| idx.to_set().contains(v) implies vstd::set_lib::set_int_range(
            0,
            nx * ny,
        ).contains(v) by {
            let i = choose|i: int| 0 <= i < idx.len() && idx[i] == v;
            let c = s[i];
            assert(g.in_map(c));
            assert(0 <= c.y * nx + c.x < nx * ny) by (nonlinear_arith)
                requires 0 <= c.x < nx, 0 <= c.y < ny;
        }
    }
    assert(0 <= nx * ny) by (nonlinear_arith)
        requires 0 <= nx, 0 <= ny;
    idx.unique_seq_to_set();
    vstd::set_lib::lemma_int_range(0, nx * ny);
    vstd::set_lib::lemma_len_subset(idx.to_set(), vstd::set_lib::set_int_range(0, nx * ny));
}

/// A well-formed manager that lacks some chunk of the world has room for it
/// within the chunk budget.
proof fn lemma_missing_chunk_leaves_room(m: ChunkManager, c: ChunkCoord)
    requires
        m.wf(),
        m.geometry.in_map(c),
        !m.has(c),
    ensures
        m.chunks@.len() < m.geometry.max_chunks(),
{
    let coords = m.chunks@.map_values(|ch: Chunk| ch.coord).push(c);
    assert forall|a: int, b: int| 0 <= a < coords.len() && 0 <= b < coords.len() && a != b implies coords[a]
        != coords[b] by {
        if a < m.chunks@.len() && b < m.chunks@.len() {
            if a < b {
                assert(m.chunks@[a].coord != m.chunks@[b].coord);
            } else {
                assert(m.chunks@[b].coord != m.chunks@[a].coord);
            }
        } else if a < m.chunks@.len() {
            assert(coords[a] == m.chunks@[a].coord);
        } else {
            assert(coords[b] == m.chunks@[b].coord);
        }
    }
    assert forall|i: int| 0 <= i < coords.len() implies m.geometry.in_map(#[trigger] coords[i]) by {
        if i < m.chunks@.len() {
            assert(coords[i] == m.chunks@[i].coord);
        }
    }
    lemma_distinct_in_map_bounded(m.geometry, coords);
}

/// A chunk of the spawn window is never beyond the despawn distance from the
/// same viewpoint: with the viewpoint unchanged, a chunk that a tick spawned
/// is not despawned by the next tick, so chunks cannot flicker at the border.
pub proof fn lemma_window_within_despawn(g: MapGeometry, vx: int, vy: int, c: ChunkCoord)
    requires
        g.valid(),
        g.in_window(vx, vy, c),
    ensures
        !g.beyond(vx, vy, c),
{
    let w = g.chunk_px_w();
    let h = g.chunk_px_h();
    let r = g.spawn_radius as int;
    assert(0 < w && 0 < h) by (nonlinear_arith)
        requires w == g.chunk_width * g.tile_size, h == g.chunk_height * g.tile_size, 0
            < g.chunk_width, 0 < g.chunk_height, 0 < g.tile_size;
    let cx = vx / w;
    let cy = vy / h;
    vstd::arithmetic::div_mod::lemma_fundamental_div_mod(vx, w);
    vstd::arithmetic::div_mod::lemma_fundamental_div_mod(vy, h);
    lemma_axis_reach(vx, cx, c.x as int, w, r);
    lemma_axis_reach(vy, cy, c.y as int, h, r);
    let dx = 2 * vx - (2 * c.x + 1) * w;
    let dy = 2 * vy - (2 * c.y + 1) * h;
    let sx = (2 * r + 1) * w;
    let sy = (2 * r + 1) * h;
    assert(dx * dx <= sx * sx) by (nonlinear_arith)
        requires -sx <= dx <= sx;
    assert(dy * dy <= sy * sy) by (nonlinear_arith)
        requires -sy <= dy <= sy;
    assert(sx == (2 * r + 1) * (g.chunk_width * g.tile_size));
    assert(sy == (2 * r + 1) * (g.chunk_height * g.tile_size));
}

proof fn lemma_axis_reach(v: int, cv: int, k: int, w: int, r: int)
    requires
        0 < w,
        0 <= r,
        cv * w <= v < cv * w + w,
        cv - r <= k <= cv + r,
    ensures
        -((2 * r + 1) * w) <= 2 * v - (2 * k + 1) * w <= (2 * r + 1) * w,
{
    assert(2 * v - (2 * k + 1) * w >= (2 * (cv - k) - 1) * w) by (nonlinear_arith)
        requires cv * w <= v;
    assert((2 * (cv - k) - 1) * w >= -((2 * r + 1) * w)) by (nonlinear_arith)
        requires cv - k >= -r, 0 < w;
    assert(2 * v - (2 * k + 1) * w <= (2 * (cv - k) + 1) * w) by (nonlinear_arith)
        requires v < cv * w + w;
    assert((2 * (cv - k) + 1) * w <= (2 * r + 1) * w) by (nonlinear_arith)
        requires cv - k <= r, 0 < w;
}

/// No thrashing: when two ticks run at the same viewpoint, the second one
/// despawns nothing, and every chunk present after the first tick (kept or
/// just spawned) is still present after the second.
pub proof fn lemma_no_thrashing<F: Fn(i64, i64) -> TerrainSample>(
    first: ChunkManager,
    mid: ChunkManager,
    last: ChunkManager,
    vx: int,
    vy: int,
    spawned1: Seq<ChunkCoord>,
    despawned1: Seq<ChunkCoord>,
    spawned2: Seq<ChunkCoord>,
    despawned2: Seq<ChunkCoord>,
    sample: F,
)
    requires
        tick_post(first, mid, vx, vy, spawned1, despawned1, sample),
        tick_post(mid, last, vx, vy, spawned2, despawned2, sample),
    ensures
        despawned2.len() == 0,
        forall|c: ChunkCoord| #[trigger] mid.has(c) ==> last.has(c),
{
    if despawned2.len() > 0 {
        let c = despawned2[0];
        assert(despawned2.contains(c));
    }
    assert forall|c: ChunkCoord| #[trigger] mid.has(c) implies last.has(c) by {
        assert(!mid.geometry.beyond(vx, vy, c));
    }
}

/// The spawned-chunk set never holds more chunks than the finite world has:
/// every operation keeps the manager well formed, and a well-formed manager
/// holds at most `ceil(world_width / chunk_width) * ceil(world_height /
/// chunk_height)` distinct chunks.
pub proof fn lemma_chunk_count_bounded(m: ChunkManager)
    requires
        m.wf(),
    ensures
        m.spawned().finite(),
        m.spawned().len() == m.chunks@.len(),
        m.spawned().len() <= m.geometry.max_chunks(),
{
    let coords = m.chunks@.map_values(|ch: Chunk| ch.coord);
    assert(m.spawned() =~= coords.to_set()) by {
        assert forall|c: ChunkCoord| m.spawned().contains(c) <==> coords.to_set().contains(c) by {
            if m.has(c) {
                let i = choose|i: int| 0 <= i < m.chunks@.len() && (#[trigger] m.chunks@[i]).coord == c;
                assert(coords[i] == c);
            }
            if coords.contains(c) {
                let i = choose|i: int| 0 <= i < coords.len() && coords[i] == c;
                assert(m.chunks@[i].coord == c);
            }
        }
    }
    assert(coords.no_duplicates()) by {
        assert forall|a: int, b: int| 0 <= a < coords.len() && 0 <= b < coords.len() && a != b implies coords[a] != coords[b] by {
            if a < b {
                assert(m.chunks@[a].coord != m.chunks@[b].coord);
            } else {
                assert(m.chunks@[b].coord != m.chunks@[a].coord);
            }
        }
    }
    coords.unique_seq_to_set();
    vstd::seq_lib::seq_to_set_is_finite(coords);
}

/// Publication is atomic: every chunk that a well-formed manager holds, and
/// so every chunk any observer can reach, has all
/// `chunk_width * chunk_height` cells of its grid filled.
pub proof fn lemma_published_chunks_complete(m: ChunkManager, i: int)
    requires
        m.wf(),
        0 <= i < m.chunks@.len(),
    ensures
        m.chunks@[i].tiles@.len() == m.geometry.chunk_width * m.geometry.chunk_height,
{
}

} // verus!
