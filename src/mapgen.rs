use vstd::prelude::*;
use crate::block::{
    MapBlock, MapChunkData, Pos3, CHUNKSIZE, CHUNK_VOLUME, block_index, in_chunk, is_chunk_aligned,
    floor_div_chunk, floor_div_chunksize, mod_chunk, chunk_origin_of, offset_in_chunk,
    lemma_floor_div_times, lemma_block_index_bounds,
};
use crate::schematic::{Schematic, tree_items, tree_schematic, lemma_tree_offsets_small};

verus! {

/// Number of columns in a chunk (`CHUNKSIZE²`).
pub const CHUNK_COLUMNS: usize = 1024;

/// How far a chunk has come in generation. Phases only ever advance.
#[derive(Clone, Copy, Debug, PartialEq, Eq, Structural)]
pub enum GenerationPhase {
    /// Terrain computed from noise.
    PhaseOne,
    /// Structures (trees) stamped.
    PhaseTwo,
    /// Already handed to the caller as stable.
    Done,
}

/// The terrain inputs of one column, computed from the world's noise fields.
#[derive(Clone, Copy, Debug, PartialEq, Eq, Structural)]
pub struct ColumnNoise {
    /// The column's elevation in blocks (weighted sum of the noise octaves).
    pub elevation: isize,
    /// Whether the forest density field exceeds its threshold at the column.
    pub forest: bool,
}

/// The noise-derived inputs of one chunk: one sample per column, in
/// `x·CHUNKSIZE + y` order, and the successive outcomes of the chunk's
/// placement stream (whether each draw places a tree).
pub struct ChunkNoise {
    pub columns: Vec<ColumnNoise>,
    pub draws: Vec<bool>,
}

impl ChunkNoise {
    pub open spec fn wf(&self) -> bool {
        self.columns@.len() == CHUNK_COLUMNS && self.draws@.len() == CHUNK_COLUMNS
    }
}

/// A chunk of the generator's cache.
pub struct MapChunk {
    pub data: MapChunkData,
    generation_phase: GenerationPhase,
    tree_spawn_points: Vec<Pos3>,
}

/// What a chunk of the cache is: its blocks, its phase, and the structure
/// spawn points that still wait to be stamped.
pub struct ChunkModel {
    pub blocks: Seq<MapBlock>,
    pub phase: GenerationPhase,
    pub spawn: Seq<Pos3>,
}

impl View for MapChunk {
    type V = ChunkModel;

    closed spec fn view(&self) -> ChunkModel {
        ChunkModel { blocks: self.data@, phase: self.generation_phase, spawn: self.tree_spawn_points@ }
    }
}

impl MapChunk {
    pub open spec fn wf(&self) -> bool {
        self@.blocks.len() == CHUNK_VOLUME
    }

    proof fn lemma_wf(&self)
        ensures
            self.wf() <==> self.data.wf(),
            self@.blocks == self.data@,
            self@.phase == self.generation_phase,
            self@.spawn == self.tree_spawn_points@,
    {
    }

    /// The chunk's generation phase.
    pub fn phase(&self) -> (r: GenerationPhase)
        ensures
            r == self@.phase,
    {
        self.generation_phase
    }

    /// The block at local position `pos`.
    pub fn get_blk(&self, pos: Pos3) -> (r: MapBlock)
        requires
            self.wf(),
            in_chunk(pos.x as int, pos.y as int, pos.z as int),
        ensures
            r == self@.blocks[block_index(pos.x as int, pos.y as int, pos.z as int)],
    {
        proof {
            self.lemma_wf();
        }
        self.data.get_blk(pos.x, pos.y, pos.z)
    }

    /// The block at local position `pos`, to be changed in place.
    pub fn get_blk_mut(&mut self, pos: Pos3) -> (r: &mut MapBlock)
        requires
            old(self).wf(),
            in_chunk(pos.x as int, pos.y as int, pos.z as int),
        ensures
            *r == old(self)@.blocks[block_index(pos.x as int, pos.y as int, pos.z as int)],
            final(self)@ == (ChunkModel {
                blocks: old(self)@.blocks.update(
                    block_index(pos.x as int, pos.y as int, pos.z as int),
                    *final(r),
                ),
                ..old(self)@
            }),
            final(self).wf(),
    {
        proof {
            self.lemma_wf();
        }
        let i = (pos.x * 1024 + pos.y * 32 + pos.z) as usize;
        &mut self.data.blocks[i]
    }
}

/// The column's fill height relative to the chunk's floor, or `None` where
/// the difference leaves the machine range (the column then stays air).
pub open spec fn column_rel_height(chunk_z: int, elevation: int) -> Option<int> {
    let e = elevation - chunk_z;
    if isize::MIN <= e <= isize::MAX { Some(e) } else { None }
}

/// The fill height clamped to the chunk: `0 ..= CHUNKSIZE`.
pub open spec fn clamp_height(e: int) -> int {
    if e < 0 { 0 } else if e > CHUNKSIZE { CHUNKSIZE as int } else { e }
}

/// The block at height `z` of a column. Below the world floor the fill is
/// stone under water; at or above it the fill is ground under air, and on the
/// floor-level chunk a column with no fill gets water on its bottom block.
pub open spec fn column_block(chunk_z: int, elevation: int, z: int) -> MapBlock {
    match column_rel_height(chunk_z, elevation) {
        None => MapBlock::Air,
        Some(e) => {
            let el = clamp_height(e);
            if chunk_z < 0 {
                if z < el { MapBlock::Stone } else { MapBlock::Water }
            } else if z < el {
                MapBlock::Ground
            } else if chunk_z == 0 && el <= 0 && z == 0 {
                MapBlock::Water
            } else {
                MapBlock::Air
            }
        },
    }
}

/// The blocks of a chunk after phase one: block `i` lies in column `i / CHUNKSIZE`
/// at height `i % CHUNKSIZE`.
pub open spec fn phase_one_blocks(pos: Pos3, columns: Seq<ColumnNoise>) -> Seq<MapBlock> {
    Seq::new(
        CHUNK_VOLUME as nat,
        |i: int| column_block(pos.z as int, columns[i / 32].elevation as int, i % 32),
    )
}

/// Whether a column may carry a tree: at or above the floor, with its surface
/// strictly inside the chunk, and in a forest.
pub open spec fn column_takes_draw(chunk_z: int, c: ColumnNoise) -> bool {
    match column_rel_height(chunk_z, c.elevation as int) {
        None => false,
        Some(e) => chunk_z >= 0 && 0 < clamp_height(e) < CHUNKSIZE && c.forest,
    }
}

/// How many placement draws the first `k` columns use.
pub open spec fn draws_used(chunk_z: int, columns: Seq<ColumnNoise>, k: int) -> int
    decreases k,
{
    if k <= 0 {
        0
    } else {
        draws_used(chunk_z, columns, k - 1) + if column_takes_draw(chunk_z, columns[k - 1]) {
            1int
        } else {
            0int
        }
    }
}

/// The tree spawn points of the first `k` columns, in column order: a column
/// that takes a draw gets a tree on its surface when its draw says so.
pub open spec fn spawn_points_upto(
    pos: Pos3,
    columns: Seq<ColumnNoise>,
    draws: Seq<bool>,
    k: int,
) -> Seq<Pos3>
    decreases k,
{
    if k <= 0 {
        Seq::empty()
    } else {
        let prev = spawn_points_upto(pos, columns, draws, k - 1);
        let c = columns[k - 1];
        if column_takes_draw(pos.z as int, c) && draws[draws_used(pos.z as int, columns, k - 1)] {
            prev.push(
                Pos3 {
                    x: (pos.x + (k - 1) / 32) as isize,
                    y: (pos.y + (k - 1) % 32) as isize,
                    z: (pos.z + clamp_height(c.elevation - pos.z)) as isize,
                },
            )
        } else {
            prev
        }
    }
}

proof fn lemma_draws_used_bounds(chunk_z: int, columns: Seq<ColumnNoise>, k: int)
    requires
        k >= 0,
    ensures
        0 <= draws_used(chunk_z, columns, k) <= k,
    decreases k,
{
    if k > 0 {
        lemma_draws_used_bounds(chunk_z, columns, k - 1);
    }
}

/// Spawn points lie in the chunk's columns, strictly above its floor and
/// inside it.
pub open spec fn spawn_point_in_chunk(pos: Pos3, s: Pos3) -> bool {
    0 <= s.x - pos.x < CHUNKSIZE && 0 <= s.y - pos.y < CHUNKSIZE && 0 < s.z - pos.z < CHUNKSIZE
}

proof fn lemma_flat_index(c: int, z: int)
    requires
        0 <= c,
        0 <= z < 32,
    ensures
        (c * 32 + z) / 32 == c,
        (c * 32 + z) % 32 == z,
{
    assert((c * 32 + z) / 32 == c && (c * 32 + z) % 32 == z) by (nonlinear_arith)
        requires
            0 <= c,
            0 <= z < 32,
    ;
}

/// Phase one of a chunk at origin `pos`: terrain from the column samples and
/// the tree spawn points from the placement draws.
pub fn gen_chunk_phase_one(pos: Pos3, noise: &ChunkNoise) -> (r: MapChunk)
    requires
        is_chunk_aligned(pos),
        noise.wf(),
    ensures
        r.wf(),
        r@.phase == GenerationPhase::PhaseOne,
        r@.blocks == phase_one_blocks(pos, noise.columns@),
        r@.spawn == spawn_points_upto(pos, noise.columns@, noise.draws@, CHUNK_COLUMNS as int),
        forall|i: int| 0 <= i < r@.spawn.len() ==> spawn_point_in_chunk(pos, #[trigger] r@.spawn[i]),
        forall|i: int| 0 <= i < r@.spawn.len() ==> (#[trigger] r@.spawn[i]).z >= 1,
{
    let ghost cols = noise.columns@;
    let ghost draws = noise.draws@;
    proof {
        lemma_floor_div_times(pos.x as int);
        lemma_floor_div_times(pos.y as int);
        lemma_floor_div_times(pos.z as int);
    }
    let mut blocks: Vec<MapBlock> = Vec::new();
    let mut spawn: Vec<Pos3> = Vec::new();
    let mut used: usize = 0;
    let mut c: usize = 0;
    while c < CHUNK_COLUMNS
        invariant
            c <= CHUNK_COLUMNS,
            noise.wf(),
            cols == noise.columns@,
            draws == noise.draws@,
            is_chunk_aligned(pos),
            blocks@ == phase_one_blocks(pos, cols).take(c * 32),
            used == draws_used(pos.z as int, cols, c as int),
            used <= c,
            spawn@ == spawn_points_upto(pos, cols, draws, c as int),
            forall|i: int| 0 <= i < spawn@.len() ==> spawn_point_in_chunk(pos, #[trigger] spawn@[i]),
            forall|i: int| 0 <= i < spawn@.len() ==> (#[trigger] spawn@[i]).z >= 1,
        decreases CHUNK_COLUMNS - c,
    {
        let col = noise.columns[c];
        let x: isize = (c / 32) as isize;
        let y: isize = (c % 32) as isize;
        let rel = col.elevation.checked_sub(pos.z);
        let mut el: isize = 0;
        let mut z: isize = 0;
        while z < CHUNKSIZE
            invariant
                0 <= z <= CHUNKSIZE,
                c < CHUNK_COLUMNS,
                col == cols[c as int],
                cols.len() == CHUNK_COLUMNS,
                rel is Some <==> column_rel_height(pos.z as int, col.elevation as int) is Some,
                rel is Some ==> rel->Some_0 as int == column_rel_height(pos.z as int, col.elevation as int)->Some_0,
                blocks@ == phase_one_blocks(pos, cols).take(c * 32 + z),
            decreases CHUNKSIZE - z,
        {
            let b = match rel {
                None => MapBlock::Air,
                Some(e) => {
                    let h = if e < 0 {
                        0
                    } else if e > CHUNKSIZE {
                        CHUNKSIZE
                    } else {
                        e
                    };
                    if pos.z < 0 {
                        if z < h {
                            MapBlock::Stone
                        } else {
                            MapBlock::Water
                        }
                    } else if z < h {
                        MapBlock::Ground
                    } else if pos.z == 0 && h <= 0 && z == 0 {
                        MapBlock::Water
                    } else {
                        MapBlock::Air
                    }
                },
            };
            proof {
                lemma_flat_index(c as int, z as int);
            }
            blocks.push(b);
            z = z + 1;
            assert(blocks@ =~= phase_one_blocks(pos, cols).take(c * 32 + z));
        }
        if let Some(e) = rel {
            el = if e < 0 {
                0
            } else if e > CHUNKSIZE {
                CHUNKSIZE
            } else {
                e
            };
            if pos.z >= 0 && el > 0 && el < CHUNKSIZE && col.forest {
                proof {
                    lemma_draws_used_bounds(pos.z as int, cols, c as int);
                }
                if noise.draws[used] {
                    spawn.push(Pos3 { x: pos.x + x, y: pos.y + y, z: pos.z + el });
                }
                used = used + 1;
            }
        }
        proof {
            assert(c as int / 32 == x && c as int % 32 == y);
        }
        c = c + 1;
        assert(spawn@ =~= spawn_points_upto(pos, cols, draws, c as int));
    }
    assert(blocks@ =~= phase_one_blocks(pos, cols));
    MapChunk {
        data: MapChunkData { blocks },
        generation_phase: GenerationPhase::PhaseOne,
        tree_spawn_points: spawn,
    }
}

/// On the floor-level chunk, a column whose elevation is at or below the
/// floor shows water on its bottom block.
pub proof fn lemma_floor_level_water(pos: Pos3, columns: Seq<ColumnNoise>, x: int, y: int)
    requires
        pos.z == 0,
        columns.len() == CHUNK_COLUMNS,
        0 <= x < CHUNKSIZE,
        0 <= y < CHUNKSIZE,
        columns[x * 32 + y].elevation <= 0,
    ensures
        phase_one_blocks(pos, columns)[block_index(x, y, 0)] == MapBlock::Water,
{
    lemma_flat_index(x * 32 + y, 0);
}

/// The chunk that phase one makes at `pos` from `noise`.
pub open spec fn phase_one_model(pos: Pos3, columns: Seq<ColumnNoise>, draws: Seq<bool>) -> ChunkModel {
    ChunkModel {
        blocks: phase_one_blocks(pos, columns),
        phase: GenerationPhase::PhaseOne,
        spawn: spawn_points_upto(pos, columns, draws, CHUNK_COLUMNS as int),
    }
}

/// The origin of the chunk that owns block `p`.
pub open spec fn origin_of(p: Pos3) -> Pos3 {
    Pos3 {
        x: (floor_div_chunk(p.x as int) * 32) as isize,
        y: (floor_div_chunk(p.y as int) * 32) as isize,
        z: (floor_div_chunk(p.z as int) * 32) as isize,
    }
}

/// The index of block `p` in the chunk that owns it.
pub open spec fn index_in_owner(p: Pos3) -> int {
    block_index(mod_chunk(p.x as int), mod_chunk(p.y as int), mod_chunk(p.z as int))
}

/// Writes block `b` at absolute position `p` into the chunk that owns it; a
/// position whose chunk is not in the cache is left alone.
pub open spec fn stamp_block(m: Map<Pos3, ChunkModel>, p: Pos3, b: MapBlock) -> Map<Pos3, ChunkModel> {
    let o = origin_of(p);
    if m.contains_key(o) {
        m.insert(o, ChunkModel { blocks: m[o].blocks.update(index_in_owner(p), b), ..m[o] })
    } else {
        m
    }
}

/// The offset `off` from `anchor`.
pub open spec fn offset_pos(anchor: Pos3, off: Pos3) -> Pos3 {
    Pos3 {
        x: (anchor.x + off.x) as isize,
        y: (anchor.y + off.y) as isize,
        z: (anchor.z + off.z) as isize,
    }
}

/// The first `n` items of a schematic stamped at `anchor`, in order: later
/// items overwrite earlier ones.
pub open spec fn stamp_prefix(
    m: Map<Pos3, ChunkModel>,
    anchor: Pos3,
    items: Seq<(Pos3, MapBlock)>,
    n: int,
) -> Map<Pos3, ChunkModel>
    decreases n,
{
    if n <= 0 {
        m
    } else {
        let prev = stamp_prefix(m, anchor, items, n - 1);
        stamp_block(prev, offset_pos(anchor, items[n - 1].0), items[n - 1].1)
    }
}

/// A tree stamped at each of the first `n` points, in order.
pub open spec fn stamp_trees(m: Map<Pos3, ChunkModel>, points: Seq<Pos3>, n: int) -> Map<
    Pos3,
    ChunkModel,
>
    decreases n,
{
    if n <= 0 {
        m
    } else {
        let prev = stamp_trees(m, points, n - 1);
        stamp_prefix(prev, points[n - 1], tree_items(), tree_items().len() as int)
    }
}

/// Phase two of the chunk at `pos`: a chunk in phase one moves to phase two
/// and its pending trees are stamped; a chunk past phase one is left as is.
pub open spec fn phase_two(m: Map<Pos3, ChunkModel>, pos: Pos3) -> Map<Pos3, ChunkModel> {
    let c = m[pos];
    if c.phase != GenerationPhase::PhaseOne {
        m
    } else {
        let m1 = m.insert(pos, ChunkModel { phase: GenerationPhase::PhaseTwo, spawn: Seq::empty(), ..c });
        stamp_trees(m1, c.spawn, c.spawn.len() as int)
    }
}

/// The origin of the chunk at grid coordinate `(gx, gy, gz)`.
pub open spec fn grid_pos(gx: int, gy: int, gz: int) -> Pos3 {
    Pos3 { x: (gx * 32) as isize, y: (gy * 32) as isize, z: (gz * 32) as isize }
}

/// Phase two over the grid row `(gx, gy, z ..= zmax)`, in order.
pub open spec fn phase_two_row(m: Map<Pos3, ChunkModel>, gx: int, gy: int, z: int, zmax: int) -> Map<
    Pos3,
    ChunkModel,
>
    decreases zmax + 1 - z,
{
    if z > zmax {
        m
    } else {
        phase_two_row(phase_two(m, grid_pos(gx, gy, z)), gx, gy, z + 1, zmax)
    }
}

/// Phase two over the grid plane `(gx, y ..= ymax, zmin ..= zmax)`, in order.
pub open spec fn phase_two_plane(
    m: Map<Pos3, ChunkModel>,
    gx: int,
    y: int,
    ymax: int,
    zmin: int,
    zmax: int,
) -> Map<Pos3, ChunkModel>
    decreases ymax + 1 - y,
{
    if y > ymax {
        m
    } else {
        phase_two_plane(phase_two_row(m, gx, y, zmin, zmax), gx, y + 1, ymax, zmin, zmax)
    }
}

/// Phase two over the grid box `(x ..= xmax, ymin ..= ymax, zmin ..= zmax)`,
/// in order (`x` outermost).
pub open spec fn phase_two_box(
    m: Map<Pos3, ChunkModel>,
    x: int,
    xmax: int,
    ymin: int,
    ymax: int,
    zmin: int,
    zmax: int,
) -> Map<Pos3, ChunkModel>
    decreases xmax + 1 - x,
{
    if x > xmax {
        m
    } else {
        phase_two_box(phase_two_plane(m, x, ymin, ymax, zmin, zmax), x + 1, xmax, ymin, ymax, zmin, zmax)
    }
}

/// Whether grid coordinate `g` is in the box `lo ..= hi`.
pub open spec fn in_grid_box(g: (int, int, int), lo: (int, int, int), hi: (int, int, int)) -> bool {
    lo.0 <= g.0 <= hi.0 && lo.1 <= g.1 <= hi.1 && lo.2 <= g.2 <= hi.2
}

/// Grid coordinates whose chunks, padded by a few chunks, stay in machine range.
pub open spec fn grid_coord_ok(g: int) -> bool {
    isize::MIN / 32 + 3 <= g <= isize::MAX / 32 - 3
}

/// Grid coordinates whose chunks, with a neighbour on each side, stay in
/// machine range.
pub open spec fn grid_coord_safe(g: int) -> bool {
    isize::MIN / 32 + 1 <= g <= isize::MAX / 32 - 1
}

/// Whether every chunk of the grid box is in the cache and already delivered.
pub open spec fn area_done(m: Map<Pos3, ChunkModel>, lo: (int, int, int), hi: (int, int, int)) -> bool {
    forall|gx: int, gy: int, gz: int|
        #![trigger grid_pos(gx, gy, gz)]
        in_grid_box((gx, gy, gz), lo, hi) ==> m.contains_key(grid_pos(gx, gy, gz)) && m[grid_pos(
            gx,
            gy,
            gz,
        )].phase == GenerationPhase::Done
}

/// Whether every chunk of the grid box is in the cache.
pub open spec fn area_present(m: Map<Pos3, ChunkModel>, lo: (int, int, int), hi: (int, int, int)) -> bool {
    forall|gx: int, gy: int, gz: int|
        #![trigger grid_pos(gx, gy, gz)]
        in_grid_box((gx, gy, gz), lo, hi) ==> m.contains_key(grid_pos(gx, gy, gz))
}

/// The grid box widened by `pad` chunks on every side.
pub open spec fn pad_lo(lo: (int, int, int), pad: int) -> (int, int, int) {
    (lo.0 - pad, lo.1 - pad, lo.2 - pad)
}

pub open spec fn pad_hi(hi: (int, int, int), pad: int) -> (int, int, int) {
    (hi.0 + pad, hi.1 + pad, hi.2 + pad)
}

/// The grid coordinate of block position `p`.
pub open spec fn grid_of(p: Pos3) -> (int, int, int) {
    (floor_div_chunk(p.x as int), floor_div_chunk(p.y as int), floor_div_chunk(p.z as int))
}

/// Whether a cached chunk is sound: it has a full block sequence, its spawn
/// points lie inside it, and once past phase one it has none left.
pub open spec fn chunk_model_wf(pos: Pos3, c: ChunkModel) -> bool {
    &&& c.blocks.len() == CHUNK_VOLUME
    &&& c.phase != GenerationPhase::PhaseOne ==> c.spawn.len() == 0
    &&& forall|i: int| 0 <= i < c.spawn.len() ==> (#[trigger] c.spawn[i]).z >= 1
    &&& forall|i: int| 0 <= i < c.spawn.len() ==> spawn_point_in_chunk(pos, #[trigger] c.spawn[i])
}

/// Whether every chunk of `m0` is in `m1` with the same phase and spawn points.
pub open spec fn phases_kept(m0: Map<Pos3, ChunkModel>, m1: Map<Pos3, ChunkModel>) -> bool {
    forall|q: Pos3|
        #![trigger m1.contains_key(q)]
        #![trigger m0.contains_key(q)]
        m0.contains_key(q) ==> m1.contains_key(q) && m1[q].phase == m0[q].phase && m1[q].spawn == m0[q].spawn
}

/// Whether the 26 chunks around the chunk at `p`, and `p` itself, are cached
/// and past phase one.
pub open spec fn neighbours_settled(m: Map<Pos3, ChunkModel>, p: Pos3) -> bool {
    forall|dx: int, dy: int, dz: int|
        #![trigger grid_pos(grid_of(p).0 + dx, grid_of(p).1 + dy, grid_of(p).2 + dz)]
        -1 <= dx <= 1 && -1 <= dy <= 1 && -1 <= dz <= 1 ==> m.contains_key(
            grid_pos(grid_of(p).0 + dx, grid_of(p).1 + dy, grid_of(p).2 + dz),
        ) && m[grid_pos(grid_of(p).0 + dx, grid_of(p).1 + dy, grid_of(p).2 + dz)].phase
            != GenerationPhase::PhaseOne
}

/// Whether every delivered chunk has its neighbours settled, so that no later
/// phase two can stamp into it.
pub open spec fn done_chunks_settled(m: Map<Pos3, ChunkModel>) -> bool {
    forall|p: Pos3|
        #![trigger m.contains_key(p)]
        m.contains_key(p) && m[p].phase == GenerationPhase::Done ==> neighbours_settled(m, p)
}

/// Updating one chunk keeps delivered chunks settled when no chunk falls back
/// to phase one, no new chunk arrives delivered, and a newly delivered chunk
/// has its neighbours settled.
proof fn lemma_settled_insert(m: Map<Pos3, ChunkModel>, k: Pos3, v: ChunkModel)
    requires
        done_chunks_settled(m),
        m.contains_key(k) && m[k].phase != GenerationPhase::PhaseOne ==> v.phase != GenerationPhase::PhaseOne,
        !m.contains_key(k) ==> v.phase != GenerationPhase::Done,
        v.phase == GenerationPhase::Done && !(m.contains_key(k) && m[k].phase == GenerationPhase::Done)
            ==> neighbours_settled(m, k),
    ensures
        done_chunks_settled(m.insert(k, v)),
{
    let m1 = m.insert(k, v);
    assert forall|p: Pos3|
        #![trigger m1.contains_key(p)]
        m1.contains_key(p) && m1[p].phase == GenerationPhase::Done implies neighbours_settled(m1, p) by {
        assert(neighbours_settled(m, p));
        assert forall|dx: int, dy: int, dz: int|
            #![trigger grid_pos(grid_of(p).0 + dx, grid_of(p).1 + dy, grid_of(p).2 + dz)]
            -1 <= dx <= 1 && -1 <= dy <= 1 && -1 <= dz <= 1 implies m1.contains_key(
                grid_pos(grid_of(p).0 + dx, grid_of(p).1 + dy, grid_of(p).2 + dz),
            ) && m1[grid_pos(grid_of(p).0 + dx, grid_of(p).1 + dy, grid_of(p).2 + dz)].phase
                != GenerationPhase::PhaseOne by {
            let q = grid_pos(grid_of(p).0 + dx, grid_of(p).1 + dy, grid_of(p).2 + dz);
            assert(m.contains_key(q));
        }
    }
}

/// Whether every chunk that `m0` holds as delivered is unchanged in `m1`.
pub open spec fn done_unchanged(m0: Map<Pos3, ChunkModel>, m1: Map<Pos3, ChunkModel>) -> bool {
    forall|q: Pos3|
        #![trigger m0.contains_key(q)]
        m0.contains_key(q) && m0[q].phase == GenerationPhase::Done ==> m1.contains_key(q) && m1[q] == m0[q]
}

/// Whether every block at absolute height 0 of a chunk of `m0` is unchanged in `m1`.
pub open spec fn floor_kept(m0: Map<Pos3, ChunkModel>, m1: Map<Pos3, ChunkModel>) -> bool {
    forall|p: Pos3, x: int, y: int|
        #![trigger m1[p].blocks[block_index(x, y, 0)]]
        m0.contains_key(p) && p.z == 0 && 0 <= x < 32 && 0 <= y < 32 ==> m1.contains_key(p)
            && m1[p].blocks[block_index(x, y, 0)] == m0[p].blocks[block_index(x, y, 0)]
}

/// Writing a block above height 0 leaves the blocks at height 0 alone.
proof fn lemma_write_above_floor(m: Map<Pos3, ChunkModel>, p: Pos3, b: MapBlock)
    requires
        p.z >= 1,
        forall|q: Pos3| #![trigger m.contains_key(q)] m.contains_key(q) ==> m[q].blocks.len() == CHUNK_VOLUME,
    ensures
        floor_kept(m, stamp_block(m, p, b)),
{
    let m1 = stamp_block(m, p, b);
    lemma_floor_div_times(p.z as int);
    assert forall|q: Pos3, x: int, y: int|
        #![trigger m1[q].blocks[block_index(x, y, 0)]]
        m.contains_key(q) && q.z == 0 && 0 <= x < 32 && 0 <= y < 32 implies m1.contains_key(q)
            && m1[q].blocks[block_index(x, y, 0)] == m[q].blocks[block_index(x, y, 0)] by {
        if q == origin_of(p) {
            let (ax, ay, az) = (mod_chunk(p.x as int), mod_chunk(p.y as int), mod_chunk(p.z as int));
            lemma_floor_div_times(p.x as int);
            lemma_floor_div_times(p.y as int);
            assert(floor_div_chunk(p.z as int) * 32 == 0) by (nonlinear_arith)
                requires
                    (floor_div_chunk(p.z as int) * 32) as isize == 0,
                    floor_div_chunk(p.z as int) * 32 <= p.z,
                    p.z <= isize::MAX,
                    p.z >= 1,
            ;
            assert(az != 0);
            assert(block_index(ax, ay, az) != block_index(x, y, 0)) by (nonlinear_arith)
                requires
                    0 <= ax < 32, 0 <= ay < 32, 0 < az < 32, 0 <= x < 32, 0 <= y < 32,
            ;
            lemma_block_index_bounds(ax, ay, az);
            lemma_block_index_bounds(x, y, 0);
            assert(m.contains_key(q));
        }
    }
}

/// The procedural generator: a seed, a cache of chunks keyed by origin, and
/// the tree schematic that phase two stamps.
pub struct MapgenMap {
    seed: u32,
    positions: Vec<Pos3>,
    chunks: Vec<MapChunk>,
    tree: Schematic,
    model: Ghost<Map<Pos3, ChunkModel>>,
}

impl MapgenMap {
    /// The cache, as a map from chunk origin to chunk.
    pub closed spec fn view(&self) -> Map<Pos3, ChunkModel> {
        self.model@
    }

    pub closed spec fn spec_seed(&self) -> u32 {
        self.seed
    }

    pub closed spec fn wf(&self) -> bool {
        &&& self.positions@.len() == self.chunks@.len()
        &&& self.tree.items@ == tree_items()
        &&& forall|i: int, j: int|
            0 <= i < j < self.positions@.len() ==> self.positions@[i] != self.positions@[j]
        &&& forall|i: int|
            0 <= i < self.positions@.len() ==> self.model@.contains_key(#[trigger] self.positions@[i])
                && self.model@[self.positions@[i]] == self.chunks@[i]@
        &&& forall|p: Pos3|
            self.model@.contains_key(p) ==> exists|i: int|
                0 <= i < self.positions@.len() && #[trigger] self.positions@[i] == p
        &&& forall|p: Pos3|
            #![trigger self.model@.contains_key(p)]
            self.model@.contains_key(p) ==> is_chunk_aligned(p) && chunk_model_wf(p, self.model@[p])
        &&& done_chunks_settled(self.model@)
    }

    /// An empty generator for world seed `seed`.
    pub fn new(seed: u32) -> (r: MapgenMap)
        ensures
            r.wf(),
            r.view() == Map::<Pos3, ChunkModel>::empty(),
            r.spec_seed() == seed,
    {
        MapgenMap {
            seed,
            positions: Vec::new(),
            chunks: Vec::new(),
            tree: tree_schematic(),
            model: Ghost(Map::empty()),
        }
    }

    /// The world seed.
    pub fn seed(&self) -> (r: u32)
        ensures
            r == self.spec_seed(),
    {
        self.seed
    }

    /// The slot of the chunk at origin `pos`, if cached.
    fn find(&self, pos: Pos3) -> (r: Option<usize>)
        requires
            self.wf(),
        ensures
            match r {
                Some(i) => i < self.positions@.len() && self.positions@[i as int] == pos,
                None => !self.view().contains_key(pos),
            },
    {
        let mut i: usize = 0;
        while i < self.positions.len()
            invariant
                i <= self.positions@.len(),
                forall|j: int| 0 <= j < i ==> self.positions@[j] != pos,
            decreases self.positions@.len() - i,
        {
            if self.positions[i] == pos {
                return Some(i);
            }
            i = i + 1;
        }
        None
    }

    /// The cached chunk at origin `pos`, if any.
    pub fn get_chunk_p1(&self, pos: Pos3) -> (r: Option<&MapChunk>)
        requires
            self.wf(),
        ensures
            match r {
                Some(c) => self.view().contains_key(pos) && c@ == self.view()[pos] && c.wf(),
                None => !self.view().contains_key(pos),
            },
    {
        match self.find(pos) {
            Some(i) => Some(&self.chunks[i]),
            None => None,
        }
    }

    /// Phase one of the chunk at origin `pos` from its noise samples, unless
    /// the chunk is already cached.
    pub fn gen_chunk_phase_one(&mut self, pos: Pos3, noise: &ChunkNoise)
        requires
            old(self).wf(),
            is_chunk_aligned(pos),
            noise.wf(),
        ensures
            final(self).wf(),
            final(self).spec_seed() == old(self).spec_seed(),
            final(self).view() == if old(self).view().contains_key(pos) {
                old(self).view()
            } else {
                old(self).view().insert(pos, phase_one_model(pos, noise.columns@, noise.draws@))
            },
    {
        match self.find(pos) {
            Some(_) => {},
            None => {
                let c = gen_chunk_phase_one(pos, noise);
                let ghost old_positions = self.positions@;
                self.positions.push(pos);
                self.chunks.push(c);
                self.model = Ghost(self.model@.insert(pos, c@));
                assert forall|p: Pos3| self.model@.contains_key(p) implies exists|i: int|
                    0 <= i < self.positions@.len() && #[trigger] self.positions@[i] == p by {
                    if p != pos {
                        let i = choose|i: int| 0 <= i < old_positions.len() && #[trigger] old_positions[i] == p;
                        assert(self.positions@[i] == p);
                    } else {
                        assert(self.positions@[old_positions.len() as int] == p);
                    }
                }
            },
        }
    }

    /// The block at absolute position `p`, if its chunk is cached.
    pub fn get_blk_p1(&self, p: Pos3) -> (r: Option<MapBlock>)
        requires
            self.wf(),
        ensures
            match r {
                Some(b) => self.view().contains_key(origin_of(p)) && b == self.view()[origin_of(
                    p,
                )].blocks[index_in_owner(p)],
                None => !self.view().contains_key(origin_of(p)),
            },
    {
        let o = chunk_origin_of(p);
        let off = offset_in_chunk(p);
        match self.get_chunk_p1(o) {
            Some(c) => Some(c.get_blk(off)),
            None => None,
        }
    }

    /// Writes block `b` at absolute position `p` into the chunk that owns it;
    /// returns whether that chunk is cached (nothing is written otherwise).
    pub fn set_blk_p1(&mut self, p: Pos3, b: MapBlock) -> (r: bool)
        requires
            old(self).wf(),
        ensures
            final(self).wf(),
            final(self).spec_seed() == old(self).spec_seed(),
            r == old(self).view().contains_key(origin_of(p)),
            final(self).view() == stamp_block(old(self).view(), p, b),
            final(self).view().dom() == old(self).view().dom(),
            phases_kept(old(self).view(), final(self).view()),
            p.z >= 1 ==> floor_kept(old(self).view(), final(self).view()),
    {
        proof {
            if p.z >= 1 {
                lemma_write_above_floor(old(self).view(), p, b);
            }
        }
        let o = chunk_origin_of(p);
        let off = offset_in_chunk(p);
        match self.find(o) {
            None => false,
            Some(i) => {
                let ghost old_chunks = self.chunks@;
                proof {
                    lemma_block_index_bounds(off.x as int, off.y as int, off.z as int);
                }
                let blk = self.chunks[i].get_blk_mut(off);
                *blk = b;
                proof {
                    let c = old_chunks[i as int]@;
                    self.model = Ghost(
                        self.model@.insert(o, ChunkModel { blocks: c.blocks.update(index_in_owner(p), b), ..c }),
                    );
                    assert(self.chunks@[i as int]@ == self.model@[o]);
                    assert(self.model@.dom() =~= old(self).model@.dom());
                    assert(self.positions@ == old(self).positions@);
                    assert forall|q: Pos3|
                        #![trigger self.model@.contains_key(q)]
                        self.model@.contains_key(q) implies is_chunk_aligned(q) && chunk_model_wf(
                        q,
                        self.model@[q],
                    ) by {
                        assert(old(self).model@.contains_key(q));
                        if q == o {
                            assert(self.model@[q].spawn == old(self).model@[q].spawn);
                        }
                    }
                    assert forall|j: int| 0 <= j < self.positions@.len() implies self.model@.contains_key(
                        #[trigger] self.positions@[j],
                    ) && self.model@[self.positions@[j]] == self.chunks@[j]@ by {
                        if j != i {
                            assert(self.chunks@[j] == old_chunks[j]);
                        }
                    }
                }
                true
            },
        }
    }
}

/// Whether stamping `items` at `anchor` stays in machine range.
pub open spec fn stamp_in_range(anchor: Pos3, items: Seq<(Pos3, MapBlock)>) -> bool {
    forall|i: int|
        0 <= i < items.len() ==> isize::MIN <= anchor.x + (#[trigger] items[i]).0.x <= isize::MAX
            && isize::MIN <= anchor.y + items[i].0.y <= isize::MAX && isize::MIN <= anchor.z
            + items[i].0.z <= isize::MAX
}

/// The absolute position that item `i` of a schematic anchored at `anchor` writes.
pub open spec fn item_target(anchor: Pos3, items: Seq<(Pos3, MapBlock)>, i: int) -> Pos3 {
    offset_pos(anchor, items[i].0)
}

/// The chunk origins that the first `k` items of a schematic anchored at
/// `anchor` write into.
pub open spec fn stamp_targets(anchor: Pos3, items: Seq<(Pos3, MapBlock)>, k: int) -> Set<Pos3> {
    Set::new(|o: Pos3| exists|i: int| 0 <= i < k && o == origin_of(#[trigger] item_target(anchor, items, i)))
}

/// Whether item `i` is the last of the first `k` items to write its position.
pub open spec fn last_writer(anchor: Pos3, items: Seq<(Pos3, MapBlock)>, i: int, k: int) -> bool {
    forall|j: int| i < j < k ==> #[trigger] item_target(anchor, items, j) != item_target(anchor, items, i)
}

/// Whether `m1` is `m0` with chunks added by phase one at the origins `keys`
/// that `m0` lacks, each made from what `sample` gave for it.
pub open spec fn phase_one_added<F: Fn(Pos3) -> ChunkNoise>(
    m0: Map<Pos3, ChunkModel>,
    m1: Map<Pos3, ChunkModel>,
    sample: F,
    keys: Set<Pos3>,
) -> bool {
    &&& forall|q: Pos3|
        #![trigger m1.contains_key(q)]
        m1.contains_key(q) <==> m0.contains_key(q) || keys.contains(q)
    &&& forall|q: Pos3| #![trigger m0.contains_key(q)] m0.contains_key(q) ==> m1[q] == m0[q]
    &&& forall|q: Pos3|
        #![trigger m1.contains_key(q)]
        m1.contains_key(q) && !m0.contains_key(q) ==> exists|n: ChunkNoise|
            sample.ensures((q,), n) && #[trigger] phase_one_model(q, n.columns@, n.draws@) == m1[q]
}

/// Different positions are different blocks: they differ in owning chunk or
/// in index within it.
proof fn lemma_block_slot_injective(p: Pos3, q: Pos3)
    requires
        p != q,
    ensures
        origin_of(p) != origin_of(q) || index_in_owner(p) != index_in_owner(q),
{
    lemma_floor_div_times(p.x as int);
    lemma_floor_div_times(p.y as int);
    lemma_floor_div_times(p.z as int);
    lemma_floor_div_times(q.x as int);
    lemma_floor_div_times(q.y as int);
    lemma_floor_div_times(q.z as int);
    if origin_of(p) == origin_of(q) && index_in_owner(p) == index_in_owner(q) {
        let (ax, ay, az) = (mod_chunk(p.x as int), mod_chunk(p.y as int), mod_chunk(p.z as int));
        let (bx, by, bz) = (mod_chunk(q.x as int), mod_chunk(q.y as int), mod_chunk(q.z as int));
        assert(ax == bx && ay == by && az == bz) by (nonlinear_arith)
            requires
                0 <= ax < 32, 0 <= ay < 32, 0 <= az < 32,
                0 <= bx < 32, 0 <= by < 32, 0 <= bz < 32,
                ax * 1024 + ay * 32 + az == bx * 1024 + by * 32 + bz,
        ;
        assert(floor_div_chunk(p.x as int) == floor_div_chunk(q.x as int));
        assert(floor_div_chunk(p.y as int) == floor_div_chunk(q.y as int));
        assert(floor_div_chunk(p.z as int) == floor_div_chunk(q.z as int));
    }
}

/// Stamps `schematic` with its anchor at `pos`. Every chunk that a target
/// position falls into is first generated to phase one if it is not cached
/// (its noise taken from `sample`); then each item overwrites the block at
/// `pos` plus its offset, in order, so the last item aimed at a position wins.
pub fn spawn_schematic_mapgen<F: Fn(Pos3) -> ChunkNoise>(
    map: &mut MapgenMap,
    pos: Pos3,
    schematic: &Schematic,
    sample: &F,
)
    requires
        old(map).wf(),
        stamp_in_range(pos, schematic.items@),
        forall|p: Pos3| is_chunk_aligned(p) ==> sample.requires((p,)),
        forall|p: Pos3, n: ChunkNoise| sample.ensures((p,), n) ==> n.wf(),
    ensures
        final(map).wf(),
        final(map).spec_seed() == old(map).spec_seed(),
        exists|m1: Map<Pos3, ChunkModel>|
            {
                &&& phase_one_added(
                    old(map).view(),
                    m1,
                    *sample,
                    stamp_targets(pos, schematic.items@, schematic.items@.len() as int),
                )
                &&& #[trigger] stamp_prefix(m1, pos, schematic.items@, schematic.items@.len() as int)
                    == final(map).view()
            },
        forall|i: int|
            0 <= i < schematic.items@.len() ==> final(map).view().contains_key(
                origin_of(#[trigger] item_target(pos, schematic.items@, i)),
            ),
        forall|i: int|
            0 <= i < schematic.items@.len() && last_writer(pos, schematic.items@, i, schematic.items@.len() as int)
                ==> final(map).view()[origin_of(#[trigger] item_target(pos, schematic.items@, i))].blocks[index_in_owner(
                item_target(pos, schematic.items@, i),
            )] == schematic.items@[i].1,
{
    let ghost items = schematic.items@;
    let ghost m0 = map.view();
    let mut k: usize = 0;
    while k < schematic.items.len()
        invariant
            k <= items.len(),
            items == schematic.items@,
            map.wf(),
            map.spec_seed() == old(map).spec_seed(),
            m0 == old(map).view(),
            stamp_in_range(pos, items),
            forall|p: Pos3| is_chunk_aligned(p) ==> sample.requires((p,)),
            forall|p: Pos3, n: ChunkNoise| sample.ensures((p,), n) ==> n.wf(),
            phase_one_added(m0, map.view(), *sample, stamp_targets(pos, items, k as int)),
        decreases items.len() - k,
    {
        let (off, _) = schematic.items[k];
        let target = Pos3 { x: pos.x + off.x, y: pos.y + off.y, z: pos.z + off.z };
        let o = chunk_origin_of(target);
        let ghost before = map.view();
        assert(target == item_target(pos, items, k as int));
        assert(o == origin_of(target));
        if map.get_chunk_p1(o).is_none() {
            let n = sample(o);
            map.gen_chunk_phase_one(o, &n);
            proof {
                assert(phase_one_model(o, n.columns@, n.draws@) == map.view()[o]);
            }
        }
        proof {
            let keys = stamp_targets(pos, items, k + 1);
            let old_keys = stamp_targets(pos, items, k as int);
            assert forall|q: Pos3| #[trigger] keys.contains(q) <==> old_keys.contains(q) || q == o by {
                if keys.contains(q) && q != o {
                    let i = choose|i: int| 0 <= i < k + 1 && q == origin_of(#[trigger] item_target(pos, items, i));
                    assert(i < k);
                    assert(old_keys.contains(q));
                }
                if old_keys.contains(q) {
                    let i = choose|i: int| 0 <= i < k && q == origin_of(#[trigger] item_target(pos, items, i));
                    assert(keys.contains(q));
                }
                if q == o {
                    assert(keys.contains(q));
                }
            }
            let m = map.view();
            assert forall|q: Pos3|
                #![trigger m.contains_key(q)]
                m.contains_key(q) && !m0.contains_key(q) implies exists|n: ChunkNoise|
                    sample.ensures((q,), n) && #[trigger] phase_one_model(q, n.columns@, n.draws@) == m[q] by {
                if !before.contains_key(q) {
                    assert(q == o);
                } else {
                    assert(before.contains_key(q) && !m0.contains_key(q));
                }
            }
            assert forall|q: Pos3| #![trigger m0.contains_key(q)] m0.contains_key(q) implies m[q] == m0[q] by {
                assert(before.contains_key(q));
            }
        }
        k = k + 1;
    }
    let ghost m1 = map.view();
    let mut k: usize = 0;
    while k < schematic.items.len()
        invariant
            k <= items.len(),
            items == schematic.items@,
            map.wf(),
            map.spec_seed() == old(map).spec_seed(),
            stamp_in_range(pos, items),
            phase_one_added(m0, m1, *sample, stamp_targets(pos, items, items.len() as int)),
            map.view() == stamp_prefix(m1, pos, items, k as int),
            map.view().dom() == m1.dom(),
            forall|i: int|
                0 <= i < k && last_writer(pos, items, i, k as int) ==> map.view()[origin_of(
                    #[trigger] item_target(pos, items, i),
                )].blocks[index_in_owner(item_target(pos, items, i))] == items[i].1,
        decreases items.len() - k,
    {
        let (off, b) = schematic.items[k];
        let target = Pos3 { x: pos.x + off.x, y: pos.y + off.y, z: pos.z + off.z };
        let ghost before = map.view();
        proof {
            assert(target == item_target(pos, items, k as int));
            assert(stamp_targets(pos, items, items.len() as int).contains(origin_of(target)));
            assert(m1.contains_key(origin_of(target)));
        }
        map.set_blk_p1(target, b);
        proof {
            lemma_floor_div_times(target.x as int);
            lemma_floor_div_times(target.y as int);
            lemma_floor_div_times(target.z as int);
            lemma_block_index_bounds(mod_chunk(target.x as int), mod_chunk(target.y as int), mod_chunk(target.z as int));
            assert forall|i: int|
                0 <= i < k + 1 && last_writer(pos, items, i, k + 1) implies map.view()[origin_of(
                    #[trigger] item_target(pos, items, i),
                )].blocks[index_in_owner(item_target(pos, items, i))] == items[i].1 by {
                if i < k {
                    let t = item_target(pos, items, i);
                    assert(item_target(pos, items, k as int) != t);
                    assert(last_writer(pos, items, i, k as int));
                    lemma_block_slot_injective(target, t);
                    lemma_floor_div_times(t.x as int);
                    lemma_floor_div_times(t.y as int);
                    lemma_floor_div_times(t.z as int);
                    lemma_block_index_bounds(mod_chunk(t.x as int), mod_chunk(t.y as int), mod_chunk(t.z as int));
                }
            }
        }
        k = k + 1;
    }
    proof {
        assert forall|i: int| 0 <= i < items.len() implies map.view().contains_key(
            origin_of(#[trigger] item_target(pos, items, i)),
        ) by {
            assert(stamp_targets(pos, items, items.len() as int).contains(origin_of(item_target(pos, items, i))));
        }
    }
}

/// A tree stamped from a chunk still in phase one never writes into a
/// delivered chunk: a delivered chunk's neighbours are all past phase one.
proof fn lemma_tree_misses_done(
    m0: Map<Pos3, ChunkModel>,
    m1: Map<Pos3, ChunkModel>,
    v: Map<Pos3, ChunkModel>,
    pos: Pos3,
    p: Pos3,
)
    requires
        done_chunks_settled(m0),
        forall|q: Pos3| #![trigger m0.contains_key(q)] m0.contains_key(q) ==> is_chunk_aligned(q),
        m0.contains_key(pos),
        m0[pos].phase == GenerationPhase::PhaseOne,
        is_chunk_aligned(pos),
        grid_coord_safe(floor_div_chunk(pos.x as int)),
        grid_coord_safe(floor_div_chunk(pos.y as int)),
        grid_coord_safe(floor_div_chunk(pos.z as int)),
        spawn_point_in_chunk(pos, p),
        m1.dom() == m0.dom(),
        m1[pos].phase == GenerationPhase::PhaseTwo,
        forall|q: Pos3| #![trigger m1.contains_key(q)] m1.contains_key(q) && q != pos ==> m1[q].phase == m0[q].phase,
        phases_kept(m1, v),
        v.dom() == m0.dom(),
        stamp_in_range(p, tree_items()),
    ensures
        forall|t: int|
            0 <= t < tree_items().len() && v.contains_key(origin_of(#[trigger] item_target(p, tree_items(), t)))
                ==> v[origin_of(item_target(p, tree_items(), t))].phase != GenerationPhase::Done,
{
    assert forall|t: int|
        0 <= t < tree_items().len() && v.contains_key(origin_of(#[trigger] item_target(p, tree_items(), t)))
            implies v[origin_of(item_target(p, tree_items(), t))].phase != GenerationPhase::Done by {
        let o = origin_of(item_target(p, tree_items(), t));
        if v[o].phase == GenerationPhase::Done {
            lemma_tree_offsets_small(t);
            lemma_floor_div_times(pos.x as int);
            lemma_floor_div_times(pos.y as int);
            lemma_floor_div_times(pos.z as int);
            let tg = item_target(p, tree_items(), t);
            lemma_floor_div_near(tg.x as int, floor_div_chunk(pos.x as int), 1, 32);
            lemma_floor_div_near(tg.y as int, floor_div_chunk(pos.y as int), 1, 32);
            lemma_floor_div_near(tg.z as int, floor_div_chunk(pos.z as int), 0, 36);
            assert(m1.contains_key(o));
            assert(m0.contains_key(o));
            assert(o != pos);
            assert(m0[o].phase == GenerationPhase::Done);
            assert(neighbours_settled(m0, o));
            lemma_aligned_grid(o);
            lemma_aligned_grid(pos);
            let dx = floor_div_chunk(pos.x as int) - grid_of(o).0;
            let dy = floor_div_chunk(pos.y as int) - grid_of(o).1;
            let dz = floor_div_chunk(pos.z as int) - grid_of(o).2;
            assert(grid_pos(grid_of(o).0 + dx, grid_of(o).1 + dy, grid_of(o).2 + dz) == pos);
            assert(m0[pos].phase != GenerationPhase::PhaseOne);
        }
    }
}

impl MapgenMap {
    /// Stamps a tree with its trunk's foot at `pos`.
    fn spawn_tree_mapgen(&mut self, pos: Pos3)
        requires
            old(self).wf(),
            stamp_in_range(pos, tree_items()),
            forall|t: int|
                0 <= t < tree_items().len() && old(self).view().contains_key(
                    origin_of(#[trigger] item_target(pos, tree_items(), t)),
                ) ==> old(self).view()[origin_of(item_target(pos, tree_items(), t))].phase != GenerationPhase::Done,
        ensures
            done_unchanged(old(self).view(), final(self).view()),
            pos.z >= 1 ==> floor_kept(old(self).view(), final(self).view()),
            final(self).wf(),
            final(self).spec_seed() == old(self).spec_seed(),
            final(self).view() == stamp_prefix(old(self).view(), pos, tree_items(), tree_items().len() as int),
            final(self).view().dom() == old(self).view().dom(),
            phases_kept(old(self).view(), final(self).view()),
    {
        let mut k: usize = 0;
        while k < self.tree.items.len()
            invariant
                k <= tree_items().len(),
                self.wf(),
                self.spec_seed() == old(self).spec_seed(),
                stamp_in_range(pos, tree_items()),
                self.view() == stamp_prefix(old(self).view(), pos, tree_items(), k as int),
                self.view().dom() == old(self).view().dom(),
                phases_kept(old(self).view(), self.view()),
                done_unchanged(old(self).view(), self.view()),
                pos.z >= 1 ==> floor_kept(old(self).view(), self.view()),
                forall|t: int|
                    0 <= t < tree_items().len() && old(self).view().contains_key(
                        origin_of(#[trigger] item_target(pos, tree_items(), t)),
                    ) ==> old(self).view()[origin_of(item_target(pos, tree_items(), t))].phase != GenerationPhase::Done,
            decreases tree_items().len() - k,
        {
            let (off, b) = self.tree.items[k];
            let target = Pos3 { x: pos.x + off.x, y: pos.y + off.y, z: pos.z + off.z };
            assert(target == item_target(pos, tree_items(), k as int));
            let ghost before = self.view();
            proof {
                lemma_tree_offsets_small(k as int);
            }
            self.set_blk_p1(target, b);
            proof {
                if pos.z >= 1 {
                    let v = self.view();
                    assert forall|q: Pos3, x: int, y: int|
                        #![trigger v[q].blocks[block_index(x, y, 0)]]
                        old(self).view().contains_key(q) && q.z == 0 && 0 <= x < 32 && 0 <= y < 32 implies v.contains_key(q)
                            && v[q].blocks[block_index(x, y, 0)] == old(self).view()[q].blocks[block_index(x, y, 0)] by {
                        assert(before[q].blocks[block_index(x, y, 0)] == old(self).view()[q].blocks[block_index(x, y, 0)]);
                    }
                }
            }
            k = k + 1;
        }
    }

    /// Phase two of the cached chunk at `pos`: done once per chunk; it drains
    /// the chunk's pending spawn points and stamps a tree at each.
    #[verifier::rlimit(40)]
    fn gen_chunk_phase_two(&mut self, pos: Pos3)
        requires
            old(self).wf(),
            old(self).view().contains_key(pos),
            grid_coord_safe(floor_div_chunk(pos.x as int)),
            grid_coord_safe(floor_div_chunk(pos.y as int)),
            grid_coord_safe(floor_div_chunk(pos.z as int)),
        ensures
            final(self).wf(),
            final(self).spec_seed() == old(self).spec_seed(),
            final(self).view() == phase_two(old(self).view(), pos),
            final(self).view().dom() == old(self).view().dom(),
            final(self).view()[pos].phase != GenerationPhase::PhaseOne,
            done_unchanged(old(self).view(), final(self).view()),
            floor_kept(old(self).view(), final(self).view()),
            forall|q: Pos3|
                #![trigger final(self).view().contains_key(q)]
                old(self).view().contains_key(q) && q != pos ==> final(self).view()[q].phase == old(
                    self,
                ).view()[q].phase,
    {
        let i = match self.find(pos) {
            Some(i) => i,
            None => {
                return;
            },
        };
        if self.chunks[i].generation_phase != GenerationPhase::PhaseOne {
            return;
        }
        let ghost m0 = self.model@;
        let ghost old_chunks = self.chunks@;
        let mut points: Vec<Pos3> = Vec::new();
        std::mem::swap(&mut points, &mut self.chunks[i].tree_spawn_points);
        self.chunks[i].generation_phase = GenerationPhase::PhaseTwo;
        proof {
            let c = m0[pos];
            self.model = Ghost(
                m0.insert(pos, ChunkModel { phase: GenerationPhase::PhaseTwo, spawn: Seq::empty(), ..c }),
            );
            assert(self.chunks@[i as int]@ == self.model@[pos]);
            assert(self.model@.dom() =~= m0.dom());
            assert forall|j: int| 0 <= j < self.positions@.len() implies self.model@.contains_key(
                #[trigger] self.positions@[j],
            ) && self.model@[self.positions@[j]] == self.chunks@[j]@ by {
                if j != i {
                    assert(self.chunks@[j] == old_chunks[j]);
                }
            }
            assert forall|q: Pos3|
                #![trigger self.model@.contains_key(q)]
                self.model@.contains_key(q) implies is_chunk_aligned(q) && chunk_model_wf(
                q,
                self.model@[q],
            ) by {
                assert(m0.contains_key(q));
            }
            assert(points@ == c.spawn);
            assert(self.positions@.len() == self.chunks@.len());
            assert(self.tree.items@ == tree_items());
            assert forall|p: Pos3| self.model@.contains_key(p) implies exists|j: int|
                0 <= j < self.positions@.len() && #[trigger] self.positions@[j] == p by {
                assert(m0.contains_key(p));
            }
            lemma_floor_div_times(pos.x as int);
            lemma_floor_div_times(pos.y as int);
            lemma_floor_div_times(pos.z as int);
        }
        let ghost m1 = self.model@;
        let mut k: usize = 0;
        while k < points.len()
            invariant
                k <= points@.len(),
                self.wf(),
                self.spec_seed() == old(self).spec_seed(),
                m0.contains_key(pos),
                points@ == m0[pos].spawn,
                chunk_model_wf(pos, m0[pos]),
                is_chunk_aligned(pos),
                grid_coord_safe(floor_div_chunk(pos.x as int)),
                grid_coord_safe(floor_div_chunk(pos.y as int)),
                grid_coord_safe(floor_div_chunk(pos.z as int)),
                self.view().dom() == m0.dom(),
                phases_kept(m1, self.view()),
                m1.contains_key(pos) && m1[pos].phase == GenerationPhase::PhaseTwo,
                done_unchanged(m0, self.view()),
                floor_kept(m0, self.view()),
                m0[pos].phase == GenerationPhase::PhaseOne,
                m1.dom() == m0.dom(),
                done_chunks_settled(m0),
                forall|q: Pos3| #![trigger m0.contains_key(q)] m0.contains_key(q) ==> is_chunk_aligned(q),
                forall|q: Pos3| #![trigger m1.contains_key(q)] m1.contains_key(q) && q != pos ==> m1[q].phase == m0[q].phase,
                pos.x as int == floor_div_chunk(pos.x as int) * 32,
                pos.y as int == floor_div_chunk(pos.y as int) * 32,
                pos.z as int == floor_div_chunk(pos.z as int) * 32,
                self.view() == stamp_trees(m1, points@, k as int),
            decreases points@.len() - k,
        {
            let p = points[k];
            proof {
                assert(spawn_point_in_chunk(pos, points@[k as int]));
                assert forall|t: int| 0 <= t < tree_items().len() implies isize::MIN <= p.x + (
                #[trigger] tree_items()[t]).0.x <= isize::MAX && isize::MIN <= p.y + tree_items()[t].0.y
                    <= isize::MAX && isize::MIN <= p.z + tree_items()[t].0.z <= isize::MAX by {
                    lemma_tree_offsets_small(t);
                }
                lemma_tree_misses_done(m0, m1, self.view(), pos, p);
                assert(p.z >= 1);
            }
            let ghost before = self.view();
            self.spawn_tree_mapgen(p);
            proof {
                let v = self.view();
                assert forall|q: Pos3, x: int, y: int|
                    #![trigger v[q].blocks[block_index(x, y, 0)]]
                    m0.contains_key(q) && q.z == 0 && 0 <= x < 32 && 0 <= y < 32 implies v.contains_key(q)
                        && v[q].blocks[block_index(x, y, 0)] == m0[q].blocks[block_index(x, y, 0)] by {
                    assert(before[q].blocks[block_index(x, y, 0)] == m0[q].blocks[block_index(x, y, 0)]);
                }
            }
            k = k + 1;
        }
    }
}

/// Whether grid coordinate `g` comes before `cur` in visiting order: by `x`,
/// then `y`, then `z`.
pub open spec fn lex_before(g: (int, int, int), cur: (int, int, int)) -> bool {
    g.0 < cur.0 || (g.0 == cur.0 && g.1 < cur.1) || (g.0 == cur.0 && g.1 == cur.1 && g.2 < cur.2)
}

/// The grid coordinate triple as integers.
pub open spec fn grid_int(t: (isize, isize, isize)) -> (int, int, int) {
    (t.0 as int, t.1 as int, t.2 as int)
}

/// The cache after delivery: every chunk of the grid box is marked done.
pub open spec fn mark_done(m: Map<Pos3, ChunkModel>, lo: (int, int, int), hi: (int, int, int)) -> Map<
    Pos3,
    ChunkModel,
> {
    Map::new(
        |p: Pos3| m.contains_key(p),
        |p: Pos3|
            if in_grid_box(grid_of(p), lo, hi) {
                ChunkModel { phase: GenerationPhase::Done, ..m[p] }
            } else {
                m[p]
            },
    )
}

/// The grid box that phase two covers: the requested box padded by one chunk.
pub open spec fn phase_two_area(m: Map<Pos3, ChunkModel>, lo: (int, int, int), hi: (int, int, int)) -> Map<
    Pos3,
    ChunkModel,
> {
    phase_two_box(m, lo.0 - 1, hi.0 + 1, lo.1 - 1, hi.1 + 1, lo.2 - 1, hi.2 + 1)
}

proof fn lemma_grid_pos_round_trip(gx: int, gy: int, gz: int)
    requires
        grid_coord_safe(gx),
        grid_coord_safe(gy),
        grid_coord_safe(gz),
    ensures
        grid_of(grid_pos(gx, gy, gz)) == (gx, gy, gz),
        is_chunk_aligned(grid_pos(gx, gy, gz)),
        grid_pos(gx, gy, gz).x == gx * 32,
        grid_pos(gx, gy, gz).y == gy * 32,
        grid_pos(gx, gy, gz).z == gz * 32,
{
    assert((gx * 32) / 32 == gx && (gx * 32) % 32 == 0) by (nonlinear_arith);
    assert((gy * 32) / 32 == gy && (gy * 32) % 32 == 0) by (nonlinear_arith);
    assert((gz * 32) / 32 == gz && (gz * 32) % 32 == 0) by (nonlinear_arith);
    assert(isize::MIN <= gx * 32 <= isize::MAX) by (nonlinear_arith)
        requires
            grid_coord_safe(gx),
    ;
    assert(isize::MIN <= gy * 32 <= isize::MAX) by (nonlinear_arith)
        requires
            grid_coord_safe(gy),
    ;
    assert(isize::MIN <= gz * 32 <= isize::MAX) by (nonlinear_arith)
        requires
            grid_coord_safe(gz),
    ;
}

/// An aligned chunk origin is the grid position of its grid coordinate.
proof fn lemma_aligned_grid(p: Pos3)
    requires
        is_chunk_aligned(p),
    ensures
        grid_pos(grid_of(p).0, grid_of(p).1, grid_of(p).2) == p,
{
    lemma_floor_div_times(p.x as int);
    lemma_floor_div_times(p.y as int);
    lemma_floor_div_times(p.z as int);
}

impl MapgenMap {
    /// Whether every chunk of the grid box `lo ..= hi` is cached and delivered.
    fn area_is_done(&self, lo: (isize, isize, isize), hi: (isize, isize, isize)) -> (r: bool)
        requires
            self.wf(),
            grid_coord_ok(lo.0 as int),
            grid_coord_ok(lo.1 as int),
            grid_coord_ok(lo.2 as int),
            grid_coord_ok(hi.0 as int),
            grid_coord_ok(hi.1 as int),
            grid_coord_ok(hi.2 as int),
        ensures
            r == area_done(self.view(), grid_int(lo), grid_int(hi)),
    {
        let ghost m = self.view();
        let mut x: isize = lo.0;
        while x <= hi.0
            invariant
                lo.0 <= x <= hi.0 + 1 || (x == lo.0 && lo.0 > hi.0),
                self.wf(),
                m == self.view(),
                grid_coord_ok(lo.0 as int),
                grid_coord_ok(lo.1 as int),
                grid_coord_ok(lo.2 as int),
                grid_coord_ok(hi.0 as int),
                grid_coord_ok(hi.1 as int),
                grid_coord_ok(hi.2 as int),
                forall|gx: int, gy: int, gz: int|
                    #![trigger grid_pos(gx, gy, gz)]
                    in_grid_box((gx, gy, gz), grid_int(lo), grid_int(hi)) && gx < x ==> m.contains_key(
                        grid_pos(gx, gy, gz),
                    ) && m[grid_pos(gx, gy, gz)].phase == GenerationPhase::Done,
            decreases hi.0 + 1 - x,
        {
            let mut y: isize = lo.1;
            while y <= hi.1
                invariant
                    lo.0 <= x <= hi.0,
                    lo.1 <= y <= hi.1 + 1 || (y == lo.1 && lo.1 > hi.1),
                    self.wf(),
                    m == self.view(),
                    grid_coord_ok(lo.0 as int),
                    grid_coord_ok(lo.1 as int),
                    grid_coord_ok(lo.2 as int),
                    grid_coord_ok(hi.0 as int),
                    grid_coord_ok(hi.1 as int),
                    grid_coord_ok(hi.2 as int),
                    forall|gx: int, gy: int, gz: int|
                        #![trigger grid_pos(gx, gy, gz)]
                        in_grid_box((gx, gy, gz), grid_int(lo), grid_int(hi)) && (gx < x || (gx == x
                            && gy < y)) ==> m.contains_key(grid_pos(gx, gy, gz)) && m[grid_pos(
                            gx,
                            gy,
                            gz,
                        )].phase == GenerationPhase::Done,
                decreases hi.1 + 1 - y,
            {
                let mut z: isize = lo.2;
                while z <= hi.2
                    invariant
                        lo.0 <= x <= hi.0,
                        lo.1 <= y <= hi.1,
                        lo.2 <= z <= hi.2 + 1 || (z == lo.2 && lo.2 > hi.2),
                        self.wf(),
                        m == self.view(),
                        grid_coord_ok(lo.0 as int),
                        grid_coord_ok(lo.1 as int),
                        grid_coord_ok(lo.2 as int),
                        grid_coord_ok(hi.0 as int),
                        grid_coord_ok(hi.1 as int),
                        grid_coord_ok(hi.2 as int),
                        forall|gx: int, gy: int, gz: int|
                            #![trigger grid_pos(gx, gy, gz)]
                            in_grid_box((gx, gy, gz), grid_int(lo), grid_int(hi)) && lex_before(
                                (gx, gy, gz),
                                (x as int, y as int, z as int),
                            ) ==> m.contains_key(grid_pos(gx, gy, gz)) && m[grid_pos(
                                gx,
                                gy,
                                gz,
                            )].phase == GenerationPhase::Done,
                    decreases hi.2 + 1 - z,
                {
                    proof {
                        lemma_grid_pos_round_trip(x as int, y as int, z as int);
                    }
                    let pos = Pos3 { x: x * CHUNKSIZE, y: y * CHUNKSIZE, z: z * CHUNKSIZE };
                    assert(pos == grid_pos(x as int, y as int, z as int));
                    match self.find(pos) {
                        None => {
                            return false;
                        },
                        Some(i) => {
                            if self.chunks[i].generation_phase != GenerationPhase::Done {
                                return false;
                            }
                        },
                    }
                    z = z + 1;
                }
                y = y + 1;
            }
            x = x + 1;
        }
        true
    }

    /// Marks the chunk in slot `i` as delivered.
    fn mark_slot_done(&mut self, i: usize)
        requires
            old(self).wf(),
            i < old(self).positions@.len(),
            old(self).view()[old(self).positions@[i as int]].phase != GenerationPhase::PhaseOne,
            neighbours_settled(old(self).view(), old(self).positions@[i as int]),
        ensures
            final(self).wf(),
            final(self).spec_seed() == old(self).spec_seed(),
            final(self).positions@ == old(self).positions@,
            final(self).view() == old(self).view().insert(
                old(self).positions@[i as int],
                ChunkModel {
                    phase: GenerationPhase::Done,
                    ..old(self).view()[old(self).positions@[i as int]]
                },
            ),
    {
        let ghost m0 = self.model@;
        let ghost old_chunks = self.chunks@;
        let ghost pos = self.positions@[i as int];
        self.chunks[i].generation_phase = GenerationPhase::Done;
        proof {
            let c = m0[pos];
            lemma_settled_insert(m0, pos, ChunkModel { phase: GenerationPhase::Done, ..c });
            self.model = Ghost(m0.insert(pos, ChunkModel { phase: GenerationPhase::Done, ..c }));
            assert(self.model@.dom() =~= m0.dom());
            assert forall|j: int| 0 <= j < self.positions@.len() implies self.model@.contains_key(
                #[trigger] self.positions@[j],
            ) && self.model@[self.positions@[j]] == self.chunks@[j]@ by {
                if j != i {
                    assert(self.chunks@[j] == old_chunks[j]);
                }
            }
            assert forall|q: Pos3|
                #![trigger self.model@.contains_key(q)]
                self.model@.contains_key(q) implies is_chunk_aligned(q) && chunk_model_wf(
                q,
                self.model@[q],
            ) by {
                assert(m0.contains_key(q));
            }
            assert forall|p: Pos3| self.model@.contains_key(p) implies exists|j: int|
                0 <= j < self.positions@.len() && #[trigger] self.positions@[j] == p by {
                assert(m0.contains_key(p));
                let j = choose|j: int| 0 <= j < old(self).positions@.len() && #[trigger] old(self).positions@[j] == p;
                assert(self.positions@[j] == p);
            }
        }
    }
}

/// Whether `r` lists each chunk of the grid box that `m` has not marked done,
/// once, and nothing else.
pub open spec fn delivered_exactly(
    r: Seq<Pos3>,
    m: Map<Pos3, ChunkModel>,
    lo: (int, int, int),
    hi: (int, int, int),
) -> bool {
    &&& forall|j: int|
        0 <= j < r.len() ==> in_grid_box(grid_of(#[trigger] r[j]), lo, hi) && is_chunk_aligned(r[j])
            && m.contains_key(r[j]) && m[r[j]].phase != GenerationPhase::Done
    &&& forall|gx: int, gy: int, gz: int|
        #![trigger grid_pos(gx, gy, gz)]
        in_grid_box((gx, gy, gz), lo, hi) && m.contains_key(grid_pos(gx, gy, gz)) && m[grid_pos(
            gx,
            gy,
            gz,
        )].phase != GenerationPhase::Done ==> r.contains(grid_pos(gx, gy, gz))
    &&& r.no_duplicates()
    &&& forall|i: int, j: int|
        0 <= i < j < r.len() ==> lex_before(grid_of(#[trigger] r[i]), grid_of(#[trigger] r[j]))
}

/// Whether every cached chunk of the grid box that comes before `cur` in
/// visiting order is past phase one.
pub open spec fn past_phase_one_before(
    m: Map<Pos3, ChunkModel>,
    lo: (int, int, int),
    hi: (int, int, int),
    cur: (int, int, int),
) -> bool {
    forall|gx: int, gy: int, gz: int|
        #![trigger grid_pos(gx, gy, gz)]
        in_grid_box((gx, gy, gz), lo, hi) && lex_before((gx, gy, gz), cur) && m.contains_key(grid_pos(gx, gy, gz))
            ==> m[grid_pos(gx, gy, gz)].phase != GenerationPhase::PhaseOne
}

/// Whether every cached chunk of the grid box is past phase one.
pub open spec fn past_phase_one(m: Map<Pos3, ChunkModel>, lo: (int, int, int), hi: (int, int, int)) -> bool {
    forall|gx: int, gy: int, gz: int|
        #![trigger grid_pos(gx, gy, gz)]
        in_grid_box((gx, gy, gz), lo, hi) && m.contains_key(grid_pos(gx, gy, gz)) ==> m[grid_pos(
            gx,
            gy,
            gz,
        )].phase != GenerationPhase::PhaseOne
}

/// Whether every chunk of the grid box is cached, past phase one, and has no
/// pending spawn points.
pub open spec fn area_settled(m: Map<Pos3, ChunkModel>, lo: (int, int, int), hi: (int, int, int)) -> bool {
    forall|gx: int, gy: int, gz: int|
        #![trigger grid_pos(gx, gy, gz)]
        in_grid_box((gx, gy, gz), lo, hi) ==> m.contains_key(grid_pos(gx, gy, gz)) && m[grid_pos(
            gx,
            gy,
            gz,
        )].phase != GenerationPhase::PhaseOne && m[grid_pos(gx, gy, gz)].spawn.len() == 0
}

/// Whether every coordinate of the grid box `lo ..= hi` is safe.
pub open spec fn grid_box_safe(lo: (int, int, int), hi: (int, int, int)) -> bool {
    grid_coord_safe(lo.0) && grid_coord_safe(lo.1) && grid_coord_safe(lo.2) && grid_coord_safe(hi.0)
        && grid_coord_safe(hi.1) && grid_coord_safe(hi.2)
}

impl MapgenMap {
    /// Phase two over every chunk of the grid box `lo ..= hi`, `x` outermost.
    fn phase_two_over(&mut self, lo: (isize, isize, isize), hi: (isize, isize, isize))
        requires
            old(self).wf(),
            grid_box_safe(grid_int(lo), grid_int(hi)),
            area_present(old(self).view(), grid_int(lo), grid_int(hi)),
        ensures
            final(self).wf(),
            final(self).spec_seed() == old(self).spec_seed(),
            final(self).view() == phase_two_box(
                old(self).view(),
                lo.0 as int,
                hi.0 as int,
                lo.1 as int,
                hi.1 as int,
                lo.2 as int,
                hi.2 as int,
            ),
            final(self).view().dom() == old(self).view().dom(),
            past_phase_one(final(self).view(), grid_int(lo), grid_int(hi)),
            done_unchanged(old(self).view(), final(self).view()),
            floor_kept(old(self).view(), final(self).view()),
    {
        let ghost m0 = self.view();
        let ghost target = phase_two_box(m0, lo.0 as int, hi.0 as int, lo.1 as int, hi.1 as int, lo.2 as int, hi.2 as int);
        let mut x: isize = lo.0;
        while x <= hi.0
            invariant
                lo.0 <= x <= hi.0 + 1 || (x == lo.0 && lo.0 > hi.0),
                self.wf(),
                self.spec_seed() == old(self).spec_seed(),
                self.view().dom() == m0.dom(),
                done_unchanged(m0, self.view()),
                floor_kept(m0, self.view()),
                grid_box_safe(grid_int(lo), grid_int(hi)),
                area_present(m0, grid_int(lo), grid_int(hi)),
                past_phase_one_before(self.view(), grid_int(lo), grid_int(hi), (x as int, lo.1 as int, lo.2 as int)),
                target == phase_two_box(self.view(), x as int, hi.0 as int, lo.1 as int, hi.1 as int, lo.2 as int, hi.2 as int),
            decreases hi.0 + 1 - x,
        {
            let mut y: isize = lo.1;
            while y <= hi.1
                invariant
                    lo.0 <= x <= hi.0,
                    lo.1 <= y <= hi.1 + 1 || (y == lo.1 && lo.1 > hi.1),
                    self.wf(),
                    self.spec_seed() == old(self).spec_seed(),
                    self.view().dom() == m0.dom(),
                    done_unchanged(m0, self.view()),
                    floor_kept(m0, self.view()),
                    grid_box_safe(grid_int(lo), grid_int(hi)),
                    area_present(m0, grid_int(lo), grid_int(hi)),
                    past_phase_one_before(self.view(), grid_int(lo), grid_int(hi), (x as int, y as int, lo.2 as int)),
                    target == phase_two_box(
                        phase_two_plane(self.view(), x as int, y as int, hi.1 as int, lo.2 as int, hi.2 as int),
                        x + 1,
                        hi.0 as int,
                        lo.1 as int,
                        hi.1 as int,
                        lo.2 as int,
                        hi.2 as int,
                    ),
                decreases hi.1 + 1 - y,
            {
                let mut z: isize = lo.2;
                while z <= hi.2
                    invariant
                        lo.0 <= x <= hi.0,
                        lo.1 <= y <= hi.1,
                        lo.2 <= z <= hi.2 + 1 || (z == lo.2 && lo.2 > hi.2),
                        self.wf(),
                        self.spec_seed() == old(self).spec_seed(),
                        self.view().dom() == m0.dom(),
                        done_unchanged(m0, self.view()),
                        floor_kept(m0, self.view()),
                        grid_box_safe(grid_int(lo), grid_int(hi)),
                        area_present(m0, grid_int(lo), grid_int(hi)),
                        past_phase_one_before(self.view(), grid_int(lo), grid_int(hi), (x as int, y as int, z as int)),
                        target == phase_two_box(
                            phase_two_plane(
                                phase_two_row(self.view(), x as int, y as int, z as int, hi.2 as int),
                                x as int,
                                y + 1,
                                hi.1 as int,
                                lo.2 as int,
                                hi.2 as int,
                            ),
                            x + 1,
                            hi.0 as int,
                            lo.1 as int,
                            hi.1 as int,
                            lo.2 as int,
                            hi.2 as int,
                        ),
                    decreases hi.2 + 1 - z,
                {
                    proof {
                        lemma_grid_pos_round_trip(x as int, y as int, z as int);
                        assert(m0.contains_key(grid_pos(x as int, y as int, z as int)));
                    }
                    let pos = Pos3 { x: x * CHUNKSIZE, y: y * CHUNKSIZE, z: z * CHUNKSIZE };
                    assert(pos == grid_pos(x as int, y as int, z as int));
                    let ghost before = self.view();
                    self.gen_chunk_phase_two(pos);
                    z = z + 1;
                    proof {
                        let next = (x as int, y as int, z as int);
                        assert forall|gx: int, gy: int, gz: int|
                            #![trigger grid_pos(gx, gy, gz)]
                            in_grid_box((gx, gy, gz), grid_int(lo), grid_int(hi)) && lex_before((gx, gy, gz), next)
                                && self.view().contains_key(grid_pos(gx, gy, gz))
                                implies self.view()[grid_pos(gx, gy, gz)].phase != GenerationPhase::PhaseOne by {
                            if (gx, gy, gz) != (x as int, y as int, z - 1) {
                                lemma_grid_pos_round_trip(gx, gy, gz);
                                assert(grid_pos(gx, gy, gz) != pos);
                                assert(before.contains_key(grid_pos(gx, gy, gz)));
                            }
                        }
                    }
                }
                y = y + 1;
            }
            x = x + 1;
        }
    }

    /// Marks each chunk of the grid box `lo ..= hi` as delivered and lists
    /// those that were not delivered before, in visiting order.
    fn deliver_area(&mut self, lo: (isize, isize, isize), hi: (isize, isize, isize)) -> (r: Vec<Pos3>)
        requires
            old(self).wf(),
            grid_box_safe(grid_int(lo), grid_int(hi)),
            area_present(old(self).view(), grid_int(lo), grid_int(hi)),
            past_phase_one(old(self).view(), grid_int(lo), grid_int(hi)),
            grid_box_safe(pad_lo(grid_int(lo), 1), pad_hi(grid_int(hi), 1)),
            area_present(old(self).view(), pad_lo(grid_int(lo), 1), pad_hi(grid_int(hi), 1)),
            past_phase_one(old(self).view(), pad_lo(grid_int(lo), 1), pad_hi(grid_int(hi), 1)),
        ensures
            final(self).wf(),
            final(self).spec_seed() == old(self).spec_seed(),
            final(self).view() == mark_done(old(self).view(), grid_int(lo), grid_int(hi)),
            delivered_exactly(r@, old(self).view(), grid_int(lo), grid_int(hi)),
    {
        let ghost m0 = self.view();
        let ghost glo = grid_int(lo);
        let ghost ghi = grid_int(hi);
        let mut r: Vec<Pos3> = Vec::new();
        let mut x: isize = lo.0;
        while x <= hi.0
            invariant
                lo.0 <= x <= hi.0 + 1 || (x == lo.0 && lo.0 > hi.0),
                self.wf(),
                self.spec_seed() == old(self).spec_seed(),
                glo == grid_int(lo),
                ghi == grid_int(hi),
                grid_box_safe(glo, ghi),
                area_present(m0, glo, ghi),
                past_phase_one(m0, glo, ghi),
                area_present(self.view(), pad_lo(glo, 1), pad_hi(ghi, 1)),
                past_phase_one(self.view(), pad_lo(glo, 1), pad_hi(ghi, 1)),
                grid_box_safe(pad_lo(glo, 1), pad_hi(ghi, 1)),
                self.view().dom() == m0.dom(),
                forall|p: Pos3|
                    #![trigger self.view().contains_key(p)]
                    self.view().contains_key(p) ==> self.view()[p] == if in_grid_box(grid_of(p), glo, ghi)
                        && lex_before(grid_of(p), (x as int, lo.1 as int, lo.2 as int)) {
                        ChunkModel { phase: GenerationPhase::Done, ..m0[p] }
                    } else {
                        m0[p]
                    },
                forall|j: int|
                    0 <= j < r@.len() ==> in_grid_box(grid_of(#[trigger] r@[j]), glo, ghi) && is_chunk_aligned(
                        r@[j],
                    ) && m0.contains_key(r@[j]) && m0[r@[j]].phase != GenerationPhase::Done && lex_before(
                        grid_of(r@[j]),
                        (x as int, lo.1 as int, lo.2 as int),
                    ),
                forall|gx: int, gy: int, gz: int|
                    #![trigger grid_pos(gx, gy, gz)]
                    in_grid_box((gx, gy, gz), glo, ghi) && m0[grid_pos(gx, gy, gz)].phase
                        != GenerationPhase::Done && lex_before((gx, gy, gz), (x as int, lo.1 as int, lo.2 as int))
                        ==> r@.contains(grid_pos(gx, gy, gz)),
                r@.no_duplicates(),
                forall|i: int, j: int| 0 <= i < j < r@.len() ==> lex_before(grid_of(#[trigger] r@[i]), grid_of(#[trigger] r@[j])),
            decreases hi.0 + 1 - x,
        {
            let mut y: isize = lo.1;
            while y <= hi.1
                invariant
                    lo.0 <= x <= hi.0,
                    lo.1 <= y <= hi.1 + 1 || (y == lo.1 && lo.1 > hi.1),
                    self.wf(),
                    self.spec_seed() == old(self).spec_seed(),
                    glo == grid_int(lo),
                    ghi == grid_int(hi),
                    grid_box_safe(glo, ghi),
                    area_present(m0, glo, ghi),
                    past_phase_one(m0, glo, ghi),
                    area_present(self.view(), pad_lo(glo, 1), pad_hi(ghi, 1)),
                    past_phase_one(self.view(), pad_lo(glo, 1), pad_hi(ghi, 1)),
                    grid_box_safe(pad_lo(glo, 1), pad_hi(ghi, 1)),
                    self.view().dom() == m0.dom(),
                    forall|p: Pos3|
                        #![trigger self.view().contains_key(p)]
                        self.view().contains_key(p) ==> self.view()[p] == if in_grid_box(grid_of(p), glo, ghi)
                            && lex_before(grid_of(p), (x as int, y as int, lo.2 as int)) {
                            ChunkModel { phase: GenerationPhase::Done, ..m0[p] }
                        } else {
                            m0[p]
                        },
                    forall|j: int|
                        0 <= j < r@.len() ==> in_grid_box(grid_of(#[trigger] r@[j]), glo, ghi) && is_chunk_aligned(
                            r@[j],
                        ) && m0.contains_key(r@[j]) && m0[r@[j]].phase != GenerationPhase::Done && lex_before(
                            grid_of(r@[j]),
                            (x as int, y as int, lo.2 as int),
                        ),
                    forall|gx: int, gy: int, gz: int|
                        #![trigger grid_pos(gx, gy, gz)]
                        in_grid_box((gx, gy, gz), glo, ghi) && m0[grid_pos(gx, gy, gz)].phase
                            != GenerationPhase::Done && lex_before((gx, gy, gz), (x as int, y as int, lo.2 as int))
                            ==> r@.contains(grid_pos(gx, gy, gz)),
                    r@.no_duplicates(),
                    forall|i: int, j: int| 0 <= i < j < r@.len() ==> lex_before(grid_of(#[trigger] r@[i]), grid_of(#[trigger] r@[j])),
                decreases hi.1 + 1 - y,
            {
                let mut z: isize = lo.2;
                while z <= hi.2
                    invariant
                        lo.0 <= x <= hi.0,
                        lo.1 <= y <= hi.1,
                        lo.2 <= z <= hi.2 + 1 || (z == lo.2 && lo.2 > hi.2),
                        self.wf(),
                        self.spec_seed() == old(self).spec_seed(),
                        glo == grid_int(lo),
                        ghi == grid_int(hi),
                        grid_box_safe(glo, ghi),
                        area_present(m0, glo, ghi),
                        past_phase_one(m0, glo, ghi),
                        area_present(self.view(), pad_lo(glo, 1), pad_hi(ghi, 1)),
                        past_phase_one(self.view(), pad_lo(glo, 1), pad_hi(ghi, 1)),
                        grid_box_safe(pad_lo(glo, 1), pad_hi(ghi, 1)),
                        self.view().dom() == m0.dom(),
                        forall|p: Pos3|
                            #![trigger self.view().contains_key(p)]
                            self.view().contains_key(p) ==> self.view()[p] == if in_grid_box(grid_of(p), glo, ghi)
                                && lex_before(grid_of(p), (x as int, y as int, z as int)) {
                                ChunkModel { phase: GenerationPhase::Done, ..m0[p] }
                            } else {
                                m0[p]
                            },
                        forall|j: int|
                            0 <= j < r@.len() ==> in_grid_box(grid_of(#[trigger] r@[j]), glo, ghi)
                                && is_chunk_aligned(r@[j]) && m0.contains_key(r@[j]) && m0[r@[j]].phase
                                != GenerationPhase::Done && lex_before(
                                grid_of(r@[j]),
                                (x as int, y as int, z as int),
                            ),
                        forall|gx: int, gy: int, gz: int|
                            #![trigger grid_pos(gx, gy, gz)]
                            in_grid_box((gx, gy, gz), glo, ghi) && m0[grid_pos(gx, gy, gz)].phase
                                != GenerationPhase::Done && lex_before((gx, gy, gz), (x as int, y as int, z as int))
                                ==> r@.contains(grid_pos(gx, gy, gz)),
                        r@.no_duplicates(),
                        forall|i: int, j: int| 0 <= i < j < r@.len() ==> lex_before(grid_of(#[trigger] r@[i]), grid_of(#[trigger] r@[j])),
                    decreases hi.2 + 1 - z,
                {
                    proof {
                        lemma_grid_pos_round_trip(x as int, y as int, z as int);
                        assert(m0.contains_key(grid_pos(x as int, y as int, z as int)));
                    }
                    let pos = Pos3 { x: x * CHUNKSIZE, y: y * CHUNKSIZE, z: z * CHUNKSIZE };
                    assert(pos == grid_pos(x as int, y as int, z as int));
                    let ghost cur = (x as int, y as int, z as int);
                    let ghost before = self.view();
                    let ghost r_before = r@;
                    assert(self.view().contains_key(pos));
                    assert(!lex_before(grid_of(pos), cur));
                    assert(self.view()[pos] == m0[pos]);
                    match self.find(pos) {
                        None => {},
                        Some(i) => {
                            if self.chunks[i].generation_phase != GenerationPhase::Done {
                                assert(m0[grid_pos(x as int, y as int, z as int)].phase != GenerationPhase::PhaseOne);
                                proof {
                                    let v = self.view();
                                    assert forall|dx: int, dy: int, dz: int|
                                        #![trigger grid_pos(grid_of(pos).0 + dx, grid_of(pos).1 + dy, grid_of(pos).2 + dz)]
                                        -1 <= dx <= 1 && -1 <= dy <= 1 && -1 <= dz <= 1 implies v.contains_key(
                                            grid_pos(grid_of(pos).0 + dx, grid_of(pos).1 + dy, grid_of(pos).2 + dz),
                                        ) && v[grid_pos(grid_of(pos).0 + dx, grid_of(pos).1 + dy, grid_of(pos).2 + dz)].phase
                                            != GenerationPhase::PhaseOne by {
                                        assert(in_grid_box((x + dx, y + dy, z + dz), pad_lo(glo, 1), pad_hi(ghi, 1)));
                                        assert(v.contains_key(grid_pos(x + dx, y + dy, z + dz)));
                                    }
                                }
                                self.mark_slot_done(i);
                                r.push(pos);
                                proof {
                                    assert forall|j: int| 0 <= j < r_before.len() implies r_before[j] != pos by {
                                        assert(lex_before(grid_of(r_before[j]), cur));
                                    }
                                    assert(r@.last() == pos);
                                    assert forall|a: int, b: int| 0 <= a < b < r@.len() implies lex_before(
                                        grid_of(#[trigger] r@[a]),
                                        grid_of(#[trigger] r@[b]),
                                    ) by {
                                        if b == r_before.len() {
                                            assert(r@[a] == r_before[a]);
                                            assert(lex_before(grid_of(r_before[a]), cur));
                                            lemma_grid_pos_round_trip(x as int, y as int, z as int);
                                        } else {
                                            assert(r@[a] == r_before[a] && r@[b] == r_before[b]);
                                        }
                                    }
                                }
                            }
                        },
                    }
                    z = z + 1;
                    proof {
                        let next = (x as int, y as int, z as int);
                        let v = self.view();
                        assert forall|gx: int, gy: int, gz: int|
                            #![trigger grid_pos(gx, gy, gz)]
                            in_grid_box((gx, gy, gz), pad_lo(glo, 1), pad_hi(ghi, 1)) && v.contains_key(grid_pos(gx, gy, gz))
                                implies v[grid_pos(gx, gy, gz)].phase != GenerationPhase::PhaseOne by {
                            assert(before.contains_key(grid_pos(gx, gy, gz)));
                        }
                        assert forall|p: Pos3|
                            #![trigger self.view().contains_key(p)]
                            self.view().contains_key(p) implies self.view()[p] == if in_grid_box(grid_of(p), glo, ghi)
                                && lex_before(grid_of(p), next) {
                                ChunkModel { phase: GenerationPhase::Done, ..m0[p] }
                            } else {
                                m0[p]
                            } by {
                            assert(before.contains_key(p));
                            if p == pos {
                            } else {
                                assert(m0.contains_key(p));
                                lemma_aligned_grid(p);
                                lemma_aligned_grid(pos);
                                if grid_of(p) == cur {
                                    assert(p == pos);
                                }
                            }
                        }
                        assert forall|j: int| 0 <= j < r@.len() implies in_grid_box(grid_of(#[trigger] r@[j]), glo, ghi)
                                && is_chunk_aligned(r@[j]) && m0.contains_key(r@[j]) && m0[r@[j]].phase
                                != GenerationPhase::Done && lex_before(grid_of(r@[j]), next) by {
                            if j < r_before.len() {
                                assert(r@[j] == r_before[j]);
                            }
                        }
                        assert forall|gx: int, gy: int, gz: int|
                            #![trigger grid_pos(gx, gy, gz)]
                            in_grid_box((gx, gy, gz), glo, ghi) && m0[grid_pos(gx, gy, gz)].phase
                                != GenerationPhase::Done && lex_before((gx, gy, gz), next)
                                implies r@.contains(grid_pos(gx, gy, gz)) by {
                            if (gx, gy, gz) == cur {
                                assert(r@.last() == pos);
                            } else {
                                assert(r_before.contains(grid_pos(gx, gy, gz)));
                                let k = choose|k: int| 0 <= k < r_before.len() && r_before[k] == grid_pos(gx, gy, gz);
                                assert(r@[k] == r_before[k]);
                            }
                        }
                    }
                }
                y = y + 1;
            }
            x = x + 1;
        }
        proof {
            assert(self.view() =~= mark_done(m0, glo, ghi));
        }
        r
    }
}

/// Whether an area query over block positions `pos_min ..= pos_max` keeps
/// every chunk it touches, with its padding, in machine range.
pub open spec fn area_args_ok(pos_min: Pos3, pos_max: Pos3) -> bool {
    &&& grid_coord_ok(grid_of(pos_min).0)
    &&& grid_coord_ok(grid_of(pos_min).1)
    &&& grid_coord_ok(grid_of(pos_min).2)
    &&& grid_coord_ok(grid_of(pos_max).0)
    &&& grid_coord_ok(grid_of(pos_max).1)
    &&& grid_coord_ok(grid_of(pos_max).2)
}

impl MapgenMap {
    /// The chunk origins of the area `pos_min ..= pos_max`, padded by two chunks,
    /// that are not cached yet: phase one must run on each of them before the
    /// area can be generated. Empty when every chunk of the area is already
    /// delivered, since the area query then does nothing.
    pub fn missing_chunks_in_area(&self, pos_min: Pos3, pos_max: Pos3) -> (r: Vec<Pos3>)
        requires
            self.wf(),
            area_args_ok(pos_min, pos_max),
        ensures
            area_done(self.view(), grid_of(pos_min), grid_of(pos_max)) ==> r@.len() == 0,
            !area_done(self.view(), grid_of(pos_min), grid_of(pos_max)) ==> {
                &&& forall|j: int|
                    0 <= j < r@.len() ==> is_chunk_aligned(#[trigger] r@[j]) && !self.view().contains_key(r@[j])
                        && in_grid_box(grid_of(r@[j]), pad_lo(grid_of(pos_min), 2), pad_hi(grid_of(pos_max), 2))
                &&& forall|gx: int, gy: int, gz: int|
                    #![trigger grid_pos(gx, gy, gz)]
                    in_grid_box((gx, gy, gz), pad_lo(grid_of(pos_min), 2), pad_hi(grid_of(pos_max), 2))
                        && !self.view().contains_key(grid_pos(gx, gy, gz)) ==> r@.contains(grid_pos(gx, gy, gz))
            },
    {
        let lo = (floor_div_chunksize(pos_min.x), floor_div_chunksize(pos_min.y), floor_div_chunksize(pos_min.z));
        let hi = (floor_div_chunksize(pos_max.x), floor_div_chunksize(pos_max.y), floor_div_chunksize(pos_max.z));
        let mut r: Vec<Pos3> = Vec::new();
        if self.area_is_done(lo, hi) {
            return r;
        }
        let ghost glo = pad_lo(grid_int(lo), 2);
        let ghost ghi = pad_hi(grid_int(hi), 2);
        let mut x: isize = lo.0 - 2;
        while x <= hi.0 + 2
            invariant
                lo.0 - 2 <= x <= hi.0 + 3 || (x == lo.0 - 2 && lo.0 > hi.0),
                self.wf(),
                glo == pad_lo(grid_int(lo), 2),
                ghi == pad_hi(grid_int(hi), 2),
                grid_coord_ok(lo.0 as int) && grid_coord_ok(lo.1 as int) && grid_coord_ok(lo.2 as int),
                grid_coord_ok(hi.0 as int) && grid_coord_ok(hi.1 as int) && grid_coord_ok(hi.2 as int),
                forall|j: int|
                    0 <= j < r@.len() ==> is_chunk_aligned(#[trigger] r@[j]) && !self.view().contains_key(r@[j])
                        && in_grid_box(grid_of(r@[j]), glo, ghi),
                forall|gx: int, gy: int, gz: int|
                    #![trigger grid_pos(gx, gy, gz)]
                    in_grid_box((gx, gy, gz), glo, ghi) && gx < x && !self.view().contains_key(grid_pos(gx, gy, gz))
                        ==> r@.contains(grid_pos(gx, gy, gz)),
            decreases hi.0 + 3 - x,
        {
            let mut y: isize = lo.1 - 2;
            while y <= hi.1 + 2
                invariant
                    lo.0 - 2 <= x <= hi.0 + 2,
                    lo.1 - 2 <= y <= hi.1 + 3 || (y == lo.1 - 2 && lo.1 > hi.1),
                    self.wf(),
                    glo == pad_lo(grid_int(lo), 2),
                    ghi == pad_hi(grid_int(hi), 2),
                    grid_coord_ok(lo.0 as int) && grid_coord_ok(lo.1 as int) && grid_coord_ok(lo.2 as int),
                    grid_coord_ok(hi.0 as int) && grid_coord_ok(hi.1 as int) && grid_coord_ok(hi.2 as int),
                    forall|j: int|
                        0 <= j < r@.len() ==> is_chunk_aligned(#[trigger] r@[j]) && !self.view().contains_key(r@[j])
                            && in_grid_box(grid_of(r@[j]), glo, ghi),
                    forall|gx: int, gy: int, gz: int|
                        #![trigger grid_pos(gx, gy, gz)]
                        in_grid_box((gx, gy, gz), glo, ghi) && (gx < x || (gx == x && gy < y))
                            && !self.view().contains_key(grid_pos(gx, gy, gz)) ==> r@.contains(grid_pos(gx, gy, gz)),
                decreases hi.1 + 3 - y,
            {
                let mut z: isize = lo.2 - 2;
                while z <= hi.2 + 2
                    invariant
                        lo.0 - 2 <= x <= hi.0 + 2,
                        lo.1 - 2 <= y <= hi.1 + 2,
                        lo.2 - 2 <= z <= hi.2 + 3 || (z == lo.2 - 2 && lo.2 > hi.2),
                        self.wf(),
                        glo == pad_lo(grid_int(lo), 2),
                        ghi == pad_hi(grid_int(hi), 2),
                        grid_coord_ok(lo.0 as int) && grid_coord_ok(lo.1 as int) && grid_coord_ok(lo.2 as int),
                        grid_coord_ok(hi.0 as int) && grid_coord_ok(hi.1 as int) && grid_coord_ok(hi.2 as int),
                        forall|j: int|
                            0 <= j < r@.len() ==> is_chunk_aligned(#[trigger] r@[j]) && !self.view().contains_key(
                                r@[j],
                            ) && in_grid_box(grid_of(r@[j]), glo, ghi),
                        forall|gx: int, gy: int, gz: int|
                            #![trigger grid_pos(gx, gy, gz)]
                            in_grid_box((gx, gy, gz), glo, ghi) && lex_before((gx, gy, gz), (x as int, y as int, z as int))
                                && !self.view().contains_key(grid_pos(gx, gy, gz)) ==> r@.contains(grid_pos(gx, gy, gz)),
                    decreases hi.2 + 3 - z,
                {
                    proof {
                        lemma_grid_pos_round_trip(x as int, y as int, z as int);
                    }
                    let pos = Pos3 { x: x * CHUNKSIZE, y: y * CHUNKSIZE, z: z * CHUNKSIZE };
                    assert(pos == grid_pos(x as int, y as int, z as int));
                    let ghost r_before = r@;
                    if self.find(pos).is_none() {
                        r.push(pos);
                        proof {
                            assert(r@.last() == pos);
                            assert forall|gx: int, gy: int, gz: int|
                                #![trigger grid_pos(gx, gy, gz)]
                                in_grid_box((gx, gy, gz), glo, ghi) && lex_before((gx, gy, gz), (x as int, y as int, z as int))
                                    && !self.view().contains_key(grid_pos(gx, gy, gz)) implies r@.contains(grid_pos(gx, gy, gz)) by {
                                let k = choose|k: int| 0 <= k < r_before.len() && r_before[k] == grid_pos(gx, gy, gz);
                                assert(r@[k] == r_before[k]);
                            }
                            assert forall|j: int| 0 <= j < r@.len() implies is_chunk_aligned(#[trigger] r@[j])
                                && !self.view().contains_key(r@[j]) && in_grid_box(grid_of(r@[j]), glo, ghi) by {
                                if j < r_before.len() {
                                    assert(r@[j] == r_before[j]);
                                }
                            }
                        }
                    }
                    z = z + 1;
                }
                y = y + 1;
            }
            x = x + 1;
        }
        r
    }

    /// Finishes the area of chunks that owns block positions
    /// `pos_min ..= pos_max`, once phase one has run over it padded by two
    /// chunks (see `missing_chunks_in_area`), and returns the origins of the
    /// chunks that became stable for the first time, each once.
    ///
    /// If every chunk of the area is already delivered, nothing happens.
    /// Otherwise phase two runs over the area padded by one chunk, then each chunk of the area not yet delivered
    /// is marked delivered and listed. Marking happens before the caller sees
    /// the list, so a nested query never delivers a chunk twice. Every tree
    /// stamped on the way lands in cached chunks.
    pub fn gen_prepared_area(&mut self, pos_min: Pos3, pos_max: Pos3) -> (r: Vec<Pos3>)
        requires
            old(self).wf(),
            area_args_ok(pos_min, pos_max),
            !area_done(old(self).view(), grid_of(pos_min), grid_of(pos_max)) ==> area_present(
                old(self).view(),
                pad_lo(grid_of(pos_min), 2),
                pad_hi(grid_of(pos_max), 2),
            ),
        ensures
            final(self).wf(),
            final(self).spec_seed() == old(self).spec_seed(),
            area_done(old(self).view(), grid_of(pos_min), grid_of(pos_max)) ==> final(self).view() == old(
                self,
            ).view() && r@.len() == 0,
            !area_done(old(self).view(), grid_of(pos_min), grid_of(pos_max)) ==> {
                let m2 = phase_two_area(old(self).view(), grid_of(pos_min), grid_of(pos_max));
                &&& final(self).view() == mark_done(m2, grid_of(pos_min), grid_of(pos_max))
                &&& delivered_exactly(r@, m2, grid_of(pos_min), grid_of(pos_max))
                &&& stamps_land(old(self).view(), pad_lo(grid_of(pos_min), 1), pad_hi(grid_of(pos_max), 1))
                &&& area_settled(final(self).view(), pad_lo(grid_of(pos_min), 1), pad_hi(grid_of(pos_max), 1))
            },
            done_unchanged(old(self).view(), final(self).view()),
            floor_kept(old(self).view(), final(self).view()),
    {
        let lo = (floor_div_chunksize(pos_min.x), floor_div_chunksize(pos_min.y), floor_div_chunksize(pos_min.z));
        let hi = (floor_div_chunksize(pos_max.x), floor_div_chunksize(pos_max.y), floor_div_chunksize(pos_max.z));
        if self.area_is_done(lo, hi) {
            return Vec::new();
        }
        let ghost m0 = self.view();
        proof {
            lemma_area_stamps_land(m0, grid_int(lo), grid_int(hi));
        }
        let lo1 = (lo.0 - 1, lo.1 - 1, lo.2 - 1);
        let hi1 = (hi.0 + 1, hi.1 + 1, hi.2 + 1);
        assert(area_present(m0, grid_int(lo1), grid_int(hi1)));
        self.phase_two_over(lo1, hi1);
        assert(area_present(self.view(), grid_int(lo), grid_int(hi)));
        let ghost m2 = self.view();
        let r = self.deliver_area(lo, hi);
        proof {
            let m3 = self.view();
            assert forall|gx: int, gy: int, gz: int|
                #![trigger grid_pos(gx, gy, gz)]
                in_grid_box((gx, gy, gz), grid_int(lo1), grid_int(hi1)) implies m3.contains_key(grid_pos(gx, gy, gz))
                    && m3[grid_pos(gx, gy, gz)].phase != GenerationPhase::PhaseOne && m3[grid_pos(gx, gy, gz)].spawn.len()
                    == 0 by {
                assert(m2.contains_key(grid_pos(gx, gy, gz)));
                assert(m3.contains_key(grid_pos(gx, gy, gz)));
            }
        }
        r
    }
}

/// The world as the server sees it, backed by the procedural generator.
pub struct WorldMap {
    backend: MapgenMap,
}

impl WorldMap {
    pub closed spec fn spec_backend(&self) -> MapgenMap {
        self.backend
    }

    /// A world over `backend`.
    pub fn from_backend(backend: MapgenMap) -> (r: WorldMap)
        ensures
            r.spec_backend() == backend,
    {
        WorldMap { backend }
    }

    /// A fresh world generated from `seed`.
    pub fn new(seed: u32) -> (r: WorldMap)
        ensures
            r.spec_backend().wf(),
            r.spec_backend().spec_seed() == seed,
            r.spec_backend().view() == Map::<Pos3, ChunkModel>::empty(),
    {
        WorldMap::from_backend(MapgenMap::new(seed))
    }

    /// The generator behind the world.
    pub fn backend(&self) -> (r: &MapgenMap)
        ensures
            *r == self.spec_backend(),
    {
        &self.backend
    }
}

/// Whether `m1` is `m0` after phase one over every chunk of the grid box
/// `lo ..= hi`: cached chunks are kept, and each chunk added is made from
/// what `sample` gave for it.
pub open spec fn phase_one_filled<F: Fn(Pos3) -> ChunkNoise>(
    m0: Map<Pos3, ChunkModel>,
    m1: Map<Pos3, ChunkModel>,
    sample: F,
    lo: (int, int, int),
    hi: (int, int, int),
) -> bool {
    &&& forall|q: Pos3|
        #![trigger m1.contains_key(q)]
        m1.contains_key(q) <==> m0.contains_key(q) || (is_chunk_aligned(q) && in_grid_box(grid_of(q), lo, hi))
    &&& forall|q: Pos3| #![trigger m0.contains_key(q)] m0.contains_key(q) ==> m1[q] == m0[q]
    &&& forall|q: Pos3|
        #![trigger m1.contains_key(q)]
        m1.contains_key(q) && !m0.contains_key(q) ==> exists|n: ChunkNoise|
            sample.ensures((q,), n) && #[trigger] phase_one_model(q, n.columns@, n.draws@) == m1[q]
}

impl MapgenMap {
    /// Generates the area of chunks that owns block positions
    /// `pos_min ..= pos_max`, taking each new chunk's noise from `sample`, and
    /// returns the origins of the chunks that became stable for the first
    /// time, each once.
    ///
    /// If every chunk of the area is already delivered, nothing happens.
    /// Otherwise phase one runs over the area padded by two chunks, phase two
    /// over the area padded by one, and then each chunk of the area not yet
    /// delivered is marked delivered and listed.
    pub fn gen_chunks_in_area<F: Fn(Pos3) -> ChunkNoise>(
        &mut self,
        pos_min: Pos3,
        pos_max: Pos3,
        sample: &F,
    ) -> (r: Vec<Pos3>)
        requires
            old(self).wf(),
            area_args_ok(pos_min, pos_max),
            forall|p: Pos3| is_chunk_aligned(p) ==> sample.requires((p,)),
            forall|p: Pos3, n: ChunkNoise| sample.ensures((p,), n) ==> n.wf(),
        ensures
            final(self).wf(),
            final(self).spec_seed() == old(self).spec_seed(),
            area_done(old(self).view(), grid_of(pos_min), grid_of(pos_max)) ==> final(self).view() == old(
                self,
            ).view() && r@.len() == 0,
            !area_done(old(self).view(), grid_of(pos_min), grid_of(pos_max)) ==> exists|m1: Map<
                Pos3,
                ChunkModel,
            >|
                {
                    &&& phase_one_filled(
                        old(self).view(),
                        m1,
                        *sample,
                        pad_lo(grid_of(pos_min), 2),
                        pad_hi(grid_of(pos_max), 2),
                    )
                    &&& #[trigger] mark_done(phase_two_area(m1, grid_of(pos_min), grid_of(pos_max)), grid_of(pos_min), grid_of(pos_max))
                        == final(self).view()
                    &&& floor_kept(m1, final(self).view())
                    &&& delivered_exactly(
                        r@,
                        phase_two_area(m1, grid_of(pos_min), grid_of(pos_max)),
                        grid_of(pos_min),
                        grid_of(pos_max),
                    )
                },
            !area_done(old(self).view(), grid_of(pos_min), grid_of(pos_max)) ==> area_settled(
                final(self).view(),
                pad_lo(grid_of(pos_min), 1),
                pad_hi(grid_of(pos_max), 1),
            ),
            done_unchanged(old(self).view(), final(self).view()),
    {
        let ghost m0 = self.view();
        let ghost plo = pad_lo(grid_of(pos_min), 2);
        let ghost phi = pad_hi(grid_of(pos_max), 2);
        let missing = self.missing_chunks_in_area(pos_min, pos_max);
        let mut j: usize = 0;
        while j < missing.len()
            invariant
                j <= missing@.len(),
                self.wf(),
                self.spec_seed() == old(self).spec_seed(),
                m0 == old(self).view(),
                forall|p: Pos3| is_chunk_aligned(p) ==> sample.requires((p,)),
                forall|p: Pos3, n: ChunkNoise| sample.ensures((p,), n) ==> n.wf(),
                forall|k: int| 0 <= k < missing@.len() ==> is_chunk_aligned(#[trigger] missing@[k]) && !m0.contains_key(missing@[k]),
                forall|q: Pos3|
                    #![trigger self.view().contains_key(q)]
                    self.view().contains_key(q) <==> m0.contains_key(q) || exists|k: int| 0 <= k < j && missing@[k] == q,
                forall|q: Pos3| #![trigger m0.contains_key(q)] m0.contains_key(q) ==> self.view()[q] == m0[q],
                forall|q: Pos3|
                    #![trigger self.view().contains_key(q)]
                    self.view().contains_key(q) && !m0.contains_key(q) ==> exists|n: ChunkNoise|
                        sample.ensures((q,), n) && #[trigger] phase_one_model(q, n.columns@, n.draws@) == self.view()[q],
            decreases missing@.len() - j,
        {
            let p = missing[j];
            let n = sample(p);
            let ghost before = self.view();
            self.gen_chunk_phase_one(p, &n);
            proof {
                assert forall|q: Pos3|
                    #![trigger self.view().contains_key(q)]
                    self.view().contains_key(q) <==> m0.contains_key(q) || exists|k: int| 0 <= k < j + 1 && missing@[k] == q by {
                    if q == p {
                        assert(missing@[j as int] == q);
                    } else if exists|k: int| 0 <= k < j + 1 && missing@[k] == q {
                        let k = choose|k: int| 0 <= k < j + 1 && missing@[k] == q;
                        assert(k < j);
                    }
                }
                assert forall|q: Pos3|
                    #![trigger self.view().contains_key(q)]
                    self.view().contains_key(q) && !m0.contains_key(q) implies exists|n: ChunkNoise|
                        sample.ensures((q,), n) && #[trigger] phase_one_model(q, n.columns@, n.draws@) == self.view()[q] by {
                    if q == p && !before.contains_key(p) {
                        assert(phase_one_model(q, n.columns@, n.draws@) == self.view()[q]);
                    } else {
                        assert(before.contains_key(q));
                    }
                }
            }
            j = j + 1;
        }
        let ghost m1 = self.view();
        proof {
            if !area_done(m0, grid_of(pos_min), grid_of(pos_max)) {
                assert forall|gx: int, gy: int, gz: int|
                    #![trigger grid_pos(gx, gy, gz)]
                    in_grid_box((gx, gy, gz), plo, phi) implies m1.contains_key(grid_pos(gx, gy, gz)) by {
                    if !m0.contains_key(grid_pos(gx, gy, gz)) {
                        assert(missing@.contains(grid_pos(gx, gy, gz)));
                        let k = choose|k: int| 0 <= k < missing@.len() && missing@[k] == grid_pos(gx, gy, gz);
                        assert(m1.contains_key(grid_pos(gx, gy, gz)));
                    }
                }
                assert forall|q: Pos3|
                    #![trigger m1.contains_key(q)]
                    m1.contains_key(q) <==> m0.contains_key(q) || (is_chunk_aligned(q) && in_grid_box(grid_of(q), plo, phi)) by {
                    if m1.contains_key(q) && !m0.contains_key(q) {
                        let k = choose|k: int| 0 <= k < missing@.len() && missing@[k] == q;
                        assert(is_chunk_aligned(missing@[k]));
                    }
                    if !m0.contains_key(q) && is_chunk_aligned(q) && in_grid_box(grid_of(q), plo, phi) {
                        lemma_aligned_grid(q);
                        let g = grid_of(q);
                        assert(m1.contains_key(grid_pos(g.0, g.1, g.2)));
                    }
                }
                assert(phase_one_filled(m0, m1, *sample, plo, phi));
            } else {
                assert(missing@.len() == 0);
                assert(m1 =~= m0);
            }
        }
        let r = self.gen_prepared_area(pos_min, pos_max);
        proof {
            let m3 = self.view();
            assert forall|q: Pos3|
                #![trigger m0.contains_key(q)]
                m0.contains_key(q) && m0[q].phase == GenerationPhase::Done implies m3.contains_key(q) && m3[q] == m0[q] by {
                assert(m1.contains_key(q));
                assert(m1[q] == m0[q]);
            }
        }
        r
    }
}

/// The cache after phase one at `pos`: a cached chunk is kept, otherwise the
/// chunk made from `noise` is added.
pub open spec fn phase_one_step(
    m: Map<Pos3, ChunkModel>,
    pos: Pos3,
    columns: Seq<ColumnNoise>,
    draws: Seq<bool>,
) -> Map<Pos3, ChunkModel> {
    if m.contains_key(pos) {
        m
    } else {
        m.insert(pos, phase_one_model(pos, columns, draws))
    }
}

/// Phase one at two different chunks gives the same cache in either order, so
/// the order in which chunks are first requested does not change the world.
pub proof fn lemma_phase_one_commutes(
    m: Map<Pos3, ChunkModel>,
    pa: Pos3,
    ca: Seq<ColumnNoise>,
    da: Seq<bool>,
    pb: Pos3,
    cb: Seq<ColumnNoise>,
    db: Seq<bool>,
)
    requires
        pa != pb,
    ensures
        phase_one_step(phase_one_step(m, pa, ca, da), pb, cb, db) == phase_one_step(
            phase_one_step(m, pb, cb, db),
            pa,
            ca,
            da,
        ),
{
    assert(phase_one_step(phase_one_step(m, pa, ca, da), pb, cb, db) =~= phase_one_step(
        phase_one_step(m, pb, cb, db),
        pa,
        ca,
        da,
    ));
}

/// Phase one over the same box of the same cache gives the same cache for
/// two noise sources that agree on every chunk (as two generators with the
/// same seed do).
pub proof fn lemma_fill_deterministic<F: Fn(Pos3) -> ChunkNoise, G: Fn(Pos3) -> ChunkNoise>(
    m0: Map<Pos3, ChunkModel>,
    a: Map<Pos3, ChunkModel>,
    b: Map<Pos3, ChunkModel>,
    f: F,
    g: G,
    lo: (int, int, int),
    hi: (int, int, int),
)
    requires
        phase_one_filled(m0, a, f, lo, hi),
        phase_one_filled(m0, b, g, lo, hi),
        forall|p: Pos3, n1: ChunkNoise, n2: ChunkNoise|
            f.ensures((p,), n1) && g.ensures((p,), n2) ==> n1.columns@ == n2.columns@ && n1.draws@ == n2.draws@,
    ensures
        a == b,
{
    assert forall|q: Pos3| #[trigger] a.contains_key(q) implies b.contains_key(q) && a[q] == b[q] by {
        assert(b.contains_key(q));
        if !m0.contains_key(q) {
            let n1 = choose|n: ChunkNoise| f.ensures((q,), n) && #[trigger] phase_one_model(q, n.columns@, n.draws@) == a[q];
            let n2 = choose|n: ChunkNoise| g.ensures((q,), n) && #[trigger] phase_one_model(q, n.columns@, n.draws@) == b[q];
        } else {
            assert(m0.contains_key(q));
        }
    }
    assert forall|q: Pos3| #[trigger] b.contains_key(q) implies a.contains_key(q) by {}
    assert(a =~= b);
}

/// Two lists in strictly increasing visiting order with the same members are
/// the same list.
proof fn lemma_sorted_unique(r1: Seq<Pos3>, r2: Seq<Pos3>)
    requires
        forall|i: int, j: int| 0 <= i < j < r1.len() ==> lex_before(grid_of(#[trigger] r1[i]), grid_of(#[trigger] r1[j])),
        forall|i: int, j: int| 0 <= i < j < r2.len() ==> lex_before(grid_of(#[trigger] r2[i]), grid_of(#[trigger] r2[j])),
        forall|p: Pos3| r1.contains(p) <==> r2.contains(p),
    ensures
        r1 == r2,
    decreases r1.len(),
{
    if r1.len() == 0 {
        if r2.len() > 0 {
            assert(r2.contains(r2[0]));
        }
        assert(r1 =~= r2);
    } else {
        assert(r1.contains(r1[0]));
        let m = choose|m: int| 0 <= m < r2.len() && r2[m] == r1[0];
        assert(r2.contains(r2[0]));
        let n = choose|n: int| 0 <= n < r1.len() && r1[n] == r2[0];
        if m > 0 {
            assert(lex_before(grid_of(r2[0]), grid_of(r2[m])));
            if n > 0 {
                assert(lex_before(grid_of(r1[0]), grid_of(r1[n])));
            }
        }
        assert(r1[0] == r2[0]);
        let t1 = r1.drop_first();
        let t2 = r2.drop_first();
        assert forall|p: Pos3| t1.contains(p) <==> t2.contains(p) by {
            if t1.contains(p) {
                let i = choose|i: int| 0 <= i < t1.len() && t1[i] == p;
                assert(r1[i + 1] == p);
                assert(lex_before(grid_of(r1[0]), grid_of(r1[i + 1])));
                assert(r2.contains(p));
                let j = choose|j: int| 0 <= j < r2.len() && r2[j] == p;
                assert(j != 0);
                assert(t2[j - 1] == p);
            }
            if t2.contains(p) {
                let i = choose|i: int| 0 <= i < t2.len() && t2[i] == p;
                assert(r2[i + 1] == p);
                assert(lex_before(grid_of(r2[0]), grid_of(r2[i + 1])));
                assert(r1.contains(p));
                let j = choose|j: int| 0 <= j < r1.len() && r1[j] == p;
                assert(j != 0);
                assert(t1[j - 1] == p);
            }
        }
        assert forall|i: int, j: int| 0 <= i < j < t1.len() implies lex_before(grid_of(#[trigger] t1[i]), grid_of(#[trigger] t1[j])) by {
            assert(t1[i] == r1[i + 1] && t1[j] == r1[j + 1]);
        }
        assert forall|i: int, j: int| 0 <= i < j < t2.len() implies lex_before(grid_of(#[trigger] t2[i]), grid_of(#[trigger] t2[j])) by {
            assert(t2[i] == r2[i + 1] && t2[j] == r2[j + 1]);
        }
        lemma_sorted_unique(t1, t2);
        assert(r1 =~= seq![r1[0]].add(t1));
        assert(r2 =~= seq![r2[0]].add(t2));
    }
}

/// Two generators whose caches agree produce the same cache and deliver the
/// same chunks, in the same order, from the same area query: generation
/// depends on nothing but the cache (and so on the noise that filled it).
pub proof fn lemma_area_query_deterministic(
    m1: Map<Pos3, ChunkModel>,
    m2: Map<Pos3, ChunkModel>,
    lo: (int, int, int),
    hi: (int, int, int),
    r1: Seq<Pos3>,
    r2: Seq<Pos3>,
)
    requires
        m1 == m2,
        delivered_exactly(r1, phase_two_area(m1, lo, hi), lo, hi),
        delivered_exactly(r2, phase_two_area(m2, lo, hi), lo, hi),
    ensures
        mark_done(phase_two_area(m1, lo, hi), lo, hi) == mark_done(phase_two_area(m2, lo, hi), lo, hi),
        r1 == r2,
{
    assert forall|p: Pos3| r1.contains(p) implies r2.contains(p) by {
        let j = choose|j: int| 0 <= j < r1.len() && r1[j] == p;
        assert(in_grid_box(grid_of(r1[j]), lo, hi) && is_chunk_aligned(r1[j]));
        lemma_aligned_grid(p);
        let g = grid_of(p);
        assert(grid_pos(g.0, g.1, g.2) == p);
    }
    assert forall|p: Pos3| r2.contains(p) implies r1.contains(p) by {
        let j = choose|j: int| 0 <= j < r2.len() && r2[j] == p;
        assert(in_grid_box(grid_of(r2[j]), lo, hi) && is_chunk_aligned(r2[j]));
        lemma_aligned_grid(p);
        let g = grid_of(p);
        assert(grid_pos(g.0, g.1, g.2) == p);
    }
    lemma_sorted_unique(r1, r2);
}

/// Whether every pending tree of a cached chunk of the grid box would write
/// only into cached chunks.
pub open spec fn stamps_land(m: Map<Pos3, ChunkModel>, lo: (int, int, int), hi: (int, int, int)) -> bool {
    forall|gx: int, gy: int, gz: int, i: int, t: int|
        #![trigger m[grid_pos(gx, gy, gz)].spawn[i], tree_items()[t]]
        in_grid_box((gx, gy, gz), lo, hi) && m.contains_key(grid_pos(gx, gy, gz)) && 0 <= i < m[grid_pos(
            gx,
            gy,
            gz,
        )].spawn.len() && 0 <= t < tree_items().len() ==> m.contains_key(
            origin_of(offset_pos(m[grid_pos(gx, gy, gz)].spawn[i], tree_items()[t].0)),
        )
}

proof fn lemma_floor_div_near(a: int, g: int, below: int, above: int)
    requires
        g * 32 - below <= a <= g * 32 + above,
        0 <= below <= 32,
        0 <= above < 64,
    ensures
        g - 1 <= floor_div_chunk(a) <= g + 1,
        below == 0 ==> g <= floor_div_chunk(a),
{
    lemma_floor_div_times(a);
    let q = floor_div_chunk(a);
    let r = mod_chunk(a);
    assert(g - 1 <= q <= g + 1 && (below == 0 ==> g <= q)) by (nonlinear_arith)
        requires
            a == q * 32 + r,
            0 <= r < 32,
            g * 32 - below <= a <= g * 32 + above,
            0 <= below <= 32,
            0 <= above < 64,
    ;
}

/// Before an area query, every pending tree of a chunk in the phase-two box
/// (the area padded by one chunk) lands in chunks that phase one has cached
/// (the area padded by two): stamping never meets a missing chunk.
pub proof fn lemma_area_stamps_land(m: Map<Pos3, ChunkModel>, lo: (int, int, int), hi: (int, int, int))
    requires
        forall|p: Pos3|
            #![trigger m.contains_key(p)]
            m.contains_key(p) ==> is_chunk_aligned(p) && chunk_model_wf(p, m[p]),
        grid_box_safe(pad_lo(lo, 1), pad_hi(hi, 1)),
        area_present(m, pad_lo(lo, 2), pad_hi(hi, 2)),
    ensures
        stamps_land(m, pad_lo(lo, 1), pad_hi(hi, 1)),
{
    assert forall|gx: int, gy: int, gz: int, i: int, t: int|
        #![trigger m[grid_pos(gx, gy, gz)].spawn[i], tree_items()[t]]
        in_grid_box((gx, gy, gz), pad_lo(lo, 1), pad_hi(hi, 1)) && m.contains_key(grid_pos(gx, gy, gz))
            && 0 <= i < m[grid_pos(gx, gy, gz)].spawn.len() && 0 <= t < tree_items().len()
        implies m.contains_key(origin_of(offset_pos(m[grid_pos(gx, gy, gz)].spawn[i], tree_items()[t].0))) by {
        let p = grid_pos(gx, gy, gz);
        lemma_grid_pos_round_trip(gx, gy, gz);
        assert(chunk_model_wf(p, m[p]));
        let s = m[p].spawn[i];
        assert(spawn_point_in_chunk(p, s));
        lemma_tree_offsets_small(t);
        let off = tree_items()[t].0;
        let target = offset_pos(s, off);
        lemma_floor_div_near(target.x as int, gx, 1, 32);
        lemma_floor_div_near(target.y as int, gy, 1, 32);
        lemma_floor_div_near(target.z as int, gz, 0, 36);
        let g = grid_of(target);
        assert(in_grid_box(g, pad_lo(lo, 2), pad_hi(hi, 2)));
        assert(m.contains_key(grid_pos(g.0, g.1, g.2)));
        assert(origin_of(target) == grid_pos(g.0, g.1, g.2));
    }
}

/// On the floor-level chunk, a column whose elevation is at or below the
/// floor still shows water on its bottom block after later generation steps
/// that keep height 0 (as every area query does): phase one puts the water
/// there and nothing stamped afterwards reaches height 0.
pub proof fn lemma_floor_water_kept(
    m1: Map<Pos3, ChunkModel>,
    m2: Map<Pos3, ChunkModel>,
    p: Pos3,
    columns: Seq<ColumnNoise>,
    draws: Seq<bool>,
    x: int,
    y: int,
)
    requires
        m1.contains_key(p),
        p.z == 0,
        m1[p] == phase_one_model(p, columns, draws),
        columns.len() == CHUNK_COLUMNS,
        0 <= x < CHUNKSIZE,
        0 <= y < CHUNKSIZE,
        columns[x * 32 + y].elevation <= 0,
        floor_kept(m1, m2),
    ensures
        m2.contains_key(p),
        m2[p].blocks[block_index(x, y, 0)] == MapBlock::Water,
{
    lemma_floor_level_water(p, columns, x, y);
    assert(m2[p].blocks[block_index(x, y, 0)] == m1[p].blocks[block_index(x, y, 0)]);
}

} // verus!
