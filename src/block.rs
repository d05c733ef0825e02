use vstd::prelude::*;

verus! {

/// Edge length of a chunk, in blocks.
pub const CHUNKSIZE: isize = 32;

/// Number of blocks that a chunk holds (`CHUNKSIZE³`).
pub const CHUNK_VOLUME: usize = 32768;

/// The kinds of voxel that the world is made of.
#[derive(Clone, Copy, Debug, PartialEq, Eq, Structural, Hash)]
pub enum MapBlock {
    Air,
    Water,
    Sand,
    Ground,
    Wood,
    Stone,
    Leaves,
    Tree,
    Cactus,
    Coal,
}

/// A position in the world, in blocks (or a chunk's origin corner).
#[derive(Clone, Copy, Debug, PartialEq, Eq, Structural, Hash)]
pub struct Pos3 {
    pub x: isize,
    pub y: isize,
    pub z: isize,
}

impl Pos3 {
    pub fn new(x: isize, y: isize, z: isize) -> (r: Pos3)
        ensures
            r == (Pos3 { x, y, z }),
    {
        Pos3 { x, y, z }
    }
}

/// Mathematical floor of `a / CHUNKSIZE`.
pub open spec fn floor_div_chunk(a: int) -> int {
    a / (CHUNKSIZE as int)
}

/// The remainder that goes with `floor_div_chunk`, always in `0 .. CHUNKSIZE`.
pub open spec fn mod_chunk(a: int) -> int {
    a % (CHUNKSIZE as int)
}

/// Whether `p` is a chunk's origin corner.
pub open spec fn is_chunk_aligned(p: Pos3) -> bool {
    mod_chunk(p.x as int) == 0 && mod_chunk(p.y as int) == 0 && mod_chunk(p.z as int) == 0
}

/// The index of local position `(x, y, z)` in a chunk's block sequence.
pub open spec fn block_index(x: int, y: int, z: int) -> int {
    x * 1024 + y * 32 + z
}

/// Whether `(x, y, z)` lies inside a chunk.
pub open spec fn in_chunk(x: int, y: int, z: int) -> bool {
    0 <= x < CHUNKSIZE && 0 <= y < CHUNKSIZE && 0 <= z < CHUNKSIZE
}

pub proof fn lemma_block_index_bounds(x: int, y: int, z: int)
    requires
        in_chunk(x, y, z),
    ensures
        0 <= block_index(x, y, z) < CHUNK_VOLUME,
{
}

/// Floor division of a coordinate by `CHUNKSIZE`.
pub fn floor_div_chunksize(a: isize) -> (r: isize)
    ensures
        r == floor_div_chunk(a as int),
{
    if a >= 0 {
        a / CHUNKSIZE
    } else {
        let b: isize = -(a + 1);
        let q: isize = b / CHUNKSIZE;
        proof {
            assert(a as int / 32 == -(b as int / 32) - 1) by (nonlinear_arith)
                requires
                    b == -(a + 1),
                    b >= 0,
            ;
        }
        -q - 1
    }
}

/// The origin of the chunk that owns block position `p`. Division rounds
/// toward negative infinity, so every block belongs to exactly one chunk and
/// blocks at negative coordinates are not folded onto chunk zero.
pub fn chunk_origin_of(p: Pos3) -> (r: Pos3)
    ensures
        r.x == floor_div_chunk(p.x as int) * 32,
        r.y == floor_div_chunk(p.y as int) * 32,
        r.z == floor_div_chunk(p.z as int) * 32,
        is_chunk_aligned(r),
{
    let qx = floor_div_chunksize(p.x);
    let qy = floor_div_chunksize(p.y);
    let qz = floor_div_chunksize(p.z);
    proof {
        lemma_floor_div_times(p.x as int);
        lemma_floor_div_times(p.y as int);
        lemma_floor_div_times(p.z as int);
    }
    Pos3 { x: qx * CHUNKSIZE, y: qy * CHUNKSIZE, z: qz * CHUNKSIZE }
}

/// The position of block `p` inside the chunk that owns it.
pub fn offset_in_chunk(p: Pos3) -> (r: Pos3)
    ensures
        r.x == mod_chunk(p.x as int),
        r.y == mod_chunk(p.y as int),
        r.z == mod_chunk(p.z as int),
        in_chunk(r.x as int, r.y as int, r.z as int),
{
    let o = chunk_origin_of(p);
    proof {
        lemma_floor_div_times(p.x as int);
        lemma_floor_div_times(p.y as int);
        lemma_floor_div_times(p.z as int);
    }
    Pos3 { x: p.x - o.x, y: p.y - o.y, z: p.z - o.z }
}

/// A coordinate is its chunk origin plus its offset, and the origin is a
/// multiple of the chunk size.
pub proof fn lemma_floor_div_times(a: int)
    ensures
        a == floor_div_chunk(a) * 32 + mod_chunk(a),
        0 <= mod_chunk(a) < 32,
        floor_div_chunk(a) * 32 <= a,
        mod_chunk(floor_div_chunk(a) * 32) == 0,
{
    assert(mod_chunk(floor_div_chunk(a) * 32) == 0) by (nonlinear_arith);
}

/// The chunk-grid coordinate of a position: the position divided by
/// `CHUNKSIZE` on each axis, rounding toward negative infinity. Storage keys
/// chunks by it.
pub fn chunk_grid_key(p: Pos3) -> (r: (isize, isize, isize))
    ensures
        r == (floor_div_chunk(p.x as int) as isize, floor_div_chunk(p.y as int) as isize,
            floor_div_chunk(p.z as int) as isize),
{
    (floor_div_chunksize(p.x), floor_div_chunksize(p.y), floor_div_chunksize(p.z))
}

/// The blocks of one chunk, indexed by `x·CHUNKSIZE² + y·CHUNKSIZE + z`.
#[derive(Clone, Debug, PartialEq, Eq)]
pub struct MapChunkData {
    pub blocks: Vec<MapBlock>,
}

impl View for MapChunkData {
    type V = Seq<MapBlock>;

    open spec fn view(&self) -> Seq<MapBlock> {
        self.blocks@
    }
}

impl MapChunkData {
    /// A chunk always holds exactly `CHUNKSIZE³` blocks.
    pub open spec fn wf(&self) -> bool {
        self.blocks@.len() == CHUNK_VOLUME
    }

    /// A chunk filled with air.
    pub fn fully_air() -> (r: Self)
        ensures
            r.wf(),
            r@ == Seq::new(CHUNK_VOLUME as nat, |i: int| MapBlock::Air),
    {
        let mut blocks: Vec<MapBlock> = Vec::new();
        let mut i: usize = 0;
        while i < CHUNK_VOLUME
            invariant
                i <= CHUNK_VOLUME,
                blocks@ == Seq::new(i as nat, |k: int| MapBlock::Air),
            decreases CHUNK_VOLUME - i,
        {
            blocks.push(MapBlock::Air);
            i = i + 1;
        }
        MapChunkData { blocks }
    }

    /// The block at local position `(x, y, z)`.
    pub fn get_blk(&self, x: isize, y: isize, z: isize) -> (r: MapBlock)
        requires
            self.wf(),
            in_chunk(x as int, y as int, z as int),
        ensures
            r == self@[block_index(x as int, y as int, z as int)],
    {
        self.blocks[(x * 1024 + y * 32 + z) as usize]
    }

    /// Sets the block at local position `(x, y, z)`, leaving the others.
    pub fn set_blk(&mut self, x: isize, y: isize, z: isize, b: MapBlock)
        requires
            old(self).wf(),
            in_chunk(x as int, y as int, z as int),
        ensures
            final(self).wf(),
            final(self)@ == old(self)@.update(block_index(x as int, y as int, z as int), b),
    {
        let i = (x * 1024 + y * 32 + z) as usize;
        self.blocks.set(i, b);
    }
}

} // verus!
