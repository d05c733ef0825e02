use vstd::prelude::*;
use crate::block::{MapBlock, MapChunkData, CHUNK_VOLUME};

verus! {

/// Why a chunk blob could not be decoded.
#[derive(Clone, Copy, Debug, PartialEq, Eq, Structural)]
pub enum ChunkDecodeError {
    /// The blob holds no version byte.
    Empty,
    /// The version byte names a format that this code does not know.
    UnsupportedVersion(u8),
    /// The compressed payload is not a valid gzip stream.
    Decompress,
    /// The block stream ended before the chunk was full.
    Truncated,
    /// The block stream goes on after the chunk is full.
    TooLong,
    /// The block stream holds a byte that is no block code.
    InvalidBlock,
}

/// The only chunk blob format version defined so far.
pub const CHUNK_FORMAT_VERSION: u8 = 0;

/// The persisted code of each block kind. Codes are never renumbered.
pub open spec fn block_code(b: MapBlock) -> u8 {
    match b {
        MapBlock::Air => 0,
        MapBlock::Water => 1,
        MapBlock::Sand => 2,
        MapBlock::Ground => 3,
        MapBlock::Wood => 4,
        MapBlock::Stone => 5,
        MapBlock::Leaves => 6,
        MapBlock::Tree => 7,
        MapBlock::Cactus => 8,
        MapBlock::Coal => 9,
    }
}

/// The block kind that a persisted code stands for, if any.
pub open spec fn block_of_code(n: u8) -> Option<MapBlock> {
    if n == 0 {
        Some(MapBlock::Air)
    } else if n == 1 {
        Some(MapBlock::Water)
    } else if n == 2 {
        Some(MapBlock::Sand)
    } else if n == 3 {
        Some(MapBlock::Ground)
    } else if n == 4 {
        Some(MapBlock::Wood)
    } else if n == 5 {
        Some(MapBlock::Stone)
    } else if n == 6 {
        Some(MapBlock::Leaves)
    } else if n == 7 {
        Some(MapBlock::Tree)
    } else if n == 8 {
        Some(MapBlock::Cactus)
    } else if n == 9 {
        Some(MapBlock::Coal)
    } else {
        None
    }
}

/// Decoding the code of a block gives the block back.
pub proof fn lemma_block_code_round_trip(b: MapBlock)
    ensures
        block_of_code(block_code(b)) == Some(b),
{
}

/// Exactly the bytes `0 ..= 9` are block codes, and each encodes back to itself.
pub proof fn lemma_code_block_round_trip(n: u8)
    ensures
        block_of_code(n) is Some <==> n <= 9,
        block_of_code(n) is Some ==> block_code(block_of_code(n)->Some_0) == n,
{
}

/// The code of a block.
pub fn mapblock_to_number(b: MapBlock) -> (r: u8)
    ensures
        r == block_code(b),
{
    match b {
        MapBlock::Air => 0,
        MapBlock::Water => 1,
        MapBlock::Sand => 2,
        MapBlock::Ground => 3,
        MapBlock::Wood => 4,
        MapBlock::Stone => 5,
        MapBlock::Leaves => 6,
        MapBlock::Tree => 7,
        MapBlock::Cactus => 8,
        MapBlock::Coal => 9,
    }
}

/// The block that a code stands for, or `None` for a byte that is no code.
pub fn number_to_mapblock(n: u8) -> (r: Option<MapBlock>)
    ensures
        r == block_of_code(n),
{
    match n {
        0 => Some(MapBlock::Air),
        1 => Some(MapBlock::Water),
        2 => Some(MapBlock::Sand),
        3 => Some(MapBlock::Ground),
        4 => Some(MapBlock::Wood),
        5 => Some(MapBlock::Stone),
        6 => Some(MapBlock::Leaves),
        7 => Some(MapBlock::Tree),
        8 => Some(MapBlock::Cactus),
        9 => Some(MapBlock::Coal),
        _ => None,
    }
}

/// One code byte per block, in order.
pub open spec fn encode_blocks(s: Seq<MapBlock>) -> Seq<u8> {
    Seq::new(s.len(), |i: int| block_code(s[i]))
}

/// Whether the first `CHUNK_VOLUME` bytes of `d` that exist hold an invalid code.
pub open spec fn stream_has_invalid(d: Seq<u8>) -> bool {
    exists|j: int| 0 <= j < d.len() && j < CHUNK_VOLUME && #[trigger] d[j] > 9
}

/// What a decompressed block stream decodes to. It must hold exactly one
/// code per block of a chunk. Bytes are read in order, so a bad code met
/// before the stream runs out is reported as such; a stream whose chunk-sized
/// prefix is valid is refused when it is shorter or longer than a chunk.
pub open spec fn decode_block_stream(d: Seq<u8>) -> Result<Seq<MapBlock>, ChunkDecodeError> {
    if stream_has_invalid(d) {
        Err(ChunkDecodeError::InvalidBlock)
    } else if d.len() < CHUNK_VOLUME {
        Err(ChunkDecodeError::Truncated)
    } else if d.len() > CHUNK_VOLUME {
        Err(ChunkDecodeError::TooLong)
    } else {
        Ok(Seq::new(CHUNK_VOLUME as nat, |i: int| block_of_code(d[i])->Some_0))
    }
}

/// The bytes that `flate2` produces when gzip-compressing `data` at its
/// fastest level with a default header.
pub uninterp spec fn gzip_fast_of(data: Seq<u8>) -> Seq<u8>;

/// What `flate2`'s single-member gzip decoder reads from `data`, or `None`
/// where it reports an error.
pub uninterp spec fn gunzip_of(data: Seq<u8>) -> Option<Seq<u8>>;

/// What a chunk blob decodes to: a version byte, then a compressed block stream.
pub open spec fn chunk_from_blob(b: Seq<u8>) -> Result<Seq<MapBlock>, ChunkDecodeError> {
    if b.len() == 0 {
        Err(ChunkDecodeError::Empty)
    } else if b[0] != CHUNK_FORMAT_VERSION {
        Err(ChunkDecodeError::UnsupportedVersion(b[0]))
    } else {
        match gunzip_of(b.skip(1)) {
            None => Err(ChunkDecodeError::Decompress),
            Some(d) => decode_block_stream(d),
        }
    }
}

/// The blob that a chunk is stored as.
pub open spec fn chunk_blob(blocks: Seq<MapBlock>) -> Seq<u8> {
    seq![CHUNK_FORMAT_VERSION].add(gzip_fast_of(encode_blocks(blocks)))
}

/// Relies on `flate2::GzBuilder::read` with `Compression::fast()`: the header
/// is fixed (no name, no comment, mtime 0), so the output depends on the input
/// alone, and gzip decoding gives the input back. Reading from a byte slice
/// cannot fail.
#[verifier::external_body]
fn gzip_fast(data: &[u8]) -> (r: Vec<u8>)
    ensures
        r@ == gzip_fast_of(data@),
        gunzip_of(r@) == Some(data@),
{
    let mut enc = flate2::GzBuilder::new().read(data, flate2::Compression::fast());
    let mut r: Vec<u8> = Vec::new();
    std::io::copy(&mut enc, &mut r).unwrap();
    r
}

/// Relies on `flate2::read::GzDecoder`: decodes the first gzip member of
/// `data`; any error it reports becomes `None`.
#[verifier::external_body]
fn gunzip(data: &[u8]) -> (r: Option<Vec<u8>>)
    ensures
        match r {
            Some(v) => gunzip_of(data@) == Some(v@),
            None => gunzip_of(data@) is None,
        },
{
    let mut dec = flate2::read::GzDecoder::new(data);
    let mut buf: Vec<u8> = Vec::new();
    match std::io::copy(&mut dec, &mut buf) {
        Ok(_) => Some(buf),
        Err(_) => None,
    }
}

/// The code bytes of a chunk, one per block.
pub fn encode_chunk_blocks(data: &MapChunkData) -> (r: Vec<u8>)
    requires
        data.wf(),
    ensures
        r@ == encode_blocks(data@),
{
    let mut r: Vec<u8> = Vec::new();
    let mut i: usize = 0;
    while i < data.blocks.len()
        invariant
            i <= data@.len(),
            r@ == Seq::new(i as nat, |k: int| block_code(data@[k])),
        decreases data@.len() - i,
    {
        let c = mapblock_to_number(data.blocks[i]);
        r.push(c);
        i = i + 1;
        assert(r@ =~= Seq::new(i as nat, |k: int| block_code(data@[k])));
    }
    assert(r@ =~= encode_blocks(data@));
    r
}

/// Decodes a decompressed block stream into a chunk.
pub fn decode_chunk_blocks(d: &[u8]) -> (r: Result<MapChunkData, ChunkDecodeError>)
    ensures
        match r {
            Ok(c) => c.wf() && decode_block_stream(d@) == Ok::<Seq<MapBlock>, ChunkDecodeError>(c@),
            Err(e) => decode_block_stream(d@) == Err::<Seq<MapBlock>, ChunkDecodeError>(e),
        },
{
    let mut blocks: Vec<MapBlock> = Vec::new();
    let mut i: usize = 0;
    while i < CHUNK_VOLUME
        invariant
            i <= CHUNK_VOLUME,
            i <= d@.len(),
            forall|j: int| 0 <= j < i ==> d@[j] <= 9,
            blocks@ == Seq::new(i as nat, |k: int| block_of_code(d@[k])->Some_0),
        decreases CHUNK_VOLUME - i,
    {
        if i >= d.len() {
            proof {
                assert(!stream_has_invalid(d@));
            }
            return Err(ChunkDecodeError::Truncated);
        }
        match number_to_mapblock(d[i]) {
            Some(b) => {
                blocks.push(b);
                i = i + 1;
                assert(blocks@ =~= Seq::new(i as nat, |k: int| block_of_code(d@[k])->Some_0));
            },
            None => {
                proof {
                    assert(d@[i as int] > 9);
                    assert(stream_has_invalid(d@));
                }
                return Err(ChunkDecodeError::InvalidBlock);
            },
        }
    }
    assert(!stream_has_invalid(d@));
    if d.len() > CHUNK_VOLUME {
        return Err(ChunkDecodeError::TooLong);
    }
    Ok(MapChunkData { blocks })
}

/// Encodes a chunk as a blob: the format version byte, then the gzip-compressed
/// block codes. The blob decodes back to the same chunk.
pub fn serialize_mapchunk_data(data: &MapChunkData) -> (r: Vec<u8>)
    requires
        data.wf(),
    ensures
        r@ == chunk_blob(data@),
        r@.len() >= 1 && r@[0] == CHUNK_FORMAT_VERSION,
        gunzip_of(r@.skip(1)) == Some(encode_blocks(data@)),
        encode_blocks(data@).len() == CHUNK_VOLUME,
        chunk_from_blob(r@) == Ok::<Seq<MapBlock>, ChunkDecodeError>(data@),
{
    let blocks = encode_chunk_blocks(data);
    let compressed = gzip_fast(blocks.as_slice());
    let mut r: Vec<u8> = Vec::new();
    r.push(CHUNK_FORMAT_VERSION);
    let mut i: usize = 0;
    while i < compressed.len()
        invariant
            i <= compressed@.len(),
            r@ == seq![CHUNK_FORMAT_VERSION].add(compressed@.take(i as int)),
        decreases compressed@.len() - i,
    {
        r.push(compressed[i]);
        i = i + 1;
        assert(r@ =~= seq![CHUNK_FORMAT_VERSION].add(compressed@.take(i as int)));
    }
    assert(compressed@.take(i as int) =~= compressed@);
    proof {
        assert(r@.skip(1) =~= compressed@);
        lemma_decode_encoded(data@);
    }
    r
}

/// Decoding the code bytes of a full chunk gives the chunk back.
pub proof fn lemma_decode_encoded(s: Seq<MapBlock>)
    requires
        s.len() == CHUNK_VOLUME,
    ensures
        decode_block_stream(encode_blocks(s)) == Ok::<Seq<MapBlock>, ChunkDecodeError>(s),
{
    let d = encode_blocks(s);
    assert forall|j: int| 0 <= j < d.len() && j < CHUNK_VOLUME implies !(#[trigger] d[j] > 9) by {
        lemma_block_code_round_trip(s[j]);
    }
    assert forall|i: int| 0 <= i < CHUNK_VOLUME implies block_of_code(d[i])->Some_0 == s[i] by {
        lemma_block_code_round_trip(s[i]);
    }
    assert(Seq::new(CHUNK_VOLUME as nat, |i: int| block_of_code(d[i])->Some_0) =~= s);
}

/// Decodes a chunk blob, checking the version byte before anything else and
/// every block code after decompression.
pub fn deserialize_mapchunk_data(data: &[u8]) -> (r: Result<MapChunkData, ChunkDecodeError>)
    ensures
        match r {
            Ok(c) => c.wf() && chunk_from_blob(data@) == Ok::<Seq<MapBlock>, ChunkDecodeError>(c@),
            Err(e) => chunk_from_blob(data@) == Err::<Seq<MapBlock>, ChunkDecodeError>(e),
        },
{
    if data.len() == 0 {
        return Err(ChunkDecodeError::Empty);
    }
    let version = data[0];
    if version != CHUNK_FORMAT_VERSION {
        return Err(ChunkDecodeError::UnsupportedVersion(version));
    }
    let mut rest: Vec<u8> = Vec::new();
    let mut i: usize = 1;
    while i < data.len()
        invariant
            1 <= i <= data@.len(),
            rest@ == data@.subrange(1, i as int),
        decreases data@.len() - i,
    {
        rest.push(data[i]);
        i = i + 1;
        assert(rest@ =~= data@.subrange(1, i as int));
    }
    assert(rest@ =~= data@.skip(1));
    match gunzip(rest.as_slice()) {
        None => Err(ChunkDecodeError::Decompress),
        Some(d) => decode_chunk_blocks(d.as_slice()),
    }
}

/// Any blob whose first byte is not the known format version is refused with
/// a version error naming that byte.
pub proof fn lemma_unknown_version_refused(b: Seq<u8>)
    requires
        b.len() > 0,
        b[0] != CHUNK_FORMAT_VERSION,
    ensures
        chunk_from_blob(b) == Err::<Seq<MapBlock>, ChunkDecodeError>(
            ChunkDecodeError::UnsupportedVersion(b[0]),
        ),
{
}

/// A blob of the known version whose block stream holds a byte outside
/// `0 ..= 9` among the chunk's blocks fails with an invalid-block error.
pub proof fn lemma_invalid_code_refused(b: Seq<u8>, j: int)
    requires
        b.len() > 0,
        b[0] == CHUNK_FORMAT_VERSION,
        gunzip_of(b.skip(1)) is Some,
        0 <= j < gunzip_of(b.skip(1))->Some_0.len(),
        j < CHUNK_VOLUME,
        gunzip_of(b.skip(1))->Some_0[j] > 9,
    ensures
        chunk_from_blob(b) == Err::<Seq<MapBlock>, ChunkDecodeError>(ChunkDecodeError::InvalidBlock),
{
    let d = gunzip_of(b.skip(1))->Some_0;
    assert(stream_has_invalid(d));
}

} // verus!
