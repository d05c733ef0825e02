use std::io::Write;

use mehlon::block::{MapBlock, MapChunkData, CHUNK_VOLUME};
use mehlon::codec::{
    decode_chunk_blocks, deserialize_mapchunk_data, encode_chunk_blocks, mapblock_to_number,
    number_to_mapblock, serialize_mapchunk_data, ChunkDecodeError,
};

const ALL_BLOCKS: [MapBlock; 10] = [
    MapBlock::Air,
    MapBlock::Water,
    MapBlock::Sand,
    MapBlock::Ground,
    MapBlock::Wood,
    MapBlock::Stone,
    MapBlock::Leaves,
    MapBlock::Tree,
    MapBlock::Cactus,
    MapBlock::Coal,
];

fn gzip(bytes: &[u8]) -> Vec<u8> {
    let mut enc = flate2::write::GzEncoder::new(Vec::new(), flate2::Compression::fast());
    enc.write_all(bytes).unwrap();
    enc.finish().unwrap()
}

fn varied_chunk() -> MapChunkData {
    let mut blocks = Vec::new();
    for i in 0..CHUNK_VOLUME {
        blocks.push(ALL_BLOCKS[(i * 7 + i / 13) % 10]);
    }
    MapChunkData { blocks }
}

#[test]
fn block_codes_are_fixed() {
    let expected: [u8; 10] = [0, 1, 2, 3, 4, 5, 6, 7, 8, 9];
    for (b, n) in ALL_BLOCKS.iter().zip(expected.iter()) {
        assert_eq!(mapblock_to_number(*b), *n);
    }
}

#[test]
fn block_code_round_trip() {
    for b in ALL_BLOCKS.iter() {
        assert_eq!(number_to_mapblock(mapblock_to_number(*b)), Some(*b));
    }
    for n in 10..=255u8 {
        assert_eq!(number_to_mapblock(n), None);
    }
}

#[test]
fn chunk_round_trip() {
    let c = varied_chunk();
    let blob = serialize_mapchunk_data(&c);
    assert_eq!(deserialize_mapchunk_data(&blob), Ok(c));
}

#[test]
fn air_chunk_round_trip() {
    let c = MapChunkData::fully_air();
    assert_eq!(c.blocks.len(), CHUNK_VOLUME);
    let blob = serialize_mapchunk_data(&c);
    assert_eq!(deserialize_mapchunk_data(&blob), Ok(c));
}

#[test]
fn blob_is_versioned_gzip() {
    let c = varied_chunk();
    let blob = serialize_mapchunk_data(&c);
    assert_eq!(blob[0], 0);
    assert_eq!(blob[1], 0x1f);
    assert_eq!(blob[2], 0x8b);
    assert!(blob.len() < CHUNK_VOLUME);
    let raw = encode_chunk_blocks(&c);
    assert_eq!(raw.len(), CHUNK_VOLUME);
    assert_eq!(raw[1], 7);
}

#[test]
fn serialization_is_deterministic() {
    let c = varied_chunk();
    assert_eq!(serialize_mapchunk_data(&c), serialize_mapchunk_data(&c));
}

#[test]
fn every_unknown_version_is_refused() {
    let c = MapChunkData::fully_air();
    let blob = serialize_mapchunk_data(&c);
    for v in 1..=255u8 {
        let mut bad = blob.clone();
        bad[0] = v;
        assert_eq!(deserialize_mapchunk_data(&bad), Err(ChunkDecodeError::UnsupportedVersion(v)));
    }
}

#[test]
fn empty_blob_is_refused() {
    assert_eq!(deserialize_mapchunk_data(&[]), Err(ChunkDecodeError::Empty));
}

#[test]
fn corrupt_payload_is_refused() {
    assert_eq!(deserialize_mapchunk_data(&[0, 1, 2, 3, 4]), Err(ChunkDecodeError::Decompress));
}

#[test]
fn invalid_block_code_is_refused() {
    for bad in [10u8, 11, 200, 255] {
        let mut stream = vec![3u8; CHUNK_VOLUME];
        stream[1234] = bad;
        let mut blob = vec![0u8];
        blob.extend_from_slice(&gzip(&stream));
        assert_eq!(deserialize_mapchunk_data(&blob), Err(ChunkDecodeError::InvalidBlock));
    }
}

#[test]
fn invalid_code_in_short_stream_is_refused() {
    let stream = vec![1u8, 2, 99];
    let mut blob = vec![0u8];
    blob.extend_from_slice(&gzip(&stream));
    assert_eq!(deserialize_mapchunk_data(&blob), Err(ChunkDecodeError::InvalidBlock));
}

#[test]
fn truncated_stream_is_refused() {
    let stream = vec![2u8; CHUNK_VOLUME - 1];
    let mut blob = vec![0u8];
    blob.extend_from_slice(&gzip(&stream));
    assert_eq!(deserialize_mapchunk_data(&blob), Err(ChunkDecodeError::Truncated));
}

#[test]
fn overlong_stream_is_refused() {
    let mut stream = vec![5u8; CHUNK_VOLUME];
    stream.push(0);
    assert_eq!(decode_chunk_blocks(&stream), Err(ChunkDecodeError::TooLong));
    let zeros = vec![0u8; CHUNK_VOLUME + 1];
    let mut blob = vec![0u8];
    blob.extend_from_slice(&gzip(&zeros));
    assert_eq!(deserialize_mapchunk_data(&blob), Err(ChunkDecodeError::TooLong));
}

#[test]
fn exact_stream_decodes() {
    let stream = vec![5u8; CHUNK_VOLUME];
    let c = decode_chunk_blocks(&stream).unwrap();
    assert!(c.blocks.iter().all(|b| *b == MapBlock::Stone));
}
