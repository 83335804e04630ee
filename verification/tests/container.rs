//! The `.slime` container: reading and framing.

use bytes::{BufMut, Bytes, BytesMut};
use pumpkin_formats::slime::reader::{
    decompress_block, payload, read_chunks, read_header, read_section,
};
use pumpkin_formats::slime::writer::{
    frame_world, put_section, write_compressed, EMPTY_COMPOUND,
};
use pumpkin_formats::slime::zstd::{encode, keep_or_store, ZstdError};
use pumpkin_formats::slime::{
    read_slime_world, SlimeChunk, SlimeError, SlimeSection, SLIME_MAGIC, SLIME_VERSION,
};
use ruzstd::decoding::{BlockDecodingStrategy, FrameDecoder};
use ruzstd::encoding::{compress_to_vec, CompressionLevel};

fn be_i32(v: i32) -> [u8; 4] {
    v.to_be_bytes()
}

/// Frame a payload: compressed length, raw length, compressed bytes.
fn compress_block(raw: &[u8]) -> Vec<u8> {
    let compressed = compress_to_vec(raw, CompressionLevel::Fastest);
    let mut framed = Vec::new();
    framed.extend_from_slice(&be_i32(i32::try_from(compressed.len()).unwrap()));
    framed.extend_from_slice(&be_i32(i32::try_from(raw.len()).unwrap()));
    framed.extend_from_slice(&compressed);
    framed
}

fn header(flags: u8) -> BytesMut {
    let mut file = BytesMut::new();
    file.put_slice(&SLIME_MAGIC);
    file.put_u8(SLIME_VERSION);
    file.put_i32(3700);
    file.put_u8(flags);
    file
}

fn put_segment(buf: &mut BytesMut, data: &[u8]) {
    buf.put_i32(i32::try_from(data.len()).unwrap());
    buf.put_slice(data);
}

fn sample_chunk(x: i32, z: i32) -> SlimeChunk {
    SlimeChunk {
        x,
        z,
        sections: vec![
            SlimeSection {
                block_light: Some(Bytes::from(vec![0x5a; 2048])),
                sky_light: None,
                block_states: Bytes::from(vec![1, 2, 3]),
                biomes: Bytes::from(vec![4]),
            },
            SlimeSection {
                block_light: None,
                sky_light: Some(Bytes::from(vec![0xa5; 2048])),
                block_states: Bytes::new(),
                biomes: Bytes::from(vec![5, 6]),
            },
        ],
        height_maps: Bytes::from(vec![7, 8]),
        block_entities: Bytes::from(vec![9]),
        entities: Bytes::from(vec![10, 11, 12]),
        block_ticks: Bytes::new(),
        fluid_ticks: Bytes::new(),
        poi: Bytes::new(),
    }
}

#[test]
fn parses_minimal_world() {
    // One chunk at (2, 3) with a single empty section, no light, no flags.
    let mut chunk_stream = BytesMut::new();
    chunk_stream.put_i32(1); // chunk count
    chunk_stream.put_i32(2); // x
    chunk_stream.put_i32(3); // z
    chunk_stream.put_i32(1); // section count
    chunk_stream.put_u8(0); // section flags (no light)
    chunk_stream.put_i32(0); // block_states length
    chunk_stream.put_i32(0); // biomes length
    chunk_stream.put_i32(0); // heightmaps length
    chunk_stream.put_i32(0); // tileEntities length
    chunk_stream.put_i32(0); // entities length
    chunk_stream.put_i32(0); // chunk extra length

    let mut file = BytesMut::new();
    file.put_slice(&SLIME_MAGIC);
    file.put_u8(SLIME_VERSION);
    file.put_i32(3700); // world version (DataVersion)
    file.put_u8(0); // additional world data flags
    file.put_slice(&compress_block(&chunk_stream));
    file.put_slice(&compress_block(&[0x0a, 0x00, 0x00, 0x00])); // empty "extra" compound

    let world = read_slime_world(file.freeze()).expect("minimal world should parse");
    assert_eq!(world.world_version, 3700);
    assert_eq!(world.flags, 0);
    assert_eq!(world.chunks.len(), 1);
    let chunk = &world.chunks[0];
    assert_eq!((chunk.x, chunk.z), (2, 3));
    assert_eq!(chunk.sections.len(), 1);
    assert!(chunk.sections[0].block_light.is_none());
    assert!(chunk.sections[0].sky_light.is_none());
    assert!(chunk.sections[0].block_states.is_empty());
}

#[test]
fn reads_section_light_arrays() {
    let mut chunk_stream = BytesMut::new();
    chunk_stream.put_i32(1); // chunk count
    chunk_stream.put_i32(0); // x
    chunk_stream.put_i32(0); // z
    chunk_stream.put_i32(1); // section count
    chunk_stream.put_u8(0b11); // section flags: block + sky light
    chunk_stream.put_slice(&[0x12u8; 2048]); // block light
    chunk_stream.put_slice(&[0x34u8; 2048]); // sky light
    chunk_stream.put_i32(0); // block_states length
    chunk_stream.put_i32(0); // biomes length
    chunk_stream.put_i32(0); // heightmaps length
    chunk_stream.put_i32(0); // tileEntities length
    chunk_stream.put_i32(0); // entities length
    chunk_stream.put_i32(0); // chunk extra length

    let mut file = BytesMut::new();
    file.put_slice(&SLIME_MAGIC);
    file.put_u8(SLIME_VERSION);
    file.put_i32(3700);
    file.put_u8(0);
    file.put_slice(&compress_block(&chunk_stream));
    file.put_slice(&compress_block(&[0x0a, 0x00, 0x00, 0x00]));

    let world = read_slime_world(file.freeze()).expect("world should parse");
    let section = &world.chunks[0].sections[0];
    assert_eq!(section.block_light.as_deref(), Some(&[0x12u8; 2048][..]));
    assert_eq!(section.sky_light.as_deref(), Some(&[0x34u8; 2048][..]));
}

#[test]
fn rejects_bad_magic() {
    let mut file = BytesMut::new();
    file.put_slice(&[0x00, 0x00]);
    file.put_u8(SLIME_VERSION);
    let err = read_slime_world(file.freeze()).unwrap_err();
    assert!(matches!(err, SlimeError::BadMagic));
}

#[test]
fn rejects_newer_version() {
    let mut file = BytesMut::new();
    file.put_slice(&SLIME_MAGIC);
    file.put_u8(99);
    let err = read_slime_world(file.freeze()).unwrap_err();
    assert!(matches!(err, SlimeError::UnsupportedVersion(99)));
}

#[test]
fn rejects_truncated_data() {
    let mut file = BytesMut::new();
    file.put_slice(&SLIME_MAGIC);
    file.put_u8(SLIME_VERSION);
    file.put_i32(3700);
    // missing flags byte and everything after
    let err = read_slime_world(file.freeze()).unwrap_err();
    assert!(matches!(err, SlimeError::Truncated));
}

#[test]
fn reads_the_header_and_stops_behind_it() {
    let mut file = header(0x83);
    file.put_slice(&[1, 2]);
    let mut buf = file.freeze();
    assert_eq!(read_header(&mut buf).unwrap(), (3700, 0x83));
    assert_eq!(buf.as_ref(), &[1, 2]);
}

#[test]
fn reads_a_chunk_stream_of_its_own() {
    // Two empty chunks, the second with negative coordinates, and two more bytes.
    let mut stream = BytesMut::new();
    stream.put_i32(2);
    for (x, z) in [(1, 2), (-3, i32::MIN)] {
        stream.put_i32(x);
        stream.put_i32(z);
        for _ in 0..5 {
            stream.put_i32(0);
        }
    }
    stream.put_slice(&[0xaa, 0xbb]);
    let mut buf = stream.freeze();
    let chunks = read_chunks(&mut buf, 0).unwrap();
    let at: Vec<(i32, i32)> = chunks.iter().map(|chunk| (chunk.x, chunk.z)).collect();
    assert_eq!(at, vec![(1, 2), (-3, i32::MIN)]);
    assert_eq!(buf.as_ref(), &[0xaa, 0xbb]);
}

#[test]
fn reads_announced_segments_and_passes_over_unknown_ones() {
    // Flags: POI, block ticks, fluid ticks and two bits without a meaning.
    let mut stream = BytesMut::new();
    stream.put_i32(1);
    stream.put_i32(7);
    stream.put_i32(8);
    stream.put_i32(0); // section count
    put_segment(&mut stream, &[1]); // heightmaps
    put_segment(&mut stream, &[2, 2]); // poi
    put_segment(&mut stream, &[3, 3, 3]); // block ticks
    put_segment(&mut stream, &[4]); // fluid ticks
    put_segment(&mut stream, &[0xee; 9]); // unknown
    put_segment(&mut stream, &[]); // unknown
    put_segment(&mut stream, &[5]); // tileEntities
    put_segment(&mut stream, &[6]); // entities
    put_segment(&mut stream, &[0xdd; 3]); // chunk extra
    let mut buf = stream.freeze();
    let chunks = read_chunks(&mut buf, 0b0100_1111).unwrap();
    assert!(buf.is_empty());
    let chunk = &chunks[0];
    assert_eq!(chunk.height_maps.as_ref(), &[1]);
    assert_eq!(chunk.poi.as_ref(), &[2, 2]);
    assert_eq!(chunk.block_ticks.as_ref(), &[3, 3, 3]);
    assert_eq!(chunk.fluid_ticks.as_ref(), &[4]);
    assert_eq!(chunk.block_entities.as_ref(), &[5]);
    assert_eq!(chunk.entities.as_ref(), &[6]);
}

#[test]
fn ignores_spare_section_flags() {
    let mut stream = BytesMut::new();
    stream.put_i32(1);
    stream.put_i32(0);
    stream.put_i32(0);
    stream.put_i32(1);
    stream.put_u8(0b1111_1100);
    for _ in 0..6 {
        stream.put_i32(0);
    }
    let mut buf = stream.freeze();
    let chunks = read_chunks(&mut buf, 0).unwrap();
    assert!(chunks[0].sections[0].block_light.is_none());
    assert!(chunks[0].sections[0].sky_light.is_none());
    assert!(buf.is_empty());
}

#[test]
fn rejects_negative_counts_and_lengths() {
    let mut stream = Bytes::from(be_i32(-1).to_vec());
    assert!(matches!(
        read_chunks(&mut stream, 0),
        Err(SlimeError::Corrupt("negative chunk count"))
    ));

    let mut sections = BytesMut::new();
    sections.put_i32(1);
    sections.put_i32(0);
    sections.put_i32(0);
    sections.put_i32(-7);
    assert!(matches!(
        read_chunks(&mut sections.freeze(), 0),
        Err(SlimeError::Corrupt("negative section count"))
    ));

    let mut segment = BytesMut::new();
    segment.put_i32(1);
    segment.put_i32(0);
    segment.put_i32(0);
    segment.put_i32(0);
    segment.put_i32(i32::MIN);
    assert!(matches!(
        read_chunks(&mut segment.freeze(), 0),
        Err(SlimeError::Corrupt("negative segment length"))
    ));

    let mut file = header(0);
    file.put_i32(-1);
    file.put_i32(0);
    assert!(matches!(
        read_slime_world(file.freeze()),
        Err(SlimeError::Corrupt("negative compressed length"))
    ));
}

#[test]
fn rejects_what_is_no_zstd_frame() {
    let mut file = header(0);
    put_segment_frame(&mut file, &[1, 2, 3, 4, 5, 6, 7, 8]);
    assert!(matches!(
        read_slime_world(file.freeze()),
        Err(SlimeError::Decompress)
    ));
}

fn put_segment_frame(file: &mut BytesMut, compressed: &[u8]) {
    file.put_i32(i32::try_from(compressed.len()).unwrap());
    file.put_i32(0);
    file.put_slice(compressed);
}

#[test]
fn reports_a_damaged_zstd_frame() {
    let mut compressed = compress_to_vec(&[7u8; 100][..], CompressionLevel::Fastest);
    compressed.truncate(compressed.len() - 5);
    let mut file = header(0);
    put_segment_frame(&mut file, &compressed);
    assert!(matches!(
        read_slime_world(file.freeze()),
        Err(SlimeError::Io(_))
    ));
}

#[test]
fn maps_decoder_errors() {
    assert_eq!(payload(Ok(vec![1, 2])).unwrap(), Bytes::from(vec![1, 2]));
    assert!(matches!(
        payload(Err(ZstdError::Frame)),
        Err(SlimeError::Decompress)
    ));
    let inner = std::io::Error::new(std::io::ErrorKind::Other, "inner");
    assert!(matches!(
        payload(Err(ZstdError::Stream(inner))),
        Err(SlimeError::Io(error)) if error.to_string() == "inner"
    ));
}

#[test]
fn loads_a_world_without_extra() {
    let mut chunk_stream = BytesMut::new();
    chunk_stream.put_i32(0);
    let mut file = header(0);
    file.put_slice(&compress_block(&chunk_stream));
    let world = read_slime_world(file.clone().freeze()).unwrap();
    assert!(world.extra.is_empty());
    assert!(world.chunks.is_empty());

    // A damaged one counts as none.
    put_segment_frame(&mut file, &[1, 2, 3]);
    assert!(read_slime_world(file.freeze()).unwrap().extra.is_empty());
}

#[test]
fn frames_an_empty_world() {
    let file = frame_world(3700, &[], &Vec::new());
    assert_eq!(&file[..8], &[0xb1, 0x0b, 13, 0, 0, 0x0e, 0x74, 0]);
    let world = read_slime_world(Bytes::from(file)).unwrap();
    assert_eq!(world.world_version, 3700);
    assert_eq!(world.flags, 0);
    assert!(world.chunks.is_empty());
    assert_eq!(world.extra.as_ref(), &EMPTY_COMPOUND);
    assert_eq!(EMPTY_COMPOUND, [0x0a, 0x00, 0x00, 0x00]);
}

#[test]
fn compresses_both_payloads() {
    let file = frame_world(1, &[9; 500], &Vec::new());
    let first = i32::from_be_bytes([file[8], file[9], file[10], file[11]]) as usize;
    assert_eq!(&file[12..16], &be_i32(4)); // raw length: the chunk count
    assert_eq!(&file[16..20], &[0x28, 0xb5, 0x2f, 0xfd]); // zstd frame magic
    let second = &file[16 + first..];
    assert_eq!(&second[4..8], &be_i32(500));
    assert_eq!(&second[8..12], &[0x28, 0xb5, 0x2f, 0xfd]);
    let world = read_slime_world(Bytes::from(file)).unwrap();
    assert_eq!(world.extra.as_ref(), &[9u8; 500][..]);
}

#[test]
fn reads_back_a_framed_world() {
    let chunks = vec![sample_chunk(4, -2), sample_chunk(i32::MIN, i32::MAX)];
    let file = frame_world(-5, &[1, 2, 3], &chunks);
    let world = read_slime_world(Bytes::from(file)).unwrap();
    assert_eq!(world.world_version, -5);
    assert_eq!(world.extra.as_ref(), &[1, 2, 3]);
    assert_eq!(world.chunks.len(), 2);
    for (before, after) in chunks.iter().zip(&world.chunks) {
        assert_eq!((before.x, before.z), (after.x, after.z));
        assert_eq!(before.sections.len(), after.sections.len());
        for (a, b) in before.sections.iter().zip(&after.sections) {
            assert_eq!(a.block_light, b.block_light);
            assert_eq!(a.sky_light, b.sky_light);
            assert_eq!(a.block_states, b.block_states);
            assert_eq!(a.biomes, b.biomes);
        }
        assert_eq!(before.height_maps, after.height_maps);
        assert_eq!(before.block_entities, after.block_entities);
        assert_eq!(before.entities, after.entities);
        assert!(after.block_ticks.is_empty());
        assert!(after.fluid_ticks.is_empty());
        assert!(after.poi.is_empty());
    }
}

#[test]
fn reads_back_a_large_payload() {
    // More than one zstd block, compressible and not.
    let mut noise: Vec<u8> = Vec::new();
    let mut state: u32 = 1;
    for _ in 0..200_000 {
        state = state.wrapping_mul(1_664_525).wrapping_add(1_013_904_223);
        noise.push((state >> 24) as u8);
    }
    let mut chunk = sample_chunk(0, 0);
    chunk.height_maps = Bytes::from(noise.clone());
    chunk.entities = Bytes::from(vec![0x11; 300_000]);
    let file = frame_world(1, &noise, &vec![chunk]);
    let world = read_slime_world(Bytes::from(file)).unwrap();
    assert_eq!(world.extra.as_ref(), &noise[..]);
    assert_eq!(world.chunks[0].height_maps.as_ref(), &noise[..]);
    assert_eq!(world.chunks[0].entities.as_ref(), &vec![0x11; 300_000][..]);
}

/// A block that is stored raw after a Huffman table was made for it, and a
/// second one that the compressor writes with that table.
fn hard_to_compress() -> Vec<u8> {
    let mut state: u32 = 1;
    let mut next = |bound: usize| {
        state = state.wrapping_mul(1_664_525).wrapping_add(1_013_904_223);
        (state >> 8) as usize % bound
    };
    let mut data: Vec<u8> = (0..131_072).map(|i| (i % 255) as u8).collect();
    for i in 0..4 {
        data[i * 255] = 254;
    }
    for i in (1..data.len()).rev() {
        data.swap(i, next(i + 1));
    }
    data.copy_within(0..5, 100_000);
    let mut tail: Vec<u8> = (0..2_040).map(|i| (i % 255) as u8).collect();
    tail.extend([254; 300]);
    for i in (1..tail.len()).rev() {
        tail.swap(i, next(i + 1));
    }
    data.extend(tail);
    data
}

fn decoded(frame: &[u8]) -> Option<Vec<u8>> {
    let mut source = frame;
    let mut decoder = FrameDecoder::new();
    decoder.init(&mut source).ok()?;
    decoder
        .decode_blocks(&mut source, BlockDecodingStrategy::All)
        .ok()?;
    decoder.collect()
}

#[test]
fn stores_what_the_compressor_spoils() {
    let data = hard_to_compress();
    let spoiled = compress_to_vec(&data[..], CompressionLevel::Fastest);
    assert_ne!(decoded(&spoiled), Some(data.clone()));
    assert_eq!(decoded(&encode(&data)), Some(data.clone()));
    let world = read_slime_world(Bytes::from(frame_world(1, &data, &Vec::new()))).unwrap();
    assert_eq!(world.extra.as_ref(), &data[..]);
}

#[test]
fn writes_what_the_compressor_made() {
    // What decodes is written as it is, in the frame and in the file.
    let data = vec![3; 5_000];
    let packed = compress_to_vec(&data[..], CompressionLevel::Fastest);
    assert_eq!(encode(&data), packed);
    assert_eq!(keep_or_store(packed.clone(), &data), packed);
    let mut file = BytesMut::new();
    write_compressed(&mut file, &data);
    assert_eq!(&file[8..], &packed[..]);
}

#[test]
fn stores_what_does_not_come_back() {
    let data = [1, 2, 3, 4];
    let stored = compress_to_vec(&data[..], CompressionLevel::Uncompressed);
    let other = compress_to_vec(&[1, 2, 3, 5][..], CompressionLevel::Fastest);
    let shorter = compress_to_vec(&[1, 2, 3][..], CompressionLevel::Fastest);
    for packed in [other, shorter, vec![], vec![1, 2, 3, 4]] {
        assert_eq!(keep_or_store(packed, &data), stored);
    }
    // A frame of another making is kept if it decodes to the data.
    assert_eq!(keep_or_store(stored.clone(), &data), stored);
}

#[test]
fn encodes_any_data() {
    assert_eq!(decoded(&encode(&[])), Some(Vec::new()));
    assert_eq!(decoded(&encode(&[7])), Some(vec![7]));
    let flat = vec![3; 400_000];
    let frame = encode(&flat);
    assert!(frame.len() < 100);
    assert_eq!(decoded(&frame), Some(flat));
}

#[test]
fn ignores_the_stated_raw_length() {
    let mut file = BytesMut::new();
    file.put_u8(0xee);
    write_compressed(&mut file, &[1, 2, 3, 4]);
    file.put_slice(&[9, 9]);
    for raw in [[0u8; 4], [0xff; 4], [0x80, 0, 0, 1]] {
        let mut bytes = file[1..].to_vec();
        assert_eq!(&bytes[4..8], &be_i32(4));
        bytes[4..8].copy_from_slice(&raw);
        let mut buf = Bytes::from(bytes);
        assert_eq!(decompress_block(&mut buf).unwrap().as_ref(), &[1, 2, 3, 4]);
        assert_eq!(buf.as_ref(), &[9, 9]);
    }
}

#[test]
fn reports_bad_payload_lengths() {
    let mut negative = Bytes::from([be_i32(-1), be_i32(0)].concat());
    assert!(matches!(
        decompress_block(&mut negative),
        Err(SlimeError::Corrupt("negative compressed length"))
    ));
    let mut short = Bytes::from([be_i32(5), be_i32(0), [1, 2, 3, 4]].concat());
    assert!(matches!(
        decompress_block(&mut short),
        Err(SlimeError::Truncated)
    ));
}

#[test]
fn reads_back_a_section() {
    for section in &sample_chunk(0, 0).sections {
        let mut out = BytesMut::new();
        put_section(&mut out, section);
        out.put_slice(&[0xaa, 0xbb]);
        let mut buf = out.freeze();
        let read = read_section(&mut buf).unwrap();
        assert_eq!(read.block_light, section.block_light);
        assert_eq!(read.sky_light, section.sky_light);
        assert_eq!(read.block_states, section.block_states);
        assert_eq!(read.biomes, section.biomes);
        assert_eq!(buf.as_ref(), &[0xaa, 0xbb]);
    }
}

#[test]
fn a_damaged_extra_never_fails_the_load() {
    let file = frame_world(5, &[4, 5], &vec![sample_chunk(1, 1)]);
    let first = i32::from_be_bytes([file[8], file[9], file[10], file[11]]) as usize;
    let tails: [&[u8]; 5] = [
        &[],
        &[0xff; 3],
        &[0xff; 20],
        &[0, 0, 0, 2, 0, 0, 0, 0, 1, 2],
        &[0x7f, 0xff, 0xff, 0xff, 0, 0, 0, 0],
    ];
    for tail in tails {
        let mut damaged = file[..16 + first].to_vec();
        damaged.extend_from_slice(tail);
        let world = read_slime_world(Bytes::from(damaged)).unwrap();
        assert_eq!(world.world_version, 5);
        assert_eq!(world.chunks.len(), 1);
        assert!(world.extra.is_empty());
    }
}

#[test]
fn reports_every_cut_of_a_file() {
    let file = frame_world(1, &[4, 5], &vec![sample_chunk(1, 1)]);
    let first = i32::from_be_bytes([file[8], file[9], file[10], file[11]]) as usize;
    let essential = 16 + first;
    for end in 0..file.len() {
        let cut = read_slime_world(Bytes::from(file[..end].to_vec()));
        if end < essential {
            assert!(matches!(cut, Err(SlimeError::Truncated)));
        } else {
            // The chunks are there; only the "extra" is lost.
            let world = cut.unwrap();
            assert_eq!(world.chunks.len(), 1);
            assert!(world.extra.is_empty());
        }
    }
}

#[test]
fn reports_every_cut_of_a_chunk_stream() {
    let mut stream = BytesMut::new();
    stream.put_i32(1);
    stream.put_i32(1);
    stream.put_i32(2);
    stream.put_i32(1);
    stream.put_u8(0);
    for _ in 0..6 {
        put_segment(&mut stream, &[1, 2]);
    }
    let whole = stream.freeze();
    assert_eq!(read_chunks(&mut whole.clone(), 0).unwrap().len(), 1);
    for end in 0..whole.len() {
        let mut cut = whole.slice(..end);
        assert!(matches!(
            read_chunks(&mut cut, 0),
            Err(SlimeError::Truncated)
        ));
    }
}

#[test]
fn describes_read_errors() {
    assert_eq!(
        SlimeError::BadMagic.message(),
        "not a slime file (invalid magic)"
    );
    assert_eq!(
        SlimeError::UnsupportedVersion(9).message(),
        "unsupported slime format version 9 (only version 13 is supported)"
    );
    assert_eq!(
        SlimeError::UnsupportedVersion(40).message(),
        "unsupported slime format version 40 (only version 13 is supported)"
    );
    assert_eq!(
        SlimeError::UnsupportedVersion(208).message(),
        "unsupported slime format version 208 (only version 13 is supported)"
    );
    assert_eq!(
        SlimeError::Truncated.message(),
        "unexpected end of slime data"
    );
    assert_eq!(
        SlimeError::Corrupt("negative chunk count").message(),
        "corrupt slime data: negative chunk count"
    );
    assert_eq!(
        SlimeError::Decompress.message(),
        "zstd decompression of slime data failed"
    );
    let inner = std::io::Error::new(std::io::ErrorKind::Other, "inner");
    assert_eq!(SlimeError::Io(inner).message(), "io error: inner");
}
