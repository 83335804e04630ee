//! Binary parser for the `.slime` container format.
//!
//! Big-endian integers and two zstd-compressed payloads (the chunks, then the
//! world "extra"), each framed as
//! `[i32 compressed_len][i32 raw_len][compressed bytes]`. NBT segments are
//! framed as `[i32 length][length bytes]`, where a length of zero means absent.

use super::buffer;
use super::error::SlimeError;
use super::layout;
use super::model::{self, SlimeChunk, SlimeSection, SlimeWorld};
use super::zstd::{self, ZstdError};
use super::{
    FLAG_BLOCK_TICKS, FLAG_FLUID_TICKS, FLAG_POI, KNOWN_FLAGS, LIGHT_ARRAY_SIZE, SLIME_MAGIC,
    SLIME_VERSION,
};
use crate::joining;
use bytes::Bytes;
use vstd::prelude::*;

verus! {

/// Caps pre-allocation only; it never limits how much data is actually read.
pub const PREALLOC_CAP: usize = 4096;

fn read_u8(buf: &mut Bytes) -> (r: Result<u8, SlimeError>)
    ensures
        layout::ends(buffer::bytes_seq(*final(buf)), buffer::bytes_seq(*old(buf))),
        r matches Ok(v) ==> layout::parse_u8(buffer::bytes_seq(*old(buf))) == layout::found(
            v,
            *final(buf),
        ),
        r matches Err(e) ==> layout::parse_u8(buffer::bytes_seq(*old(buf))) == layout::failed::<
            u8,
        >(e),
{
    if buffer::remaining(buf) < 1 {
        return Err(SlimeError::Truncated);
    }
    Ok(buffer::get_u8(buf))
}

fn read_i32(buf: &mut Bytes) -> (r: Result<i32, SlimeError>)
    ensures
        layout::ends(buffer::bytes_seq(*final(buf)), buffer::bytes_seq(*old(buf))),
        r matches Ok(v) ==> layout::parse_i32(buffer::bytes_seq(*old(buf))) == layout::found(
            v,
            *final(buf),
        ),
        r matches Err(e) ==> layout::parse_i32(buffer::bytes_seq(*old(buf))) == layout::failed::<
            i32,
        >(e),
{
    if buffer::remaining(buf) < 4 {
        return Err(SlimeError::Truncated);
    }
    Ok(buffer::get_i32(buf))
}

fn take(buf: &mut Bytes, n: usize) -> (r: Result<Bytes, SlimeError>)
    ensures
        layout::ends(buffer::bytes_seq(*final(buf)), buffer::bytes_seq(*old(buf))),
        r matches Ok(v) ==> layout::parse_take(buffer::bytes_seq(*old(buf)), n as nat)
            == layout::found(buffer::bytes_seq(v), *final(buf)),
        r matches Err(e) ==> layout::parse_take(buffer::bytes_seq(*old(buf)), n as nat)
            == layout::failed::<Seq<u8>>(e),
{
    if buffer::remaining(buf) < n {
        return Err(SlimeError::Truncated);
    }
    Ok(buf.split_to(n))
}

/// Read a count; `reason` says what a negative one is.
fn read_count(buf: &mut Bytes, reason: &'static str) -> (r: Result<usize, SlimeError>)
    ensures
        layout::ends(buffer::bytes_seq(*final(buf)), buffer::bytes_seq(*old(buf))),
        r matches Ok(n) ==> layout::parse_count(buffer::bytes_seq(*old(buf)), reason@)
            == layout::found(n as nat, *final(buf)),
        r matches Err(e) ==> layout::parse_count(buffer::bytes_seq(*old(buf)), reason@)
            == layout::failed::<nat>(e),
{
    let n = read_i32(buf)?;
    if n < 0 {
        return Err(SlimeError::Corrupt(reason));
    }
    Ok(n as usize)
}

/// Read an `[i32 length][length bytes]` NBT segment; a zero length yields empty bytes.
fn read_segment(buf: &mut Bytes) -> (r: Result<Bytes, SlimeError>)
    ensures
        layout::ends(buffer::bytes_seq(*final(buf)), buffer::bytes_seq(*old(buf))),
        r matches Ok(v) ==> layout::parse_segment(buffer::bytes_seq(*old(buf))) == layout::found(
            buffer::bytes_seq(v),
            *final(buf),
        ),
        r matches Err(e) ==> layout::parse_segment(buffer::bytes_seq(*old(buf)))
            == layout::failed::<Seq<u8>>(e),
{
    let len = read_count(buf, "negative segment length")?;
    take(buf, len)
}

/// Read a segment that is there only when `present`.
fn read_optional(buf: &mut Bytes, present: bool) -> (r: Result<Bytes, SlimeError>)
    ensures
        layout::ends(buffer::bytes_seq(*final(buf)), buffer::bytes_seq(*old(buf))),
        r matches Ok(v) ==> layout::parse_optional(buffer::bytes_seq(*old(buf)), present)
            == layout::found(buffer::bytes_seq(v), *final(buf)),
        r matches Err(e) ==> layout::parse_optional(buffer::bytes_seq(*old(buf)), present)
            == layout::failed::<Seq<u8>>(e),
{
    if present {
        read_segment(buf)
    } else {
        Ok(Bytes::new())
    }
}

/// Read a light array that is there only when `present`.
fn read_light(buf: &mut Bytes, present: bool) -> (r: Result<Option<Bytes>, SlimeError>)
    ensures
        layout::ends(buffer::bytes_seq(*final(buf)), buffer::bytes_seq(*old(buf))),
        r matches Ok(v) ==> layout::parse_light(buffer::bytes_seq(*old(buf)), present)
            == layout::found(model::light_view(v), *final(buf)),
        r matches Err(e) ==> layout::parse_light(buffer::bytes_seq(*old(buf)), present)
            == layout::failed::<Option<Seq<u8>>>(e),
{
    if present {
        Ok(Some(take(buf, LIGHT_ARRAY_SIZE)?))
    } else {
        Ok(None)
    }
}

/// A masked flag is non-zero exactly when its bit is set.
proof fn lemma_flag_bits(flags: u8)
    ensures
        (flags & 1 != 0) == layout::flag_set(flags, 1),
        (flags & 2 != 0) == layout::flag_set(flags, 2),
        (flags & 4 != 0) == layout::flag_set(flags, 4),
        (flags & !7u8) == flags / 8 * 8,
{
    assert((flags & 1 != 0) == (flags % 2 == 1)) by (bit_vector);
    assert((flags & 2 != 0) == (flags / 2 % 2 == 1)) by (bit_vector);
    assert((flags & 4 != 0) == (flags / 4 % 2 == 1)) by (bit_vector);
    assert((flags & !7u8) == flags / 8 * 8) by (bit_vector);
}

proof fn lemma_ones_bound(b: u8)
    ensures
        layout::ones(b) <= b,
    decreases b,
{
    if b != 0 {
        lemma_ones_bound(b / 2);
    }
}

/// Clear low bits add nothing to the number of set bits.
proof fn lemma_ones_shifted(b: u8)
    ensures
        layout::ones((b / 8 * 8) as u8) == layout::ones(b / 8),
{
    let high = b / 8;
    reveal_with_fuel(layout::ones, 4);
    let n8 = (high * 8) as u8;
    let n4 = (high * 4) as u8;
    let n2 = (high * 2) as u8;
    assert(n8 / 2 == n4 && n8 % 2 == 0);
    assert(n4 / 2 == n2 && n4 % 2 == 0);
    assert(n2 / 2 == high && n2 % 2 == 0);
}

/// How many bits of `b` are set.
fn count_ones(b: u8) -> (n: u32)
    ensures
        n == layout::ones(b),
{
    let mut left: u8 = b;
    let mut n: u32 = 0;
    proof {
        lemma_ones_bound(b);
    }
    while left != 0
        invariant
            n + layout::ones(left) == layout::ones(b),
            layout::ones(b) <= 255,
        decreases left,
    {
        n = n + (left % 2) as u32;
        left = left / 2;
    }
    n
}

/// Pass over `n` segments.
fn skip_segments(buf: &mut Bytes, n: u32) -> (r: Result<(), SlimeError>)
    ensures
        layout::ends(buffer::bytes_seq(*final(buf)), buffer::bytes_seq(*old(buf))),
        r is Ok ==> (layout::parse_segments(buffer::bytes_seq(*old(buf)), n as nat) matches Ok(
            (_, rest),
        ) && rest == buffer::bytes_seq(*final(buf))),
        r matches Err(e) ==> layout::parse_segments(buffer::bytes_seq(*old(buf)), n as nat)
            == layout::failed::<Seq<Seq<u8>>>(e),
{
    let ghost start = buffer::bytes_seq(*buf);
    let ghost mut passed: Seq<Seq<u8>> = Seq::empty();
    let mut i: u32 = 0;
    proof {
        lemma_prepend_nothing(layout::parse_segments(start, n as nat));
    }
    while i < n
        invariant
            layout::ends(buffer::bytes_seq(*buf), buffer::bytes_seq(*old(buf))),
            i <= n,
            start == buffer::bytes_seq(*old(buf)),
            layout::parse_segments(start, n as nat) == layout::prepend(
                passed,
                layout::parse_segments(buffer::bytes_seq(*buf), (n - i) as nat),
            ),
        decreases n - i,
    {
        let segment = read_segment(buf)?;
        proof {
            lemma_prepend_one(
                passed,
                buffer::bytes_seq(segment),
                layout::parse_segments(buffer::bytes_seq(*buf), (n - i - 1) as nat),
            );
            passed = passed.push(buffer::bytes_seq(segment));
        }
        i = i + 1;
    }
    Ok(())
}

proof fn lemma_prepend_nothing<T>(tail: layout::Parsed<Seq<T>>)
    ensures
        layout::prepend(Seq::empty(), tail) == tail,
{
    if let Ok((items, rest)) = tail {
        joining::lemma_cat_nothing(items);
    }
}

/// An item in front of the tail may as well stand at the end of the head.
proof fn lemma_prepend_one<T>(head: Seq<T>, item: T, tail: layout::Parsed<Seq<T>>)
    ensures
        layout::prepend(head, layout::prepend(seq![item], tail)) == layout::prepend(
            head.push(item),
            tail,
        ),
{
    if let Ok((items, rest)) = tail {
        joining::lemma_cat_one(head, item, items);
    }
}

/// Read a section: its flags, its light arrays, its block states and its biomes.
pub fn read_section(buf: &mut Bytes) -> (r: Result<SlimeSection, SlimeError>)
    ensures
        layout::ends(buffer::bytes_seq(*final(buf)), buffer::bytes_seq(*old(buf))),
        r matches Ok(v) ==> layout::parse_section(buffer::bytes_seq(*old(buf))) == layout::found(
            v@,
            *final(buf),
        ),
        r matches Err(e) ==> layout::parse_section(buffer::bytes_seq(*old(buf)))
            == layout::failed::<model::SectionView>(e),
{
    let section_flags = read_u8(buf)?;
    proof {
        lemma_flag_bits(section_flags);
    }
    let block_light = read_light(buf, section_flags & 1 != 0)?;
    let sky_light = read_light(buf, section_flags & 2 != 0)?;
    let block_states = read_segment(buf)?;
    let biomes = read_segment(buf)?;
    Ok(SlimeSection { block_light, sky_light, block_states, biomes })
}

fn read_sections(buf: &mut Bytes) -> (r: Result<Vec<SlimeSection>, SlimeError>)
    ensures
        layout::ends(buffer::bytes_seq(*final(buf)), buffer::bytes_seq(*old(buf))),
        r matches Ok(v) ==> layout::parse_section_list(buffer::bytes_seq(*old(buf)))
            == layout::found(model::sections_view(v@), *final(buf)),
        r matches Err(e) ==> layout::parse_section_list(buffer::bytes_seq(*old(buf)))
            == layout::failed::<Seq<model::SectionView>>(e),
{
    let count = read_count(buf, "negative section count")?;
    let ghost start = buffer::bytes_seq(*buf);
    let mut sections: Vec<SlimeSection> = Vec::with_capacity(
        if count < PREALLOC_CAP {
            count
        } else {
            PREALLOC_CAP
        },
    );
    let mut i: usize = 0;
    proof {
        assert(model::sections_view(sections@) =~= Seq::empty());
        lemma_prepend_nothing(layout::parse_sections(start, count as nat));
    }
    while i < count
        invariant
            layout::ends(buffer::bytes_seq(*buf), buffer::bytes_seq(*old(buf))),
            i <= count,
            layout::parse_sections(start, count as nat) == layout::prepend(
                model::sections_view(sections@),
                layout::parse_sections(buffer::bytes_seq(*buf), (count - i) as nat),
            ),
            layout::parse_section_list(buffer::bytes_seq(*old(buf))) == layout::parse_sections(
                start,
                count as nat,
            ),
        decreases count - i,
    {
        let section = read_section(buf)?;
        let ghost head = model::sections_view(sections@);
        proof {
            lemma_prepend_one(
                head,
                section@,
                layout::parse_sections(buffer::bytes_seq(*buf), (count - i - 1) as nat),
            );
        }
        sections.push(section);
        assert(model::sections_view(sections@) =~= head.push(section@));
        i = i + 1;
    }
    assert(model::sections_view(sections@) + Seq::empty() =~= model::sections_view(sections@));
    Ok(sections)
}

/// Read the additional segments that the world flags announce: POI, block ticks
/// and fluid ticks.
fn read_additional(buf: &mut Bytes, flags: u8) -> (r: Result<(Bytes, Bytes, Bytes), SlimeError>)
    ensures
        layout::ends(buffer::bytes_seq(*final(buf)), buffer::bytes_seq(*old(buf))),
        r matches Ok((poi, block_ticks, fluid_ticks)) ==> layout::parse_additional(
            buffer::bytes_seq(*old(buf)),
            flags,
        ) == layout::found(
            (
                buffer::bytes_seq(poi),
                buffer::bytes_seq(block_ticks),
                buffer::bytes_seq(fluid_ticks),
            ),
            *final(buf),
        ),
        r matches Err(e) ==> layout::parse_additional(buffer::bytes_seq(*old(buf)), flags)
            == layout::failed::<(Seq<u8>, Seq<u8>, Seq<u8>)>(e),
{
    proof {
        lemma_flag_bits(flags);
        lemma_ones_shifted(flags);
    }
    let poi = read_optional(buf, flags & FLAG_POI != 0)?;
    let block_ticks = read_optional(buf, flags & FLAG_BLOCK_TICKS != 0)?;
    let fluid_ticks = read_optional(buf, flags & FLAG_FLUID_TICKS != 0)?;
    // Skip any unknown (future) additional-data segments to stay in sync.
    skip_segments(buf, count_ones(flags & !KNOWN_FLAGS))?;
    Ok((poi, block_ticks, fluid_ticks))
}

/// Read the segments that end a chunk: block entities and entities.
fn read_entities(buf: &mut Bytes) -> (r: Result<(Bytes, Bytes), SlimeError>)
    ensures
        layout::ends(buffer::bytes_seq(*final(buf)), buffer::bytes_seq(*old(buf))),
        r matches Ok((block_entities, entities)) ==> layout::parse_entities(
            buffer::bytes_seq(*old(buf)),
        ) == layout::found(
            (buffer::bytes_seq(block_entities), buffer::bytes_seq(entities)),
            *final(buf),
        ),
        r matches Err(e) ==> layout::parse_entities(buffer::bytes_seq(*old(buf)))
            == layout::failed::<(Seq<u8>, Seq<u8>)>(e),
{
    let block_entities = read_segment(buf)?;
    let entities = read_segment(buf)?;
    let _chunk_extra = read_segment(buf)?;  // per-chunk persistent data, unused.
    Ok((block_entities, entities))
}

fn read_chunk(buf: &mut Bytes, flags: u8) -> (r: Result<SlimeChunk, SlimeError>)
    ensures
        layout::ends(buffer::bytes_seq(*final(buf)), buffer::bytes_seq(*old(buf))),
        r matches Ok(v) ==> layout::parse_chunk(buffer::bytes_seq(*old(buf)), flags)
            == layout::found(v@, *final(buf)),
        r matches Err(e) ==> layout::parse_chunk(buffer::bytes_seq(*old(buf)), flags)
            == layout::failed::<model::ChunkView>(e),
{
    let x = read_i32(buf)?;
    let z = read_i32(buf)?;
    let sections = read_sections(buf)?;
    let height_maps = read_segment(buf)?;

    let (poi, block_ticks, fluid_ticks) = read_additional(buf, flags)?;
    let (block_entities, entities) = read_entities(buf)?;
    Ok(
        SlimeChunk {
            x,
            z,
            sections,
            height_maps,
            block_entities,
            entities,
            block_ticks,
            fluid_ticks,
            poi,
        },
    )
}

/// Parse the decompressed chunk stream of a world whose flags are `flags`.
pub fn read_chunks(buf: &mut Bytes, flags: u8) -> (r: Result<Vec<SlimeChunk>, SlimeError>)
    ensures
        layout::ends(buffer::bytes_seq(*final(buf)), buffer::bytes_seq(*old(buf))),
        r matches Ok(v) ==> layout::parse_chunks(buffer::bytes_seq(*old(buf)), flags)
            == layout::found(model::chunks_view(v@), *final(buf)),
        r matches Err(e) ==> layout::parse_chunks(buffer::bytes_seq(*old(buf)), flags)
            == layout::failed::<Seq<model::ChunkView>>(e),
{
    let count = read_count(buf, "negative chunk count")?;
    let ghost start = buffer::bytes_seq(*buf);
    let mut chunks: Vec<SlimeChunk> = Vec::with_capacity(
        if count < PREALLOC_CAP {
            count
        } else {
            PREALLOC_CAP
        },
    );
    let mut i: usize = 0;
    proof {
        assert(model::chunks_view(chunks@) =~= Seq::empty());
        lemma_prepend_nothing(layout::parse_chunk_run(start, flags, count as nat));
    }
    while i < count
        invariant
            layout::ends(buffer::bytes_seq(*buf), buffer::bytes_seq(*old(buf))),
            i <= count,
            layout::parse_chunk_run(start, flags, count as nat) == layout::prepend(
                model::chunks_view(chunks@),
                layout::parse_chunk_run(buffer::bytes_seq(*buf), flags, (count - i) as nat),
            ),
            layout::parse_chunks(buffer::bytes_seq(*old(buf)), flags) == layout::parse_chunk_run(
                start,
                flags,
                count as nat,
            ),
        decreases count - i,
    {
        let chunk = read_chunk(buf, flags)?;
        let ghost head = model::chunks_view(chunks@);
        proof {
            lemma_prepend_one(
                head,
                chunk@,
                layout::parse_chunk_run(buffer::bytes_seq(*buf), flags, (count - i - 1) as nat),
            );
        }
        chunks.push(chunk);
        assert(model::chunks_view(chunks@) =~= head.push(chunk@));
        i = i + 1;
    }
    assert(model::chunks_view(chunks@) + Seq::empty() =~= model::chunks_view(chunks@));
    Ok(chunks)
}

/// Turn what the decompressor gave for a payload into the payload.
pub fn payload(decoded: Result<Vec<u8>, ZstdError>) -> (r: Result<Bytes, SlimeError>)
    ensures
        r matches Ok(v) ==> layout::payload(zstd::decoded_view(decoded)) == Ok::<
            Seq<u8>,
            super::error::SlimeFailure,
        >(buffer::bytes_seq(v)),
        r matches Err(e) ==> layout::payload(zstd::decoded_view(decoded)) == Err::<
            Seq<u8>,
            super::error::SlimeFailure,
        >(e@),
        decoded matches Err(ZstdError::Stream(error)) ==> r == Err::<Bytes, SlimeError>(
            SlimeError::Io(error),
        ),
{
    match decoded {
        Ok(data) => Ok(buffer::from_vec(data)),
        Err(ZstdError::Frame) => Err(SlimeError::Decompress),
        Err(ZstdError::Stream(error)) => Err(SlimeError::Io(error)),
    }
}

/// Decompress a `[i32 compressed_len][i32 raw_len][zstd]` block.
pub fn decompress_block(buf: &mut Bytes) -> (r: Result<Bytes, SlimeError>)
    ensures
        layout::ends(buffer::bytes_seq(*final(buf)), buffer::bytes_seq(*old(buf))),
        r matches Ok(v) ==> layout::parse_block(buffer::bytes_seq(*old(buf))) == layout::found(
            buffer::bytes_seq(v),
            *final(buf),
        ),
        r matches Err(e) ==> layout::parse_block(buffer::bytes_seq(*old(buf)))
            == layout::failed::<Seq<u8>>(e),
{
    let compressed_len = read_i32(buf)?;
    let _raw_len = read_i32(buf)?;  // legacy; the zstd frame is self-describing.
    if compressed_len < 0 {
        return Err(SlimeError::Corrupt("negative compressed length"));
    }
    let compressed = take(buf, compressed_len as usize)?;
    payload(zstd::decode(buffer::as_slice(&compressed)))
}

/// Read the file header: the world version and the world flags.
pub fn read_header(buf: &mut Bytes) -> (r: Result<(i32, u8), SlimeError>)
    ensures
        layout::ends(buffer::bytes_seq(*final(buf)), buffer::bytes_seq(*old(buf))),
        r matches Ok(v) ==> layout::parse_header(buffer::bytes_seq(*old(buf))) == layout::found(
            v,
            *final(buf),
        ),
        r matches Err(e) ==> layout::parse_header(buffer::bytes_seq(*old(buf)))
            == layout::failed::<(i32, u8)>(e),
{
    let magic = take(buf, SLIME_MAGIC.len())?;
    let magic = buffer::as_slice(&magic);
    if magic[0] != SLIME_MAGIC[0] || magic[1] != SLIME_MAGIC[1] {
        return Err(SlimeError::BadMagic);
    }
    assert(magic@ =~= SLIME_MAGIC@);
    let version = read_u8(buf)?;
    if version != SLIME_VERSION {
        return Err(SlimeError::UnsupportedVersion(version));
    }
    let world_version = read_i32(buf)?;
    let flags = read_u8(buf)?;
    Ok((world_version, flags))
}

/// Parse a `.slime` file (format version 13) into a [`SlimeWorld`].
pub fn read_slime_world(buf: Bytes) -> (r: Result<SlimeWorld, SlimeError>)
    ensures
        r matches Ok(world) ==> layout::parse_world(buffer::bytes_seq(buf)) == Ok::<
            model::WorldView,
            super::error::SlimeFailure,
        >(world@),
        r matches Err(e) ==> layout::parse_world(buffer::bytes_seq(buf)) == Err::<
            model::WorldView,
            super::error::SlimeFailure,
        >(e@),
{
    let mut buf = buf;
    let (world_version, flags) = read_header(&mut buf)?;
    let mut chunk_stream = decompress_block(&mut buf)?;
    let chunks = read_chunks(&mut chunk_stream, flags)?;
    // The "extra" block is always written, but is non-essential for loading.
    let extra = match decompress_block(&mut buf) {
        Ok(extra) => extra,
        Err(_) => Bytes::new(),
    };
    Ok(SlimeWorld { world_version, flags, chunks, extra })
}

} // verus!
