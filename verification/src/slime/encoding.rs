//! The byte layout of a `.slime` file, as the writer puts it together.

use super::buffer;
use super::layout;
use super::model::{ChunkView, SectionView};
use vstd::prelude::*;

verus! {

/// The value written for a count or a length: the count itself, or the largest
/// value that fits.
pub open spec fn count_value(n: nat) -> i32 {
    if n <= i32::MAX {
        n as i32
    } else {
        i32::MAX
    }
}

pub open spec fn count_bytes(n: nat) -> Seq<u8> {
    buffer::be_bytes(count_value(n))
}

/// A length and that many bytes.
pub open spec fn segment_bytes(data: Seq<u8>) -> Seq<u8> {
    count_bytes(data.len()) + data
}

pub open spec fn segments_bytes(segments: Seq<Seq<u8>>) -> Seq<u8>
    decreases segments.len(),
{
    if segments.len() == 0 {
        Seq::empty()
    } else {
        segment_bytes(segments[0]) + segments_bytes(segments.drop_first())
    }
}

/// A segment that is written only when `present`.
pub open spec fn optional_bytes(data: Seq<u8>, present: bool) -> Seq<u8> {
    if present {
        segment_bytes(data)
    } else {
        Seq::empty()
    }
}

pub open spec fn light_bytes(light: Option<Seq<u8>>) -> Seq<u8> {
    match light {
        Some(data) => data,
        None => Seq::empty(),
    }
}

/// The section flags: bit 0 for block light, bit 1 for sky light.
pub open spec fn section_flags(section: SectionView) -> u8 {
    match (section.block_light, section.sky_light) {
        (None, None) => 0,
        (Some(_), None) => 1,
        (None, Some(_)) => 2,
        (Some(_), Some(_)) => 3,
    }
}

pub open spec fn section_bytes(section: SectionView) -> Seq<u8> {
    seq![section_flags(section)] + light_bytes(section.block_light) + light_bytes(
        section.sky_light,
    ) + segment_bytes(section.block_states) + segment_bytes(section.biomes)
}

pub open spec fn sections_bytes(sections: Seq<SectionView>) -> Seq<u8>
    decreases sections.len(),
{
    if sections.len() == 0 {
        Seq::empty()
    } else {
        section_bytes(sections[0]) + sections_bytes(sections.drop_first())
    }
}

/// The additional segments of a chunk: those that the world flags announce, and
/// one for each flag that this library does not know.
pub open spec fn additional_bytes(chunk: ChunkView, flags: u8, unknown: Seq<Seq<u8>>) -> Seq<u8> {
    optional_bytes(chunk.poi, layout::flag_set(flags, super::FLAG_POI)) + optional_bytes(
        chunk.block_ticks,
        layout::flag_set(flags, super::FLAG_BLOCK_TICKS),
    ) + optional_bytes(chunk.fluid_ticks, layout::flag_set(flags, super::FLAG_FLUID_TICKS))
        + segments_bytes(unknown)
}

/// A chunk of a world whose flags are `flags`; `extra` is its persistent data.
pub open spec fn chunk_bytes(
    chunk: ChunkView,
    flags: u8,
    unknown: Seq<Seq<u8>>,
    extra: Seq<u8>,
) -> Seq<u8> {
    buffer::be_bytes(chunk.x) + buffer::be_bytes(chunk.z) + count_bytes(chunk.sections.len())
        + sections_bytes(chunk.sections) + segment_bytes(chunk.height_maps) + additional_bytes(
        chunk,
        flags,
        unknown,
    ) + segment_bytes(chunk.block_entities) + segment_bytes(chunk.entities) + segment_bytes(extra)
}

/// A chunk as it is written back: no additional segment, no persistent data.
pub open spec fn plain_chunk_bytes(chunk: ChunkView) -> Seq<u8> {
    chunk_bytes(chunk, 0, Seq::empty(), Seq::empty())
}

pub open spec fn chunk_run_bytes(chunks: Seq<ChunkView>) -> Seq<u8>
    decreases chunks.len(),
{
    if chunks.len() == 0 {
        Seq::empty()
    } else {
        plain_chunk_bytes(chunks[0]) + chunk_run_bytes(chunks.drop_first())
    }
}

/// The uncompressed chunk stream.
pub open spec fn chunks_bytes(chunks: Seq<ChunkView>) -> Seq<u8> {
    count_bytes(chunks.len()) + chunk_run_bytes(chunks)
}

/// The file header of a world without additional segments.
pub open spec fn header_bytes(world_version: i32) -> Seq<u8> {
    super::SLIME_MAGIC@ + seq![super::SLIME_VERSION] + buffer::be_bytes(world_version) + seq![0u8]
}

/// A compressed payload of `raw_len` uncompressed bytes.
pub open spec fn frame_bytes(compressed: Seq<u8>, raw_len: nat) -> Seq<u8> {
    count_bytes(compressed.len()) + count_bytes(raw_len) + compressed
}

/// A length that the format can express.
pub open spec fn fits(n: nat) -> bool {
    n <= i32::MAX
}

/// A light array of the length that the format fixes, or none.
pub open spec fn light_fits(light: Option<Seq<u8>>) -> bool {
    light matches Some(data) ==> data.len() == super::LIGHT_ARRAY_SIZE
}

/// A section that the format can express.
pub open spec fn section_fits(section: SectionView) -> bool {
    &&& light_fits(section.block_light)
    &&& light_fits(section.sky_light)
    &&& fits(section.block_states.len())
    &&& fits(section.biomes.len())
}

/// A chunk that the format can express.
pub open spec fn chunk_fits(chunk: ChunkView) -> bool {
    &&& fits(chunk.sections.len())
    &&& forall|i: int|
        0 <= i < chunk.sections.len() ==> section_fits(#[trigger] chunk.sections[i])
    &&& fits(chunk.height_maps.len())
    &&& fits(chunk.block_entities.len())
    &&& fits(chunk.entities.len())
    &&& fits(chunk.block_ticks.len())
    &&& fits(chunk.fluid_ticks.len())
    &&& fits(chunk.poi.len())
}

/// A chunk that holds no additional segment but those that `flags` announces.
pub open spec fn announced(chunk: ChunkView, flags: u8) -> bool {
    &&& !layout::flag_set(flags, super::FLAG_POI) ==> chunk.poi.len() == 0
    &&& !layout::flag_set(flags, super::FLAG_BLOCK_TICKS) ==> chunk.block_ticks.len() == 0
    &&& !layout::flag_set(flags, super::FLAG_FLUID_TICKS) ==> chunk.fluid_ticks.len() == 0
}

/// A list of chunks that can be written and read back.
pub open spec fn chunks_fit(chunks: Seq<ChunkView>) -> bool {
    &&& fits(chunks.len())
    &&& forall|i: int|
        0 <= i < chunks.len() ==> chunk_fits(#[trigger] chunks[i]) && announced(chunks[i], 0)
}

} // verus!
