//! What holds of the reader and the writer together.

use super::buffer;
use super::encoding;
use super::error::SlimeFailure;
use super::layout;
use super::model::{
    ChunkView, SectionView, SlimeChunk, SlimeSection, SlimeWorld, WorldView,
};
use super::prefixes;
use super::writer;
use super::zstd;
use crate::joining;
use bytes::Bytes;
use vstd::prelude::*;

verus! {

proof fn lemma_cat_4(a: Seq<u8>, b: Seq<u8>, c: Seq<u8>, d: Seq<u8>, rest: Seq<u8>)
    ensures
        (a + b + c + d) + rest == a + (b + (c + (d + rest))),
{
    joining::lemma_cat(a + b + c, d, rest);
    joining::lemma_cat(a + b, c, d + rest);
    joining::lemma_cat(a, b, c + (d + rest));
}

proof fn lemma_cat_5(a: Seq<u8>, b: Seq<u8>, c: Seq<u8>, d: Seq<u8>, e: Seq<u8>, rest: Seq<u8>)
    ensures
        (a + b + c + d + e) + rest == a + (b + (c + (d + (e + rest)))),
{
    joining::lemma_cat(a + b + c + d, e, rest);
    lemma_cat_4(a, b, c, d, e + rest);
}

/// Appending five pieces one by one appends their concatenation.
pub(crate) proof fn lemma_gather_5(
    start: Seq<u8>,
    a: Seq<u8>,
    b: Seq<u8>,
    c: Seq<u8>,
    d: Seq<u8>,
    e: Seq<u8>,
)
    ensures
        start + a + b + c + d + e == start + (a + b + c + d + e),
{
    joining::lemma_cat(start, a, b);
    joining::lemma_cat(start, a + b, c);
    joining::lemma_cat(start, a + b + c, d);
    joining::lemma_cat(start, a + b + c + d, e);
}

proof fn lemma_read_i32(v: i32, rest: Seq<u8>)
    ensures
        layout::parse_i32(buffer::be_bytes(v) + rest) == Ok::<(i32, Seq<u8>), SlimeFailure>(
            (v, rest),
        ),
{
    buffer::law_be_value_of_be_bytes(v, rest);
    assert((buffer::be_bytes(v) + rest).skip(4) =~= rest);
}

proof fn lemma_read_count(n: nat, reason: Seq<char>, rest: Seq<u8>)
    requires
        encoding::fits(n),
    ensures
        layout::parse_count(encoding::count_bytes(n) + rest, reason) == Ok::<
            (nat, Seq<u8>),
            SlimeFailure,
        >((n, rest)),
{
    lemma_read_i32(n as i32, rest);
}

proof fn lemma_read_take(data: Seq<u8>, rest: Seq<u8>)
    ensures
        layout::parse_take(data + rest, data.len()) == Ok::<(Seq<u8>, Seq<u8>), SlimeFailure>(
            (data, rest),
        ),
{
    assert((data + rest).take(data.len() as int) =~= data);
    assert((data + rest).skip(data.len() as int) =~= rest);
}

/// Reading a segment gives back what was written, and leaves what follows.
pub proof fn law_segment_round_trip(data: Seq<u8>, rest: Seq<u8>)
    requires
        encoding::fits(data.len()),
    ensures
        layout::parse_segment(encoding::segment_bytes(data) + rest) == Ok::<
            (Seq<u8>, Seq<u8>),
            SlimeFailure,
        >((data, rest)),
{
    assert(encoding::segment_bytes(data) + rest =~= encoding::count_bytes(data.len()) + (data
        + rest));
    lemma_read_count(data.len(), "negative segment length"@, data + rest);
    lemma_read_take(data, rest);
}

proof fn lemma_read_optional(data: Seq<u8>, present: bool, rest: Seq<u8>)
    requires
        encoding::fits(data.len()),
        !present ==> data.len() == 0,
    ensures
        layout::parse_optional(encoding::optional_bytes(data, present) + rest, present) == Ok::<
            (Seq<u8>, Seq<u8>),
            SlimeFailure,
        >((data, rest)),
{
    if present {
        law_segment_round_trip(data, rest);
    } else {
        assert(data =~= Seq::empty());
        assert(Seq::<u8>::empty() + rest =~= rest);
    }
}

proof fn lemma_read_segments(segments: Seq<Seq<u8>>, rest: Seq<u8>)
    requires
        forall|i: int| 0 <= i < segments.len() ==> encoding::fits((#[trigger] segments[i]).len()),
    ensures
        layout::parse_segments(encoding::segments_bytes(segments) + rest, segments.len()) == Ok::<
            (Seq<Seq<u8>>, Seq<u8>),
            SlimeFailure,
        >((segments, rest)),
    decreases segments.len(),
{
    if segments.len() == 0 {
        assert(Seq::<u8>::empty() + rest =~= rest);
        assert(segments =~= Seq::empty());
    } else {
        let tail = segments.drop_first();
        let behind = encoding::segments_bytes(tail) + rest;
        joining::lemma_cat(
            encoding::segment_bytes(segments[0]),
            encoding::segments_bytes(tail),
            rest,
        );
        law_segment_round_trip(segments[0], behind);
        lemma_read_segments(tail, rest);
        assert(seq![segments[0]] + tail =~= segments);
    }
}

proof fn lemma_read_light(light: Option<Seq<u8>>, rest: Seq<u8>)
    requires
        encoding::light_fits(light),
    ensures
        layout::parse_light(encoding::light_bytes(light) + rest, light is Some) == Ok::<
            (Option<Seq<u8>>, Seq<u8>),
            SlimeFailure,
        >((light, rest)),
{
    match light {
        Some(data) => {
            lemma_read_take(data, rest);
        },
        None => {
            assert(Seq::<u8>::empty() + rest =~= rest);
        },
    }
}

/// Reading a section gives back what was written, and leaves what follows.
#[verifier::rlimit(40)]
pub proof fn law_section_round_trip(section: SectionView, rest: Seq<u8>)
    requires
        encoding::section_fits(section),
    ensures
        layout::parse_section(encoding::section_bytes(section) + rest) == Ok::<
            (SectionView, Seq<u8>),
            SlimeFailure,
        >((section, rest)),
{
    let flags = encoding::section_flags(section);
    let s4 = encoding::segment_bytes(section.biomes) + rest;
    let s3 = encoding::segment_bytes(section.block_states) + s4;
    let s2 = encoding::light_bytes(section.sky_light) + s3;
    let s1 = encoding::light_bytes(section.block_light) + s2;
    lemma_cat_5(
        seq![flags],
        encoding::light_bytes(section.block_light),
        encoding::light_bytes(section.sky_light),
        encoding::segment_bytes(section.block_states),
        encoding::segment_bytes(section.biomes),
        rest,
    );
    assert((seq![flags] + s1).skip(1) =~= s1);
    assert(layout::flag_set(flags, 1) == section.block_light is Some);
    assert(layout::flag_set(flags, 2) == section.sky_light is Some);
    lemma_read_light(section.block_light, s2);
    lemma_read_light(section.sky_light, s3);
    law_segment_round_trip(section.block_states, s4);
    law_segment_round_trip(section.biomes, rest);
}

proof fn lemma_read_sections(sections: Seq<SectionView>, rest: Seq<u8>)
    requires
        forall|i: int| 0 <= i < sections.len() ==> encoding::section_fits(#[trigger] sections[i]),
    ensures
        layout::parse_sections(encoding::sections_bytes(sections) + rest, sections.len()) == Ok::<
            (Seq<SectionView>, Seq<u8>),
            SlimeFailure,
        >((sections, rest)),
    decreases sections.len(),
{
    if sections.len() == 0 {
        assert(Seq::<u8>::empty() + rest =~= rest);
        assert(sections =~= Seq::empty());
    } else {
        let tail = sections.drop_first();
        let behind = encoding::sections_bytes(tail) + rest;
        joining::lemma_cat(
            encoding::section_bytes(sections[0]),
            encoding::sections_bytes(tail),
            rest,
        );
        law_section_round_trip(sections[0], behind);
        lemma_read_sections(tail, rest);
        assert(seq![sections[0]] + tail =~= sections);
    }
}

proof fn lemma_read_additional(
    chunk: ChunkView,
    flags: u8,
    unknown: Seq<Seq<u8>>,
    rest: Seq<u8>,
)
    requires
        encoding::chunk_fits(chunk),
        encoding::announced(chunk, flags),
        unknown.len() == layout::unknown_segments(flags),
        forall|i: int| 0 <= i < unknown.len() ==> encoding::fits((#[trigger] unknown[i]).len()),
    ensures
        layout::parse_additional(encoding::additional_bytes(chunk, flags, unknown) + rest, flags)
            == Ok::<((Seq<u8>, Seq<u8>, Seq<u8>), Seq<u8>), SlimeFailure>(
            ((chunk.poi, chunk.block_ticks, chunk.fluid_ticks), rest),
        ),
{
    let s3 = encoding::segments_bytes(unknown) + rest;
    let fluid = layout::flag_set(flags, super::FLAG_FLUID_TICKS);
    let s2 = encoding::optional_bytes(chunk.fluid_ticks, fluid) + s3;
    let block = layout::flag_set(flags, super::FLAG_BLOCK_TICKS);
    let s1 = encoding::optional_bytes(chunk.block_ticks, block) + s2;
    let poi = layout::flag_set(flags, super::FLAG_POI);
    lemma_cat_4(
        encoding::optional_bytes(chunk.poi, poi),
        encoding::optional_bytes(chunk.block_ticks, block),
        encoding::optional_bytes(chunk.fluid_ticks, fluid),
        encoding::segments_bytes(unknown),
        rest,
    );
    lemma_read_optional(chunk.poi, poi, s1);
    lemma_read_optional(chunk.block_ticks, block, s2);
    lemma_read_optional(chunk.fluid_ticks, fluid, s3);
    lemma_read_segments(unknown, rest);
}

/// Reading a chunk gives back what was written and leaves what follows, whatever
/// additional segments the world flags announce: those of an unknown kind are
/// passed over, and so is the persistent data of the chunk.
#[verifier::rlimit(40)]
pub proof fn law_chunk_round_trip(
    chunk: ChunkView,
    flags: u8,
    unknown: Seq<Seq<u8>>,
    extra: Seq<u8>,
    rest: Seq<u8>,
)
    requires
        encoding::chunk_fits(chunk),
        encoding::announced(chunk, flags),
        unknown.len() == layout::unknown_segments(flags),
        forall|i: int| 0 <= i < unknown.len() ==> encoding::fits((#[trigger] unknown[i]).len()),
        encoding::fits(extra.len()),
    ensures
        layout::parse_chunk(encoding::chunk_bytes(chunk, flags, unknown, extra) + rest, flags)
            == Ok::<(ChunkView, Seq<u8>), SlimeFailure>((chunk, rest)),
{
    let s8 = encoding::segment_bytes(extra) + rest;
    let s7 = encoding::segment_bytes(chunk.entities) + s8;
    let s6 = encoding::segment_bytes(chunk.block_entities) + s7;
    let s5 = encoding::additional_bytes(chunk, flags, unknown) + s6;
    let s4 = encoding::segment_bytes(chunk.height_maps) + s5;
    let s3 = encoding::sections_bytes(chunk.sections) + s4;
    let s2 = encoding::count_bytes(chunk.sections.len()) + s3;
    let s1 = buffer::be_bytes(chunk.z) + s2;
    lemma_cat_5(
        buffer::be_bytes(chunk.x) + buffer::be_bytes(chunk.z) + encoding::count_bytes(
            chunk.sections.len(),
        ) + encoding::sections_bytes(chunk.sections) + encoding::segment_bytes(chunk.height_maps),
        encoding::additional_bytes(chunk, flags, unknown),
        encoding::segment_bytes(chunk.block_entities),
        encoding::segment_bytes(chunk.entities),
        encoding::segment_bytes(extra),
        rest,
    );
    lemma_cat_5(
        buffer::be_bytes(chunk.x),
        buffer::be_bytes(chunk.z),
        encoding::count_bytes(chunk.sections.len()),
        encoding::sections_bytes(chunk.sections),
        encoding::segment_bytes(chunk.height_maps),
        s5,
    );
    lemma_read_i32(chunk.x, s1);
    lemma_read_i32(chunk.z, s2);
    lemma_read_count(chunk.sections.len(), "negative section count"@, s3);
    lemma_read_sections(chunk.sections, s4);
    law_segment_round_trip(chunk.height_maps, s5);
    lemma_read_additional(chunk, flags, unknown, s6);
    law_segment_round_trip(chunk.block_entities, s7);
    law_segment_round_trip(chunk.entities, s8);
    law_segment_round_trip(extra, rest);
}

proof fn lemma_read_plain_chunk(chunk: ChunkView, rest: Seq<u8>)
    requires
        encoding::chunk_fits(chunk),
        encoding::announced(chunk, 0),
    ensures
        layout::parse_chunk(encoding::plain_chunk_bytes(chunk) + rest, 0) == Ok::<
            (ChunkView, Seq<u8>),
            SlimeFailure,
        >((chunk, rest)),
{
    law_chunk_round_trip(chunk, 0, Seq::empty(), Seq::empty(), rest);
}

/// A run of chunks is a first chunk and a shorter run.
proof fn lemma_read_run_step(
    s: Seq<u8>,
    chunk: ChunkView,
    behind: Seq<u8>,
    tail: Seq<ChunkView>,
    rest: Seq<u8>,
)
    requires
        layout::parse_chunk(s, 0) == Ok::<(ChunkView, Seq<u8>), SlimeFailure>((chunk, behind)),
        layout::parse_chunk_run(behind, 0, tail.len()) == Ok::<
            (Seq<ChunkView>, Seq<u8>),
            SlimeFailure,
        >((tail, rest)),
    ensures
        layout::parse_chunk_run(s, 0, tail.len() + 1) == Ok::<
            (Seq<ChunkView>, Seq<u8>),
            SlimeFailure,
        >((seq![chunk] + tail, rest)),
{
}

#[verifier::rlimit(40)]
proof fn lemma_read_chunk_run(chunks: Seq<ChunkView>, rest: Seq<u8>)
    requires
        forall|i: int|
            0 <= i < chunks.len() ==> encoding::chunk_fits(#[trigger] chunks[i])
                && encoding::announced(chunks[i], 0),
    ensures
        layout::parse_chunk_run(encoding::chunk_run_bytes(chunks) + rest, 0, chunks.len()) == Ok::<
            (Seq<ChunkView>, Seq<u8>),
            SlimeFailure,
        >((chunks, rest)),
    decreases chunks.len(),
{
    if chunks.len() == 0 {
        assert(Seq::<u8>::empty() + rest =~= rest);
        assert(chunks =~= Seq::empty());
    } else {
        let tail = chunks.drop_first();
        let behind = encoding::chunk_run_bytes(tail) + rest;
        joining::lemma_cat(
            encoding::plain_chunk_bytes(chunks[0]),
            encoding::chunk_run_bytes(tail),
            rest,
        );
        lemma_read_plain_chunk(chunks[0], behind);
        lemma_read_chunk_run(tail, rest);
        assert(seq![chunks[0]] + tail =~= chunks);
        lemma_read_run_step(
            encoding::plain_chunk_bytes(chunks[0]) + behind,
            chunks[0],
            behind,
            tail,
            rest,
        );
    }
}

/// Reading the chunk stream gives back the chunks that were written, in order.
pub proof fn law_chunks_round_trip(chunks: Seq<ChunkView>, rest: Seq<u8>)
    requires
        encoding::chunks_fit(chunks),
    ensures
        layout::parse_chunks(encoding::chunks_bytes(chunks) + rest, 0) == Ok::<
            (Seq<ChunkView>, Seq<u8>),
            SlimeFailure,
        >((chunks, rest)),
{
    let behind = encoding::chunk_run_bytes(chunks) + rest;
    assert(encoding::chunks_bytes(chunks) + rest =~= encoding::count_bytes(chunks.len()) + behind);
    lemma_read_count(chunks.len(), "negative chunk count"@, behind);
    lemma_read_chunk_run(chunks, rest);
}

proof fn lemma_read_block(compressed: Seq<u8>, data: Seq<u8>, rest: Seq<u8>)
    requires
        encoding::fits(compressed.len()),
        zstd::zstd_decoded(compressed) == Ok::<Seq<u8>, zstd::ZstdFailure>(data),
    ensures
        layout::parse_block(encoding::frame_bytes(compressed, data.len()) + rest) == Ok::<
            (Seq<u8>, Seq<u8>),
            SlimeFailure,
        >((data, rest)),
{
    let s2 = compressed + rest;
    let s1 = encoding::count_bytes(data.len()) + s2;
    assert(encoding::frame_bytes(compressed, data.len()) + rest =~= encoding::count_bytes(
        compressed.len(),
    ) + s1);
    lemma_read_i32(encoding::count_value(compressed.len()), s1);
    lemma_read_i32(encoding::count_value(data.len()), s2);
    lemma_read_take(compressed, rest);
}

proof fn lemma_read_header(world_version: i32, rest: Seq<u8>)
    ensures
        layout::parse_header(encoding::header_bytes(world_version) + rest) == Ok::<
            ((i32, u8), Seq<u8>),
            SlimeFailure,
        >(((world_version, 0), rest)),
{
    let s3 = seq![0u8] + rest;
    let s2 = buffer::be_bytes(world_version) + s3;
    let s1 = seq![super::SLIME_VERSION] + s2;
    assert(super::SLIME_MAGIC@.len() == 2);
    assert(encoding::header_bytes(world_version) + rest =~= super::SLIME_MAGIC@ + s1);
    lemma_read_take(super::SLIME_MAGIC@, s1);
    assert(s1.skip(1) =~= s2);
    lemma_read_i32(world_version, s3);
    assert(s3.skip(1) =~= rest);
}

/// A file reads back as the world it was made of: its version, its chunks in
/// order and its "extra" compound, provided that the lengths of its two compressed
/// payloads can be expressed.
pub proof fn law_world_round_trip(
    world_version: i32,
    chunks: Seq<ChunkView>,
    extra: Seq<u8>,
    packed_chunks: Seq<u8>,
    packed_extra: Seq<u8>,
)
    ensures
        ({
            &&& encoding::fits(packed_chunks.len())
            &&& encoding::fits(packed_extra.len())
            &&& encoding::chunks_fit(chunks)
            &&& zstd::zstd_decoded(packed_chunks) == Ok::<Seq<u8>, zstd::ZstdFailure>(
                encoding::chunks_bytes(chunks),
            )
            &&& zstd::zstd_decoded(packed_extra) == Ok::<Seq<u8>, zstd::ZstdFailure>(
                writer::extra_written(extra),
            )
        }) ==> layout::parse_world(
            writer::world_bytes(world_version, chunks, extra, packed_chunks, packed_extra),
        ) == Ok::<WorldView, SlimeFailure>(
            (WorldView {
                world_version,
                flags: 0,
                chunks,
                extra: writer::extra_written(extra),
            }),
        ),
{
    let body = encoding::chunks_bytes(chunks);
    let header = encoding::header_bytes(world_version);
    let first = encoding::frame_bytes(packed_chunks, body.len());
    let kept = writer::extra_written(extra);
    let second = encoding::frame_bytes(packed_extra, kept.len());
    let none = Seq::<u8>::empty();
    if encoding::fits(packed_chunks.len()) && encoding::fits(packed_extra.len())
        && encoding::chunks_fit(chunks) && zstd::zstd_decoded(packed_chunks) == Ok::<
        Seq<u8>,
        zstd::ZstdFailure,
    >(body) && zstd::zstd_decoded(packed_extra) == Ok::<Seq<u8>, zstd::ZstdFailure>(kept) {
        joining::lemma_cat(header, first, second);
        lemma_read_header(world_version, first + second);
        lemma_read_block(packed_chunks, body, second);
        assert(second + none =~= second);
        lemma_read_block(packed_extra, kept, none);
        assert(body + none =~= body);
        law_chunks_round_trip(chunks, none);
    }
}

/// The bits of a section's flags byte that announce no light array are ignored.
pub proof fn law_spare_section_flags(flags: u8, other: u8, rest: Seq<u8>)
    requires
        flags % 4 == other % 4,
    ensures
        layout::parse_section(seq![flags] + rest) == layout::parse_section(seq![other] + rest),
{
    assert((seq![flags] + rest).skip(1) =~= rest);
    assert((seq![other] + rest).skip(1) =~= rest);
}

/// The framing of a compressed payload is taken off again, whatever raw length
/// it states.
pub proof fn law_raw_length_is_ignored(packed: Seq<u8>, raw: i32, rest: Seq<u8>)
    requires
        encoding::fits(packed.len()),
    ensures
        layout::parse_frame(
            encoding::count_bytes(packed.len()) + buffer::be_bytes(raw) + packed + rest,
        ) == Ok::<(Seq<u8>, Seq<u8>), SlimeFailure>((packed, rest)),
{
    let n = encoding::count_bytes(packed.len());
    let r = buffer::be_bytes(raw);
    joining::lemma_cat(n + r, packed, rest);
    joining::lemma_cat(n, r, packed + rest);
    lemma_read_i32(encoding::count_value(packed.len()), r + (packed + rest));
    lemma_read_i32(raw, packed + rest);
    lemma_read_take(packed, rest);
}

/// A compressed payload is read back as the data that it was made of, whatever
/// raw length it states.
pub proof fn law_payload_round_trip(packed: Seq<u8>, data: Seq<u8>, raw: i32, rest: Seq<u8>)
    requires
        encoding::fits(packed.len()),
    ensures
        zstd::zstd_decoded(packed) == Ok::<Seq<u8>, zstd::ZstdFailure>(data)
            ==> layout::parse_block(
            encoding::count_bytes(packed.len()) + buffer::be_bytes(raw) + packed + rest,
        ) == Ok::<(Seq<u8>, Seq<u8>), SlimeFailure>((data, rest)),
{
    law_raw_length_is_ignored(packed, raw, rest);
}

/// A compressed payload with a negative length is corrupt; one that is shorter
/// than its length says is truncated.
pub proof fn law_bad_payload_length(len: i32, raw: i32, rest: Seq<u8>)
    requires
        len < 0 || rest.len() < len,
    ensures
        layout::parse_block(buffer::be_bytes(len) + buffer::be_bytes(raw) + rest) == Err::<
            (Seq<u8>, Seq<u8>),
            SlimeFailure,
        >(
            if len < 0 {
                SlimeFailure::Corrupt("negative compressed length"@)
            } else {
                SlimeFailure::Truncated
            },
        ),
{
    joining::lemma_cat(buffer::be_bytes(len), buffer::be_bytes(raw), rest);
    lemma_read_i32(len, buffer::be_bytes(raw) + rest);
    lemma_read_i32(raw, rest);
}

/// A segment is its length, as four bytes, and then that many bytes.
pub proof fn law_segment_layout(data: Seq<u8>, rest: Seq<u8>)
    requires
        data.len() <= 0x7fff_ffff,
    ensures
        layout::parse_segment(buffer::be_bytes(data.len() as i32) + (data + rest)) == Ok::<
            (Seq<u8>, Seq<u8>),
            SlimeFailure,
        >((data, rest)),
        encoding::segment_bytes(data) == buffer::be_bytes(data.len() as i32) + data,
{
    lemma_read_i32(data.len() as i32, data + rest);
    lemma_read_take(data, rest);
}

/// A section is a flags byte; 2048 bytes of block light where its bit 0 is set;
/// 2048 bytes of sky light where its bit 1 is; the length of the block states and
/// the block states; the length of the biomes and the biomes. Bits 2 to 7 of the
/// flags mean nothing.
pub proof fn law_section_layout(
    flags: u8,
    block_light: Seq<u8>,
    sky_light: Seq<u8>,
    block_states: Seq<u8>,
    biomes: Seq<u8>,
    rest: Seq<u8>,
)
    requires
        block_light.len() == if flags % 2 == 1 {
            2048nat
        } else {
            0
        },
        sky_light.len() == if flags / 2 % 2 == 1 {
            2048nat
        } else {
            0
        },
        block_states.len() <= 0x7fff_ffff,
        biomes.len() <= 0x7fff_ffff,
    ensures
        ({
            let parsed = layout::parse_section(
                seq![flags] + (block_light + (sky_light + (buffer::be_bytes(
                    block_states.len() as i32,
                ) + (block_states + (buffer::be_bytes(biomes.len() as i32) + (biomes + rest)))))),
            );
            &&& parsed matches Ok((section, left))
            &&& left == rest
            &&& section.block_states == block_states
            &&& section.biomes == biomes
            &&& section.block_light == if flags % 2 == 1 {
                Some(block_light)
            } else {
                None
            }
            &&& section.sky_light == if flags / 2 % 2 == 1 {
                Some(sky_light)
            } else {
                None
            }
        }),
{
    let s4 = buffer::be_bytes(biomes.len() as i32) + (biomes + rest);
    let s3 = buffer::be_bytes(block_states.len() as i32) + (block_states + s4);
    let s2 = sky_light + s3;
    let s1 = block_light + s2;
    assert((seq![flags] + s1).skip(1) =~= s1);
    assert(layout::flag_set(flags, 1) == (flags % 2 == 1));
    assert(layout::flag_set(flags, 2) == (flags / 2 % 2 == 1));
    if flags % 2 == 1 {
        lemma_read_take(block_light, s2);
    } else {
        assert(block_light + s2 =~= s2);
    }
    if flags / 2 % 2 == 1 {
        lemma_read_take(sky_light, s3);
    } else {
        assert(sky_light + s3 =~= s3);
    }
    law_segment_layout(block_states, s4);
    law_segment_layout(biomes, rest);
}

/// A section is written as a flags byte with bit 0 for block light and bit 1 for
/// sky light and no other, the light arrays that there are, block light first, and
/// then the block states and the biomes, each behind its length.
pub proof fn law_section_is_written(section: SectionView)
    requires
        section.block_states.len() <= 0x7fff_ffff,
        section.biomes.len() <= 0x7fff_ffff,
    ensures
        ({
            let segments = buffer::be_bytes(section.block_states.len() as i32) + (
            section.block_states + (buffer::be_bytes(section.biomes.len() as i32)
                + section.biomes));
            encoding::section_bytes(section) == match (section.block_light, section.sky_light) {
                (None, None) => seq![0u8] + segments,
                (Some(block), None) => seq![1u8] + (block + segments),
                (None, Some(sky)) => seq![2u8] + (sky + segments),
                (Some(block), Some(sky)) => seq![3u8] + (block + (sky + segments)),
            }
        }),
{
    let none = Seq::<u8>::empty();
    lemma_cat_5(
        seq![encoding::section_flags(section)],
        encoding::light_bytes(section.block_light),
        encoding::light_bytes(section.sky_light),
        encoding::segment_bytes(section.block_states),
        encoding::segment_bytes(section.biomes),
        none,
    );
    joining::lemma_cat_nothing(encoding::section_bytes(section));
    joining::lemma_cat_nothing(encoding::segment_bytes(section.biomes));
    joining::lemma_cat(
        buffer::be_bytes(section.block_states.len() as i32),
        section.block_states,
        encoding::segment_bytes(section.biomes),
    );
    let segments = encoding::segment_bytes(section.block_states) + encoding::segment_bytes(
        section.biomes,
    );
    joining::lemma_cat_nothing(segments);
    if let Some(sky) = section.sky_light {
        joining::lemma_cat_nothing(sky + segments);
    }
}

proof fn lemma_sections_in_a_row(pieces: Seq<Seq<u8>>, sections: Seq<SectionView>, rest: Seq<u8>)
    requires
        sections.len() == pieces.len(),
        forall|i: int|
            0 <= i < pieces.len() ==> layout::parse_section(#[trigger] pieces[i]) == Ok::<
                (SectionView, Seq<u8>),
                SlimeFailure,
            >((sections[i], Seq::empty())),
    ensures
        layout::parse_sections(pieces.flatten() + rest, pieces.len()) == Ok::<
            (Seq<SectionView>, Seq<u8>),
            SlimeFailure,
        >((sections, rest)),
    decreases pieces.len(),
{
    if pieces.len() == 0 {
        assert(pieces.flatten() + rest =~= rest);
        assert(sections =~= Seq::empty());
    } else {
        let tail = pieces.drop_first();
        let behind = tail.flatten() + rest;
        joining::lemma_cat(pieces[0], tail.flatten(), rest);
        prefixes::lemma_section(pieces[0], behind);
        joining::lemma_cat_nothing(behind);
        assert forall|i: int| 0 <= i < tail.len() implies layout::parse_section(
            #[trigger] tail[i],
        ) == Ok::<(SectionView, Seq<u8>), SlimeFailure>(
            (sections.drop_first()[i], Seq::empty()),
        ) by {
            assert(tail[i] == pieces[i + 1]);
        }
        lemma_sections_in_a_row(tail, sections.drop_first(), rest);
        assert(seq![sections[0]] + sections.drop_first() =~= sections);
    }
}

proof fn lemma_segments_in_a_row(pieces: Seq<Seq<u8>>, rest: Seq<u8>)
    requires
        forall|i: int|
            0 <= i < pieces.len() ==> (layout::parse_segment(#[trigger] pieces[i]) matches Ok(
                (_, left),
            ) && left.len() == 0),
    ensures
        layout::parse_segments(pieces.flatten() + rest, pieces.len()) matches Ok((_, left))
            && left == rest,
    decreases pieces.len(),
{
    if pieces.len() == 0 {
        assert(pieces.flatten() + rest =~= rest);
    } else {
        let tail = pieces.drop_first();
        let behind = tail.flatten() + rest;
        joining::lemma_cat(pieces[0], tail.flatten(), rest);
        prefixes::lemma_segment(pieces[0], behind);
        let left = layout::parse_segment(pieces[0])->Ok_0.1;
        assert(left + behind =~= behind);
        assert forall|i: int| 0 <= i < tail.len() implies (layout::parse_segment(
            #[trigger] tail[i],
        ) matches Ok((_, left)) && left.len() == 0) by {
            assert(tail[i] == pieces[i + 1]);
        }
        lemma_segments_in_a_row(tail, rest);
    }
}

proof fn lemma_unknown_bits(flags: u8)
    ensures
        layout::unknown_segments(flags) == flags / 8 % 2 + flags / 16 % 2 + flags / 32 % 2 + flags
            / 64 % 2 + flags / 128 % 2,
{
    reveal_with_fuel(layout::ones, 6);
    assert(flags / 8 / 2 == flags / 16);
    assert(flags / 16 / 2 == flags / 32);
    assert(flags / 32 / 2 == flags / 64);
    assert(flags / 64 / 2 == flags / 128);
}

proof fn lemma_optional_layout(data: Seq<u8>, present: bool, rest: Seq<u8>)
    requires
        data.len() <= 0x7fff_ffff,
    ensures
        layout::parse_optional(
            if present {
                buffer::be_bytes(data.len() as i32) + (data + rest)
            } else {
                rest
            },
            present,
        ) == Ok::<(Seq<u8>, Seq<u8>), SlimeFailure>(
            (
                if present {
                    data
                } else {
                    Seq::empty()
                },
                rest,
            ),
        ),
{
    if present {
        law_segment_layout(data, rest);
    }
}

/// A chunk is its x, its z, the number of its sections and the sections, from the
/// bottom upwards; then, each behind its length, its height maps; its POI where
/// bit 0 of the world flags is set; its block ticks where bit 1 is; its fluid ticks
/// where bit 2 is; one more segment for each of the bits 3 to 7 that is set, which
/// is passed over; its block entities; its entities; and its persistent data, which
/// is passed over too.
#[verifier::rlimit(40)]
pub proof fn law_chunk_layout(
    chunk: ChunkView,
    flags: u8,
    sections: Seq<Seq<u8>>,
    unknown: Seq<Seq<u8>>,
    persistent: Seq<u8>,
    rest: Seq<u8>,
)
    requires
        chunk.sections.len() == sections.len() <= 0x7fff_ffff,
        forall|i: int|
            0 <= i < sections.len() ==> layout::parse_section(#[trigger] sections[i]) == Ok::<
                (SectionView, Seq<u8>),
                SlimeFailure,
            >((chunk.sections[i], Seq::empty())),
        chunk.height_maps.len() <= 0x7fff_ffff,
        chunk.poi.len() <= 0x7fff_ffff,
        chunk.block_ticks.len() <= 0x7fff_ffff,
        chunk.fluid_ticks.len() <= 0x7fff_ffff,
        chunk.block_entities.len() <= 0x7fff_ffff,
        chunk.entities.len() <= 0x7fff_ffff,
        persistent.len() <= 0x7fff_ffff,
        unknown.len() == flags / 8 % 2 + flags / 16 % 2 + flags / 32 % 2 + flags / 64 % 2 + flags
            / 128 % 2,
        forall|i: int|
            0 <= i < unknown.len() ==> (layout::parse_segment(#[trigger] unknown[i]) matches Ok(
                (_, left),
            ) && left.len() == 0),
    ensures
        ({
            let end = buffer::be_bytes(chunk.block_entities.len() as i32) + (chunk.block_entities
                + (buffer::be_bytes(chunk.entities.len() as i32) + (chunk.entities + (
            buffer::be_bytes(persistent.len() as i32) + (persistent + rest)))));
            let s3 = unknown.flatten() + end;
            let s2 = if flags / 4 % 2 == 1 {
                buffer::be_bytes(chunk.fluid_ticks.len() as i32) + (chunk.fluid_ticks + s3)
            } else {
                s3
            };
            let s1 = if flags / 2 % 2 == 1 {
                buffer::be_bytes(chunk.block_ticks.len() as i32) + (chunk.block_ticks + s2)
            } else {
                s2
            };
            let s0 = if flags % 2 == 1 {
                buffer::be_bytes(chunk.poi.len() as i32) + (chunk.poi + s1)
            } else {
                s1
            };
            let parsed = layout::parse_chunk(
                buffer::be_bytes(chunk.x) + (buffer::be_bytes(chunk.z) + (buffer::be_bytes(
                    sections.len() as i32,
                ) + (sections.flatten() + (buffer::be_bytes(chunk.height_maps.len() as i32) + (
                chunk.height_maps + s0))))),
                flags,
            );
            &&& parsed matches Ok((read, left))
            &&& left == rest
            &&& read.x == chunk.x
            &&& read.z == chunk.z
            &&& read.sections == chunk.sections
            &&& read.height_maps == chunk.height_maps
            &&& read.block_entities == chunk.block_entities
            &&& read.entities == chunk.entities
            &&& flags % 2 == 1 ==> read.poi == chunk.poi
            &&& flags % 2 == 0 ==> read.poi.len() == 0
            &&& flags / 2 % 2 == 1 ==> read.block_ticks == chunk.block_ticks
            &&& flags / 2 % 2 == 0 ==> read.block_ticks.len() == 0
            &&& flags / 4 % 2 == 1 ==> read.fluid_ticks == chunk.fluid_ticks
            &&& flags / 4 % 2 == 0 ==> read.fluid_ticks.len() == 0
        }),
{
    let e3 = buffer::be_bytes(persistent.len() as i32) + (persistent + rest);
    let e2 = buffer::be_bytes(chunk.entities.len() as i32) + (chunk.entities + e3);
    let end = buffer::be_bytes(chunk.block_entities.len() as i32) + (chunk.block_entities + e2);
    let s3 = unknown.flatten() + end;
    let fluid = flags / 4 % 2 == 1;
    let s2 = if fluid {
        buffer::be_bytes(chunk.fluid_ticks.len() as i32) + (chunk.fluid_ticks + s3)
    } else {
        s3
    };
    let block = flags / 2 % 2 == 1;
    let s1 = if block {
        buffer::be_bytes(chunk.block_ticks.len() as i32) + (chunk.block_ticks + s2)
    } else {
        s2
    };
    let poi = flags % 2 == 1;
    let s0 = if poi {
        buffer::be_bytes(chunk.poi.len() as i32) + (chunk.poi + s1)
    } else {
        s1
    };
    let h = buffer::be_bytes(chunk.height_maps.len() as i32) + (chunk.height_maps + s0);
    let n = buffer::be_bytes(sections.len() as i32) + (sections.flatten() + h);
    lemma_read_i32(chunk.x, buffer::be_bytes(chunk.z) + n);
    lemma_read_i32(chunk.z, n);
    lemma_read_i32(sections.len() as i32, sections.flatten() + h);
    lemma_sections_in_a_row(sections, chunk.sections, h);
    law_segment_layout(chunk.height_maps, s0);
    assert(layout::flag_set(flags, super::FLAG_POI) == poi);
    assert(layout::flag_set(flags, super::FLAG_BLOCK_TICKS) == block);
    assert(layout::flag_set(flags, super::FLAG_FLUID_TICKS) == fluid);
    lemma_optional_layout(chunk.poi, poi, s1);
    lemma_optional_layout(chunk.block_ticks, block, s2);
    lemma_optional_layout(chunk.fluid_ticks, fluid, s3);
    lemma_unknown_bits(flags);
    lemma_segments_in_a_row(unknown, end);
    law_segment_layout(chunk.block_entities, e2);
    law_segment_layout(chunk.entities, e3);
    law_segment_layout(persistent, rest);
}

proof fn lemma_chunks_in_a_row(
    pieces: Seq<Seq<u8>>,
    flags: u8,
    chunks: Seq<ChunkView>,
    rest: Seq<u8>,
)
    requires
        chunks.len() == pieces.len(),
        forall|i: int|
            0 <= i < pieces.len() ==> layout::parse_chunk(#[trigger] pieces[i], flags) == Ok::<
                (ChunkView, Seq<u8>),
                SlimeFailure,
            >((chunks[i], Seq::empty())),
    ensures
        layout::parse_chunk_run(pieces.flatten() + rest, flags, pieces.len()) == Ok::<
            (Seq<ChunkView>, Seq<u8>),
            SlimeFailure,
        >((chunks, rest)),
    decreases pieces.len(),
{
    if pieces.len() == 0 {
        assert(pieces.flatten() + rest =~= rest);
        assert(chunks =~= Seq::empty());
    } else {
        let tail = pieces.drop_first();
        let behind = tail.flatten() + rest;
        joining::lemma_cat(pieces[0], tail.flatten(), rest);
        prefixes::lemma_chunk(pieces[0], flags, behind);
        joining::lemma_cat_nothing(behind);
        assert forall|i: int| 0 <= i < tail.len() implies layout::parse_chunk(
            #[trigger] tail[i],
            flags,
        ) == Ok::<(ChunkView, Seq<u8>), SlimeFailure>((chunks.drop_first()[i], Seq::empty())) by {
            assert(tail[i] == pieces[i + 1]);
        }
        lemma_chunks_in_a_row(tail, flags, chunks.drop_first(), rest);
        assert(seq![chunks[0]] + chunks.drop_first() =~= chunks);
    }
}

/// A chunk stream is the number of chunks and then the chunks, in order.
pub proof fn law_chunk_stream_layout(
    pieces: Seq<Seq<u8>>,
    flags: u8,
    chunks: Seq<ChunkView>,
    rest: Seq<u8>,
)
    requires
        chunks.len() == pieces.len() <= 0x7fff_ffff,
        forall|i: int|
            0 <= i < pieces.len() ==> layout::parse_chunk(#[trigger] pieces[i], flags) == Ok::<
                (ChunkView, Seq<u8>),
                SlimeFailure,
            >((chunks[i], Seq::empty())),
    ensures
        layout::parse_chunks(
            buffer::be_bytes(pieces.len() as i32) + (pieces.flatten() + rest),
            flags,
        ) == Ok::<(Seq<ChunkView>, Seq<u8>), SlimeFailure>((chunks, rest)),
{
    lemma_read_i32(pieces.len() as i32, pieces.flatten() + rest);
    lemma_chunks_in_a_row(pieces, flags, chunks, rest);
}

/// A header is the bytes B1 0B, the format version 13, the world version and the
/// world flags.
pub proof fn law_header_layout(world_version: i32, flags: u8, rest: Seq<u8>)
    ensures
        layout::parse_header(
            seq![0xb1u8, 0x0b, 13] + (buffer::be_bytes(world_version) + (seq![flags] + rest)),
        ) == Ok::<((i32, u8), Seq<u8>), SlimeFailure>(((world_version, flags), rest)),
{
    let s3 = seq![flags] + rest;
    let s2 = buffer::be_bytes(world_version) + s3;
    let s1 = seq![13u8] + s2;
    let magic = seq![0xb1u8, 0x0b];
    assert(seq![0xb1u8, 0x0b, 13] + s2 =~= magic + s1);
    lemma_read_take(magic, s1);
    assert(super::SLIME_MAGIC@ =~= magic);
    assert(s1.skip(1) =~= s2);
    lemma_read_i32(world_version, s3);
    assert(s3.skip(1) =~= rest);
}

/// A file is the bytes B1 0B, the format version 13, the world version, the world
/// flags, the compressed chunk stream and the compressed "extra" compound, either
/// behind its compressed and its uncompressed length, of which the latter means
/// nothing. Where the "extra" cannot be had, it is empty.
pub proof fn law_file_layout(
    world_version: i32,
    flags: u8,
    packed: Seq<u8>,
    raw: i32,
    stream: Seq<u8>,
    chunks: Seq<ChunkView>,
    left: Seq<u8>,
    end: Seq<u8>,
)
    requires
        packed.len() <= 0x7fff_ffff,
        layout::parse_chunks(stream, flags) == Ok::<(Seq<ChunkView>, Seq<u8>), SlimeFailure>(
            (chunks, left),
        ),
    ensures
        zstd::zstd_decoded(packed) == Ok::<Seq<u8>, zstd::ZstdFailure>(stream) ==> ({
            let read = layout::parse_world(
                seq![0xb1u8, 0x0b, 13] + (buffer::be_bytes(world_version) + (seq![flags] + (
                buffer::be_bytes(packed.len() as i32) + (buffer::be_bytes(raw) + (packed + end))))),
            );
            &&& read matches Ok(world)
            &&& world.world_version == world_version
            &&& world.flags == flags
            &&& world.chunks == chunks
            &&& forall|extra: Seq<u8>, behind: Seq<u8>|
                layout::parse_block(end) == Ok::<(Seq<u8>, Seq<u8>), SlimeFailure>(
                    (extra, behind),
                ) ==> world.extra == extra
            &&& layout::parse_block(end) is Err ==> world.extra.len() == 0
        }),
{
    let s2 = buffer::be_bytes(raw) + (packed + end);
    let s1 = buffer::be_bytes(packed.len() as i32) + s2;
    law_header_layout(world_version, flags, s1);
    lemma_read_i32(packed.len() as i32, s2);
    lemma_read_i32(raw, packed + end);
    lemma_read_take(packed, end);
}

/// A compressed payload is its compressed length, its uncompressed length, which
/// means nothing, and a zstd frame; what the frame decodes to is the payload. A
/// frame that cannot be started is a failed decompression, one that breaks off an
/// I/O error.
pub proof fn law_payload_layout(packed: Seq<u8>, raw: i32, rest: Seq<u8>)
    requires
        packed.len() <= 0x7fff_ffff,
    ensures
        layout::parse_block(
            buffer::be_bytes(packed.len() as i32) + (buffer::be_bytes(raw) + (packed + rest)),
        ) == match zstd::zstd_decoded(packed) {
            Ok(data) => Ok::<(Seq<u8>, Seq<u8>), SlimeFailure>((data, rest)),
            Err(zstd::ZstdFailure::Frame) => Err(SlimeFailure::Decompress),
            Err(zstd::ZstdFailure::Stream) => Err(SlimeFailure::Io),
        },
{
    lemma_read_i32(packed.len() as i32, buffer::be_bytes(raw) + (packed + rest));
    lemma_read_i32(raw, packed + rest);
    lemma_read_take(packed, rest);
}

/// A file that does not begin with B1 0B is no SlimeWorld file, one of another
/// format version than 13 is not supported, and one that ends before it says is
/// truncated.
pub proof fn law_other_files_are_refused(s: Seq<u8>)
    ensures
        s.len() < 2 ==> layout::parse_world(s) == Err::<WorldView, SlimeFailure>(
            SlimeFailure::Truncated,
        ),
        s.len() >= 2 && (s[0] != 0xb1 || s[1] != 0x0b) ==> layout::parse_world(s) == Err::<
            WorldView,
            SlimeFailure,
        >(SlimeFailure::BadMagic),
        s.len() >= 3 && s[0] == 0xb1 && s[1] == 0x0b && s[2] != 13 ==> layout::parse_world(s)
            == Err::<WorldView, SlimeFailure>(SlimeFailure::UnsupportedVersion(s[2])),
        2 <= s.len() < 16 && s[0] == 0xb1 && s[1] == 0x0b && (s.len() >= 3 ==> s[2] == 13)
            ==> layout::parse_world(s) == Err::<WorldView, SlimeFailure>(SlimeFailure::Truncated),
{
    if s.len() >= 2 {
        let magic = s.take(2);
        assert(super::SLIME_MAGIC@[0] == 0xb1 && super::SLIME_MAGIC@[1] == 0x0b);
        if s[0] == 0xb1 && s[1] == 0x0b {
            assert(magic =~= super::SLIME_MAGIC@);
        } else {
            assert(magic[0] == s[0] && magic[1] == s[1]);
        }
    }
}

/// A negative segment length, section count or chunk count is corrupt, and a
/// segment that is shorter than its length is truncated.
pub proof fn law_bad_counts(n: i32, x: i32, z: i32, flags: u8, rest: Seq<u8>)
    ensures
        n < 0 ==> layout::parse_segment(buffer::be_bytes(n) + rest) == Err::<
            (Seq<u8>, Seq<u8>),
            SlimeFailure,
        >(SlimeFailure::Corrupt("negative segment length"@)),
        rest.len() < n ==> layout::parse_segment(buffer::be_bytes(n) + rest) == Err::<
            (Seq<u8>, Seq<u8>),
            SlimeFailure,
        >(SlimeFailure::Truncated),
        n < 0 ==> layout::parse_chunk(
            buffer::be_bytes(x) + (buffer::be_bytes(z) + (buffer::be_bytes(n) + rest)),
            flags,
        ) == Err::<(ChunkView, Seq<u8>), SlimeFailure>(
            SlimeFailure::Corrupt("negative section count"@),
        ),
        n < 0 ==> layout::parse_chunks(buffer::be_bytes(n) + rest, flags) == Err::<
            (Seq<ChunkView>, Seq<u8>),
            SlimeFailure,
        >(SlimeFailure::Corrupt("negative chunk count"@)),
{
    lemma_read_i32(n, rest);
    lemma_read_i32(x, buffer::be_bytes(z) + (buffer::be_bytes(n) + rest));
    lemma_read_i32(z, buffer::be_bytes(n) + rest);
}

/// A file whose chunk stream cannot be decompressed or read fails as that does.
pub proof fn law_broken_chunks_fail_the_file(
    world_version: i32,
    flags: u8,
    packed: Seq<u8>,
    raw: i32,
    end: Seq<u8>,
)
    requires
        packed.len() <= 0x7fff_ffff,
    ensures
        ({
            let read = layout::parse_world(
                seq![0xb1u8, 0x0b, 13] + (buffer::be_bytes(world_version) + (seq![flags] + (
                buffer::be_bytes(packed.len() as i32) + (buffer::be_bytes(raw) + (packed + end))))),
            );
            match zstd::zstd_decoded(packed) {
                Ok(stream) => layout::parse_chunks(stream, flags) matches Err(e) ==> read == Err::<
                    WorldView,
                    SlimeFailure,
                >(e),
                Err(zstd::ZstdFailure::Frame) => read == Err::<WorldView, SlimeFailure>(
                    SlimeFailure::Decompress,
                ),
                Err(zstd::ZstdFailure::Stream) => read == Err::<WorldView, SlimeFailure>(
                    SlimeFailure::Io,
                ),
            }
        }),
{
    let s2 = buffer::be_bytes(raw) + (packed + end);
    let s1 = buffer::be_bytes(packed.len() as i32) + s2;
    law_header_layout(world_version, flags, s1);
    law_payload_layout(packed, raw, end);
}

/// What a reader of a section hands out: the bytes of each part, and a handle to
/// what follows.
pub proof fn law_read_section_holds(
    section: SlimeSection,
    left: Bytes,
    flags: u8,
    block_light: Seq<u8>,
    sky_light: Seq<u8>,
    block_states: Seq<u8>,
    biomes: Seq<u8>,
    rest: Seq<u8>,
)
    requires
        block_light.len() == if flags % 2 == 1 {
            2048nat
        } else {
            0
        },
        sky_light.len() == if flags / 2 % 2 == 1 {
            2048nat
        } else {
            0
        },
        block_states.len() <= 0x7fff_ffff,
        biomes.len() <= 0x7fff_ffff,
        layout::parse_section(
            seq![flags] + (block_light + (sky_light + (buffer::be_bytes(block_states.len() as i32)
                + (block_states + (buffer::be_bytes(biomes.len() as i32) + (biomes + rest)))))),
        ) == layout::found(section@, left),
    ensures
        buffer::bytes_seq(left) == rest,
        buffer::bytes_seq(section.block_states) == block_states,
        buffer::bytes_seq(section.biomes) == biomes,
        section.block_light matches Some(light) ==> flags % 2 == 1 && buffer::bytes_seq(light)
            == block_light,
        section.block_light is None ==> flags % 2 == 0,
        section.sky_light matches Some(light) ==> flags / 2 % 2 == 1 && buffer::bytes_seq(light)
            == sky_light,
        section.sky_light is None ==> flags / 2 % 2 == 0,
{
    law_section_layout(flags, block_light, sky_light, block_states, biomes, rest);
}

/// The contents of a section, a chunk and a world are those of their fields.
pub proof fn law_contents(section: SlimeSection, chunk: SlimeChunk, world: SlimeWorld)
    ensures
        section@.block_states == buffer::bytes_seq(section.block_states),
        section@.biomes == buffer::bytes_seq(section.biomes),
        section@.block_light is Some <==> section.block_light is Some,
        section@.sky_light is Some <==> section.sky_light is Some,
        section.block_light matches Some(light) ==> section@.block_light == Some(
            buffer::bytes_seq(light),
        ),
        section.sky_light matches Some(light) ==> section@.sky_light == Some(
            buffer::bytes_seq(light),
        ),
        chunk@.x == chunk.x,
        chunk@.z == chunk.z,
        chunk@.sections.len() == chunk.sections@.len(),
        forall|i: int|
            0 <= i < chunk.sections@.len() ==> chunk@.sections[i] == (
            #[trigger] chunk.sections@[i])@,
        chunk@.height_maps == buffer::bytes_seq(chunk.height_maps),
        chunk@.block_entities == buffer::bytes_seq(chunk.block_entities),
        chunk@.entities == buffer::bytes_seq(chunk.entities),
        chunk@.block_ticks == buffer::bytes_seq(chunk.block_ticks),
        chunk@.fluid_ticks == buffer::bytes_seq(chunk.fluid_ticks),
        chunk@.poi == buffer::bytes_seq(chunk.poi),
        world@.world_version == world.world_version,
        world@.flags == world.flags,
        world@.chunks.len() == world.chunks@.len(),
        forall|i: int|
            0 <= i < world.chunks@.len() ==> world@.chunks[i] == (#[trigger] world.chunks@[i])@,
        world@.extra == buffer::bytes_seq(world.extra),
{
}

/// A length is written as it is, or as the largest that can be where it is too
/// large.
pub proof fn law_count_is_written(n: nat)
    ensures
        n <= 0x7fff_ffff ==> encoding::count_bytes(n) == buffer::be_bytes(n as i32),
        n > 0x7fff_ffff ==> encoding::count_bytes(n) == buffer::be_bytes(0x7fff_ffff),
        encoding::fits(n) <==> n <= 0x7fff_ffff,
{
}

proof fn lemma_sections_written(sections: Seq<SectionView>, pieces: Seq<Seq<u8>>)
    requires
        pieces.len() == sections.len(),
        forall|i: int|
            0 <= i < pieces.len() ==> #[trigger] pieces[i] == encoding::section_bytes(sections[i]),
    ensures
        encoding::sections_bytes(sections) == pieces.flatten(),
    decreases sections.len(),
{
    if sections.len() > 0 {
        assert forall|i: int| 0 <= i < pieces.drop_first().len() implies (
        #[trigger] pieces.drop_first()[i]) == encoding::section_bytes(sections.drop_first()[i]) by {
            assert(pieces.drop_first()[i] == pieces[i + 1]);
        }
        lemma_sections_written(sections.drop_first(), pieces.drop_first());
    }
}

/// A chunk is written as its x, its z, the number of its sections, the sections in
/// order, and then, each behind its length, its height maps, its block entities,
/// its entities and no persistent data. Neither POI nor ticks are written.
#[verifier::rlimit(40)]
pub proof fn law_chunk_is_written(chunk: ChunkView, sections: Seq<Seq<u8>>)
    requires
        sections.len() == chunk.sections.len() <= 0x7fff_ffff,
        forall|i: int|
            0 <= i < sections.len() ==> #[trigger] sections[i] == encoding::section_bytes(
                chunk.sections[i],
            ),
        chunk.height_maps.len() <= 0x7fff_ffff,
        chunk.block_entities.len() <= 0x7fff_ffff,
        chunk.entities.len() <= 0x7fff_ffff,
    ensures
        encoding::plain_chunk_bytes(chunk) == buffer::be_bytes(chunk.x) + (buffer::be_bytes(chunk.z)
            + (buffer::be_bytes(sections.len() as i32) + (sections.flatten() + (buffer::be_bytes(
            chunk.height_maps.len() as i32,
        ) + (chunk.height_maps + (buffer::be_bytes(chunk.block_entities.len() as i32) + (
        chunk.block_entities + (buffer::be_bytes(chunk.entities.len() as i32) + (chunk.entities
            + buffer::be_bytes(0)))))))))),
{
    let none = Seq::<u8>::empty();
    let last = encoding::segment_bytes(none);
    joining::lemma_cat_nothing(buffer::be_bytes(0));
    lemma_sections_written(chunk.sections, sections);
    let s7 = encoding::segment_bytes(chunk.entities) + last;
    let s6 = encoding::segment_bytes(chunk.block_entities) + s7;
    let additional = encoding::additional_bytes(chunk, 0, Seq::empty());
    assert(additional =~= none);
    let front = buffer::be_bytes(chunk.x) + buffer::be_bytes(chunk.z) + encoding::count_bytes(
        chunk.sections.len(),
    ) + encoding::sections_bytes(chunk.sections) + encoding::segment_bytes(chunk.height_maps);
    joining::lemma_cat_nothing(front);
    joining::lemma_cat(
        front + encoding::segment_bytes(chunk.block_entities),
        encoding::segment_bytes(chunk.entities),
        last,
    );
    joining::lemma_cat(front, encoding::segment_bytes(chunk.block_entities), s7);
    lemma_cat_5(
        buffer::be_bytes(chunk.x),
        buffer::be_bytes(chunk.z),
        encoding::count_bytes(chunk.sections.len()),
        encoding::sections_bytes(chunk.sections),
        encoding::segment_bytes(chunk.height_maps),
        s6,
    );
    joining::lemma_cat(
        buffer::be_bytes(chunk.height_maps.len() as i32),
        chunk.height_maps,
        s6,
    );
    joining::lemma_cat(
        buffer::be_bytes(chunk.block_entities.len() as i32),
        chunk.block_entities,
        s7,
    );
    joining::lemma_cat(buffer::be_bytes(chunk.entities.len() as i32), chunk.entities, last);
}

proof fn lemma_chunks_written(chunks: Seq<ChunkView>, pieces: Seq<Seq<u8>>)
    requires
        pieces.len() == chunks.len(),
        forall|i: int|
            0 <= i < pieces.len() ==> #[trigger] pieces[i] == encoding::plain_chunk_bytes(
                chunks[i],
            ),
    ensures
        encoding::chunk_run_bytes(chunks) == pieces.flatten(),
    decreases chunks.len(),
{
    if chunks.len() > 0 {
        assert forall|i: int| 0 <= i < pieces.drop_first().len() implies (
        #[trigger] pieces.drop_first()[i]) == encoding::plain_chunk_bytes(
            chunks.drop_first()[i],
        ) by {
            assert(pieces.drop_first()[i] == pieces[i + 1]);
        }
        lemma_chunks_written(chunks.drop_first(), pieces.drop_first());
    }
}

/// A file is written as B1 0B, the format version 13, the world version, no world
/// flag, and the two payloads, each as its compressed length, its uncompressed
/// length and its zstd frame: the chunk stream, which is the number of chunks and
/// the chunks in order, and the "extra" compound, an empty one where there is none.
pub proof fn law_file_is_written(
    world_version: i32,
    chunks: Seq<ChunkView>,
    pieces: Seq<Seq<u8>>,
    extra: Seq<u8>,
)
    requires
        pieces.len() == chunks.len() <= 0x7fff_ffff,
        forall|i: int|
            0 <= i < pieces.len() ==> #[trigger] pieces[i] == encoding::plain_chunk_bytes(
                chunks[i],
            ),
    ensures
        ({
            let stream = buffer::be_bytes(pieces.len() as i32) + pieces.flatten();
            let kept = if extra.len() == 0 {
                seq![0x0au8, 0, 0, 0]
            } else {
                extra
            };
            let first = zstd::zstd_encoded(stream);
            let second = zstd::zstd_encoded(kept);
            first.len() <= 0x7fff_ffff && stream.len() <= 0x7fff_ffff && second.len() <= 0x7fff_ffff
                && kept.len() <= 0x7fff_ffff ==> writer::world_file(world_version, chunks, extra)
                == seq![0xb1u8, 0x0b, 13] + (buffer::be_bytes(world_version) + (seq![0u8] + (
            buffer::be_bytes(first.len() as i32) + (buffer::be_bytes(stream.len() as i32) + (first
                + (buffer::be_bytes(second.len() as i32) + (buffer::be_bytes(kept.len() as i32)
                + second)))))))
        }),
{
    let stream = buffer::be_bytes(pieces.len() as i32) + pieces.flatten();
    lemma_chunks_written(chunks, pieces);
    assert(encoding::chunks_bytes(chunks) == stream);
    let kept = writer::extra_written(extra);
    assert(writer::EMPTY_COMPOUND@ =~= seq![0x0au8, 0, 0, 0]);
    let first = zstd::zstd_encoded(stream);
    let second = zstd::zstd_encoded(kept);
    let version = buffer::be_bytes(world_version);
    let frame_1 = encoding::frame_bytes(first, stream.len());
    let frame_2 = encoding::frame_bytes(second, kept.len());
    assert(super::SLIME_MAGIC@ + seq![super::SLIME_VERSION] =~= seq![0xb1u8, 0x0b, 13]);
    joining::lemma_cat(seq![0xb1u8, 0x0b, 13] + version, seq![0u8], frame_1 + frame_2);
    joining::lemma_cat(seq![0xb1u8, 0x0b, 13], version, seq![0u8] + (frame_1 + frame_2));
    joining::lemma_cat(encoding::header_bytes(world_version), frame_1, frame_2);
    if first.len() <= 0x7fff_ffff && stream.len() <= 0x7fff_ffff && second.len() <= 0x7fff_ffff
        && kept.len() <= 0x7fff_ffff {
        let n1 = buffer::be_bytes(first.len() as i32);
        let r1 = buffer::be_bytes(stream.len() as i32);
        joining::lemma_cat(n1 + r1, first, frame_2);
        joining::lemma_cat(n1, r1, first + frame_2);
        joining::lemma_cat(
            buffer::be_bytes(second.len() as i32),
            buffer::be_bytes(kept.len() as i32),
            second,
        );
    }
}

/// A payload is written as its compressed length, its uncompressed length and its
/// zstd frame.
pub proof fn law_payload_is_written(packed: Seq<u8>, raw_len: nat)
    requires
        packed.len() <= 0x7fff_ffff,
        raw_len <= 0x7fff_ffff,
    ensures
        encoding::frame_bytes(packed, raw_len) == buffer::be_bytes(packed.len() as i32)
            + buffer::be_bytes(raw_len as i32) + packed,
{
}

/// A world whose light arrays have 2048 bytes, which has neither ticks nor POI, and
/// whose lengths are below 2^31 reads back as it was.
pub proof fn law_what_fits(chunks: Seq<ChunkView>, extra: Seq<u8>)
    requires
        chunks.len() <= 0x7fff_ffff,
        forall|i: int|
            0 <= i < chunks.len() ==> {
                &&& (#[trigger] chunks[i]).sections.len() <= 0x7fff_ffff
                &&& chunks[i].height_maps.len() <= 0x7fff_ffff
                &&& chunks[i].block_entities.len() <= 0x7fff_ffff
                &&& chunks[i].entities.len() <= 0x7fff_ffff
                &&& chunks[i].block_ticks.len() == 0
                &&& chunks[i].fluid_ticks.len() == 0
                &&& chunks[i].poi.len() == 0
            },
        forall|i: int, j: int|
            0 <= i < chunks.len() && 0 <= j < chunks[i].sections.len() ==> {
                let section = #[trigger] chunks[i].sections[j];
                &&& section.block_states.len() <= 0x7fff_ffff
                &&& section.biomes.len() <= 0x7fff_ffff
                &&& section.block_light matches Some(light) ==> light.len() == 2048
                &&& section.sky_light matches Some(light) ==> light.len() == 2048
            },
    ensures
        zstd::zstd_encoded(encoding::chunks_bytes(chunks)).len() <= 0x7fff_ffff
            && zstd::zstd_encoded(writer::extra_written(extra)).len() <= 0x7fff_ffff
            ==> writer::world_fits(chunks, extra),
{
    assert forall|i: int| 0 <= i < chunks.len() implies encoding::chunk_fits(#[trigger] chunks[i])
        && encoding::announced(chunks[i], 0) by {
        assert forall|j: int| 0 <= j < chunks[i].sections.len() implies encoding::section_fits(
            #[trigger] chunks[i].sections[j],
        ) by {}
    }
}

/// A section fails as its block states or its biomes do, whichever comes first.
pub proof fn law_broken_section(
    flags: u8,
    block_light: Seq<u8>,
    sky_light: Seq<u8>,
    block_states: Seq<u8>,
    bad: Seq<u8>,
    e: SlimeFailure,
)
    requires
        block_light.len() == if flags % 2 == 1 {
            2048nat
        } else {
            0
        },
        sky_light.len() == if flags / 2 % 2 == 1 {
            2048nat
        } else {
            0
        },
        block_states.len() <= 0x7fff_ffff,
        layout::parse_segment(bad) == Err::<(Seq<u8>, Seq<u8>), SlimeFailure>(e),
    ensures
        layout::parse_section(seq![flags] + (block_light + (sky_light + bad))) == Err::<
            (SectionView, Seq<u8>),
            SlimeFailure,
        >(e),
        layout::parse_section(
            seq![flags] + (block_light + (sky_light + (buffer::be_bytes(block_states.len() as i32)
                + (block_states + bad)))),
        ) == Err::<(SectionView, Seq<u8>), SlimeFailure>(e),
{
    let whole = buffer::be_bytes(block_states.len() as i32) + (block_states + bad);
    law_segment_layout(block_states, bad);
    lemma_lights_layout(flags, block_light, sky_light, bad);
    lemma_lights_layout(flags, block_light, sky_light, whole);
}

proof fn lemma_lights_layout(
    flags: u8,
    block_light: Seq<u8>,
    sky_light: Seq<u8>,
    rest: Seq<u8>,
)
    requires
        block_light.len() == if flags % 2 == 1 {
            2048nat
        } else {
            0
        },
        sky_light.len() == if flags / 2 % 2 == 1 {
            2048nat
        } else {
            0
        },
    ensures
        ({
            let lights = block_light + (sky_light + rest);
            &&& (seq![flags] + lights).skip(1) == lights
            &&& layout::parse_lights(lights, flags) matches Ok((_, left)) && left == rest
        }),
{
    let lights = block_light + (sky_light + rest);
    assert((seq![flags] + lights).skip(1) =~= lights);
    assert(layout::flag_set(flags, 1) == (flags % 2 == 1));
    assert(layout::flag_set(flags, 2) == (flags / 2 % 2 == 1));
    if flags % 2 == 1 {
        lemma_read_take(block_light, sky_light + rest);
    } else {
        assert(lights =~= sky_light + rest);
    }
    if flags / 2 % 2 == 1 {
        lemma_read_take(sky_light, rest);
    } else {
        assert(sky_light + rest =~= rest);
    }
}

proof fn lemma_broken_row(
    pieces: Seq<Seq<u8>>,
    sections: Seq<SectionView>,
    bad: Seq<u8>,
    e: SlimeFailure,
    n: nat,
)
    requires
        sections.len() == pieces.len() < n,
        forall|i: int|
            0 <= i < pieces.len() ==> layout::parse_section(#[trigger] pieces[i]) == Ok::<
                (SectionView, Seq<u8>),
                SlimeFailure,
            >((sections[i], Seq::empty())),
        layout::parse_section(bad) == Err::<(SectionView, Seq<u8>), SlimeFailure>(e),
    ensures
        layout::parse_sections(pieces.flatten() + bad, n) == Err::<
            (Seq<SectionView>, Seq<u8>),
            SlimeFailure,
        >(e),
    decreases pieces.len(),
{
    if pieces.len() == 0 {
        assert(pieces.flatten() + bad =~= bad);
    } else {
        let tail = pieces.drop_first();
        let behind = tail.flatten() + bad;
        joining::lemma_cat(pieces[0], tail.flatten(), bad);
        prefixes::lemma_section(pieces[0], behind);
        joining::lemma_cat_nothing(behind);
        assert forall|i: int| 0 <= i < tail.len() implies layout::parse_section(
            #[trigger] tail[i],
        ) == Ok::<(SectionView, Seq<u8>), SlimeFailure>(
            (sections.drop_first()[i], Seq::empty()),
        ) by {
            assert(tail[i] == pieces[i + 1]);
        }
        lemma_broken_row(tail, sections.drop_first(), bad, e, (n - 1) as nat);
    }
}

/// A chunk fails as the first of its sections that cannot be read does, and as its
/// height maps do.
pub proof fn law_broken_chunk_front(
    x: i32,
    z: i32,
    flags: u8,
    n: i32,
    pieces: Seq<Seq<u8>>,
    sections: Seq<SectionView>,
    bad: Seq<u8>,
    e: SlimeFailure,
)
    requires
        sections.len() == pieces.len(),
        forall|i: int|
            0 <= i < pieces.len() ==> layout::parse_section(#[trigger] pieces[i]) == Ok::<
                (SectionView, Seq<u8>),
                SlimeFailure,
            >((sections[i], Seq::empty())),
    ensures
        pieces.len() < n && layout::parse_section(bad) == Err::<
            (SectionView, Seq<u8>),
            SlimeFailure,
        >(e) ==> layout::parse_chunk(
            buffer::be_bytes(x) + (buffer::be_bytes(z) + (buffer::be_bytes(n) + (pieces.flatten()
                + bad))),
            flags,
        ) == Err::<(ChunkView, Seq<u8>), SlimeFailure>(e),
        pieces.len() == n && layout::parse_segment(bad) == Err::<(Seq<u8>, Seq<u8>), SlimeFailure>(
            e,
        ) ==> layout::parse_chunk(
            buffer::be_bytes(x) + (buffer::be_bytes(z) + (buffer::be_bytes(n) + (pieces.flatten()
                + bad))),
            flags,
        ) == Err::<(ChunkView, Seq<u8>), SlimeFailure>(e),
{
    let s2 = pieces.flatten() + bad;
    lemma_read_i32(x, buffer::be_bytes(z) + (buffer::be_bytes(n) + s2));
    lemma_read_i32(z, buffer::be_bytes(n) + s2);
    lemma_read_i32(n, s2);
    if pieces.len() < n && layout::parse_section(bad) == Err::<
        (SectionView, Seq<u8>),
        SlimeFailure,
    >(e) {
        lemma_broken_row(pieces, sections, bad, e, n as nat);
    }
    if pieces.len() == n {
        lemma_sections_in_a_row(pieces, sections, bad);
    }
}

/// A chunk fails as the first of the segments behind its height maps that cannot be
/// read does: `before` are the segments that can be, in the order of the file, of
/// which there are one for each set bit of the world flags and three more.
pub proof fn law_broken_chunk_end(
    x: i32,
    z: i32,
    flags: u8,
    sections: Seq<Seq<u8>>,
    read: Seq<SectionView>,
    height_maps: Seq<u8>,
    before: Seq<Seq<u8>>,
    bad: Seq<u8>,
    e: SlimeFailure,
)
    requires
        read.len() == sections.len() <= 0x7fff_ffff,
        forall|i: int|
            0 <= i < sections.len() ==> layout::parse_section(#[trigger] sections[i]) == Ok::<
                (SectionView, Seq<u8>),
                SlimeFailure,
            >((read[i], Seq::empty())),
        height_maps.len() <= 0x7fff_ffff,
        before.len() < flags % 2 + flags / 2 % 2 + flags / 4 % 2 + flags / 8 % 2 + flags / 16 % 2
            + flags / 32 % 2 + flags / 64 % 2 + flags / 128 % 2 + 3,
        forall|i: int|
            0 <= i < before.len() ==> (layout::parse_segment(#[trigger] before[i]) matches Ok(
                (_, left),
            ) && left.len() == 0),
        layout::parse_segment(bad) == Err::<(Seq<u8>, Seq<u8>), SlimeFailure>(e),
    ensures
        layout::parse_chunk(
            buffer::be_bytes(x) + (buffer::be_bytes(z) + (buffer::be_bytes(sections.len() as i32)
                + (sections.flatten() + (buffer::be_bytes(height_maps.len() as i32) + (height_maps
                + (before.flatten() + bad)))))),
            flags,
        ) == Err::<(ChunkView, Seq<u8>), SlimeFailure>(e),
{
    let s0 = before.flatten() + bad;
    let h = buffer::be_bytes(height_maps.len() as i32) + (height_maps + s0);
    let n = buffer::be_bytes(sections.len() as i32) + (sections.flatten() + h);
    lemma_read_i32(x, buffer::be_bytes(z) + n);
    lemma_read_i32(z, n);
    lemma_read_i32(sections.len() as i32, sections.flatten() + h);
    lemma_sections_in_a_row(sections, read, h);
    law_segment_layout(height_maps, s0);
    let poi = flags % 2 == 1;
    let block = flags / 2 % 2 == 1;
    let fluid = flags / 4 % 2 == 1;
    assert(layout::flag_set(flags, super::FLAG_POI) == poi);
    assert(layout::flag_set(flags, super::FLAG_BLOCK_TICKS) == block);
    assert(layout::flag_set(flags, super::FLAG_FLUID_TICKS) == fluid);
    lemma_unknown_bits(flags);
    let b1 = lemma_step(before, bad, e, poi);
    if layout::parse_optional(s0, poi) is Ok {
        let s1 = b1.flatten() + bad;
        let b2 = lemma_step(b1, bad, e, block);
        if layout::parse_optional(s1, block) is Ok {
            let s2 = b2.flatten() + bad;
            let b3 = lemma_step(b2, bad, e, fluid);
            if layout::parse_optional(s2, fluid) is Ok {
                let s3 = b3.flatten() + bad;
                let unknown = layout::unknown_segments(flags);
                let b4 = lemma_steps(b3, bad, e, unknown);
                if layout::parse_segments(s3, unknown) is Ok {
                    let b5 = lemma_step(b4, bad, e, true);
                    if layout::parse_segment(b4.flatten() + bad) is Ok {
                        let b6 = lemma_step(b5, bad, e, true);
                        if layout::parse_segment(b5.flatten() + bad) is Ok {
                            let b7 = lemma_step(b6, bad, e, true);
                        }
                    }
                }
            }
        }
    }
}

/// One step over a row of segments with a broken one behind them.
proof fn lemma_step(before: Seq<Seq<u8>>, bad: Seq<u8>, e: SlimeFailure, present: bool) -> (left:
    Seq<Seq<u8>>)
    requires
        forall|i: int|
            0 <= i < before.len() ==> (layout::parse_segment(#[trigger] before[i]) matches Ok(
                (_, left),
            ) && left.len() == 0),
        layout::parse_segment(bad) == Err::<(Seq<u8>, Seq<u8>), SlimeFailure>(e),
    ensures
        forall|i: int|
            0 <= i < left.len() ==> (layout::parse_segment(#[trigger] left[i]) matches Ok((_, r))
                && r.len() == 0),
        match layout::parse_optional(before.flatten() + bad, present) {
            Ok((_, rest)) => rest == left.flatten() + bad && left.len() == before.len()
                - if present {
                1int
            } else {
                0
            },
            Err(failure) => present && before.len() == 0 && failure == e,
        },
{
    if !present {
        before
    } else if before.len() == 0 {
        assert(before.flatten() + bad =~= bad);
        before
    } else {
        let tail = before.drop_first();
        let behind = tail.flatten() + bad;
        joining::lemma_cat(before[0], tail.flatten(), bad);
        prefixes::lemma_segment(before[0], behind);
        let nothing = layout::parse_segment(before[0])->Ok_0.1;
        assert(nothing + behind =~= behind);
        assert forall|i: int| 0 <= i < tail.len() implies (layout::parse_segment(
            #[trigger] tail[i],
        ) matches Ok((_, r)) && r.len() == 0) by {
            assert(tail[i] == before[i + 1]);
        }
        tail
    }
}

proof fn lemma_steps(before: Seq<Seq<u8>>, bad: Seq<u8>, e: SlimeFailure, n: nat) -> (left: Seq<
    Seq<u8>,
>)
    requires
        forall|i: int|
            0 <= i < before.len() ==> (layout::parse_segment(#[trigger] before[i]) matches Ok(
                (_, left),
            ) && left.len() == 0),
        layout::parse_segment(bad) == Err::<(Seq<u8>, Seq<u8>), SlimeFailure>(e),
    ensures
        forall|i: int|
            0 <= i < left.len() ==> (layout::parse_segment(#[trigger] left[i]) matches Ok((_, r))
                && r.len() == 0),
        match layout::parse_segments(before.flatten() + bad, n) {
            Ok((_, rest)) => rest == left.flatten() + bad && left.len() == before.len() - n,
            Err(failure) => before.len() < n && failure == e,
        },
    decreases n,
{
    if n == 0 {
        before
    } else {
        let next = lemma_step(before, bad, e, true);
        if layout::parse_segment(before.flatten() + bad) is Ok {
            lemma_steps(next, bad, e, (n - 1) as nat)
        } else {
            next
        }
    }
}

/// A chunk stream fails as the first of its chunks that cannot be read does.
pub proof fn law_broken_stream(
    pieces: Seq<Seq<u8>>,
    flags: u8,
    chunks: Seq<ChunkView>,
    n: i32,
    bad: Seq<u8>,
    e: SlimeFailure,
)
    requires
        chunks.len() == pieces.len() < n,
        forall|i: int|
            0 <= i < pieces.len() ==> layout::parse_chunk(#[trigger] pieces[i], flags) == Ok::<
                (ChunkView, Seq<u8>),
                SlimeFailure,
            >((chunks[i], Seq::empty())),
        layout::parse_chunk(bad, flags) == Err::<(ChunkView, Seq<u8>), SlimeFailure>(e),
    ensures
        layout::parse_chunks(buffer::be_bytes(n) + (pieces.flatten() + bad), flags) == Err::<
            (Seq<ChunkView>, Seq<u8>),
            SlimeFailure,
        >(e),
{
    lemma_read_i32(n, pieces.flatten() + bad);
    lemma_broken_run(pieces, flags, chunks, bad, e, n as nat);
}

proof fn lemma_broken_run(
    pieces: Seq<Seq<u8>>,
    flags: u8,
    chunks: Seq<ChunkView>,
    bad: Seq<u8>,
    e: SlimeFailure,
    n: nat,
)
    requires
        chunks.len() == pieces.len() < n,
        forall|i: int|
            0 <= i < pieces.len() ==> layout::parse_chunk(#[trigger] pieces[i], flags) == Ok::<
                (ChunkView, Seq<u8>),
                SlimeFailure,
            >((chunks[i], Seq::empty())),
        layout::parse_chunk(bad, flags) == Err::<(ChunkView, Seq<u8>), SlimeFailure>(e),
    ensures
        layout::parse_chunk_run(pieces.flatten() + bad, flags, n) == Err::<
            (Seq<ChunkView>, Seq<u8>),
            SlimeFailure,
        >(e),
    decreases pieces.len(),
{
    if pieces.len() == 0 {
        assert(pieces.flatten() + bad =~= bad);
    } else {
        let tail = pieces.drop_first();
        let behind = tail.flatten() + bad;
        joining::lemma_cat(pieces[0], tail.flatten(), bad);
        prefixes::lemma_chunk(pieces[0], flags, behind);
        joining::lemma_cat_nothing(behind);
        assert forall|i: int| 0 <= i < tail.len() implies layout::parse_chunk(
            #[trigger] tail[i],
            flags,
        ) == Ok::<(ChunkView, Seq<u8>), SlimeFailure>((chunks.drop_first()[i], Seq::empty())) by {
            assert(tail[i] == pieces[i + 1]);
        }
        lemma_broken_run(tail, flags, chunks.drop_first(), bad, e, (n - 1) as nat);
    }
}

} // verus!
