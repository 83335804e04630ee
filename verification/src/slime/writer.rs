//! Serialize an in-memory world into the `.slime` container format.
//!
//! This is the inverse of the reader: the chunks are framed and compressed the
//! way AdvancedSlimePaper does it. POI, block tick and fluid tick segments are
//! not produced (the flags byte is written as zero); the world "extra" block is
//! preserved verbatim.

use super::buffer;
use super::encoding;
use super::laws;
use super::layout;
use super::model::{self, SlimeChunk, SlimeSection};
use super::zstd;
use super::{SLIME_MAGIC, SLIME_VERSION};
use crate::joining;
use bytes::{Bytes, BytesMut};
use vstd::prelude::*;

verus! {

/// A minimal named, empty NBT compound.
pub const EMPTY_COMPOUND: [u8; 4] = [0x0a, 0x00, 0x00, 0x00];

/// The world "extra" compound that a file carries: an empty one in place of none.
pub open spec fn extra_written(extra: Seq<u8>) -> Seq<u8> {
    if extra.len() == 0 {
        EMPTY_COMPOUND@
    } else {
        extra
    }
}

/// A file made of a header and the compressed chunks and "extra" payloads.
pub open spec fn world_bytes(
    world_version: i32,
    chunks: Seq<model::ChunkView>,
    extra: Seq<u8>,
    packed_chunks: Seq<u8>,
    packed_extra: Seq<u8>,
) -> Seq<u8> {
    encoding::header_bytes(world_version) + encoding::frame_bytes(
        packed_chunks,
        encoding::chunks_bytes(chunks).len(),
    ) + encoding::frame_bytes(packed_extra, extra_written(extra).len())
}

/// The file that is written of a world.
pub open spec fn world_file(
    world_version: i32,
    chunks: Seq<model::ChunkView>,
    extra: Seq<u8>,
) -> Seq<u8> {
    world_bytes(
        world_version,
        chunks,
        extra,
        zstd::zstd_encoded(encoding::chunks_bytes(chunks)),
        zstd::zstd_encoded(extra_written(extra)),
    )
}

/// Whether the lengths in the file that is written of a world can be expressed:
/// those of its two compressed payloads, and those of its chunks.
pub open spec fn world_fits(chunks: Seq<model::ChunkView>, extra: Seq<u8>) -> bool {
    &&& encoding::fits(zstd::zstd_encoded(encoding::chunks_bytes(chunks)).len())
    &&& encoding::fits(zstd::zstd_encoded(extra_written(extra)).len())
    &&& encoding::chunks_fit(chunks)
}

fn put_count(buf: &mut BytesMut, n: usize)
    ensures
        buffer::bytes_mut_seq(*final(buf)) == buffer::bytes_mut_seq(*old(buf))
            + encoding::count_bytes(n as nat),
{
    buffer::put_i32(
        buf,
        if n <= 0x7fff_ffff {
            n as i32
        } else {
            i32::MAX
        },
    );
}

/// Write an `[i32 length][length bytes]` NBT segment.
fn put_segment(buf: &mut BytesMut, data: &[u8])
    ensures
        buffer::bytes_mut_seq(*final(buf)) == buffer::bytes_mut_seq(*old(buf))
            + encoding::segment_bytes(data@),
{
    let ghost start = buffer::bytes_mut_seq(*buf);
    put_count(buf, data.len());
    buffer::put_slice(buf, data);
    proof {
        joining::lemma_cat(start, encoding::count_bytes(data@.len()), data@);
    }
}

/// Write a light array, where there is one.
fn put_light(buf: &mut BytesMut, light: &Option<Bytes>)
    ensures
        buffer::bytes_mut_seq(*final(buf)) == buffer::bytes_mut_seq(*old(buf))
            + encoding::light_bytes(model::light_view(*light)),
{
    match light {
        Some(data) => {
            buffer::put_slice(buf, buffer::as_slice(data));
        },
        None => {
            assert(buffer::bytes_mut_seq(*buf) + Seq::empty() =~= buffer::bytes_mut_seq(*buf));
        },
    }
}

/// Write a section: its flags, its light arrays, its block states and its
/// biomes.
pub fn put_section(buf: &mut BytesMut, section: &SlimeSection)
    ensures
        buffer::bytes_mut_seq(*final(buf)) == buffer::bytes_mut_seq(*old(buf))
            + encoding::section_bytes(section@),
{
    let ghost start = buffer::bytes_mut_seq(*buf);
    let mut flags: u8 = 0;
    if section.block_light.is_some() {
        flags = flags | 1;
    }
    if section.sky_light.is_some() {
        flags = flags | 2;
    }
    assert(0u8 | 1 == 1 && 0u8 | 2 == 2 && 1u8 | 2 == 3) by (bit_vector);
    assert(flags == encoding::section_flags(section@));
    buffer::put_u8(buf, flags);
    assert(start.push(flags) =~= start + seq![flags]);
    put_light(buf, &section.block_light);
    put_light(buf, &section.sky_light);
    put_segment(buf, buffer::as_slice(&section.block_states));
    put_segment(buf, buffer::as_slice(&section.biomes));
    proof {
        laws::lemma_gather_5(
            start,
            seq![flags],
            encoding::light_bytes(section@.block_light),
            encoding::light_bytes(section@.sky_light),
            encoding::segment_bytes(section@.block_states),
            encoding::segment_bytes(section@.biomes),
        );
    }
}

proof fn lemma_sections_bytes_push(sections: Seq<model::SectionView>, section: model::SectionView)
    ensures
        encoding::sections_bytes(sections.push(section)) == encoding::sections_bytes(sections)
            + encoding::section_bytes(section),
    decreases sections.len(),
{
    let all = sections.push(section);
    if sections.len() == 0 {
        assert(all.drop_first() =~= Seq::empty());
        assert(encoding::section_bytes(section) + Seq::empty() =~= Seq::empty()
            + encoding::section_bytes(section));
        reveal_with_fuel(encoding::sections_bytes, 2);
    } else {
        assert(all.drop_first() =~= sections.drop_first().push(section));
        lemma_sections_bytes_push(sections.drop_first(), section);
        joining::lemma_cat(
            encoding::section_bytes(sections[0]),
            encoding::sections_bytes(sections.drop_first()),
            encoding::section_bytes(section),
        );
    }
}

/// Write a section count and the sections.
fn put_sections(buf: &mut BytesMut, sections: &Vec<SlimeSection>)
    ensures
        buffer::bytes_mut_seq(*final(buf)) == buffer::bytes_mut_seq(*old(buf))
            + encoding::count_bytes(sections@.len()) + encoding::sections_bytes(
            model::sections_view(sections@),
        ),
{
    put_count(buf, sections.len());
    let ghost start = buffer::bytes_mut_seq(*buf);
    let ghost all = model::sections_view(sections@);
    let mut i: usize = 0;
    proof {
        assert(all.take(0) =~= Seq::empty());
        assert(start + Seq::empty() =~= start);
    }
    while i < sections.len()
        invariant
            i <= sections.len(),
            all == model::sections_view(sections@),
            buffer::bytes_mut_seq(*buf) == start + encoding::sections_bytes(all.take(i as int)),
        decreases sections.len() - i,
    {
        put_section(buf, &sections[i]);
        proof {
            assert(all.take(i + 1) =~= all.take(i as int).push(all[i as int]));
            lemma_sections_bytes_push(all.take(i as int), all[i as int]);
            joining::lemma_cat(
                start,
                encoding::sections_bytes(all.take(i as int)),
                encoding::section_bytes(all[i as int]),
            );
        }
        i = i + 1;
    }
    assert(all.take(i as int) =~= all);
}

/// Write a chunk, without additional segments and without persistent data.
fn put_chunk(buf: &mut BytesMut, chunk: &SlimeChunk)
    ensures
        buffer::bytes_mut_seq(*final(buf)) == buffer::bytes_mut_seq(*old(buf))
            + encoding::plain_chunk_bytes(chunk@),
{
    let ghost start = buffer::bytes_mut_seq(*buf);
    buffer::put_i32(buf, chunk.x);
    buffer::put_i32(buf, chunk.z);
    put_sections(buf, &chunk.sections);
    put_segment(buf, buffer::as_slice(&chunk.height_maps));
    put_segment(buf, buffer::as_slice(&chunk.block_entities));
    put_segment(buf, buffer::as_slice(&chunk.entities));
    // Per-chunk persistent data container (unused): empty segment.
    put_count(buf, 0);
    proof {
        let c = chunk@;
        let x = buffer::be_bytes(c.x);
        let z = buffer::be_bytes(c.z);
        let n = encoding::count_bytes(c.sections.len());
        let sections = encoding::sections_bytes(c.sections);
        let height_maps = encoding::segment_bytes(c.height_maps);
        let block_entities = encoding::segment_bytes(c.block_entities);
        let entities = encoding::segment_bytes(c.entities);
        let last = encoding::count_bytes(0);
        let none = Seq::<u8>::empty();
        let head = x + z + n + sections + height_maps;
        laws::lemma_gather_5(start, x, z, n, sections, height_maps);
        assert(encoding::segment_bytes(none) =~= last);
        assert(encoding::additional_bytes(c, 0, Seq::empty()) =~= none);
        assert(head + none =~= head);
        joining::lemma_cat(start, head, block_entities);
        joining::lemma_cat(start, head + block_entities, entities);
        joining::lemma_cat(start, head + block_entities + entities, last);
    }
}

proof fn lemma_chunk_run_bytes_push(chunks: Seq<model::ChunkView>, chunk: model::ChunkView)
    ensures
        encoding::chunk_run_bytes(chunks.push(chunk)) == encoding::chunk_run_bytes(chunks)
            + encoding::plain_chunk_bytes(chunk),
    decreases chunks.len(),
{
    let all = chunks.push(chunk);
    if chunks.len() == 0 {
        assert(all.drop_first() =~= Seq::empty());
        assert(encoding::plain_chunk_bytes(chunk) + Seq::empty() =~= Seq::empty()
            + encoding::plain_chunk_bytes(chunk));
        reveal_with_fuel(encoding::chunk_run_bytes, 2);
    } else {
        assert(all.drop_first() =~= chunks.drop_first().push(chunk));
        lemma_chunk_run_bytes_push(chunks.drop_first(), chunk);
        joining::lemma_cat(
            encoding::plain_chunk_bytes(chunks[0]),
            encoding::chunk_run_bytes(chunks.drop_first()),
            encoding::plain_chunk_bytes(chunk),
        );
    }
}

/// Write the uncompressed chunk stream.
fn put_chunks(buf: &mut BytesMut, chunks: &Vec<SlimeChunk>)
    ensures
        buffer::bytes_mut_seq(*final(buf)) == buffer::bytes_mut_seq(*old(buf))
            + encoding::chunks_bytes(model::chunks_view(chunks@)),
{
    let ghost first = buffer::bytes_mut_seq(*buf);
    put_count(buf, chunks.len());
    let ghost start = buffer::bytes_mut_seq(*buf);
    let ghost all = model::chunks_view(chunks@);
    let mut i: usize = 0;
    proof {
        assert(all.take(0) =~= Seq::empty());
        assert(start + Seq::empty() =~= start);
    }
    while i < chunks.len()
        invariant
            i <= chunks.len(),
            all == model::chunks_view(chunks@),
            buffer::bytes_mut_seq(*buf) == start + encoding::chunk_run_bytes(all.take(i as int)),
        decreases chunks.len() - i,
    {
        put_chunk(buf, &chunks[i]);
        proof {
            assert(all.take(i + 1) =~= all.take(i as int).push(all[i as int]));
            lemma_chunk_run_bytes_push(all.take(i as int), all[i as int]);
            joining::lemma_cat(
                start,
                encoding::chunk_run_bytes(all.take(i as int)),
                encoding::plain_chunk_bytes(all[i as int]),
            );
        }
        i = i + 1;
    }
    proof {
        assert(all.take(i as int) =~= all);
        joining::lemma_cat(first, encoding::count_bytes(all.len()), encoding::chunk_run_bytes(all));
    }
}

/// Write a `[i32 compressed_len][i32 raw_len][zstd]` block, whose zstd frame
/// decodes to `data`.
pub fn write_compressed(file: &mut BytesMut, data: &[u8])
    ensures
        buffer::bytes_mut_seq(*final(file)) == buffer::bytes_mut_seq(*old(file))
            + encoding::frame_bytes(zstd::zstd_encoded(data@), data@.len()),
        zstd::zstd_decoded(zstd::zstd_encoded(data@)) == Ok::<Seq<u8>, zstd::ZstdFailure>(data@),
{
    let ghost start = buffer::bytes_mut_seq(*file);
    let compressed = zstd::encode(data);
    put_count(file, compressed.len());
    put_count(file, data.len());
    buffer::put_slice(file, compressed.as_slice());
    proof {
        let a = encoding::count_bytes(compressed@.len());
        let b = encoding::count_bytes(data@.len());
        joining::lemma_cat(start, a, b);
        joining::lemma_cat(start, a + b, compressed@);
        assert(encoding::frame_bytes(compressed@, data@.len()) == a + b + compressed@);
    }
}

/// Frame and compress a whole world.
///
/// `extra` is the (decompressed) world "extra" compound; when empty an empty
/// compound is written so the file stays valid. With compressed payloads and
/// segments whose lengths can be expressed, and light arrays of the full length,
/// the file reads back as the world it was made of.
pub fn frame_world(world_version: i32, extra: &[u8], chunks: &Vec<SlimeChunk>) -> (file: Vec<u8>)
    ensures
        file@ == world_file(world_version, model::chunks_view(chunks@), extra@),
        world_fits(model::chunks_view(chunks@), extra@) ==> layout::parse_world(file@) == Ok::<
            model::WorldView,
            super::error::SlimeFailure,
        >(
            (model::WorldView {
                world_version,
                flags: 0,
                chunks: model::chunks_view(chunks@),
                extra: extra_written(extra@),
            }),
        ),
{
    let ghost all = model::chunks_view(chunks@);
    let mut body = BytesMut::new();
    put_chunks(&mut body, chunks);
    assert(buffer::bytes_mut_seq(body) =~= encoding::chunks_bytes(all));

    let mut file = BytesMut::new();
    buffer::put_slice(&mut file, SLIME_MAGIC.as_slice());
    buffer::put_u8(&mut file, SLIME_VERSION);
    buffer::put_i32(&mut file, world_version);
    buffer::put_u8(&mut file, 0);  // additional world data flags: none written back
    assert(buffer::bytes_mut_seq(file) =~= encoding::header_bytes(world_version));
    write_compressed(&mut file, buffer::written(&body));
    write_compressed(
        &mut file,
        if extra.len() == 0 {
            EMPTY_COMPOUND.as_slice()
        } else {
            extra
        },
    );
    proof {
        laws::law_world_round_trip(
            world_version,
            all,
            extra@,
            zstd::zstd_encoded(encoding::chunks_bytes(all)),
            zstd::zstd_encoded(extra_written(extra@)),
        );
    }
    vstd::slice::slice_to_vec(buffer::written(&file))
}

} // verus!
