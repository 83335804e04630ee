//! The byte layout of a `.slime` file, as the reader takes it apart.
//!
//! Each `parse_*` function says what a reader that stands at the start of some
//! bytes finds there: a value and the bytes behind it, or why there is none.

use super::buffer;
use super::error::{SlimeError, SlimeFailure};
use super::model::{ChunkView, SectionView, WorldView};
use super::zstd;
use bytes::Bytes;
use vstd::prelude::*;

verus! {

/// A value and the bytes that follow it, or the reason why there is none.
pub type Parsed<T> = Result<(T, Seq<u8>), SlimeFailure>;

/// A reader found `value` and stands before `rest`.
pub open spec fn found<T>(value: T, rest: Bytes) -> Parsed<T> {
    Ok((value, buffer::bytes_seq(rest)))
}

/// A reader failed with `error`.
pub open spec fn failed<T>(error: SlimeError) -> Parsed<T> {
    Err(error@)
}

/// Whether `rest` is the end of `s`: what a reader of `s` has still before it.
pub open spec fn ends<A>(rest: Seq<A>, s: Seq<A>) -> bool {
    &&& rest.len() <= s.len()
    &&& forall|i: int| 0 <= i < rest.len() ==> #[trigger] rest[i] == s[s.len() - rest.len() + i]
}

/// What a reader that already holds `head` and then finds `tail` has found.
pub open spec fn prepend<T>(head: Seq<T>, tail: Parsed<Seq<T>>) -> Parsed<Seq<T>> {
    match tail {
        Err(e) => Err(e),
        Ok((items, rest)) => Ok((head + items, rest)),
    }
}

/// Whether the bit of weight `weight` is set in `flags`.
pub open spec fn flag_set(flags: u8, weight: u8) -> bool {
    flags as int / weight as int % 2 == 1
}

/// How many bits of `b` are set.
pub open spec fn ones(b: u8) -> nat
    decreases b,
{
    if b == 0 {
        0
    } else {
        (b % 2) as nat + ones(b / 2)
    }
}

/// How many segments of a kind this library does not know each chunk carries:
/// one for each set bit above the known ones.
pub open spec fn unknown_segments(flags: u8) -> nat {
    ones(flags / 8)
}

pub open spec fn parse_u8(s: Seq<u8>) -> Parsed<u8> {
    if s.len() < 1 {
        Err(SlimeFailure::Truncated)
    } else {
        Ok((s[0], s.skip(1)))
    }
}

pub open spec fn parse_i32(s: Seq<u8>) -> Parsed<i32> {
    if s.len() < 4 {
        Err(SlimeFailure::Truncated)
    } else {
        Ok((buffer::be_value(s), s.skip(4)))
    }
}

/// The next `n` bytes.
pub open spec fn parse_take(s: Seq<u8>, n: nat) -> Parsed<Seq<u8>> {
    if s.len() < n {
        Err(SlimeFailure::Truncated)
    } else {
        Ok((s.take(n as int), s.skip(n as int)))
    }
}

/// A count or a length; a negative one is corrupt, for the reason given.
pub open spec fn parse_count(s: Seq<u8>, reason: Seq<char>) -> Parsed<nat> {
    match parse_i32(s) {
        Err(e) => Err(e),
        Ok((n, rest)) => if n < 0 {
            Err(SlimeFailure::Corrupt(reason))
        } else {
            Ok((n as nat, rest))
        },
    }
}

/// A length and that many bytes.
pub open spec fn parse_segment(s: Seq<u8>) -> Parsed<Seq<u8>> {
    match parse_count(s, "negative segment length"@) {
        Err(e) => Err(e),
        Ok((n, rest)) => parse_take(rest, n),
    }
}

/// A segment that is there only when `present`; an absent one is empty.
pub open spec fn parse_optional(s: Seq<u8>, present: bool) -> Parsed<Seq<u8>> {
    if present {
        parse_segment(s)
    } else {
        Ok((Seq::empty(), s))
    }
}

/// `n` segments, one after the other.
pub open spec fn parse_segments(s: Seq<u8>, n: nat) -> Parsed<Seq<Seq<u8>>>
    decreases n,
{
    if n == 0 {
        Ok((Seq::empty(), s))
    } else {
        match parse_segment(s) {
            Err(e) => Err(e),
            Ok((segment, rest)) => match parse_segments(rest, (n - 1) as nat) {
                Err(e) => Err(e),
                Ok((segments, rest)) => Ok((seq![segment] + segments, rest)),
            },
        }
    }
}

/// A light array, where there is one.
pub open spec fn parse_light(s: Seq<u8>, present: bool) -> Parsed<Option<Seq<u8>>> {
    if !present {
        Ok((None, s))
    } else {
        match parse_take(s, super::LIGHT_ARRAY_SIZE as nat) {
            Err(e) => Err(e),
            Ok((light, rest)) => Ok((Some(light), rest)),
        }
    }
}

/// The two light arrays of a section whose flags are `flags`.
pub open spec fn parse_lights(s: Seq<u8>, flags: u8) -> Parsed<
    (Option<Seq<u8>>, Option<Seq<u8>>),
> {
    match parse_light(s, flag_set(flags, 1)) {
        Err(e) => Err(e),
        Ok((block_light, rest)) => match parse_light(rest, flag_set(flags, 2)) {
            Err(e) => Err(e),
            Ok((sky_light, rest)) => Ok(((block_light, sky_light), rest)),
        },
    }
}

/// Two segments, one after the other.
pub open spec fn parse_pair(s: Seq<u8>) -> Parsed<(Seq<u8>, Seq<u8>)> {
    match parse_segment(s) {
        Err(e) => Err(e),
        Ok((first, rest)) => match parse_segment(rest) {
            Err(e) => Err(e),
            Ok((second, rest)) => Ok(((first, second), rest)),
        },
    }
}

/// A section: its flags, its light arrays, its block states and its biomes.
pub open spec fn parse_section(s: Seq<u8>) -> Parsed<SectionView> {
    match parse_u8(s) {
        Err(e) => Err(e),
        Ok((flags, rest)) => match parse_lights(rest, flags) {
            Err(e) => Err(e),
            Ok(((block_light, sky_light), rest)) => match parse_pair(rest) {
                Err(e) => Err(e),
                Ok(((block_states, biomes), rest)) => Ok(
                    (SectionView { block_light, sky_light, block_states, biomes }, rest),
                ),
            },
        },
    }
}

/// `n` sections, one after the other.
pub open spec fn parse_sections(s: Seq<u8>, n: nat) -> Parsed<Seq<SectionView>>
    decreases n,
{
    if n == 0 {
        Ok((Seq::empty(), s))
    } else {
        match parse_section(s) {
            Err(e) => Err(e),
            Ok((section, rest)) => match parse_sections(rest, (n - 1) as nat) {
                Err(e) => Err(e),
                Ok((sections, rest)) => Ok((seq![section] + sections, rest)),
            },
        }
    }
}

/// Two coordinates.
pub open spec fn parse_coordinates(s: Seq<u8>) -> Parsed<(i32, i32)> {
    match parse_i32(s) {
        Err(e) => Err(e),
        Ok((x, rest)) => match parse_i32(rest) {
            Err(e) => Err(e),
            Ok((z, rest)) => Ok(((x, z), rest)),
        },
    }
}

/// A section count and that many sections.
pub open spec fn parse_section_list(s: Seq<u8>) -> Parsed<Seq<SectionView>> {
    match parse_count(s, "negative section count"@) {
        Err(e) => Err(e),
        Ok((n, rest)) => parse_sections(rest, n),
    }
}

/// The additional segments that the world flags announce: POI, block ticks and
/// fluid ticks. The unknown ones behind them are passed over.
pub open spec fn parse_additional(s: Seq<u8>, flags: u8) -> Parsed<(Seq<u8>, Seq<u8>, Seq<u8>)> {
    match parse_optional(s, flag_set(flags, super::FLAG_POI)) {
        Err(e) => Err(e),
        Ok((poi, rest)) => match parse_optional(rest, flag_set(flags, super::FLAG_BLOCK_TICKS)) {
            Err(e) => Err(e),
            Ok((block_ticks, rest)) => match parse_optional(
                rest,
                flag_set(flags, super::FLAG_FLUID_TICKS),
            ) {
                Err(e) => Err(e),
                Ok((fluid_ticks, rest)) => match parse_segments(rest, unknown_segments(flags)) {
                    Err(e) => Err(e),
                    Ok((_, rest)) => Ok(((poi, block_ticks, fluid_ticks), rest)),
                },
            },
        },
    }
}

/// The segments that end a chunk: block entities, entities, and per-chunk
/// persistent data, which is passed over.
pub open spec fn parse_entities(s: Seq<u8>) -> Parsed<(Seq<u8>, Seq<u8>)> {
    match parse_pair(s) {
        Err(e) => Err(e),
        Ok((pair, rest)) => match parse_segment(rest) {
            Err(e) => Err(e),
            Ok((_, rest)) => Ok((pair, rest)),
        },
    }
}

/// A chunk of a world whose flags are `flags`.
pub open spec fn parse_chunk(s: Seq<u8>, flags: u8) -> Parsed<ChunkView> {
    match parse_coordinates(s) {
        Err(e) => Err(e),
        Ok(((x, z), rest)) => match parse_section_list(rest) {
            Err(e) => Err(e),
            Ok((sections, rest)) => match parse_segment(rest) {
                Err(e) => Err(e),
                Ok((height_maps, rest)) => match parse_additional(rest, flags) {
                    Err(e) => Err(e),
                    Ok(((poi, block_ticks, fluid_ticks), rest)) => match parse_entities(rest) {
                        Err(e) => Err(e),
                        Ok(((block_entities, entities), rest)) => Ok(
                            (
                                ChunkView {
                                    x,
                                    z,
                                    sections,
                                    height_maps,
                                    block_entities,
                                    entities,
                                    block_ticks,
                                    fluid_ticks,
                                    poi,
                                },
                                rest,
                            ),
                        ),
                    },
                },
            },
        },
    }
}

/// `n` chunks, one after the other.
pub open spec fn parse_chunk_run(s: Seq<u8>, flags: u8, n: nat) -> Parsed<Seq<ChunkView>>
    decreases n,
{
    if n == 0 {
        Ok((Seq::empty(), s))
    } else {
        match parse_chunk(s, flags) {
            Err(e) => Err(e),
            Ok((chunk, rest)) => match parse_chunk_run(rest, flags, (n - 1) as nat) {
                Err(e) => Err(e),
                Ok((chunks, rest)) => Ok((seq![chunk] + chunks, rest)),
            },
        }
    }
}

/// A chunk count and that many chunks.
pub open spec fn parse_chunks(s: Seq<u8>, flags: u8) -> Parsed<Seq<ChunkView>> {
    match parse_count(s, "negative chunk count"@) {
        Err(e) => Err(e),
        Ok((n, rest)) => parse_chunk_run(rest, flags, n),
    }
}

/// A compressed payload: its length, its uncompressed length (which is not
/// looked at) and its bytes.
pub open spec fn parse_frame(s: Seq<u8>) -> Parsed<Seq<u8>> {
    match parse_i32(s) {
        Err(e) => Err(e),
        Ok((n, rest)) => match parse_i32(rest) {
            Err(e) => Err(e),
            Ok((_, rest)) => if n < 0 {
                Err(SlimeFailure::Corrupt("negative compressed length"@))
            } else {
                parse_take(rest, n as nat)
            },
        },
    }
}

/// What a payload whose decoding gave `outcome` amounts to.
pub open spec fn payload(outcome: Result<Seq<u8>, zstd::ZstdFailure>) -> Result<
    Seq<u8>,
    SlimeFailure,
> {
    match outcome {
        Ok(data) => Ok(data),
        Err(zstd::ZstdFailure::Frame) => Err(SlimeFailure::Decompress),
        Err(zstd::ZstdFailure::Stream) => Err(SlimeFailure::Io),
    }
}

/// A compressed payload, decompressed.
pub open spec fn parse_block(s: Seq<u8>) -> Parsed<Seq<u8>> {
    match parse_frame(s) {
        Err(e) => Err(e),
        Ok((compressed, rest)) => match payload(zstd::zstd_decoded(compressed)) {
            Err(e) => Err(e),
            Ok(data) => Ok((data, rest)),
        },
    }
}

/// The file header: magic and format version, which are checked, then the world
/// version and the world flags.
pub open spec fn parse_header(s: Seq<u8>) -> Parsed<(i32, u8)> {
    match parse_take(s, 2) {
        Err(e) => Err(e),
        Ok((magic, rest)) => if magic != super::SLIME_MAGIC@ {
            Err(SlimeFailure::BadMagic)
        } else {
            match parse_u8(rest) {
                Err(e) => Err(e),
                Ok((version, rest)) => if version != super::SLIME_VERSION {
                    Err(SlimeFailure::UnsupportedVersion(version))
                } else {
                    match parse_i32(rest) {
                        Err(e) => Err(e),
                        Ok((world_version, rest)) => match parse_u8(rest) {
                            Err(e) => Err(e),
                            Ok((flags, rest)) => Ok(((world_version, flags), rest)),
                        },
                    }
                },
            }
        },
    }
}

/// The world "extra" payload, which may be missing or damaged: it is then empty.
pub open spec fn extra_or_empty(block: Parsed<Seq<u8>>) -> Seq<u8> {
    match block {
        Ok((data, _)) => data,
        Err(_) => Seq::empty(),
    }
}

/// A whole file.
pub open spec fn parse_world(s: Seq<u8>) -> Result<WorldView, SlimeFailure> {
    match parse_header(s) {
        Err(e) => Err(e),
        Ok(((world_version, flags), rest)) => match parse_block(rest) {
            Err(e) => Err(e),
            Ok((body, rest)) => match parse_chunks(body, flags) {
                Err(e) => Err(e),
                Ok((chunks, _)) => Ok(
                    WorldView {
                        world_version,
                        flags,
                        chunks,
                        extra: extra_or_empty(parse_block(rest)),
                    },
                ),
            },
        },
    }
}

/// A reader that found a value stands before the bytes that it has left; one that
/// failed says why.
pub proof fn law_reader_outcome<T>(value: T, rest: Bytes, error: SlimeError)
    ensures
        found(value, rest) == Ok::<(T, Seq<u8>), SlimeFailure>((value, buffer::bytes_seq(rest))),
        failed::<T>(error) == Err::<(T, Seq<u8>), SlimeFailure>(error@),
{
}

} // verus!
