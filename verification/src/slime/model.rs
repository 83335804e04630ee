//! In-memory representation of a parsed `.slime` world.
//!
//! Every NBT payload is kept as its raw bytes, exactly as it appears in the
//! file; interpreting it is left to the converter.

use super::buffer;
use bytes::Bytes;
use vstd::prelude::*;

verus! {

/// A whole `.slime` world held in memory.
#[derive(Debug)]
pub struct SlimeWorld {
    /// Vanilla `DataVersion` the world was saved with.
    pub world_version: i32,
    /// Bitmask of the additional segments that every chunk carries.
    pub flags: u8,
    /// All stored chunks, in file order.
    pub chunks: Vec<SlimeChunk>,
    /// Decompressed world "extra" compound; empty when absent.
    pub extra: Bytes,
}

/// A single chunk within a [`SlimeWorld`].
///
/// Every NBT payload is a named root compound, or empty when its segment was.
#[derive(Debug)]
pub struct SlimeChunk {
    /// Chunk X coordinate.
    pub x: i32,
    /// Chunk Z coordinate.
    pub z: i32,
    /// Sections ordered from the world bottom upwards.
    pub sections: Vec<SlimeSection>,
    /// `Heightmaps` compound.
    pub height_maps: Bytes,
    /// Compound with the list of block entities.
    pub block_entities: Bytes,
    /// Compound with the list of entities.
    pub entities: Bytes,
    /// Block tick compound, only when the world saves block ticks.
    pub block_ticks: Bytes,
    /// Fluid tick compound, only when the world saves fluid ticks.
    pub fluid_ticks: Bytes,
    /// POI compound, only when the world saves POI data.
    pub poi: Bytes,
}

/// A 16×16×16 chunk section within a [`SlimeChunk`].
#[derive(Debug)]
pub struct SlimeSection {
    /// Block light nibbles if present.
    pub block_light: Option<Bytes>,
    /// Sky light nibbles if present.
    pub sky_light: Option<Bytes>,
    /// Vanilla paletted `block_states` compound; empty when absent.
    pub block_states: Bytes,
    /// Vanilla paletted `biomes` compound; empty when absent.
    pub biomes: Bytes,
}

/// The contents of a [`SlimeWorld`].
#[verifier::ext_equal]
pub struct WorldView {
    pub world_version: i32,
    pub flags: u8,
    pub chunks: Seq<ChunkView>,
    pub extra: Seq<u8>,
}

/// The contents of a [`SlimeChunk`].
#[verifier::ext_equal]
pub struct ChunkView {
    pub x: i32,
    pub z: i32,
    pub sections: Seq<SectionView>,
    pub height_maps: Seq<u8>,
    pub block_entities: Seq<u8>,
    pub entities: Seq<u8>,
    pub block_ticks: Seq<u8>,
    pub fluid_ticks: Seq<u8>,
    pub poi: Seq<u8>,
}

/// The contents of a [`SlimeSection`].
#[verifier::ext_equal]
pub struct SectionView {
    pub block_light: Option<Seq<u8>>,
    pub sky_light: Option<Seq<u8>>,
    pub block_states: Seq<u8>,
    pub biomes: Seq<u8>,
}

/// The contents of a light array, where there is one.
pub open spec fn light_view(light: Option<Bytes>) -> Option<Seq<u8>> {
    match light {
        Some(bytes) => Some(buffer::bytes_seq(bytes)),
        None => None,
    }
}

/// The contents of each section of a list.
pub open spec fn sections_view(sections: Seq<SlimeSection>) -> Seq<SectionView> {
    Seq::new(sections.len(), |i: int| sections[i]@)
}

/// The contents of each chunk of a list.
pub open spec fn chunks_view(chunks: Seq<SlimeChunk>) -> Seq<ChunkView> {
    Seq::new(chunks.len(), |i: int| chunks[i]@)
}

impl View for SlimeSection {
    type V = SectionView;

    open spec fn view(&self) -> SectionView {
        SectionView {
            block_light: light_view(self.block_light),
            sky_light: light_view(self.sky_light),
            block_states: buffer::bytes_seq(self.block_states),
            biomes: buffer::bytes_seq(self.biomes),
        }
    }
}

impl View for SlimeChunk {
    type V = ChunkView;

    open spec fn view(&self) -> ChunkView {
        ChunkView {
            x: self.x,
            z: self.z,
            sections: sections_view(self.sections@),
            height_maps: buffer::bytes_seq(self.height_maps),
            block_entities: buffer::bytes_seq(self.block_entities),
            entities: buffer::bytes_seq(self.entities),
            block_ticks: buffer::bytes_seq(self.block_ticks),
            fluid_ticks: buffer::bytes_seq(self.fluid_ticks),
            poi: buffer::bytes_seq(self.poi),
        }
    }
}

impl View for SlimeWorld {
    type V = WorldView;

    open spec fn view(&self) -> WorldView {
        WorldView {
            world_version: self.world_version,
            flags: self.flags,
            chunks: chunks_view(self.chunks@),
            extra: buffer::bytes_seq(self.extra),
        }
    }
}

} // verus!
