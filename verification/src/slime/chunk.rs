//! Chunks as the server holds them, in plain values.

use rustc_hash::FxHashMap;
use vstd::prelude::*;

verus! {

/// The light of one kind in a section.
#[derive(Debug)]
pub enum LightContainer {
    /// One nibble for each block.
    Full(Vec<u8>),
    /// The same level everywhere.
    Empty(u8),
}

/// The light of every section of a chunk, from the bottom upwards.
#[derive(Debug)]
pub struct ChunkLight {
    pub block_light: Vec<LightContainer>,
    pub sky_light: Vec<LightContainer>,
}

/// The block states of a section: global state ids and the packed indices into
/// them.
#[derive(Debug)]
pub struct ChunkSectionBlockStates {
    pub data: Option<Vec<i64>>,
    pub palette: Vec<u16>,
}

/// The biomes of a section: biome ids and the packed indices into them.
#[derive(Debug)]
pub struct ChunkSectionBiomes {
    pub data: Option<Vec<i64>>,
    pub palette: Vec<u8>,
}

/// The sections of a chunk, from the bottom upwards. `None` stands for the
/// default palette.
#[derive(Debug)]
pub struct ChunkSections {
    pub count: usize,
    pub block_sections: Vec<Option<ChunkSectionBlockStates>>,
    pub biome_sections: Vec<Option<ChunkSectionBiomes>>,
    /// The lowest block layer.
    pub min_y: i32,
}

/// The packed height maps of a chunk.
#[derive(Debug)]
pub struct ChunkHeightmaps {
    pub world_surface: Option<Vec<i64>>,
    pub motion_blocking: Option<Vec<i64>>,
    pub motion_blocking_no_leaves: Option<Vec<i64>>,
}

/// How far the generation of a chunk has come.
#[derive(Clone, Copy, Debug, PartialEq, Eq, Structural)]
pub enum ChunkStatus {
    Empty,
    StructureStarts,
    StructureReferences,
    Biomes,
    Noise,
    Surface,
    Carvers,
    Features,
    InitializeLight,
    Light,
    Spawn,
    Full,
}

/// The blocks of a chunk. `N` is the server's type of an NBT compound.
#[derive(Debug)]
pub struct ChunkData<N> {
    pub section: ChunkSections,
    pub heightmap: ChunkHeightmaps,
    pub x: i32,
    pub z: i32,
    /// Block entities by their position.
    pub pending_block_entities: FxHashMap<(i32, i32, i32), N>,
    pub light_engine: ChunkLight,
    pub light_populated: bool,
    pub status: ChunkStatus,
    /// Whether the chunk has to be saved.
    pub dirty: bool,
}

/// The entities of a chunk.
#[derive(Debug)]
pub struct ChunkEntityData<N> {
    pub x: i32,
    pub z: i32,
    /// Entities by the bits of their id.
    pub data: FxHashMap<u128, N>,
    /// Whether the entities have to be saved.
    pub dirty: bool,
}

/// An NBT compound of a list of block entities or entities, with the tags that
/// the converter looks at.
#[derive(Debug)]
pub struct CompoundTag<N> {
    /// The int tag `x`, where there is one.
    pub x: Option<i32>,
    /// The int tag `y`, where there is one.
    pub y: Option<i32>,
    /// The int tag `z`, where there is one.
    pub z: Option<i32>,
    /// The int array tag `UUID`, where there is one.
    pub uuid: Option<Vec<i32>>,
    /// The compound itself.
    pub nbt: N,
}

/// What a chunk holds at the time it is saved.
#[derive(Debug)]
pub struct ChunkSnapshot<N> {
    pub block_sections: Vec<ChunkSectionBlockStates>,
    pub biome_sections: Vec<ChunkSectionBiomes>,
    pub light: ChunkLight,
    pub heightmap: ChunkHeightmaps,
    /// Block entities by their position.
    pub pending_block_entities: FxHashMap<(i32, i32, i32), N>,
}

/// The same packed indices.
pub open spec fn same_data(a: Option<Vec<i64>>, b: Option<Vec<i64>>) -> bool {
    match (a, b) {
        (Some(x), Some(y)) => x@ == y@,
        (None, None) => true,
        _ => false,
    }
}

/// The same height maps.
pub open spec fn same_height_maps(a: ChunkHeightmaps, b: ChunkHeightmaps) -> bool {
    &&& same_data(a.world_surface, b.world_surface)
    &&& same_data(a.motion_blocking, b.motion_blocking)
    &&& same_data(a.motion_blocking_no_leaves, b.motion_blocking_no_leaves)
}

/// The same light.
pub open spec fn same_light(a: LightContainer, b: LightContainer) -> bool {
    match (a, b) {
        (LightContainer::Full(x), LightContainer::Full(y)) => x@ == y@,
        (LightContainer::Empty(x), LightContainer::Empty(y)) => x == y,
        _ => false,
    }
}

} // verus!
