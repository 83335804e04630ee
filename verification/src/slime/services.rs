//! What the embedding server supplies: an NBT codec and the block and biome
//! registries.
//!
//! Nothing is claimed of an implementation. The contracts of the functions that
//! call one say which questions they ask and what they make of the answers, by
//! way of the relations that stand below each trait.

use super::chunk::{ChunkHeightmaps, CompoundTag};
use std::collections::BTreeMap;
use vstd::prelude::*;

verus! {

/// Vanilla `block_states` section payload.
#[derive(Debug)]
pub struct VanillaBlockStates {
    pub palette: Vec<VanillaPaletteEntry>,
    pub data: Option<Vec<i64>>,
}

/// A single vanilla block-state palette entry.
#[derive(Debug)]
pub struct VanillaPaletteEntry {
    pub name: String,
    pub properties: Option<BTreeMap<String, String>>,
}

/// Vanilla `biomes` section payload.
#[derive(Debug)]
pub struct VanillaBiomes {
    pub palette: Vec<String>,
    pub data: Option<Vec<i64>>,
}

/// Turns NBT segments into values and back. A segment is one named root
/// compound; the decoder answers `None` to anything else.
pub trait NbtCodec {
    /// An NBT compound.
    type Compound;

    fn decode_block_states(&self, bytes: &[u8]) -> Option<VanillaBlockStates>;

    fn decode_biomes(&self, bytes: &[u8]) -> Option<VanillaBiomes>;

    fn decode_height_maps(&self, bytes: &[u8]) -> Option<ChunkHeightmaps>;

    /// The compounds of the list `tileEntities` or `entities`.
    fn decode_compounds(&self, bytes: &[u8]) -> Option<Vec<CompoundTag<Self::Compound>>>;

    /// Whether the bytes are a compound at all.
    fn is_compound(&self, bytes: &[u8]) -> bool;

    fn encode_block_states(
        &self,
        palette: &Vec<VanillaPaletteEntry>,
        data: &Option<Vec<i64>>,
    ) -> Vec<u8>;

    fn encode_biomes(&self, palette: &Vec<String>, data: &Option<Vec<i64>>) -> Vec<u8>;

    fn encode_height_maps(&self, height_maps: &ChunkHeightmaps) -> Vec<u8>;

    /// A compound with the list `tileEntities`.
    fn encode_tile_entities(&self, items: &Vec<&Self::Compound>) -> Vec<u8>;

    /// A compound with the list `entities`.
    fn encode_entities(&self, items: &Vec<&Self::Compound>) -> Vec<u8>;
}

/// The codec may answer `r` when asked to decode block states.
pub open spec fn reads_block_states<C: NbtCodec>(
    codec: &C,
    bytes: Seq<u8>,
    r: Option<VanillaBlockStates>,
) -> bool {
    exists|s: &[u8]| s@ == bytes && #[trigger] call_ensures(C::decode_block_states, (codec, s), r)
}

/// The codec may answer `r` when asked to decode biomes.
pub open spec fn reads_biomes<C: NbtCodec>(
    codec: &C,
    bytes: Seq<u8>,
    r: Option<VanillaBiomes>,
) -> bool {
    exists|s: &[u8]| s@ == bytes && #[trigger] call_ensures(C::decode_biomes, (codec, s), r)
}

/// The codec may answer `r` when asked to decode height maps.
pub open spec fn reads_height_maps<C: NbtCodec>(
    codec: &C,
    bytes: Seq<u8>,
    r: Option<ChunkHeightmaps>,
) -> bool {
    exists|s: &[u8]| s@ == bytes && #[trigger] call_ensures(C::decode_height_maps, (codec, s), r)
}

/// The codec may answer `r` when asked to decode a list of compounds.
pub open spec fn reads_compounds<C: NbtCodec>(
    codec: &C,
    bytes: Seq<u8>,
    r: Option<Vec<CompoundTag<C::Compound>>>,
) -> bool {
    exists|s: &[u8]| s@ == bytes && #[trigger] call_ensures(C::decode_compounds, (codec, s), r)
}

/// The codec may answer `r` when asked whether bytes are a compound.
pub open spec fn judges_compound<C: NbtCodec>(codec: &C, bytes: Seq<u8>, r: bool) -> bool {
    exists|s: &[u8]| s@ == bytes && #[trigger] call_ensures(C::is_compound, (codec, s), r)
}

/// The block registry and the biome registry.
pub trait Registry {
    /// A block of the registry.
    type Block;

    /// The block with this name, given without a namespace.
    fn block(&self, key: &str) -> Option<Self::Block>;

    /// The state id that a block has by default.
    fn default_state(&self, block: &Self::Block) -> u16;

    /// The state id of a block with these properties.
    fn state_with(&self, block: &Self::Block, properties: &BTreeMap<String, String>) -> u16;

    /// The default state id of air.
    fn air_state(&self) -> u16;

    /// The name, without a namespace, of the block that a state id belongs to.
    fn block_name(&self, state_id: u16) -> String;

    /// The properties of a state, where its block has any.
    fn block_properties(&self, state_id: u16) -> Option<BTreeMap<String, String>>;

    /// The id of the biome with this name, given without a namespace.
    fn biome(&self, key: &str) -> Option<u8>;

    /// The id of the plains biome.
    fn plains(&self) -> u8;

    /// The name, without a namespace, of the biome with this id.
    fn biome_name(&self, biome_id: u8) -> Option<String>;
}

/// The registry may answer `found` when asked for a block.
pub open spec fn finds_block<R: Registry>(
    registry: &R,
    key: Seq<char>,
    found: Option<R::Block>,
) -> bool {
    exists|k: &str| k@ == key && #[trigger] call_ensures(R::block, (registry, k), found)
}

/// The registry may answer `found` when asked for a biome.
pub open spec fn finds_biome<R: Registry>(
    registry: &R,
    key: Seq<char>,
    found: Option<u8>,
) -> bool {
    exists|k: &str| k@ == key && #[trigger] call_ensures(R::biome, (registry, k), found)
}

/// The relations above say what the codec answers to these very bytes.
pub proof fn law_codec_is_asked<C: NbtCodec>(codec: &C, bytes: Seq<u8>)
    ensures
        forall|r: Option<VanillaBlockStates>| #[trigger]
            reads_block_states(codec, bytes, r) <==> exists|s: &[u8]|
                s@ == bytes && call_ensures(C::decode_block_states, (codec, s), r),
        forall|r: Option<VanillaBiomes>| #[trigger]
            reads_biomes(codec, bytes, r) <==> exists|s: &[u8]|
                s@ == bytes && call_ensures(C::decode_biomes, (codec, s), r),
        forall|r: Option<ChunkHeightmaps>| #[trigger]
            reads_height_maps(codec, bytes, r) <==> exists|s: &[u8]|
                s@ == bytes && call_ensures(C::decode_height_maps, (codec, s), r),
        forall|r: Option<Vec<CompoundTag<C::Compound>>>| #[trigger]
            reads_compounds(codec, bytes, r) <==> exists|s: &[u8]|
                s@ == bytes && call_ensures(C::decode_compounds, (codec, s), r),
        forall|r: bool| #[trigger]
            judges_compound(codec, bytes, r) <==> exists|s: &[u8]|
                s@ == bytes && call_ensures(C::is_compound, (codec, s), r),
{
}

/// The relations above say what the registry answers to this very name.
pub proof fn law_registry_is_asked<R: Registry>(registry: &R, key: Seq<char>)
    ensures
        forall|found: Option<R::Block>| #[trigger]
            finds_block(registry, key, found) <==> exists|k: &str|
                k@ == key && call_ensures(R::block, (registry, k), found),
        forall|found: Option<u8>| #[trigger]
            finds_biome(registry, key, found) <==> exists|k: &str|
                k@ == key && call_ensures(R::biome, (registry, k), found),
{
}

} // verus!
