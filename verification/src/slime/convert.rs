//! Convert a parsed [`SlimeChunk`] into the server's chunk representation.
//!
//! Block states and biomes are stored as the *vanilla* paletted NBT (a palette
//! of namespaced names), so the names are resolved to global block-state and
//! biome ids here. Block entities and entities are put into tables by position
//! and by id.

use super::buffer;
use super::chunk::{
    ChunkData, ChunkEntityData, ChunkHeightmaps, ChunkLight, ChunkSectionBiomes,
    ChunkSectionBlockStates, ChunkSections, ChunkStatus, CompoundTag, LightContainer,
};
use super::error::{self, SlimeError};
use super::ids;
use super::model::{self, SlimeChunk, SlimeSection};
use super::services::{
    self, NbtCodec, Registry, VanillaBiomes, VanillaBlockStates, VanillaPaletteEntry,
};
use super::tables;
use super::LIGHT_ARRAY_SIZE;
use bytes::Bytes;
use rustc_hash::FxHashMap;
use vstd::prelude::*;

verus! {

/// A name without the `minecraft:` prefix, where it has one.
pub open spec fn bare_name(name: Seq<char>) -> Seq<char> {
    if "minecraft:"@.is_prefix_of(name) {
        name.skip("minecraft:"@.len() as int)
    } else {
        name
    }
}

/// Strip the optional `minecraft:` namespace prefix.
pub fn strip_namespace(name: &str) -> (r: &str)
    ensures
        r@ == bare_name(name@),
{
    let prefix = "minecraft:";
    let prefix_len: usize = prefix.unicode_len();
    let name_len: usize = name.unicode_len();
    if name_len < prefix_len {
        return name;
    }
    let mut i: usize = 0;
    while i < prefix_len
        invariant
            i <= prefix_len,
            prefix@ == "minecraft:"@,
            prefix_len == prefix@.len(),
            prefix_len <= name@.len(),
            forall|j: int| 0 <= j < i ==> prefix@[j] == name@[j],
        decreases prefix_len - i,
    {
        if name.get_char(i) != prefix.get_char(i) {
            assert(prefix@[i as int] != name@[i as int]);
            return name;
        }
        i = i + 1;
    }
    assert(prefix@.is_prefix_of(name@));
    assert(name@.subrange(prefix_len as int, name_len as int) =~= name@.skip(prefix_len as int));
    name.substring_char(prefix_len, name_len)
}

/// `id` is the state of a palette entry for whose block the registry answered
/// `found`: air where there is no such block, else the state with the entry's
/// properties, or the default state where it has none.
pub open spec fn state_of_found<R: Registry>(
    registry: &R,
    found: Option<R::Block>,
    entry: VanillaPaletteEntry,
    id: u16,
) -> bool {
    match found {
        None => call_ensures(R::air_state, (registry,), id),
        Some(block) => match entry.properties {
            Some(properties) => if properties@.is_empty() {
                call_ensures(R::default_state, (registry, &block), id)
            } else {
                call_ensures(R::state_with, (registry, &block, &properties), id)
            },
            None => call_ensures(R::default_state, (registry, &block), id),
        },
    }
}

/// `id` is the state of a palette entry.
pub open spec fn resolves_state<R: Registry>(
    registry: &R,
    entry: VanillaPaletteEntry,
    id: u16,
) -> bool {
    exists|found: Option<R::Block>| #[trigger]
        services::finds_block(registry, bare_name(entry.name@), found) && state_of_found(
            registry,
            found,
            entry,
            id,
        )
}

/// `id` is the id of a biome name: plains where there is no such biome.
pub open spec fn resolves_biome<R: Registry>(registry: &R, name: Seq<char>, id: u8) -> bool {
    exists|found: Option<u8>| #[trigger]
        services::finds_biome(registry, bare_name(name), found) && match found {
            Some(biome) => id == biome,
            None => call_ensures(R::plains, (registry,), id),
        }
}

/// Resolve a vanilla palette entry (block name and properties) to a global
/// block-state id, falling back to air for unknown blocks.
pub fn palette_entry_to_state_id<R: Registry>(entry: &VanillaPaletteEntry, registry: &R) -> (id:
    u16)
    ensures
        resolves_state(registry, *entry, id),
{
    let found = registry.block(strip_namespace(entry.name.as_str()));
    assert(services::finds_block(registry, bare_name(entry.name@), found));
    match &found {
        None => registry.air_state(),
        Some(block) => match &entry.properties {
            Some(properties) => if properties.is_empty() {
                registry.default_state(block)
            } else {
                registry.state_with(block, properties)
            },
            None => registry.default_state(block),
        },
    }
}

/// Resolve a vanilla biome name to a biome id, defaulting to plains.
pub fn biome_name_to_id<R: Registry>(name: &str, registry: &R) -> (id: u8)
    ensures
        resolves_biome(registry, name@, id),
{
    let found: Option<u8> = registry.biome(strip_namespace(name));
    assert(services::finds_biome(registry, bare_name(name@), found));
    match found {
        Some(biome) => biome,
        None => registry.plains(),
    }
}

/// Why a segment that the codec rejects makes a chunk unreadable.
pub open spec fn invalid_segment() -> error::SlimeFailure {
    error::SlimeFailure::Corrupt("invalid nbt segment"@)
}

/// Parse a named-compound NBT segment; empty segments yield `None`.
///
/// # Errors
///
/// Returns [`SlimeError::Corrupt`] if the decoder rejects the segment.
pub fn parse_segment<T, F: FnOnce(&[u8]) -> Option<T>>(bytes: &Bytes, decode: F) -> (r: Result<
    Option<T>,
    SlimeError,
>)
    requires
        forall|s: &[u8]| s@ == buffer::bytes_seq(*bytes) ==> #[trigger] call_requires(decode, (s,)),
    ensures
        buffer::bytes_seq(*bytes).len() == 0 ==> r == Ok::<Option<T>, SlimeError>(None),
        buffer::bytes_seq(*bytes).len() > 0 ==> exists|s: &[u8], decoded: Option<T>|
            s@ == buffer::bytes_seq(*bytes) && #[trigger] call_ensures(decode, (s,), decoded)
                && match decoded {
                Some(value) => r == Ok::<Option<T>, SlimeError>(Some(value)),
                None => r matches Err(e) && e@ == invalid_segment(),
            },
{
    if bytes.is_empty() {
        return Ok(None);
    }
    let s = buffer::as_slice(bytes);
    match decode(s) {
        Some(value) => Ok(Some(value)),
        None => Err(SlimeError::Corrupt("invalid nbt segment")),
    }
}

/// `light` is what a section's light array amounts to: the array where it has
/// the full length, darkness where there is none.
pub open spec fn light_imported(array: Option<Seq<u8>>, light: LightContainer) -> bool {
    match light {
        LightContainer::Full(data) => array == Some(data@) && data@.len() == LIGHT_ARRAY_SIZE,
        LightContainer::Empty(level) => level == 0 && !(array matches Some(data) && data.len()
            == LIGHT_ARRAY_SIZE),
    }
}

pub fn light_container(array: &Option<Bytes>) -> (light: LightContainer)
    ensures
        light_imported(model::light_view(*array), light),
{
    match array {
        Some(bytes) => if bytes.len() == LIGHT_ARRAY_SIZE {
            LightContainer::Full(vstd::slice::slice_to_vec(buffer::as_slice(bytes)))
        } else {
            LightContainer::Empty(0)
        },
        None => LightContainer::Empty(0),
    }
}

/// `block` is what a section's block states amount to: nothing where the
/// segment is empty, else the decoded ones with every palette entry resolved.
pub open spec fn block_states_imported<C: NbtCodec, R: Registry>(
    codec: &C,
    registry: &R,
    bytes: Seq<u8>,
    block: Option<ChunkSectionBlockStates>,
) -> bool {
    if bytes.len() == 0 {
        block is None
    } else {
        exists|states: VanillaBlockStates| #[trigger]
            services::reads_block_states(codec, bytes, Some(states)) && {
                &&& block matches Some(section)
                &&& section.data == states.data
                &&& section.palette@.len() == states.palette@.len()
                &&& forall|i: int|
                    0 <= i < states.palette@.len() ==> resolves_state(
                        registry,
                        states.palette@[i],
                        #[trigger] section.palette@[i],
                    )
            }
    }
}

/// `biome` is what a section's biomes amount to.
pub open spec fn biomes_imported<C: NbtCodec, R: Registry>(
    codec: &C,
    registry: &R,
    bytes: Seq<u8>,
    biome: Option<ChunkSectionBiomes>,
) -> bool {
    if bytes.len() == 0 {
        biome is None
    } else {
        exists|biomes: VanillaBiomes| #[trigger]
            services::reads_biomes(codec, bytes, Some(biomes)) && {
                &&& biome matches Some(section)
                &&& section.data == biomes.data
                &&& section.palette@.len() == biomes.palette@.len()
                &&& forall|i: int|
                    0 <= i < biomes.palette@.len() ==> resolves_biome(
                        registry,
                        biomes.palette@[i]@,
                        #[trigger] section.palette@[i],
                    )
            }
    }
}

/// Decode a section's block states and resolve its palette.
fn import_block_states<C: NbtCodec, R: Registry>(bytes: &Bytes, codec: &C, registry: &R) -> (r:
    Result<Option<ChunkSectionBlockStates>, SlimeError>)
    ensures
        r matches Ok(block) ==> block_states_imported(
            codec,
            registry,
            buffer::bytes_seq(*bytes),
            block,
        ),
        r matches Err(e) ==> e@ == invalid_segment() && buffer::bytes_seq(*bytes).len() > 0
            && services::reads_block_states(codec, buffer::bytes_seq(*bytes), None),
{
    let decode = |s: &[u8]| -> (d: Option<VanillaBlockStates>)
        ensures
            call_ensures(C::decode_block_states, (codec, s), d),
        { codec.decode_block_states(s) };
    match parse_segment(bytes, decode)? {
        None => Ok(None),
        Some(states) => {
            let mut palette: Vec<u16> = Vec::with_capacity(states.palette.len());
            let mut i: usize = 0;
            while i < states.palette.len()
                invariant
                    i <= states.palette@.len(),
                    palette@.len() == i,
                    forall|j: int|
                        0 <= j < i ==> resolves_state(
                            registry,
                            states.palette@[j],
                            #[trigger] palette@[j],
                        ),
                decreases states.palette.len() - i,
            {
                palette.push(palette_entry_to_state_id(&states.palette[i], registry));
                i = i + 1;
            }
            assert(services::reads_block_states(
                codec,
                buffer::bytes_seq(*bytes),
                Some(states),
            ));
            Ok(Some(ChunkSectionBlockStates { data: states.data, palette }))
        },
    }
}

/// Decode a section's biomes and resolve its palette.
fn import_biomes<C: NbtCodec, R: Registry>(bytes: &Bytes, codec: &C, registry: &R) -> (r: Result<
    Option<ChunkSectionBiomes>,
    SlimeError,
>)
    ensures
        r matches Ok(biome) ==> biomes_imported(codec, registry, buffer::bytes_seq(*bytes), biome),
        r matches Err(e) ==> e@ == invalid_segment() && buffer::bytes_seq(*bytes).len() > 0
            && services::reads_biomes(codec, buffer::bytes_seq(*bytes), None),
{
    let decode = |s: &[u8]| -> (d: Option<VanillaBiomes>)
        ensures
            call_ensures(C::decode_biomes, (codec, s), d),
        { codec.decode_biomes(s) };
    match parse_segment(bytes, decode)? {
        None => Ok(None),
        Some(biomes) => {
            let mut palette: Vec<u8> = Vec::with_capacity(biomes.palette.len());
            let mut i: usize = 0;
            while i < biomes.palette.len()
                invariant
                    i <= biomes.palette@.len(),
                    palette@.len() == i,
                    forall|j: int|
                        0 <= j < i ==> resolves_biome(
                            registry,
                            biomes.palette@[j]@,
                            #[trigger] palette@[j],
                        ),
                decreases biomes.palette.len() - i,
            {
                palette.push(biome_name_to_id(biomes.palette[i].as_str(), registry));
                i = i + 1;
            }
            assert(services::reads_biomes(codec, buffer::bytes_seq(*bytes), Some(biomes)));
            Ok(Some(ChunkSectionBiomes { data: biomes.data, palette }))
        },
    }
}

/// `height_maps` is what the height map segment amounts to: none of the maps
/// where it is empty.
pub open spec fn height_maps_imported<C: NbtCodec>(
    codec: &C,
    bytes: Seq<u8>,
    height_maps: ChunkHeightmaps,
) -> bool {
    if bytes.len() == 0 {
        height_maps == ChunkHeightmaps {
            world_surface: None,
            motion_blocking: None,
            motion_blocking_no_leaves: None,
        }
    } else {
        services::reads_height_maps(codec, bytes, Some(height_maps))
    }
}

fn import_height_maps<C: NbtCodec>(bytes: &Bytes, codec: &C) -> (r: Result<
    ChunkHeightmaps,
    SlimeError,
>)
    ensures
        r matches Ok(height_maps) ==> height_maps_imported(
            codec,
            buffer::bytes_seq(*bytes),
            height_maps,
        ),
        r matches Err(e) ==> e@ == invalid_segment() && buffer::bytes_seq(*bytes).len() > 0
            && services::reads_height_maps(codec, buffer::bytes_seq(*bytes), None),
{
    let decode = |s: &[u8]| -> (d: Option<ChunkHeightmaps>)
        ensures
            call_ensures(C::decode_height_maps, (codec, s), d),
        { codec.decode_height_maps(s) };
    match parse_segment(bytes, decode)? {
        Some(height_maps) => Ok(height_maps),
        None => Ok(
            ChunkHeightmaps {
                world_surface: None,
                motion_blocking: None,
                motion_blocking_no_leaves: None,
            },
        ),
    }
}

/// `items` are the compounds of a list segment: none where it is empty.
pub open spec fn compounds_imported<C: NbtCodec>(
    codec: &C,
    bytes: Seq<u8>,
    items: Vec<CompoundTag<C::Compound>>,
) -> bool {
    if bytes.len() == 0 {
        items@.len() == 0
    } else {
        services::reads_compounds(codec, bytes, Some(items))
    }
}

fn import_compounds<C: NbtCodec>(bytes: &Bytes, codec: &C) -> (r: Result<
    Vec<CompoundTag<C::Compound>>,
    SlimeError,
>)
    ensures
        r matches Ok(items) ==> compounds_imported(codec, buffer::bytes_seq(*bytes), items),
        r matches Err(e) ==> e@ == invalid_segment() && buffer::bytes_seq(*bytes).len() > 0
            && services::reads_compounds(codec, buffer::bytes_seq(*bytes), None),
{
    let decode = |s: &[u8]| -> (d: Option<Vec<CompoundTag<C::Compound>>>)
        ensures
            call_ensures(C::decode_compounds, (codec, s), d),
        { codec.decode_compounds(s) };
    match parse_segment(bytes, decode)? {
        Some(items) => Ok(items),
        None => Ok(Vec::new()),
    }
}

/// A segment that nothing is taken from is in order: it is empty, or the codec
/// accepts it as a compound.
pub open spec fn segment_accepted<C: NbtCodec>(codec: &C, bytes: Seq<u8>) -> bool {
    bytes.len() == 0 || services::judges_compound(codec, bytes, true)
}

/// The codec rejects a segment that nothing is taken from.
pub open spec fn segment_rejected<C: NbtCodec>(codec: &C, bytes: Seq<u8>) -> bool {
    bytes.len() > 0 && services::judges_compound(codec, bytes, false)
}

/// Look whether a segment that nothing is taken from is in order.
fn accept_segment<C: NbtCodec>(bytes: &Bytes, codec: &C) -> (r: Result<(), SlimeError>)
    ensures
        r is Ok ==> segment_accepted(codec, buffer::bytes_seq(*bytes)),
        r matches Err(e) ==> e@ == invalid_segment() && segment_rejected(
            codec,
            buffer::bytes_seq(*bytes),
        ),
{
    let decode = |s: &[u8]| -> (d: Option<()>)
        ensures
            call_ensures(C::is_compound, (codec, s), d is Some),
        {
            if codec.is_compound(s) {
                Some(())
            } else {
                None
            }
        };
    match parse_segment(bytes, decode)? {
        Some(_) => Ok(()),
        None => Ok(()),
    }
}

/// The position that a block entity names, where it names one.
pub open spec fn position<N>(item: CompoundTag<N>) -> Option<(i32, i32, i32)> {
    match (item.x, item.y, item.z) {
        (Some(x), Some(y), Some(z)) => Some((x, y, z)),
        _ => None,
    }
}

/// Block entities by their position: those that name one, the last of those
/// that name the same one.
pub open spec fn placed<N>(items: Seq<CompoundTag<N>>) -> Map<(i32, i32, i32), N>
    decreases items.len(),
{
    if items.len() == 0 {
        Map::empty()
    } else {
        match position(items.last()) {
            Some(at) => placed(items.drop_last()).insert(at, items.last().nbt),
            None => placed(items.drop_last()),
        }
    }
}

/// Put block entities into a table by their position.
pub fn place_block_entities<N>(items: Vec<CompoundTag<N>>) -> (r: FxHashMap<(i32, i32, i32), N>)
    ensures
        r@ == placed(items@),
{
    let mut table: FxHashMap<(i32, i32, i32), N> = FxHashMap::default();
    let ghost all = items@;
    assert(all.take(0) =~= Seq::empty());
    for item in it: items
        invariant
            it.seq() == all,
            table@ == placed(all.take(it.index())),
    {
        proof {
            assert(all.take(it.index() + 1).drop_last() =~= all.take(it.index()));
            assert(all.take(it.index() + 1).last() == item);
        }
        if let (Some(x), Some(y), Some(z)) = (item.x, item.y, item.z) {
            tables::insert(&mut table, (x, y, z), item.nbt);
        }
    }
    assert(all.take(all.len() as int) =~= all);
    table
}

/// The bits of an entity's id, where it has one.
pub open spec fn entity_id<N>(item: CompoundTag<N>) -> Option<u128> {
    match item.uuid {
        Some(array) => if array@.len() == 4 {
            Some(ids::words_value(array@) as u128)
        } else {
            None
        },
        None => None,
    }
}

/// Entities by their id: those that have one, the last of those that have the
/// same one.
pub open spec fn identified<N>(items: Seq<CompoundTag<N>>) -> Map<u128, N>
    decreases items.len(),
{
    if items.len() == 0 {
        Map::empty()
    } else {
        match entity_id(items.last()) {
            Some(id) => identified(items.drop_last()).insert(id, items.last().nbt),
            None => identified(items.drop_last()),
        }
    }
}

/// Put entities into a table by their id.
pub fn index_entities<N>(items: Vec<CompoundTag<N>>) -> (r: FxHashMap<u128, N>)
    ensures
        r@ == identified(items@),
{
    let mut table: FxHashMap<u128, N> = FxHashMap::default();
    let ghost all = items@;
    assert(all.take(0) =~= Seq::empty());
    for item in it: items
        invariant
            it.seq() == all,
            table@ == identified(all.take(it.index())),
    {
        proof {
            assert(all.take(it.index() + 1).drop_last() =~= all.take(it.index()));
            assert(all.take(it.index() + 1).last() == item);
        }
        if let Some(array) = item.uuid {
            if let Some(id) = ids::uuid_from_int_array(array.as_slice()) {
                tables::insert(&mut table, id.as_u128(), item.nbt);
            }
        }
    }
    assert(all.take(all.len() as int) =~= all);
    table
}

/// The lowest block layer of a section: sixteen times its index, as far as that
/// can be expressed.
pub open spec fn lowest_layer(section_y: i32) -> i32 {
    section_y << 4
}

/// The block layer at the bottom of a section.
pub fn section_to_block(section_y: i32) -> (y: i32)
    ensures
        y == lowest_layer(section_y),
        i32::MIN <= section_y * 16 <= i32::MAX ==> y == section_y * 16,
{
    assert(-0x800_0000 <= section_y <= 0x7ff_ffff ==> section_y << 4 == section_y * 16)
        by (bit_vector);
    section_y << 4
}

/// The sections `sections` amount to what `section` and `light` hold, one for
/// one and in the same order.
pub open spec fn sections_imported<C: NbtCodec, R: Registry>(
    codec: &C,
    registry: &R,
    sections: Seq<model::SectionView>,
    blocks: Seq<Option<ChunkSectionBlockStates>>,
    biomes: Seq<Option<ChunkSectionBiomes>>,
    block_light: Seq<LightContainer>,
    sky_light: Seq<LightContainer>,
) -> bool {
    &&& blocks.len() == sections.len()
    &&& biomes.len() == sections.len()
    &&& block_light.len() == sections.len()
    &&& sky_light.len() == sections.len()
    &&& forall|i: int|
        0 <= i < sections.len() ==> {
            &&& light_imported((#[trigger] sections[i]).block_light, block_light[i])
            &&& light_imported(sections[i].sky_light, sky_light[i])
            &&& block_states_imported(codec, registry, sections[i].block_states, blocks[i])
            &&& biomes_imported(codec, registry, sections[i].biomes, biomes[i])
        }
}

/// Whether a section comes with light.
pub open spec fn is_lit(section: model::SectionView) -> bool {
    section.block_light is Some || section.sky_light is Some
}

/// Whether some section comes with light.
pub open spec fn any_lit(sections: Seq<model::SectionView>) -> bool {
    exists|i: int| 0 <= i < sections.len() && is_lit(#[trigger] sections[i])
}

/// `data` is what a chunk amounts to in a dimension whose lowest section is
/// `min_section_y`. The entities, ticks and POI have no part in it, but they have
/// to be in order too.
pub open spec fn chunk_imported<C: NbtCodec, R: Registry>(
    codec: &C,
    registry: &R,
    chunk: model::ChunkView,
    min_section_y: i32,
    data: ChunkData<C::Compound>,
) -> bool {
    &&& data.x == chunk.x
    &&& data.z == chunk.z
    &&& data.section.count == chunk.sections.len()
    &&& data.section.min_y == lowest_layer(min_section_y)
    &&& sections_imported(
        codec,
        registry,
        chunk.sections,
        data.section.block_sections@,
        data.section.biome_sections@,
        data.light_engine.block_light@,
        data.light_engine.sky_light@,
    )
    &&& data.light_populated == any_lit(chunk.sections)
    &&& height_maps_imported(codec, chunk.height_maps, data.heightmap)
    &&& exists|items: Vec<CompoundTag<C::Compound>>| #[trigger]
        compounds_imported(codec, chunk.block_entities, items)
            && data.pending_block_entities@ == placed(items@)
    &&& exists|items: Vec<CompoundTag<C::Compound>>| #[trigger]
        compounds_imported(codec, chunk.entities, items)
    &&& segment_accepted(codec, chunk.block_ticks)
    &&& segment_accepted(codec, chunk.fluid_ticks)
    &&& segment_accepted(codec, chunk.poi)
    &&& data.status == ChunkStatus::Full
    &&& data.dirty
}

/// The codec rejects a segment of the section.
pub open spec fn section_rejected<C: NbtCodec>(codec: &C, section: model::SectionView) -> bool {
    ||| section.block_states.len() > 0 && services::reads_block_states(
        codec,
        section.block_states,
        None,
    )
    ||| section.biomes.len() > 0 && services::reads_biomes(codec, section.biomes, None)
}

/// The codec rejects a segment of the chunk.
pub open spec fn chunk_rejected<C: NbtCodec>(codec: &C, chunk: model::ChunkView) -> bool {
    ||| exists|i: int|
        0 <= i < chunk.sections.len() && section_rejected(codec, #[trigger] chunk.sections[i])
    ||| chunk.height_maps.len() > 0 && services::reads_height_maps(codec, chunk.height_maps, None)
    ||| chunk.block_entities.len() > 0 && services::reads_compounds(
        codec,
        chunk.block_entities,
        None,
    )
    ||| chunk.entities.len() > 0 && services::reads_compounds(codec, chunk.entities, None)
    ||| segment_rejected(codec, chunk.block_ticks)
    ||| segment_rejected(codec, chunk.fluid_ticks)
    ||| segment_rejected(codec, chunk.poi)
}

/// Convert a [`SlimeChunk`] into [`ChunkData`].
///
/// `min_section_y` is the bottom-most section index of the target dimension
/// (e.g. `-4` for the overworld); sections are stored bottom-up without an
/// explicit Y, so the absolute section Y of section `i` is `min_section_y + i`.
///
/// # Errors
///
/// Returns [`SlimeError`] if any of the chunk's NBT payloads are malformed.
pub fn chunk_to_chunk_data<C: NbtCodec, R: Registry>(
    chunk: &SlimeChunk,
    min_section_y: i32,
    codec: &C,
    registry: &R,
) -> (r: Result<ChunkData<C::Compound>, SlimeError>)
    ensures
        r matches Ok(data) ==> chunk_imported(codec, registry, chunk@, min_section_y, data),
        r matches Err(e) ==> e@ == invalid_segment() && chunk_rejected(codec, chunk@),
{
    let section_count: usize = chunk.sections.len();
    let mut block_light: Vec<LightContainer> = Vec::with_capacity(section_count);
    let mut sky_light: Vec<LightContainer> = Vec::with_capacity(section_count);
    let mut block_sections: Vec<Option<ChunkSectionBlockStates>> = Vec::with_capacity(
        section_count,
    );
    let mut biome_sections: Vec<Option<ChunkSectionBiomes>> = Vec::with_capacity(section_count);
    let mut has_light = false;
    let ghost sections = chunk@.sections;

    let mut index: usize = 0;
    while index < section_count
        invariant
            index <= section_count,
            section_count == chunk.sections@.len(),
            sections == chunk@.sections,
            sections_imported(
                codec,
                registry,
                sections.take(index as int),
                block_sections@,
                biome_sections@,
                block_light@,
                sky_light@,
            ),
            has_light == any_lit(sections.take(index as int)),
        decreases section_count - index,
    {
        let section: &SlimeSection = &chunk.sections[index];
        assert(sections[index as int] == section@);
        let ghost before = sections.take(index as int);
        let ghost after = sections.take(index + 1);
        assert(after =~= before.push(section@));
        block_light.push(light_container(&section.block_light));
        sky_light.push(light_container(&section.sky_light));
        block_sections.push(import_block_states(&section.block_states, codec, registry)?);
        biome_sections.push(import_biomes(&section.biomes, codec, registry)?);
        proof {
            assert forall|i: int| 0 <= i < after.len() implies {
                &&& light_imported((#[trigger] after[i]).block_light, block_light@[i])
                &&& light_imported(after[i].sky_light, sky_light@[i])
                &&& block_states_imported(
                    codec,
                    registry,
                    after[i].block_states,
                    block_sections@[i],
                )
                &&& biomes_imported(codec, registry, after[i].biomes, biome_sections@[i])
            } by {
                if i < index {
                    assert(after[i] == before[i]);
                }
            }
            assert(after[index as int] == section@);
            if any_lit(before) {
                let i = choose|i: int| 0 <= i < before.len() && is_lit(#[trigger] before[i]);
                assert(is_lit(after[i]));
            }
            if any_lit(after) && !is_lit(section@) {
                let i = choose|i: int| 0 <= i < after.len() && is_lit(#[trigger] after[i]);
                assert(is_lit(before[i]));
            }
        }
        if section.block_light.is_some() || section.sky_light.is_some() {
            has_light = true;
        }
        index = index + 1;
    }
    assert(sections.take(index as int) =~= sections);

    let heightmap = import_height_maps(&chunk.height_maps, codec)?;
    let items = import_compounds(&chunk.block_entities, codec)?;
    assert(compounds_imported(codec, chunk@.block_entities, items));
    let pending_block_entities = place_block_entities(items);
    // The remaining payloads are not taken over, but a chunk with a malformed one
    // is refused as a whole.
    let entities = import_compounds(&chunk.entities, codec)?;
    assert(compounds_imported(codec, chunk@.entities, entities));
    accept_segment(&chunk.block_ticks, codec)?;
    accept_segment(&chunk.fluid_ticks, codec)?;
    accept_segment(&chunk.poi, codec)?;
    Ok(
        ChunkData {
            section: ChunkSections {
                count: section_count,
                block_sections,
                biome_sections,
                min_y: section_to_block(min_section_y),
            },
            heightmap,
            x: chunk.x,
            z: chunk.z,
            pending_block_entities,
            light_engine: ChunkLight { block_light, sky_light },
            light_populated: has_light,
            status: ChunkStatus::Full,
            // This chunk is freshly imported and must be persisted.
            dirty: true,
        },
    )
}

/// `data` is what the entities of a chunk amount to.
pub open spec fn entities_imported<C: NbtCodec>(
    codec: &C,
    chunk: model::ChunkView,
    data: ChunkEntityData<C::Compound>,
) -> bool {
    &&& data.x == chunk.x
    &&& data.z == chunk.z
    &&& exists|items: Vec<CompoundTag<C::Compound>>| #[trigger]
        compounds_imported(codec, chunk.entities, items) && data.data@ == identified(items@)
    &&& data.dirty
}

/// Convert a [`SlimeChunk`]'s entities into [`ChunkEntityData`].
///
/// # Errors
///
/// Returns [`SlimeError`] if the entity NBT payload is malformed.
pub fn chunk_to_entity_data<C: NbtCodec>(chunk: &SlimeChunk, codec: &C) -> (r: Result<
    ChunkEntityData<C::Compound>,
    SlimeError,
>)
    ensures
        r matches Ok(data) ==> entities_imported(codec, chunk@, data),
        r matches Err(e) ==> e@ == invalid_segment() && chunk@.entities.len() > 0
            && services::reads_compounds(codec, chunk@.entities, None),
{
    let items = import_compounds(&chunk.entities, codec)?;
    assert(compounds_imported(codec, chunk@.entities, items));
    let data = index_entities(items);
    Ok(ChunkEntityData { x: chunk.x, z: chunk.z, data, dirty: true })
}

/// A name is looked up without a leading `minecraft:`, and as it is where it does
/// not begin with that.
pub proof fn law_namespace(name: Seq<char>)
    ensures
        bare_name("minecraft:"@ + name) == name,
        (forall|short: Seq<char>| name != #[trigger] ("minecraft:"@ + short)) ==> bare_name(name)
            == name,
{
    let prefix = "minecraft:"@;
    assert(prefix.is_prefix_of(prefix + name));
    assert((prefix + name).skip(prefix.len() as int) =~= name);
    if prefix.is_prefix_of(name) {
        assert(name =~= prefix + name.skip(prefix.len() as int));
    }
}

/// The entry of a block that the registry does not know is air.
pub proof fn law_unknown_block_is_air<R: Registry>(
    registry: &R,
    key: Seq<char>,
    entry: VanillaPaletteEntry,
    id: u16,
)
    requires
        entry.name@ == "minecraft:"@ + key || (entry.name@ == key && forall|short: Seq<char>|
            key != #[trigger] ("minecraft:"@ + short)),
        forall|found: Option<R::Block>| #[trigger]
            services::finds_block(registry, key, found) ==> found is None,
        resolves_state(registry, entry, id),
    ensures
        call_ensures(R::air_state, (registry,), id),
{
    law_namespace(key);
}

/// The entry of a block that the registry knows is the state that the registry
/// gives for just the entry's properties, or the block's default state where the
/// entry has none.
pub proof fn law_known_block_has_its_state<R: Registry>(
    registry: &R,
    key: Seq<char>,
    block: R::Block,
    entry: VanillaPaletteEntry,
    id: u16,
)
    requires
        entry.name@ == "minecraft:"@ + key || (entry.name@ == key && forall|short: Seq<char>|
            key != #[trigger] ("minecraft:"@ + short)),
        forall|found: Option<R::Block>| #[trigger]
            services::finds_block(registry, key, found) ==> found == Some(block),
        resolves_state(registry, entry, id),
    ensures
        entry.properties matches Some(properties) ==> (properties@.dom() != Set::<String>::empty()
            ==> call_ensures(R::state_with, (registry, &block, &properties), id)),
        entry.properties matches Some(properties) ==> (properties@.dom() == Set::<String>::empty()
            ==> call_ensures(R::default_state, (registry, &block), id)),
        entry.properties is None ==> call_ensures(R::default_state, (registry, &block), id),
{
    law_namespace(key);
    if let Some(properties) = entry.properties {
        if properties@.dom() == Set::<String>::empty() {
            assert(properties@ =~= Map::empty());
        }
    }
}

/// A biome name is the biome that the registry has under it, and plains where it
/// has none.
pub proof fn law_biome_of_a_name<R: Registry>(
    registry: &R,
    key: Seq<char>,
    name: Seq<char>,
    answer: Option<u8>,
    id: u8,
)
    requires
        name == "minecraft:"@ + key || (name == key && forall|short: Seq<char>|
            key != #[trigger] ("minecraft:"@ + short)),
        forall|found: Option<u8>| #[trigger]
            services::finds_biome(registry, key, found) ==> found == answer,
        resolves_biome(registry, name, id),
    ensures
        answer matches Some(biome) ==> id == biome,
        answer is None ==> call_ensures(R::plains, (registry,), id),
{
    law_namespace(key);
}

/// A light array of 2048 bytes is taken over byte for byte; any other, and none,
/// is darkness.
pub proof fn law_light_is_taken_over(array: Option<Seq<u8>>, light: LightContainer)
    requires
        light_imported(array, light),
    ensures
        array matches Some(bytes) ==> (bytes.len() == 2048 ==> (
        light matches LightContainer::Full(data) && data@ == bytes)),
        !(array matches Some(bytes) && bytes.len() == 2048) ==> light == LightContainer::Empty(0),
{
}

/// Block states are taken over with their data and their palette, entry for entry;
/// an empty segment has none.
pub proof fn law_block_states_are_taken_over<C: NbtCodec, R: Registry>(
    codec: &C,
    registry: &R,
    bytes: Seq<u8>,
    states: VanillaBlockStates,
    block: Option<ChunkSectionBlockStates>,
)
    requires
        bytes.len() > 0 ==> forall|r: Option<VanillaBlockStates>| #[trigger]
            services::reads_block_states(codec, bytes, r) ==> r == Some(states),
        block_states_imported(codec, registry, bytes, block),
    ensures
        bytes.len() == 0 <==> block is None,
        block matches Some(section) ==> {
            &&& section.data == states.data
            &&& section.palette@.len() == states.palette@.len()
            &&& forall|i: int|
                0 <= i < states.palette@.len() ==> resolves_state(
                    registry,
                    states.palette@[i],
                    #[trigger] section.palette@[i],
                )
        },
{
}

/// Biomes are taken over with their data and their palette, name for name; an
/// empty segment has none.
pub proof fn law_biomes_are_taken_over<C: NbtCodec, R: Registry>(
    codec: &C,
    registry: &R,
    bytes: Seq<u8>,
    biomes: VanillaBiomes,
    biome: Option<ChunkSectionBiomes>,
)
    requires
        bytes.len() > 0 ==> forall|r: Option<VanillaBiomes>| #[trigger]
            services::reads_biomes(codec, bytes, r) ==> r == Some(biomes),
        biomes_imported(codec, registry, bytes, biome),
    ensures
        bytes.len() == 0 <==> biome is None,
        biome matches Some(section) ==> {
            &&& section.data == biomes.data
            &&& section.palette@.len() == biomes.palette@.len()
            &&& forall|i: int|
                0 <= i < biomes.palette@.len() ==> resolves_biome(
                    registry,
                    biomes.palette@[i]@,
                    #[trigger] section.palette@[i],
                )
        },
{
}

/// A block entity that names three coordinates is found there, unless a later one
/// names the same.
pub proof fn law_block_entity_is_placed<N>(
    items: Seq<CompoundTag<N>>,
    i: int,
    x: i32,
    y: i32,
    z: i32,
)
    requires
        0 <= i < items.len(),
        items[i].x == Some(x),
        items[i].y == Some(y),
        items[i].z == Some(z),
        forall|j: int|
            i < j < items.len() ==> (#[trigger] items[j]).x != Some(x) || items[j].y != Some(y)
                || items[j].z != Some(z),
    ensures
        placed(items).contains_key((x, y, z)),
        placed(items)[(x, y, z)] == items[i].nbt,
    decreases items.len(),
{
    if i < items.len() - 1 {
        let shorter = items.drop_last();
        assert(items[items.len() - 1] == items.last());
        assert forall|j: int| i < j < shorter.len() implies (#[trigger] shorter[j]).x != Some(x)
            || shorter[j].y != Some(y) || shorter[j].z != Some(z) by {
            assert(shorter[j] == items[j]);
        }
        law_block_entity_is_placed(shorter, i, x, y, z);
    }
}

/// What is found at a place is a block entity that names it.
pub proof fn law_placed_block_entity_names_its_place<N>(
    items: Seq<CompoundTag<N>>,
    x: i32,
    y: i32,
    z: i32,
) -> (i: int)
    requires
        placed(items).contains_key((x, y, z)),
    ensures
        0 <= i < items.len(),
        items[i].x == Some(x),
        items[i].y == Some(y),
        items[i].z == Some(z),
        placed(items)[(x, y, z)] == items[i].nbt,
    decreases items.len(),
{
    if position(items.last()) == Some((x, y, z)) {
        items.len() - 1
    } else {
        law_placed_block_entity_names_its_place(items.drop_last(), x, y, z)
    }
}

/// The four words of an entity's `UUID` are the digits of its id, the most
/// significant first, a negative word in two's complement; an array of another
/// length is no id.
pub proof fn law_entity_id_is_its_uuid<N>(item: CompoundTag<N>)
    ensures
        item.uuid is None ==> entity_id(item) is None,
        item.uuid matches Some(array) ==> (array@.len() != 4 ==> entity_id(item) is None),
        item.uuid matches Some(array) ==> (array@.len() == 4 ==> {
            &&& entity_id(item) matches Some(id)
            &&& id as nat / 0x1_0000_0000_0000_0000_0000_0000 == if array@[0] < 0 {
                array@[0] + 0x1_0000_0000
            } else {
                array@[0] as int
            }
            &&& id as nat / 0x1_0000_0000_0000_0000 % 0x1_0000_0000 == if array@[1] < 0 {
                array@[1] + 0x1_0000_0000
            } else {
                array@[1] as int
            }
            &&& id as nat / 0x1_0000_0000 % 0x1_0000_0000 == if array@[2] < 0 {
                array@[2] + 0x1_0000_0000
            } else {
                array@[2] as int
            }
            &&& id as nat % 0x1_0000_0000 == if array@[3] < 0 {
                array@[3] + 0x1_0000_0000
            } else {
                array@[3] as int
            }
        }),
{
    if let Some(array) = item.uuid {
        if array@.len() == 4 {
            ids::law_words_are_digits(array@);
        }
    }
}

/// An entity is found under the number that its four `UUID` words stand for,
/// unless a later one has the same words.
pub proof fn law_entity_is_indexed<N>(items: Seq<CompoundTag<N>>, i: int, id: u128)
    requires
        0 <= i < items.len(),
        items[i].uuid matches Some(array) && array@.len() == 4 && {
            &&& id as nat / 0x1_0000_0000_0000_0000_0000_0000 == if array@[0] < 0 {
                array@[0] + 0x1_0000_0000
            } else {
                array@[0] as int
            }
            &&& id as nat / 0x1_0000_0000_0000_0000 % 0x1_0000_0000 == if array@[1] < 0 {
                array@[1] + 0x1_0000_0000
            } else {
                array@[1] as int
            }
            &&& id as nat / 0x1_0000_0000 % 0x1_0000_0000 == if array@[2] < 0 {
                array@[2] + 0x1_0000_0000
            } else {
                array@[2] as int
            }
            &&& id as nat % 0x1_0000_0000 == if array@[3] < 0 {
                array@[3] + 0x1_0000_0000
            } else {
                array@[3] as int
            }
        },
        forall|j: int|
            i < j < items.len() ==> ((#[trigger] items[j]).uuid matches Some(other)
                ==> other@ != items[i].uuid->0@),
    ensures
        identified(items).contains_key(id),
        identified(items)[id] == items[i].nbt,
{
    let words = items[i].uuid->0@;
    ids::law_words_are_digits(words);
    ids::lemma_same_digits(ids::words_value(words), id as nat);
    lemma_last_is_indexed(items, i, words);
}

proof fn lemma_last_is_indexed<N>(items: Seq<CompoundTag<N>>, i: int, words: Seq<i32>)
    requires
        0 <= i < items.len(),
        items[i].uuid matches Some(array) && array@ == words,
        words.len() == 4,
        ids::words_value(words) <= u128::MAX,
        forall|j: int|
            i < j < items.len() ==> ((#[trigger] items[j]).uuid matches Some(other) ==> other@
                != words),
    ensures
        identified(items).contains_key(ids::words_value(words) as u128),
        identified(items)[ids::words_value(words) as u128] == items[i].nbt,
    decreases items.len(),
{
    if i < items.len() - 1 {
        let shorter = items.drop_last();
        let last = items[items.len() - 1];
        assert(last == items.last());
        if let Some(other) = last.uuid {
            if other@.len() == 4 {
                ids::law_words_are_digits(other@);
                if ids::words_value(other@) == ids::words_value(words) {
                    ids::law_ids_tell_arrays_apart(other@, words);
                }
            }
        }
        assert forall|j: int| i < j < shorter.len() implies ((
        #[trigger] shorter[j]).uuid matches Some(other) ==> other@ != words) by {
            assert(shorter[j] == items[j]);
        }
        lemma_last_is_indexed(shorter, i, words);
    }
}

/// What is found under an id is an entity whose `UUID` stands for it.
pub proof fn law_indexed_entity_has_its_id<N>(items: Seq<CompoundTag<N>>, id: u128) -> (i: int)
    requires
        identified(items).contains_key(id),
    ensures
        0 <= i < items.len(),
        entity_id(items[i]) == Some(id),
        identified(items)[id] == items[i].nbt,
    decreases items.len(),
{
    if entity_id(items.last()) == Some(id) {
        items.len() - 1
    } else {
        law_indexed_entity_has_its_id(items.drop_last(), id)
    }
}

/// A converted chunk stands where the file says, is complete and has to be saved,
/// and it has as many sections as in the file; its lowest layer is sixteen times
/// the lowest section.
pub proof fn law_converted_chunk<C: NbtCodec, R: Registry>(
    codec: &C,
    registry: &R,
    chunk: model::ChunkView,
    min_section_y: i32,
    data: ChunkData<C::Compound>,
)
    requires
        chunk_imported(codec, registry, chunk, min_section_y, data),
    ensures
        data.x == chunk.x,
        data.z == chunk.z,
        data.status == ChunkStatus::Full,
        data.dirty,
        data.section.count == chunk.sections.len(),
        data.section.block_sections@.len() == chunk.sections.len(),
        data.section.biome_sections@.len() == chunk.sections.len(),
        data.light_engine.block_light@.len() == chunk.sections.len(),
        data.light_engine.sky_light@.len() == chunk.sections.len(),
        i32::MIN <= min_section_y * 16 <= i32::MAX ==> data.section.min_y == min_section_y * 16,
{
    assert(-0x800_0000 <= min_section_y <= 0x7ff_ffff ==> min_section_y << 4 == min_section_y * 16)
        by (bit_vector);
}

/// Section `i` of a converted chunk has the light, the block states and the biomes
/// of section `i` of the file, block light with block light and sky light with sky
/// light. Only a light array of 2048 bytes is light; but any makes the chunk lit.
pub proof fn law_converted_section<C: NbtCodec, R: Registry>(
    codec: &C,
    registry: &R,
    chunk: model::ChunkView,
    min_section_y: i32,
    data: ChunkData<C::Compound>,
    i: int,
)
    requires
        chunk_imported(codec, registry, chunk, min_section_y, data),
        0 <= i < chunk.sections.len(),
    ensures
        chunk.sections[i].block_light matches Some(light) ==> (light.len() == 2048 ==> (
        data.light_engine.block_light@[i] matches LightContainer::Full(kept) && kept@ == light)),
        chunk.sections[i].sky_light matches Some(light) ==> (light.len() == 2048 ==> (
        data.light_engine.sky_light@[i] matches LightContainer::Full(kept) && kept@ == light)),
        !(chunk.sections[i].block_light matches Some(light) && light.len() == 2048)
            ==> data.light_engine.block_light@[i] == LightContainer::Empty(0),
        !(chunk.sections[i].sky_light matches Some(light) && light.len() == 2048)
            ==> data.light_engine.sky_light@[i] == LightContainer::Empty(0),
        block_states_imported(
            codec,
            registry,
            chunk.sections[i].block_states,
            data.section.block_sections@[i],
        ),
        biomes_imported(
            codec,
            registry,
            chunk.sections[i].biomes,
            data.section.biome_sections@[i],
        ),
        chunk.sections[i].block_light is Some || chunk.sections[i].sky_light is Some
            ==> data.light_populated,
{
    assert(light_imported(chunk.sections[i].block_light, data.light_engine.block_light@[i]));
    assert(is_lit(chunk.sections[i]) ==> any_lit(chunk.sections));
}

/// A converted chunk counts as lit only where some section came with light.
pub proof fn law_dark_chunk_is_not_lit<C: NbtCodec, R: Registry>(
    codec: &C,
    registry: &R,
    chunk: model::ChunkView,
    min_section_y: i32,
    data: ChunkData<C::Compound>,
)
    requires
        chunk_imported(codec, registry, chunk, min_section_y, data),
        forall|i: int|
            0 <= i < chunk.sections.len() ==> (#[trigger] chunk.sections[i]).block_light is None
                && chunk.sections[i].sky_light is None,
    ensures
        !data.light_populated,
{
}

/// The height maps of a converted chunk are those of the file, and none where the
/// file has none; its block entities are those of the file, by their place.
pub proof fn law_converted_maps_and_block_entities<C: NbtCodec, R: Registry>(
    codec: &C,
    registry: &R,
    chunk: model::ChunkView,
    min_section_y: i32,
    data: ChunkData<C::Compound>,
    maps: ChunkHeightmaps,
    items: Vec<CompoundTag<C::Compound>>,
)
    requires
        chunk_imported(codec, registry, chunk, min_section_y, data),
        forall|r: Option<ChunkHeightmaps>| #[trigger]
            services::reads_height_maps(codec, chunk.height_maps, r) ==> r == Some(maps),
        forall|r: Option<Vec<CompoundTag<C::Compound>>>| #[trigger]
            services::reads_compounds(codec, chunk.block_entities, r) ==> r == Some(items),
    ensures
        chunk.height_maps.len() > 0 ==> data.heightmap == maps,
        chunk.height_maps.len() == 0 ==> {
            &&& data.heightmap.world_surface is None
            &&& data.heightmap.motion_blocking is None
            &&& data.heightmap.motion_blocking_no_leaves is None
        },
        chunk.block_entities.len() > 0 ==> data.pending_block_entities@ == placed(items@),
        chunk.block_entities.len() == 0 ==> data.pending_block_entities@ == Map::<
            (i32, i32, i32),
            C::Compound,
        >::empty(),
{
    let found = choose|found: Vec<CompoundTag<C::Compound>>| #[trigger]
        compounds_imported(codec, chunk.block_entities, found) && data.pending_block_entities@
            == placed(found@);
    assert(compounds_imported(codec, chunk.block_entities, found));
}

/// A chunk is refused only if the codec refuses one of its segments, and then as
/// corrupt for that reason.
pub proof fn law_refused_for_a_segment<C: NbtCodec>(
    codec: &C,
    chunk: model::ChunkView,
    error: SlimeError,
)
    requires
        chunk_rejected(codec, chunk),
        error@ == invalid_segment(),
    ensures
        error matches SlimeError::Corrupt(what) && what@ == "invalid nbt segment"@,
        (exists|i: int|
            0 <= i < chunk.sections.len() && (#[trigger] chunk.sections[i]).block_states.len() > 0
                && services::reads_block_states(codec, chunk.sections[i].block_states, None)) || (
        exists|i: int|
            0 <= i < chunk.sections.len() && (#[trigger] chunk.sections[i]).biomes.len() > 0
                && services::reads_biomes(codec, chunk.sections[i].biomes, None)) || (
        chunk.height_maps.len() > 0 && services::reads_height_maps(codec, chunk.height_maps, None))
            || (chunk.block_entities.len() > 0 && services::reads_compounds(
            codec,
            chunk.block_entities,
            None,
        )) || (chunk.entities.len() > 0 && services::reads_compounds(codec, chunk.entities, None))
            || (chunk.block_ticks.len() > 0 && services::judges_compound(
            codec,
            chunk.block_ticks,
            false,
        )) || (chunk.fluid_ticks.len() > 0 && services::judges_compound(
            codec,
            chunk.fluid_ticks,
            false,
        )) || (chunk.poi.len() > 0 && services::judges_compound(codec, chunk.poi, false)),
{
    if exists|i: int|
        0 <= i < chunk.sections.len() && section_rejected(codec, #[trigger] chunk.sections[i]) {
        let i = choose|i: int|
            0 <= i < chunk.sections.len() && section_rejected(codec, #[trigger] chunk.sections[i]);
        assert(chunk.sections[i].block_states.len() > 0 || chunk.sections[i].biomes.len() > 0);
    }
}

/// A chunk is converted only if the codec takes every segment of it that is not
/// empty, those that nothing is taken from too.
pub proof fn law_converted_segments_are_in_order<C: NbtCodec, R: Registry>(
    codec: &C,
    registry: &R,
    chunk: model::ChunkView,
    min_section_y: i32,
    data: ChunkData<C::Compound>,
    i: int,
)
    requires
        chunk_imported(codec, registry, chunk, min_section_y, data),
    ensures
        0 <= i < chunk.sections.len() && chunk.sections[i].block_states.len() > 0
            ==> exists|r: VanillaBlockStates| #[trigger]
            services::reads_block_states(codec, chunk.sections[i].block_states, Some(r)),
        0 <= i < chunk.sections.len() && chunk.sections[i].biomes.len() > 0
            ==> exists|r: VanillaBiomes| #[trigger]
            services::reads_biomes(codec, chunk.sections[i].biomes, Some(r)),
        chunk.height_maps.len() > 0 ==> exists|r: ChunkHeightmaps| #[trigger]
            services::reads_height_maps(codec, chunk.height_maps, Some(r)),
        chunk.block_entities.len() > 0 ==> exists|r: Vec<CompoundTag<C::Compound>>| #[trigger]
            services::reads_compounds(codec, chunk.block_entities, Some(r)),
        chunk.entities.len() > 0 ==> exists|r: Vec<CompoundTag<C::Compound>>| #[trigger]
            services::reads_compounds(codec, chunk.entities, Some(r)),
        chunk.block_ticks.len() > 0 ==> services::judges_compound(codec, chunk.block_ticks, true),
        chunk.fluid_ticks.len() > 0 ==> services::judges_compound(codec, chunk.fluid_ticks, true),
        chunk.poi.len() > 0 ==> services::judges_compound(codec, chunk.poi, true),
{
    if 0 <= i < chunk.sections.len() {
        assert(light_imported(chunk.sections[i].block_light, data.light_engine.block_light@[i]));
    }
}

/// The converted entities of a chunk stand where the file says and have to be
/// saved; they are those of the file, by their id, and none where the file has
/// none.
pub proof fn law_converted_entities<C: NbtCodec>(
    codec: &C,
    chunk: model::ChunkView,
    data: ChunkEntityData<C::Compound>,
    items: Vec<CompoundTag<C::Compound>>,
)
    requires
        entities_imported(codec, chunk, data),
        forall|r: Option<Vec<CompoundTag<C::Compound>>>| #[trigger]
            services::reads_compounds(codec, chunk.entities, r) ==> r == Some(items),
    ensures
        data.x == chunk.x,
        data.z == chunk.z,
        data.dirty,
        chunk.entities.len() > 0 ==> data.data@ == identified(items@),
        chunk.entities.len() == 0 ==> data.data@ == Map::<u128, C::Compound>::empty(),
{
    let found = choose|found: Vec<CompoundTag<C::Compound>>| #[trigger]
        compounds_imported(codec, chunk.entities, found) && data.data@ == identified(found@);
    assert(compounds_imported(codec, chunk.entities, found));
}

/// The lowest layer of a section is sixteen times its index, but for what does not
/// fit in 32 bits.
pub proof fn law_lowest_layer(section_y: i32)
    ensures
        (lowest_layer(section_y) - section_y * 16) % 0x1_0000_0000 == 0,
{
    assert(((section_y << 4) - section_y * 16) % 0x1_0000_0000 == 0) by (bit_vector);
}

} // verus!
