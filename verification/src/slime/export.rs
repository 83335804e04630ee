//! Turn the server's chunks back into the `.slime` format.
//!
//! This is the inverse of the converter: section block and biome palettes are
//! turned back into the vanilla string-paletted NBT, light is kept as raw nibble
//! arrays, and the whole is framed and compressed.

use super::buffer;
use super::chunk::{
    self, ChunkData, ChunkHeightmaps, ChunkLight, ChunkSectionBiomes, ChunkSectionBlockStates,
    ChunkSnapshot, LightContainer,
};
use super::error;
use super::layout;
use super::model::{self, SlimeChunk, SlimeSection};
use super::services::{NbtCodec, Registry, VanillaPaletteEntry};
use super::tables;
use super::writer::{self, EMPTY_COMPOUND};
use bytes::Bytes;
use rustc_hash::{FxHashMap, FxHashSet};
use std::collections::BTreeMap;
use vstd::prelude::*;

verus! {

/// Properties worth writing: none where the table is empty.
pub open spec fn some_properties(properties: Option<BTreeMap<String, String>>) -> Option<
    BTreeMap<String, String>,
> {
    match properties {
        Some(table) => if table@.is_empty() {
            None
        } else {
            Some(table)
        },
        None => None,
    }
}

/// `entry` is the palette entry of a state: the namespaced name of its block,
/// and its properties where it has any.
pub open spec fn entry_written<R: Registry>(
    registry: &R,
    state_id: u16,
    entry: VanillaPaletteEntry,
) -> bool {
    exists|name: String, properties: Option<BTreeMap<String, String>>| #[trigger]
        call_ensures(R::block_name, (registry, state_id), name) && #[trigger] call_ensures(
            R::block_properties,
            (registry, state_id),
            properties,
        ) && entry.name@ == "minecraft:"@ + name@ && entry.properties == some_properties(
            properties,
        )
}

/// `name` is the namespaced name of a biome: plains for an unknown id.
pub open spec fn biome_written<R: Registry>(registry: &R, biome_id: u8, name: Seq<char>) -> bool {
    exists|found: Option<String>| #[trigger]
        call_ensures(R::biome_name, (registry, biome_id), found) && match found {
            Some(key) => name == "minecraft:"@ + key@,
            None => name == "minecraft:plains"@,
        }
}

/// Resolve a global block-state id back to a vanilla palette entry.
pub fn state_id_to_entry<R: Registry>(state_id: u16, registry: &R) -> (entry: VanillaPaletteEntry)
    ensures
        entry_written(registry, state_id, entry),
{
    let block_name = registry.block_name(state_id);
    let properties = match registry.block_properties(state_id) {
        Some(table) => if table.is_empty() {
            None
        } else {
            Some(table)
        },
        None => None,
    };
    let mut name = String::from_str("minecraft:");
    name.append(block_name.as_str());
    VanillaPaletteEntry { name, properties }
}

/// Resolve a biome id back to its namespaced name.
pub fn biome_id_to_name<R: Registry>(biome_id: u8, registry: &R) -> (name: String)
    ensures
        biome_written(registry, biome_id, name@),
{
    match registry.biome_name(biome_id) {
        Some(key) => {
            let mut name = String::from_str("minecraft:");
            name.append(key.as_str());
            name
        },
        None => String::from_str("minecraft:plains"),
    }
}

/// `bytes` is the segment of a section's block states.
pub open spec fn block_states_written<C: NbtCodec, R: Registry>(
    codec: &C,
    registry: &R,
    section: ChunkSectionBlockStates,
    bytes: Seq<u8>,
) -> bool {
    exists|palette: Vec<VanillaPaletteEntry>, out: Vec<u8>|
        {
            &&& palette@.len() == section.palette@.len()
            &&& forall|i: int|
                0 <= i < palette@.len() ==> entry_written(
                    registry,
                    section.palette@[i],
                    #[trigger] palette@[i],
                )
            &&& #[trigger] call_ensures(
                C::encode_block_states,
                (codec, &palette, &section.data),
                out,
            )
            &&& bytes == out@
        }
}

fn block_states_nbt<C: NbtCodec, R: Registry>(
    section: &ChunkSectionBlockStates,
    codec: &C,
    registry: &R,
) -> (out: Vec<u8>)
    ensures
        block_states_written(codec, registry, *section, out@),
{
    let mut palette: Vec<VanillaPaletteEntry> = Vec::with_capacity(section.palette.len());
    let mut i: usize = 0;
    while i < section.palette.len()
        invariant
            i <= section.palette@.len(),
            palette@.len() == i,
            forall|j: int|
                0 <= j < i ==> entry_written(
                    registry,
                    section.palette@[j],
                    #[trigger] palette@[j],
                ),
        decreases section.palette.len() - i,
    {
        palette.push(state_id_to_entry(section.palette[i], registry));
        i = i + 1;
    }
    codec.encode_block_states(&palette, &section.data)
}

/// `bytes` is the segment of a section's biomes.
pub open spec fn biomes_written<C: NbtCodec, R: Registry>(
    codec: &C,
    registry: &R,
    section: ChunkSectionBiomes,
    bytes: Seq<u8>,
) -> bool {
    exists|palette: Vec<String>, out: Vec<u8>|
        {
            &&& palette@.len() == section.palette@.len()
            &&& forall|i: int|
                0 <= i < palette@.len() ==> biome_written(
                    registry,
                    section.palette@[i],
                    (#[trigger] palette@[i])@,
                )
            &&& #[trigger] call_ensures(C::encode_biomes, (codec, &palette, &section.data), out)
            &&& bytes == out@
        }
}

fn biomes_nbt<C: NbtCodec, R: Registry>(
    section: &ChunkSectionBiomes,
    codec: &C,
    registry: &R,
) -> (out: Vec<u8>)
    ensures
        biomes_written(codec, registry, *section, out@),
{
    let mut palette: Vec<String> = Vec::with_capacity(section.palette.len());
    let mut i: usize = 0;
    while i < section.palette.len()
        invariant
            i <= section.palette@.len(),
            palette@.len() == i,
            forall|j: int|
                0 <= j < i ==> biome_written(
                    registry,
                    section.palette@[j],
                    (#[trigger] palette@[j])@,
                ),
        decreases section.palette.len() - i,
    {
        palette.push(biome_id_to_name(section.palette[i], registry));
        i = i + 1;
    }
    codec.encode_biomes(&palette, &section.data)
}

/// The light array that is written: only that of a full container.
pub open spec fn light_written(light: Option<LightContainer>) -> Option<Seq<u8>> {
    match light {
        Some(LightContainer::Full(data)) => Some(data@),
        _ => None,
    }
}

/// The container at `index`, where the list is that long.
pub open spec fn light_at(lights: Seq<LightContainer>, index: int) -> Option<LightContainer> {
    if index < lights.len() {
        Some(lights[index])
    } else {
        None
    }
}

/// The light array of the container at `index`, where there is one.
pub fn light_bytes(lights: &Vec<LightContainer>, index: usize) -> (r: Option<Bytes>)
    ensures
        model::light_view(r) == light_written(light_at(lights@, index as int)),
{
    if index >= lights.len() {
        return None;
    }
    match &lights[index] {
        LightContainer::Full(data) => Some(
            buffer::from_vec(vstd::slice::slice_to_vec(data.as_slice())),
        ),
        LightContainer::Empty(_) => None,
    }
}

/// `view` is what section `index` of a chunk is written as.
pub open spec fn section_written<C: NbtCodec, R: Registry>(
    codec: &C,
    registry: &R,
    chunk: ChunkSnapshot<C::Compound>,
    index: int,
    view: model::SectionView,
) -> bool {
    &&& view.block_light == light_written(light_at(chunk.light.block_light@, index))
    &&& view.sky_light == light_written(light_at(chunk.light.sky_light@, index))
    &&& block_states_written(codec, registry, chunk.block_sections@[index], view.block_states)
    &&& biomes_written(codec, registry, chunk.biome_sections@[index], view.biomes)
}

fn encode_section<C: NbtCodec, R: Registry>(
    chunk: &ChunkSnapshot<C::Compound>,
    index: usize,
    codec: &C,
    registry: &R,
) -> (section: SlimeSection)
    requires
        index < chunk.block_sections@.len(),
        index < chunk.biome_sections@.len(),
    ensures
        section_written(codec, registry, *chunk, index as int, section@),
{
    SlimeSection {
        block_light: light_bytes(&chunk.light.block_light, index),
        sky_light: light_bytes(&chunk.light.sky_light, index),
        block_states: buffer::from_vec(
            block_states_nbt(&chunk.block_sections[index], codec, registry),
        ),
        biomes: buffer::from_vec(biomes_nbt(&chunk.biome_sections[index], codec, registry)),
    }
}

/// Whether a snapshot has biomes for every section.
pub open spec fn is_complete<N>(chunk: ChunkSnapshot<N>) -> bool {
    chunk.block_sections@.len() <= chunk.biome_sections@.len()
}

/// `bytes` is the segment of a chunk's block entities: all of them, in some
/// order.
pub open spec fn tile_entities_written<C: NbtCodec>(
    codec: &C,
    block_entities: Map<(i32, i32, i32), C::Compound>,
    bytes: Seq<u8>,
) -> bool {
    exists|keys: Seq<(i32, i32, i32)>, items: Vec<&C::Compound>, out: Vec<u8>|
        {
            &&& #[trigger] tables::walks(keys, block_entities)
            &&& items@.len() == keys.len()
            &&& forall|i: int|
                0 <= i < keys.len() ==> *(#[trigger] items@[i]) == block_entities[keys[i]]
            &&& #[trigger] call_ensures(C::encode_tile_entities, (codec, &items), out)
            &&& bytes == out@
        }
}

/// `bytes` is the segment of a chunk's entities, in the given order.
pub open spec fn entities_written<C: NbtCodec>(
    codec: &C,
    entities: Seq<C::Compound>,
    bytes: Seq<u8>,
) -> bool {
    exists|items: Vec<&C::Compound>, out: Vec<u8>|
        {
            &&& items@.len() == entities.len()
            &&& forall|i: int| 0 <= i < entities.len() ==> *(#[trigger] items@[i]) == entities[i]
            &&& #[trigger] call_ensures(C::encode_entities, (codec, &items), out)
            &&& bytes == out@
        }
}

/// `bytes` is the segment of a chunk's height maps.
pub open spec fn height_maps_written<C: NbtCodec>(
    codec: &C,
    chunk: ChunkSnapshot<C::Compound>,
    bytes: Seq<u8>,
) -> bool {
    exists|out: Vec<u8>| #[trigger]
        call_ensures(C::encode_height_maps, (codec, &chunk.heightmap), out) && bytes == out@
}

/// `view` holds what the blocks of a chunk are written as; a chunk of which only
/// the entities are known has no section, an empty height map compound and no
/// block entity.
pub open spec fn blocks_written<C: NbtCodec, R: Registry>(
    codec: &C,
    registry: &R,
    chunk: Option<ChunkSnapshot<C::Compound>>,
    view: model::ChunkView,
) -> bool {
    match chunk {
        Some(chunk) => {
            &&& view.sections.len() == chunk.block_sections@.len()
            &&& forall|i: int|
                0 <= i < view.sections.len() ==> section_written(
                    codec,
                    registry,
                    chunk,
                    i,
                    #[trigger] view.sections[i],
                )
            &&& height_maps_written(codec, chunk, view.height_maps)
            &&& tile_entities_written(codec, chunk.pending_block_entities@, view.block_entities)
        },
        None => {
            &&& view.sections.len() == 0
            &&& view.height_maps == EMPTY_COMPOUND@
            &&& tile_entities_written(codec, Map::empty(), view.block_entities)
        },
    }
}

/// `view` is what a chunk is written as.
pub open spec fn chunk_written<C: NbtCodec, R: Registry>(
    codec: &C,
    registry: &R,
    coord: (i32, i32),
    chunk: Option<ChunkSnapshot<C::Compound>>,
    entities: Seq<C::Compound>,
    view: model::ChunkView,
) -> bool {
    &&& view.x == coord.0
    &&& view.z == coord.1
    &&& blocks_written(codec, registry, chunk, view)
    &&& entities_written(codec, entities, view.entities)
    &&& view.block_ticks.len() == 0
    &&& view.fluid_ticks.len() == 0
    &&& view.poi.len() == 0
}

fn encode_sections<C: NbtCodec, R: Registry>(
    chunk: &ChunkSnapshot<C::Compound>,
    codec: &C,
    registry: &R,
) -> (sections: Vec<SlimeSection>)
    requires
        is_complete(*chunk),
    ensures
        sections@.len() == chunk.block_sections@.len(),
        forall|i: int|
            0 <= i < sections@.len() ==> section_written(
                codec,
                registry,
                *chunk,
                i,
                (#[trigger] sections@[i])@,
            ),
{
    let count: usize = chunk.block_sections.len();
    let mut sections: Vec<SlimeSection> = Vec::with_capacity(count);
    let mut index: usize = 0;
    while index < count
        invariant
            index <= count,
            count == chunk.block_sections@.len(),
            is_complete(*chunk),
            sections@.len() == index,
            forall|i: int|
                0 <= i < index ==> section_written(
                    codec,
                    registry,
                    *chunk,
                    i,
                    (#[trigger] sections@[i])@,
                ),
        decreases count - index,
    {
        sections.push(encode_section(chunk, index, codec, registry));
        index = index + 1;
    }
    sections
}

fn encode_tile_entities<C: NbtCodec>(
    block_entities: &FxHashMap<(i32, i32, i32), C::Compound>,
    codec: &C,
) -> (out: Vec<u8>)
    ensures
        tile_entities_written(codec, block_entities@, out@),
{
    let items: Vec<&C::Compound> = tables::values(block_entities);
    codec.encode_tile_entities(&items)
}

fn encode_entities<C: NbtCodec>(entities: Option<&Vec<C::Compound>>, codec: &C) -> (out: Vec<u8>)
    ensures
        entities_written(
            codec,
            match entities {
                Some(list) => list@,
                None => Seq::empty(),
            },
            out@,
        ),
{
    let mut items: Vec<&C::Compound> = Vec::new();
    if let Some(list) = entities {
        let mut i: usize = 0;
        while i < list.len()
            invariant
                i <= list@.len(),
                items@.len() == i,
                forall|j: int| 0 <= j < i ==> *(#[trigger] items@[j]) == list@[j],
            decreases list.len() - i,
        {
            items.push(&list[i]);
            i = i + 1;
        }
    }
    codec.encode_entities(&items)
}

/// Encode a chunk and its entities, either of which may be unknown.
pub fn encode_chunk<C: NbtCodec, R: Registry>(
    coord: (i32, i32),
    chunk: Option<&ChunkSnapshot<C::Compound>>,
    entities: Option<&Vec<C::Compound>>,
    codec: &C,
    registry: &R,
) -> (r: SlimeChunk)
    requires
        chunk matches Some(chunk) ==> is_complete(*chunk),
    ensures
        chunk_written(
            codec,
            registry,
            coord,
            match chunk {
                Some(chunk) => Some(*chunk),
                None => None,
            },
            match entities {
                Some(list) => list@,
                None => Seq::empty(),
            },
            r@,
        ),
{
    let (sections, height_maps, block_entities) = match chunk {
        Some(chunk) => (
            encode_sections(chunk, codec, registry),
            codec.encode_height_maps(&chunk.heightmap),
            encode_tile_entities(&chunk.pending_block_entities, codec),
        ),
        None => (
            Vec::new(),
            vstd::slice::slice_to_vec(EMPTY_COMPOUND.as_slice()),
            encode_tile_entities(&FxHashMap::default(), codec),
        ),
    };
    SlimeChunk {
        x: coord.0,
        z: coord.1,
        sections,
        height_maps: buffer::from_vec(height_maps),
        block_entities: buffer::from_vec(block_entities),
        entities: buffer::from_vec(encode_entities(entities, codec)),
        block_ticks: Bytes::new(),
        fluid_ticks: Bytes::new(),
        poi: Bytes::new(),
    }
}

/// `saved` is what the block states of a section are saved as: themselves, or
/// nothing but air where the section has the default palette.
pub open spec fn block_states_saved<R: Registry>(
    registry: &R,
    section: Option<ChunkSectionBlockStates>,
    saved: ChunkSectionBlockStates,
) -> bool {
    match section {
        Some(states) => chunk::same_data(saved.data, states.data) && saved.palette@
            == states.palette@,
        None => saved.data is None && saved.palette@.len() == 1 && call_ensures(
            R::air_state,
            (registry,),
            saved.palette@[0],
        ),
    }
}

/// `saved` is what the biomes of a section are saved as: themselves, or nothing
/// but plains where the section has the default palette.
pub open spec fn biomes_saved<R: Registry>(
    registry: &R,
    section: Option<ChunkSectionBiomes>,
    saved: ChunkSectionBiomes,
) -> bool {
    match section {
        Some(biomes) => chunk::same_data(saved.data, biomes.data) && saved.palette@
            == biomes.palette@,
        None => saved.data is None && saved.palette@.len() == 1 && call_ensures(
            R::plains,
            (registry,),
            saved.palette@[0],
        ),
    }
}

/// `saved` is the light `light`, container by container.
pub open spec fn light_saved(light: Seq<LightContainer>, saved: Seq<LightContainer>) -> bool {
    &&& saved.len() == light.len()
    &&& forall|i: int| 0 <= i < light.len() ==> chunk::same_light(#[trigger] saved[i], light[i])
}

/// `saved` is what a chunk is saved as.
pub open spec fn chunk_saved<N, R: Registry>(
    registry: &R,
    data: ChunkData<N>,
    saved: ChunkSnapshot<N>,
) -> bool {
    &&& saved.block_sections@.len() == data.section.block_sections@.len()
    &&& forall|i: int|
        0 <= i < saved.block_sections@.len() ==> block_states_saved(
            registry,
            data.section.block_sections@[i],
            #[trigger] saved.block_sections@[i],
        )
    &&& saved.biome_sections@.len() == data.section.biome_sections@.len()
    &&& forall|i: int|
        0 <= i < saved.biome_sections@.len() ==> biomes_saved(
            registry,
            data.section.biome_sections@[i],
            #[trigger] saved.biome_sections@[i],
        )
    &&& light_saved(data.light_engine.block_light@, saved.light.block_light@)
    &&& light_saved(data.light_engine.sky_light@, saved.light.sky_light@)
    &&& chunk::same_height_maps(saved.heightmap, data.heightmap)
    &&& saved.pending_block_entities@ == data.pending_block_entities@
}

/// `saved` holds a copy of every entity of a chunk, once.
pub open spec fn entities_saved<N: Clone>(entities: Map<u128, N>, saved: Seq<N>) -> bool {
    exists|ids: Seq<u128>| #[trigger]
        tables::walks(ids, entities) && saved.len() == ids.len() && forall|i: int|
            0 <= i < ids.len() ==> cloned::<N>(entities[ids[i]], #[trigger] saved[i])
}

fn copy_data(data: &Option<Vec<i64>>) -> (r: Option<Vec<i64>>)
    ensures
        chunk::same_data(r, *data),
{
    match data {
        Some(values) => {
            let copy = values.clone();
            assert(copy@ =~= values@);
            Some(copy)
        },
        None => None,
    }
}

fn copy_lights(lights: &Vec<LightContainer>) -> (r: Vec<LightContainer>)
    ensures
        light_saved(lights@, r@),
{
    let mut copies: Vec<LightContainer> = Vec::with_capacity(lights.len());
    let mut i: usize = 0;
    while i < lights.len()
        invariant
            i <= lights@.len(),
            copies@.len() == i,
            forall|j: int| 0 <= j < i ==> chunk::same_light(#[trigger] copies@[j], lights@[j]),
        decreases lights.len() - i,
    {
        copies.push(
            match &lights[i] {
                LightContainer::Full(data) => LightContainer::Full(
                    vstd::slice::slice_to_vec(data.as_slice()),
                ),
                LightContainer::Empty(level) => LightContainer::Empty(*level),
            },
        );
        i = i + 1;
    }
    copies
}

/// What a chunk holds at this moment, for saving. A section with the default
/// palette is all air, in plains.
pub fn snapshot<N: Clone, R: Registry>(data: &ChunkData<N>, registry: &R) -> (r: ChunkSnapshot<N>)
    ensures
        chunk_saved(registry, *data, r),
{
    let mut block_sections: Vec<ChunkSectionBlockStates> = Vec::new();
    let mut i: usize = 0;
    while i < data.section.block_sections.len()
        invariant
            i <= data.section.block_sections@.len(),
            block_sections@.len() == i,
            forall|j: int|
                0 <= j < i ==> block_states_saved(
                    registry,
                    data.section.block_sections@[j],
                    #[trigger] block_sections@[j],
                ),
        decreases data.section.block_sections.len() - i,
    {
        let section = match &data.section.block_sections[i] {
            Some(states) => {
                let palette = states.palette.clone();
                assert(palette@ =~= states.palette@);
                ChunkSectionBlockStates { data: copy_data(&states.data), palette }
            },
            None => {
                let mut palette: Vec<u16> = Vec::new();
                palette.push(registry.air_state());
                ChunkSectionBlockStates { data: None, palette }
            },
        };
        block_sections.push(section);
        i = i + 1;
    }
    let mut biome_sections: Vec<ChunkSectionBiomes> = Vec::new();
    let mut k: usize = 0;
    while k < data.section.biome_sections.len()
        invariant
            k <= data.section.biome_sections@.len(),
            biome_sections@.len() == k,
            forall|j: int|
                0 <= j < k ==> biomes_saved(
                    registry,
                    data.section.biome_sections@[j],
                    #[trigger] biome_sections@[j],
                ),
        decreases data.section.biome_sections.len() - k,
    {
        let section = match &data.section.biome_sections[k] {
            Some(biomes) => {
                let palette = biomes.palette.clone();
                assert(palette@ =~= biomes.palette@);
                ChunkSectionBiomes { data: copy_data(&biomes.data), palette }
            },
            None => {
                let mut palette: Vec<u8> = Vec::new();
                palette.push(registry.plains());
                ChunkSectionBiomes { data: None, palette }
            },
        };
        biome_sections.push(section);
        k = k + 1;
    }
    ChunkSnapshot {
        block_sections,
        biome_sections,
        light: ChunkLight {
            block_light: copy_lights(&data.light_engine.block_light),
            sky_light: copy_lights(&data.light_engine.sky_light),
        },
        heightmap: ChunkHeightmaps {
            world_surface: copy_data(&data.heightmap.world_surface),
            motion_blocking: copy_data(&data.heightmap.motion_blocking),
            motion_blocking_no_leaves: copy_data(&data.heightmap.motion_blocking_no_leaves),
        },
        pending_block_entities: data.pending_block_entities.clone(),
    }
}

/// The entities of a chunk at this moment, for saving: a copy of each, in the order
/// in which the table is walked.
pub fn entity_list<N: Clone>(data: &FxHashMap<u128, N>) -> (r: Vec<N>)
    ensures
        entities_saved(data@, r@),
{
    let values = tables::values(data);
    let ghost ids = choose|ids: Seq<u128>| #[trigger]
        tables::walks(ids, data@) && values@.len() == ids.len() && forall|i: int|
            0 <= i < ids.len() ==> *(#[trigger] values@[i]) == data@[ids[i]];
    let mut list: Vec<N> = Vec::with_capacity(values.len());
    let mut i: usize = 0;
    while i < values.len()
        invariant
            i <= values@.len(),
            values@.len() == ids.len(),
            forall|j: int| 0 <= j < ids.len() ==> *(#[trigger] values@[j]) == data@[ids[j]],
            list@.len() == i,
            forall|j: int| 0 <= j < i ==> cloned::<N>(data@[ids[j]], #[trigger] list@[j]),
        decreases values.len() - i,
    {
        list.push(values[i].clone());
        i = i + 1;
    }
    list
}

/// The snapshot of a chunk, where its blocks are known.
pub open spec fn snapshot_at<N>(
    chunks: Map<(i32, i32), ChunkSnapshot<N>>,
    coord: (i32, i32),
) -> Option<ChunkSnapshot<N>> {
    if chunks.contains_key(coord) {
        Some(chunks[coord])
    } else {
        None
    }
}

/// The entities of a chunk; none where they are not known.
pub open spec fn entities_at<N>(entities: Map<(i32, i32), Vec<N>>, coord: (i32, i32)) -> Seq<N> {
    if entities.contains_key(coord) {
        entities[coord]@
    } else {
        Seq::empty()
    }
}

/// `written` is what the chunks of a world are written as, in the order
/// `coords`: each chunk of which the blocks or the entities are known, once.
pub open spec fn world_written<C: NbtCodec, R: Registry>(
    codec: &C,
    registry: &R,
    chunks: Map<(i32, i32), ChunkSnapshot<C::Compound>>,
    entities: Map<(i32, i32), Vec<C::Compound>>,
    coords: Seq<(i32, i32)>,
    written: Seq<model::ChunkView>,
) -> bool {
    &&& coords.no_duplicates()
    &&& forall|coord: (i32, i32)| #[trigger]
        coords.contains(coord) <==> chunks.contains_key(coord) || entities.contains_key(coord)
    &&& written.len() == coords.len()
    &&& forall|i: int|
        0 <= i < written.len() ==> chunk_written(
            codec,
            registry,
            coords[i],
            snapshot_at(chunks, coords[i]),
            entities_at(entities, coords[i]),
            #[trigger] written[i],
        )
}

/// The coordinates that either table knows, each once.
fn known_coords<A, B>(
    chunks: &FxHashMap<(i32, i32), A>,
    entities: &FxHashMap<(i32, i32), B>,
) -> (r: Vec<(i32, i32)>)
    ensures
        r@.no_duplicates(),
        forall|coord: (i32, i32)| #[trigger]
            r@.contains(coord) <==> chunks@.contains_key(coord) || entities@.contains_key(coord),
{
    let mut coords: FxHashSet<(i32, i32)> = FxHashSet::default();
    let first = tables::keys(chunks);
    let second = tables::keys(entities);
    let mut i: usize = 0;
    while i < first.len()
        invariant
            i <= first@.len(),
            forall|k: (i32, i32)| #[trigger]
                coords@.contains(k) <==> first@.take(i as int).contains(k),
        decreases first.len() - i,
    {
        proof {
            lemma_take_contains(first@, i as int);
        }
        tables::set_insert(&mut coords, first[i]);
        i = i + 1;
    }
    assert(first@.take(i as int) =~= first@);
    let ghost known = coords@;
    let mut j: usize = 0;
    while j < second.len()
        invariant
            j <= second@.len(),
            forall|k: (i32, i32)| #[trigger]
                coords@.contains(k) <==> known.contains(k) || second@.take(j as int).contains(k),
        decreases second.len() - j,
    {
        proof {
            lemma_take_contains(second@, j as int);
        }
        tables::set_insert(&mut coords, second[j]);
        j = j + 1;
    }
    assert(second@.take(j as int) =~= second@);
    tables::set_items(&coords)
}

proof fn lemma_take_contains(s: Seq<(i32, i32)>, i: int)
    requires
        0 <= i < s.len(),
    ensures
        forall|k: (i32, i32)| #[trigger]
            s.take(i + 1).contains(k) <==> s.take(i).contains(k) || k == s[i],
{
    let longer = s.take(i + 1);
    assert forall|k: (i32, i32)| #[trigger] longer.contains(k) <==> s.take(i).contains(k) || k
        == s[i] by {
        assert(longer[i] == s[i]);
        if longer.contains(k) {
            let j = longer.index_of(k);
            if j < i {
                assert(s.take(i)[j] == k);
            }
        }
        if s.take(i).contains(k) {
            let j = s.take(i).index_of(k);
            assert(longer[j] == k);
        }
    }
}

/// Serialize a whole world to the `.slime` byte format.
///
/// `extra` is the (decompressed) world "extra" compound; when empty an empty
/// compound is written so the file stays valid. With compressed payloads and
/// segments whose lengths can be expressed, and light arrays of the full length,
/// the file reads back as the version, the chunks and the "extra" that were
/// written.
pub fn serialize_world<C: NbtCodec, R: Registry>(
    world_version: i32,
    extra: &[u8],
    chunks: &FxHashMap<(i32, i32), ChunkSnapshot<C::Compound>>,
    entities: &FxHashMap<(i32, i32), Vec<C::Compound>>,
    codec: &C,
    registry: &R,
) -> (file: Vec<u8>)
    requires
        forall|coord: (i32, i32)| #[trigger]
            chunks@.contains_key(coord) ==> is_complete(chunks@[coord]),
    ensures
        exists|coords: Seq<(i32, i32)>, written: Seq<model::ChunkView>|
            {
                &&& #[trigger] world_written(
                    codec,
                    registry,
                    chunks@,
                    entities@,
                    coords,
                    written,
                )
                &&& file@ == writer::world_file(world_version, written, extra@)
                &&& writer::world_fits(written, extra@)
                    ==> layout::parse_world(file@) == Ok::<model::WorldView, error::SlimeFailure>(
                    (model::WorldView {
                        world_version,
                        flags: 0,
                        chunks: written,
                        extra: writer::extra_written(extra@),
                    }),
                )
            },
{
    let coords = known_coords(chunks, entities);
    let mut encoded: Vec<SlimeChunk> = Vec::with_capacity(coords.len());
    let mut i: usize = 0;
    while i < coords.len()
        invariant
            i <= coords@.len(),
            forall|coord: (i32, i32)| #[trigger]
                chunks@.contains_key(coord) ==> is_complete(chunks@[coord]),
            encoded@.len() == i,
            forall|j: int|
                0 <= j < i ==> chunk_written(
                    codec,
                    registry,
                    coords@[j],
                    snapshot_at(chunks@, coords@[j]),
                    entities_at(entities@, coords@[j]),
                    (#[trigger] encoded@[j])@,
                ),
        decreases coords.len() - i,
    {
        let coord = coords[i];
        encoded.push(
            encode_chunk(
                coord,
                tables::get(chunks, &coord),
                tables::get(entities, &coord),
                codec,
                registry,
            ),
        );
        i = i + 1;
    }
    let file = writer::frame_world(world_version, extra, &encoded);
    proof {
        let written = model::chunks_view(encoded@);
        assert forall|j: int| 0 <= j < written.len() implies chunk_written(
            codec,
            registry,
            coords@[j],
            snapshot_at(chunks@, coords@[j]),
            entities_at(entities@, coords@[j]),
            #[trigger] written[j],
        ) by {
            assert(written[j] == encoded@[j]@);
        }
        assert(world_written(codec, registry, chunks@, entities@, coords@, written));
    }
    file
}

/// The entry of a state is its block's name behind `minecraft:` and the properties
/// that the registry gives the state, all of them; only an empty table is left out.
pub proof fn law_entry_carries_the_properties<R: Registry>(
    registry: &R,
    id: u16,
    name: Seq<char>,
    properties: Option<BTreeMap<String, String>>,
    entry: VanillaPaletteEntry,
)
    requires
        forall|given: String| #[trigger]
            call_ensures(R::block_name, (registry, id), given) ==> given@ == name,
        forall|given: Option<BTreeMap<String, String>>| #[trigger]
            call_ensures(R::block_properties, (registry, id), given) ==> given == properties,
        entry_written(registry, id, entry),
    ensures
        entry.name@ == "minecraft:"@ + name,
        properties matches Some(table) ==> (table@.dom() != Set::<String>::empty()
            ==> entry.properties == properties),
        properties matches Some(table) ==> (table@.dom() == Set::<String>::empty()
            ==> entry.properties is None),
        properties is None ==> entry.properties is None,
{
    if let Some(table) = properties {
        if table@.dom() == Set::<String>::empty() {
            assert(table@ =~= Map::empty());
        }
    }
}

/// A biome is written as the registry's name for it behind `minecraft:`, and as
/// plains where the registry has none.
pub proof fn law_biome_carries_its_name<R: Registry>(
    registry: &R,
    id: u8,
    answer: Option<Seq<char>>,
    name: Seq<char>,
)
    requires
        forall|given: Option<String>| #[trigger]
            call_ensures(R::biome_name, (registry, id), given) ==> match given {
                Some(key) => answer == Some(key@),
                None => answer is None,
            },
        biome_written(registry, id, name),
    ensures
        answer matches Some(key) ==> name == "minecraft:"@ + key,
        answer is None ==> name == "minecraft:plains"@,
{
}

/// A full light container is written byte for byte, and nothing else is.
pub proof fn law_light_is_written(lights: Seq<LightContainer>, index: int)
    requires
        0 <= index,
    ensures
        index < lights.len() ==> match lights[index] {
            LightContainer::Full(data) => light_written(light_at(lights, index)) == Some(data@),
            LightContainer::Empty(_) => light_written(light_at(lights, index)) is None,
        },
        index >= lights.len() ==> light_written(light_at(lights, index)) is None,
{
}

/// Section `i` of a chunk is written with its own block light, sky light, block
/// states and biomes.
pub proof fn law_section_of_a_chunk<C: NbtCodec, R: Registry>(
    codec: &C,
    registry: &R,
    coord: (i32, i32),
    chunk: ChunkSnapshot<C::Compound>,
    entities: Seq<C::Compound>,
    view: model::ChunkView,
    i: int,
)
    requires
        chunk_written(codec, registry, coord, Some(chunk), entities, view),
        0 <= i < chunk.block_sections@.len(),
    ensures
        view.sections.len() == chunk.block_sections@.len(),
        view.sections[i].block_light == if i < chunk.light.block_light@.len() {
            match chunk.light.block_light@[i] {
                LightContainer::Full(data) => Some(data@),
                LightContainer::Empty(_) => None,
            }
        } else {
            None
        },
        view.sections[i].sky_light == if i < chunk.light.sky_light@.len() {
            match chunk.light.sky_light@[i] {
                LightContainer::Full(data) => Some(data@),
                LightContainer::Empty(_) => None,
            }
        } else {
            None
        },
        block_states_written(
            codec,
            registry,
            chunk.block_sections@[i],
            view.sections[i].block_states,
        ),
        biomes_written(codec, registry, chunk.biome_sections@[i], view.sections[i].biomes),
{
    assert(section_written(codec, registry, chunk, i, view.sections[i]));
}

/// The block states of a section are what the codec makes of its data and of the
/// entries of its palette, in the order of the palette.
pub proof fn law_block_states_of_a_section<C: NbtCodec, R: Registry>(
    codec: &C,
    registry: &R,
    section: ChunkSectionBlockStates,
    bytes: Seq<u8>,
) -> (r: (Vec<VanillaPaletteEntry>, Vec<u8>))
    requires
        block_states_written(codec, registry, section, bytes),
    ensures
        bytes == r.1@,
        call_ensures(C::encode_block_states, (codec, &r.0, &section.data), r.1),
        r.0@.len() == section.palette@.len(),
        forall|i: int|
            0 <= i < section.palette@.len() ==> entry_written(
                registry,
                section.palette@[i],
                #[trigger] r.0@[i],
            ),
{
    choose|palette: Vec<VanillaPaletteEntry>, out: Vec<u8>|
        {
            &&& palette@.len() == section.palette@.len()
            &&& forall|i: int|
                0 <= i < palette@.len() ==> entry_written(
                    registry,
                    section.palette@[i],
                    #[trigger] palette@[i],
                )
            &&& #[trigger] call_ensures(
                C::encode_block_states,
                (codec, &palette, &section.data),
                out,
            )
            &&& bytes == out@
        }
}

/// The biomes of a section are what the codec makes of its data and of the names
/// of its palette, in the order of the palette.
pub proof fn law_biomes_of_a_section<C: NbtCodec, R: Registry>(
    codec: &C,
    registry: &R,
    section: ChunkSectionBiomes,
    bytes: Seq<u8>,
) -> (r: (Vec<String>, Vec<u8>))
    requires
        biomes_written(codec, registry, section, bytes),
    ensures
        bytes == r.1@,
        call_ensures(C::encode_biomes, (codec, &r.0, &section.data), r.1),
        r.0@.len() == section.palette@.len(),
        forall|i: int|
            0 <= i < section.palette@.len() ==> biome_written(
                registry,
                section.palette@[i],
                (#[trigger] r.0@[i])@,
            ),
{
    choose|palette: Vec<String>, out: Vec<u8>|
        {
            &&& palette@.len() == section.palette@.len()
            &&& forall|i: int|
                0 <= i < palette@.len() ==> biome_written(
                    registry,
                    section.palette@[i],
                    (#[trigger] palette@[i])@,
                )
            &&& #[trigger] call_ensures(C::encode_biomes, (codec, &palette, &section.data), out)
            &&& bytes == out@
        }
}

/// The block entities of a chunk are what the codec makes of all of them, each
/// once.
pub proof fn law_block_entities_of_a_chunk<C: NbtCodec>(
    codec: &C,
    block_entities: Map<(i32, i32, i32), C::Compound>,
    bytes: Seq<u8>,
) -> (r: (Seq<(i32, i32, i32)>, Vec<&C::Compound>, Vec<u8>))
    requires
        tile_entities_written(codec, block_entities, bytes),
    ensures
        bytes == r.2@,
        call_ensures(C::encode_tile_entities, (codec, &r.1), r.2),
        r.0.no_duplicates(),
        r.0.to_set() == block_entities.dom(),
        r.1@.len() == r.0.len(),
        forall|i: int| 0 <= i < r.0.len() ==> *(#[trigger] r.1@[i]) == block_entities[r.0[i]],
{
    let r = choose|keys: Seq<(i32, i32, i32)>, items: Vec<&C::Compound>, out: Vec<u8>|
        {
            &&& #[trigger] tables::walks(keys, block_entities)
            &&& items@.len() == keys.len()
            &&& forall|i: int|
                0 <= i < keys.len() ==> *(#[trigger] items@[i]) == block_entities[keys[i]]
            &&& #[trigger] call_ensures(C::encode_tile_entities, (codec, &items), out)
            &&& bytes == out@
        };
    assert forall|key: (i32, i32, i32)|
        #[trigger] r.0.to_set().contains(key) == block_entities.dom().contains(key) by {
        assert(r.0.contains(key) <==> block_entities.contains_key(key));
    }
    assert(r.0.to_set() =~= block_entities.dom());
    r
}

/// A chunk is written at its coordinates, with its height maps, its block entities
/// and its entities in their order, and with neither ticks nor POI. One of which
/// only the entities are known has no section, an empty height map compound and no
/// block entity.
pub proof fn law_rest_of_a_chunk<'a, C: NbtCodec, R: Registry>(
    codec: &'a C,
    registry: &R,
    coord: (i32, i32),
    chunk: Option<ChunkSnapshot<C::Compound>>,
    entities: Seq<C::Compound>,
    view: model::ChunkView,
) -> (r: (Vec<&'a C::Compound>, Vec<u8>))
    requires
        chunk_written(codec, registry, coord, chunk, entities, view),
    ensures
        view.x == coord.0,
        view.z == coord.1,
        view.block_ticks.len() == 0,
        view.fluid_ticks.len() == 0,
        view.poi.len() == 0,
        view.entities == r.1@,
        call_ensures(C::encode_entities, (codec, &r.0), r.1),
        r.0@.len() == entities.len(),
        forall|i: int| 0 <= i < entities.len() ==> *(#[trigger] r.0@[i]) == entities[i],
        chunk matches Some(known) ==> {
            &&& exists|out: Vec<u8>| #[trigger]
                call_ensures(C::encode_height_maps, (codec, &known.heightmap), out)
                    && view.height_maps == out@
            &&& tile_entities_written(codec, known.pending_block_entities@, view.block_entities)
        },
        chunk is None ==> {
            &&& view.sections.len() == 0
            &&& view.height_maps == seq![0x0au8, 0, 0, 0]
            &&& tile_entities_written(
                codec,
                Map::<(i32, i32, i32), C::Compound>::empty(),
                view.block_entities,
            )
        },
{
    assert(EMPTY_COMPOUND@ =~= seq![0x0au8, 0, 0, 0]);
    choose|items: Vec<&C::Compound>, out: Vec<u8>|
        {
            &&& items@.len() == entities.len()
            &&& forall|i: int| 0 <= i < entities.len() ==> *(#[trigger] items@[i]) == entities[i]
            &&& #[trigger] call_ensures(C::encode_entities, (codec, &items), out)
            &&& view.entities == out@
        }
}

/// A section is saved with its data and its palette; one with the default palette
/// as nothing but air, in plains.
pub proof fn law_sections_are_saved<N, R: Registry>(
    registry: &R,
    data: ChunkData<N>,
    saved: ChunkSnapshot<N>,
    i: int,
)
    requires
        chunk_saved(registry, data, saved),
    ensures
        saved.block_sections@.len() == data.section.block_sections@.len(),
        saved.biome_sections@.len() == data.section.biome_sections@.len(),
        0 <= i < data.section.block_sections@.len() ==> {
            let after = saved.block_sections@[i];
            match data.section.block_sections@[i] {
                Some(before) => after.palette@ == before.palette@ && match before.data {
                    Some(packed) => after.data matches Some(kept) && kept@ == packed@,
                    None => after.data is None,
                },
                None => after.data is None && after.palette@.len() == 1 && call_ensures(
                    R::air_state,
                    (registry,),
                    after.palette@[0],
                ),
            }
        },
        0 <= i < data.section.biome_sections@.len() ==> {
            let after = saved.biome_sections@[i];
            match data.section.biome_sections@[i] {
                Some(before) => after.palette@ == before.palette@ && match before.data {
                    Some(packed) => after.data matches Some(kept) && kept@ == packed@,
                    None => after.data is None,
                },
                None => after.data is None && after.palette@.len() == 1 && call_ensures(
                    R::plains,
                    (registry,),
                    after.palette@[0],
                ),
            }
        },
{
    if 0 <= i < data.section.block_sections@.len() {
        assert(block_states_saved(
            registry,
            data.section.block_sections@[i],
            saved.block_sections@[i],
        ));
    }
    if 0 <= i < data.section.biome_sections@.len() {
        assert(biomes_saved(
            registry,
            data.section.biome_sections@[i],
            saved.biome_sections@[i],
        ));
    }
}

/// A chunk is saved with its light, its height maps and its block entities.
pub proof fn law_light_maps_and_block_entities_are_saved<N, R: Registry>(
    registry: &R,
    data: ChunkData<N>,
    saved: ChunkSnapshot<N>,
    i: int,
)
    requires
        chunk_saved(registry, data, saved),
    ensures
        saved.light.block_light@.len() == data.light_engine.block_light@.len(),
        saved.light.sky_light@.len() == data.light_engine.sky_light@.len(),
        0 <= i < data.light_engine.block_light@.len() ==> match data.light_engine.block_light@[i] {
            LightContainer::Full(before) => {
                saved.light.block_light@[i] matches LightContainer::Full(after) && after@ == before@
            },
            LightContainer::Empty(level) => saved.light.block_light@[i] == LightContainer::Empty(
                level,
            ),
        },
        0 <= i < data.light_engine.sky_light@.len() ==> match data.light_engine.sky_light@[i] {
            LightContainer::Full(before) => {
                saved.light.sky_light@[i] matches LightContainer::Full(after) && after@ == before@
            },
            LightContainer::Empty(level) => saved.light.sky_light@[i] == LightContainer::Empty(
                level,
            ),
        },
        match data.heightmap.world_surface {
            Some(before) => saved.heightmap.world_surface matches Some(after) && after@ == before@,
            None => saved.heightmap.world_surface is None,
        },
        match data.heightmap.motion_blocking {
            Some(before) => saved.heightmap.motion_blocking matches Some(after) && after@
                == before@,
            None => saved.heightmap.motion_blocking is None,
        },
        match data.heightmap.motion_blocking_no_leaves {
            Some(before) => saved.heightmap.motion_blocking_no_leaves matches Some(after) && after@
                == before@,
            None => saved.heightmap.motion_blocking_no_leaves is None,
        },
        saved.pending_block_entities@ == data.pending_block_entities@,
{
    if 0 <= i < data.light_engine.block_light@.len() {
        assert(chunk::same_light(
            saved.light.block_light@[i],
            data.light_engine.block_light@[i],
        ));
    }
    if 0 <= i < data.light_engine.sky_light@.len() {
        assert(chunk::same_light(saved.light.sky_light@[i], data.light_engine.sky_light@[i]));
    }
}

/// A list of saved entities has a copy of each entity, and as many as there are.
pub proof fn law_entities_are_saved<N: Clone>(
    entities: Map<u128, N>,
    saved: Seq<N>,
) -> (ids: Seq<u128>)
    requires
        entities_saved(entities, saved),
    ensures
        ids.no_duplicates(),
        ids.to_set() == entities.dom(),
        saved.len() == ids.len(),
        forall|i: int| 0 <= i < ids.len() ==> cloned::<N>(entities[ids[i]], #[trigger] saved[i]),
{
    let ids = choose|ids: Seq<u128>| #[trigger]
        tables::walks(ids, entities) && saved.len() == ids.len() && forall|i: int|
            0 <= i < ids.len() ==> cloned::<N>(entities[ids[i]], #[trigger] saved[i]);
    assert forall|id: u128| #[trigger] ids.to_set().contains(id) == entities.dom().contains(
        id,
    ) by {
        assert(ids.contains(id) <==> entities.contains_key(id));
    }
    assert(ids.to_set() =~= entities.dom());
    ids
}

/// Each chunk of which the blocks or the entities are known is written, once, with
/// the blocks and the entities that are known of it, and no other chunk is.
pub proof fn law_every_chunk_is_written<C: NbtCodec, R: Registry>(
    codec: &C,
    registry: &R,
    chunks: Map<(i32, i32), ChunkSnapshot<C::Compound>>,
    entities: Map<(i32, i32), Vec<C::Compound>>,
    coords: Seq<(i32, i32)>,
    written: Seq<model::ChunkView>,
)
    requires
        world_written(codec, registry, chunks, entities, coords, written),
    ensures
        written.len() == coords.len(),
        coords.no_duplicates(),
        coords.to_set() == chunks.dom().union(entities.dom()),
        forall|i: int|
            0 <= i < written.len() ==> chunk_written(
                codec,
                registry,
                coords[i],
                if chunks.dom().contains(coords[i]) {
                    Some(chunks[coords[i]])
                } else {
                    None
                },
                if entities.dom().contains(coords[i]) {
                    entities[coords[i]]@
                } else {
                    Seq::empty()
                },
                #[trigger] written[i],
            ),
{
    assert forall|coord: (i32, i32)| #[trigger]
        coords.to_set().contains(coord) == chunks.dom().union(entities.dom()).contains(coord) by {
        assert(coords.contains(coord) <==> chunks.contains_key(coord) || entities.contains_key(
            coord,
        ));
    }
    assert(coords.to_set() =~= chunks.dom().union(entities.dom()));
}

/// A snapshot can be written if it has at least as many sections of biomes as of
/// block states.
pub proof fn law_complete_snapshot<N>(chunk: ChunkSnapshot<N>)
    ensures
        is_complete(chunk) <==> chunk.block_sections@.len() <= chunk.biome_sections@.len(),
{
}

} // verus!
