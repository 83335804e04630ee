//! What a chunk that was saved is loaded as, for a server whose codec reads what
//! it wrote and whose registry knows the names it gave.

use super::chunk::{
    self, ChunkData, ChunkEntityData, ChunkHeightmaps, ChunkSectionBiomes, ChunkSectionBlockStates,
    ChunkSnapshot, CompoundTag, LightContainer,
};
use super::convert;
use super::export;
use super::model;
use super::services::{
    self, NbtCodec, Registry, VanillaBiomes, VanillaBlockStates, VanillaPaletteEntry,
};
use super::store;
use super::writer::EMPTY_COMPOUND;
use super::LIGHT_ARRAY_SIZE;
use std::collections::BTreeMap;
use vstd::prelude::*;

verus! {

/// The same properties.
pub open spec fn same_properties(
    a: Option<BTreeMap<String, String>>,
    b: Option<BTreeMap<String, String>>,
) -> bool {
    match (a, b) {
        (Some(x), Some(y)) => x@ == y@,
        (None, None) => true,
        _ => false,
    }
}

/// The same palette entry.
pub open spec fn same_entry(a: VanillaPaletteEntry, b: VanillaPaletteEntry) -> bool {
    a.name@ == b.name@ && same_properties(a.properties, b.properties)
}

/// The codec decodes the block states that it encoded, and never to an empty
/// segment.
pub open spec fn keeps_block_states<C: NbtCodec>(codec: &C) -> bool {
    &&& forall|palette: Vec<VanillaPaletteEntry>, data: Option<Vec<i64>>, out: Vec<u8>| #[trigger]
        call_ensures(C::encode_block_states, (codec, &palette, &data), out) ==> out@.len() > 0
    &&& forall|
        palette: Vec<VanillaPaletteEntry>,
        data: Option<Vec<i64>>,
        out: Vec<u8>,
        r: Option<VanillaBlockStates>,
    |
        #[trigger] call_ensures(C::encode_block_states, (codec, &palette, &data), out)
            && #[trigger] services::reads_block_states(codec, out@, r) ==> {
            &&& r matches Some(states)
            &&& chunk::same_data(states.data, data)
            &&& states.palette@.len() == palette@.len()
            &&& forall|i: int|
                0 <= i < palette@.len() ==> same_entry(#[trigger] states.palette@[i], palette@[i])
        }
}

/// The codec decodes the biomes that it encoded, and never to an empty segment.
pub open spec fn keeps_biomes<C: NbtCodec>(codec: &C) -> bool {
    &&& forall|palette: Vec<String>, data: Option<Vec<i64>>, out: Vec<u8>| #[trigger]
        call_ensures(C::encode_biomes, (codec, &palette, &data), out) ==> out@.len() > 0
    &&& forall|
        palette: Vec<String>,
        data: Option<Vec<i64>>,
        out: Vec<u8>,
        r: Option<VanillaBiomes>,
    |
        #[trigger] call_ensures(C::encode_biomes, (codec, &palette, &data), out)
            && #[trigger] services::reads_biomes(codec, out@, r) ==> {
            &&& r matches Some(biomes)
            &&& chunk::same_data(biomes.data, data)
            &&& biomes.palette@.len() == palette@.len()
            &&& forall|i: int|
                0 <= i < palette@.len() ==> (#[trigger] biomes.palette@[i])@ == palette@[i]@
        }
}

/// The codec decodes the height maps that it encoded, never to an empty segment,
/// and it takes an empty compound for height maps.
pub open spec fn keeps_height_maps<C: NbtCodec>(codec: &C) -> bool {
    &&& forall|maps: ChunkHeightmaps, out: Vec<u8>| #[trigger]
        call_ensures(C::encode_height_maps, (codec, &maps), out) ==> out@.len() > 0
    &&& forall|maps: ChunkHeightmaps, out: Vec<u8>, r: Option<ChunkHeightmaps>|
        #[trigger] call_ensures(C::encode_height_maps, (codec, &maps), out)
            && #[trigger] services::reads_height_maps(codec, out@, r) ==> (r matches Some(read)
            && chunk::same_height_maps(read, maps))
    &&& forall|r: Option<ChunkHeightmaps>| #[trigger]
        services::reads_height_maps(codec, EMPTY_COMPOUND@, r) ==> r is Some
}

/// `tags` are these compounds, in this order.
pub open spec fn same_compounds<N>(tags: Seq<CompoundTag<N>>, items: Seq<&N>) -> bool {
    &&& tags.len() == items.len()
    &&& forall|i: int| 0 <= i < items.len() ==> (#[trigger] tags[i]).nbt == *items[i]
}

/// The codec decodes the lists of block entities that it encoded, never to an
/// empty segment.
pub open spec fn keeps_tile_entities<C: NbtCodec>(codec: &C) -> bool {
    &&& forall|items: Vec<&C::Compound>, out: Vec<u8>| #[trigger]
        call_ensures(C::encode_tile_entities, (codec, &items), out) ==> out@.len() > 0
    &&& forall|
        items: Vec<&C::Compound>,
        out: Vec<u8>,
        r: Option<Vec<CompoundTag<C::Compound>>>,
    |
        #[trigger] call_ensures(C::encode_tile_entities, (codec, &items), out)
            && #[trigger] services::reads_compounds(codec, out@, r) ==> (r matches Some(tags)
            && same_compounds(tags@, items@))
}

/// The codec decodes the lists of entities that it encoded, never to an empty
/// segment.
pub open spec fn keeps_entities<C: NbtCodec>(codec: &C) -> bool {
    &&& forall|items: Vec<&C::Compound>, out: Vec<u8>| #[trigger]
        call_ensures(C::encode_entities, (codec, &items), out) ==> out@.len() > 0
    &&& forall|
        items: Vec<&C::Compound>,
        out: Vec<u8>,
        r: Option<Vec<CompoundTag<C::Compound>>>,
    |
        #[trigger] call_ensures(C::encode_entities, (codec, &items), out)
            && #[trigger] services::reads_compounds(codec, out@, r) ==> (r matches Some(tags)
            && same_compounds(tags@, items@))
}

/// The codec reads what it wrote.
pub open spec fn keeps_all<C: NbtCodec>(codec: &C) -> bool {
    &&& keeps_block_states(codec)
    &&& keeps_biomes(codec)
    &&& keeps_height_maps(codec)
    &&& keeps_tile_entities(codec)
    &&& keeps_entities(codec)
}

/// The registry knows the state of the block `block` that has these properties as
/// `id`: it is the default state of a block without properties, and the state
/// with just these properties of another.
pub open spec fn knows_properties<R: Registry>(
    registry: &R,
    block: R::Block,
    properties: Option<BTreeMap<String, String>>,
    id: u16,
) -> bool {
    if properties matches Some(table) && table@.dom() != Set::<String>::empty() {
        forall|read: BTreeMap<String, String>, state: u16|
            read@ == properties->0@ && #[trigger] call_ensures(
                R::state_with,
                (registry, &block, &read),
                state,
            ) ==> state == id
    } else {
        forall|state: u16| #[trigger]
            call_ensures(R::default_state, (registry, &block), state) ==> state == id
    }
}

/// The registry finds each of these states again: its block under the name that
/// it gives the block, and the state by the properties that it gives the state.
pub open spec fn knows_states<R: Registry>(registry: &R, ids: Seq<u16>) -> bool {
    forall|
        id: u16,
        name: String,
        properties: Option<BTreeMap<String, String>>,
        found: Option<R::Block>,
    |
        ids.contains(id) && #[trigger] call_ensures(R::block_name, (registry, id), name)
            && #[trigger] call_ensures(R::block_properties, (registry, id), properties)
            && #[trigger] services::finds_block(registry, name@, found) ==> (found matches Some(
            block,
        ) && knows_properties(registry, block, properties, id))
}

/// The registry has a name for the biome.
pub open spec fn names_biome<R: Registry>(registry: &R, id: u8) -> bool {
    forall|found: Option<String>| #[trigger]
        call_ensures(R::biome_name, (registry, id), found) ==> found is Some
}

/// The registry has no name for the biome.
pub open spec fn lacks_biome<R: Registry>(registry: &R, id: u8) -> bool {
    forall|found: Option<String>| #[trigger]
        call_ensures(R::biome_name, (registry, id), found) ==> found is None
}

/// The registry finds each of these biomes again under the name that it gives the
/// biome, where it gives it one.
pub open spec fn knows_biomes<R: Registry>(registry: &R, ids: Seq<u8>) -> bool {
    forall|id: u8, name: String, found: Option<u8>|
        ids.contains(id) && #[trigger] call_ensures(R::biome_name, (registry, id), Some(name))
            && #[trigger] services::finds_biome(registry, name@, found) ==> found == Some(id)
}

/// `after` is what the biome `before` is loaded as: itself, or plains where the
/// registry has no name for it.
pub open spec fn biome_restored<R: Registry>(registry: &R, before: u8, after: u8) -> bool {
    &&& names_biome(registry, before) ==> after == before
    &&& lacks_biome(registry, before) ==> convert::resolves_biome(
        registry,
        "minecraft:plains"@,
        after,
    )
}

/// `after` is what the biomes `before` are loaded as.
pub open spec fn biomes_restored<R: Registry>(
    registry: &R,
    before: Seq<u8>,
    after: Seq<u8>,
) -> bool {
    &&& after.len() == before.len()
    &&& forall|i: int|
        0 <= i < before.len() ==> biome_restored(registry, before[i], #[trigger] after[i])
}

/// The registry knows every state and every biome of a chunk.
pub open spec fn knows_chunk<N, R: Registry>(registry: &R, chunk: ChunkSnapshot<N>) -> bool {
    &&& forall|i: int|
        0 <= i < chunk.block_sections@.len() ==> knows_states(
            registry,
            (#[trigger] chunk.block_sections@[i]).palette@,
        )
    &&& forall|i: int|
        0 <= i < chunk.biome_sections@.len() ==> knows_biomes(
            registry,
            (#[trigger] chunk.biome_sections@[i]).palette@,
        )
}

/// The codec reads a block entity's position and an entity's id off the
/// compound itself, as `at` and `id_of` say.
pub open spec fn reads_tags<C: NbtCodec>(
    codec: &C,
    at: spec_fn(C::Compound) -> Option<(i32, i32, i32)>,
    id_of: spec_fn(C::Compound) -> Option<u128>,
) -> bool {
    forall|bytes: Seq<u8>, tags: Vec<CompoundTag<C::Compound>>, i: int|
        #![trigger services::reads_compounds(codec, bytes, Some(tags)), tags@[i]]
        services::reads_compounds(codec, bytes, Some(tags)) && 0 <= i < tags@.len()
            ==> convert::position(tags@[i]) == at(tags@[i].nbt) && convert::entity_id(tags@[i])
            == id_of(tags@[i].nbt)
}

/// Every item of a table stands where it says: a block entity at its position, an
/// entity under its id.
pub open spec fn stands_where_it_says<K, N>(
    table: Map<K, N>,
    key_of: spec_fn(N) -> Option<K>,
) -> bool {
    forall|key: K| #[trigger] table.contains_key(key) ==> key_of(table[key]) == Some(key)
}

/// Items by their key: those that have one, the last of those that have the same
/// one.
pub open spec fn keyed<K, N>(items: Seq<N>, key_of: spec_fn(N) -> Option<K>) -> Map<K, N>
    decreases items.len(),
{
    if items.len() == 0 {
        Map::empty()
    } else {
        match key_of(items.last()) {
            Some(key) => keyed(items.drop_last(), key_of).insert(key, items.last()),
            None => keyed(items.drop_last(), key_of),
        }
    }
}

/// An item is found under its key, unless a later one has the same key.
pub proof fn law_keyed_is_found<K, N>(items: Seq<N>, key_of: spec_fn(N) -> Option<K>, i: int)
    requires
        0 <= i < items.len(),
        key_of(items[i]) is Some,
        forall|j: int| i < j < items.len() ==> key_of(#[trigger] items[j]) != key_of(items[i]),
    ensures
        keyed(items, key_of).contains_key(key_of(items[i])->0),
        keyed(items, key_of)[key_of(items[i])->0] == items[i],
    decreases items.len(),
{
    if i < items.len() - 1 {
        let shorter = items.drop_last();
        assert(key_of(items[items.len() - 1]) != key_of(items[i]));
        assert forall|j: int| i < j < shorter.len() implies key_of(#[trigger] shorter[j])
            != key_of(shorter[i]) by {
            assert(shorter[j] == items[j]);
        }
        law_keyed_is_found(shorter, key_of, i);
    }
}

/// What is found under a key is an item with that key.
pub proof fn law_keyed_holds_items<K, N>(items: Seq<N>, key_of: spec_fn(N) -> Option<K>, key: K)
    requires
        keyed(items, key_of).contains_key(key),
    ensures
        key_of(keyed(items, key_of)[key]) == Some(key),
        items.contains(keyed(items, key_of)[key]),
    decreases items.len(),
{
    if key_of(items.last()) == Some(key) {
        assert(items[items.len() - 1] == items.last());
    } else {
        law_keyed_holds_items(items.drop_last(), key_of, key);
        let value = keyed(items, key_of)[key];
        let i = items.drop_last().index_of(value);
        assert(items.drop_last()[i] == value);
        assert(items[i] == value);
    }
}

/// The compounds of some tags.
spec fn compounds<N>(tags: Seq<CompoundTag<N>>) -> Seq<N> {
    Seq::new(tags.len(), |i: int| tags[i].nbt)
}

proof fn lemma_placed_is_keyed<N>(
    tags: Seq<CompoundTag<N>>,
    at: spec_fn(N) -> Option<(i32, i32, i32)>,
)
    requires
        forall|i: int|
            0 <= i < tags.len() ==> convert::position(#[trigger] tags[i]) == at(tags[i].nbt),
    ensures
        convert::placed(tags) == keyed(compounds(tags), at),
    decreases tags.len(),
{
    if tags.len() > 0 {
        let shorter = tags.drop_last();
        assert(tags[tags.len() - 1] == tags.last());
        assert(compounds(tags).drop_last() =~= compounds(shorter));
        assert forall|i: int| 0 <= i < shorter.len() implies convert::position(
            #[trigger] shorter[i],
        ) == at(shorter[i].nbt) by {
            assert(shorter[i] == tags[i]);
        }
        lemma_placed_is_keyed(shorter, at);
    }
}

proof fn lemma_identified_is_keyed<N>(
    tags: Seq<CompoundTag<N>>,
    id_of: spec_fn(N) -> Option<u128>,
)
    requires
        forall|i: int|
            0 <= i < tags.len() ==> convert::entity_id(#[trigger] tags[i]) == id_of(tags[i].nbt),
    ensures
        convert::identified(tags) == keyed(compounds(tags), id_of),
    decreases tags.len(),
{
    if tags.len() > 0 {
        let shorter = tags.drop_last();
        assert(tags[tags.len() - 1] == tags.last());
        assert(compounds(tags).drop_last() =~= compounds(shorter));
        assert forall|i: int| 0 <= i < shorter.len() implies convert::entity_id(
            #[trigger] shorter[i],
        ) == id_of(shorter[i].nbt) by {
            assert(shorter[i] == tags[i]);
        }
        lemma_identified_is_keyed(shorter, id_of);
    }
}

/// A table whose values stand where they say is made of its values again.
proof fn lemma_walked_table<K, N>(
    table: Map<K, N>,
    keys: Seq<K>,
    items: Seq<N>,
    key_of: spec_fn(N) -> Option<K>,
)
    requires
        super::tables::walks(keys, table),
        items.len() == keys.len(),
        forall|i: int| 0 <= i < keys.len() ==> #[trigger] items[i] == table[keys[i]],
        stands_where_it_says(table, key_of),
    ensures
        keyed(items, key_of) == table,
{
    let built = keyed(items, key_of);
    assert forall|i: int| 0 <= i < items.len() implies key_of(#[trigger] items[i]) == Some(
        keys[i],
    ) by {
        assert(keys.contains(keys[i]));
        assert(table.contains_key(keys[i]));
    }
    assert forall|key: K| #[trigger] table.contains_key(key) implies
        built.contains_key(key) && built[key] == table[key] by {
        assert(keys.contains(key));
        let i = keys.index_of(key);
        assert(keys[i] == key);
        assert(key_of(items[i]) == Some(key));
        assert forall|j: int| i < j < items.len() implies key_of(#[trigger] items[j]) != key_of(
            items[i],
        ) by {
            assert(keys[j] != keys[i]);
        }
        law_keyed_is_found(items, key_of, i);
    }
    assert forall|key: K| #[trigger] built.contains_key(key) implies
        table.contains_key(key) by {
        law_keyed_holds_items(items, key_of, key);
        let i = items.index_of(built[key]);
        assert(items[i] == built[key]);
        assert(keys.contains(keys[i]));
    }
    assert(built =~= table);
}

/// A name is looked up as it was before the `minecraft:` prefix was put on.
pub proof fn law_prefix_comes_off(name: Seq<char>)
    ensures
        convert::bare_name("minecraft:"@ + name) == name,
{
    let prefix = "minecraft:"@;
    assert(prefix.is_prefix_of(prefix + name));
    assert((prefix + name).skip(prefix.len() as int) =~= name);
}

/// The entry that a known state was written as is resolved to that state.
pub proof fn law_known_state_is_resolved<R: Registry>(
    registry: &R,
    ids: Seq<u16>,
    id: u16,
    written: VanillaPaletteEntry,
    read: VanillaPaletteEntry,
    resolved: u16,
)
    requires
        knows_states(registry, ids),
        ids.contains(id),
        export::entry_written(registry, id, written),
        same_entry(read, written),
        convert::resolves_state(registry, read, resolved),
    ensures
        resolved == id,
{
    let (name, properties) = choose|name: String, properties: Option<BTreeMap<String, String>>|
        #[trigger] call_ensures(R::block_name, (registry, id), name) && #[trigger] call_ensures(
            R::block_properties,
            (registry, id),
            properties,
        ) && written.name@ == "minecraft:"@ + name@ && written.properties
            == export::some_properties(properties);
    law_prefix_comes_off(name@);
    let found = choose|found: Option<R::Block>| #[trigger]
        services::finds_block(registry, convert::bare_name(read.name@), found)
            && convert::state_of_found(registry, found, read, resolved);
    assert(services::finds_block(registry, name@, found));
    assert(knows_properties(registry, found->0, properties, id));
    if let Some(table) = properties {
        if table@.dom() == Set::<String>::empty() {
            assert(table@ =~= Map::empty());
        }
    }
}

/// The name that a known biome was written as is resolved to that biome, and to
/// what plains are resolved to where the registry gives it no name.
pub proof fn law_known_biome_is_resolved<R: Registry>(
    registry: &R,
    ids: Seq<u8>,
    id: u8,
    written: Seq<char>,
    resolved: u8,
)
    requires
        knows_biomes(registry, ids),
        ids.contains(id),
        export::biome_written(registry, id, written),
        convert::resolves_biome(registry, written, resolved),
    ensures
        biome_restored(registry, id, resolved),
{
    let given = choose|given: Option<String>| #[trigger]
        call_ensures(R::biome_name, (registry, id), given) && match given {
            Some(key) => written == "minecraft:"@ + key@,
            None => written == "minecraft:plains"@,
        };
    if let Some(key) = given {
        law_prefix_comes_off(key@);
        let found = choose|found: Option<u8>| #[trigger]
            services::finds_biome(registry, convert::bare_name(written), found) && match found {
                Some(biome) => resolved == biome,
                None => call_ensures(R::plains, (registry,), resolved),
            };
        assert(services::finds_biome(registry, key@, found));
        assert(call_ensures(R::biome_name, (registry, id), Some(key)));
    }
}

/// Whether a container holds a light array of the full length.
pub open spec fn is_full(light: Option<LightContainer>) -> bool {
    light matches Some(LightContainer::Full(data)) && data@.len() == LIGHT_ARRAY_SIZE
}

/// `after` is what the light `before` of a section is loaded as.
pub open spec fn light_restored(before: Option<LightContainer>, after: LightContainer) -> bool {
    if is_full(before) {
        before matches Some(LightContainer::Full(data)) && after matches LightContainer::Full(
            restored,
        ) && restored@ == data@
    } else {
        after == LightContainer::Empty(0)
    }
}

/// A light array of the full length that was written is read back; any other
/// light reads back as darkness.
pub proof fn law_light_round_trip(before: Option<LightContainer>, after: LightContainer)
    requires
        convert::light_imported(export::light_written(before), after),
    ensures
        light_restored(before, after),
{
}

/// Block states that were written are read back with the same state ids.
pub proof fn law_block_states_round_trip<C: NbtCodec, R: Registry>(
    codec: &C,
    registry: &R,
    section: ChunkSectionBlockStates,
    bytes: Seq<u8>,
    restored: Option<ChunkSectionBlockStates>,
)
    requires
        keeps_block_states(codec),
        knows_states(registry, section.palette@),
        export::block_states_written(codec, registry, section, bytes),
        convert::block_states_imported(codec, registry, bytes, restored),
    ensures
        restored matches Some(r) && r.palette@ == section.palette@ && chunk::same_data(
            r.data,
            section.data,
        ),
{
    let (palette, out) = choose|palette: Vec<VanillaPaletteEntry>, out: Vec<u8>|
        {
            &&& palette@.len() == section.palette@.len()
            &&& forall|i: int|
                0 <= i < palette@.len() ==> export::entry_written(
                    registry,
                    section.palette@[i],
                    #[trigger] palette@[i],
                )
            &&& #[trigger] call_ensures(
                C::encode_block_states,
                (codec, &palette, &section.data),
                out,
            )
            &&& bytes == out@
        };
    let states = choose|states: VanillaBlockStates| #[trigger]
        services::reads_block_states(codec, bytes, Some(states)) && {
            &&& restored matches Some(r)
            &&& r.data == states.data
            &&& r.palette@.len() == states.palette@.len()
            &&& forall|i: int|
                0 <= i < states.palette@.len() ==> convert::resolves_state(
                    registry,
                    states.palette@[i],
                    #[trigger] r.palette@[i],
                )
        };
    let r = restored->0;
    assert forall|i: int| 0 <= i < r.palette@.len() implies r.palette@[i]
        == section.palette@[i] by {
        assert(section.palette@.contains(section.palette@[i]));
        assert(export::entry_written(registry, section.palette@[i], palette@[i]));
        assert(same_entry(states.palette@[i], palette@[i]));
        law_known_state_is_resolved(
            registry,
            section.palette@,
            section.palette@[i],
            palette@[i],
            states.palette@[i],
            r.palette@[i],
        );
    }
    assert(r.palette@ =~= section.palette@);
}

/// Biomes that were written are read back with the same biome ids, but for those
/// that the registry has no name for, which are read back as plains.
pub proof fn law_biomes_round_trip<C: NbtCodec, R: Registry>(
    codec: &C,
    registry: &R,
    section: ChunkSectionBiomes,
    bytes: Seq<u8>,
    restored: Option<ChunkSectionBiomes>,
)
    requires
        keeps_biomes(codec),
        knows_biomes(registry, section.palette@),
        export::biomes_written(codec, registry, section, bytes),
        convert::biomes_imported(codec, registry, bytes, restored),
    ensures
        restored matches Some(r) && biomes_restored(registry, section.palette@, r.palette@)
            && chunk::same_data(r.data, section.data),
{
    let (palette, out) = choose|palette: Vec<String>, out: Vec<u8>|
        {
            &&& palette@.len() == section.palette@.len()
            &&& forall|i: int|
                0 <= i < palette@.len() ==> export::biome_written(
                    registry,
                    section.palette@[i],
                    (#[trigger] palette@[i])@,
                )
            &&& #[trigger] call_ensures(C::encode_biomes, (codec, &palette, &section.data), out)
            &&& bytes == out@
        };
    let biomes = choose|biomes: VanillaBiomes| #[trigger]
        services::reads_biomes(codec, bytes, Some(biomes)) && {
            &&& restored matches Some(r)
            &&& r.data == biomes.data
            &&& r.palette@.len() == biomes.palette@.len()
            &&& forall|i: int|
                0 <= i < biomes.palette@.len() ==> convert::resolves_biome(
                    registry,
                    biomes.palette@[i]@,
                    #[trigger] r.palette@[i],
                )
        };
    let r = restored->0;
    assert forall|i: int| 0 <= i < r.palette@.len() implies biome_restored(
        registry,
        section.palette@[i],
        #[trigger] r.palette@[i],
    ) by {
        assert(section.palette@.contains(section.palette@[i]));
        assert(export::biome_written(registry, section.palette@[i], palette@[i]@));
        assert(biomes.palette@[i]@ == palette@[i]@);
        law_known_biome_is_resolved(
            registry,
            section.palette@,
            section.palette@[i],
            palette@[i]@,
            r.palette@[i],
        );
    }
}

/// Section `i` of `data` is section `i` of `chunk`.
pub open spec fn section_restored<N, R: Registry>(
    registry: &R,
    chunk: ChunkSnapshot<N>,
    data: ChunkData<N>,
    i: int,
) -> bool {
    &&& data.section.block_sections@[i] matches Some(blocks)
    &&& blocks.palette@ == chunk.block_sections@[i].palette@
    &&& chunk::same_data(blocks.data, chunk.block_sections@[i].data)
    &&& data.section.biome_sections@[i] matches Some(biomes)
    &&& biomes_restored(registry, chunk.biome_sections@[i].palette@, biomes.palette@)
    &&& chunk::same_data(biomes.data, chunk.biome_sections@[i].data)
    &&& light_restored(
        export::light_at(chunk.light.block_light@, i),
        data.light_engine.block_light@[i],
    )
    &&& light_restored(
        export::light_at(chunk.light.sky_light@, i),
        data.light_engine.sky_light@[i],
    )
}

/// A chunk that was saved is loaded where it was, with all its sections.
proof fn lemma_sections_are_restored<C: NbtCodec, R: Registry>(
    codec: &C,
    registry: &R,
    coord: (i32, i32),
    chunk: ChunkSnapshot<C::Compound>,
    entities: Seq<C::Compound>,
    view: model::ChunkView,
    min_section_y: i32,
    data: ChunkData<C::Compound>,
)
    requires
        keeps_block_states(codec),
        keeps_biomes(codec),
        knows_chunk(registry, chunk),
        export::is_complete(chunk),
        export::chunk_written(codec, registry, coord, Some(chunk), entities, view),
        convert::chunk_imported(codec, registry, view, min_section_y, data),
    ensures
        (data.x, data.z) == coord,
        data.section.count == chunk.block_sections@.len(),
        forall|i: int|
            0 <= i < data.section.count ==> #[trigger] section_restored(registry, chunk, data, i),
{
    assert forall|i: int| 0 <= i < data.section.count implies #[trigger] section_restored(
        registry,
        chunk,
        data,
        i,
    ) by {
        let section = view.sections[i];
        assert(knows_states(registry, chunk.block_sections@[i].palette@));
        assert(knows_biomes(registry, chunk.biome_sections@[i].palette@));
        assert(export::section_written(codec, registry, chunk, i, section));
        law_block_states_round_trip(
            codec,
            registry,
            chunk.block_sections@[i],
            section.block_states,
            data.section.block_sections@[i],
        );
        law_biomes_round_trip(
            codec,
            registry,
            chunk.biome_sections@[i],
            section.biomes,
            data.section.biome_sections@[i],
        );
        law_light_round_trip(
            export::light_at(chunk.light.block_light@, i),
            data.light_engine.block_light@[i],
        );
        law_light_round_trip(
            export::light_at(chunk.light.sky_light@, i),
            data.light_engine.sky_light@[i],
        );
    }
}

/// A chunk that was saved is accepted when it is loaded.
pub proof fn law_saved_chunk_is_accepted<C: NbtCodec, R: Registry>(
    codec: &C,
    registry: &R,
    coord: (i32, i32),
    chunk: Option<ChunkSnapshot<C::Compound>>,
    entities: Seq<C::Compound>,
    view: model::ChunkView,
)
    requires
        keeps_all(codec),
        export::chunk_written(codec, registry, coord, chunk, entities, view),
    ensures
        !convert::chunk_rejected(codec, view),
        !services::reads_compounds(codec, view.entities, None),
{
    if let Some(snapshot) = chunk {
        assert forall|i: int| 0 <= i < view.sections.len() implies !convert::section_rejected(
            codec,
            #[trigger] view.sections[i],
        ) by {
            assert(export::section_written(codec, registry, snapshot, i, view.sections[i]));
        }
    }
}

/// `data` is the chunk `chunk`.
pub open spec fn chunk_restored<N, R: Registry>(
    registry: &R,
    coord: (i32, i32),
    chunk: ChunkSnapshot<N>,
    data: ChunkData<N>,
) -> bool {
    &&& (data.x, data.z) == coord
    &&& data.section.count == chunk.block_sections@.len()
    &&& forall|i: int|
        0 <= i < data.section.count ==> #[trigger] section_restored(registry, chunk, data, i)
    &&& chunk::same_height_maps(data.heightmap, chunk.heightmap)
    &&& data.pending_block_entities@ == chunk.pending_block_entities@
}

/// A chunk that was saved is loaded as it was.
pub proof fn law_saved_chunk_is_loaded<C: NbtCodec, R: Registry>(
    codec: &C,
    registry: &R,
    at: spec_fn(C::Compound) -> Option<(i32, i32, i32)>,
    id_of: spec_fn(C::Compound) -> Option<u128>,
    coord: (i32, i32),
    chunk: ChunkSnapshot<C::Compound>,
    entities: Seq<C::Compound>,
    view: model::ChunkView,
    min_section_y: i32,
    data: ChunkData<C::Compound>,
)
    requires
        keeps_all(codec),
        reads_tags(codec, at, id_of),
        knows_chunk(registry, chunk),
        export::is_complete(chunk),
        stands_where_it_says(chunk.pending_block_entities@, at),
        export::chunk_written(codec, registry, coord, Some(chunk), entities, view),
        convert::chunk_imported(codec, registry, view, min_section_y, data),
    ensures
        chunk_restored(registry, coord, chunk, data),
{
    lemma_sections_are_restored(
        codec,
        registry,
        coord,
        chunk,
        entities,
        view,
        min_section_y,
        data,
    );
    let tags = choose|tags: Vec<CompoundTag<C::Compound>>| #[trigger]
        convert::compounds_imported(codec, view.block_entities, tags)
            && data.pending_block_entities@ == convert::placed(tags@);
    let before = chunk.pending_block_entities@;
    let (keys, items, out) = choose|
        keys: Seq<(i32, i32, i32)>,
        items: Vec<&C::Compound>,
        out: Vec<u8>,
    |
        {
            &&& #[trigger] super::tables::walks(keys, before)
            &&& items@.len() == keys.len()
            &&& forall|i: int| 0 <= i < keys.len() ==> *(#[trigger] items@[i]) == before[keys[i]]
            &&& #[trigger] call_ensures(C::encode_tile_entities, (codec, &items), out)
            &&& view.block_entities == out@
        };
    assert(services::reads_compounds(codec, view.block_entities, Some(tags)));
    assert(same_compounds(tags@, items@));
    assert forall|i: int| 0 <= i < tags@.len() implies convert::position(#[trigger] tags@[i])
        == at(tags@[i].nbt) by {}
    lemma_placed_is_keyed(tags@, at);
    assert forall|i: int| 0 <= i < keys.len() implies #[trigger] compounds(tags@)[i]
        == before[keys[i]] by {
        assert(tags@[i].nbt == *items@[i]);
    }
    lemma_walked_table(before, keys, compounds(tags@), at);
}

/// Entities that were saved are loaded as they were: each of them that has an id
/// is found under it, the last of those that have the same one.
pub proof fn law_saved_entities_are_loaded<C: NbtCodec, R: Registry>(
    codec: &C,
    registry: &R,
    at: spec_fn(C::Compound) -> Option<(i32, i32, i32)>,
    id_of: spec_fn(C::Compound) -> Option<u128>,
    coord: (i32, i32),
    chunk: Option<ChunkSnapshot<C::Compound>>,
    entities: Seq<C::Compound>,
    view: model::ChunkView,
    data: ChunkEntityData<C::Compound>,
)
    requires
        keeps_all(codec),
        reads_tags(codec, at, id_of),
        export::chunk_written(codec, registry, coord, chunk, entities, view),
        convert::entities_imported(codec, view, data),
    ensures
        (data.x, data.z) == coord,
        data.data@ == keyed(entities, id_of),
{
    let tags = choose|tags: Vec<CompoundTag<C::Compound>>| #[trigger]
        convert::compounds_imported(codec, view.entities, tags) && data.data@
            == convert::identified(tags@);
    let (items, out) = choose|items: Vec<&C::Compound>, out: Vec<u8>|
        {
            &&& items@.len() == entities.len()
            &&& forall|i: int| 0 <= i < entities.len() ==> *(#[trigger] items@[i]) == entities[i]
            &&& #[trigger] call_ensures(C::encode_entities, (codec, &items), out)
            &&& view.entities == out@
        };
    assert(services::reads_compounds(codec, view.entities, Some(tags)));
    assert(same_compounds(tags@, items@));
    assert forall|i: int| 0 <= i < tags@.len() implies convert::entity_id(#[trigger] tags@[i])
        == id_of(tags@[i].nbt) by {}
    lemma_identified_is_keyed(tags@, id_of);
    assert forall|i: int| 0 <= i < entities.len() implies #[trigger] compounds(tags@)[i]
        == entities[i] by {
        assert(tags@[i].nbt == *items@[i]);
    }
    assert(compounds(tags@) =~= entities);
}

/// Entities with distinct ids that were saved are loaded, each under its id, and
/// nothing else is.
pub proof fn law_distinct_entities_are_kept<N>(
    entities: Seq<N>,
    id_of: spec_fn(N) -> Option<u128>,
    i: int,
)
    requires
        0 <= i < entities.len(),
        forall|k: int| 0 <= k < entities.len() ==> id_of(#[trigger] entities[k]) is Some,
        forall|k: int, l: int|
            0 <= k < l < entities.len() ==> id_of(#[trigger] entities[k]) != id_of(
                #[trigger] entities[l],
            ),
    ensures
        keyed(entities, id_of).contains_key(id_of(entities[i])->0),
        keyed(entities, id_of)[id_of(entities[i])->0] == entities[i],
        forall|id: u128| #[trigger]
            keyed(entities, id_of).contains_key(id) ==> entities.contains(
                keyed(entities, id_of)[id],
            ) && id_of(keyed(entities, id_of)[id]) == Some(id),
{
    law_keyed_is_found(entities, id_of, i);
    assert forall|id: u128| #[trigger] keyed(entities, id_of).contains_key(id) implies
        entities.contains(keyed(entities, id_of)[id]) && id_of(keyed(entities, id_of)[id])
        == Some(id) by {
        law_keyed_holds_items(entities, id_of, id);
    }
}

/// A block entity of a chunk that was loaded stands where it says.
pub proof fn law_loaded_block_entities_stand<C: NbtCodec, R: Registry>(
    codec: &C,
    registry: &R,
    at: spec_fn(C::Compound) -> Option<(i32, i32, i32)>,
    id_of: spec_fn(C::Compound) -> Option<u128>,
    view: model::ChunkView,
    min_section_y: i32,
    data: ChunkData<C::Compound>,
)
    requires
        reads_tags(codec, at, id_of),
        convert::chunk_imported(codec, registry, view, min_section_y, data),
    ensures
        stands_where_it_says(data.pending_block_entities@, at),
{
    let tags = choose|tags: Vec<CompoundTag<C::Compound>>| #[trigger]
        convert::compounds_imported(codec, view.block_entities, tags)
            && data.pending_block_entities@ == convert::placed(tags@);
    assert forall|i: int| 0 <= i < tags@.len() implies convert::position(#[trigger] tags@[i])
        == at(tags@[i].nbt) by {
        assert(services::reads_compounds(codec, view.block_entities, Some(tags)));
    }
    lemma_placed_is_keyed(tags@, at);
    assert forall|key: (i32, i32, i32)| #[trigger]
        data.pending_block_entities@.contains_key(key) implies at(
        data.pending_block_entities@[key],
    ) == Some(key) by {
        law_keyed_holds_items(compounds(tags@), at, key);
    }
}

/// An entity of a chunk that was loaded stands under its id.
pub proof fn law_loaded_entities_stand<C: NbtCodec>(
    codec: &C,
    at: spec_fn(C::Compound) -> Option<(i32, i32, i32)>,
    id_of: spec_fn(C::Compound) -> Option<u128>,
    view: model::ChunkView,
    data: ChunkEntityData<C::Compound>,
)
    requires
        reads_tags(codec, at, id_of),
        convert::entities_imported(codec, view, data),
    ensures
        stands_where_it_says(data.data@, id_of),
{
    let tags = choose|tags: Vec<CompoundTag<C::Compound>>| #[trigger]
        convert::compounds_imported(codec, view.entities, tags) && data.data@
            == convert::identified(tags@);
    assert forall|i: int| 0 <= i < tags@.len() implies convert::entity_id(#[trigger] tags@[i])
        == id_of(tags@[i].nbt) by {
        assert(services::reads_compounds(codec, view.entities, Some(tags)));
    }
    lemma_identified_is_keyed(tags@, id_of);
    assert forall|id: u128| #[trigger] data.data@.contains_key(id) implies id_of(data.data@[id])
        == Some(id) by {
        law_keyed_holds_items(compounds(tags@), id_of, id);
    }
}

/// The entities of a chunk that was loaded, saved and loaded again are the same,
/// each under its id, where a copy of an entity is the entity.
pub proof fn law_loaded_entities_survive<C: NbtCodec, R: Registry>(
    codec: &C,
    registry: &R,
    at: spec_fn(C::Compound) -> Option<(i32, i32, i32)>,
    id_of: spec_fn(C::Compound) -> Option<u128>,
    first: model::ChunkView,
    data: ChunkEntityData<C::Compound>,
    chunk: Option<ChunkSnapshot<C::Compound>>,
    saved: Seq<C::Compound>,
    second: model::ChunkView,
    after: ChunkEntityData<C::Compound>,
) where C::Compound: Clone
    requires
        keeps_all(codec),
        reads_tags(codec, at, id_of),
        forall|a: C::Compound, b: C::Compound| #[trigger] cloned(a, b) ==> a == b,
        convert::entities_imported(codec, first, data),
        export::entities_saved(data.data@, saved),
        export::chunk_written(codec, registry, (data.x, data.z), chunk, saved, second),
        convert::entities_imported(codec, second, after),
    ensures
        (after.x, after.z) == (data.x, data.z),
        after.data@ == data.data@,
{
    let ids = choose|ids: Seq<u128>| #[trigger]
        super::tables::walks(ids, data.data@) && saved.len() == ids.len() && forall|i: int|
            0 <= i < ids.len() ==> cloned(data.data@[ids[i]], #[trigger] saved[i]);
    assert forall|i: int| 0 <= i < ids.len() implies #[trigger] saved[i] == data.data@[ids[i]] by {
        assert(cloned(data.data@[ids[i]], saved[i]));
    }
    law_loaded_entities_stand(codec, at, id_of, first, data);
    lemma_walked_table(data.data@, ids, saved, id_of);
    law_saved_entities_are_loaded(
        codec,
        registry,
        at,
        id_of,
        (data.x, data.z),
        chunk,
        saved,
        second,
        after,
    );
}

/// `after` is what the block states `before` of a loaded section are after a
/// save and another load: themselves, or air where the section had the default
/// palette.
pub open spec fn block_states_survive<R: Registry>(
    registry: &R,
    before: Option<ChunkSectionBlockStates>,
    after: Option<ChunkSectionBlockStates>,
) -> bool {
    after matches Some(states) && export::block_states_saved(registry, before, states)
}

/// `after` is what the biomes `before` of a loaded section are after a save and
/// another load: as any biomes that were saved, or the registry's plains where
/// the section had the default palette.
pub open spec fn biomes_survive<R: Registry>(
    registry: &R,
    before: Option<ChunkSectionBiomes>,
    after: Option<ChunkSectionBiomes>,
) -> bool {
    &&& after matches Some(biomes)
    &&& match before {
        Some(kept) => chunk::same_data(biomes.data, kept.data) && biomes_restored(
            registry,
            kept.palette@,
            biomes.palette@,
        ),
        None => biomes.data is None && biomes.palette@.len() == 1 && exists|plains: u8| #[trigger]
            call_ensures(R::plains, (registry,), plains) && biome_restored(
                registry,
                plains,
                biomes.palette@[0],
            ),
    }
}

/// `again` is the loaded chunk `data` after a save and another load.
pub open spec fn chunk_survives<N, R: Registry>(
    registry: &R,
    data: ChunkData<N>,
    again: ChunkData<N>,
) -> bool {
    &&& (again.x, again.z) == (data.x, data.z)
    &&& again.section.count == data.section.count
    &&& forall|i: int|
        0 <= i < data.section.count ==> block_states_survive(
            registry,
            #[trigger] data.section.block_sections@[i],
            again.section.block_sections@[i],
        )
    &&& forall|i: int|
        0 <= i < data.section.count ==> biomes_survive(
            registry,
            #[trigger] data.section.biome_sections@[i],
            again.section.biome_sections@[i],
        )
    &&& forall|i: int|
        0 <= i < data.section.count ==> chunk::same_light(
            again.light_engine.block_light@[i],
            #[trigger] data.light_engine.block_light@[i],
        )
    &&& forall|i: int|
        0 <= i < data.section.count ==> chunk::same_light(
            again.light_engine.sky_light@[i],
            #[trigger] data.light_engine.sky_light@[i],
        )
    &&& chunk::same_height_maps(again.heightmap, data.heightmap)
    &&& again.pending_block_entities@ == data.pending_block_entities@
}

/// A chunk that was loaded survives a save and another load.
pub proof fn law_loaded_chunk_survives<C: NbtCodec, R: Registry>(
    codec: &C,
    registry: &R,
    at: spec_fn(C::Compound) -> Option<(i32, i32, i32)>,
    id_of: spec_fn(C::Compound) -> Option<u128>,
    first: model::ChunkView,
    min_section_y: i32,
    data: ChunkData<C::Compound>,
    saved: ChunkSnapshot<C::Compound>,
    entities: Seq<C::Compound>,
    second: model::ChunkView,
    again: ChunkData<C::Compound>,
)
    requires
        keeps_all(codec),
        reads_tags(codec, at, id_of),
        convert::chunk_imported(codec, registry, first, min_section_y, data),
        export::chunk_saved(registry, data, saved),
        knows_chunk(registry, saved),
        export::chunk_written(
            codec,
            registry,
            (data.x, data.z),
            Some(saved),
            entities,
            second,
        ),
        convert::chunk_imported(codec, registry, second, min_section_y, again),
    ensures
        chunk_survives(registry, data, again),
{
    law_loaded_block_entities_stand(codec, registry, at, id_of, first, min_section_y, data);
    law_saved_chunk_is_loaded(
        codec,
        registry,
        at,
        id_of,
        (data.x, data.z),
        saved,
        entities,
        second,
        min_section_y,
        again,
    );
    assert forall|i: int| 0 <= i < data.section.count implies block_states_survive(
        registry,
        #[trigger] data.section.block_sections@[i],
        again.section.block_sections@[i],
    ) by {
        assert(section_restored(registry, saved, again, i));
        assert(export::block_states_saved(
            registry,
            data.section.block_sections@[i],
            saved.block_sections@[i],
        ));
    }
    assert forall|i: int| 0 <= i < data.section.count implies biomes_survive(
        registry,
        #[trigger] data.section.biome_sections@[i],
        again.section.biome_sections@[i],
    ) by {
        assert(section_restored(registry, saved, again, i));
        assert(export::biomes_saved(
            registry,
            data.section.biome_sections@[i],
            saved.biome_sections@[i],
        ));
        let biomes = again.section.biome_sections@[i]->0;
        if data.section.biome_sections@[i] is None {
            assert(call_ensures(R::plains, (registry,), saved.biome_sections@[i].palette@[0]));
            assert(biome_restored(
                registry,
                saved.biome_sections@[i].palette@[0],
                biomes.palette@[0],
            ));
        }
    }
    assert forall|i: int| 0 <= i < data.section.count implies chunk::same_light(
        again.light_engine.block_light@[i],
        #[trigger] data.light_engine.block_light@[i],
    ) && chunk::same_light(
        again.light_engine.sky_light@[i],
        data.light_engine.sky_light@[i],
    ) by {
        assert(section_restored(registry, saved, again, i));
        assert(convert::light_imported(
            first.sections[i].block_light,
            data.light_engine.block_light@[i],
        ));
        assert(chunk::same_light(
            saved.light.block_light@[i],
            data.light_engine.block_light@[i],
        ));
        assert(chunk::same_light(saved.light.sky_light@[i], data.light_engine.sky_light@[i]));
    }
    assert forall|i: int| 0 <= i < data.section.count implies chunk::same_light(
        again.light_engine.sky_light@[i],
        #[trigger] data.light_engine.sky_light@[i],
    ) by {
        assert(chunk::same_light(
            again.light_engine.block_light@[i],
            data.light_engine.block_light@[i],
        ));
    }
}

/// A world that was saved is loaded as it was: with every chunk of which the
/// blocks or the entities were known, with no other, and with nothing left out.
pub proof fn law_saved_world_is_loaded<C: NbtCodec, R: Registry>(
    codec: &C,
    registry: &R,
    at: spec_fn(C::Compound) -> Option<(i32, i32, i32)>,
    id_of: spec_fn(C::Compound) -> Option<u128>,
    chunks: Map<(i32, i32), ChunkSnapshot<C::Compound>>,
    entities: Map<(i32, i32), Vec<C::Compound>>,
    coords: Seq<(i32, i32)>,
    written: Seq<model::ChunkView>,
    min_section_y: i32,
    blocks_read: Seq<Option<ChunkData<C::Compound>>>,
    entities_read: Seq<Option<ChunkEntityData<C::Compound>>>,
)
    requires
        keeps_all(codec),
        reads_tags(codec, at, id_of),
        forall|coord: (i32, i32)| #[trigger]
            chunks.contains_key(coord) ==> knows_chunk(registry, chunks[coord])
                && export::is_complete(chunks[coord]) && stands_where_it_says(
                chunks[coord].pending_block_entities@,
                at,
            ),
        export::world_written(codec, registry, chunks, entities, coords, written),
        store::chunks_outcome(
            codec,
            registry,
            written,
            min_section_y,
            blocks_read,
            entities_read,
        ),
    ensures
        forall|coord: (i32, i32)| #[trigger]
            store::gathered(written, blocks_read).contains_key(coord) <==> chunks.contains_key(
                coord,
            ) || entities.contains_key(coord),
        forall|coord: (i32, i32)| #[trigger]
            store::gathered(written, entities_read).contains_key(coord) <==> chunks.contains_key(
                coord,
            ) || entities.contains_key(coord),
        forall|coord: (i32, i32)| #[trigger]
            chunks.contains_key(coord) ==> chunk_restored(
                registry,
                coord,
                chunks[coord],
                store::gathered(written, blocks_read)[coord],
            ),
        forall|coord: (i32, i32)| #[trigger]
            coords.contains(coord) ==> store::gathered(written, entities_read)[coord].data@
                == keyed(export::entities_at(entities, coord), id_of),
        store::left_out(written, blocks_read, entities_read).len() == 0,
{
    assert forall|i: int| 0 <= i < written.len() implies (#[trigger] blocks_read[i]) is Some
        && entities_read[i] is Some && (written[i].x, written[i].z) == coords[i] by {
        let coord = coords[i];
        assert(store::blocks_outcome(
            codec,
            registry,
            written[i],
            min_section_y,
            blocks_read[i],
        ));
        law_saved_chunk_is_accepted(
            codec,
            registry,
            coord,
            export::snapshot_at(chunks, coord),
            export::entities_at(entities, coord),
            written[i],
        );
    }
    lemma_nothing_left_out(written, blocks_read, entities_read);
    let blocks_table = store::gathered(written, blocks_read);
    let entities_table = store::gathered(written, entities_read);
    assert forall|coord: (i32, i32)| coords.contains(coord) implies {
        &&& #[trigger] blocks_table.contains_key(coord)
        &&& entities_table.contains_key(coord)
        &&& chunks.contains_key(coord) ==> chunk_restored(
            registry,
            coord,
            chunks[coord],
            blocks_table[coord],
        )
        &&& entities_table[coord].data@ == keyed(export::entities_at(entities, coord), id_of)
    } by {
        let i = coords.index_of(coord);
        assert(coords[i] == coord);
        assert(blocks_read[i] is Some);
        assert forall|j: int| i < j < written.len() implies (written[j].x, written[j].z) != (
            written[i].x,
            written[i].z,
        ) by {
            assert(blocks_read[j] is Some);
            assert(coords[j] != coords[i]);
        }
        store::law_converted_is_found(written, blocks_read, i);
        store::law_converted_is_found(written, entities_read, i);
        assert(store::blocks_outcome(
            codec,
            registry,
            written[i],
            min_section_y,
            blocks_read[i],
        ));
        if chunks.contains_key(coord) {
            law_saved_chunk_is_loaded(
                codec,
                registry,
                at,
                id_of,
                coord,
                chunks[coord],
                export::entities_at(entities, coord),
                written[i],
                min_section_y,
                blocks_table[coord],
            );
        }
        law_saved_entities_are_loaded(
            codec,
            registry,
            at,
            id_of,
            coord,
            export::snapshot_at(chunks, coord),
            export::entities_at(entities, coord),
            written[i],
            entities_table[coord],
        );
    }
    assert forall|coord: (i32, i32)| #[trigger] blocks_table.contains_key(coord) implies
        coords.contains(coord) by {
        store::law_nothing_else_is_found(written, blocks_read, coord);
        let i = choose|i: int|
            0 <= i < written.len() && (#[trigger] written[i].x, written[i].z) == coord
                && blocks_read[i] == Some(blocks_table[coord]);
        assert(blocks_read[i] is Some);
        assert(coords[i] == coord);
    }
    assert forall|coord: (i32, i32)| #[trigger] entities_table.contains_key(coord) implies
        coords.contains(coord) by {
        store::law_nothing_else_is_found(written, entities_read, coord);
        let i = choose|i: int|
            0 <= i < written.len() && (#[trigger] written[i].x, written[i].z) == coord
                && entities_read[i] == Some(entities_table[coord]);
        assert(blocks_read[i] is Some);
        assert(coords[i] == coord);
    }
    assert forall|coord: (i32, i32)| #[trigger] entities_table.contains_key(coord) <==>
        chunks.contains_key(coord) || entities.contains_key(coord) by {
        if coords.contains(coord) {
            assert(blocks_table.contains_key(coord));
        }
    }
    assert forall|coord: (i32, i32)| #[trigger] chunks.contains_key(coord) implies
        chunk_restored(registry, coord, chunks[coord], blocks_table[coord]) by {
        assert(coords.contains(coord));
        assert(blocks_table.contains_key(coord));
    }
    assert forall|coord: (i32, i32)| #[trigger] coords.contains(coord) implies
        entities_table[coord].data@ == keyed(export::entities_at(entities, coord), id_of) by {
        assert(blocks_table.contains_key(coord));
    }
}

proof fn lemma_nothing_left_out<A, B>(
    written: Seq<model::ChunkView>,
    blocks_read: Seq<Option<A>>,
    entities_read: Seq<Option<B>>,
)
    requires
        blocks_read.len() == written.len(),
        entities_read.len() == written.len(),
        forall|i: int|
            0 <= i < written.len() ==> (#[trigger] blocks_read[i]) is Some
                && entities_read[i] is Some,
    ensures
        store::left_out(written, blocks_read, entities_read).len() == 0,
    decreases written.len(),
{
    if written.len() > 0 {
        let n = written.len() - 1;
        assert(blocks_read[n] is Some);
        assert forall|i: int| 0 <= i < n implies (#[trigger] blocks_read.drop_last()[i]) is Some
            && entities_read.drop_last()[i] is Some by {
            assert(blocks_read[i] is Some);
        }
        lemma_nothing_left_out(
            written.drop_last(),
            blocks_read.drop_last(),
            entities_read.drop_last(),
        );
    }
}

} // verus!
