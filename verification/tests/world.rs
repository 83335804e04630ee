//! Converting chunks, saving a world and loading it again, with a small codec
//! and a small registry.

use std::collections::BTreeMap;

use bytes::Bytes;
use pumpkin_formats::slime::chunk::{
    ChunkHeightmaps, ChunkLight, ChunkSectionBiomes, ChunkSectionBlockStates, ChunkSnapshot,
    ChunkStatus, CompoundTag, LightContainer,
};
use pumpkin_formats::slime::convert::{
    biome_name_to_id, chunk_to_chunk_data, chunk_to_entity_data, index_entities, light_container,
    palette_entry_to_state_id, parse_segment, place_block_entities, section_to_block,
    strip_namespace,
};
use pumpkin_formats::slime::export::{
    biome_id_to_name, encode_chunk, entity_list, light_bytes, serialize_world, snapshot,
    state_id_to_entry,
};
use pumpkin_formats::slime::ids::uuid_from_int_array;
use pumpkin_formats::slime::services::{
    NbtCodec, Registry, VanillaBiomes, VanillaBlockStates, VanillaPaletteEntry,
};
use pumpkin_formats::slime::store::{
    find_slime, import_world, is_slime_extension, read_world, ChunkPart, LoadedData, LoadedWorld,
    SlimeWorldStore, DEFAULT_SLIME_NAME,
};
use pumpkin_formats::slime::{
    read_slime_world, SlimeChunk, SlimeError, SlimeSection, SlimeWorld,
};
use rustc_hash::FxHashMap;
use uuid::Uuid;

const AIR: u16 = 0;
const STONE: u16 = 1;
const STAIRS: u16 = 10;
const PLAINS: u8 = 40;
const DESERT: u8 = 5;

/// Air, stone and stairs that face two ways; plains and desert.
struct TestRegistry;

fn facing(way: &str) -> BTreeMap<String, String> {
    let mut properties = BTreeMap::new();
    properties.insert("facing".to_string(), way.to_string());
    properties
}

impl Registry for TestRegistry {
    type Block = u16;

    fn block(&self, key: &str) -> Option<u16> {
        match key {
            "air" => Some(AIR),
            "stone" => Some(STONE),
            "oak_stairs" => Some(STAIRS),
            _ => None,
        }
    }

    fn default_state(&self, block: &u16) -> u16 {
        *block
    }

    fn state_with(&self, block: &u16, properties: &BTreeMap<String, String>) -> u16 {
        match properties.get("facing").map(String::as_str) {
            Some("south") => *block + 1,
            _ => *block,
        }
    }

    fn air_state(&self) -> u16 {
        AIR
    }

    fn block_name(&self, state_id: u16) -> String {
        match state_id {
            AIR => "air",
            STONE => "stone",
            _ => "oak_stairs",
        }
        .to_string()
    }

    fn block_properties(&self, state_id: u16) -> Option<BTreeMap<String, String>> {
        match state_id {
            AIR => None,
            STONE => Some(BTreeMap::new()),
            10 => Some(facing("north")),
            _ => Some(facing("south")),
        }
    }

    fn biome(&self, key: &str) -> Option<u8> {
        match key {
            "plains" => Some(PLAINS),
            "desert" => Some(DESERT),
            _ => None,
        }
    }

    fn plains(&self) -> u8 {
        PLAINS
    }

    fn biome_name(&self, biome_id: u8) -> Option<String> {
        match biome_id {
            PLAINS => Some("plains".to_string()),
            DESERT => Some("desert".to_string()),
            _ => None,
        }
    }
}

/// A stand-in for NBT: lines of text behind the tag of a compound.
struct TestCodec;

fn text_of(bytes: &[u8]) -> Option<Vec<String>> {
    let (tag, rest) = bytes.split_first()?;
    if *tag != 0x0a {
        return None;
    }
    let text = std::str::from_utf8(rest).ok()?.to_string();
    let lines = text.split('\n').filter(|line| !line.is_empty() && !line.starts_with('\0'));
    Some(lines.map(str::to_string).collect())
}

fn bytes_of(lines: Vec<String>) -> Vec<u8> {
    let mut out = vec![0x0a];
    out.extend_from_slice(lines.join("\n").as_bytes());
    out
}

fn data_text(data: &Option<Vec<i64>>) -> String {
    match data {
        Some(values) => {
            let values: Vec<String> = values.iter().map(i64::to_string).collect();
            format!("data {}", values.join(","))
        }
        None => "data".to_string(),
    }
}

fn data_of(text: &str) -> Option<Vec<i64>> {
    let values = text.strip_prefix("data ")?;
    values.split(',').map(|value| value.parse().ok()).collect()
}

fn entry_text(entry: &VanillaPaletteEntry) -> String {
    match &entry.properties {
        Some(properties) => {
            let pairs: Vec<String> = properties
                .iter()
                .map(|(key, value)| format!("{key}={value}"))
                .collect();
            format!("{} {}", entry.name, pairs.join(","))
        }
        None => entry.name.clone(),
    }
}

fn entry_of(text: &str) -> VanillaPaletteEntry {
    match text.split_once(' ') {
        Some((name, pairs)) => VanillaPaletteEntry {
            name: name.to_string(),
            properties: Some(
                pairs
                    .split(',')
                    .filter_map(|pair| pair.split_once('='))
                    .map(|(key, value)| (key.to_string(), value.to_string()))
                    .collect(),
            ),
        },
        None => VanillaPaletteEntry {
            name: text.to_string(),
            properties: None,
        },
    }
}

/// A compound reads `x y z uuid.. label`, with `_` for a tag that is not there.
fn tag_of(text: &str) -> CompoundTag<String> {
    let fields: Vec<&str> = text.split(' ').collect();
    CompoundTag {
        x: fields[0].parse().ok(),
        y: fields[1].parse().ok(),
        z: fields[2].parse().ok(),
        uuid: if fields[3] == "_" {
            None
        } else {
            Some(fields[3].split(',').map(|word| word.parse().unwrap()).collect())
        },
        nbt: text.to_string(),
    }
}

impl NbtCodec for TestCodec {
    type Compound = String;

    fn decode_block_states(&self, bytes: &[u8]) -> Option<VanillaBlockStates> {
        let lines = text_of(bytes)?;
        let (data, palette) = lines.split_first()?;
        Some(VanillaBlockStates {
            palette: palette.iter().map(|line| entry_of(line)).collect(),
            data: data_of(data),
        })
    }

    fn decode_biomes(&self, bytes: &[u8]) -> Option<VanillaBiomes> {
        let lines = text_of(bytes)?;
        let (data, palette) = lines.split_first()?;
        Some(VanillaBiomes {
            palette: palette.to_vec(),
            data: data_of(data),
        })
    }

    fn decode_height_maps(&self, bytes: &[u8]) -> Option<ChunkHeightmaps> {
        let lines = text_of(bytes)?;
        Some(ChunkHeightmaps {
            world_surface: lines.first().and_then(|line| data_of(line)),
            motion_blocking: None,
            motion_blocking_no_leaves: None,
        })
    }

    fn decode_compounds(&self, bytes: &[u8]) -> Option<Vec<CompoundTag<String>>> {
        Some(text_of(bytes)?.iter().map(|line| tag_of(line)).collect())
    }

    fn is_compound(&self, bytes: &[u8]) -> bool {
        text_of(bytes).is_some()
    }

    fn encode_block_states(
        &self,
        palette: &Vec<VanillaPaletteEntry>,
        data: &Option<Vec<i64>>,
    ) -> Vec<u8> {
        let mut lines = vec![data_text(data)];
        lines.extend(palette.iter().map(entry_text));
        bytes_of(lines)
    }

    fn encode_biomes(&self, palette: &Vec<String>, data: &Option<Vec<i64>>) -> Vec<u8> {
        let mut lines = vec![data_text(data)];
        lines.extend(palette.iter().cloned());
        bytes_of(lines)
    }

    fn encode_height_maps(&self, height_maps: &ChunkHeightmaps) -> Vec<u8> {
        bytes_of(vec![data_text(&height_maps.world_surface)])
    }

    fn encode_tile_entities(&self, items: &Vec<&String>) -> Vec<u8> {
        bytes_of(items.iter().map(|item| item.to_string()).collect())
    }

    fn encode_entities(&self, items: &Vec<&String>) -> Vec<u8> {
        bytes_of(items.iter().map(|item| item.to_string()).collect())
    }
}

fn entry(name: &str, properties: Option<BTreeMap<String, String>>) -> VanillaPaletteEntry {
    VanillaPaletteEntry {
        name: name.to_string(),
        properties,
    }
}

fn empty_chunk(x: i32, z: i32) -> SlimeChunk {
    SlimeChunk {
        x,
        z,
        sections: Vec::new(),
        height_maps: Bytes::new(),
        block_entities: Bytes::new(),
        entities: Bytes::new(),
        block_ticks: Bytes::new(),
        fluid_ticks: Bytes::new(),
        poi: Bytes::new(),
    }
}

fn empty_section() -> SlimeSection {
    SlimeSection {
        block_light: None,
        sky_light: None,
        block_states: Bytes::new(),
        biomes: Bytes::new(),
    }
}

fn no_height_maps() -> ChunkHeightmaps {
    ChunkHeightmaps {
        world_surface: None,
        motion_blocking: None,
        motion_blocking_no_leaves: None,
    }
}

fn blocks(palette: Vec<u16>, data: Option<Vec<i64>>) -> ChunkSectionBlockStates {
    ChunkSectionBlockStates { data, palette }
}

fn biomes(palette: Vec<u8>, data: Option<Vec<i64>>) -> ChunkSectionBiomes {
    ChunkSectionBiomes { data, palette }
}

#[test]
fn resolves_air_palette_entry() {
    let entry = entry("minecraft:air", None);
    assert_eq!(
        palette_entry_to_state_id(&entry, &TestRegistry),
        TestRegistry.air_state()
    );
}

#[test]
fn resolves_stone_palette_entry() {
    let entry = entry("minecraft:stone", None);
    let expected = TestRegistry.default_state(&TestRegistry.block("stone").unwrap());
    assert_eq!(palette_entry_to_state_id(&entry, &TestRegistry), expected);
    assert_eq!(expected, STONE);
}

#[test]
fn resolves_block_with_properties() {
    // A property-bearing block should resolve to a *specific* (non-default) state.
    let mut properties = BTreeMap::new();
    properties.insert("facing".to_string(), "north".to_string());
    properties.insert("half".to_string(), "bottom".to_string());
    properties.insert("shape".to_string(), "straight".to_string());
    properties.insert("waterlogged".to_string(), "false".to_string());
    let north = entry("minecraft:oak_stairs", Some(properties.clone()));
    assert_eq!(palette_entry_to_state_id(&north, &TestRegistry), STAIRS);
    properties.insert("facing".to_string(), "south".to_string());
    let south = entry("minecraft:oak_stairs", Some(properties));
    assert_eq!(palette_entry_to_state_id(&south, &TestRegistry), STAIRS + 1);
}

#[test]
fn unknown_block_falls_back_to_air() {
    let entry = entry("modid:does_not_exist", None);
    assert_eq!(
        palette_entry_to_state_id(&entry, &TestRegistry),
        TestRegistry.air_state()
    );
}

#[test]
fn resolves_known_biome() {
    assert_eq!(
        biome_name_to_id("minecraft:plains", &TestRegistry),
        TestRegistry.plains()
    );
    assert_eq!(biome_name_to_id("minecraft:desert", &TestRegistry), DESERT);
    assert_eq!(biome_name_to_id("desert", &TestRegistry), DESERT);
    assert_eq!(biome_name_to_id("modid:nowhere", &TestRegistry), PLAINS);
}

#[test]
fn decodes_uuid_int_array() {
    let uuid = Uuid::from_u128(0x0123_4567_89ab_cdef_fedc_ba98_7654_3210);
    let bytes = uuid.as_u128();
    let array = [
        (bytes >> 96) as u32 as i32,
        (bytes >> 64) as u32 as i32,
        (bytes >> 32) as u32 as i32,
        bytes as u32 as i32,
    ];
    assert_eq!(uuid_from_int_array(&array), Some(uuid));
    assert_eq!(uuid_from_int_array(&[0, 0, 0]), None);
}

#[test]
fn keeps_ids_apart() {
    assert_eq!(uuid_from_int_array(&[]), None);
    assert_eq!(uuid_from_int_array(&[1, 2, 3, 4, 5]), None);
    assert_eq!(
        uuid_from_int_array(&[-1, -1, -1, -1]),
        Some(Uuid::from_u128(u128::MAX))
    );
    assert_eq!(
        uuid_from_int_array(&[0, 0, 1, -1]),
        Some(Uuid::from_u128(0x1_ffff_ffff))
    );
    assert_ne!(
        uuid_from_int_array(&[0, 1, 0, 0]),
        uuid_from_int_array(&[1, 0, 0, 0])
    );
}

#[test]
fn an_empty_property_table_means_the_default_state() {
    let plain = entry("oak_stairs", Some(BTreeMap::new()));
    assert_eq!(palette_entry_to_state_id(&plain, &TestRegistry), STAIRS);
}

#[test]
fn strips_only_the_vanilla_namespace() {
    assert_eq!(strip_namespace("minecraft:stone"), "stone");
    assert_eq!(strip_namespace("stone"), "stone");
    assert_eq!(strip_namespace("minecraft:"), "");
    assert_eq!(strip_namespace("minecraft"), "minecraft");
    assert_eq!(strip_namespace("modid:minecraft:x"), "modid:minecraft:x");
    assert_eq!(strip_namespace("minecraft:minecraft:x"), "minecraft:x");
    assert_eq!(strip_namespace("minecraft:höhle"), "höhle");
    assert_eq!(strip_namespace(""), "");
}

#[test]
fn writes_entries_that_are_looked_up_again() {
    for id in [AIR, STONE, STAIRS, STAIRS + 1] {
        let entry = state_id_to_entry(id, &TestRegistry);
        assert!(entry.name.starts_with("minecraft:"));
        assert_eq!(palette_entry_to_state_id(&entry, &TestRegistry), id);
    }
    assert_eq!(state_id_to_entry(STONE, &TestRegistry).name, "minecraft:stone");
    // A block without properties is written without a table.
    assert_eq!(state_id_to_entry(STONE, &TestRegistry).properties, None);
    assert_eq!(
        state_id_to_entry(STAIRS + 1, &TestRegistry).properties,
        Some(facing("south"))
    );
}

#[test]
fn writes_biomes_by_name() {
    assert_eq!(biome_id_to_name(DESERT, &TestRegistry), "minecraft:desert");
    assert_eq!(biome_id_to_name(200, &TestRegistry), "minecraft:plains");
}

#[test]
fn parses_segments() {
    let first = |bytes: &[u8]| -> Option<u8> {
        if bytes[0] == 9 {
            None
        } else {
            Some(bytes[0])
        }
    };
    assert_eq!(parse_segment(&Bytes::new(), first).unwrap(), None);
    assert_eq!(
        parse_segment(&Bytes::from(vec![3, 4]), first).unwrap(),
        Some(3)
    );
    assert!(matches!(
        parse_segment(&Bytes::from(vec![9]), first),
        Err(SlimeError::Corrupt("invalid nbt segment"))
    ));
}

#[test]
fn takes_light_arrays_of_the_full_length_only() {
    let full = Some(Bytes::from(vec![3; 2048]));
    assert!(matches!(light_container(&full), LightContainer::Full(data) if data == vec![3; 2048]));
    for array in [None, Some(Bytes::from(vec![3; 2047])), Some(Bytes::new())] {
        assert!(matches!(light_container(&array), LightContainer::Empty(0)));
    }
}

#[test]
fn writes_the_light_of_full_containers_only() {
    let lights = vec![LightContainer::Full(vec![7; 2048]), LightContainer::Empty(15)];
    assert_eq!(light_bytes(&lights, 0), Some(Bytes::from(vec![7; 2048])));
    assert_eq!(light_bytes(&lights, 1), None);
    assert_eq!(light_bytes(&lights, 2), None);
}

#[test]
fn finds_the_lowest_layer() {
    assert_eq!(section_to_block(-4), -64);
    assert_eq!(section_to_block(0), 0);
    assert_eq!(section_to_block(20), 320);
    assert_eq!(section_to_block(i32::MAX), -16);
}

#[test]
fn places_block_entities() {
    let items = vec![
        tag_of("1 2 3 _ first"),
        tag_of("1 2 _ _ nowhere"),
        tag_of("-1 0 7 _ other"),
        tag_of("1 2 3 _ second"),
    ];
    let table = place_block_entities(items);
    assert_eq!(table.len(), 2);
    assert_eq!(table[&(1, 2, 3)], "1 2 3 _ second");
    assert_eq!(table[&(-1, 0, 7)], "-1 0 7 _ other");
}

#[test]
fn indexes_entities() {
    let items = vec![
        tag_of("_ _ _ 0,0,0,5 first"),
        tag_of("_ _ _ _ nobody"),
        tag_of("_ _ _ 1,2,3 short"),
        tag_of("_ _ _ -1,0,0,0 other"),
        tag_of("_ _ _ 0,0,0,5 second"),
    ];
    let table = index_entities(items);
    assert_eq!(table.len(), 2);
    assert_eq!(table[&5], "_ _ _ 0,0,0,5 second");
    assert_eq!(table[&(0xffff_ffff << 96)], "_ _ _ -1,0,0,0 other");
}

#[test]
fn converts_a_chunk() {
    let mut chunk = empty_chunk(4, -2);
    chunk.sections = vec![
        SlimeSection {
            block_light: Some(Bytes::from(vec![1; 2048])),
            sky_light: Some(Bytes::from(vec![1; 3])),
            block_states: Bytes::from(
                b"\x0adata 1,-2\nminecraft:stone\nmodid:gone\nminecraft:oak_stairs facing=south"
                    .to_vec(),
            ),
            biomes: Bytes::from(b"\x0adata\nminecraft:desert".to_vec()),
        },
        empty_section(),
    ];
    chunk.height_maps = Bytes::from(b"\x0adata 7".to_vec());
    chunk.block_entities = Bytes::from(b"\x0a1 2 3 _ chest".to_vec());
    let data = chunk_to_chunk_data(&chunk, -4, &TestCodec, &TestRegistry).unwrap();
    assert_eq!((data.x, data.z), (4, -2));
    assert_eq!(data.section.count, 2);
    assert_eq!(data.section.min_y, -64);
    let stone = data.section.block_sections[0].as_ref().unwrap();
    assert_eq!(stone.palette, vec![STONE, AIR, STAIRS + 1]);
    assert_eq!(stone.data, Some(vec![1, -2]));
    let desert = data.section.biome_sections[0].as_ref().unwrap();
    assert_eq!(desert.palette, vec![DESERT]);
    assert_eq!(desert.data, None);
    assert!(data.section.block_sections[1].is_none());
    assert!(data.section.biome_sections[1].is_none());
    assert!(matches!(&data.light_engine.block_light[0], LightContainer::Full(l) if l[0] == 1));
    assert!(matches!(data.light_engine.sky_light[0], LightContainer::Empty(0)));
    assert!(matches!(data.light_engine.block_light[1], LightContainer::Empty(0)));
    assert!(data.light_populated);
    assert_eq!(data.heightmap.world_surface, Some(vec![7]));
    assert_eq!(data.pending_block_entities[&(1, 2, 3)], "1 2 3 _ chest");
    assert_eq!(data.status, ChunkStatus::Full);
    assert!(data.dirty);
}

#[test]
fn converts_a_chunk_without_anything() {
    let data = chunk_to_chunk_data(&empty_chunk(0, 0), 0, &TestCodec, &TestRegistry).unwrap();
    assert_eq!(data.section.count, 0);
    assert!(!data.light_populated);
    assert_eq!(data.heightmap.world_surface, None);
    assert!(data.pending_block_entities.is_empty());
    let entities = chunk_to_entity_data(&empty_chunk(3, 4), &TestCodec).unwrap();
    assert_eq!((entities.x, entities.z), (3, 4));
    assert!(entities.data.is_empty());
    assert!(entities.dirty);
}

#[test]
fn light_is_populated_by_any_array() {
    // Even one of a length that is not taken over.
    let mut chunk = empty_chunk(0, 0);
    let mut lit = empty_section();
    lit.sky_light = Some(Bytes::from(vec![1]));
    chunk.sections = vec![empty_section(), lit, empty_section()];
    let data = chunk_to_chunk_data(&chunk, 0, &TestCodec, &TestRegistry).unwrap();
    assert!(data.light_populated);
}

#[test]
fn accepts_payloads_that_are_not_taken_over() {
    let mut chunk = empty_chunk(0, 0);
    chunk.entities = Bytes::from(b"\x0a_ _ _ 0,0,0,5 cow".to_vec());
    chunk.block_ticks = Bytes::from(vec![0x0a]);
    chunk.fluid_ticks = Bytes::from(vec![0x0a]);
    chunk.poi = Bytes::from(vec![0x0a]);
    assert!(chunk_to_chunk_data(&chunk, 0, &TestCodec, &TestRegistry).is_ok());
}

#[test]
fn rejects_malformed_payloads() {
    let bad = || Bytes::from(vec![1]);
    let mut states = empty_chunk(0, 0);
    let mut section = empty_section();
    section.block_states = bad();
    states.sections = vec![empty_section(), section];
    let mut biomes = empty_chunk(0, 0);
    let mut section = empty_section();
    section.biomes = bad();
    biomes.sections = vec![section];
    let mut height_maps = empty_chunk(0, 0);
    height_maps.height_maps = bad();
    let mut block_entities = empty_chunk(0, 0);
    block_entities.block_entities = bad();
    let mut block_ticks = empty_chunk(0, 0);
    block_ticks.block_ticks = bad();
    let mut fluid_ticks = empty_chunk(0, 0);
    fluid_ticks.fluid_ticks = bad();
    let mut poi = empty_chunk(0, 0);
    poi.poi = bad();
    for chunk in [
        states,
        biomes,
        height_maps,
        block_entities,
        block_ticks,
        fluid_ticks,
        poi,
    ] {
        assert!(matches!(
            chunk_to_chunk_data(&chunk, 0, &TestCodec, &TestRegistry),
            Err(SlimeError::Corrupt("invalid nbt segment"))
        ));
        assert!(chunk_to_entity_data(&chunk, &TestCodec).is_ok());
    }
    let mut entities = empty_chunk(0, 0);
    entities.entities = bad();
    assert!(matches!(
        chunk_to_chunk_data(&entities, 0, &TestCodec, &TestRegistry),
        Err(SlimeError::Corrupt("invalid nbt segment"))
    ));
    assert!(matches!(
        chunk_to_entity_data(&entities, &TestCodec),
        Err(SlimeError::Corrupt("invalid nbt segment"))
    ));
}

#[test]
fn round_trips_a_stone_chunk() {
    let stone_id = TestRegistry.default_state(&TestRegistry.block("stone").unwrap());

    // Build a one-section chunk holding only stone, via the read-side converter.
    let palette = vec![entry("minecraft:stone", None)];
    let mut slime_chunk = empty_chunk(4, -2);
    slime_chunk.sections = vec![SlimeSection {
        block_light: None,
        sky_light: None,
        block_states: Bytes::from(TestCodec.encode_block_states(&palette, &None)),
        biomes: Bytes::new(),
    }];
    let chunk_data =
        chunk_to_chunk_data(&slime_chunk, -4, &TestCodec, &TestRegistry).expect("convert");

    // Serialize the whole world, then read it back.
    let mut chunks = FxHashMap::default();
    chunks.insert((4, -2), snapshot(&chunk_data, &TestRegistry));
    let bytes = serialize_world(
        3700,
        &[],
        &chunks,
        &FxHashMap::default(),
        &TestCodec,
        &TestRegistry,
    );

    let world = read_slime_world(Bytes::from(bytes)).expect("read back");
    assert_eq!(world.world_version, 3700);
    assert_eq!(world.chunks.len(), 1);
    let chunk = &world.chunks[0];
    assert_eq!((chunk.x, chunk.z), (4, -2));

    // The single section must still resolve to stone.
    let restored =
        chunk_to_chunk_data(chunk, -4, &TestCodec, &TestRegistry).expect("convert back");
    assert_eq!(
        restored.section.block_sections[0]
            .as_ref()
            .unwrap()
            .palette
            .first()
            .copied(),
        Some(stone_id)
    );
}

#[test]
fn lists_the_entities_of_a_chunk() {
    assert!(entity_list(&FxHashMap::<u128, String>::default()).is_empty());
    let mut data = FxHashMap::default();
    for id in 0..20u128 {
        data.insert(id, format!("_ _ _ 0,0,0,{id} cow"));
    }
    let mut list = entity_list(&data);
    list.sort();
    let mut expected: Vec<String> = data.values().cloned().collect();
    expected.sort();
    assert_eq!(list, expected);
}

#[test]
fn loaded_entities_survive_a_save() {
    let mut chunk = empty_chunk(7, -1);
    chunk.entities =
        Bytes::from(b"\x0a_ _ _ 0,0,0,5 cow\n_ _ _ 0,0,0,6 pig\n_ _ _ 1,0,0,5 hen".to_vec());
    let loaded = chunk_to_entity_data(&chunk, &TestCodec).unwrap();
    assert_eq!(loaded.data.len(), 3);
    let mut entities = FxHashMap::default();
    entities.insert((7, -1), entity_list(&loaded.data));
    let bytes = serialize_world(
        1,
        &[],
        &FxHashMap::default(),
        &entities,
        &TestCodec,
        &TestRegistry,
    );
    let world = read_slime_world(Bytes::from(bytes)).unwrap();
    let again = chunk_to_entity_data(&world.chunks[0], &TestCodec).unwrap();
    assert_eq!((again.x, again.z), (7, -1));
    assert_eq!(again.data, loaded.data);
}

fn sample(seed: u8) -> ChunkSnapshot<String> {
    let mut block_entities = FxHashMap::default();
    for i in 0..3 {
        block_entities.insert((i, i32::from(seed), 0), format!("{i} {seed} 0 _ chest"));
    }
    ChunkSnapshot {
        block_sections: vec![
            blocks(vec![STONE, STAIRS + 1], Some(vec![i64::from(seed), -1])),
            blocks(vec![AIR], None),
        ],
        biome_sections: vec![biomes(vec![DESERT], None), biomes(vec![PLAINS, DESERT], Some(vec![5]))],
        light: ChunkLight {
            block_light: vec![LightContainer::Full(vec![seed; 2048]), LightContainer::Empty(3)],
            // The sky light of the second section is not known.
            sky_light: vec![LightContainer::Empty(15)],
        },
        heightmap: ChunkHeightmaps {
            world_surface: Some(vec![i64::from(seed)]),
            motion_blocking: None,
            motion_blocking_no_leaves: None,
        },
        pending_block_entities: block_entities,
    }
}

#[test]
fn saves_and_loads_a_world() {
    let mut chunks = FxHashMap::default();
    chunks.insert((0, 0), sample(1));
    chunks.insert((-5, 9), sample(2));
    let mut entities = FxHashMap::default();
    entities.insert((-5, 9), vec!["_ _ _ 0,0,0,7 cow".to_string()]);
    entities.insert((100, 100), vec!["_ _ _ 0,0,0,8 pig".to_string()]);
    let bytes = serialize_world(
        3953,
        &[0x0a, 1, 2],
        &chunks,
        &entities,
        &TestCodec,
        &TestRegistry,
    );
    let (loaded, skipped) = read_world(bytes, -4, &TestCodec, &TestRegistry).unwrap();
    assert!(skipped.is_empty());
    assert_eq!(loaded.world_version, 3953);
    assert_eq!(loaded.extra.as_ref(), &[0x0a, 1, 2]);
    assert_eq!(loaded.chunks.len(), 3);
    for (coord, seed) in [((0, 0), 1u8), ((-5, 9), 2)] {
        let before = sample(seed);
        let data = &loaded.chunks[&coord];
        assert_eq!((data.x, data.z), coord);
        assert_eq!(data.section.count, 2);
        assert_eq!(data.section.min_y, -64);
        for i in 0..2 {
            let section = data.section.block_sections[i].as_ref().unwrap();
            assert_eq!(section.palette, before.block_sections[i].palette);
            assert_eq!(section.data, before.block_sections[i].data);
            let section = data.section.biome_sections[i].as_ref().unwrap();
            assert_eq!(section.palette, before.biome_sections[i].palette);
            assert_eq!(section.data, before.biome_sections[i].data);
        }
        let light = &data.light_engine;
        assert!(matches!(&light.block_light[0], LightContainer::Full(l) if *l == vec![seed; 2048]));
        assert!(matches!(light.block_light[1], LightContainer::Empty(0)));
        assert!(matches!(light.sky_light[0], LightContainer::Empty(0)));
        assert!(matches!(light.sky_light[1], LightContainer::Empty(0)));
        assert_eq!(data.heightmap.world_surface, Some(vec![i64::from(seed)]));
        assert_eq!(data.pending_block_entities, before.pending_block_entities);
    }
    // A chunk of which only the entities are known has no section.
    let bare = &loaded.chunks[&(100, 100)];
    assert_eq!(bare.section.count, 0);
    assert!(bare.pending_block_entities.is_empty());
    assert_eq!(loaded.entities.len(), 3);
    assert!(loaded.entities[&(0, 0)].data.is_empty());
    assert_eq!(loaded.entities[&(-5, 9)].data[&7], "_ _ _ 0,0,0,7 cow");
    assert_eq!(loaded.entities[&(100, 100)].data[&8], "_ _ _ 0,0,0,8 pig");
}

#[test]
fn saves_default_sections_as_air_in_plains() {
    let mut chunk = empty_chunk(4, -2);
    chunk.sections = vec![
        empty_section(),
        SlimeSection {
            block_light: Some(Bytes::from(vec![9; 2048])),
            sky_light: None,
            block_states: Bytes::from(b"\x0adata 1,-2\nminecraft:stone".to_vec()),
            biomes: Bytes::from(b"\x0adata 3\nminecraft:desert".to_vec()),
        },
    ];
    chunk.height_maps = Bytes::from(b"\x0adata 7".to_vec());
    chunk.block_entities = Bytes::from(b"\x0a1 2 3 _ chest".to_vec());
    let data = chunk_to_chunk_data(&chunk, -4, &TestCodec, &TestRegistry).unwrap();
    let saved = snapshot(&data, &TestRegistry);
    assert_eq!(saved.block_sections[0].palette, vec![AIR]);
    assert_eq!(saved.block_sections[0].data, None);
    assert_eq!(saved.biome_sections[0].palette, vec![PLAINS]);
    assert_eq!(saved.block_sections[1].palette, vec![STONE]);
    assert_eq!(saved.block_sections[1].data, Some(vec![1, -2]));
    assert_eq!(saved.biome_sections[1].palette, vec![DESERT]);
    assert_eq!(saved.biome_sections[1].data, Some(vec![3]));
    assert!(matches!(&saved.light.block_light[1], LightContainer::Full(l) if *l == vec![9; 2048]));
    assert!(matches!(saved.light.sky_light[1], LightContainer::Empty(0)));
    assert_eq!(saved.heightmap.world_surface, Some(vec![7]));
    assert_eq!(saved.pending_block_entities, data.pending_block_entities);

    // Saved and loaded again, the chunk is the same.
    let second = encode_chunk((4, -2), Some(&saved), None, &TestCodec, &TestRegistry);
    let again = chunk_to_chunk_data(&second, -4, &TestCodec, &TestRegistry).unwrap();
    let stone = again.section.block_sections[1].as_ref().unwrap();
    assert_eq!(stone.palette, vec![STONE]);
    assert_eq!(stone.data, Some(vec![1, -2]));
    let air = again.section.block_sections[0].as_ref().unwrap();
    assert_eq!(air.palette, vec![AIR]);
    assert!(matches!(&again.light_engine.block_light[1], LightContainer::Full(l) if l[0] == 9));
    assert_eq!(again.pending_block_entities, data.pending_block_entities);
}

#[test]
fn an_unknown_biome_is_loaded_as_plains() {
    let mut before = sample(1);
    before.biome_sections[0].palette = vec![200, DESERT];
    let chunk = encode_chunk((0, 0), Some(&before), None, &TestCodec, &TestRegistry);
    let data = chunk_to_chunk_data(&chunk, 0, &TestCodec, &TestRegistry).unwrap();
    let restored = data.section.biome_sections[0].as_ref().unwrap();
    assert_eq!(restored.palette, vec![PLAINS, DESERT]);
}

#[test]
fn encodes_a_chunk_of_entities_alone() {
    let list = vec!["a".to_string(), "b".to_string()];
    let chunk = encode_chunk((1, -1), None, Some(&list), &TestCodec, &TestRegistry);
    assert_eq!((chunk.x, chunk.z), (1, -1));
    assert!(chunk.sections.is_empty());
    assert_eq!(chunk.height_maps.as_ref(), &[0x0a, 0, 0, 0]);
    assert_eq!(chunk.block_entities.as_ref(), &[0x0a]);
    assert_eq!(chunk.entities.as_ref(), b"\x0aa\nb");
    let without = encode_chunk((0, 0), None, None, &TestCodec, &TestRegistry);
    assert_eq!(without.entities.as_ref(), &[0x0a]);
}

#[test]
fn encodes_the_blocks_of_a_chunk() {
    let before = sample(6);
    let chunk = encode_chunk((1, 2), Some(&before), None, &TestCodec, &TestRegistry);
    assert_eq!(chunk.sections.len(), 2);
    assert_eq!(
        chunk.sections[0].block_states.as_ref(),
        b"\x0adata 6,-1\nminecraft:stone\nminecraft:oak_stairs facing=south"
    );
    assert_eq!(
        chunk.sections[1].biomes.as_ref(),
        b"\x0adata 5\nminecraft:plains\nminecraft:desert"
    );
    assert_eq!(chunk.sections[0].block_light, Some(Bytes::from(vec![6; 2048])));
    assert_eq!(chunk.sections[0].sky_light, None);
    assert_eq!(chunk.height_maps.as_ref(), b"\x0adata 6");
    assert!(chunk.poi.is_empty());
}

#[test]
fn leaves_out_what_cannot_be_converted() {
    let mut good = empty_chunk(1, 1);
    good.height_maps = Bytes::from(b"\x0adata 4".to_vec());
    let mut bad_blocks = empty_chunk(2, 2);
    bad_blocks.height_maps = Bytes::from(vec![1]);
    let mut bad_entities = empty_chunk(3, 3);
    bad_entities.entities = Bytes::from(vec![1]);
    let mut bad_again = empty_chunk(1, 1);
    bad_again.height_maps = Bytes::from(vec![1]);
    let world = SlimeWorld {
        world_version: 7,
        flags: 0,
        chunks: vec![good, bad_blocks, bad_entities, bad_again],
        extra: Bytes::from(vec![9]),
    };
    let (loaded, skipped) = import_world(world, 0, &TestCodec, &TestRegistry);
    assert_eq!(loaded.world_version, 7);
    assert_eq!(loaded.extra.as_ref(), &[9]);
    assert_eq!(loaded.chunks.len(), 1);
    assert_eq!(loaded.chunks[&(1, 1)].heightmap.world_surface, Some(vec![4]));
    assert_eq!(loaded.entities.len(), 2);
    assert!(!loaded.entities.contains_key(&(3, 3)));
    let left_out: Vec<(i32, i32, ChunkPart)> =
        skipped.iter().map(|s| (s.x, s.z, s.part)).collect();
    assert_eq!(
        left_out,
        vec![
            (2, 2, ChunkPart::Blocks),
            (3, 3, ChunkPart::Blocks),
            (3, 3, ChunkPart::Entities),
            (1, 1, ChunkPart::Blocks)
        ]
    );
    for item in &skipped {
        assert!(matches!(
            item.error,
            SlimeError::Corrupt("invalid nbt segment")
        ));
    }
}

#[test]
fn the_last_chunk_of_a_coordinate_counts() {
    let mut first = empty_chunk(1, 1);
    first.height_maps = Bytes::from(b"\x0adata 1".to_vec());
    let mut second = empty_chunk(1, 1);
    second.height_maps = Bytes::from(b"\x0adata 2".to_vec());
    let world = SlimeWorld {
        world_version: 7,
        flags: 0,
        chunks: vec![first, second],
        extra: Bytes::new(),
    };
    let (loaded, _) = import_world(world, 0, &TestCodec, &TestRegistry);
    assert_eq!(loaded.chunks.len(), 1);
    assert_eq!(loaded.chunks[&(1, 1)].heightmap.world_surface, Some(vec![2]));
}

#[test]
fn reports_a_file_that_is_no_world() {
    assert!(matches!(
        read_world(vec![1, 2, 3], 0, &TestCodec, &TestRegistry),
        Err(SlimeError::BadMagic)
    ));
}

#[test]
fn stores_and_finds_chunks() {
    let mut store: SlimeWorldStore<&str, &str> = SlimeWorldStore::new(None, 4189);
    assert_eq!(store.world_version, 4189);
    assert!(store.extra.is_empty());
    assert_eq!(store.get_chunk(&(0, 0)), None);
    store.store_chunks(vec![((0, 0), "a"), ((1, 0), "b"), ((0, 0), "c")]);
    store.store_entities(vec![((0, 0), "cow")]);
    assert_eq!(store.get_chunk(&(0, 0)), Some(&"c"));
    assert_eq!(store.get_chunk(&(1, 0)), Some(&"b"));
    assert_eq!(store.get_chunk(&(0, 1)), None);
    assert_eq!(store.get_entity(&(0, 0)), Some(&"cow"));
    assert_eq!(store.get_entity(&(1, 0)), None);
    store.store_chunks(vec![((1, 0), "d")]);
    assert_eq!(store.get_chunk(&(0, 0)), Some(&"c"));
    assert_eq!(store.get_chunk(&(1, 0)), Some(&"d"));
    assert_eq!(store.chunks.len(), 2);
    assert!(matches!(store.fetch_chunk((1, 0)), LoadedData::Loaded(&"d")));
    assert!(matches!(store.fetch_chunk((9, 8)), LoadedData::Missing((9, 8))));
    assert!(matches!(store.fetch_entity((0, 0)), LoadedData::Loaded(&"cow")));
    assert!(matches!(store.fetch_entity((1, 0)), LoadedData::Missing((1, 0))));
}

#[test]
fn keeps_what_was_loaded() {
    let mut chunks = FxHashMap::default();
    chunks.insert((1, 2), 'x');
    let loaded = LoadedWorld {
        world_version: 11,
        extra: Bytes::from(vec![1]),
        chunks,
        entities: FxHashMap::<(i32, i32), char>::default(),
    };
    let store = SlimeWorldStore::new(Some(loaded), 4189);
    assert_eq!(store.world_version, 11);
    assert_eq!(store.extra.as_ref(), &[1]);
    assert_eq!(store.get_chunk(&(1, 2)), Some(&'x'));
    assert_eq!(store.get_entity(&(1, 2)), None);
}

#[test]
fn finds_the_first_slime_file() {
    assert_eq!(DEFAULT_SLIME_NAME, "world.slime");
    for extension in ["slime", "SLIME", "sLiMe"] {
        assert!(is_slime_extension(extension));
    }
    for extension in ["", "slim", "slimes", "slimé", "zlime", "s1ime"] {
        assert!(!is_slime_extension(extension));
    }
    let some = |text: &str| Some(text.to_string());
    assert_eq!(
        find_slime(&vec![None, some("txt"), some("Slime"), some("slime")]),
        Some(2)
    );
    assert_eq!(find_slime(&vec![some("mca"), None]), None);
    assert_eq!(find_slime(&Vec::new()), None);
}

#[test]
fn converts_no_height_map_to_none() {
    let chunk = encode_chunk(
        (0, 0),
        Some(&ChunkSnapshot {
            block_sections: Vec::new(),
            biome_sections: Vec::new(),
            light: ChunkLight {
                block_light: Vec::new(),
                sky_light: Vec::new(),
            },
            heightmap: no_height_maps(),
            pending_block_entities: FxHashMap::default(),
        }),
        None,
        &TestCodec,
        &TestRegistry,
    );
    let data = chunk_to_chunk_data(&chunk, 0, &TestCodec, &TestRegistry).unwrap();
    assert_eq!(data.heightmap.world_surface, None);
    assert_eq!(data.heightmap.motion_blocking, None);
    assert_eq!(data.heightmap.motion_blocking_no_leaves, None);
}
