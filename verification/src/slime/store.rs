//! The in-memory state of a loaded SlimeWorld.
//!
//! A `.slime` file holds an entire world, but a server has two backends for it,
//! one for block data and one for entities. Both share one [`SlimeWorldStore`],
//! so that a save from either side can serialize the complete world.

use super::buffer;
use super::chunk::{ChunkData, ChunkEntityData};
use super::convert;
use super::error::SlimeError;
use super::layout;
use super::model::{self, SlimeWorld};
use super::reader::read_slime_world;
use super::services::{self, NbtCodec, Registry};
use super::tables;
use bytes::Bytes;
use rustc_hash::FxHashMap;
use vstd::prelude::*;

verus! {

/// Filename used when a world is persisted but had no source `.slime` file.
pub const DEFAULT_SLIME_NAME: &'static str = "world.slime";

/// Whether a file name extension is `slime`, in upper or lower case.
pub open spec fn is_slime(extension: Seq<char>) -> bool {
    &&& extension.len() == 5
    &&& extension[0] == 's' || extension[0] == 'S'
    &&& extension[1] == 'l' || extension[1] == 'L'
    &&& extension[2] == 'i' || extension[2] == 'I'
    &&& extension[3] == 'm' || extension[3] == 'M'
    &&& extension[4] == 'e' || extension[4] == 'E'
}

fn is_letter(name: &str, at: usize, lower: char, upper: char) -> (r: bool)
    requires
        at < name@.len(),
    ensures
        r == (name@[at as int] == lower || name@[at as int] == upper),
{
    let c = name.get_char(at);
    c == lower || c == upper
}

/// Whether a file name extension is that of a SlimeWorld file.
pub fn is_slime_extension(extension: &str) -> (r: bool)
    ensures
        r == is_slime(extension@),
{
    extension.unicode_len() == 5 && is_letter(extension, 0, 's', 'S') && is_letter(
        extension,
        1,
        'l',
        'L',
    ) && is_letter(extension, 2, 'i', 'I') && is_letter(extension, 3, 'm', 'M') && is_letter(
        extension,
        4,
        'e',
        'E',
    )
}

/// Whether a directory entry with this file name extension is a SlimeWorld file.
pub open spec fn names_slime(extension: Option<String>) -> bool {
    extension matches Some(text) && is_slime(text@)
}

/// Find the first SlimeWorld file among directory entries, given by their file
/// name extensions.
pub fn find_slime(extensions: &Vec<Option<String>>) -> (r: Option<usize>)
    ensures
        r matches Some(i) ==> i < extensions@.len() && names_slime(extensions@[i as int])
            && forall|j: int| 0 <= j < i ==> !names_slime(#[trigger] extensions@[j]),
        r is None ==> forall|j: int|
            0 <= j < extensions@.len() ==> !names_slime(#[trigger] extensions@[j]),
{
    let mut i: usize = 0;
    while i < extensions.len()
        invariant
            i <= extensions@.len(),
            forall|j: int| 0 <= j < i ==> !names_slime(#[trigger] extensions@[j]),
        decreases extensions.len() - i,
    {
        if let Some(text) = &extensions[i] {
            if is_slime_extension(text.as_str()) {
                return Some(i);
            }
        }
        i = i + 1;
    }
    None
}

/// A world as it was loaded: `C` stands for the blocks of a chunk, `E` for its
/// entities.
#[derive(Debug)]
pub struct LoadedWorld<C, E> {
    /// Vanilla `DataVersion` of the world.
    pub world_version: i32,
    /// The world "extra" compound.
    pub extra: Bytes,
    pub chunks: FxHashMap<(i32, i32), C>,
    pub entities: FxHashMap<(i32, i32), E>,
}

/// Which part of a chunk could not be converted.
#[derive(Clone, Copy, Debug, PartialEq, Eq, Structural)]
pub enum ChunkPart {
    Blocks,
    Entities,
}

/// A part of a chunk that was left out, and why.
#[derive(Debug)]
pub struct Skipped {
    pub x: i32,
    pub z: i32,
    pub part: ChunkPart,
    pub error: SlimeError,
}

/// The blocks by coordinate: those of every chunk that could be converted, the
/// last of those with the same coordinates.
pub open spec fn gathered<T>(chunks: Seq<model::ChunkView>, results: Seq<Option<T>>) -> Map<
    (i32, i32),
    T,
>
    decreases chunks.len(),
{
    if chunks.len() == 0 {
        Map::empty()
    } else {
        let before = gathered(chunks.drop_last(), results.drop_last());
        match results.last() {
            Some(data) => before.insert((chunks.last().x, chunks.last().z), data),
            None => before,
        }
    }
}

/// The blocks of a chunk were converted to `result`, or rejected.
pub open spec fn blocks_outcome<N: NbtCodec, R: Registry>(
    codec: &N,
    registry: &R,
    chunk: model::ChunkView,
    min_section_y: i32,
    result: Option<ChunkData<N::Compound>>,
) -> bool {
    match result {
        Some(data) => convert::chunk_imported(codec, registry, chunk, min_section_y, data),
        None => convert::chunk_rejected(codec, chunk),
    }
}

/// The entities of a chunk were converted to `result`, or rejected.
pub open spec fn entities_outcome<N: NbtCodec>(
    codec: &N,
    chunk: model::ChunkView,
    result: Option<ChunkEntityData<N::Compound>>,
) -> bool {
    match result {
        Some(data) => convert::entities_imported(codec, chunk, data),
        None => chunk.entities.len() > 0 && services::reads_compounds(codec, chunk.entities, None),
    }
}

/// `blocks` and `entities` are what the chunks of a world were converted to.
pub open spec fn chunks_outcome<N: NbtCodec, R: Registry>(
    codec: &N,
    registry: &R,
    chunks: Seq<model::ChunkView>,
    min_section_y: i32,
    blocks: Seq<Option<ChunkData<N::Compound>>>,
    entities: Seq<Option<ChunkEntityData<N::Compound>>>,
) -> bool {
    &&& blocks.len() == chunks.len()
    &&& entities.len() == chunks.len()
    &&& forall|i: int|
        0 <= i < chunks.len() ==> blocks_outcome(
            codec,
            registry,
            #[trigger] chunks[i],
            min_section_y,
            blocks[i],
        ) && entities_outcome(codec, chunks[i], entities[i])
}

/// What was left out of each chunk, in order.
pub open spec fn left_out<A, B>(
    chunks: Seq<model::ChunkView>,
    blocks: Seq<Option<A>>,
    entities: Seq<Option<B>>,
) -> Seq<(i32, i32, ChunkPart)>
    decreases chunks.len(),
{
    if chunks.len() == 0 {
        Seq::empty()
    } else {
        let before = left_out(chunks.drop_last(), blocks.drop_last(), entities.drop_last());
        let x = chunks.last().x;
        let z = chunks.last().z;
        let with_blocks = if blocks.last() is None {
            before.push((x, z, ChunkPart::Blocks))
        } else {
            before
        };
        if entities.last() is None {
            with_blocks.push((x, z, ChunkPart::Entities))
        } else {
            with_blocks
        }
    }
}

/// The places and parts of a list of what was left out.
pub open spec fn skipped_view(skipped: Seq<Skipped>) -> Seq<(i32, i32, ChunkPart)> {
    Seq::new(skipped.len(), |i: int| (skipped[i].x, skipped[i].z, skipped[i].part))
}

/// `loaded` is what a world was converted to, and `skipped` is what was left
/// out of it.
pub open spec fn world_imported<N: NbtCodec, R: Registry>(
    codec: &N,
    registry: &R,
    world: model::WorldView,
    min_section_y: i32,
    loaded: LoadedWorld<ChunkData<N::Compound>, ChunkEntityData<N::Compound>>,
    skipped: Seq<Skipped>,
) -> bool {
    &&& loaded.world_version == world.world_version
    &&& buffer::bytes_seq(loaded.extra) == world.extra
    &&& exists|
        blocks: Seq<Option<ChunkData<N::Compound>>>,
        entities: Seq<Option<ChunkEntityData<N::Compound>>>,
    |
        {
            &&& #[trigger] chunks_outcome(
                codec,
                registry,
                world.chunks,
                min_section_y,
                blocks,
                entities,
            )
            &&& loaded.chunks@ == gathered(world.chunks, blocks)
            &&& loaded.entities@ == gathered(world.chunks, entities)
            &&& skipped_view(skipped) == left_out(world.chunks, blocks, entities)
        }
    &&& forall|i: int|
        0 <= i < skipped.len() ==> (#[trigger] skipped[i]).error@ == convert::invalid_segment()
}

/// Convert every chunk of a world. A part of a chunk whose payload is malformed
/// is left out.
pub fn import_world<N: NbtCodec, R: Registry>(
    world: SlimeWorld,
    min_section_y: i32,
    codec: &N,
    registry: &R,
) -> (r: (LoadedWorld<ChunkData<N::Compound>, ChunkEntityData<N::Compound>>, Vec<Skipped>))
    ensures
        world_imported(codec, registry, world@, min_section_y, r.0, r.1@),
{
    let mut chunks: FxHashMap<(i32, i32), ChunkData<N::Compound>> = FxHashMap::default();
    let mut entities: FxHashMap<(i32, i32), ChunkEntityData<N::Compound>> = FxHashMap::default();
    let mut skipped: Vec<Skipped> = Vec::new();
    let ghost all = world@.chunks;
    let ghost mut blocks_so_far: Seq<Option<ChunkData<N::Compound>>> = Seq::empty();
    let ghost mut entities_so_far: Seq<Option<ChunkEntityData<N::Compound>>> = Seq::empty();
    let mut i: usize = 0;
    assert(skipped_view(skipped@) =~= Seq::empty());
    while i < world.chunks.len()
        invariant
            i <= world.chunks@.len(),
            all == world@.chunks,
            chunks_outcome(
                codec,
                registry,
                all.take(i as int),
                min_section_y,
                blocks_so_far,
                entities_so_far,
            ),
            chunks@ == gathered(all.take(i as int), blocks_so_far),
            entities@ == gathered(all.take(i as int), entities_so_far),
            skipped_view(skipped@) == left_out(
                all.take(i as int),
                blocks_so_far,
                entities_so_far,
            ),
            forall|j: int|
                0 <= j < skipped@.len() ==> (#[trigger] skipped@[j]).error@
                    == convert::invalid_segment(),
        decreases world.chunks.len() - i,
    {
        let chunk = &world.chunks[i];
        let coord = (chunk.x, chunk.z);
        let ghost before = all.take(i as int);
        let ghost after = all.take(i + 1);
        let ghost old_blocks = blocks_so_far;
        let ghost old_entities = entities_so_far;
        let ghost old_skipped = skipped@;
        assert(chunk@ == all[i as int]);
        assert(after =~= before.push(chunk@));
        assert(after.drop_last() =~= before);
        match convert::chunk_to_chunk_data(chunk, min_section_y, codec, registry) {
            Ok(data) => {
                proof {
                    blocks_so_far = blocks_so_far.push(Some(data));
                }
                tables::insert(&mut chunks, coord, data);
            },
            Err(error) => {
                proof {
                    blocks_so_far = blocks_so_far.push(None);
                }
                skipped.push(
                    Skipped { x: chunk.x, z: chunk.z, part: ChunkPart::Blocks, error },
                );
                assert(skipped_view(skipped@) =~= skipped_view(old_skipped).push(
                    (chunk.x, chunk.z, ChunkPart::Blocks),
                ));
            },
        }
        assert(blocks_so_far.drop_last() =~= old_blocks);
        let ghost mid_skipped = skipped@;
        match convert::chunk_to_entity_data(chunk, codec) {
            Ok(data) => {
                proof {
                    entities_so_far = entities_so_far.push(Some(data));
                }
                tables::insert(&mut entities, coord, data);
            },
            Err(error) => {
                proof {
                    entities_so_far = entities_so_far.push(None);
                }
                skipped.push(
                    Skipped { x: chunk.x, z: chunk.z, part: ChunkPart::Entities, error },
                );
                assert(skipped_view(skipped@) =~= skipped_view(mid_skipped).push(
                    (chunk.x, chunk.z, ChunkPart::Entities),
                ));
            },
        }
        assert(entities_so_far.drop_last() =~= old_entities);
        proof {
            assert forall|j: int| 0 <= j < after.len() implies blocks_outcome(
                codec,
                registry,
                #[trigger] after[j],
                min_section_y,
                blocks_so_far[j],
            ) && entities_outcome(codec, after[j], entities_so_far[j]) by {
                if j < i {
                    assert(after[j] == before[j]);
                    assert(blocks_so_far[j] == old_blocks[j]);
                    assert(entities_so_far[j] == old_entities[j]);
                }
            }
        }
        i = i + 1;
    }
    assert(all.take(i as int) =~= all);
    let loaded = LoadedWorld {
        world_version: world.world_version,
        extra: world.extra,
        chunks,
        entities,
    };
    (loaded, skipped)
}

/// What a chunk of the file was converted to is found under its coordinates,
/// unless a later chunk with the same coordinates was converted as well.
pub proof fn law_converted_is_found<T>(
    chunks: Seq<model::ChunkView>,
    results: Seq<Option<T>>,
    i: int,
)
    requires
        chunks.len() == results.len(),
        0 <= i < chunks.len(),
        results[i] is Some,
        forall|j: int|
            i < j < chunks.len() && (#[trigger] results[j]) is Some ==> (chunks[j].x, chunks[j].z)
                != (chunks[i].x, chunks[i].z),
    ensures
        gathered(chunks, results).contains_key((chunks[i].x, chunks[i].z)),
        results[i] == Some(gathered(chunks, results)[(chunks[i].x, chunks[i].z)]),
    decreases chunks.len(),
{
    if i < chunks.len() - 1 {
        let shorter = results.drop_last();
        assert(results[results.len() - 1] == results.last());
        assert forall|j: int| i < j < shorter.len() && (#[trigger] shorter[j]) is Some implies (
        chunks.drop_last()[j].x, chunks.drop_last()[j].z) != (
            chunks.drop_last()[i].x,
            chunks.drop_last()[i].z,
        ) by {
            assert(shorter[j] == results[j]);
        }
        law_converted_is_found(chunks.drop_last(), shorter, i);
    }
}

/// A world that is loaded has chunks only where the file has some.
pub proof fn law_nothing_else_is_found<T>(
    chunks: Seq<model::ChunkView>,
    results: Seq<Option<T>>,
    coord: (i32, i32),
)
    requires
        chunks.len() == results.len(),
        gathered(chunks, results).contains_key(coord),
    ensures
        exists|i: int|
            0 <= i < chunks.len() && (#[trigger] chunks[i].x, chunks[i].z) == coord && results[i]
                == Some(gathered(chunks, results)[coord]),
    decreases chunks.len(),
{
    let n = chunks.len() - 1;
    if results.last() is Some && (chunks.last().x, chunks.last().z) == coord {
        assert((chunks[n].x, chunks[n].z) == coord);
    } else {
        law_nothing_else_is_found(chunks.drop_last(), results.drop_last(), coord);
        let i = choose|i: int|
            0 <= i < chunks.drop_last().len() && (
            #[trigger] chunks.drop_last()[i].x, chunks.drop_last()[i].z) == coord
                && results.drop_last()[i] == Some(
                gathered(chunks.drop_last(), results.drop_last())[coord],
            );
        assert((chunks[i].x, chunks[i].z) == coord);
    }
}

/// Read a `.slime` file and convert every chunk of it.
///
/// # Errors
///
/// Returns [`SlimeError`] if the file cannot be read as a world.
pub fn read_world<N: NbtCodec, R: Registry>(
    bytes: Vec<u8>,
    min_section_y: i32,
    codec: &N,
    registry: &R,
) -> (r: Result<
    (LoadedWorld<ChunkData<N::Compound>, ChunkEntityData<N::Compound>>, Vec<Skipped>),
    SlimeError,
>)
    ensures
        match (layout::parse_world(bytes@), r) {
            (Ok(world), Ok((loaded, skipped))) => world_imported(
                codec,
                registry,
                world,
                min_section_y,
                loaded,
                skipped@,
            ),
            (Err(failure), Err(e)) => e@ == failure,
            _ => false,
        },
{
    let world = read_slime_world(buffer::from_vec(bytes))?;
    Ok(import_world(world, min_section_y, codec, registry))
}

/// The whole loaded SlimeWorld, shared between the chunk and entity backends.
#[derive(Debug)]
pub struct SlimeWorldStore<C, E> {
    /// Vanilla `DataVersion`, preserved across save.
    pub world_version: i32,
    /// The world "extra" compound, preserved verbatim.
    pub extra: Bytes,
    pub chunks: FxHashMap<(i32, i32), C>,
    pub entities: FxHashMap<(i32, i32), E>,
}

/// The answer to a request for a chunk.
#[derive(Debug)]
pub enum LoadedData<T> {
    /// The chunk is in the world.
    Loaded(T),
    /// The world has no chunk at these coordinates.
    Missing((i32, i32)),
}

/// What a table holds after some values were stored in it, one by one.
pub open spec fn stored<T>(table: Map<(i32, i32), T>, data: Seq<((i32, i32), T)>) -> Map<
    (i32, i32),
    T,
>
    decreases data.len(),
{
    if data.len() == 0 {
        table
    } else {
        stored(table, data.drop_last()).insert(data.last().0, data.last().1)
    }
}

fn store_all<T>(table: &mut FxHashMap<(i32, i32), T>, data: Vec<((i32, i32), T)>)
    ensures
        final(table)@ == stored(old(table)@, data@),
{
    let ghost before = table@;
    let ghost all = data@;
    assert(all.take(0) =~= Seq::empty());
    for item in it: data
        invariant
            it.seq() == all,
            table@ == stored(before, all.take(it.index())),
    {
        proof {
            assert(all.take(it.index() + 1).drop_last() =~= all.take(it.index()));
            assert(all.take(it.index() + 1).last() == item);
        }
        let (coord, value) = item;
        tables::insert(table, coord, value);
    }
    assert(all.take(all.len() as int) =~= all);
}

impl<C, E> SlimeWorldStore<C, E> {
    /// The store of a world that was loaded, or of an empty world of the version
    /// `default_version`.
    pub fn new(loaded: Option<LoadedWorld<C, E>>, default_version: i32) -> (store: Self)
        ensures
            match loaded {
                Some(world) => store == (SlimeWorldStore {
                    world_version: world.world_version,
                    extra: world.extra,
                    chunks: world.chunks,
                    entities: world.entities,
                }),
                None => {
                    &&& store.world_version == default_version
                    &&& buffer::bytes_seq(store.extra) == Seq::<u8>::empty()
                    &&& store.chunks@ == Map::<(i32, i32), C>::empty()
                    &&& store.entities@ == Map::<(i32, i32), E>::empty()
                },
            },
    {
        match loaded {
            Some(world) => SlimeWorldStore {
                world_version: world.world_version,
                extra: world.extra,
                chunks: world.chunks,
                entities: world.entities,
            },
            None => SlimeWorldStore {
                world_version: default_version,
                extra: Bytes::new(),
                chunks: FxHashMap::default(),
                entities: FxHashMap::default(),
            },
        }
    }

    /// The blocks of a chunk.
    pub fn get_chunk(&self, coord: &(i32, i32)) -> (r: Option<&C>)
        ensures
            r matches Some(chunk) ==> self.chunks@.contains_key(*coord) && *chunk
                == self.chunks@[*coord],
            r is None ==> !self.chunks@.contains_key(*coord),
    {
        tables::get(&self.chunks, coord)
    }

    /// The entities of a chunk.
    pub fn get_entity(&self, coord: &(i32, i32)) -> (r: Option<&E>)
        ensures
            r matches Some(chunk) ==> self.entities@.contains_key(*coord) && *chunk
                == self.entities@[*coord],
            r is None ==> !self.entities@.contains_key(*coord),
    {
        tables::get(&self.entities, coord)
    }

    /// The answer to a request for the blocks of a chunk.
    pub fn fetch_chunk(&self, coord: (i32, i32)) -> (r: LoadedData<&C>)
        ensures
            r == (if self.chunks@.contains_key(coord) {
                LoadedData::Loaded(&self.chunks@[coord])
            } else {
                LoadedData::Missing(coord)
            }),
    {
        match self.get_chunk(&coord) {
            Some(chunk) => LoadedData::Loaded(chunk),
            None => LoadedData::Missing(coord),
        }
    }

    /// The answer to a request for the entities of a chunk.
    pub fn fetch_entity(&self, coord: (i32, i32)) -> (r: LoadedData<&E>)
        ensures
            r == (if self.entities@.contains_key(coord) {
                LoadedData::Loaded(&self.entities@[coord])
            } else {
                LoadedData::Missing(coord)
            }),
    {
        match self.get_entity(&coord) {
            Some(chunk) => LoadedData::Loaded(chunk),
            None => LoadedData::Missing(coord),
        }
    }

    /// Store the blocks of some chunks.
    pub fn store_chunks(&mut self, data: Vec<((i32, i32), C)>)
        ensures
            final(self).chunks@ == stored(old(self).chunks@, data@),
            final(self).entities == old(self).entities,
            final(self).world_version == old(self).world_version,
            final(self).extra == old(self).extra,
    {
        store_all(&mut self.chunks, data);
    }

    /// Store the entities of some chunks.
    pub fn store_entities(&mut self, data: Vec<((i32, i32), E)>)
        ensures
            final(self).entities@ == stored(old(self).entities@, data@),
            final(self).chunks == old(self).chunks,
            final(self).world_version == old(self).world_version,
            final(self).extra == old(self).extra,
    {
        store_all(&mut self.entities, data);
    }
}

/// A value that was stored is found, unless a later one was stored at the same
/// coordinates.
pub proof fn law_stored_is_found<T>(
    table: Map<(i32, i32), T>,
    data: Seq<((i32, i32), T)>,
    i: int,
)
    requires
        0 <= i < data.len(),
        forall|j: int| i < j < data.len() ==> (#[trigger] data[j]).0 != data[i].0,
    ensures
        stored(table, data).contains_key(data[i].0),
        stored(table, data)[data[i].0] == data[i].1,
    decreases data.len(),
{
    if i < data.len() - 1 {
        let shorter = data.drop_last();
        assert(data[data.len() - 1].0 != data[i].0);
        assert(shorter[i] == data[i]);
        assert forall|j: int| i < j < shorter.len() implies (#[trigger] shorter[j]).0
            != shorter[i].0 by {
            assert(shorter[j] == data[j]);
        }
        law_stored_is_found(table, shorter, i);
    }
}

/// Storing leaves what is at other coordinates as it was.
pub proof fn law_others_stay<T>(
    table: Map<(i32, i32), T>,
    data: Seq<((i32, i32), T)>,
    coord: (i32, i32),
)
    requires
        forall|j: int| 0 <= j < data.len() ==> (#[trigger] data[j]).0 != coord,
    ensures
        stored(table, data).contains_key(coord) == table.contains_key(coord),
        table.contains_key(coord) ==> stored(table, data)[coord] == table[coord],
    decreases data.len(),
{
    if data.len() > 0 {
        let shorter = data.drop_last();
        assert(data[data.len() - 1].0 != coord);
        assert forall|j: int| 0 <= j < shorter.len() implies (#[trigger] shorter[j]).0
            != coord by {
            assert(shorter[j] == data[j]);
        }
        law_others_stay(table, shorter, coord);
    }
}

/// Storing the values of two lists one list after the other is storing those of
/// the lists together.
pub proof fn law_stores_add_up<T>(
    table: Map<(i32, i32), T>,
    first: Seq<((i32, i32), T)>,
    second: Seq<((i32, i32), T)>,
)
    ensures
        stored(stored(table, first), second) == stored(table, first + second),
    decreases second.len(),
{
    if second.len() == 0 {
        assert(first + second =~= first);
    } else {
        assert((first + second).drop_last() =~= first + second.drop_last());
        law_stores_add_up(table, first, second.drop_last());
    }
}

/// An extension is that of a SlimeWorld file exactly where it is the word `slime`
/// once its upper case letters are made lower case.
pub proof fn law_slime_in_any_case(extension: Seq<char>)
    ensures
        is_slime(extension) <==> extension.len() == "slime"@.len() && forall|i: int|
            0 <= i < extension.len() ==> (#[trigger] extension[i] == "slime"@[i] || extension[i]
                as int + 32 == "slime"@[i] as int),
{
    reveal_strlit("slime");
    assert('s' as int == 'S' as int + 32 && 'l' as int == 'L' as int + 32 && 'i' as int == 'I'
        as int + 32 && 'm' as int == 'M' as int + 32 && 'e' as int == 'E' as int + 32);
    if extension.len() == 5 {
        let word = "slime"@;
        if forall|i: int|
            0 <= i < extension.len() ==> (#[trigger] extension[i] == word[i] || extension[i] as int
                + 32 == word[i] as int) {
            assert(extension[0] == word[0] || extension[0] as int + 32 == word[0] as int);
            assert(extension[1] == word[1] || extension[1] as int + 32 == word[1] as int);
            assert(extension[2] == word[2] || extension[2] as int + 32 == word[2] as int);
            assert(extension[3] == word[3] || extension[3] as int + 32 == word[3] as int);
            assert(extension[4] == word[4] || extension[4] as int + 32 == word[4] as int);
        }
    }
}

/// What is left out of a row of chunks is what is left out of its front and then
/// what is left out of its end.
pub proof fn law_left_out_in_order<A, B>(
    chunks: Seq<model::ChunkView>,
    blocks: Seq<Option<A>>,
    entities: Seq<Option<B>>,
    n: int,
)
    requires
        blocks.len() == chunks.len(),
        entities.len() == chunks.len(),
        0 <= n <= chunks.len(),
    ensures
        left_out(chunks, blocks, entities) == left_out(
            chunks.take(n),
            blocks.take(n),
            entities.take(n),
        ) + left_out(chunks.skip(n), blocks.skip(n), entities.skip(n)),
    decreases chunks.len(),
{
    let front = left_out(chunks.take(n), blocks.take(n), entities.take(n));
    if n == chunks.len() {
        assert(chunks.take(n) =~= chunks);
        assert(blocks.take(n) =~= blocks);
        assert(entities.take(n) =~= entities);
        assert(left_out(chunks.skip(n), blocks.skip(n), entities.skip(n)) =~= Seq::empty());
    } else {
        law_left_out_in_order(chunks.drop_last(), blocks.drop_last(), entities.drop_last(), n);
        assert(chunks.drop_last().take(n) =~= chunks.take(n));
        assert(blocks.drop_last().take(n) =~= blocks.take(n));
        assert(entities.drop_last().take(n) =~= entities.take(n));
        assert(chunks.drop_last().skip(n) =~= chunks.skip(n).drop_last());
        assert(blocks.drop_last().skip(n) =~= blocks.skip(n).drop_last());
        assert(entities.drop_last().skip(n) =~= entities.skip(n).drop_last());
        let end = left_out(chunks.skip(n), blocks.skip(n), entities.skip(n));
        assert(left_out(chunks, blocks, entities) =~= front + end);
    }
}

/// What is left out of one chunk: its blocks where they could not be converted,
/// and then its entities where those could not.
pub proof fn law_left_out_of_a_chunk<A, B>(
    chunk: model::ChunkView,
    blocks: Option<A>,
    entities: Option<B>,
)
    ensures
        left_out(seq![chunk], seq![blocks], seq![entities]) == match (blocks, entities) {
            (Some(_), Some(_)) => Seq::empty(),
            (None, Some(_)) => seq![(chunk.x, chunk.z, ChunkPart::Blocks)],
            (Some(_), None) => seq![(chunk.x, chunk.z, ChunkPart::Entities)],
            (None, None) => seq![
                (chunk.x, chunk.z, ChunkPart::Blocks),
                (chunk.x, chunk.z, ChunkPart::Entities),
            ],
        },
{
    reveal_with_fuel(left_out, 2);
    assert(seq![chunk].drop_last() =~= Seq::empty());
    let all = left_out(seq![chunk], seq![blocks], seq![entities]);
    match (blocks, entities) {
        (Some(_), Some(_)) => {
            assert(all =~= Seq::empty());
        },
        (None, Some(_)) => {
            assert(all =~= seq![(chunk.x, chunk.z, ChunkPart::Blocks)]);
        },
        (Some(_), None) => {
            assert(all =~= seq![(chunk.x, chunk.z, ChunkPart::Entities)]);
        },
        (None, None) => {
            assert(all =~= seq![
                (chunk.x, chunk.z, ChunkPart::Blocks),
                (chunk.x, chunk.z, ChunkPart::Entities),
            ]);
        },
    }
}

/// A loaded world has the version and the "extra" of the file. Each chunk of the
/// file is converted or refused on its own, its blocks and its entities apart; what
/// was converted is in the tables, and what was refused is reported, as corrupt.
pub proof fn law_loaded_world<N: NbtCodec, R: Registry>(
    codec: &N,
    registry: &R,
    world: model::WorldView,
    min_section_y: i32,
    loaded: LoadedWorld<ChunkData<N::Compound>, ChunkEntityData<N::Compound>>,
    skipped: Seq<Skipped>,
) -> (r: (Seq<Option<ChunkData<N::Compound>>>, Seq<Option<ChunkEntityData<N::Compound>>>))
    requires
        world_imported(codec, registry, world, min_section_y, loaded, skipped),
    ensures
        loaded.world_version == world.world_version,
        buffer::bytes_seq(loaded.extra) == world.extra,
        r.0.len() == world.chunks.len(),
        r.1.len() == world.chunks.len(),
        forall|i: int|
            0 <= i < world.chunks.len() ==> match #[trigger] r.0[i] {
                Some(data) => convert::chunk_imported(
                    codec,
                    registry,
                    world.chunks[i],
                    min_section_y,
                    data,
                ),
                None => convert::chunk_rejected(codec, world.chunks[i]),
            },
        forall|i: int|
            0 <= i < world.chunks.len() ==> match #[trigger] r.1[i] {
                Some(data) => convert::entities_imported(codec, world.chunks[i], data),
                None => world.chunks[i].entities.len() > 0 && services::reads_compounds(
                    codec,
                    world.chunks[i].entities,
                    None,
                ),
            },
        loaded.chunks@ == gathered(world.chunks, r.0),
        loaded.entities@ == gathered(world.chunks, r.1),
        skipped.len() == left_out(world.chunks, r.0, r.1).len(),
        forall|i: int|
            0 <= i < skipped.len() ==> {
                &&& (#[trigger] skipped[i]).x == left_out(world.chunks, r.0, r.1)[i].0
                &&& skipped[i].z == left_out(world.chunks, r.0, r.1)[i].1
                &&& skipped[i].part == left_out(world.chunks, r.0, r.1)[i].2
                &&& skipped[i].error matches SlimeError::Corrupt(what) && what@
                    == "invalid nbt segment"@
            },
{
    let r = choose|
        blocks: Seq<Option<ChunkData<N::Compound>>>,
        entities: Seq<Option<ChunkEntityData<N::Compound>>>,
    |
        {
            &&& #[trigger] chunks_outcome(
                codec,
                registry,
                world.chunks,
                min_section_y,
                blocks,
                entities,
            )
            &&& loaded.chunks@ == gathered(world.chunks, blocks)
            &&& loaded.entities@ == gathered(world.chunks, entities)
            &&& skipped_view(skipped) == left_out(world.chunks, blocks, entities)
        };
    assert forall|i: int| 0 <= i < world.chunks.len() implies match #[trigger] r.0[i] {
        Some(data) => convert::chunk_imported(
            codec,
            registry,
            world.chunks[i],
            min_section_y,
            data,
        ),
        None => convert::chunk_rejected(codec, world.chunks[i]),
    } by {
        assert(blocks_outcome(codec, registry, world.chunks[i], min_section_y, r.0[i]));
    }
    assert forall|i: int| 0 <= i < world.chunks.len() implies match #[trigger] r.1[i] {
        Some(data) => convert::entities_imported(codec, world.chunks[i], data),
        None => world.chunks[i].entities.len() > 0 && services::reads_compounds(
            codec,
            world.chunks[i].entities,
            None,
        ),
    } by {
        assert(blocks_outcome(codec, registry, world.chunks[i], min_section_y, r.0[i]));
    }
    assert forall|i: int| 0 <= i < skipped.len() implies {
        &&& (#[trigger] skipped[i]).x == left_out(world.chunks, r.0, r.1)[i].0
        &&& skipped[i].z == left_out(world.chunks, r.0, r.1)[i].1
        &&& skipped[i].part == left_out(world.chunks, r.0, r.1)[i].2
        &&& skipped[i].error matches SlimeError::Corrupt(what) && what@ == "invalid nbt segment"@
    } by {
        assert(skipped_view(skipped)[i] == (skipped[i].x, skipped[i].z, skipped[i].part));
        assert(skipped[i].error@ == convert::invalid_segment());
    }
    r
}

/// A directory entry is a SlimeWorld file if it has an extension and that is
/// `slime`.
pub proof fn law_slime_needs_an_extension(extension: Option<String>)
    ensures
        extension is None ==> !names_slime(extension),
        extension matches Some(text) ==> names_slime(extension) == is_slime(text@),
{
}

} // verus!
