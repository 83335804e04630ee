# pumpkin-formats

Two binary formats of a Minecraft server, written in Verus and proved:

- the RakNet acknowledgement packet of the Bedrock protocol (`acknowledge`);
- the SlimeWorld container, format version 13, which keeps a whole world in one
  file (`slime`).

## Layout

| Path | What it holds |
| --- | --- |
| `src/acknowledge/` | the packet: `layout` says what its bytes mean, `laws` what holds of it |
| `src/joining.rs` | lemmas on concatenation, for both formats |
| `src/slime/layout.rs`, `encoding.rs` | what the bytes of a file mean, read and written |
| `src/slime/reader.rs`, `writer.rs` | the container: bytes to `SlimeWorld` and back |
| `src/slime/convert.rs`, `export.rs` | `SlimeChunk` to the server's chunks and back |
| `src/slime/store.rs` | a loaded world in memory |
| `src/slime/services.rs` | the traits a server implements: its NBT codec and its registries |
| `src/slime/laws.rs`, `prefixes.rs`, `round_trip.rs` | what holds of files and of saved worlds |
| `src/slime/buffer.rs`, `zstd.rs`, `tables.rs`, `ids.rs` | the outside crates: `bytes`, `ruzstd`, `rustc-hash`, `uuid` |
| `app/` | files, locks, channels, and the server's own NBT and registry crates |

## What is assumed

The contracts of the functions marked `external_body` and of the
`assume_specification` items: they stand in the last four modules above, next to
one for sorting in `acknowledge` and one for the text of an I/O error in
`slime/error.rs`. Nothing is assumed of an implementation of the two service
traits; the laws of `round_trip` name what they need of one.

What the zstd compressor makes of a payload is decoded again before it is
written; a payload that does not come back is stored uncompressed
(`zstd::keep_or_store`). The compressor is not assumed to make frames that decode.
Compressor and decoder are assumed to depend on their input alone, and not to
panic; `ruzstd` before 0.9 panics on a block that expands to more than 4 GiB,
which later versions refuse.
