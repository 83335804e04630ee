//! SlimeWorld (`.slime`) world format support, AdvancedSlimePaper version 13.
//!
//! A `.slime` file packs an entire (typically small) world into one file with
//! two zstd-compressed payloads, and is loaded wholesale into memory.

use vstd::prelude::*;

pub mod buffer;
pub mod chunk;
pub mod convert;
pub mod encoding;
pub mod error;
pub mod export;
pub mod ids;
pub mod laws;
pub mod layout;
pub mod model;
pub mod prefixes;
pub mod reader;
pub mod round_trip;
pub mod services;
pub mod store;
pub mod tables;
pub mod writer;
pub mod zstd;

pub use error::SlimeError;
pub use model::{SlimeChunk, SlimeSection, SlimeWorld};
pub use reader::read_slime_world;

verus! {

/// First two bytes of every SlimeWorld file.
pub const SLIME_MAGIC: [u8; 2] = [0xB1, 0x0B];

/// The only SlimeWorld format version supported.
pub const SLIME_VERSION: u8 = 13;

/// Length in bytes of a section light nibble array (16×16×16 / 2).
pub const LIGHT_ARRAY_SIZE: usize = 2048;

/// World flag: every chunk carries a POI segment.
pub const FLAG_POI: u8 = 1;

/// World flag: every chunk carries a block tick segment.
pub const FLAG_BLOCK_TICKS: u8 = 2;

/// World flag: every chunk carries a fluid tick segment.
pub const FLAG_FLUID_TICKS: u8 = 4;

/// The world flags whose segments this library reads.
pub const KNOWN_FLAGS: u8 = 7;

} // verus!
