//! Decoder and differ for a server-defined binary/hexadecimal encoding of a
//! rectangular tile grid.
//!
//! The library translates per-cell server bitfields (or their two-character
//! hexadecimal text form) into normalized tile codes, maps a server update
//! window onto absolute grid coordinates, and emits the minimal set of packed
//! change records relative to a known grid state — or applies them in place.

pub mod codec;
pub mod engine;
pub mod model;
pub mod tile;
pub mod window;

pub use codec::{pack_change, unpack_change};
pub use engine::{
    process_binary_chunk, process_binary_tiles, process_hex_tiles, process_hex_tiles_inplace,
};
pub use tile::{decode_hex_pair, hex_value, server_byte_to_tile};
