//! Per-cell decoding: ASCII hex digits and the server bitfield byte.
//!
//! Tile codes stored in the grid:
//! - `0x00..=0x07`: opened, value = adjacent mine count;
//! - `0x08`: opened bomb;
//! - `0x10..=0x11`: closed, low bit = checkerboard parity;
//! - `0x20 | (color << 1)` plus an optional low parity bit: flagged;
//! - `0xFF`: sentinel for "no valid data", never stored.

use vstd::prelude::*;

verus! {

/// Hexadecimal value (0..=15) of one ASCII character, `0xFF` if it is not a
/// digit of `0-9A-Fa-f`.
pub open spec fn hex_nibble(c: u8) -> u8 {
    if 0x30 <= c && c <= 0x39 {
        (c - 0x30) as u8
    } else if 0x41 <= c && c <= 0x46 {
        (c - 0x41 + 10) as u8
    } else if 0x61 <= c && c <= 0x66 {
        (c - 0x61 + 10) as u8
    } else {
        0xFF
    }
}

/// Normalized tile code for one server bitfield byte, parity bit left at 0.
///
/// Server layout: bit 7 opened, bit 6 mine, bit 5 flagged, bits 4-3 flag
/// color, bits 2-0 adjacent-mine count. Precedence: opened+mine -> bomb;
/// opened -> count; flagged -> flag with color; otherwise closed.
pub open spec fn interpret(b: u8) -> u8 {
    if b & 0x80 != 0 {
        if b & 0x40 != 0 {
            0x08
        } else {
            b & 0x07
        }
    } else if b & 0x20 != 0 {
        0x20 | (((b >> 3) & 0x03) << 1)
    } else {
        0x10
    }
}

/// Tile code recovered from two ASCII characters forming one hex-encoded
/// server byte, or `0xFF` when either character is not a hex digit.
pub open spec fn decode_pair(c0: u8, c1: u8) -> u8 {
    if hex_nibble(c0) != 0xFF && hex_nibble(c1) != 0xFF {
        interpret((hex_nibble(c0) << 4) | hex_nibble(c1))
    } else {
        0xFF
    }
}

/// Every server byte maps to a real tile code: the sentinel is never produced.
pub proof fn lemma_interpret_not_sentinel(b: u8)
    ensures
        interpret(b) != 0xFF,
{
    assert(b & 0x07 < 0x08) by (bit_vector);
    assert(0x20u8 | (((b >> 3) & 0x03) << 1) < 0x28) by (bit_vector);
}

/// Hexadecimal value of one ASCII character code, `0xFF` for anything that is
/// not a hex digit.
pub fn hex_value(c: u8) -> (r: u8)
    ensures
        r == hex_nibble(c),
{
    if 0x30 <= c && c <= 0x39 {
        c - 0x30
    } else if 0x41 <= c && c <= 0x46 {
        c - 0x41 + 10
    } else if 0x61 <= c && c <= 0x66 {
        c - 0x61 + 10
    } else {
        0xFF
    }
}

/// Normalize one raw server byte into a tile code (parity bit still 0).
pub fn server_byte_to_tile(byte: u8) -> (r: u8)
    ensures
        r == interpret(byte),
{
    let is_opened = byte & 0x80 != 0;
    let is_mine = byte & 0x40 != 0;
    let is_flag = byte & 0x20 != 0;
    let color = (byte >> 3) & 0x03;
    let number = byte & 0x07;
    if is_opened {
        if is_mine {
            0x08
        } else {
            number
        }
    } else if is_flag {
        0x20 | (color << 1)
    } else {
        0x10
    }
}

/// Decode two hex characters into a tile code; `0xFF` marks an invalid pair.
pub fn decode_hex_pair(c0: u8, c1: u8) -> (r: u8)
    ensures
        r == decode_pair(c0, c1),
{
    let n0 = hex_value(c0);
    let n1 = hex_value(c1);
    if n0 == 0xFF || n1 == 0xFF {
        0xFF
    } else {
        server_byte_to_tile((n0 << 4) | n1)
    }
}

} // verus!
