//! Change record codec: a `(row, col, value)` triple packed into one `u32`,
//! `row` in the top 16 bits, `col` in the next 8, `value` in the bottom 8.

use vstd::prelude::*;

verus! {

/// Packed form of one change record.
pub open spec fn pack_record(row: u32, col: u32, value: u8) -> u32 {
    ((row << 16) | (col << 8)) | (value as u32)
}

/// Row field of a packed record.
pub open spec fn unpack_row(packed: u32) -> u32 {
    (packed >> 16) & 0xFFFF
}

/// Column field of a packed record.
pub open spec fn unpack_col(packed: u32) -> u32 {
    (packed >> 8) & 0xFF
}

/// Value field of a packed record.
pub open spec fn unpack_value(packed: u32) -> u32 {
    packed & 0xFF
}

/// Pack a `(row, col, value)` triple into one `u32`. Fields beyond 16/8/8
/// bits are truncated into the neighbouring fields; callers bounds-check
/// row and column before packing.
pub fn pack_change(row: u32, col: u32, value: u8) -> (r: u32)
    ensures
        r == pack_record(row, col, value),
{
    ((row << 16) | (col << 8)) | (value as u32)
}

/// Unpack a packed change record into `[row, col, value]`.
pub fn unpack_change(packed: u32) -> (r: Vec<u32>)
    ensures
        r@ == seq![unpack_row(packed), unpack_col(packed), unpack_value(packed)],
{
    let mut v: Vec<u32> = Vec::new();
    v.push((packed >> 16) & 0xFFFF);
    v.push((packed >> 8) & 0xFF);
    v.push(packed & 0xFF);
    assert(v@ =~= seq![unpack_row(packed), unpack_col(packed), unpack_value(packed)]);
    v
}

/// Law: unpacking a packed record returns the original triple whenever the
/// row fits in 16 bits and the column in 8.
pub proof fn lemma_pack_unpack(row: u32, col: u32, value: u8)
    requires
        row < 0x10000,
        col < 0x100,
    ensures
        unpack_row(pack_record(row, col, value)) == row,
        unpack_col(pack_record(row, col, value)) == col,
        unpack_value(pack_record(row, col, value)) == value as u32,
{
    assert((((((row << 16) | (col << 8)) | (value as u32)) >> 16) & 0xFFFF) == row) by (bit_vector)
        requires
            row < 0x10000,
            col < 0x100,
    ;
    assert((((((row << 16) | (col << 8)) | (value as u32)) >> 8) & 0xFF) == col) by (bit_vector)
        requires
            row < 0x10000,
            col < 0x100,
    ;
    assert(((((row << 16) | (col << 8)) | (value as u32)) & 0xFF) == value as u32) by (bit_vector)
        requires
            row < 0x10000,
            col < 0x100,
    ;
}

} // verus!
