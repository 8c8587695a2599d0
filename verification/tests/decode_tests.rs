//! Exhaustive checks of the per-cell decoders and the record codec.

use tilegrid::{decode_hex_pair, hex_value, pack_change, server_byte_to_tile, unpack_change};

/// The documented precedence table, written out independently.
fn expected_tile(byte: u8) -> u8 {
    let opened = byte & 0x80 != 0;
    let mine = byte & 0x40 != 0;
    let flag = byte & 0x20 != 0;
    let color = (byte >> 3) & 0x03;
    let number = byte & 0x07;
    if opened && mine {
        0x08
    } else if opened {
        number
    } else if flag {
        0x20 | (color << 1)
    } else {
        0x10
    }
}

#[test]
fn interpret_matches_precedence_table_exhaustively() {
    for b in 0..=255u8 {
        assert_eq!(server_byte_to_tile(b), expected_tile(b), "byte {b:#04x}");
    }
}

#[test]
fn interpret_never_returns_sentinel() {
    for b in 0..=255u8 {
        assert_ne!(server_byte_to_tile(b), 0xFF);
    }
}

#[test]
fn hex_value_decodes_all_digits() {
    let digits = b"0123456789";
    for (i, c) in digits.iter().enumerate() {
        assert_eq!(hex_value(*c), i as u8);
    }
    let upper = b"ABCDEF";
    let lower = b"abcdef";
    for i in 0..6 {
        assert_eq!(hex_value(upper[i]), 10 + i as u8);
        assert_eq!(hex_value(lower[i]), 10 + i as u8);
    }
}

#[test]
fn hex_value_rejects_everything_else() {
    for c in 0..=255u8 {
        let is_digit =
            c.is_ascii_digit() || (b'A'..=b'F').contains(&c) || (b'a'..=b'f').contains(&c);
        if !is_digit {
            assert_eq!(hex_value(c), 0xFF, "char {c:#04x}");
        }
    }
}

#[test]
fn decode_hex_pair_matches_interpret_exhaustively() {
    for c0 in 0..=255u8 {
        for c1 in 0..=255u8 {
            let n0 = hex_value(c0);
            let n1 = hex_value(c1);
            let expected = if n0 != 0xFF && n1 != 0xFF {
                server_byte_to_tile((n0 << 4) | n1)
            } else {
                0xFF
            };
            assert_eq!(decode_hex_pair(c0, c1), expected, "pair {c0:#04x} {c1:#04x}");
        }
    }
}

#[test]
fn pack_unpack_round_trip() {
    let rows = [0u32, 1, 2, 127, 255, 256, 1000, 32768, 65535];
    let cols = [0u32, 1, 2, 127, 128, 200, 255];
    let values = [0u8, 1, 8, 0x10, 0x11, 0x23, 0x27, 0xFE];
    for &r in &rows {
        for &c in &cols {
            for &v in &values {
                let packed = pack_change(r, c, v);
                let triple = unpack_change(packed);
                assert_eq!(triple, vec![r, c, v as u32]);
            }
        }
    }
}

#[test]
fn pack_formula_exact_value() {
    assert_eq!(pack_change(0, 0, 0), 0);
    assert_eq!(pack_change(0, 1, 0x23), 0x0123);
    assert_eq!(pack_change(3, 0, 0x00), 0x0003_0000);
    assert_eq!(pack_change(65535, 255, 0xFF), 0xFFFF_FFFF);
}

#[test]
fn unpack_change_splits_fields() {
    assert_eq!(unpack_change(0x0102_0304), vec![0x0102, 0x03, 0x04]);
    assert_eq!(unpack_change(0), vec![0, 0, 0]);
}
