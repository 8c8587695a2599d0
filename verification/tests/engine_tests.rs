//! Scenario and equivalence tests for the diff engine.

use tilegrid::{
    process_binary_chunk, process_binary_tiles, process_hex_tiles, process_hex_tiles_inplace,
    server_byte_to_tile,
};

/// A w x h grid fully closed with checkerboard parity, as the client stores it.
fn closed_grid(w: usize, h: usize) -> Vec<u8> {
    let mut grid = vec![0u8; w * h];
    for r in 0..h {
        for c in 0..w {
            grid[r * w + c] = 0x10 | (((r + c) & 1) as u8);
        }
    }
    grid
}

/// Hex text for a sequence of server bytes, two uppercase digits per byte.
fn to_hex(bytes: &[u8]) -> Vec<u8> {
    let mut out = Vec::new();
    for b in bytes {
        out.extend_from_slice(format!("{b:02X}").as_bytes());
    }
    out
}

/// Apply packed change records to a copy of a grid, as a client would.
fn apply_records(records: &[u32], grid: &mut [u8], width: usize) {
    for rec in records {
        let row = ((rec >> 16) & 0xFFFF) as usize;
        let col = ((rec >> 8) & 0xFF) as usize;
        let val = (rec & 0xFF) as u8;
        let idx = row * width + col;
        if idx < grid.len() {
            grid[idx] = val;
        }
    }
}

#[test]
fn full_refresh_two_cells_change() {
    // 4x4 grid fully closed; full-grid refresh decodes an opened "0" at
    // (0,0) and a flag of color 1 at (0,1); everything else stays closed.
    let grid = closed_grid(4, 4);
    // window rows are inverted: window row i maps to absolute row 3 - i,
    // so absolute row 0 is the last payload row
    let mut server = vec![0u8; 16];
    server[12] = 0x80; // opened, 0 adjacent mines -> (0,0)
    server[13] = 0x28; // flagged, color 1 -> (0,1)
    let payload = to_hex(&server);
    let changes = process_hex_tiles(&payload, &grid, 4, 4, 3, 0, 0, 3, 0, 0, true);
    assert_eq!(changes.len(), 2);
    assert_eq!(changes[0], 0x0000_0000); // pack(0, 0, 0x00)
    assert_eq!(changes[1], 0x0000_0123); // pack(0, 1, 0x22 | parity 1)
}

#[test]
fn truncated_payload_skips_missing_cells() {
    // Only the first window cell has payload data; every position beyond
    // the payload produces no change and no error.
    let grid = closed_grid(4, 4);
    let payload = b"80".to_vec(); // one cell: window (0,0) -> absolute (3,0)
    let changes = process_hex_tiles(&payload, &grid, 4, 4, 3, 0, 0, 3, 0, 0, true);
    assert_eq!(changes, vec![0x0003_0000]); // pack(3, 0, 0x00)
}

#[test]
fn malformed_hex_pairs_are_skipped() {
    let grid = closed_grid(4, 4);
    let mut server = vec![0u8; 16];
    server[12] = 0x80;
    let mut payload = to_hex(&server);
    payload[24] = b'Z'; // corrupt the pair for window cell 12
    let changes = process_hex_tiles(&payload, &grid, 4, 4, 3, 0, 0, 3, 0, 0, true);
    assert_eq!(changes, Vec::<u32>::new());
}

#[test]
fn partial_update_offset_shifts_columns() {
    // Same window bounds, grid all opened-5 so every visible cell changes:
    // a partial update with reference x = 0 shifts columns by
    // start_x - ref_x - 1 relative to the full refresh.
    let grid = vec![0x05u8; 16];
    let server = vec![0x80u8; 16];
    let payload = to_hex(&server);
    let all = process_hex_tiles(&payload, &grid, 4, 4, 5, 0, 2, 3, 0, 0, true);
    let partial = process_hex_tiles(&payload, &grid, 4, 4, 5, 0, 2, 3, 0, 0, false);
    // full refresh: x_offset 0, columns 0..4 in each of 4 rows
    let all_cols: Vec<u32> = all.iter().map(|r| (r >> 8) & 0xFF).collect();
    assert_eq!(all.len(), 16);
    assert_eq!(&all_cols[0..4], &[0, 1, 2, 3]);
    // partial update: x_offset = 2 - 0 - 1 = 1, columns shifted to 1..4
    // and the window column that would land at column 4 is clamped away
    let part_cols: Vec<u32> = partial.iter().map(|r| (r >> 8) & 0xFF).collect();
    assert_eq!(partial.len(), 12);
    assert_eq!(&part_cols[0..3], &[1, 2, 3]);
}

#[test]
fn snapshot_and_inplace_modes_agree() {
    let grid = closed_grid(4, 4);
    let mut server = vec![0u8; 16];
    server[0] = 0x80; // opened 0
    server[1] = 0x83; // opened 3
    server[5] = 0xC0; // bomb
    server[6] = 0x38; // flag color 3
    server[12] = 0x80;
    server[15] = 0x07; // closed (opened bit clear): stays closed
    let payload = to_hex(&server);
    let changes = process_hex_tiles(&payload, &grid, 4, 4, 3, 0, 0, 3, 1, 0, true);
    let mut replayed = grid.clone();
    apply_records(&changes, &mut replayed, 4);
    let mut inplace = grid.clone();
    let count = process_hex_tiles_inplace(&payload, &mut inplace, 4, 4, 3, 0, 0, 3, 1, 0, true);
    assert_eq!(inplace, replayed);
    assert_eq!(count, changes.len() as u64);
}

#[test]
fn second_identical_update_changes_nothing() {
    let grid = closed_grid(4, 4);
    let mut server = vec![0u8; 16];
    server[3] = 0x81;
    server[7] = 0xC0;
    server[9] = 0x28;
    let payload = to_hex(&server);
    let mut buf = grid.clone();
    let first = process_hex_tiles_inplace(&payload, &mut buf, 4, 4, 3, 0, 0, 3, 0, 0, true);
    assert!(first > 0);
    let after_first = buf.clone();
    let second = process_hex_tiles_inplace(&payload, &mut buf, 4, 4, 3, 0, 0, 3, 0, 0, true);
    assert_eq!(second, 0);
    assert_eq!(buf, after_first);
    // a snapshot diff against the updated grid is empty too
    let diff = process_hex_tiles(&payload, &buf, 4, 4, 3, 0, 0, 3, 0, 0, true);
    assert_eq!(diff, Vec::<u32>::new());
}

#[test]
fn binary_and_hex_payloads_agree() {
    // One 20-cell row: the first 16 cells qualify for the batch path, the
    // rest fall back to the scalar path; both must match the hex scan.
    let grid = vec![0x10u8; 20];
    let mut server = vec![0u8; 20];
    for (i, b) in server.iter_mut().enumerate() {
        *b = match i % 5 {
            0 => 0x80,
            1 => 0xC5,
            2 => 0x2F,
            3 => 0x00,
            _ => 0x86,
        };
    }
    let hex_payload = to_hex(&server);
    let from_hex = process_hex_tiles(&hex_payload, &grid, 20, 1, 19, 0, 0, 0, 0, 0, true);
    let from_bin = process_binary_tiles(&server, &grid, 20, 1, 19, 0, 0, 0, 0, 0, true);
    assert_eq!(from_bin, from_hex);
    assert!(!from_bin.is_empty());
}

#[test]
fn binary_chunk_matches_scalar_decision_table() {
    let mut bin = vec![0u8; 16];
    for (i, b) in bin.iter_mut().enumerate() {
        *b = (i as u8) * 17; // a spread of server bitfields
    }
    let existing = vec![0x10u8; 16];
    let row = 2u32;
    let col0 = 3u32;
    let base_checker = 1u8;
    let mut changes = Vec::new();
    process_binary_chunk(&bin, 0, &existing, 0, row, col0, base_checker, &mut changes);
    let mut expected = Vec::new();
    for l in 0..16u32 {
        let raw = server_byte_to_tile(bin[l as usize]);
        let parity = ((base_checker as u32 + l) & 1) as u8;
        let value = if raw >= 0x10 { raw | parity } else { raw };
        if existing[l as usize] != value {
            expected.push((row << 16) | ((col0 + l) << 8) | (value as u32));
        }
    }
    assert_eq!(changes, expected);
}

#[test]
fn binary_chunk_emits_nothing_when_equal() {
    let bin = vec![0x00u8; 16]; // closed cells
    let mut existing = vec![0u8; 16];
    for (l, e) in existing.iter_mut().enumerate() {
        *e = 0x10 | ((l as u8) & 1); // already closed with matching parity
    }
    let mut changes = Vec::new();
    process_binary_chunk(&bin, 0, &existing, 0, 0, 0, 0, &mut changes);
    assert_eq!(changes, Vec::<u32>::new());
}

#[test]
fn short_snapshot_buffer_falls_back_to_scalar() {
    // the snapshot buffer is shorter than one 16-cell batch needs, so the
    // batch preconditions fail and the scalar path handles every cell
    let grid = vec![0x10u8; 10];
    let server = vec![0x80u8; 20];
    let hex_payload = to_hex(&server);
    let from_hex = process_hex_tiles(&hex_payload, &grid, 20, 1, 19, 0, 0, 0, 0, 0, true);
    let from_bin = process_binary_tiles(&server, &grid, 20, 1, 19, 0, 0, 0, 0, 0, true);
    assert_eq!(from_bin, from_hex);
    assert_eq!(from_bin.len(), 10);
}

#[test]
fn short_grid_buffer_limits_inplace_writes() {
    let mut buf = vec![0x10u8; 10];
    let payload = to_hex(&[0x80u8; 20]);
    let count = process_hex_tiles_inplace(&payload, &mut buf, 20, 1, 19, 0, 0, 0, 0, 0, true);
    assert_eq!(count, 10);
    assert_eq!(buf, vec![0x00u8; 10]);
}

#[test]
fn negative_server_coordinates_map_into_grid() {
    let grid = closed_grid(4, 4);
    let mut server = vec![0u8; 16];
    server[12] = 0x80; // window (3,0) -> absolute (0,0)
    let payload = to_hex(&server);
    let changes = process_hex_tiles(&payload, &grid, 4, 4, -2, -5, -5, -2, -5, -5, true);
    assert_eq!(changes, vec![0x0000_0000]);
}

#[test]
fn zero_width_grid_yields_no_changes() {
    let payload = to_hex(&[0x80u8; 16]);
    let changes = process_hex_tiles(&payload, &[], 0, 4, 3, 0, 0, 3, 0, 0, true);
    assert_eq!(changes, Vec::<u32>::new());
}

#[test]
fn empty_window_yields_no_changes() {
    // start_x past end_x gives a window with zero tiles per row
    let grid = closed_grid(4, 4);
    let changes = process_hex_tiles(b"8080", &grid, 4, 4, 0, 0, 1, 3, 0, 0, true);
    assert_eq!(changes, Vec::<u32>::new());
}

#[test]
fn rows_outside_grid_are_skipped() {
    // y_offset pushes half the window rows below row 0; they are skipped
    let grid = closed_grid(4, 2);
    let server = vec![0x80u8; 16];
    let payload = to_hex(&server);
    let changes = process_hex_tiles(&payload, &grid, 4, 2, 3, 0, 0, 3, 0, 0, true);
    assert_eq!(changes.len(), 8);
    for rec in &changes {
        let row = (rec >> 16) & 0xFFFF;
        assert!(row < 2);
    }
}

#[test]
fn sentinel_is_never_emitted() {
    // every decodable server byte produces a real tile code in the records
    let grid = closed_grid(16, 16);
    let mut server = vec![0u8; 256];
    for (i, b) in server.iter_mut().enumerate() {
        *b = i as u8;
    }
    let payload = to_hex(&server);
    let changes = process_hex_tiles(&payload, &grid, 16, 16, 15, 0, 0, 15, 0, 0, true);
    for rec in &changes {
        assert_ne!(rec & 0xFF, 0xFF);
    }
}
