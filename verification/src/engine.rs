//! Diff engine: scans one update window over a payload and either collects
//! packed change records against a snapshot or rewrites a grid in place.

use vstd::prelude::*;

use vstd::arithmetic::div_mod::lemma_mod_multiples_vanish;

use crate::codec::pack_change;
use crate::model::{
    cell_apply, cell_change, chunk_changes_from, chunk_lane_value, diff_changes, inplace_result,
    rows_apply, rows_changes, span_apply, span_changes, state_upto, Encoding,
};
use crate::model::{
    lemma_chunk_matches_span, lemma_span_apply_snoc, lemma_span_changes_snoc,
    lemma_span_changes_split, lemma_state_count_bound,
};
use crate::tile::decode_hex_pair;
use crate::tile::server_byte_to_tile;
use crate::window::{
    abs_of, checker_of, column_length, geom, payload_index, row_of, t_end, t_start, tiles_per_row,
    wf_geometry, x_offset, y_offset, Geometry,
};

verus! {

/// Absolute value of an `i64`, as a `u64`.
fn abs_i64(x: i64) -> (r: u64)
    requires
        x != i64::MIN,
    ensures
        r as int == abs_of(x as int),
{
    if x < 0 {
        (-x) as u64
    } else {
        x as u64
    }
}

/// The invariant tying the machine-sized scan parameters to the geometry.
pub open spec fn params_match(
    g: Geometry,
    tpr: u64,
    col_len: u64,
    y_off: i64,
    x_off: i64,
    gw: u64,
    gh: u64,
    end_y: i32,
    ref_x: i32,
) -> bool {
    &&& wf_geometry(g)
    &&& tpr as int == tiles_per_row(g)
    &&& col_len as int == column_length(g)
    &&& y_off as int == y_offset(g)
    &&& x_off as int == x_offset(g)
    &&& gw as int == g.grid_width
    &&& gh as int == g.grid_height
    &&& end_y as int == g.end_y
    &&& ref_x as int == g.ref_x
}

/// Resolve one window position and diff it against a snapshot buffer,
/// returning the packed record to emit, if any.
#[verifier::rlimit(30)]
fn diff_cell(
    payload: &[u8],
    existing: &[u8],
    enc: Encoding,
    tpr: u64,
    col_len: u64,
    y_off: i64,
    x_off: i64,
    gw: u64,
    gh: u64,
    end_y: i32,
    ref_x: i32,
    i: u64,
    j: u64,
    Ghost(g): Ghost<Geometry>,
) -> (r: Option<u32>)
    requires
        params_match(g, tpr, col_len, y_off, x_off, gw, gh, end_y, ref_x),
        i < col_len,
        j < tpr,
    ensures
        r == cell_change(g, payload@, existing@, enc, i as int, j as int),
{
    let reversed: u64 = col_len - 1 - i;
    let row: i64 = reversed as i64 + y_off;
    assert(row as int == row_of(g, i as int));
    if row < 0 || (row as u64) >= gh || gw == 0 {
        return None;
    }
    let t_s: i64 = if x_off < 0 {
        -x_off
    } else {
        0
    };
    let b1: i64 = tpr as i64;
    let b2: i64 = gw as i64 - x_off;
    let t_e: i64 = if b1 < b2 {
        b1
    } else {
        b2
    };
    assert(t_s as int == t_start(g) && t_e as int == t_end(g));
    if (j as i64) < t_s || (j as i64) >= t_e {
        return None;
    }
    assert((i as u128) * (tpr as u128) <= 0x1_0000_0000_0000_0000u128) by (nonlinear_arith)
        requires
            i <= 0x1_0000_0000u64,
            tpr <= 0x1_0000_0000u64,
    ;
    let k: u128 = (i as u128) * (tpr as u128) + (j as u128);
    assert(k as int == payload_index(g, i as int, j as int));
    let raw: u8 = match enc {
        Encoding::Hex => {
            let off2: u128 = 2 * k;
            if off2 + 1 >= payload.len() as u128 {
                return None;
            }
            let bo: usize = off2 as usize;
            let c0: u8 = payload[bo];
            let c1: u8 = payload[bo + 1];
            decode_hex_pair(c0, c1)
        },
        Encoding::Binary => {
            if k >= payload.len() as u128 {
                return None;
            }
            server_byte_to_tile(payload[k as usize])
        },
    };
    if raw == 0xFF {
        return None;
    }
    let col: i64 = j as i64 + x_off;
    let y_abs: i64 = end_y as i64 - reversed as i64;
    let sum: i64 = col + y_abs + ref_x as i64;
    let par_base: u64 = (sum + 0x10_0000_0000_0000i64) as u64;
    let checker: u8 = (par_base % 2) as u8;
    proof {
        lemma_mod_multiples_vanish(0x8_0000_0000_0000int, sum as int, 2);
        assert(checker as int == checker_of(g, i as int, j as int));
    }
    let value: u8 = if raw >= 0x10 {
        raw | checker
    } else {
        raw
    };
    let row_u: u64 = row as u64;
    let col_u: u64 = col as u64;
    assert(row_u * gw + col_u < 0xFFFF_FFFF_FFFF_FFFFu64) by (nonlinear_arith)
        requires
            row_u < gh,
            gh <= 0xFFFF_FFFFu64,
            gw <= 0xFFFF_FFFFu64,
            col_u < gw,
    ;
    let idx: u64 = row_u * gw + col_u;
    if idx < existing.len() as u64 {
        let e: u8 = existing[idx as usize];
        if e != value {
            return Some(pack_change(row_u as u32, col_u as u32, value));
        }
    }
    None
}

/// Resolve one window position against a mutable grid: write the decoded
/// value on difference and report whether a write happened.
#[verifier::rlimit(30)]
fn apply_cell(
    payload: &[u8],
    grid: &mut Vec<u8>,
    enc: Encoding,
    tpr: u64,
    col_len: u64,
    y_off: i64,
    x_off: i64,
    gw: u64,
    gh: u64,
    end_y: i32,
    ref_x: i32,
    i: u64,
    j: u64,
    Ghost(g): Ghost<Geometry>,
    Ghost(c): Ghost<nat>,
) -> (changed: bool)
    requires
        params_match(g, tpr, col_len, y_off, x_off, gw, gh, end_y, ref_x),
        i < col_len,
        j < tpr,
    ensures
        ({
            let st = cell_apply(g, payload@, enc, i as int, j as int, (old(grid)@, c));
            &&& final(grid)@ == st.0
            &&& st.1 == c + (if changed {
                1nat
            } else {
                0nat
            })
        }),
{
    let reversed: u64 = col_len - 1 - i;
    let row: i64 = reversed as i64 + y_off;
    assert(row as int == row_of(g, i as int));
    if row < 0 || (row as u64) >= gh || gw == 0 {
        return false;
    }
    let t_s: i64 = if x_off < 0 {
        -x_off
    } else {
        0
    };
    let b1: i64 = tpr as i64;
    let b2: i64 = gw as i64 - x_off;
    let t_e: i64 = if b1 < b2 {
        b1
    } else {
        b2
    };
    assert(t_s as int == t_start(g) && t_e as int == t_end(g));
    if (j as i64) < t_s || (j as i64) >= t_e {
        return false;
    }
    assert((i as u128) * (tpr as u128) <= 0x1_0000_0000_0000_0000u128) by (nonlinear_arith)
        requires
            i <= 0x1_0000_0000u64,
            tpr <= 0x1_0000_0000u64,
    ;
    let k: u128 = (i as u128) * (tpr as u128) + (j as u128);
    assert(k as int == payload_index(g, i as int, j as int));
    let raw: u8 = match enc {
        Encoding::Hex => {
            let off2: u128 = 2 * k;
            if off2 + 1 >= payload.len() as u128 {
                return false;
            }
            let bo: usize = off2 as usize;
            let c0: u8 = payload[bo];
            let c1: u8 = payload[bo + 1];
            decode_hex_pair(c0, c1)
        },
        Encoding::Binary => {
            if k >= payload.len() as u128 {
                return false;
            }
            server_byte_to_tile(payload[k as usize])
        },
    };
    if raw == 0xFF {
        return false;
    }
    let col: i64 = j as i64 + x_off;
    let y_abs: i64 = end_y as i64 - reversed as i64;
    let sum: i64 = col + y_abs + ref_x as i64;
    let par_base: u64 = (sum + 0x10_0000_0000_0000i64) as u64;
    let checker: u8 = (par_base % 2) as u8;
    proof {
        lemma_mod_multiples_vanish(0x8_0000_0000_0000int, sum as int, 2);
        assert(checker as int == checker_of(g, i as int, j as int));
    }
    let value: u8 = if raw >= 0x10 {
        raw | checker
    } else {
        raw
    };
    let row_u: u64 = row as u64;
    let col_u: u64 = col as u64;
    assert(row_u * gw + col_u < 0xFFFF_FFFF_FFFF_FFFFu64) by (nonlinear_arith)
        requires
            row_u < gh,
            gh <= 0xFFFF_FFFFu64,
            gw <= 0xFFFF_FFFFu64,
            col_u < gw,
    ;
    let idx: u64 = row_u * gw + col_u;
    if idx < grid.len() as u64 {
        let e: u8 = grid[idx as usize];
        if e != value {
            let iu: usize = idx as usize;
            grid[iu] = value;
            return true;
        }
    }
    false
}

/// Scan hex-encoded tile data and write decoded values straight into the
/// grid buffer, returning how many cells changed.
pub fn process_hex_tiles_inplace(
    hex_data: &[u8],
    grid: &mut Vec<u8>,
    grid_width: u32,
    grid_height: u32,
    end_x: i32,
    end_y: i32,
    start_x: i32,
    start_y: i32,
    start_point_x: i32,
    start_point_y: i32,
    is_all: bool,
) -> (count: u64)
    ensures
        ({
            let st = inplace_result(
                geom(
                    grid_width,
                    grid_height,
                    end_x,
                    end_y,
                    start_x,
                    start_y,
                    start_point_x,
                    start_point_y,
                    is_all,
                ),
                hex_data@,
                Encoding::Hex,
                old(grid)@,
            );
            &&& final(grid)@ == st.0
            &&& count as nat == st.1
        }),
{
    let ghost g = geom(
        grid_width,
        grid_height,
        end_x,
        end_y,
        start_x,
        start_y,
        start_point_x,
        start_point_y,
        is_all,
    );
    let ghost grid0 = grid@;
    let tpr: u64 = abs_i64(end_x as i64 - start_x as i64 + 1);
    let col_len: u64 = abs_i64(start_y as i64 - end_y as i64 + 1);
    let y_off: i64 = end_y as i64 - start_point_y as i64;
    let x_off: i64 = if is_all {
        0
    } else {
        start_x as i64 - start_point_x as i64 - 1
    };
    let gw: u64 = grid_width as u64;
    let gh: u64 = grid_height as u64;
    let payload_len: usize = hex_data.len();
    assert(hex_data@.len() <= usize::MAX) by {
        assert(payload_len == hex_data@.len());
    }
    let mut count: u64 = 0;
    let mut i: u64 = 0;
    while i < col_len
        invariant
            params_match(g, tpr, col_len, y_off, x_off, gw, gh, end_y, start_point_x),
            i <= col_len,
            hex_data@.len() <= usize::MAX,
            (grid@, count as nat) == state_upto(g, hex_data@, Encoding::Hex, grid0, i as nat, 0nat),
        decreases col_len - i,
    {
        let mut j: u64 = 0;
        proof {
            assert(state_upto(g, hex_data@, Encoding::Hex, grid0, i as nat, 0nat) == rows_apply(
                g,
                hex_data@,
                Encoding::Hex,
                i as nat,
                (grid0, 0nat),
            ));
        }
        while j < tpr
            invariant
                params_match(g, tpr, col_len, y_off, x_off, gw, gh, end_y, start_point_x),
                i < col_len,
                j <= tpr,
                hex_data@.len() <= usize::MAX,
                (grid@, count as nat) == state_upto(
                    g,
                    hex_data@,
                    Encoding::Hex,
                    grid0,
                    i as nat,
                    j as nat,
                ),
            decreases tpr - j,
        {
            let changed = apply_cell(
                hex_data,
                grid,
                Encoding::Hex,
                tpr,
                col_len,
                y_off,
                x_off,
                gw,
                gh,
                end_y,
                start_point_x,
                i,
                j,
                Ghost(g),
                Ghost(count as nat),
            );
            proof {
                lemma_span_apply_snoc(
                    g,
                    hex_data@,
                    Encoding::Hex,
                    i as int,
                    0,
                    j as nat,
                    rows_apply(g, hex_data@, Encoding::Hex, i as nat, (grid0, 0nat)),
                );
                lemma_state_count_bound(
                    g,
                    hex_data@,
                    Encoding::Hex,
                    grid0,
                    i as nat,
                    (j + 1) as nat,
                );
            }
            if changed {
                proof {
                    assert(count as int + 1 == state_upto(
                        g,
                        hex_data@,
                        Encoding::Hex,
                        grid0,
                        i as nat,
                        (j + 1) as nat,
                    ).1);
                    assert(count as int + 1 <= hex_data@.len());
                }
                count = count + 1;
            }
            j = j + 1;
        }
        proof {
            assert(state_upto(g, hex_data@, Encoding::Hex, grid0, (i + 1) as nat, 0nat)
                == rows_apply(g, hex_data@, Encoding::Hex, (i + 1) as nat, (grid0, 0nat)));
            assert(rows_apply(g, hex_data@, Encoding::Hex, (i + 1) as nat, (grid0, 0nat))
                == span_apply(
                g,
                hex_data@,
                Encoding::Hex,
                i as int,
                0,
                tiles_per_row(g) as nat,
                rows_apply(g, hex_data@, Encoding::Hex, i as nat, (grid0, 0nat)),
            ));
        }
        i = i + 1;
    }
    proof {
        assert(state_upto(g, hex_data@, Encoding::Hex, grid0, col_len as nat, 0nat) == rows_apply(
            g,
            hex_data@,
            Encoding::Hex,
            col_len as nat,
            (grid0, 0nat),
        ));
    }
    count
}

/// Scan hex-encoded tile data from the server and diff it against a snapshot
/// of the grid. Returns the packed change records in window scan order.
pub fn process_hex_tiles(
    hex_data: &[u8],
    existing: &[u8],
    grid_width: u32,
    grid_height: u32,
    end_x: i32,
    end_y: i32,
    start_x: i32,
    start_y: i32,
    start_point_x: i32,
    start_point_y: i32,
    is_all: bool,
) -> (changes: Vec<u32>)
    ensures
        changes@ == diff_changes(
            geom(
                grid_width,
                grid_height,
                end_x,
                end_y,
                start_x,
                start_y,
                start_point_x,
                start_point_y,
                is_all,
            ),
            hex_data@,
            existing@,
            Encoding::Hex,
        ),
{
    let ghost g = geom(
        grid_width,
        grid_height,
        end_x,
        end_y,
        start_x,
        start_y,
        start_point_x,
        start_point_y,
        is_all,
    );
    let tpr: u64 = abs_i64(end_x as i64 - start_x as i64 + 1);
    let col_len: u64 = abs_i64(start_y as i64 - end_y as i64 + 1);
    let y_off: i64 = end_y as i64 - start_point_y as i64;
    let x_off: i64 = if is_all {
        0
    } else {
        start_x as i64 - start_point_x as i64 - 1
    };
    let gw: u64 = grid_width as u64;
    let gh: u64 = grid_height as u64;
    let mut changes: Vec<u32> = Vec::new();
    let mut i: u64 = 0;
    while i < col_len
        invariant
            params_match(g, tpr, col_len, y_off, x_off, gw, gh, end_y, start_point_x),
            i <= col_len,
            changes@ == rows_changes(g, hex_data@, existing@, Encoding::Hex, i as nat),
        decreases col_len - i,
    {
        let mut j: u64 = 0;
        while j < tpr
            invariant
                params_match(g, tpr, col_len, y_off, x_off, gw, gh, end_y, start_point_x),
                i < col_len,
                j <= tpr,
                changes@ == rows_changes(g, hex_data@, existing@, Encoding::Hex, i as nat)
                    + span_changes(g, hex_data@, existing@, Encoding::Hex, i as int, 0, j as nat),
            decreases tpr - j,
        {
            let r = diff_cell(
                hex_data,
                existing,
                Encoding::Hex,
                tpr,
                col_len,
                y_off,
                x_off,
                gw,
                gh,
                end_y,
                start_point_x,
                i,
                j,
                Ghost(g),
            );
            if let Some(rec) = r {
                changes.push(rec);
            }
            proof {
                lemma_span_changes_snoc(
                    g,
                    hex_data@,
                    existing@,
                    Encoding::Hex,
                    i as int,
                    0,
                    j as nat,
                );
                assert(changes@ =~= rows_changes(g, hex_data@, existing@, Encoding::Hex, i as nat)
                    + span_changes(
                    g,
                    hex_data@,
                    existing@,
                    Encoding::Hex,
                    i as int,
                    0,
                    (j + 1) as nat,
                ));
            }
            j = j + 1;
        }
        proof {
            assert(rows_changes(g, hex_data@, existing@, Encoding::Hex, (i + 1) as nat)
                == rows_changes(g, hex_data@, existing@, Encoding::Hex, i as nat) + span_changes(
                g,
                hex_data@,
                existing@,
                Encoding::Hex,
                i as int,
                0,
                tiles_per_row(g) as nat,
            ));
        }
        i = i + 1;
    }
    changes
}

/// Decode and diff one 16-cell block of a binary payload with bitwise lane
/// operations, appending the records of the lanes that differ in ascending
/// lane order. The lane formulas are proved equal to the scalar decision
/// table, so the batch path is a pure optimization of the scalar path.
#[verifier::rlimit(50)]
pub fn process_binary_chunk(
    binary_data: &[u8],
    k: usize,
    existing: &[u8],
    off: usize,
    row: u32,
    col0: u32,
    base_checker: u8,
    changes: &mut Vec<u32>,
)
    requires
        k + 16 <= binary_data@.len(),
        off + 16 <= existing@.len(),
        base_checker <= 1,
        col0 as int + 16 <= 0x1_0000_0000,
    ensures
        final(changes)@ == old(changes)@ + chunk_changes_from(
            binary_data@,
            existing@,
            k as int,
            off as int,
            row as int,
            col0 as int,
            base_checker as int,
            0,
        ),
{
    let ghost bin = binary_data@;
    let ghost ex = existing@;
    let ghost pre = changes@;
    let bin_len: usize = binary_data.len();
    let ex_len: usize = existing.len();
    assert(binary_data@.len() <= usize::MAX && existing@.len() <= usize::MAX) by {
        assert(bin_len == binary_data@.len() && ex_len == existing@.len());
    }
    let mut l: usize = 0;
    while l < 16
        invariant
            l <= 16,
            binary_data@.len() <= usize::MAX,
            existing@.len() <= usize::MAX,
            k + 16 <= binary_data@.len(),
            off + 16 <= existing@.len(),
            base_checker <= 1,
            col0 as int + 16 <= 0x1_0000_0000,
            bin == binary_data@,
            ex == existing@,
            pre + chunk_changes_from(
                bin,
                ex,
                k as int,
                off as int,
                row as int,
                col0 as int,
                base_checker as int,
                0,
            ) == changes@ + chunk_changes_from(
                bin,
                ex,
                k as int,
                off as int,
                row as int,
                col0 as int,
                base_checker as int,
                l as int,
            ),
        decreases 16 - l,
    {
        let b: u8 = binary_data[k + l];
        let m_open: u8 = if b & 0x80 != 0 {
            0xFF
        } else {
            0x00
        };
        let m_mine: u8 = if b & 0x40 != 0 {
            0xFF
        } else {
            0x00
        };
        let m_flag: u8 = if b & 0x20 != 0 {
            0xFF
        } else {
            0x00
        };
        let number: u8 = b & 0x07;
        let color: u8 = (b >> 3) & 0x03;
        let flag_val: u8 = 0x20 | (color << 1);
        let opened_result: u8 = (0x08 & m_mine) | (number & !m_mine);
        let closed_result: u8 = (flag_val & m_flag) | (0x10 & !m_flag);
        let value_raw: u8 = (opened_result & m_open) | (closed_result & !m_open);
        assert(value_raw == crate::tile::interpret(b)) by (bit_vector)
            requires
                m_open == (if b & 0x80 != 0 {
                    0xFFu8
                } else {
                    0x00u8
                }),
                m_mine == (if b & 0x40 != 0 {
                    0xFFu8
                } else {
                    0x00u8
                }),
                m_flag == (if b & 0x20 != 0 {
                    0xFFu8
                } else {
                    0x00u8
                }),
                number == b & 0x07,
                color == (b >> 3) & 0x03,
                flag_val == 0x20u8 | (color << 1),
                opened_result == (0x08u8 & m_mine) | (number & !m_mine),
                closed_result == (flag_val & m_flag) | (0x10u8 & !m_flag),
                value_raw == (opened_result & m_open) | (closed_result & !m_open),
        ;
        let sum8: u8 = base_checker + (l as u8);
        let lane_par: u8 = sum8 & 1;
        assert(lane_par == sum8 % 2) by (bit_vector)
            requires
                lane_par == sum8 & 1,
        ;
        let mask_ge: u8 = if value_raw >= 0x10 {
            0xFF
        } else {
            0x00
        };
        let value: u8 = value_raw | (lane_par & mask_ge);
        assert(value == (if value_raw >= 0x10 {
            value_raw | lane_par
        } else {
            value_raw
        })) by (bit_vector)
            requires
                mask_ge == (if value_raw >= 0x10 {
                    0xFFu8
                } else {
                    0x00u8
                }),
                lane_par <= 1,
                value == value_raw | (lane_par & mask_ge),
        ;
        assert(value == chunk_lane_value(b, (base_checker as int + l as int) % 2));
        let e: u8 = existing[off + l];
        if e != value {
            let rec: u32 = pack_change(row, col0 + (l as u32), value);
            changes.push(rec);
        }
        proof {
            assert(changes@ + chunk_changes_from(
                bin,
                ex,
                k as int,
                off as int,
                row as int,
                col0 as int,
                base_checker as int,
                (l + 1) as int,
            ) =~= pre + chunk_changes_from(
                bin,
                ex,
                k as int,
                off as int,
                row as int,
                col0 as int,
                base_checker as int,
                0,
            ));
        }
        l = l + 1;
    }
    proof {
        assert(chunk_changes_from(
            bin,
            ex,
            k as int,
            off as int,
            row as int,
            col0 as int,
            base_checker as int,
            16,
        ) =~= Seq::<u32>::empty());
        assert(changes@ =~= pre + chunk_changes_from(
            bin,
            ex,
            k as int,
            off as int,
            row as int,
            col0 as int,
            base_checker as int,
            0,
        ));
    }
}

/// Scan binary tile data (one server byte per cell) and diff it against a
/// snapshot of the grid, batching 16 adjacent cells wherever the block lies
/// in one row, inside the visible range, and inside both buffers.
pub fn process_binary_tiles(
    binary_data: &[u8],
    existing: &[u8],
    grid_width: u32,
    grid_height: u32,
    end_x: i32,
    end_y: i32,
    start_x: i32,
    start_y: i32,
    start_point_x: i32,
    start_point_y: i32,
    is_all: bool,
) -> (changes: Vec<u32>)
    ensures
        changes@ == diff_changes(
            geom(
                grid_width,
                grid_height,
                end_x,
                end_y,
                start_x,
                start_y,
                start_point_x,
                start_point_y,
                is_all,
            ),
            binary_data@,
            existing@,
            Encoding::Binary,
        ),
{
    let ghost g = geom(
        grid_width,
        grid_height,
        end_x,
        end_y,
        start_x,
        start_y,
        start_point_x,
        start_point_y,
        is_all,
    );
    let tpr: u64 = abs_i64(end_x as i64 - start_x as i64 + 1);
    let col_len: u64 = abs_i64(start_y as i64 - end_y as i64 + 1);
    let y_off: i64 = end_y as i64 - start_point_y as i64;
    let x_off: i64 = if is_all {
        0
    } else {
        start_x as i64 - start_point_x as i64 - 1
    };
    let gw: u64 = grid_width as u64;
    let gh: u64 = grid_height as u64;
    let mut changes: Vec<u32> = Vec::new();
    let mut i: u64 = 0;
    while i < col_len
        invariant
            params_match(g, tpr, col_len, y_off, x_off, gw, gh, end_y, start_point_x),
            i <= col_len,
            changes@ == rows_changes(g, binary_data@, existing@, Encoding::Binary, i as nat),
        decreases col_len - i,
    {
        let mut j: u64 = 0;
        while j < tpr
            invariant
                params_match(g, tpr, col_len, y_off, x_off, gw, gh, end_y, start_point_x),
                i < col_len,
                j <= tpr,
                changes@ == rows_changes(g, binary_data@, existing@, Encoding::Binary, i as nat)
                    + span_changes(
                    g,
                    binary_data@,
                    existing@,
                    Encoding::Binary,
                    i as int,
                    0,
                    j as nat,
                ),
            decreases tpr - j,
        {
            let ghost pre = changes@;
            let mut used_batch = false;
            let reversed: u64 = col_len - 1 - i;
            let row: i64 = reversed as i64 + y_off;
            assert(row as int == row_of(g, i as int));
            if row >= 0 && (row as u64) < gh && gw != 0 {
                let t_s: i64 = if x_off < 0 {
                    -x_off
                } else {
                    0
                };
                let b1: i64 = tpr as i64;
                let b2: i64 = gw as i64 - x_off;
                let t_e: i64 = if b1 < b2 {
                    b1
                } else {
                    b2
                };
                assert(t_s as int == t_start(g) && t_e as int == t_end(g));
                if (j as i64) >= t_s && (j as i64) < t_e && t_e - (j as i64) >= 16 {
                    assert((i as u128) * (tpr as u128) <= 0x1_0000_0000_0000_0000u128)
                        by (nonlinear_arith)
                        requires
                            i <= 0x1_0000_0000u64,
                            tpr <= 0x1_0000_0000u64,
                    ;
                    let k: u128 = (i as u128) * (tpr as u128) + (j as u128);
                    assert(k as int == payload_index(g, i as int, j as int));
                    if k + 16 <= binary_data.len() as u128 {
                        let col: i64 = j as i64 + x_off;
                        let row_u: u64 = row as u64;
                        let col_u: u64 = col as u64;
                        assert(row_u * gw + col_u < 0xFFFF_FFFF_FFFF_FF00u64) by (nonlinear_arith)
                            requires
                                row_u < gh,
                                gh <= 0xFFFF_FFFFu64,
                                gw <= 0xFFFF_FFFFu64,
                                col_u < gw,
                        ;
                        let off: u64 = row_u * gw + col_u;
                        if off + 16 <= existing.len() as u64 {
                            let y_abs: i64 = end_y as i64 - reversed as i64;
                            let sum: i64 = col + y_abs + start_point_x as i64;
                            let par_base: u64 = (sum + 0x10_0000_0000_0000i64) as u64;
                            let base_checker: u8 = (par_base % 2) as u8;
                            proof {
                                lemma_mod_multiples_vanish(0x8_0000_0000_0000int, sum as int, 2);
                                assert(base_checker as int == checker_of(g, i as int, j as int));
                            }
                            process_binary_chunk(
                                binary_data,
                                k as usize,
                                existing,
                                off as usize,
                                row_u as u32,
                                col_u as u32,
                                base_checker,
                                &mut changes,
                            );
                            proof {
                                lemma_chunk_matches_span(
                                    g,
                                    binary_data@,
                                    existing@,
                                    i as int,
                                    j as int,
                                    k as int,
                                    off as int,
                                    row as int,
                                    col_u as int,
                                    base_checker as int,
                                    0,
                                );
                                lemma_span_changes_split(
                                    g,
                                    binary_data@,
                                    existing@,
                                    Encoding::Binary,
                                    i as int,
                                    0,
                                    j as nat,
                                    16nat,
                                );
                                assert(changes@ =~= rows_changes(
                                    g,
                                    binary_data@,
                                    existing@,
                                    Encoding::Binary,
                                    i as nat,
                                ) + span_changes(
                                    g,
                                    binary_data@,
                                    existing@,
                                    Encoding::Binary,
                                    i as int,
                                    0,
                                    (j + 16) as nat,
                                ));
                            }
                            j = j + 16;
                            used_batch = true;
                        }
                    }
                }
            }
            if !used_batch {
                let r = diff_cell(
                    binary_data,
                    existing,
                    Encoding::Binary,
                    tpr,
                    col_len,
                    y_off,
                    x_off,
                    gw,
                    gh,
                    end_y,
                    start_point_x,
                    i,
                    j,
                    Ghost(g),
                );
                if let Some(rec) = r {
                    changes.push(rec);
                }
                proof {
                    lemma_span_changes_snoc(
                        g,
                        binary_data@,
                        existing@,
                        Encoding::Binary,
                        i as int,
                        0,
                        j as nat,
                    );
                    assert(changes@ =~= rows_changes(
                        g,
                        binary_data@,
                        existing@,
                        Encoding::Binary,
                        i as nat,
                    ) + span_changes(
                        g,
                        binary_data@,
                        existing@,
                        Encoding::Binary,
                        i as int,
                        0,
                        (j + 1) as nat,
                    ));
                }
                j = j + 1;
            }
        }
        proof {
            assert(rows_changes(g, binary_data@, existing@, Encoding::Binary, (i + 1) as nat)
                == rows_changes(g, binary_data@, existing@, Encoding::Binary, i as nat)
                + span_changes(
                g,
                binary_data@,
                existing@,
                Encoding::Binary,
                i as int,
                0,
                tiles_per_row(g) as nat,
            ));
        }
        i = i + 1;
    }
    changes
}

} // verus!
