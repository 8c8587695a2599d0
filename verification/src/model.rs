//! Mathematical model of the diff engine: what one update scan reads, which
//! cells it touches, which change records it emits, and what an in-place run
//! leaves in the grid.

use vstd::prelude::*;

use vstd::arithmetic::div_mod::lemma_add_mod_noop_right;

use crate::codec::{pack_record, unpack_col, unpack_row, unpack_value};
use crate::tile::{decode_pair, interpret, lemma_interpret_not_sentinel};
use crate::window::{
    checker_of, col_of, column_length, payload_index, row_of, t_end, t_start, tiles_per_row,
    y_abs_of, Geometry,
};

verus! {

/// Payload encoding: two ASCII hex characters per cell, or one raw server
/// byte per cell.
#[derive(Clone, Copy)]
pub enum Encoding {
    Hex,
    Binary,
}

/// Raw tile code of payload cell `k`: `0xFF` marks a truncated payload or a
/// malformed hex pair, and suppresses the cell.
pub open spec fn raw_code(payload: Seq<u8>, enc: Encoding, k: int) -> u8 {
    match enc {
        Encoding::Hex => {
            if 0 <= k && 2 * k + 1 < payload.len() {
                decode_pair(payload[2 * k], payload[2 * k + 1])
            } else {
                0xFF
            }
        },
        Encoding::Binary => {
            if 0 <= k && k < payload.len() {
                interpret(payload[k])
            } else {
                0xFF
            }
        },
    }
}

/// What the scan finds at window position `(i, j)`, independent of any grid
/// contents: `Some((row, col, value))` when the cell lands inside the grid
/// and decodes, `None` when it is skipped.
pub open spec fn cell_probe(
    g: Geometry,
    payload: Seq<u8>,
    enc: Encoding,
    i: int,
    j: int,
) -> Option<(int, int, u8)> {
    let row = row_of(g, i);
    if row < 0 || row >= g.grid_height || g.grid_width == 0 {
        None
    } else if j < t_start(g) || j >= t_end(g) {
        None
    } else {
        let raw = raw_code(payload, enc, payload_index(g, i, j));
        if raw == 0xFF {
            None
        } else {
            let value = if raw >= 0x10 {
                raw | (checker_of(g, i, j) as u8)
            } else {
                raw
            };
            Some((row, col_of(g, j), value))
        }
    }
}

/// Grid index that position `(i, j)` targets, `-1` when it is skipped.
pub open spec fn probe_idx(g: Geometry, payload: Seq<u8>, enc: Encoding, i: int, j: int) -> int {
    match cell_probe(g, payload, enc, i, j) {
        Some(t) => t.0 * g.grid_width + t.1,
        None => -1,
    }
}

/// Tile code that position `(i, j)` carries, 0 when it is skipped.
pub open spec fn probe_val(g: Geometry, payload: Seq<u8>, enc: Encoding, i: int, j: int) -> u8 {
    match cell_probe(g, payload, enc, i, j) {
        Some(t) => t.2,
        None => 0,
    }
}

/// Change record emitted for position `(i, j)` against a snapshot, if any.
pub open spec fn cell_change(
    g: Geometry,
    payload: Seq<u8>,
    existing: Seq<u8>,
    enc: Encoding,
    i: int,
    j: int,
) -> Option<u32> {
    match cell_probe(g, payload, enc, i, j) {
        Some(t) => {
            let idx = t.0 * g.grid_width + t.1;
            if idx < existing.len() && existing[idx] != t.2 {
                Some(pack_record(t.0 as u32, t.1 as u32, t.2))
            } else {
                None
            }
        },
        None => None,
    }
}

/// Zero or one records as a sequence.
pub open spec fn opt_record(c: Option<u32>) -> Seq<u32> {
    match c {
        Some(r) => seq![r],
        None => Seq::empty(),
    }
}

/// Records emitted for the `n` positions `(i, j) .. (i, j + n - 1)`.
pub open spec fn span_changes(
    g: Geometry,
    payload: Seq<u8>,
    existing: Seq<u8>,
    enc: Encoding,
    i: int,
    j: int,
    n: nat,
) -> Seq<u32>
    decreases n,
{
    if n == 0 {
        Seq::empty()
    } else {
        opt_record(cell_change(g, payload, existing, enc, i, j)) + span_changes(
            g,
            payload,
            existing,
            enc,
            i,
            j + 1,
            (n - 1) as nat,
        )
    }
}

/// Records emitted for the first `i` full window rows.
pub open spec fn rows_changes(
    g: Geometry,
    payload: Seq<u8>,
    existing: Seq<u8>,
    enc: Encoding,
    i: nat,
) -> Seq<u32>
    decreases i,
{
    if i == 0 {
        Seq::empty()
    } else {
        rows_changes(g, payload, existing, enc, (i - 1) as nat) + span_changes(
            g,
            payload,
            existing,
            enc,
            i - 1,
            0,
            tiles_per_row(g) as nat,
        )
    }
}

/// All records of one snapshot-mode scan, in window scan order.
pub open spec fn diff_changes(
    g: Geometry,
    payload: Seq<u8>,
    existing: Seq<u8>,
    enc: Encoding,
) -> Seq<u32> {
    rows_changes(g, payload, existing, enc, column_length(g) as nat)
}

/// One in-place step: compare against the current grid, write on difference.
pub open spec fn cell_apply(
    g: Geometry,
    payload: Seq<u8>,
    enc: Encoding,
    i: int,
    j: int,
    st: (Seq<u8>, nat),
) -> (Seq<u8>, nat) {
    match cell_probe(g, payload, enc, i, j) {
        Some(t) => {
            let idx = t.0 * g.grid_width + t.1;
            if idx < st.0.len() && st.0[idx] != t.2 {
                (st.0.update(idx, t.2), (st.1 + 1) as nat)
            } else {
                st
            }
        },
        None => st,
    }
}

/// In-place processing of the `n` positions `(i, j) .. (i, j + n - 1)`.
pub open spec fn span_apply(
    g: Geometry,
    payload: Seq<u8>,
    enc: Encoding,
    i: int,
    j: int,
    n: nat,
    st: (Seq<u8>, nat),
) -> (Seq<u8>, nat)
    decreases n,
{
    if n == 0 {
        st
    } else {
        span_apply(g, payload, enc, i, j + 1, (n - 1) as nat, cell_apply(g, payload, enc, i, j, st))
    }
}

/// In-place processing of the first `i` full window rows.
pub open spec fn rows_apply(
    g: Geometry,
    payload: Seq<u8>,
    enc: Encoding,
    i: nat,
    st: (Seq<u8>, nat),
) -> (Seq<u8>, nat)
    decreases i,
{
    if i == 0 {
        st
    } else {
        span_apply(
            g,
            payload,
            enc,
            i - 1,
            0,
            tiles_per_row(g) as nat,
            rows_apply(g, payload, enc, (i - 1) as nat, st),
        )
    }
}

/// Grid contents and change count after one full in-place scan.
pub open spec fn inplace_result(
    g: Geometry,
    payload: Seq<u8>,
    enc: Encoding,
    grid: Seq<u8>,
) -> (Seq<u8>, nat) {
    rows_apply(g, payload, enc, column_length(g) as nat, (grid, 0nat))
}

/// State after the first `i` full rows and `j` more cells of row `i`.
pub open spec fn state_upto(
    g: Geometry,
    payload: Seq<u8>,
    enc: Encoding,
    grid: Seq<u8>,
    i: nat,
    j: nat,
) -> (Seq<u8>, nat) {
    span_apply(g, payload, enc, i as int, 0, j, rows_apply(g, payload, enc, i, (grid, 0nat)))
}

/// Applying one unpacked record to a grid buffer.
pub open spec fn apply_one(record: u32, grid: Seq<u8>, grid_width: int) -> Seq<u8> {
    let idx = (unpack_row(record) as int) * grid_width + (unpack_col(record) as int);
    if 0 <= idx && idx < grid.len() {
        grid.update(idx, unpack_value(record) as u8)
    } else {
        grid
    }
}

/// Applying a sequence of packed records to a grid buffer, in order.
pub open spec fn apply_changes(records: Seq<u32>, grid: Seq<u8>, grid_width: int) -> Seq<u8>
    decreases records.len(),
{
    if records.len() == 0 {
        grid
    } else {
        apply_changes(records.drop_first(), apply_one(records[0], grid, grid_width), grid_width)
    }
}

/// Peeling the last cell off a span of emitted records.
pub proof fn lemma_span_changes_snoc(
    g: Geometry,
    payload: Seq<u8>,
    existing: Seq<u8>,
    enc: Encoding,
    i: int,
    j: int,
    n: nat,
)
    ensures
        span_changes(g, payload, existing, enc, i, j, (n + 1) as nat) == span_changes(
            g,
            payload,
            existing,
            enc,
            i,
            j,
            n,
        ) + opt_record(cell_change(g, payload, existing, enc, i, j + n)),
    decreases n,
{
    if n == 0 {
        assert(span_changes(g, payload, existing, enc, i, j + 1, 0nat) =~= Seq::<u32>::empty());
        assert(span_changes(g, payload, existing, enc, i, j, 1nat) == opt_record(
            cell_change(g, payload, existing, enc, i, j),
        ) + span_changes(g, payload, existing, enc, i, j + 1, 0nat));
        assert(span_changes(g, payload, existing, enc, i, j, 1nat) =~= span_changes(
            g,
            payload,
            existing,
            enc,
            i,
            j,
            0nat,
        ) + opt_record(cell_change(g, payload, existing, enc, i, j + 0)));
    } else {
        lemma_span_changes_snoc(g, payload, existing, enc, i, j + 1, (n - 1) as nat);
        assert(span_changes(g, payload, existing, enc, i, j, (n + 1) as nat) =~= span_changes(
            g,
            payload,
            existing,
            enc,
            i,
            j,
            n,
        ) + opt_record(cell_change(g, payload, existing, enc, i, j + n)));
    }
}

/// Splitting a span of emitted records at an interior point.
pub proof fn lemma_span_changes_split(
    g: Geometry,
    payload: Seq<u8>,
    existing: Seq<u8>,
    enc: Encoding,
    i: int,
    j: int,
    m: nat,
    n: nat,
)
    ensures
        span_changes(g, payload, existing, enc, i, j, (m + n) as nat) == span_changes(
            g,
            payload,
            existing,
            enc,
            i,
            j,
            m,
        ) + span_changes(g, payload, existing, enc, i, j + m, n),
    decreases m,
{
    if m == 0 {
        assert(span_changes(g, payload, existing, enc, i, j, n) =~= span_changes(
            g,
            payload,
            existing,
            enc,
            i,
            j,
            0nat,
        ) + span_changes(g, payload, existing, enc, i, j, n));
    } else {
        lemma_span_changes_split(g, payload, existing, enc, i, j + 1, (m - 1) as nat, n);
        assert(span_changes(g, payload, existing, enc, i, j, (m + n) as nat) =~= span_changes(
            g,
            payload,
            existing,
            enc,
            i,
            j,
            m,
        ) + span_changes(g, payload, existing, enc, i, j + m, n));
    }
}

/// Peeling the last cell off an in-place span.
pub proof fn lemma_span_apply_snoc(
    g: Geometry,
    payload: Seq<u8>,
    enc: Encoding,
    i: int,
    j: int,
    n: nat,
    st: (Seq<u8>, nat),
)
    ensures
        span_apply(g, payload, enc, i, j, (n + 1) as nat, st) == cell_apply(
            g,
            payload,
            enc,
            i,
            j + n,
            span_apply(g, payload, enc, i, j, n, st),
        ),
    decreases n,
{
    let st1 = cell_apply(g, payload, enc, i, j, st);
    if n == 0 {
        assert(span_apply(g, payload, enc, i, j + 1, 0nat, st1) == st1);
        assert(span_apply(g, payload, enc, i, j, 1nat, st) == st1);
        assert(span_apply(g, payload, enc, i, j, 0nat, st) == st);
        assert(cell_apply(g, payload, enc, i, j + 0, st) == st1);
    } else {
        lemma_span_apply_snoc(g, payload, enc, i, j + 1, (n - 1) as nat, st1);
        assert(span_apply(g, payload, enc, i, j, (n + 1) as nat, st) == span_apply(
            g,
            payload,
            enc,
            i,
            j + 1,
            n,
            st1,
        ));
        assert(span_apply(g, payload, enc, i, j, n, st) == span_apply(
            g,
            payload,
            enc,
            i,
            j + 1,
            (n - 1) as nat,
            st1,
        ));
    }
}

/// Value of one batch lane: the decoded server byte with parity applied.
pub open spec fn chunk_lane_value(b: u8, parity: int) -> u8 {
    let raw = interpret(b);
    if raw >= 0x10 {
        raw | (parity as u8)
    } else {
        raw
    }
}

/// Records the batch path emits for lanes `l..16` of one 16-cell block that
/// starts at payload index `k`, grid index `off`, absolute column `col0`,
/// with first-lane parity `base`.
pub open spec fn chunk_changes_from(
    bin: Seq<u8>,
    ex: Seq<u8>,
    k: int,
    off: int,
    row: int,
    col0: int,
    base: int,
    l: int,
) -> Seq<u32>
    decreases 16 - l,
{
    if l < 0 || l >= 16 {
        Seq::empty()
    } else {
        let v = chunk_lane_value(bin[k + l], (base + l) % 2);
        let head: Seq<u32> = if ex[off + l] != v {
            seq![pack_record(row as u32, (col0 + l) as u32, v)]
        } else {
            Seq::empty()
        };
        head + chunk_changes_from(bin, ex, k, off, row, col0, base, l + 1)
    }
}

/// Law: on a block that meets the batch preconditions, the batch path emits
/// exactly the records of the scalar path over the same 16 positions, in the
/// same order.
pub proof fn lemma_chunk_matches_span(
    g: Geometry,
    bin: Seq<u8>,
    ex: Seq<u8>,
    i: int,
    j: int,
    k: int,
    off: int,
    row: int,
    col0: int,
    base: int,
    l: int,
)
    requires
        0 <= l <= 16,
        row == row_of(g, i),
        0 <= row < g.grid_height,
        g.grid_width > 0,
        t_start(g) <= j,
        j + 16 <= t_end(g),
        col0 == col_of(g, j),
        k == payload_index(g, i, j),
        0 <= k,
        k + 16 <= bin.len(),
        off == row * g.grid_width + col0,
        0 <= off,
        off + 16 <= ex.len(),
        base == checker_of(g, i, j),
    ensures
        span_changes(g, bin, ex, Encoding::Binary, i, j + l, (16 - l) as nat) == chunk_changes_from(
            bin,
            ex,
            k,
            off,
            row,
            col0,
            base,
            l,
        ),
    decreases 16 - l,
{
    if l == 16 {
        assert(span_changes(g, bin, ex, Encoding::Binary, i, j + l, 0nat) =~= chunk_changes_from(
            bin,
            ex,
            k,
            off,
            row,
            col0,
            base,
            l,
        ));
    } else {
        lemma_interpret_not_sentinel(bin[k + l]);
        lemma_add_mod_noop_right(l, col_of(g, j) + y_abs_of(g, i) + g.ref_x, 2);
        assert(payload_index(g, i, j + l) == k + l);
        assert((base + l) % 2 == checker_of(g, i, j + l));
        lemma_chunk_matches_span(g, bin, ex, i, j, k, off, row, col0, base, l + 1);
        let v = chunk_lane_value(bin[k + l], (base + l) % 2);
        assert(cell_change(g, bin, ex, Encoding::Binary, i, j + l) == (if ex[off + l] != v {
            Some(pack_record(row as u32, (col0 + l) as u32, v))
        } else {
            None
        }));
        assert(span_changes(g, bin, ex, Encoding::Binary, i, j + l, (16 - l) as nat)
            =~= chunk_changes_from(bin, ex, k, off, row, col0, base, l));
    }
}

/// Cells the scan can count are backed by payload bytes: an in-place span
/// preserves the buffer length and counts at most one cell per position and
/// at most one cell per remaining payload byte.
pub proof fn lemma_span_apply_count(
    g: Geometry,
    payload: Seq<u8>,
    enc: Encoding,
    i: int,
    j: int,
    n: nat,
    st: (Seq<u8>, nat),
)
    ensures
        span_apply(g, payload, enc, i, j, n, st).0.len() == st.0.len(),
        span_apply(g, payload, enc, i, j, n, st).1 <= st.1 + n,
        span_apply(g, payload, enc, i, j, n, st).1 <= st.1 + (if payload_index(g, i, j)
            < payload.len() {
            payload.len() - payload_index(g, i, j)
        } else {
            0int
        }),
    decreases n,
{
    if n > 0 {
        let st1 = cell_apply(g, payload, enc, i, j, st);
        assert(st1.0.len() == st.0.len() && st1.1 <= st.1 + 1);
        if st1.1 == st.1 + 1 {
            assert(cell_probe(g, payload, enc, i, j) is Some);
            assert(0 <= payload_index(g, i, j) < payload.len());
        }
        lemma_span_apply_count(g, payload, enc, i, j + 1, (n - 1) as nat, st1);
        assert(payload_index(g, i, j + 1) == payload_index(g, i, j) + 1);
    }
}

/// The full in-place scan of the first `i` rows preserves the buffer length
/// and counts at most `i * tiles_per_row` cells, and at most one per payload
/// byte.
pub proof fn lemma_rows_apply_count(
    g: Geometry,
    payload: Seq<u8>,
    enc: Encoding,
    i: nat,
    st: (Seq<u8>, nat),
)
    ensures
        rows_apply(g, payload, enc, i, st).0.len() == st.0.len(),
        rows_apply(g, payload, enc, i, st).1 <= st.1 + i * tiles_per_row(g),
        rows_apply(g, payload, enc, i, st).1 <= st.1 + payload.len(),
    decreases i,
{
    if i == 0 {
        assert(0 * tiles_per_row(g) == 0) by (nonlinear_arith);
    } else {
        let prev = rows_apply(g, payload, enc, (i - 1) as nat, st);
        lemma_rows_apply_count(g, payload, enc, (i - 1) as nat, st);
        lemma_span_apply_count(g, payload, enc, i - 1, 0, tiles_per_row(g) as nat, prev);
        assert(payload_index(g, i - 1, 0) == (i - 1) * tiles_per_row(g));
        assert(i * tiles_per_row(g) == (i - 1) * tiles_per_row(g) + tiles_per_row(g))
            by (nonlinear_arith);
    }
}

/// The state after any scan prefix has the starting buffer's length and a
/// change count bounded by the payload length.
pub proof fn lemma_state_count_bound(
    g: Geometry,
    payload: Seq<u8>,
    enc: Encoding,
    grid: Seq<u8>,
    i: nat,
    j: nat,
)
    ensures
        state_upto(g, payload, enc, grid, i, j).0.len() == grid.len(),
        state_upto(g, payload, enc, grid, i, j).1 <= payload.len(),
{
    let base = rows_apply(g, payload, enc, i, (grid, 0nat));
    lemma_rows_apply_count(g, payload, enc, i, (grid, 0nat));
    lemma_span_apply_count(g, payload, enc, i as int, 0, j, base);
    assert(payload_index(g, i as int, 0) == i * tiles_per_row(g));
    if i * tiles_per_row(g) < payload.len() {
    } else {
        assert(base.1 <= payload.len());
    }
}

/// Every cell the scan lands on is inside the grid.
pub proof fn lemma_probe_in_bounds(g: Geometry, payload: Seq<u8>, enc: Encoding, i: int, j: int)
    requires
        cell_probe(g, payload, enc, i, j) is Some,
    ensures
        cell_probe(g, payload, enc, i, j) matches Some(t) ==> {
            &&& 0 <= t.0 < g.grid_height
            &&& 0 <= t.1 < g.grid_width
            &&& g.grid_width >= 1
            &&& probe_idx(g, payload, enc, i, j) == t.0 * g.grid_width + t.1
            &&& 0 <= probe_idx(g, payload, enc, i, j)
        },
{
    let t = cell_probe(g, payload, enc, i, j)->Some_0;
    assert(t.0 * g.grid_width >= 0) by (nonlinear_arith)
        requires
            t.0 >= 0,
            g.grid_width >= 0,
    ;
}

/// Position `(i2, j2)` is scanned strictly before `(i, j)` in row-major
/// window order.
pub open spec fn scan_before(g: Geometry, i: int, j: int, i2: int, j2: int) -> bool {
    &&& 0 <= i2
    &&& 0 <= j2 < tiles_per_row(g)
    &&& i2 < i || (i2 == i && j2 < j)
}

/// Some position scanned before `(i, j)` targets grid index `q`.
pub open spec fn touched_before(
    g: Geometry,
    payload: Seq<u8>,
    enc: Encoding,
    i: int,
    j: int,
    q: int,
) -> bool {
    exists|i2: int, j2: int|
        scan_before(g, i, j, i2, j2) && #[trigger] probe_idx(g, payload, enc, i2, j2) == q
}

/// Two distinct window positions never target the same grid index.
pub proof fn lemma_probe_distinct(
    g: Geometry,
    payload: Seq<u8>,
    enc: Encoding,
    i1: int,
    j1: int,
    i2: int,
    j2: int,
)
    requires
        cell_probe(g, payload, enc, i1, j1) is Some,
        cell_probe(g, payload, enc, i2, j2) is Some,
        i1 != i2 || j1 != j2,
    ensures
        probe_idx(g, payload, enc, i1, j1) != probe_idx(g, payload, enc, i2, j2),
{
    let t1 = cell_probe(g, payload, enc, i1, j1)->Some_0;
    let t2 = cell_probe(g, payload, enc, i2, j2)->Some_0;
    lemma_probe_in_bounds(g, payload, enc, i1, j1);
    lemma_probe_in_bounds(g, payload, enc, i2, j2);
    if i1 != i2 {
        assert(t1.0 != t2.0);
        assert(t1.0 * g.grid_width + t1.1 != t2.0 * g.grid_width + t2.1) by (nonlinear_arith)
            requires
                t1.0 != t2.0,
                0 <= t1.1 < g.grid_width,
                0 <= t2.1 < g.grid_width,
        ;
    } else {
        assert(t1.1 != t2.1);
    }
}

/// After any scan prefix, every cell already scanned has left its value at
/// its grid index, and every index no scanned cell targets is unchanged.
#[verifier::rlimit(60)]
pub proof fn lemma_state_props(
    g: Geometry,
    payload: Seq<u8>,
    enc: Encoding,
    grid: Seq<u8>,
    i: nat,
    j: nat,
)
    requires
        j <= tiles_per_row(g),
    ensures
        state_upto(g, payload, enc, grid, i, j).0.len() == grid.len(),
        forall|i2: int, j2: int|
            scan_before(g, i as int, j as int, i2, j2) && cell_probe(g, payload, enc, i2, j2)
                is Some && #[trigger] probe_idx(g, payload, enc, i2, j2) < grid.len()
                ==> state_upto(g, payload, enc, grid, i, j).0[probe_idx(g, payload, enc, i2, j2)]
                == probe_val(g, payload, enc, i2, j2),
        forall|q: int|
            0 <= q < grid.len() && !touched_before(g, payload, enc, i as int, j as int, q)
                ==> #[trigger] state_upto(g, payload, enc, grid, i, j).0[q] == grid[q],
    decreases i, j,
{
    let tpr = tiles_per_row(g);
    if i == 0 && j == 0 {
        assert(state_upto(g, payload, enc, grid, 0nat, 0nat) == (grid, 0nat));
    } else if j == 0 {
        let im = (i - 1) as nat;
        lemma_state_props(g, payload, enc, grid, im, tpr as nat);
        assert(state_upto(g, payload, enc, grid, i, 0nat) == rows_apply(
            g,
            payload,
            enc,
            i,
            (grid, 0nat),
        ));
        assert(state_upto(g, payload, enc, grid, im, tpr as nat) == rows_apply(
            g,
            payload,
            enc,
            i,
            (grid, 0nat),
        ));
        assert forall|q: int|
            0 <= q < grid.len() && !touched_before(g, payload, enc, i as int, 0, q) implies #[trigger] state_upto(
            g,
            payload,
            enc,
            grid,
            i,
            0nat,
        ).0[q] == grid[q] by {
            if touched_before(g, payload, enc, im as int, tpr, q) {
                let (a, b): (int, int) = choose|a: int, b: int|
                    scan_before(g, im as int, tpr, a, b) && #[trigger] probe_idx(
                        g,
                        payload,
                        enc,
                        a,
                        b,
                    ) == q;
                assert(scan_before(g, i as int, 0, a, b));
            }
        }
    } else {
        let jm = (j - 1) as nat;
        lemma_state_props(g, payload, enc, grid, i, jm);
        let stp = state_upto(g, payload, enc, grid, i, jm);
        lemma_span_apply_snoc(
            g,
            payload,
            enc,
            i as int,
            0,
            jm,
            rows_apply(g, payload, enc, i, (grid, 0nat)),
        );
        let st = state_upto(g, payload, enc, grid, i, j);
        assert(st == cell_apply(g, payload, enc, i as int, jm as int, stp));
        if cell_probe(g, payload, enc, i as int, jm as int) is Some {
            let t = cell_probe(g, payload, enc, i as int, jm as int)->Some_0;
            lemma_probe_in_bounds(g, payload, enc, i as int, jm as int);
            let idx = probe_idx(g, payload, enc, i as int, jm as int);
            assert(scan_before(g, i as int, j as int, i as int, jm as int));
            // the written index was either updated to the cell's value or
            // already held it
            assert(idx < grid.len() ==> st.0[idx] == t.2) by {
                if idx < grid.len() {
                    if !(stp.0[idx] != t.2) {
                        assert(st == stp);
                    }
                }
            }
            assert forall|i2: int, j2: int|
                scan_before(g, i as int, j as int, i2, j2) && cell_probe(g, payload, enc, i2, j2)
                    is Some && #[trigger] probe_idx(g, payload, enc, i2, j2)
                    < grid.len() implies st.0[probe_idx(g, payload, enc, i2, j2)] == probe_val(
                g,
                payload,
                enc,
                i2,
                j2,
            ) by {
                if i2 == i as int && j2 == jm as int {
                } else {
                    assert(scan_before(g, i as int, jm as int, i2, j2));
                    lemma_probe_distinct(g, payload, enc, i2, j2, i as int, jm as int);
                    assert(probe_idx(g, payload, enc, i2, j2) != idx);
                }
            }
            assert forall|q: int|
                0 <= q < grid.len() && !touched_before(
                    g,
                    payload,
                    enc,
                    i as int,
                    j as int,
                    q,
                ) implies #[trigger] st.0[q] == grid[q] by {
                assert(q != idx);
                if touched_before(g, payload, enc, i as int, jm as int, q) {
                    let (a, b): (int, int) = choose|a: int, b: int|
                        scan_before(g, i as int, jm as int, a, b) && #[trigger] probe_idx(
                            g,
                            payload,
                            enc,
                            a,
                            b,
                        ) == q;
                    assert(scan_before(g, i as int, j as int, a, b));
                }
                assert(stp.0[q] == grid[q]);
            }
        } else {
            assert(st == stp);
            assert forall|q: int|
                0 <= q < grid.len() && !touched_before(
                    g,
                    payload,
                    enc,
                    i as int,
                    j as int,
                    q,
                ) implies #[trigger] st.0[q] == grid[q] by {
                if touched_before(g, payload, enc, i as int, jm as int, q) {
                    let (a, b): (int, int) = choose|a: int, b: int|
                        scan_before(g, i as int, jm as int, a, b) && #[trigger] probe_idx(
                            g,
                            payload,
                            enc,
                            a,
                            b,
                        ) == q;
                    assert(scan_before(g, i as int, j as int, a, b));
                }
            }
        }
    }
}

/// A span over cells whose values already stand in the buffer neither
/// writes nor emits anything.
pub proof fn lemma_span_stable(
    g: Geometry,
    payload: Seq<u8>,
    enc: Encoding,
    s: Seq<u8>,
    c: nat,
    i: int,
    j: int,
    n: nat,
)
    requires
        forall|j2: int|
            j <= j2 < j + n && #[trigger] cell_probe(g, payload, enc, i, j2) is Some ==> {
                let t = cell_probe(g, payload, enc, i, j2)->Some_0;
                t.0 * g.grid_width + t.1 < s.len() ==> s[t.0 * g.grid_width + t.1] == t.2
            },
    ensures
        span_apply(g, payload, enc, i, j, n, (s, c)) == (s, c),
        span_changes(g, payload, s, enc, i, j, n) == Seq::<u32>::empty(),
    decreases n,
{
    if n == 0 {
        assert(span_changes(g, payload, s, enc, i, j, n) =~= Seq::<u32>::empty());
    } else {
        assert(cell_apply(g, payload, enc, i, j, (s, c)) == (s, c));
        assert(cell_change(g, payload, s, enc, i, j) is None);
        lemma_span_stable(g, payload, enc, s, c, i, j + 1, (n - 1) as nat);
        assert(span_changes(g, payload, s, enc, i, j, n) =~= Seq::<u32>::empty());
    }
}

/// A full scan over cells whose values already stand in the buffer changes
/// nothing and emits nothing.
pub proof fn lemma_rows_stable(g: Geometry, payload: Seq<u8>, enc: Encoding, s: Seq<u8>, i: nat)
    requires
        forall|i2: int, j2: int|
            0 <= i2 < i && 0 <= j2 < tiles_per_row(g) && #[trigger] cell_probe(
                g,
                payload,
                enc,
                i2,
                j2,
            ) is Some ==> {
                let t = cell_probe(g, payload, enc, i2, j2)->Some_0;
                t.0 * g.grid_width + t.1 < s.len() ==> s[t.0 * g.grid_width + t.1] == t.2
            },
    ensures
        rows_apply(g, payload, enc, i, (s, 0nat)) == (s, 0nat),
        rows_changes(g, payload, s, enc, i) == Seq::<u32>::empty(),
    decreases i,
{
    if i == 0 {
    } else {
        lemma_rows_stable(g, payload, enc, s, (i - 1) as nat);
        lemma_span_stable(g, payload, enc, s, 0nat, i - 1, 0, tiles_per_row(g) as nat);
        assert(rows_changes(g, payload, s, enc, i) =~= Seq::<u32>::empty());
    }
}

/// Law: an update is idempotent. After one in-place run of an update, running
/// the same update again — in place or as a snapshot diff against the updated
/// grid — changes nothing and emits no records.
pub proof fn lemma_update_idempotent(g: Geometry, payload: Seq<u8>, enc: Encoding, grid: Seq<u8>)
    ensures
        ({
            let once = inplace_result(g, payload, enc, grid);
            &&& inplace_result(g, payload, enc, once.0) == (once.0, 0nat)
            &&& diff_changes(g, payload, once.0, enc) == Seq::<u32>::empty()
        }),
{
    let cl = column_length(g) as nat;
    lemma_state_props(g, payload, enc, grid, cl, 0nat);
    assert(state_upto(g, payload, enc, grid, cl, 0nat) == rows_apply(
        g,
        payload,
        enc,
        cl,
        (grid, 0nat),
    ));
    let g1 = inplace_result(g, payload, enc, grid).0;
    assert forall|i2: int, j2: int|
        0 <= i2 < cl && 0 <= j2 < tiles_per_row(g) && #[trigger] cell_probe(
            g,
            payload,
            enc,
            i2,
            j2,
        ) is Some implies {
        let t = cell_probe(g, payload, enc, i2, j2)->Some_0;
        t.0 * g.grid_width + t.1 < g1.len() ==> g1[t.0 * g.grid_width + t.1] == t.2
    } by {
        assert(scan_before(g, cl as int, 0, i2, j2));
        lemma_probe_in_bounds(g, payload, enc, i2, j2);
    }
    lemma_rows_stable(g, payload, enc, g1, cl);
}

/// Appending one record to a batch application applies it last.
pub proof fn lemma_apply_changes_snoc(records: Seq<u32>, r: u32, grid: Seq<u8>, grid_width: int)
    ensures
        apply_changes(records.push(r), grid, grid_width) == apply_one(
            r,
            apply_changes(records, grid, grid_width),
            grid_width,
        ),
    decreases records.len(),
{
    if records.len() == 0 {
        assert(records.push(r)[0] == r);
        assert(records.push(r).drop_first() =~= Seq::<u32>::empty());
        assert(apply_changes(records, grid, grid_width) == grid);
        assert(apply_changes(records.push(r), grid, grid_width) == apply_changes(
            Seq::<u32>::empty(),
            apply_one(r, grid, grid_width),
            grid_width,
        ));
        assert(apply_changes(Seq::<u32>::empty(), apply_one(r, grid, grid_width), grid_width)
            == apply_one(r, grid, grid_width));
    } else {
        assert(records.push(r)[0] == records[0]);
        assert(records.push(r).drop_first() =~= records.drop_first().push(r));
        lemma_apply_changes_snoc(
            records.drop_first(),
            r,
            apply_one(records[0], grid, grid_width),
            grid_width,
        );
        assert(apply_changes(records.push(r), grid, grid_width) == apply_changes(
            records.drop_first().push(r),
            apply_one(records[0], grid, grid_width),
            grid_width,
        ));
        assert(apply_changes(records, grid, grid_width) == apply_changes(
            records.drop_first(),
            apply_one(records[0], grid, grid_width),
            grid_width,
        ));
    }
}

/// Records of one scan prefix against a snapshot.
pub open spec fn changes_upto(
    g: Geometry,
    payload: Seq<u8>,
    existing: Seq<u8>,
    enc: Encoding,
    i: nat,
    j: nat,
) -> Seq<u32> {
    rows_changes(g, payload, existing, enc, i) + span_changes(
        g,
        payload,
        existing,
        enc,
        i as int,
        0,
        j,
    )
}

/// Any scan prefix leaves the in-place buffer exactly as applying the
/// snapshot-mode records emitted so far, one count per record.
#[verifier::rlimit(60)]
pub proof fn lemma_modes_agree_upto(
    g: Geometry,
    payload: Seq<u8>,
    enc: Encoding,
    grid: Seq<u8>,
    i: nat,
    j: nat,
)
    requires
        g.grid_height <= 0x10000,
        g.grid_width <= 0x100,
        0 <= g.grid_width,
        j <= tiles_per_row(g),
    ensures
        state_upto(g, payload, enc, grid, i, j).0 == apply_changes(
            changes_upto(g, payload, grid, enc, i, j),
            grid,
            g.grid_width,
        ),
        state_upto(g, payload, enc, grid, i, j).1 == changes_upto(g, payload, grid, enc, i, j).len(),
    decreases i, j,
{
    let tpr = tiles_per_row(g);
    if i == 0 && j == 0 {
        assert(state_upto(g, payload, enc, grid, 0nat, 0nat) == (grid, 0nat));
        assert(changes_upto(g, payload, grid, enc, 0nat, 0nat) =~= Seq::<u32>::empty());
    } else if j == 0 {
        let im = (i - 1) as nat;
        lemma_modes_agree_upto(g, payload, enc, grid, im, tpr as nat);
        assert(state_upto(g, payload, enc, grid, i, 0nat) == state_upto(
            g,
            payload,
            enc,
            grid,
            im,
            tpr as nat,
        ));
        assert(changes_upto(g, payload, grid, enc, i, 0nat) =~= changes_upto(
            g,
            payload,
            grid,
            enc,
            im,
            tpr as nat,
        ));
    } else {
        let jm = (j - 1) as nat;
        lemma_modes_agree_upto(g, payload, enc, grid, i, jm);
        lemma_state_props(g, payload, enc, grid, i, jm);
        let stp = state_upto(g, payload, enc, grid, i, jm);
        let chp = changes_upto(g, payload, grid, enc, i, jm);
        lemma_span_apply_snoc(
            g,
            payload,
            enc,
            i as int,
            0,
            jm,
            rows_apply(g, payload, enc, i, (grid, 0nat)),
        );
        lemma_span_changes_snoc(g, payload, grid, enc, i as int, 0, jm);
        let st = state_upto(g, payload, enc, grid, i, j);
        assert(st == cell_apply(g, payload, enc, i as int, jm as int, stp));
        let ch = changes_upto(g, payload, grid, enc, i, j);
        assert(ch == chp + opt_record(cell_change(g, payload, grid, enc, i as int, jm as int)));
        if cell_probe(g, payload, enc, i as int, jm as int) is Some {
            let t = cell_probe(g, payload, enc, i as int, jm as int)->Some_0;
            lemma_probe_in_bounds(g, payload, enc, i as int, jm as int);
            let idx = probe_idx(g, payload, enc, i as int, jm as int);
            // no earlier cell targets this index, so the in-place buffer
            // still holds the snapshot value there
            assert(!touched_before(g, payload, enc, i as int, jm as int, idx)) by {
                if touched_before(g, payload, enc, i as int, jm as int, idx) {
                    let (a, b): (int, int) = choose|a: int, b: int|
                        scan_before(g, i as int, jm as int, a, b) && #[trigger] probe_idx(
                            g,
                            payload,
                            enc,
                            a,
                            b,
                        ) == idx;
                    lemma_probe_distinct(g, payload, enc, a, b, i as int, jm as int);
                }
            }
            if idx < grid.len() {
                assert(stp.0[idx] == grid[idx]);
                if grid[idx] != t.2 {
                    let rec = pack_record(t.0 as u32, t.1 as u32, t.2);
                    assert(ch =~= chp.push(rec));
                    lemma_apply_changes_snoc(chp, rec, grid, g.grid_width);
                    crate::codec::lemma_pack_unpack(t.0 as u32, t.1 as u32, t.2);
                    assert(apply_one(rec, stp.0, g.grid_width) == stp.0.update(idx, t.2));
                    assert(st.0 == stp.0.update(idx, t.2));
                } else {
                    assert(st == stp);
                    assert(ch =~= chp);
                }
            } else {
                assert(st == stp);
                assert(ch =~= chp);
            }
        } else {
            assert(st == stp);
            assert(ch =~= chp);
        }
    }
}

/// Law: snapshot mode and in-place mode are equivalent. Applying every record
/// of one snapshot-mode scan to the starting grid yields exactly the buffer
/// an in-place run leaves, and the in-place count equals the number of
/// records — whenever every grid coordinate fits the packed record's fields
/// (rows below 65536, columns below 256).
pub proof fn lemma_modes_agree(g: Geometry, payload: Seq<u8>, enc: Encoding, grid: Seq<u8>)
    requires
        0 <= g.grid_width <= 0x100,
        g.grid_height <= 0x10000,
    ensures
        inplace_result(g, payload, enc, grid).0 == apply_changes(
            diff_changes(g, payload, grid, enc),
            grid,
            g.grid_width,
        ),
        inplace_result(g, payload, enc, grid).1 == diff_changes(g, payload, grid, enc).len(),
{
    let cl = column_length(g) as nat;
    lemma_modes_agree_upto(g, payload, enc, grid, cl, 0nat);
    assert(state_upto(g, payload, enc, grid, cl, 0nat) == inplace_result(g, payload, enc, grid));
    assert(changes_upto(g, payload, grid, enc, cl, 0nat) =~= diff_changes(g, payload, grid, enc));
}

} // verus!
