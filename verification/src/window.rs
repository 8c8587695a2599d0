//! Window transform: maps window-local `(row_index, col_index)` positions of
//! one server update onto absolute grid coordinates and checkerboard parity.
//!
//! The payload's row order is inverted relative to absolute grid rows, and a
//! full-grid refresh (`is_all`) uses a different horizontal offset than a
//! partial viewport update.

use vstd::prelude::*;

verus! {

/// Ghost description of one update call: grid dimensions, window bounds,
/// reference point and the full/partial flag, as mathematical integers.
pub ghost struct Geometry {
    pub grid_width: int,
    pub grid_height: int,
    pub end_x: int,
    pub end_y: int,
    pub start_x: int,
    pub start_y: int,
    pub ref_x: int,
    pub ref_y: int,
    pub is_all: bool,
}

/// Absolute value.
pub open spec fn abs_of(x: int) -> int {
    if x < 0 {
        -x
    } else {
        x
    }
}

/// The geometry described by one set of call parameters.
pub open spec fn geom(
    grid_width: u32,
    grid_height: u32,
    end_x: i32,
    end_y: i32,
    start_x: i32,
    start_y: i32,
    ref_x: i32,
    ref_y: i32,
    is_all: bool,
) -> Geometry {
    Geometry {
        grid_width: grid_width as int,
        grid_height: grid_height as int,
        end_x: end_x as int,
        end_y: end_y as int,
        start_x: start_x as int,
        start_y: start_y as int,
        ref_x: ref_x as int,
        ref_y: ref_y as int,
        is_all,
    }
}

/// A geometry that machine-sized call parameters can describe.
pub open spec fn wf_geometry(g: Geometry) -> bool {
    &&& 0 <= g.grid_width <= u32::MAX
    &&& 0 <= g.grid_height <= u32::MAX
    &&& i32::MIN <= g.end_x <= i32::MAX
    &&& i32::MIN <= g.end_y <= i32::MAX
    &&& i32::MIN <= g.start_x <= i32::MAX
    &&& i32::MIN <= g.start_y <= i32::MAX
    &&& i32::MIN <= g.ref_x <= i32::MAX
    &&& i32::MIN <= g.ref_y <= i32::MAX
}

/// Number of cells in one window row.
pub open spec fn tiles_per_row(g: Geometry) -> int {
    abs_of(g.end_x - g.start_x + 1)
}

/// Number of window rows.
pub open spec fn column_length(g: Geometry) -> int {
    abs_of(g.start_y - g.end_y + 1)
}

/// Vertical offset from server rows to absolute grid rows.
pub open spec fn y_offset(g: Geometry) -> int {
    g.end_y - g.ref_y
}

/// Horizontal offset from window columns to absolute grid columns.
pub open spec fn x_offset(g: Geometry) -> int {
    if g.is_all {
        0
    } else {
        g.start_x - g.ref_x - 1
    }
}

/// Absolute grid row of window row `i`; the payload's rows are inverted.
pub open spec fn row_of(g: Geometry, i: int) -> int {
    (column_length(g) - 1 - i) + y_offset(g)
}

/// Server-side y coordinate of window row `i`, used by the parity rule.
pub open spec fn y_abs_of(g: Geometry, i: int) -> int {
    g.end_y - (column_length(g) - 1 - i)
}

/// Absolute grid column of window column `j`.
pub open spec fn col_of(g: Geometry, j: int) -> int {
    j + x_offset(g)
}

/// First window column whose absolute column is inside the grid.
pub open spec fn t_start(g: Geometry) -> int {
    if 0 < -x_offset(g) {
        -x_offset(g)
    } else {
        0
    }
}

/// One past the last window column whose absolute column is inside the grid.
pub open spec fn t_end(g: Geometry) -> int {
    if tiles_per_row(g) < g.grid_width - x_offset(g) {
        tiles_per_row(g)
    } else {
        g.grid_width - x_offset(g)
    }
}

/// Checkerboard parity of the cell at window position `(i, j)`.
pub open spec fn checker_of(g: Geometry, i: int, j: int) -> int {
    (col_of(g, j) + y_abs_of(g, i) + g.ref_x) % 2
}

/// Flat payload cell index of window position `(i, j)`.
pub open spec fn payload_index(g: Geometry, i: int, j: int) -> int {
    i * tiles_per_row(g) + j
}

} // verus!
