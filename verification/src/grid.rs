//! The board model: cell states, boundary-safe reads over a flat row-major
//! grid, and the count of filled interior cells together with the lemmas
//! that the simulation needs about it.

use vstd::prelude::*;

verus! {

/// The state of one board cell: unclaimed, owned territory, or part of the
/// player's in-progress trail.
#[derive(Debug, Clone, Copy, PartialEq, Eq, Structural)]
pub enum Cell {
    Empty,
    Filled,
    Trail,
}

/// Dimension sanity for a flat row-major board: small enough that every
/// index and count stays far from any machine limit.
pub open spec fn grid_dims(w: int, h: int) -> bool {
    5 <= w <= 1000 && 5 <= h <= 1000
}

pub open spec fn grid_wf(b: Seq<Cell>, w: int, h: int) -> bool {
    grid_dims(w, h) && b.len() == w * h
}

/// The stored cell at in-range (x, y).
pub open spec fn cell_xy(b: Seq<Cell>, w: int, x: int, y: int) -> Cell {
    b[y * w + x]
}

/// The cell at arbitrary (x, y): the universe outside the board reads as
/// permanently Filled.
pub open spec fn cell_at_spec(b: Seq<Cell>, w: int, h: int, x: int, y: int) -> Cell {
    if x < 0 || y < 0 || x >= w || y >= h {
        Cell::Filled
    } else {
        cell_xy(b, w, x, y)
    }
}

/// Strictly interior coordinates: the one-cell border ring is excluded.
pub open spec fn interior(w: int, h: int, x: int, y: int) -> bool {
    1 <= x < w - 1 && 1 <= y < h - 1
}

/// An interior cell that a flood fill may walk through (anything that is
/// not Filled, so Empty or Trail).
pub open spec fn open_cell(b: Seq<Cell>, w: int, h: int, x: int, y: int) -> bool {
    interior(w, h, x, y) && cell_xy(b, w, x, y) != Cell::Filled
}

/// Every cell of the border ring is Filled.
pub open spec fn borders_filled(b: Seq<Cell>, w: int, h: int) -> bool {
    forall|x: int, y: int|
        0 <= x < w && 0 <= y < h && !interior(w, h, x, y) ==> #[trigger] cell_xy(b, w, x, y)
            == Cell::Filled
}

pub proof fn lemma_idx_bounds(w: int, h: int, x: int, y: int)
    by (nonlinear_arith)
    requires
        0 <= x < w <= 1000,
        0 <= y < h <= 1000,
    ensures
        0 <= y * w + x < w * h <= 1000000,
{
}

pub proof fn lemma_idx_inj(w: int, x1: int, y1: int, x2: int, y2: int)
    by (nonlinear_arith)
    requires
        0 <= x1 < w,
        0 <= x2 < w,
    ensures
        (y1 * w + x1 == y2 * w + x2) <==> (x1 == x2 && y1 == y2),
{
}

/// Row-major indices respect the scan order of coordinates.
pub proof fn lemma_idx_order(w: int, x1: int, y1: int, x2: int, y2: int)
    by (nonlinear_arith)
    requires
        0 <= x1 < w,
        0 <= x2,
        (y1 < y2) || (y1 == y2 && x1 < x2),
    ensures
        y1 * w + x1 < y2 * w + x2,
{
}

/// Any flat index decomposes into row and column coordinates.
pub proof fn lemma_flat_coords(w: int, h: int, i: int)
    by (nonlinear_arith)
    requires
        0 < w,
        0 < h,
        0 <= i < w * h,
    ensures
        0 <= i % w < w,
        0 <= i / w < h,
        (i / w) * w + (i % w) == i,
{
}

/// Boundary-safe read of a flat board.
pub fn board_cell(board: &Vec<Cell>, width: i32, height: i32, x: i32, y: i32) -> (c: Cell)
    requires
        grid_wf(board@, width as int, height as int),
    ensures
        c == cell_at_spec(board@, width as int, height as int, x as int, y as int),
{
    if x < 0 || y < 0 || x >= width || y >= height {
        Cell::Filled
    } else {
        proof {
            lemma_idx_bounds(width as int, height as int, x as int, y as int);
        }
        board[(y as usize) * (width as usize) + (x as usize)]
    }
}

/// The number of Filled cells in row `y` at columns `x .. w-1`.
pub open spec fn count_row(b: Seq<Cell>, w: int, y: int, x: int) -> int
    decreases w - 1 - x,
{
    if x < 1 || x >= w - 1 {
        0
    } else {
        (if cell_xy(b, w, x, y) == Cell::Filled {
            1int
        } else {
            0int
        }) + count_row(b, w, y, x + 1)
    }
}

/// The number of Filled interior cells in rows `y .. h-1`.
pub open spec fn count_rows(b: Seq<Cell>, w: int, h: int, y: int) -> int
    decreases h - 1 - y,
{
    if y < 1 || y >= h - 1 {
        0
    } else {
        count_row(b, w, y, 1) + count_rows(b, w, h, y + 1)
    }
}

/// The number of Filled interior cells of the whole board.
pub open spec fn count_filled(b: Seq<Cell>, w: int, h: int) -> int {
    count_rows(b, w, h, 1)
}

pub proof fn lemma_count_row_bounds(b: Seq<Cell>, w: int, y: int, x: int)
    requires
        1 <= x,
    ensures
        0 <= count_row(b, w, y, x),
        x <= w - 1 ==> count_row(b, w, y, x) <= w - 1 - x,
    decreases w - 1 - x,
{
    if x < w - 1 {
        lemma_count_row_bounds(b, w, y, x + 1);
    }
}

pub proof fn lemma_count_rows_bounds(b: Seq<Cell>, w: int, h: int, y: int)
    requires
        1 <= y,
        2 <= w,
    ensures
        0 <= count_rows(b, w, h, y),
        y <= h - 1 ==> count_rows(b, w, h, y) <= (w - 2) * (h - 1 - y),
    decreases h - 1 - y,
{
    if y < h - 1 {
        lemma_count_row_bounds(b, w, y, 1);
        lemma_count_rows_bounds(b, w, h, y + 1);
        assert((w - 2) + (w - 2) * (h - 1 - (y + 1)) == (w - 2) * (h - 1 - y)) by (nonlinear_arith);
    }
}

/// The filled count never exceeds the interior cell count.
pub proof fn lemma_count_filled_bounds(b: Seq<Cell>, w: int, h: int)
    requires
        2 <= w,
        2 <= h,
    ensures
        0 <= count_filled(b, w, h) <= (w - 2) * (h - 2),
{
    lemma_count_rows_bounds(b, w, h, 1);
}

pub proof fn lemma_count_row_mono(b1: Seq<Cell>, b2: Seq<Cell>, w: int, y: int, x: int)
    requires
        forall|x2: int|
            x <= x2 < w - 1 ==> (#[trigger] cell_xy(b1, w, x2, y) == Cell::Filled ==> cell_xy(
                b2,
                w,
                x2,
                y,
            ) == Cell::Filled),
    ensures
        count_row(b1, w, y, x) <= count_row(b2, w, y, x),
    decreases w - 1 - x,
{
    if !(x < 1 || x >= w - 1) {
        lemma_count_row_mono(b1, b2, w, y, x + 1);
    }
}

/// Pointwise growth of the Filled set can only grow the filled count.
pub proof fn lemma_count_mono(b1: Seq<Cell>, b2: Seq<Cell>, w: int, h: int, y: int)
    requires
        forall|x2: int, y2: int|
            interior(w, h, x2, y2) ==> (#[trigger] cell_xy(b1, w, x2, y2) == Cell::Filled
                ==> cell_xy(b2, w, x2, y2) == Cell::Filled),
    ensures
        count_rows(b1, w, h, y) <= count_rows(b2, w, h, y),
    decreases h - 1 - y,
{
    if !(y < 1 || y >= h - 1) {
        lemma_count_row_mono(b1, b2, w, y, 1);
        lemma_count_mono(b1, b2, w, h, y + 1);
    }
}

/// The filled count reads only the interior cells.
pub proof fn lemma_count_congruence(b1: Seq<Cell>, b2: Seq<Cell>, w: int, h: int)
    requires
        forall|x2: int, y2: int|
            interior(w, h, x2, y2) ==> #[trigger] cell_xy(b1, w, x2, y2) == cell_xy(b2, w, x2, y2),
    ensures
        count_filled(b1, w, h) == count_filled(b2, w, h),
{
    lemma_count_mono(b1, b2, w, h, 1);
    lemma_count_mono(b2, b1, w, h, 1);
}

pub proof fn lemma_count_row_zero(b: Seq<Cell>, w: int, y: int, x: int)
    requires
        forall|x2: int| x <= x2 < w - 1 ==> #[trigger] cell_xy(b, w, x2, y) != Cell::Filled,
    ensures
        count_row(b, w, y, x) == 0,
    decreases w - 1 - x,
{
    if !(x < 1 || x >= w - 1) {
        lemma_count_row_zero(b, w, y, x + 1);
    }
}

/// A board whose interior holds no Filled cell counts zero.
pub proof fn lemma_count_zero(b: Seq<Cell>, w: int, h: int, y: int)
    requires
        forall|x2: int, y2: int|
            interior(w, h, x2, y2) ==> #[trigger] cell_xy(b, w, x2, y2) != Cell::Filled,
    ensures
        count_rows(b, w, h, y) == 0,
    decreases h - 1 - y,
{
    if !(y < 1 || y >= h - 1) {
        lemma_count_row_zero(b, w, y, 1);
        lemma_count_zero(b, w, h, y + 1);
    }
}

pub proof fn lemma_count_row_update(
    b1: Seq<Cell>,
    b2: Seq<Cell>,
    w: int,
    y: int,
    x: int,
    x0: int,
)
    requires
        1 <= x <= x0 < w - 1,
        forall|x2: int|
            x <= x2 < w - 1 && x2 != x0 ==> #[trigger] cell_xy(b1, w, x2, y) == cell_xy(
                b2,
                w,
                x2,
                y,
            ),
    ensures
        count_row(b2, w, y, x) == count_row(b1, w, y, x) + (if cell_xy(b2, w, x0, y)
            == Cell::Filled {
            1int
        } else {
            0int
        }) - (if cell_xy(b1, w, x0, y) == Cell::Filled {
            1int
        } else {
            0int
        }),
    decreases w - 1 - x,
{
    if x < x0 {
        lemma_count_row_update(b1, b2, w, y, x + 1, x0);
    } else {
        lemma_count_row_mono(b1, b2, w, y, x + 1);
        lemma_count_row_mono(b2, b1, w, y, x + 1);
    }
}

/// How the filled count changes when exactly one interior cell changes.
pub proof fn lemma_count_update(b1: Seq<Cell>, b2: Seq<Cell>, w: int, h: int, x0: int, y0: int)
    requires
        interior(w, h, x0, y0),
        forall|x2: int, y2: int|
            interior(w, h, x2, y2) && !(x2 == x0 && y2 == y0) ==> #[trigger] cell_xy(b1, w, x2, y2)
                == cell_xy(b2, w, x2, y2),
    ensures
        count_filled(b2, w, h) == count_filled(b1, w, h) + (if cell_xy(b2, w, x0, y0)
            == Cell::Filled {
            1int
        } else {
            0int
        }) - (if cell_xy(b1, w, x0, y0) == Cell::Filled {
            1int
        } else {
            0int
        }),
{
    lemma_count_update_rows(b1, b2, w, h, 1, x0, y0);
}

proof fn lemma_count_update_rows(
    b1: Seq<Cell>,
    b2: Seq<Cell>,
    w: int,
    h: int,
    y: int,
    x0: int,
    y0: int,
)
    requires
        interior(w, h, x0, y0),
        1 <= y <= y0,
        forall|x2: int, y2: int|
            interior(w, h, x2, y2) && !(x2 == x0 && y2 == y0) ==> #[trigger] cell_xy(b1, w, x2, y2)
                == cell_xy(b2, w, x2, y2),
    ensures
        count_rows(b2, w, h, y) == count_rows(b1, w, h, y) + (if cell_xy(b2, w, x0, y0)
            == Cell::Filled {
            1int
        } else {
            0int
        }) - (if cell_xy(b1, w, x0, y0) == Cell::Filled {
            1int
        } else {
            0int
        }),
    decreases h - 1 - y,
{
    if y < y0 {
        lemma_count_row_mono(b1, b2, w, y, 1);
        lemma_count_row_mono(b2, b1, w, y, 1);
        lemma_count_update_rows(b1, b2, w, h, y + 1, x0, y0);
    } else {
        lemma_count_row_update(b1, b2, w, y0, 1, x0);
        lemma_count_mono_rest(b1, b2, w, h, y + 1, x0, y0);
    }
}

proof fn lemma_count_mono_rest(
    b1: Seq<Cell>,
    b2: Seq<Cell>,
    w: int,
    h: int,
    y: int,
    x0: int,
    y0: int,
)
    requires
        y0 < y,
        forall|x2: int, y2: int|
            interior(w, h, x2, y2) && !(x2 == x0 && y2 == y0) ==> #[trigger] cell_xy(b1, w, x2, y2)
                == cell_xy(b2, w, x2, y2),
    ensures
        count_rows(b1, w, h, y) == count_rows(b2, w, h, y),
    decreases h - 1 - y,
{
    if !(y < 1 || y >= h - 1) {
        lemma_count_row_mono(b1, b2, w, y, 1);
        lemma_count_row_mono(b2, b1, w, y, 1);
        lemma_count_mono_rest(b1, b2, w, h, y + 1, x0, y0);
    }
}

} // verus!
