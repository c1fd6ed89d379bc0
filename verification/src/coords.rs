//! Cell coordinates, rectangles of cells and the layout of a grid in memory.

use vstd::prelude::*;

verus! {

/// A cell's position as (column, row), both counted from 1.
pub type Coord = (u16, u16);

/// The largest number of rows a grid may have.
pub const MAX_ROWS: usize = 999;

/// The largest number of columns a grid may have (the column `ZZZ`).
pub const MAX_COLS: usize = 18278;

/// `c` lies in the rectangle whose low corner is `start` and whose high
/// corner is `end`. The rectangle is empty when `start` exceeds `end` on
/// either axis.
pub open spec fn in_rect(c: Coord, start: Coord, end: Coord) -> bool {
    start.0 <= c.0 <= end.0 && start.1 <= c.1 <= end.1
}

/// The rectangle from `start` to `end` holds no cell.
pub open spec fn rect_is_empty(start: Coord, end: Coord) -> bool {
    start.0 > end.0 || start.1 > end.1
}

/// The number of cells in the rectangle from `start` to `end`.
pub open spec fn rect_size(start: Coord, end: Coord) -> int {
    if rect_is_empty(start, end) {
        0
    } else {
        (end.0 - start.0 + 1) * (end.1 - start.1 + 1)
    }
}

/// The corner of the rectangle spanned by `a` and `b` that is low on both axes.
pub open spec fn low_corner(a: Coord, b: Coord) -> Coord {
    (if a.0 <= b.0 { a.0 } else { b.0 }, if a.1 <= b.1 { a.1 } else { b.1 })
}

/// The corner of the rectangle spanned by `a` and `b` that is high on both axes.
pub open spec fn high_corner(a: Coord, b: Coord) -> Coord {
    (if a.0 <= b.0 { b.0 } else { a.0 }, if a.1 <= b.1 { b.1 } else { a.1 })
}

/// Orders two corners given in any order into (low corner, high corner).
pub fn normalize_corners(a: Coord, b: Coord) -> (r: (Coord, Coord))
    ensures
        r.0 == low_corner(a, b),
        r.1 == high_corner(a, b),
{
    let lo_col = if a.0 <= b.0 { a.0 } else { b.0 };
    let hi_col = if a.0 <= b.0 { b.0 } else { a.0 };
    let lo_row = if a.1 <= b.1 { a.1 } else { b.1 };
    let hi_row = if a.1 <= b.1 { b.1 } else { a.1 };
    ((lo_col, lo_row), (hi_col, hi_row))
}

/// Whether `c` lies in the rectangle from `start` to `end`.
pub fn within(c: Coord, start: Coord, end: Coord) -> (r: bool)
    ensures
        r == in_rect(c, start, end),
{
    start.0 <= c.0 && c.0 <= end.0 && start.1 <= c.1 && c.1 <= end.1
}

/// Whether `cell` lies in the rectangle spanned by the corners `start` and
/// `end`, which may be given in any order.
pub fn is_within_range(cell: Coord, start: Coord, end: Coord) -> (r: bool)
    ensures
        r == in_rect(cell, low_corner(start, end), high_corner(start, end)),
{
    let (lo, hi) = normalize_corners(start, end);
    cell.0 >= lo.0 && cell.0 <= hi.0 && cell.1 >= lo.1 && cell.1 <= hi.1
}

/// The size of a grid: how many rows and columns it has.
#[derive(Clone, Copy, Debug, PartialEq, Eq, Structural)]
pub struct Dims {
    pub rows: u16,
    pub cols: u16,
}

impl Dims {
    /// Both sizes are within the limits of a grid.
    pub open spec fn valid(self) -> bool {
        1 <= self.rows <= MAX_ROWS && 1 <= self.cols <= MAX_COLS
    }

    /// `c` names a cell of a grid of this size.
    pub open spec fn contains(self, c: Coord) -> bool {
        1 <= c.0 <= self.cols && 1 <= c.1 <= self.rows
    }

    /// The number of cells.
    pub open spec fn size(self) -> int {
        self.rows * self.cols
    }

    /// The place of cell `c` in a row-by-row layout of the grid.
    pub open spec fn index(self, c: Coord) -> int {
        (c.1 - 1) * self.cols + (c.0 - 1)
    }

    /// Every cell of the grid has a place below `size`.
    pub proof fn lemma_index_bound(self, c: Coord)
        requires
            self.valid(),
            self.contains(c),
        ensures
            0 <= self.index(c) < self.size(),
            self.size() <= MAX_ROWS * MAX_COLS,
    {
        let r = c.1 - 1;
        let rows = self.rows as int;
        let cols = self.cols as int;
        assert(r * cols >= 0) by (nonlinear_arith)
            requires r >= 0, cols >= 0;
        assert((r + 1) * cols <= rows * cols) by (nonlinear_arith)
            requires r + 1 <= rows, cols >= 0;
        assert((r + 1) * cols == r * cols + cols) by (nonlinear_arith);
        assert(rows * cols <= MAX_ROWS * MAX_COLS) by (nonlinear_arith)
            requires 0 <= rows <= MAX_ROWS, 0 <= cols <= MAX_COLS;
    }

    /// Two cells of the grid that share a place are the same cell.
    pub proof fn lemma_index_injective(self, a: Coord, b: Coord)
        requires
            self.valid(),
            self.contains(a),
            self.contains(b),
            self.index(a) == self.index(b),
        ensures
            a == b,
    {
        let cols = self.cols as int;
        let ra = a.1 - 1;
        let rb = b.1 - 1;
        if ra < rb {
            assert((ra + 1) * cols <= rb * cols) by (nonlinear_arith)
                requires ra + 1 <= rb, cols >= 0;
            assert((ra + 1) * cols == ra * cols + cols) by (nonlinear_arith);
        } else if rb < ra {
            assert((rb + 1) * cols <= ra * cols) by (nonlinear_arith)
                requires rb + 1 <= ra, cols >= 0;
            assert((rb + 1) * cols == rb * cols + cols) by (nonlinear_arith);
        }
    }

    /// Whether `c` names a cell of the grid.
    pub fn holds(&self, c: Coord) -> (r: bool)
        ensures
            r == self.contains(c),
    {
        1 <= c.0 && c.0 <= self.cols && 1 <= c.1 && c.1 <= self.rows
    }

    /// The number of cells, as a length for the vectors that hold them.
    pub fn len(&self) -> (n: usize)
        requires
            self.valid(),
        ensures
            n == self.size(),
            n <= MAX_ROWS * MAX_COLS,
    {
        proof {
            self.lemma_index_bound((1u16, 1u16));
        }
        self.rows as usize * self.cols as usize
    }

    /// The place of cell `c` in a vector of `len` cells.
    pub fn offset(&self, c: Coord) -> (i: usize)
        requires
            self.valid(),
            self.contains(c),
        ensures
            i == self.index(c),
            i < self.size(),
    {
        proof {
            self.lemma_index_bound(c);
            let r = c.1 - 1;
            let cols = self.cols as int;
            assert(r * cols >= 0) by (nonlinear_arith)
                requires r >= 0, cols >= 0;
        }
        (c.1 as usize - 1) * self.cols as usize + (c.0 as usize - 1)
    }
}

} // verus!
