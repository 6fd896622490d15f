//! The rectangle that a grid covers, and the numbering of its cells and
//! states by which the search tables are keyed.

use crate::direction::State;
use crate::vec2d::Vec2D;
use vstd::prelude::*;

verus! {

/// Largest number of cells of a grid. With at most this many cells every
/// state has a key below 2^31 and every route cost fits in 64 bits.
pub const MAX_CELLS: usize = 0x2000_0000;

/// Width and height of a grid whose cells are `(x, y)` with
/// `0 <= x < width` and `0 <= y < height`.
#[derive(Debug, Clone, Copy, PartialEq, Eq, Structural)]
pub struct Bounds {
    pub width: i32,
    pub height: i32,
}

impl Bounds {
    /// Neither side is negative and the area is within `MAX_CELLS`.
    pub open spec fn wf(self) -> bool {
        &&& 0 <= self.width
        &&& 0 <= self.height
        &&& self.width * self.height <= MAX_CELLS
    }

    /// Whether `c` is a cell of the grid.
    pub open spec fn spec_contains(self, c: Vec2D) -> bool {
        0 <= c.x < self.width && 0 <= c.y < self.height
    }

    /// Number of cells.
    pub open spec fn spec_cell_count(self) -> int {
        self.width * self.height
    }

    /// Number of states: four per cell.
    pub open spec fn spec_state_count(self) -> int {
        4 * (self.width * self.height)
    }

    /// Row-major number of a cell.
    pub open spec fn spec_cell_index(self, c: Vec2D) -> int {
        c.y * self.width + c.x
    }

    /// Number of a state: four consecutive keys per cell, one per heading.
    pub open spec fn spec_state_index(self, s: State) -> int {
        4 * self.spec_cell_index(s.pos) + s.facing.spec_index()
    }

    /// The bounds with the given sides, if they describe a grid of at most
    /// `MAX_CELLS` cells.
    pub fn new(width: i32, height: i32) -> (r: Option<Bounds>)
        ensures
            r.is_some() <==> (Bounds { width, height }).wf(),
            r.is_some() ==> r.unwrap() == (Bounds { width, height }),
    {
        if width < 0 || height < 0 {
            return None;
        }
        assert(0 <= width * height <= 0x7fff_ffff * 0x7fff_ffff) by (nonlinear_arith)
            requires
                0 <= width <= 0x7fff_ffff,
                0 <= height <= 0x7fff_ffff,
        ;
        let area: i64 = (width as i64) * (height as i64);
        if area > MAX_CELLS as i64 {
            None
        } else {
            Some(Bounds { width, height })
        }
    }

    /// Whether `c` is a cell of the grid.
    pub fn contains(&self, c: Vec2D) -> (b: bool)
        ensures
            b == self.spec_contains(c),
    {
        0 <= c.x && c.x < self.width && 0 <= c.y && c.y < self.height
    }

    /// Number of cells.
    pub fn cell_count(&self) -> (n: usize)
        requires
            self.wf(),
        ensures
            n == self.spec_cell_count(),
            n <= MAX_CELLS,
    {
        (self.width as usize) * (self.height as usize)
    }

    /// Number of states.
    pub fn state_count(&self) -> (n: usize)
        requires
            self.wf(),
        ensures
            n == self.spec_state_count(),
            n <= 4 * MAX_CELLS,
    {
        4 * self.cell_count()
    }

    /// Row-major number of a cell of the grid.
    pub fn cell_index(&self, c: Vec2D) -> (i: usize)
        requires
            self.wf(),
            self.spec_contains(c),
        ensures
            i == self.spec_cell_index(c),
            i < self.spec_cell_count(),
    {
        proof {
            lemma_cell_index_range(self.width as int, self.height as int, c.x as int, c.y as int);
        }
        (c.y as usize) * (self.width as usize) + (c.x as usize)
    }

    /// Key of a state whose position is a cell of the grid.
    pub fn state_index(&self, s: State) -> (i: usize)
        requires
            self.wf(),
            self.spec_contains(s.pos),
        ensures
            i == self.spec_state_index(s),
            i < self.spec_state_count(),
    {
        4 * self.cell_index(s.pos) + s.facing.index()
    }

    /// The number of a cell of the grid lies below the number of cells.
    pub proof fn lemma_cell_range(self, c: Vec2D)
        requires
            self.spec_contains(c),
        ensures
            0 <= self.spec_cell_index(c) < self.spec_cell_count(),
    {
        lemma_cell_index_range(self.width as int, self.height as int, c.x as int, c.y as int);
    }

    /// Different cells of the grid have different numbers.
    pub proof fn lemma_cell_injective(self, c: Vec2D, d: Vec2D)
        requires
            self.spec_contains(c),
            self.spec_contains(d),
        ensures
            self.spec_cell_index(c) == self.spec_cell_index(d) ==> c == d,
    {
        lemma_row_major_injective(
            self.width as int,
            c.x as int,
            c.y as int,
            d.x as int,
            d.y as int,
        );
    }

    /// Different cells of the grid have different numbers, and so have
    /// different states.
    pub proof fn lemma_index_injective(self, s: State, t: State)
        requires
            self.spec_contains(s.pos),
            self.spec_contains(t.pos),
        ensures
            self.spec_cell_index(s.pos) == self.spec_cell_index(t.pos) ==> s.pos == t.pos,
            self.spec_state_index(s) == self.spec_state_index(t) ==> s == t,
    {
        lemma_row_major_injective(
            self.width as int,
            s.pos.x as int,
            s.pos.y as int,
            t.pos.x as int,
            t.pos.y as int,
        );
    }

    /// The key of a state of the grid lies below the number of states.
    pub proof fn lemma_index_range(self, s: State)
        requires
            self.spec_contains(s.pos),
        ensures
            0 <= self.spec_cell_index(s.pos) < self.spec_cell_count(),
            0 <= self.spec_state_index(s) < self.spec_state_count(),
    {
        lemma_cell_index_range(
            self.width as int,
            self.height as int,
            s.pos.x as int,
            s.pos.y as int,
        );
    }
}

/// Row-major numbers of the cells of a `w` by `h` rectangle lie below
/// `w * h`.
proof fn lemma_cell_index_range(w: int, h: int, x: int, y: int)
    requires
        0 <= x < w,
        0 <= y < h,
    ensures
        0 <= y * w + x < w * h,
        0 <= y * w,
{
    assert(0 <= y * w) by (nonlinear_arith)
        requires
            0 <= y,
            0 <= w,
    ;
    assert((y + 1) * w <= h * w) by (nonlinear_arith)
        requires
            y + 1 <= h,
            0 <= w,
    ;
    assert((y + 1) * w == y * w + w) by (nonlinear_arith);
    assert(h * w == w * h) by (nonlinear_arith);
}

/// A row-major number determines the column and the row.
proof fn lemma_row_major_injective(w: int, x1: int, y1: int, x2: int, y2: int)
    requires
        0 <= x1 < w,
        0 <= x2 < w,
    ensures
        y1 * w + x1 == y2 * w + x2 ==> x1 == x2 && y1 == y2,
{
    if y1 < y2 {
        assert((y1 + 1) * w <= y2 * w) by (nonlinear_arith)
            requires
                y1 + 1 <= y2,
                0 <= w,
        ;
        assert((y1 + 1) * w == y1 * w + w) by (nonlinear_arith);
    } else if y2 < y1 {
        assert((y2 + 1) * w <= y1 * w) by (nonlinear_arith)
            requires
                y2 + 1 <= y1,
                0 <= w,
        ;
        assert((y2 + 1) * w == y2 * w + w) by (nonlinear_arith);
    }
}

} // verus!
