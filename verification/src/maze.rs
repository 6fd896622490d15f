//! The grid model: bounds, walls, and the start and end cells.

use crate::bounds::Bounds;
use crate::sequences::{filled, lemma_take_one_more};
use crate::vec2d::Vec2D;
use vstd::prelude::*;

verus! {

/// A rectangular grid with impassable cells, a start cell and an end cell.
/// A maze is built once and never changes.
pub struct Maze {
    bounds: Bounds,
    start: Vec2D,
    end: Vec2D,
    walls: Vec<bool>,
}

impl Maze {
    /// Width and height of the grid.
    pub closed spec fn spec_bounds(&self) -> Bounds {
        self.bounds
    }

    /// The cell where routes begin.
    pub closed spec fn spec_start(&self) -> Vec2D {
        self.start
    }

    /// The cell where routes end.
    pub closed spec fn spec_end(&self) -> Vec2D {
        self.end
    }

    /// Whether `c` is a cell of the grid that is marked impassable.
    pub closed spec fn spec_is_wall(&self, c: Vec2D) -> bool {
        self.bounds.spec_contains(c) && self.walls@[self.bounds.spec_cell_index(c)]
    }

    /// Whether `c` can be entered: a cell of the grid that is no wall.
    pub open spec fn spec_is_open(&self, c: Vec2D) -> bool {
        self.spec_bounds().spec_contains(c) && !self.spec_is_wall(c)
    }

    /// The wall table covers the grid.
    pub closed spec fn table_ok(&self) -> bool {
        self.walls@.len() == self.bounds.spec_cell_count()
    }

    /// The grid has at most `MAX_CELLS` cells, and the start and the end are
    /// cells of it.
    pub open spec fn wf(&self) -> bool {
        &&& self.table_ok()
        &&& self.spec_bounds().wf()
        &&& self.spec_bounds().spec_contains(self.spec_start())
        &&& self.spec_bounds().spec_contains(self.spec_end())
    }

    /// No wall lies outside the grid.
    pub proof fn lemma_walls_inside(&self, c: Vec2D)
        ensures
            self.spec_is_wall(c) ==> self.spec_bounds().spec_contains(c),
    {
    }

    /// Creates a new maze of the given size. The cells of `walls` that lie
    /// in the grid become impassable; those outside it are of no account,
    /// since nothing outside the grid can be entered anyway.
    pub fn new(width: i32, height: i32, start: Vec2D, end: Vec2D, walls: &Vec<Vec2D>) -> (m: Maze)
        requires
            (Bounds { width, height }).wf(),
            (Bounds { width, height }).spec_contains(start),
            (Bounds { width, height }).spec_contains(end),
        ensures
            m.wf(),
            m.spec_bounds() == (Bounds { width, height }),
            m.spec_start() == start,
            m.spec_end() == end,
            forall|c: Vec2D|
                m.spec_is_wall(c) <==> ((Bounds { width, height }).spec_contains(c)
                    && walls@.contains(c)),
    {
        let bounds = Bounds { width, height };
        let n: usize = bounds.cell_count();
        let mut table: Vec<bool> = filled(n, false);
        let mut i: usize = 0;
        proof {
            assert forall|c: Vec2D| bounds.spec_contains(c) implies !table@[#[trigger] bounds.spec_cell_index(
                c,
            )] && !walls@.take(0).contains(c) by {
                bounds.lemma_cell_range(c);
            }
        }
        while i < walls.len()
            invariant
                bounds.wf(),
                i <= walls@.len(),
                table@.len() == bounds.spec_cell_count(),
                forall|c: Vec2D|
                    bounds.spec_contains(c) ==> (table@[#[trigger] bounds.spec_cell_index(c)]
                        <==> walls@.take(i as int).contains(c)),
            decreases walls@.len() - i,
        {
            let w: Vec2D = walls[i];
            if bounds.contains(w) {
                let k: usize = bounds.cell_index(w);
                table[k] = true;
            }
            proof {
                assert forall|c: Vec2D| bounds.spec_contains(c) implies (table@[#[trigger] bounds.spec_cell_index(
                    c,
                )] <==> walls@.take(i + 1).contains(c)) by {
                    lemma_take_one_more(walls@, i as int, c);
                    bounds.lemma_cell_range(c);
                    if bounds.spec_contains(w) {
                        bounds.lemma_cell_injective(c, w);
                    }
                }
            }
            i = i + 1;
        }
        proof {
            assert(walls@.take(walls@.len() as int) =~= walls@);
        }
        Maze { bounds, start, end, walls: table }
    }

    /// Width and height of the grid.
    pub fn bounds(&self) -> (wh: (i32, i32))
        ensures
            wh.0 == self.spec_bounds().width,
            wh.1 == self.spec_bounds().height,
    {
        (self.bounds.width, self.bounds.height)
    }

    /// The bounds as a value that numbers cells and states.
    pub fn extent(&self) -> (b: Bounds)
        ensures
            b == self.spec_bounds(),
    {
        self.bounds
    }

    /// The cell where routes begin.
    pub fn start(&self) -> (c: Vec2D)
        ensures
            c == self.spec_start(),
    {
        self.start
    }

    /// The cell where routes end.
    pub fn end(&self) -> (c: Vec2D)
        ensures
            c == self.spec_end(),
    {
        self.end
    }

    /// Whether `c` is marked impassable.
    pub fn is_wall(&self, c: Vec2D) -> (b: bool)
        requires
            self.wf(),
        ensures
            b == self.spec_is_wall(c),
    {
        if self.bounds.contains(c) {
            let k: usize = self.bounds.cell_index(c);
            self.walls[k]
        } else {
            false
        }
    }

    /// Whether `c` can be entered.
    pub fn is_open(&self, c: Vec2D) -> (b: bool)
        requires
            self.wf(),
        ensures
            b == self.spec_is_open(c),
    {
        self.bounds.contains(c) && !self.is_wall(c)
    }
}

} // verus!
