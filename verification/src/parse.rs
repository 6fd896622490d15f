//! Reading a maze from its picture: lines of characters in which `#` is a
//! wall, `S` the start and `E` the end, and every other character open
//! floor.

use crate::bounds::{Bounds, MAX_CELLS};
use crate::maze::Maze;
use crate::sequences::lemma_push_to_set;
use crate::vec2d::Vec2D;
use vstd::prelude::*;

verus! {

/// The byte that ends a line.
pub const LINE_FEED: u8 = 10;

/// The byte that may stand before a line feed and is no cell.
pub const CARRIAGE_RETURN: u8 = 13;

/// The byte of a wall.
pub const WALL: u8 = 35;

/// The byte of the start cell.
pub const START: u8 = 83;

/// The byte of the end cell.
pub const END: u8 = 69;

/// Whether a byte of the picture stands for a cell.
pub open spec fn is_cell(b: u8) -> bool {
    b != LINE_FEED && b != CARRIAGE_RETURN
}

/// Column and row at which byte `i` of the picture stands: a line feed
/// begins a new row, a carriage return takes no room, and every other byte
/// takes one column.
pub open spec fn cursor_at(text: Seq<u8>, i: int) -> (int, int)
    decreases i,
{
    if i <= 0 {
        (0, 0)
    } else {
        let before = cursor_at(text, i - 1);
        let b = text[i - 1];
        if b == LINE_FEED {
            (0, before.1 + 1)
        } else if b == CARRIAGE_RETURN {
            before
        } else {
            (before.0 + 1, before.1)
        }
    }
}

/// Number of columns that the cells among the first `n` bytes take.
pub open spec fn span_x(text: Seq<u8>, n: int) -> int
    decreases n,
{
    if n <= 0 {
        0
    } else {
        let w = span_x(text, n - 1);
        if is_cell(text[n - 1]) && cursor_at(text, n - 1).0 + 1 > w {
            cursor_at(text, n - 1).0 + 1
        } else {
            w
        }
    }
}

/// Number of rows that the cells among the first `n` bytes take.
pub open spec fn span_y(text: Seq<u8>, n: int) -> int
    decreases n,
{
    if n <= 0 {
        0
    } else {
        let h = span_y(text, n - 1);
        if is_cell(text[n - 1]) && cursor_at(text, n - 1).1 + 1 > h {
            cursor_at(text, n - 1).1 + 1
        } else {
            h
        }
    }
}

/// Where the last byte `mark` among the first `n` bytes stands, or
/// `(1, 1)` if there is none.
pub open spec fn last_mark(text: Seq<u8>, mark: u8, n: int) -> (int, int)
    decreases n,
{
    if n <= 0 {
        (1, 1)
    } else if text[n - 1] == mark {
        cursor_at(text, n - 1)
    } else {
        last_mark(text, mark, n - 1)
    }
}

/// Some byte `mark` among the first `n` bytes stands at `c`.
pub open spec fn marked(text: Seq<u8>, mark: u8, n: int, c: (int, int)) -> bool {
    exists|j: int| 0 <= j < n && #[trigger] text[j] == mark && cursor_at(text, j) == c
}

/// `c` is a cell of the rectangle of the given sides.
pub open spec fn inside(c: (int, int), w: int, h: int) -> bool {
    0 <= c.0 < w && 0 <= c.1 < h
}

/// The picture describes a maze: it has at most `MAX_CELLS` cells, and the
/// start and the end lie within it.
pub open spec fn readable(text: Seq<u8>) -> bool {
    let n = text.len() as int;
    &&& span_x(text, n) * span_y(text, n) <= MAX_CELLS
    &&& inside(last_mark(text, START, n), span_x(text, n), span_y(text, n))
    &&& inside(last_mark(text, END, n), span_x(text, n), span_y(text, n))
}

/// More bytes never take fewer columns or rows, and the cursor never
/// leaves the first quadrant.
pub proof fn lemma_span_grows(text: Seq<u8>, i: int, n: int)
    requires
        0 <= i <= n,
    ensures
        0 <= span_x(text, i) <= span_x(text, n),
        0 <= span_y(text, i) <= span_y(text, n),
        0 <= cursor_at(text, i).0 <= i,
        0 <= cursor_at(text, i).1 <= i,
    decreases n,
{
    if i < n {
        lemma_span_grows(text, i, n - 1);
    } else if i > 0 {
        lemma_span_grows(text, i - 1, i - 1);
    }
}

/// Whether `mark` stands at `c` among one byte more depends on the bytes
/// before and on the last byte alone.
pub proof fn lemma_marked_step(text: Seq<u8>, mark: u8, n: int, c: (int, int))
    requires
        0 <= n < text.len(),
    ensures
        marked(text, mark, n + 1, c) <==> (marked(text, mark, n, c) || (text[n] == mark
            && cursor_at(text, n) == c)),
{
    if marked(text, mark, n + 1, c) {
        let j = choose|j: int| 0 <= j < n + 1 && #[trigger] text[j] == mark && cursor_at(text, j) == c;
        if j < n {
            assert(marked(text, mark, n, c));
        }
    }
    if marked(text, mark, n, c) {
        let j = choose|j: int| 0 <= j < n && #[trigger] text[j] == mark && cursor_at(text, j) == c;
        assert(0 <= j < n + 1 && text[j] == mark && cursor_at(text, j) == c);
    }
    if text[n] == mark && cursor_at(text, n) == c {
        assert(0 <= n < n + 1 && text[n] == mark && cursor_at(text, n) == c);
    }
}

/// A rectangle with a side beyond `MAX_CELLS` and a cell in it has more
/// than `MAX_CELLS` cells.
pub proof fn lemma_too_large(w: int, h: int)
    requires
        w > MAX_CELLS && h >= 1 || h > MAX_CELLS && w >= 1,
    ensures
        w * h > MAX_CELLS,
{
    assert(w * h >= w && w * h >= h) by (nonlinear_arith)
        requires
            w >= 1,
            h >= 1,
    ;
}

/// Reads a maze from its picture. The grid is as wide as the longest line
/// and as high as the last line that holds a cell; cells that a short line
/// leaves out are open floor. Where the picture holds several starts or
/// ends, the last one counts; where it holds none, the cell `(1, 1)`
/// stands in. Returns `None` if the picture is not readable.
#[verifier::loop_isolation(false)]
pub fn parse(text: &[u8]) -> (r: Option<Maze>)
    ensures
        r.is_some() <==> readable(text@),
        r.is_some() ==> {
            let m = r.unwrap();
            let n = text@.len() as int;
            &&& m.wf()
            &&& m.spec_bounds().width == span_x(text@, n)
            &&& m.spec_bounds().height == span_y(text@, n)
            &&& (m.spec_start().x as int, m.spec_start().y as int) == last_mark(text@, START, n)
            &&& (m.spec_end().x as int, m.spec_end().y as int) == last_mark(text@, END, n)
            &&& forall|c: Vec2D|
                m.spec_is_wall(c) <==> (m.spec_bounds().spec_contains(c) && marked(
                    text@,
                    WALL,
                    n,
                    (c.x as int, c.y as int),
                ))
        },
{
    let n: usize = text.len();
    let mut x: usize = 0;
    let mut y: usize = 0;
    let mut w: usize = 0;
    let mut h: usize = 0;
    let mut start: Vec2D = Vec2D::new(1, 1);
    let mut end: Vec2D = Vec2D::new(1, 1);
    let mut walls: Vec<Vec2D> = Vec::new();
    let mut i: usize = 0;
    while i < n
        invariant
            i <= n,
            n == text@.len(),
            (x as int, y as int) == cursor_at(text@, i as int),
            w == span_x(text@, i as int),
            h == span_y(text@, i as int),
            w <= MAX_CELLS,
            h <= MAX_CELLS,
            (start.x as int, start.y as int) == last_mark(text@, START, i as int),
            (end.x as int, end.y as int) == last_mark(text@, END, i as int),
            forall|c: Vec2D|
                walls@.to_set().contains(c) <==> marked(text@, WALL, i as int, (c.x as int, c.y as int)),
        decreases n - i,
    {
        let b: u8 = text[i];
        let ghost before = walls@;
        proof {
            lemma_span_grows(text@, i as int, i as int);
            lemma_span_grows(text@, i + 1, n as int);
        }
        if b == LINE_FEED {
            x = 0;
            y = y + 1;
        } else if b != CARRIAGE_RETURN {
            if x >= MAX_CELLS || y >= MAX_CELLS {
                proof {
                    if readable(text@) {
                        lemma_too_large(span_x(text@, n as int), span_y(text@, n as int));
                    }
                }
                return None;
            }
            let here: Vec2D = Vec2D::new(x as i32, y as i32);
            if b == WALL {
                walls.push(here);
                proof {
                    lemma_push_to_set(before, here);
                }
            } else if b == START {
                start = here;
            } else if b == END {
                end = here;
            }
            if x + 1 > w {
                w = x + 1;
            }
            if y + 1 > h {
                h = y + 1;
            }
            x = x + 1;
        }
        proof {
            assert forall|c: Vec2D|
                walls@.to_set().contains(c) <==> marked(
                    text@,
                    WALL,
                    i + 1,
                    (c.x as int, c.y as int),
                ) by {
                lemma_marked_step(text@, WALL, i as int, (c.x as int, c.y as int));
            }
        }
        i = i + 1;
    }
    assert(0 <= w * h <= 0x2000_0000 * 0x2000_0000) by (nonlinear_arith)
        requires
            0 <= w <= 0x2000_0000,
            0 <= h <= 0x2000_0000,
    ;
    let area: u64 = (w as u64) * (h as u64);
    if area > MAX_CELLS as u64 {
        return None;
    }
    let width: i32 = w as i32;
    let height: i32 = h as i32;
    let bounds: Bounds = Bounds { width, height };
    if !bounds.contains(start) || !bounds.contains(end) {
        return None;
    }
    let m: Maze = Maze::new(width, height, start, end, &walls);
    proof {
        assert forall|c: Vec2D|
            m.spec_is_wall(c) <==> (m.spec_bounds().spec_contains(c) && marked(
                text@,
                WALL,
                n as int,
                (c.x as int, c.y as int),
            )) by {
            assert(walls@.to_set().contains(c) <==> walls@.contains(c));
        }
    }
    Some(m)
}

} // verus!
