//! The four headings, the quarter turns between them, and search states.

use crate::vec2d::Vec2D;
use vstd::prelude::*;

verus! {

/// A heading on the grid. The variants are listed in turning order, so that
/// neighbours in the list (and the two ends) are a quarter turn apart.
#[derive(Debug, Clone, Copy, PartialEq, Eq, Hash, Structural)]
pub enum Direction {
    North,
    West,
    South,
    East,
}

impl Direction {
    /// Position of the heading in the turning order.
    pub open spec fn spec_index(self) -> int {
        match self {
            Direction::North => 0,
            Direction::West => 1,
            Direction::South => 2,
            Direction::East => 3,
        }
    }

    /// The heading at position `i` of the turning order.
    pub open spec fn spec_from_index(i: int) -> Direction {
        if i == 0 {
            Direction::North
        } else if i == 1 {
            Direction::West
        } else if i == 2 {
            Direction::South
        } else {
            Direction::East
        }
    }

    /// Least number of quarter turns that bring `self` to face `other`:
    /// the distance between the two positions in the turning order, where
    /// the two ends of the order count as neighbours.
    pub open spec fn spec_turns_to(self, other: Direction) -> int {
        let d = if self.spec_index() >= other.spec_index() {
            self.spec_index() - other.spec_index()
        } else {
            other.spec_index() - self.spec_index()
        };
        if d == 3 {
            1
        } else {
            d
        }
    }

    /// The step of length one taken when moving along the heading.
    /// The vertical axis grows southwards.
    pub open spec fn spec_delta(self) -> Vec2D {
        match self {
            Direction::North => Vec2D { x: 0, y: -1i32 },
            Direction::West => Vec2D { x: -1i32, y: 0 },
            Direction::South => Vec2D { x: 0, y: 1 },
            Direction::East => Vec2D { x: 1, y: 0 },
        }
    }

    /// Position of the heading in the turning order.
    pub fn index(self) -> (i: usize)
        ensures
            i == self.spec_index(),
    {
        match self {
            Direction::North => 0,
            Direction::West => 1,
            Direction::South => 2,
            Direction::East => 3,
        }
    }

    /// Returns the number of quarter turns required to face `other` from `self`.
    pub fn turns_to(&self, other: Direction) -> (n: i32)
        ensures
            n == self.spec_turns_to(other),
            0 <= n <= 2,
    {
        let a: usize = self.index();
        let b: usize = other.index();
        let d: usize = if a >= b {
            a - b
        } else {
            b - a
        };
        if d == 3 {
            1
        } else if d == 2 {
            2
        } else if d == 1 {
            1
        } else {
            0
        }
    }

    /// The four headings in turning order.
    pub fn all() -> (a: [Direction; 4])
        ensures
            forall|i: int| 0 <= i < 4 ==> a[i] == Direction::spec_from_index(i),
    {
        [Direction::North, Direction::West, Direction::South, Direction::East]
    }

    /// The step of length one taken when moving along the heading.
    pub fn delta(self) -> (v: Vec2D)
        ensures
            v == self.spec_delta(),
    {
        match self {
            Direction::North => Vec2D::new(0, -1),
            Direction::West => Vec2D::new(-1, 0),
            Direction::South => Vec2D::new(0, 1),
            Direction::East => Vec2D::new(1, 0),
        }
    }
}

/// A position together with the heading in which it was entered. Two states
/// are the same only if both parts agree.
#[derive(Debug, Clone, Copy, PartialEq, Eq, Hash, Structural)]
pub struct State {
    pub pos: Vec2D,
    pub facing: Direction,
}

impl State {
    /// The state at `pos` that faces `facing`.
    pub fn new(pos: Vec2D, facing: Direction) -> (s: State)
        ensures
            s == (State { pos, facing }),
    {
        State { pos, facing }
    }
}

/// The count of quarter turns is the same both ways, is zero between equal
/// headings only, and is never more than two.
pub proof fn lemma_turns(a: Direction, b: Direction)
    ensures
        a.spec_turns_to(b) == b.spec_turns_to(a),
        0 <= a.spec_turns_to(b) <= 2,
        a.spec_turns_to(b) == 0 <==> a == b,
        a.spec_turns_to(b) == 2 <==> (a.spec_index() + 2) % 4 == b.spec_index(),
{
}

/// Going to and from the turning order loses nothing.
pub proof fn lemma_index_round_trip(d: Direction)
    ensures
        0 <= d.spec_index() < 4,
        Direction::spec_from_index(d.spec_index()) == d,
{
}

} // verus!
