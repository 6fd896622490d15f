//! From a state to the states one move away.

use crate::direction::{lemma_index_round_trip, Direction, State};
use crate::maze::Maze;
use crate::paths::{is_step, step_cost};
use crate::vec2d::Vec2D;
use vstd::prelude::*;

verus! {

/// Position in the turning order of the heading opposite to `d`.
pub open spec fn reverse_index(d: Direction) -> int {
    (d.spec_index() + 2) % 4
}

impl Maze {
    /// The moves out of `s`, each with its cost: one for every heading
    /// other than the reverse of that of `s` whose next cell is a cell of
    /// the grid and no wall. They come in turning order of their headings.
    pub fn neighbours(&self, s: State) -> (out: Vec<(State, u64)>)
        requires
            self.wf(),
        ensures
            out@.len() <= 3,
            forall|j: int|
                0 <= j < out@.len() ==> is_step(self, s, (#[trigger] out@[j]).0) && out@[j].1
                    == step_cost(s.facing, out@[j].0.facing),
            forall|t: State|
                is_step(self, s, t) ==> exists|j: int|
                    0 <= j < out@.len() && (#[trigger] out@[j]).0 == t,
            forall|i: int, j: int|
                0 <= i < j < out@.len() ==> (#[trigger] out@[i]).0.facing.spec_index() < (
                #[trigger] out@[j]).0.facing.spec_index(),
    {
        let dirs: [Direction; 4] = Direction::all();
        let wh: (i32, i32) = self.bounds();
        let mut out: Vec<(State, u64)> = Vec::new();
        let mut k: usize = 0;
        while k < 4
            invariant
                self.wf(),
                k <= 4,
                wh.0 == self.spec_bounds().width,
                wh.1 == self.spec_bounds().height,
                forall|i: int| 0 <= i < 4 ==> dirs[i] == Direction::spec_from_index(i),
                out@.len() + (if reverse_index(s.facing) < k {
                    1int
                } else {
                    0int
                }) <= k,
                forall|j: int|
                    0 <= j < out@.len() ==> is_step(self, s, (#[trigger] out@[j]).0) && out@[j].1
                        == step_cost(s.facing, out@[j].0.facing) && out@[j].0.facing.spec_index()
                        < k,
                forall|t: State|
                    is_step(self, s, t) && t.facing.spec_index() < k ==> exists|j: int|
                        0 <= j < out@.len() && (#[trigger] out@[j]).0 == t,
                forall|i: int, j: int|
                    0 <= i < j < out@.len() ==> (#[trigger] out@[i]).0.facing.spec_index() < (
                    #[trigger] out@[j]).0.facing.spec_index(),
            decreases 4 - k,
        {
            let d: Direction = dirs[k];
            let turns: i32 = s.facing.turns_to(d);
            let ghost before = out@;
            let mut added: bool = false;
            if turns != 2 {
                let step: Vec2D = d.delta();
                let nx: i64 = s.pos.x as i64 + step.x as i64;
                let ny: i64 = s.pos.y as i64 + step.y as i64;
                if 0 <= nx && nx < wh.0 as i64 && 0 <= ny && ny < wh.1 as i64 {
                    let next: Vec2D = Vec2D::new(nx as i32, ny as i32);
                    if !self.is_wall(next) {
                        let cost: u64 = (turns as u64) * 1000 + 1;
                        out.push((State::new(next, d), cost));
                        added = true;
                    }
                }
            }
            proof {
                lemma_index_round_trip(d);
                assert(dirs[k as int] == Direction::spec_from_index(k as int));
                assert(d.spec_index() == k);
                assert forall|t: State|
                    is_step(self, s, t) && t.facing.spec_index() < k + 1 implies exists|j: int|
                    0 <= j < out@.len() && (#[trigger] out@[j]).0 == t by {
                    lemma_index_round_trip(t.facing);
                    if t.facing.spec_index() < k {
                        let j = choose|j: int| 0 <= j < before.len() && (#[trigger] before[j]).0 == t;
                        assert(out@[j].0 == t);
                    } else {
                        assert(t.facing == d);
                        assert(added);
                        assert(out@[out@.len() - 1].0 == t);
                    }
                }
            }
            k = k + 1;
        }
        out
    }
}

} // verus!
