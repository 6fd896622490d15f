//! The search itself: least costs from one state to every state, and the
//! least cost of reaching the end cell.

use crate::direction::{lemma_index_round_trip, Direction, State};
use crate::heap::{MinHeap, Node};
use crate::maze::Maze;
use crate::paths::{
    arrives, best_cost, connects, distance, is_best_cost, lemma_best_cost, lemma_distance,
    route_cost,
};
use crate::search::{
    distances_agree, lemma_expanded, lemma_finished, lemma_initial, lemma_relaxed, lemma_settled,
    lemma_skipped, parents_agree, Search,
};
use crate::tables::{DistanceMap, ParentMap, StateSet};
use crate::vec2d::Vec2D;
use vstd::prelude::*;

verus! {

/// What a search returns: the least cost of reaching the end cell, the
/// least cost of every state, and the predecessors of every state on
/// cheapest routes.
pub struct Solution {
    /// Least cost of a route to the end cell, or `None` if the end cell
    /// cannot be reached.
    pub minimal_cost: Option<u64>,
    /// Least cost of each state that can be reached.
    pub distances: DistanceMap,
    /// For each state, the states from which a move lies on a cheapest
    /// route to it.
    pub parents: ParentMap,
}

/// `least` is the least recorded cost among the four states on `cell`, or
/// `None` if none of them has an entry.
pub open spec fn is_least_at(dist: Map<State, u64>, cell: Vec2D, least: Option<u64>) -> bool {
    &&& least.is_none() ==> forall|d: Direction| !dist.contains_key(State { pos: cell, facing: d })
    &&& least.is_some() ==> {
        &&& exists|d: Direction|
            dist.contains_key(State { pos: cell, facing: d }) && dist[State { pos: cell, facing: d }]
                == least.unwrap()
        &&& forall|d: Direction|
            dist.contains_key(State { pos: cell, facing: d }) ==> least.unwrap()
                <= dist[State { pos: cell, facing: d }]
    }
}

/// `cost`, read as an unbounded integer.
pub open spec fn as_int(cost: Option<u64>) -> Option<int> {
    match cost {
        Some(c) => Some(c as int),
        None => None,
    }
}

/// The least recorded cost on a cell is the least cost of reaching the
/// cell, where the records are the least costs of the states.
pub proof fn lemma_least_is_best(
    m: &Maze,
    src: State,
    dist: Map<State, u64>,
    cell: Vec2D,
    least: Option<u64>,
)
    requires
        distances_agree(m, src, dist),
        is_least_at(dist, cell, least),
    ensures
        best_cost(m, src, cell) == as_int(least),
{
    lemma_best_cost(m, src, cell);
    assert forall|p: Seq<State>| arrives(m, p, src, cell) implies least.is_some() && route_cost(p)
        >= least.unwrap() by {
        let s = p.last();
        assert(s == State { pos: cell, facing: s.facing });
        assert(connects(m, p, src, s));
        lemma_distance(m, src, s);
        assert(dist.contains_key(s));
    }
    if least.is_some() {
        let d = choose|d: Direction|
            dist.contains_key(State { pos: cell, facing: d }) && dist[State { pos: cell, facing: d }]
                == least.unwrap();
        let s = State { pos: cell, facing: d };
        lemma_distance(m, src, s);
        assert(distance(m, src, s) == Some(dist[s] as int));
        let p = choose|p: Seq<State>| connects(m, p, src, s) && route_cost(p) == dist[s];
        assert(arrives(m, p, src, cell));
        assert(is_best_cost(m, src, cell, least.unwrap() as int));
    }
}

impl Solution {
    /// The two tables are keyed alike.
    pub open spec fn wf(&self) -> bool {
        &&& self.distances.wf()
        &&& self.parents.wf()
        &&& self.distances.spec_bounds() == self.parents.spec_bounds()
    }

    /// The solution is that of the search from `src` through `m`: the
    /// distance table holds the least cost of every state that can be
    /// reached and nothing else, the parent table holds for every state
    /// exactly its predecessors on cheapest routes, and the minimal cost is
    /// the least cost of reaching the end cell.
    pub open spec fn spec_solves(&self, m: &Maze, src: State) -> bool {
        &&& self.wf()
        &&& self.distances.spec_bounds() == m.spec_bounds()
        &&& distances_agree(m, src, self.distances@)
        &&& parents_agree(m, src, self.parents@)
        &&& best_cost(m, src, m.spec_end()) == as_int(self.minimal_cost)
    }
}

/// The least recorded cost among the four states on `cell`.
pub fn least_cost_at(dist: &DistanceMap, cell: Vec2D) -> (least: Option<u64>)
    requires
        dist.wf(),
    ensures
        is_least_at(dist@, cell, least),
{
    let dirs: [Direction; 4] = Direction::all();
    let mut least: Option<u64> = None;
    let mut k: usize = 0;
    while k < 4
        invariant
            dist.wf(),
            k <= 4,
            forall|i: int| 0 <= i < 4 ==> dirs[i] == Direction::spec_from_index(i),
            least.is_none() ==> forall|d: Direction|
                d.spec_index() < k ==> !(#[trigger] dist@.contains_key(
                    State { pos: cell, facing: d },
                )),
            least.is_some() ==> {
                &&& exists|d: Direction|
                    dist@.contains_key(State { pos: cell, facing: d }) && dist@[State {
                        pos: cell,
                        facing: d,
                    }] == least.unwrap()
                &&& forall|d: Direction|
                    d.spec_index() < k && #[trigger] dist@.contains_key(
                        State { pos: cell, facing: d },
                    ) ==> least.unwrap() <= dist@[State { pos: cell, facing: d }]
            },
        decreases 4 - k,
    {
        let d: Direction = dirs[k];
        let here: Option<u64> = dist.get(State::new(cell, d));
        proof {
            lemma_index_round_trip(d);
            assert forall|e: Direction| e.spec_index() == k implies e == d by {
                lemma_index_round_trip(e);
            }
        }
        match here {
            Some(c) => {
                let better: bool = match least {
                    Some(b) => c < b,
                    None => true,
                };
                if better {
                    least = Some(c);
                }
            },
            None => {},
        }
        k = k + 1;
    }
    proof {
        assert forall|d: Direction| #[trigger] d.spec_index() < 4 by {
            lemma_index_round_trip(d);
        }
    }
    least
}

impl Maze {
    /// Solves the maze from the state at `start` that faces `facing`:
    /// relaxes moves in order of cost until the frontier is empty, so that
    /// every state that can be reached has its least cost and all its
    /// predecessors on cheapest routes.
    #[verifier::loop_isolation(false)]
    pub fn solve(&self, start: Vec2D, facing: Direction) -> (sol: Solution)
        requires
            self.wf(),
            self.spec_bounds().spec_contains(start),
        ensures
            sol.spec_solves(self, State { pos: start, facing }),
    {
        let bounds = self.extent();
        let src: State = State::new(start, facing);
        let mut dist: DistanceMap = DistanceMap::new(bounds);
        let mut par: ParentMap = ParentMap::new(bounds);
        let mut settled: StateSet = StateSet::new(bounds);
        let mut heap: MinHeap = MinHeap::new();
        dist.set(src, 0);
        heap.push(Node::new(0, src));
        let ghost mut st: Search = Search::initial(src);
        let ghost total: int = bounds.spec_state_count();
        proof {
            lemma_initial(self, src);
            settled.lemma_inside();
        }
        while !heap.is_empty()
            invariant
                dist.wf(),
                par.wf(),
                settled.wf(),
                heap.wf(),
                dist.spec_bounds() == bounds,
                par.spec_bounds() == bounds,
                settled.spec_bounds() == bounds,
                st.inv(self, src),
                st.pending == Set::<State>::empty(),
                st.dist == dist@,
                st.par == par@,
                st.queue == heap@,
                st.done == settled@,
                st.count == settled.spec_len(),
                settled.spec_len() <= total,
            decreases 4 * (total - settled.spec_len()) + heap.spec_len(),
        {
            let popped: Option<Node> = heap.pop();
            let n: Node = popped.unwrap();
            let u: State = n.state();
            let known: Option<u64> = dist.get(u);
            let current: bool = match known {
                Some(c) => c == n.cost,
                None => false,
            };
            if settled.contains(u) || !current {
                // an entry that a cheaper one has overtaken
                proof {
                    lemma_skipped(self, src, st, n);
                    st = st.skipped(n);
                }
                continue ;
            }
            // the least entry that is up to date: its cost is final
            let cost: u64 = n.cost;
            proof {
                dist.lemma_keys_inside(u);
            }
            settled.insert(u);
            proof {
                settled.lemma_inside();
                lemma_settled(self, src, st, n);
                st = st.settled(n);
            }
            let nbrs: Vec<(State, u64)> = self.neighbours(u);
            let ghost queued: int = heap.spec_len() as int;
            let mut j: usize = 0;
            while j < nbrs.len()
                invariant
                    dist.wf(),
                    par.wf(),
                    heap.wf(),
                    dist.spec_bounds() == bounds,
                    par.spec_bounds() == bounds,
                    st.inv(self, src),
                    st.cur == u,
                    st.dist == dist@,
                    st.par == par@,
                    st.queue == heap@,
                    st.done == settled@,
                    st.count == settled.spec_len(),
                    dist@.contains_key(u),
                    dist@[u] == cost,
                    j <= nbrs@.len(),
                    forall|i: int| 0 <= i < j ==> !st.pending.contains((#[trigger] nbrs@[i]).0),
                    heap.spec_len() <= queued + j,
                decreases nbrs@.len() - j,
            {
                let v: State = nbrs[j].0;
                let w: u64 = nbrs[j].1;
                proof {
                    lemma_relaxed(self, src, st, v);
                    assert(u != v);
                }
                let cand: u64 = cost + w;
                let seen: Option<u64> = dist.get(v);
                let lower: bool = match seen {
                    Some(c) => cand < c,
                    None => true,
                };
                let equal: bool = match seen {
                    Some(c) => cand == c,
                    None => false,
                };
                if lower {
                    // found a first or a better way
                    dist.set(v, cand);
                    par.reset(v, u);
                    heap.push(Node::new(cand, v));
                } else if equal {
                    // found another way that is as good
                    par.add(v, u);
                }
                proof {
                    st = st.relaxed(v);
                }
                j = j + 1;
            }
            proof {
                lemma_expanded(self, src, st);
                st = st.expanded();
            }
        }
        proof {
            lemma_finished(self, src, st);
        }
        // the end may be entered under any heading
        let minimal_cost: Option<u64> = least_cost_at(&dist, self.end());
        proof {
            lemma_least_is_best(self, src, dist@, self.spec_end(), minimal_cost);
        }
        Solution { minimal_cost, distances: dist, parents: par }
    }
}

} // verus!
