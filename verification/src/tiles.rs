//! From a solution to the tiles on best routes: which end states tie, why
//! going back from them along recorded predecessors meets exactly the
//! states of best routes, and the two answers for a maze.

use crate::direction::{lemma_index_round_trip, Direction, State};
use crate::extract::{
    cells_of, extract_optimal_tiles, is_chain, leads_back, lemma_parent_traced, lemma_root_traced,
    link_at, traced,
};
use crate::maze::Maze;
use crate::paths::{
    arrives, best_cost, best_tiles, connects, distance, is_best_cost, is_best_route, is_route,
    is_tight, lemma_best_cost, lemma_distance, lemma_extend, lemma_join, lemma_prefix,
    lemma_suffix, no_cheaper, on_best_route, route_cost, step_at,
};
use crate::search::{distances_agree, parents_agree, parents_or_none};
use crate::solver::{as_int, Solution};
use crate::sequences::lemma_push_to_set;
use crate::vec2d::Vec2D;
use vstd::prelude::*;

verus! {

/// The states on `cell` whose recorded cost is `best`.
pub open spec fn tied(dist: Map<State, u64>, cell: Vec2D, best: Option<u64>) -> Set<State> {
    Set::new(|s: State| s.pos == cell && dist.contains_key(s) && best == Some(dist[s]))
}

/// Going back along a chain of recorded predecessors and then forward
/// again is a route whose cost is the difference of the two distances.
pub proof fn lemma_chain_is_route(
    m: &Maze,
    src: State,
    par: Map<State, Set<State>>,
    c: Seq<State>,
    i: int,
)
    requires
        parents_agree(m, src, par),
        is_chain(par, c),
        distance(m, src, c.first()).is_some(),
        0 <= i < c.len(),
    ensures
        distance(m, src, c[i]).is_some(),
        exists|r: Seq<State>|
            connects(m, r, c[i], c.first()) && route_cost(r) == distance(
                m,
                src,
                c.first(),
            ).unwrap() - distance(m, src, c[i]).unwrap(),
    decreases i,
{
    if i == 0 {
        let r = seq![c.first()];
        assert(connects(m, r, c[0], c.first()) && route_cost(r) == 0);
    } else {
        lemma_chain_is_route(m, src, par, c, i - 1);
        let r = choose|r: Seq<State>|
            connects(m, r, c[i - 1], c.first()) && route_cost(r) == distance(
                m,
                src,
                c.first(),
            ).unwrap() - distance(m, src, c[i - 1]).unwrap();
        assert(link_at(par, c, i - 1));
        assert(is_tight(m, src, c[i], c[i - 1]));
        let one = seq![c[i]];
        assert(is_route(m, one));
        lemma_extend(m, one, c[i - 1]);
        let two = one.push(c[i - 1]);
        assert(route_cost(one) == 0);
        lemma_join(m, two, r);
        let whole = two + r.drop_first();
        assert(connects(m, whole, c[i], c.first()));
    }
}

/// Every beginning of a cheapest route is a cheapest route.
pub proof fn lemma_prefix_shortest(m: &Maze, src: State, p: Seq<State>, k: int)
    requires
        is_route(m, p),
        p.first() == src,
        no_cheaper(m, src, p.last(), route_cost(p)),
        1 <= k <= p.len(),
    ensures
        distance(m, src, p[k - 1]) == Some(route_cost(p.take(k))),
{
    lemma_prefix(m, p, k);
    lemma_suffix(m, p, k - 1);
    let head = p.take(k);
    let tail = p.skip(k - 1);
    assert(connects(m, head, src, p[k - 1]));
    assert forall|q: Seq<State>| connects(m, q, src, p[k - 1]) implies route_cost(q)
        >= route_cost(head) by {
        lemma_join(m, q, tail);
        assert(connects(m, q + tail.drop_first(), src, p.last()));
    }
    lemma_distance(m, src, p[k - 1]);
}

/// Every state of a cheapest route is met when going back from the last
/// state along the predecessors on cheapest routes.
pub proof fn lemma_route_is_traced(
    m: &Maze,
    src: State,
    par: Map<State, Set<State>>,
    roots: Set<State>,
    p: Seq<State>,
    i: int,
)
    requires
        parents_agree(m, src, par),
        is_route(m, p),
        p.first() == src,
        no_cheaper(m, src, p.last(), route_cost(p)),
        roots.contains(p.last()),
        0 <= i < p.len(),
    ensures
        leads_back(par, roots, p[i]),
    decreases p.len() - i,
{
    if i == p.len() - 1 {
        lemma_root_traced(par, roots, p.last());
    } else {
        lemma_route_is_traced(m, src, par, roots, p, i + 1);
        lemma_prefix_shortest(m, src, p, i + 1);
        lemma_prefix_shortest(m, src, p, i + 2);
        lemma_prefix(m, p, i + 1);
        assert(step_at(m, p, i));
        assert(is_tight(m, src, p[i], p[i + 1]));
        assert(parents_or_none(par, p[i + 1]).contains(p[i]));
        lemma_parent_traced(par, roots, p[i + 1], p[i]);
    }
}

/// Going back from the tied end states along the predecessors on cheapest
/// routes meets exactly the tiles that lie on a best route to the end
/// cell.
pub proof fn lemma_traced_tiles(
    m: &Maze,
    src: State,
    dist: Map<State, u64>,
    par: Map<State, Set<State>>,
    best: Option<u64>,
)
    requires
        distances_agree(m, src, dist),
        parents_agree(m, src, par),
        best_cost(m, src, m.spec_end()) == as_int(best),
    ensures
        cells_of(traced(par, tied(dist, m.spec_end(), best))) == best_tiles(m, src, m.spec_end()),
{
    let end = m.spec_end();
    let roots = tied(dist, end, best);
    lemma_best_cost(m, src, end);
    assert forall|tile: Vec2D| cells_of(traced(par, roots)).contains(tile) implies on_best_route(
        m,
        src,
        end,
        tile,
    ) by {
        let d = choose|d: Direction| traced(par, roots).contains(State { pos: tile, facing: d });
        let s = State { pos: tile, facing: d };
        let c = choose|c: Seq<State>| is_chain(par, c) && roots.contains(c.first()) && c.last() == s;
        let e = c.first();
        assert(distance(m, src, e) == Some(dist[e] as int));
        lemma_chain_is_route(m, src, par, c, c.len() - 1);
        let r = choose|r: Seq<State>|
            connects(m, r, s, e) && route_cost(r) == distance(m, src, e).unwrap() - distance(
                m,
                src,
                s,
            ).unwrap();
        lemma_distance(m, src, s);
        let q = choose|q: Seq<State>|
            connects(m, q, src, s) && route_cost(q) == distance(m, src, s).unwrap();
        lemma_join(m, q, r);
        let whole = q + r.drop_first();
        assert(arrives(m, whole, src, end));
        assert(route_cost(whole) == best.unwrap());
        assert(is_best_route(m, whole, src, end));
        assert(whole[q.len() - 1] == s);
    }
    assert forall|tile: Vec2D| on_best_route(m, src, end, tile) implies cells_of(
        traced(par, roots),
    ).contains(tile) by {
        let (p, i) = choose|p: Seq<State>, i: int|
            is_best_route(m, p, src, end) && 0 <= i < p.len() && (#[trigger] p[i]).pos == tile;
        let e = p.last();
        assert(connects(m, p, src, e));
        lemma_distance(m, src, e);
        assert(dist.contains_key(e));
        let q = choose|q: Seq<State>| connects(m, q, src, e) && route_cost(q) == dist[e];
        assert(arrives(m, q, src, end));
        assert(route_cost(p) == dist[e]);
        assert(is_best_cost(m, src, end, route_cost(p)));
        assert(roots.contains(e));
        lemma_route_is_traced(m, src, par, roots, p, i);
        assert(p[i] == State { pos: tile, facing: p[i].facing });
        assert(traced(par, roots).contains(State { pos: tile, facing: p[i].facing }));
    }
    assert(cells_of(traced(par, roots)) =~= best_tiles(m, src, end));
}

impl Solution {
    /// The states on `end` whose recorded cost is the minimal cost, in
    /// turning order of their headings.
    pub fn tied_end_states(&self, end: Vec2D) -> (ends: Vec<State>)
        requires
            self.wf(),
        ensures
            ends@.to_set() == tied(self.distances@, end, self.minimal_cost),
            forall|i: int, j: int|
                0 <= i < j < ends@.len() ==> (#[trigger] ends@[i]).facing.spec_index() < (
                #[trigger] ends@[j]).facing.spec_index(),
            forall|i: int|
                0 <= i < ends@.len() ==> self.distances.spec_bounds().spec_contains(
                    (#[trigger] ends@[i]).pos,
                ),
    {
        let dirs: [Direction; 4] = Direction::all();
        let mut ends: Vec<State> = Vec::new();
        let ghost all = tied(self.distances@, end, self.minimal_cost);
        let mut k: usize = 0;
        proof {
            assert(ends@.to_set() =~= Set::new(|s: State| all.contains(s) && s.facing.spec_index() < 0));
        }
        while k < 4
            invariant
                self.wf(),
                k <= 4,
                all == tied(self.distances@, end, self.minimal_cost),
                forall|i: int| 0 <= i < 4 ==> dirs[i] == Direction::spec_from_index(i),
                ends@.to_set() == Set::new(
                    |s: State| all.contains(s) && s.facing.spec_index() < k,
                ),
                forall|i: int|
                    0 <= i < ends@.len() ==> self.distances.spec_bounds().spec_contains(
                        (#[trigger] ends@[i]).pos,
                    ) && ends@[i].facing.spec_index() < k,
                forall|i: int, j: int|
                    0 <= i < j < ends@.len() ==> (#[trigger] ends@[i]).facing.spec_index() < (
                    #[trigger] ends@[j]).facing.spec_index(),
            decreases 4 - k,
        {
            let d: Direction = dirs[k];
            let s: State = State::new(end, d);
            let here: Option<u64> = self.distances.get(s);
            let ties: bool = match (here, self.minimal_cost) {
                (Some(c), Some(b)) => c == b,
                _ => false,
            };
            let ghost before = ends@;
            if ties {
                ends.push(s);
            }
            proof {
                lemma_index_round_trip(d);
                self.distances.lemma_keys_inside(s);
                lemma_push_to_set(before, s);
                assert(dirs[k as int] == Direction::spec_from_index(k as int));
                assert forall|t: State|
                    ends@.to_set().contains(t) <==> (all.contains(t) && t.facing.spec_index() < k
                        + 1) by {
                    lemma_index_round_trip(t.facing);
                    if t.facing.spec_index() == k {
                        assert(t.facing == d);
                    }
                    assert(before.to_set().contains(t) <==> (all.contains(t)
                        && t.facing.spec_index() < k));
                }
                assert(ends@.to_set() =~= Set::new(
                    |s: State| all.contains(s) && s.facing.spec_index() < k + 1,
                ));
            }
            k = k + 1;
        }
        proof {
            assert forall|t: State| all.contains(t) implies t.facing.spec_index() < 4 by {
                lemma_index_round_trip(t.facing);
            }
            assert(ends@.to_set() =~= all);
        }
        ends
    }

    /// Number of distinct tiles met when going back along the recorded
    /// predecessors from the states on `end` that tie at the minimal cost.
    /// It is zero if no state on `end` has the minimal cost.
    pub fn optimal_tiles(&self, end: Vec2D) -> (count: usize)
        requires
            self.wf(),
        ensures
            count == cells_of(
                traced(self.parents@, tied(self.distances@, end, self.minimal_cost)),
            ).len(),
    {
        let ends: Vec<State> = self.tied_end_states(end);
        extract_optimal_tiles(&ends, &self.parents)
    }
}

impl Maze {
    /// The least cost of a route from the start cell, facing east, to the
    /// end cell, or `None` if the end cell cannot be reached.
    pub fn best_cost(&self) -> (cost: Option<u64>)
        requires
            self.wf(),
        ensures
            as_int(cost) == best_cost(
                self,
                State { pos: self.spec_start(), facing: Direction::East },
                self.spec_end(),
            ),
    {
        let sol: Solution = self.solve(self.start(), Direction::East);
        sol.minimal_cost
    }

    /// The number of tiles that lie on at least one best route from the
    /// start cell, facing east, to the end cell, or `None` if the end cell
    /// cannot be reached.
    pub fn unique_tiles(&self) -> (count: Option<usize>)
        requires
            self.wf(),
        ensures
            count.is_some() <==> best_cost(
                self,
                State { pos: self.spec_start(), facing: Direction::East },
                self.spec_end(),
            ).is_some(),
            count.is_some() ==> count.unwrap() == best_tiles(
                self,
                State { pos: self.spec_start(), facing: Direction::East },
                self.spec_end(),
            ).len(),
    {
        let sol: Solution = self.solve(self.start(), Direction::East);
        if sol.minimal_cost.is_none() {
            return None;
        }
        proof {
            lemma_traced_tiles(
                self,
                State { pos: self.spec_start(), facing: Direction::East },
                sol.distances@,
                sol.parents@,
                sol.minimal_cost,
            );
        }
        Some(sol.optimal_tiles(self.end()))
    }
}

} // verus!
