//! What holds of the tables while a search runs, and why each move of the
//! search keeps it so.

use crate::direction::State;
use crate::heap::Node;
use crate::maze::Maze;
use crate::paths::{
    connects, distance, is_distance, is_tight, lemma_distance, reachable, is_route, is_step, lemma_extend, lemma_prefix, lemma_step_cost_range,
    lemma_trivial_route, no_cheaper, reachable_at, route_cost, step_at, step_cost,
};
use vstd::multiset::Multiset;
use vstd::prelude::*;

verus! {

/// The tables of a search at one moment, as plain mathematical values.
pub struct Search {
    /// Least known cost of each state reached so far.
    pub dist: Map<State, u64>,
    /// Recorded predecessors of each state.
    pub par: Map<State, Set<State>>,
    /// The frontier.
    pub queue: Multiset<Node>,
    /// The states that have left the frontier for good.
    pub done: Set<State>,
    /// Number of states in `done`.
    pub count: int,
    /// The state that is being expanded.
    pub cur: State,
    /// The moves out of `cur` that may not have been looked at yet, by
    /// target.
    pub pending: Set<State>,
}

/// The frontier entry for `s` at cost `c`.
pub open spec fn node_of(s: State, c: u64) -> Node {
    Node { cost: c, pos: s.pos, facing: s.facing }
}

/// The recorded predecessors of `v`, or the empty set.
pub open spec fn parents_or_none(par: Map<State, Set<State>>, v: State) -> Set<State> {
    if par.contains_key(v) {
        par[v]
    } else {
        Set::empty()
    }
}

impl Search {
    /// The move from `t` to `v` has been looked at.
    pub open spec fn processed(self, t: State, v: State) -> bool {
        self.done.contains(t) && !(t == self.cur && self.pending.contains(v))
    }

    /// Going through `t` realises the recorded cost of `v`.
    pub open spec fn tight(self, t: State, v: State) -> bool {
        &&& self.dist.contains_key(t)
        &&& self.dist.contains_key(v)
        &&& self.dist[v] == self.dist[t] + step_cost(t.facing, v.facing)
    }

    /// Every recorded cost is the cost of a route from the source.
    pub open spec fn costs_witnessed(self, m: &Maze, src: State) -> bool {
        forall|s: State| #[trigger]
            self.dist.contains_key(s) ==> {
                &&& m.spec_bounds().spec_contains(s.pos)
                &&& reachable_at(m, src, s, self.dist[s] as int)
                &&& self.dist[s] <= 1001 * self.count
            }
    }

    /// The cost of a state that has left the frontier is final.
    pub open spec fn done_final(self, m: &Maze, src: State) -> bool {
        forall|s: State| #[trigger]
            self.done.contains(s) ==> {
                &&& self.dist.contains_key(s)
                &&& no_cheaper(m, src, s, self.dist[s] as int)
                &&& self.dist[s] + 1001 <= 1001 * self.count
            }
    }

    /// No move that has been looked at could still lower a cost.
    pub open spec fn moves_relaxed(self, m: &Maze) -> bool {
        forall|t: State, v: State|
            self.processed(t, v) && #[trigger] is_step(m, t, v) ==> {
                &&& self.dist.contains_key(v)
                &&& self.dist[v] <= self.dist[t] + step_cost(t.facing, v.facing)
            }
    }

    /// Every reached state that has not left the frontier is in it, at its
    /// recorded cost.
    pub open spec fn frontier_complete(self) -> bool {
        forall|s: State| #[trigger]
            self.dist.contains_key(s) && !self.done.contains(s) ==> self.queue.count(
                node_of(s, self.dist[s]),
            ) > 0
    }

    /// Every recorded predecessor realises the recorded cost by a move that
    /// has been looked at.
    pub open spec fn parents_sound(self, m: &Maze) -> bool {
        forall|v: State, t: State|
            self.par.contains_key(v) && #[trigger] self.par[v].contains(t) ==> {
                &&& self.processed(t, v)
                &&& is_step(m, t, v)
                &&& self.tight(t, v)
            }
    }

    /// Every move that has been looked at and realises the recorded cost
    /// of its target is recorded.
    pub open spec fn parents_complete(self, m: &Maze) -> bool {
        forall|t: State, v: State|
            self.processed(t, v) && #[trigger] is_step(m, t, v) && self.tight(t, v) ==> {
                &&& self.par.contains_key(v)
                &&& self.par[v].contains(t)
            }
    }

    /// What holds between any two moves of a search from `src`.
    pub open spec fn inv(self, m: &Maze, src: State) -> bool {
        &&& 0 <= self.count
        &&& 1001 * self.count <= u64::MAX
        &&& self.dist.contains_key(src)
        &&& self.dist[src] == 0
        &&& self.costs_witnessed(m, src)
        &&& self.done_final(m, src)
        &&& self.moves_relaxed(m)
        &&& self.frontier_complete()
        &&& self.parents_sound(m)
        &&& self.parents_complete(m)
    }

    /// The tables before the first move: the source at cost zero, alone in
    /// the frontier.
    pub open spec fn initial(src: State) -> Search {
        Search {
            dist: Map::<State, u64>::empty().insert(src, 0),
            par: Map::empty(),
            queue: Multiset::<Node>::empty().insert(node_of(src, 0)),
            done: Set::empty(),
            count: 0,
            cur: src,
            pending: Set::empty(),
        }
    }

    /// The tables after `n` was taken from the frontier and dropped.
    pub open spec fn skipped(self, n: Node) -> Search {
        Search {
            dist: self.dist,
            par: self.par,
            queue: self.queue.remove(n),
            done: self.done,
            count: self.count,
            cur: self.cur,
            pending: self.pending,
        }
    }

    /// The tables after `n` was taken from the frontier and its state left
    /// the frontier for good, with none of its moves looked at yet.
    pub open spec fn settled(self, n: Node) -> Search {
        Search {
            dist: self.dist,
            par: self.par,
            queue: self.queue.remove(n),
            done: self.done.insert(n.spec_state()),
            count: self.count + 1,
            cur: n.spec_state(),
            pending: Set::full(),
        }
    }

    /// Cost of `v` when reached through the state that is being expanded.
    pub open spec fn candidate(self, v: State) -> int {
        self.dist[self.cur] + step_cost(self.cur.facing, v.facing)
    }

    /// The tables after the move from the state being expanded to `v` was
    /// looked at: a new or lower cost replaces the entry of `v` and its
    /// predecessors and puts `v` in the frontier, an equal cost adds a
    /// predecessor, and a higher cost changes nothing.
    pub open spec fn relaxed(self, v: State) -> Search {
        let cand = self.candidate(v);
        if !self.dist.contains_key(v) || cand < self.dist[v] {
            Search {
                dist: self.dist.insert(v, cand as u64),
                par: self.par.insert(v, Set::<State>::empty().insert(self.cur)),
                queue: self.queue.insert(node_of(v, cand as u64)),
                done: self.done,
                count: self.count,
                cur: self.cur,
                pending: self.pending.remove(v),
            }
        } else if cand == self.dist[v] {
            Search {
                dist: self.dist,
                par: self.par.insert(v, parents_or_none(self.par, v).insert(self.cur)),
                queue: self.queue,
                done: self.done,
                count: self.count,
                cur: self.cur,
                pending: self.pending.remove(v),
            }
        } else {
            Search {
                dist: self.dist,
                par: self.par,
                queue: self.queue,
                done: self.done,
                count: self.count,
                cur: self.cur,
                pending: self.pending.remove(v),
            }
        }
    }

    /// The tables once every move out of the state being expanded has been
    /// looked at.
    pub open spec fn expanded(self) -> Search {
        Search {
            dist: self.dist,
            par: self.par,
            queue: self.queue,
            done: self.done,
            count: self.count,
            cur: self.cur,
            pending: Set::empty(),
        }
    }

    /// State `j` of `p` has not left the frontier, and its recorded cost is
    /// at most the cost of `p` up to it.
    pub open spec fn crossed(self, p: Seq<State>, j: int) -> bool {
        &&& !self.done.contains(p[j])
        &&& self.dist.contains_key(p[j])
        &&& self.dist[p[j]] <= route_cost(p.take(j + 1))
    }
}

/// The initial tables are in order.
pub proof fn lemma_initial(m: &Maze, src: State)
    requires
        m.spec_bounds().spec_contains(src.pos),
    ensures
        Search::initial(src).inv(m, src),
{
    lemma_trivial_route(m, src);
    let st = Search::initial(src);
    assert(st.costs_witnessed(m, src)) by {
        assert(connects(m, seq![src], src, src));
    }
}

/// Dropping a frontier entry that is out of date keeps the tables in order.
pub proof fn lemma_skipped(m: &Maze, src: State, st: Search, n: Node)
    requires
        st.inv(m, src),
        st.done.contains(n.spec_state()) || !st.dist.contains_key(n.spec_state())
            || st.dist[n.spec_state()] != n.cost,
    ensures
        st.skipped(n).inv(m, src),
{
    let after = st.skipped(n);
    assert(after.frontier_complete()) by {
        assert forall|s: State| #[trigger]
            after.dist.contains_key(s) && !after.done.contains(s) implies after.queue.count(
            node_of(s, after.dist[s]),
        ) > 0 by {
            assert(node_of(s, st.dist[s]) != n);
        }
    }
}

/// Along a route from the source, up to any state of it, either all states
/// have left the frontier or some state is still to leave it and has a
/// recorded cost that the route does not undercut.
pub proof fn lemma_crossing(m: &Maze, src: State, st: Search, p: Seq<State>, i: int)
    requires
        st.inv(m, src),
        forall|v: State| !st.pending.contains(v),
        is_route(m, p),
        p.first() == src,
        0 <= i < p.len(),
    ensures
        st.done.contains(p[i]) || exists|j: int| 0 <= j <= i && #[trigger] st.crossed(p, j),
    decreases i,
{
    if i == 0 {
        lemma_prefix(m, p, 1);
        if !st.done.contains(p[0]) {
            assert(st.crossed(p, 0));
        }
    } else {
        lemma_crossing(m, src, st, p, i - 1);
        if st.done.contains(p[i - 1]) {
            if !st.done.contains(p[i]) {
                lemma_prefix(m, p, i);
                assert(step_at(m, p, i - 1));
                assert(is_step(m, p[i - 1], p[i]));
                assert(st.processed(p[i - 1], p[i]));
                assert(connects(m, p.take(i), src, p[i - 1]));
                assert(st.crossed(p, i));
            }
        } else {
            let j = choose|j: int| 0 <= j <= i - 1 && #[trigger] st.crossed(p, j);
            assert(st.crossed(p, j));
        }
    }
}

/// The least frontier entry that is up to date carries the final cost of
/// its state: letting the state leave the frontier keeps the tables in
/// order.
pub proof fn lemma_settled(m: &Maze, src: State, st: Search, n: Node)
    requires
        st.inv(m, src),
        forall|v: State| !st.pending.contains(v),
        forall|x: Node| st.queue.count(x) > 0 ==> n.spec_precedes(x),
        !st.done.contains(n.spec_state()),
        st.dist.contains_key(n.spec_state()),
        st.dist[n.spec_state()] == n.cost,
        1001 * (st.count + 1) <= u64::MAX,
    ensures
        st.settled(n).inv(m, src),
{
    let u = n.spec_state();
    let after = st.settled(n);
    assert(no_cheaper(m, src, u, st.dist[u] as int)) by {
        assert forall|p: Seq<State>| connects(m, p, src, u) implies route_cost(p) >= st.dist[u] by {
            lemma_crossing(m, src, st, p, p.len() - 1);
            let j = choose|j: int| 0 <= j <= p.len() - 1 && #[trigger] st.crossed(p, j);
            lemma_prefix(m, p, j + 1);
            let x = p[j];
            assert(st.queue.count(node_of(x, st.dist[x])) > 0);
            assert(n.spec_precedes(node_of(x, st.dist[x])));
        }
    }
    assert(after.done_final(m, src));
    assert(after.costs_witnessed(m, src));
    assert(after.moves_relaxed(m)) by {
        assert forall|t: State, v: State|
            after.processed(t, v) && #[trigger] is_step(m, t, v) implies after.dist.contains_key(v)
            && after.dist[v] <= after.dist[t] + step_cost(t.facing, v.facing) by {
            assert(st.processed(t, v));
        }
    }
    assert(after.frontier_complete()) by {
        assert forall|s: State| #[trigger]
            after.dist.contains_key(s) && !after.done.contains(s) implies after.queue.count(
            node_of(s, after.dist[s]),
        ) > 0 by {
            assert(node_of(s, st.dist[s]) != n);
        }
    }
    assert(after.parents_sound(m));
    assert(after.parents_complete(m)) by {
        assert forall|t: State, v: State|
            after.processed(t, v) && #[trigger] is_step(m, t, v) && after.tight(
                t,
                v,
            ) implies after.par.contains_key(v) && after.par[v].contains(t) by {
            assert(st.processed(t, v));
        }
    }
}

/// Looking at one move out of the state being expanded keeps the tables in
/// order, and the cost through that move is within the bound on costs.
pub proof fn lemma_relaxed(m: &Maze, src: State, st: Search, v: State)
    requires
        st.inv(m, src),
        st.done.contains(st.cur),
        is_step(m, st.cur, v),
    ensures
        st.relaxed(v).inv(m, src),
        0 <= st.candidate(v) <= 1001 * st.count,
        st.dist.contains_key(v) && st.candidate(v) < st.dist[v] ==> !st.done.contains(v),
{
    let u = st.cur;
    let cand = st.candidate(v);
    let after = st.relaxed(v);
    lemma_step_cost_range(u.facing, v.facing);
    assert(u != v);
    let p = choose|p: Seq<State>| connects(m, p, src, u) && route_cost(p) == st.dist[u];
    lemma_extend(m, p, v);
    let q = p.push(v);
    assert(connects(m, q, src, v) && route_cost(q) == cand);
    if st.done.contains(v) {
        assert(cand >= st.dist[v]);
    }
    if !st.dist.contains_key(v) || cand < st.dist[v] {
        assert(!st.done.contains(v));
        assert(v != src);
        assert(after.costs_witnessed(m, src)) by {
            assert forall|s: State| #[trigger] after.dist.contains_key(s) implies m.spec_bounds().spec_contains(
                s.pos,
            ) && reachable_at(m, src, s, after.dist[s] as int) && after.dist[s] <= 1001
                * after.count by {
                if s != v {
                    assert(st.dist.contains_key(s));
                }
            }
        }
        assert(after.done_final(m, src)) by {
            assert forall|s: State| #[trigger] after.done.contains(s) implies after.dist.contains_key(s)
                && no_cheaper(m, src, s, after.dist[s] as int) && after.dist[s] + 1001 <= 1001
                * after.count by {
                assert(st.done.contains(s));
                assert(s != v);
            }
        }
        assert(after.moves_relaxed(m)) by {
            assert forall|t: State, x: State|
                after.processed(t, x) && #[trigger] is_step(m, t, x) implies after.dist.contains_key(x)
                && after.dist[x] <= after.dist[t] + step_cost(t.facing, x.facing) by {
                assert(t != v);
                if !(t == u && x == v) {
                    assert(st.processed(t, x));
                }
            }
        }
        assert(after.frontier_complete()) by {
            assert forall|s: State| #[trigger]
                after.dist.contains_key(s) && !after.done.contains(s) implies after.queue.count(
                node_of(s, after.dist[s]),
            ) > 0 by {
                if s != v {
                    assert(st.dist.contains_key(s));
                    assert(st.queue.count(node_of(s, st.dist[s])) > 0);
                }
            }
        }
        assert(after.parents_sound(m)) by {
            assert forall|x: State, t: State|
                after.par.contains_key(x) && #[trigger] after.par[x].contains(t) implies after.processed(t, x)
                && is_step(m, t, x) && after.tight(t, x) by {
                if x != v {
                    assert(st.par.contains_key(x) && st.par[x].contains(t));
                    assert(st.processed(t, x));
                    assert(t != v);
                }
            }
        }
        assert(after.parents_complete(m)) by {
            assert forall|t: State, x: State|
                after.processed(t, x) && #[trigger] is_step(m, t, x) && after.tight(
                    t,
                    x,
                ) implies after.par.contains_key(x) && after.par[x].contains(t) by {
                assert(t != v);
                if x == v {
                    if t != u {
                        assert(st.processed(t, x));
                    }
                } else {
                    assert(st.processed(t, x));
                    assert(st.tight(t, x));
                }
            }
        }
    } else if cand == st.dist[v] {
        assert(after.moves_relaxed(m)) by {
            assert forall|t: State, x: State|
                after.processed(t, x) && #[trigger] is_step(m, t, x) implies after.dist.contains_key(x)
                && after.dist[x] <= after.dist[t] + step_cost(t.facing, x.facing) by {
                if !(t == u && x == v) {
                    assert(st.processed(t, x));
                }
            }
        }
        assert(after.parents_sound(m)) by {
            assert forall|x: State, t: State|
                after.par.contains_key(x) && #[trigger] after.par[x].contains(t) implies after.processed(t, x)
                && is_step(m, t, x) && after.tight(t, x) by {
                if x == v && t == u {
                } else {
                    assert(st.par.contains_key(x) && st.par[x].contains(t));
                    assert(st.processed(t, x));
                }
            }
        }
        assert(after.parents_complete(m)) by {
            assert forall|t: State, x: State|
                after.processed(t, x) && #[trigger] is_step(m, t, x) && after.tight(
                    t,
                    x,
                ) implies after.par.contains_key(x) && after.par[x].contains(t) by {
                if !(t == u && x == v) {
                    assert(st.processed(t, x));
                    assert(st.par.contains_key(x) && st.par[x].contains(t));
                }
            }
        }
    } else {
        assert(after.moves_relaxed(m)) by {
            assert forall|t: State, x: State|
                after.processed(t, x) && #[trigger] is_step(m, t, x) implies after.dist.contains_key(x)
                && after.dist[x] <= after.dist[t] + step_cost(t.facing, x.facing) by {
                if !(t == u && x == v) {
                    assert(st.processed(t, x));
                }
            }
        }
        assert(after.parents_sound(m)) by {
            assert forall|x: State, t: State|
                after.par.contains_key(x) && #[trigger] after.par[x].contains(t) implies after.processed(t, x)
                && is_step(m, t, x) && after.tight(t, x) by {
                assert(st.processed(t, x));
            }
        }
        assert(after.parents_complete(m)) by {
            assert forall|t: State, x: State|
                after.processed(t, x) && #[trigger] is_step(m, t, x) && after.tight(
                    t,
                    x,
                ) implies after.par.contains_key(x) && after.par[x].contains(t) by {
                if !(t == u && x == v) {
                    assert(st.processed(t, x));
                }
            }
        }
    }
}

/// Looking at a move never raises a recorded cost and never drops an
/// entry: the recorded costs only fall.
pub proof fn lemma_costs_never_rise(m: &Maze, src: State, st: Search, v: State, s: State)
    requires
        st.inv(m, src),
        st.done.contains(st.cur),
        is_step(m, st.cur, v),
        st.dist.contains_key(s),
    ensures
        st.relaxed(v).dist.contains_key(s),
        st.relaxed(v).dist[s] <= st.dist[s],
{
    lemma_relaxed(m, src, st, v);
}

/// Once every move out of the state being expanded has been looked at,
/// nothing is pending.
pub proof fn lemma_expanded(m: &Maze, src: State, st: Search)
    requires
        st.inv(m, src),
        forall|v: State| is_step(m, st.cur, v) ==> !st.pending.contains(v),
    ensures
        st.expanded().inv(m, src),
{
    let after = st.expanded();
    assert(after.moves_relaxed(m)) by {
        assert forall|t: State, x: State|
            after.processed(t, x) && #[trigger] is_step(m, t, x) implies after.dist.contains_key(x)
            && after.dist[x] <= after.dist[t] + step_cost(t.facing, x.facing) by {
            assert(st.processed(t, x));
        }
    }
    assert(after.parents_sound(m)) by {
        assert forall|x: State, t: State|
            after.par.contains_key(x) && #[trigger] after.par[x].contains(t) implies after.processed(t, x)
            && is_step(m, t, x) && after.tight(t, x) by {
            assert(st.processed(t, x));
        }
    }
    assert(after.parents_complete(m)) by {
        assert forall|t: State, x: State|
            after.processed(t, x) && #[trigger] is_step(m, t, x) && after.tight(
                t,
                x,
            ) implies after.par.contains_key(x) && after.par[x].contains(t) by {
            assert(st.processed(t, x));
        }
    }
}

/// The recorded costs are the least costs from `src`: a state has an entry
/// exactly if it can be reached, and the entry is its distance.
pub open spec fn distances_agree(m: &Maze, src: State, dist: Map<State, u64>) -> bool {
    forall|s: State|
        #![trigger dist.contains_key(s)]
        #![trigger distance(m, src, s)]
        distance(m, src, s) == if dist.contains_key(s) {
            Some(dist[s] as int)
        } else {
            None::<int>
        }
}

/// The recorded predecessors of each state are exactly the states from
/// which a move lies on a cheapest route from `src` to it.
pub open spec fn parents_agree(m: &Maze, src: State, par: Map<State, Set<State>>) -> bool {
    forall|v: State, t: State|
        #![trigger parents_or_none(par, v).contains(t)]
        #![trigger is_tight(m, src, t, v)]
        parents_or_none(par, v).contains(t) <==> is_tight(m, src, t, v)
}

/// When the frontier is empty, the tables hold the least costs and all
/// predecessors on cheapest routes.
pub proof fn lemma_finished(m: &Maze, src: State, st: Search)
    requires
        st.inv(m, src),
        forall|v: State| !st.pending.contains(v),
        st.queue.len() == 0,
    ensures
        distances_agree(m, src, st.dist),
        parents_agree(m, src, st.par),
{
    assert forall|s: State| #[trigger] st.dist.contains_key(s) implies st.done.contains(s) by {
        if !st.done.contains(s) {
            assert(st.queue.count(node_of(s, st.dist[s])) > 0);
        }
    }
    assert forall|s: State|
        #![trigger st.dist.contains_key(s)]
        #![trigger distance(m, src, s)]
        distance(m, src, s) == if st.dist.contains_key(s) {
            Some(st.dist[s] as int)
        } else {
            None::<int>
        } by {
        lemma_distance(m, src, s);
        if st.dist.contains_key(s) {
            assert(st.done.contains(s));
            assert(is_distance(m, src, s, st.dist[s] as int));
        } else if reachable(m, src, s) {
            let p = choose|p: Seq<State>| connects(m, p, src, s);
            lemma_crossing(m, src, st, p, p.len() - 1);
            if !st.done.contains(s) {
                let j = choose|j: int| 0 <= j <= p.len() - 1 && #[trigger] st.crossed(p, j);
                assert(st.dist.contains_key(p[j]));
            }
        }
    }
    assert forall|v: State, t: State|
        #![trigger parents_or_none(st.par, v).contains(t)]
        #![trigger is_tight(m, src, t, v)]
        parents_or_none(st.par, v).contains(t) <==> is_tight(m, src, t, v) by {
        assert(distance(m, src, t) == if st.dist.contains_key(t) {
            Some(st.dist[t] as int)
        } else {
            None::<int>
        });
        assert(distance(m, src, v) == if st.dist.contains_key(v) {
            Some(st.dist[v] as int)
        } else {
            None::<int>
        });
        if parents_or_none(st.par, v).contains(t) {
            assert(st.par.contains_key(v) && st.par[v].contains(t));
        }
        if is_tight(m, src, t, v) {
            assert(st.done.contains(t));
            assert(st.processed(t, v));
            assert(st.tight(t, v));
        }
    }
}

} // verus!
