//! What a route is and what it costs: the mathematical side of the search.

use crate::direction::{Direction, State};
use crate::maze::Maze;
use crate::vec2d::Vec2D;
use vstd::prelude::*;

verus! {

/// Cost of one move that enters a cell facing `to`, coming from a state
/// that faced `from`: a thousand per quarter turn, and one for the step.
pub open spec fn step_cost(from: Direction, to: Direction) -> int {
    1000 * from.spec_turns_to(to) + 1
}

/// Whether one move leads from `s` to `t`: the heading of `t` is not the
/// reverse of that of `s`, `t` lies one step from `s` along its own heading,
/// and its cell can be entered.
pub open spec fn is_step(m: &Maze, s: State, t: State) -> bool {
    &&& s.facing.spec_turns_to(t.facing) != 2
    &&& t.pos.x == s.pos.x + t.facing.spec_delta().x
    &&& t.pos.y == s.pos.y + t.facing.spec_delta().y
    &&& m.spec_is_open(t.pos)
}

/// Whether one move leads from item `i` of `p` to the next item.
pub open spec fn step_at(m: &Maze, p: Seq<State>, i: int) -> bool {
    is_step(m, p[i], p[i + 1])
}

/// A route is a non-empty sequence of states, each one move from the one
/// before.
pub open spec fn is_route(m: &Maze, p: Seq<State>) -> bool {
    &&& p.len() > 0
    &&& forall|i: int| 0 <= i < p.len() - 1 ==> #[trigger] step_at(m, p, i)
}

/// Sum of the costs of the moves of `p`.
pub open spec fn route_cost(p: Seq<State>) -> int
    decreases p.len(),
{
    if p.len() <= 1 {
        0
    } else {
        route_cost(p.drop_last()) + step_cost(p[p.len() - 2].facing, p.last().facing)
    }
}

/// `p` is a route from `a` to `b`.
pub open spec fn connects(m: &Maze, p: Seq<State>, a: State, b: State) -> bool {
    is_route(m, p) && p.first() == a && p.last() == b
}

/// Some route leads from `a` to `b`.
pub open spec fn reachable(m: &Maze, a: State, b: State) -> bool {
    exists|p: Seq<State>| connects(m, p, a, b)
}

/// Some route from `a` to `b` costs exactly `c`.
pub open spec fn reachable_at(m: &Maze, a: State, b: State, c: int) -> bool {
    exists|p: Seq<State>| connects(m, p, a, b) && route_cost(p) == c
}

/// No route from `a` to `b` costs less than `c`.
pub open spec fn no_cheaper(m: &Maze, a: State, b: State, c: int) -> bool {
    forall|p: Seq<State>| connects(m, p, a, b) ==> route_cost(p) >= c
}

/// `c` is the least cost of a route from `a` to `b`.
pub open spec fn is_distance(m: &Maze, a: State, b: State, c: int) -> bool {
    reachable_at(m, a, b, c) && no_cheaper(m, a, b, c)
}

/// The least cost of a route from `a` to `b`, or `None` if there is no
/// route.
pub open spec fn distance(m: &Maze, a: State, b: State) -> Option<int> {
    if exists|c: int| is_distance(m, a, b, c) {
        Some(choose|c: int| is_distance(m, a, b, c))
    } else {
        None
    }
}

/// `p` is a route from `a` that ends on `cell`, whatever the last heading.
pub open spec fn arrives(m: &Maze, p: Seq<State>, a: State, cell: Vec2D) -> bool {
    is_route(m, p) && p.first() == a && p.last().pos == cell
}

/// Some route from `a` to `cell` costs exactly `c`.
pub open spec fn arrives_at(m: &Maze, a: State, cell: Vec2D, c: int) -> bool {
    exists|p: Seq<State>| arrives(m, p, a, cell) && route_cost(p) == c
}

/// No route from `a` to `cell` costs less than `c`.
pub open spec fn none_cheaper_to(m: &Maze, a: State, cell: Vec2D, c: int) -> bool {
    forall|p: Seq<State>| arrives(m, p, a, cell) ==> route_cost(p) >= c
}

/// `c` is the least cost of a route from `a` to `cell`.
pub open spec fn is_best_cost(m: &Maze, a: State, cell: Vec2D, c: int) -> bool {
    arrives_at(m, a, cell, c) && none_cheaper_to(m, a, cell, c)
}

/// The least cost of a route from `a` to `cell`, or `None` if `cell` cannot
/// be reached.
pub open spec fn best_cost(m: &Maze, a: State, cell: Vec2D) -> Option<int> {
    if exists|c: int| is_best_cost(m, a, cell, c) {
        Some(choose|c: int| is_best_cost(m, a, cell, c))
    } else {
        None
    }
}

/// `p` is a route from `a` to `cell` that no other such route undercuts.
pub open spec fn is_best_route(m: &Maze, p: Seq<State>, a: State, cell: Vec2D) -> bool {
    arrives(m, p, a, cell) && none_cheaper_to(m, a, cell, route_cost(p))
}

/// `tile` is the position of some state of some best route from `a` to
/// `cell`.
pub open spec fn on_best_route(m: &Maze, a: State, cell: Vec2D, tile: Vec2D) -> bool {
    exists|p: Seq<State>, i: int|
        is_best_route(m, p, a, cell) && 0 <= i < p.len() && (#[trigger] p[i]).pos == tile
}

/// The tiles that lie on at least one best route from `a` to `cell`.
pub open spec fn best_tiles(m: &Maze, a: State, cell: Vec2D) -> Set<Vec2D> {
    Set::new(|tile: Vec2D| on_best_route(m, a, cell, tile))
}

/// No move is free, and none costs more than two quarter turns and a step.
pub proof fn lemma_step_cost_range(from: Direction, to: Direction)
    ensures
        1 <= step_cost(from, to) <= 2001,
        from.spec_turns_to(to) != 2 ==> step_cost(from, to) <= 1001,
{
}

/// A route costs nothing or more.
pub proof fn lemma_cost_nonnegative(p: Seq<State>)
    ensures
        route_cost(p) >= 0,
    decreases p.len(),
{
    if p.len() > 1 {
        lemma_cost_nonnegative(p.drop_last());
        lemma_step_cost_range(p[p.len() - 2].facing, p.last().facing);
    }
}

/// The route that stays where it is.
pub proof fn lemma_trivial_route(m: &Maze, a: State)
    ensures
        connects(m, seq![a], a, a),
        route_cost(seq![a]) == 0,
{
}

/// A route followed by one more move is a route, and costs the move more.
pub proof fn lemma_extend(m: &Maze, p: Seq<State>, t: State)
    requires
        is_route(m, p),
        is_step(m, p.last(), t),
    ensures
        is_route(m, p.push(t)),
        p.push(t).first() == p.first(),
        p.push(t).last() == t,
        route_cost(p.push(t)) == route_cost(p) + step_cost(p.last().facing, t.facing),
{
    let q = p.push(t);
    assert forall|i: int| 0 <= i < q.len() - 1 implies #[trigger] step_at(m, q, i) by {
        if i < p.len() - 1 {
            assert(step_at(m, p, i));
        }
    }
    assert(q.drop_last() =~= p);
}

/// The first `k` states of a route form a route that costs no more, and
/// one state more adds the cost of one move.
pub proof fn lemma_prefix(m: &Maze, p: Seq<State>, k: int)
    requires
        is_route(m, p),
        1 <= k <= p.len(),
    ensures
        is_route(m, p.take(k)),
        p.take(k).first() == p.first(),
        p.take(k).last() == p[k - 1],
        0 <= route_cost(p.take(k)) <= route_cost(p),
        k < p.len() ==> route_cost(p.take(k + 1)) == route_cost(p.take(k)) + step_cost(
            p[k - 1].facing,
            p[k].facing,
        ),
    decreases p.len() - k,
{
    let q = p.take(k);
    assert forall|i: int| 0 <= i < q.len() - 1 implies #[trigger] step_at(m, q, i) by {
        assert(step_at(m, p, i));
    }
    lemma_cost_nonnegative(q);
    if k < p.len() {
        lemma_prefix(m, p, k + 1);
        let r = p.take(k + 1);
        assert(r.drop_last() =~= q);
        lemma_step_cost_range(p[k - 1].facing, p[k].facing);
    } else {
        assert(q =~= p);
    }
}

/// Two routes of which the second begins where the first ends join into
/// one, and the costs add up.
pub proof fn lemma_join(m: &Maze, p: Seq<State>, q: Seq<State>)
    requires
        is_route(m, p),
        is_route(m, q),
        p.last() == q.first(),
    ensures
        is_route(m, p + q.drop_first()),
        (p + q.drop_first()).first() == p.first(),
        (p + q.drop_first()).last() == q.last(),
        route_cost(p + q.drop_first()) == route_cost(p) + route_cost(q),
        forall|i: int| 0 <= i < p.len() ==> (p + q.drop_first())[i] == p[i],
        forall|i: int| 0 <= i < q.len() ==> (p + q.drop_first())[p.len() - 1 + i] == q[i],
    decreases q.len(),
{
    if q.len() == 1 {
        assert(p + q.drop_first() =~= p);
    } else {
        let q0 = q.drop_last();
        assert forall|i: int| 0 <= i < q0.len() - 1 implies #[trigger] step_at(m, q0, i) by {
            assert(step_at(m, q, i));
        }
        lemma_join(m, p, q0);
        let r0 = p + q0.drop_first();
        assert(step_at(m, q, q.len() - 2));
        assert(r0.last() == q[q.len() - 2]);
        lemma_extend(m, r0, q.last());
        assert(r0.push(q.last()) =~= p + q.drop_first());
    }
}

/// The rest of a route from item `k` on is a route, and the costs of the
/// two parts add up to the whole.
pub proof fn lemma_suffix(m: &Maze, p: Seq<State>, k: int)
    requires
        is_route(m, p),
        0 <= k < p.len(),
    ensures
        is_route(m, p.skip(k)),
        p.skip(k).first() == p[k],
        p.skip(k).last() == p.last(),
        route_cost(p) == route_cost(p.take(k + 1)) + route_cost(p.skip(k)),
{
    let q = p.skip(k);
    assert forall|i: int| 0 <= i < q.len() - 1 implies #[trigger] step_at(m, q, i) by {
        assert(step_at(m, p, k + i));
    }
    lemma_prefix(m, p, k + 1);
    lemma_join(m, p.take(k + 1), q);
    assert(p.take(k + 1) + q.drop_first() =~= p);
}

/// There is at most one least cost.
pub proof fn lemma_distance_unique(m: &Maze, a: State, b: State, c: int, d: int)
    requires
        is_distance(m, a, b, c),
        is_distance(m, a, b, d),
    ensures
        c == d,
{
}

/// Where some route leads from `a` to `b`, some route is cheapest.
pub proof fn lemma_distance_exists(m: &Maze, a: State, b: State, c: int)
    requires
        reachable_at(m, a, b, c),
    ensures
        exists|d: int| is_distance(m, a, b, d),
    decreases c,
{
    if no_cheaper(m, a, b, c) {
        assert(is_distance(m, a, b, c));
    } else {
        let p = choose|p: Seq<State>| connects(m, p, a, b) && route_cost(p) < c;
        lemma_cost_nonnegative(p);
        lemma_distance_exists(m, a, b, route_cost(p));
    }
}

/// `distance` is the least cost wherever there is one, and `None` exactly
/// where no route leads from `a` to `b`.
pub proof fn lemma_distance(m: &Maze, a: State, b: State)
    ensures
        distance(m, a, b).is_some() <==> reachable(m, a, b),
        distance(m, a, b).is_some() ==> is_distance(m, a, b, distance(m, a, b).unwrap()),
        distance(m, a, b).is_some() ==> distance(m, a, b).unwrap() >= 0,
        forall|c: int| is_distance(m, a, b, c) ==> distance(m, a, b) == Some(c),
{
    if reachable(m, a, b) {
        let p = choose|p: Seq<State>| connects(m, p, a, b);
        lemma_distance_exists(m, a, b, route_cost(p));
    }
    if distance(m, a, b).is_some() {
        let d = distance(m, a, b).unwrap();
        let p = choose|p: Seq<State>| connects(m, p, a, b) && route_cost(p) == d;
        lemma_cost_nonnegative(p);
    }
    assert forall|c: int| is_distance(m, a, b, c) implies distance(m, a, b) == Some(c) by {
        lemma_distance_unique(m, a, b, c, distance(m, a, b).unwrap());
    }
}

/// The move from `t` to `v` lies on a cheapest route from `a` to `v`: `t`
/// can be reached from `a`, and its least cost and the move add up to the
/// least cost of `v`.
pub open spec fn is_tight(m: &Maze, a: State, t: State, v: State) -> bool {
    &&& is_step(m, t, v)
    &&& distance(m, a, t).is_some()
    &&& distance(m, a, v) == Some(distance(m, a, t).unwrap() + step_cost(t.facing, v.facing))
}

/// `best_cost` is the least cost wherever there is one, and `None` exactly
/// where no route leads from `a` to `cell`.
pub proof fn lemma_best_cost(m: &Maze, a: State, cell: Vec2D)
    ensures
        best_cost(m, a, cell).is_some() <==> exists|p: Seq<State>| arrives(m, p, a, cell),
        best_cost(m, a, cell).is_some() ==> is_best_cost(m, a, cell, best_cost(m, a, cell).unwrap()),
        forall|c: int| is_best_cost(m, a, cell, c) ==> best_cost(m, a, cell) == Some(c),
{
    if exists|p: Seq<State>| arrives(m, p, a, cell) {
        let p = choose|p: Seq<State>| arrives(m, p, a, cell);
        lemma_best_cost_exists(m, a, cell, route_cost(p));
    }
    assert forall|c: int| is_best_cost(m, a, cell, c) implies best_cost(m, a, cell) == Some(c) by {
        let d = best_cost(m, a, cell).unwrap();
        assert(is_best_cost(m, a, cell, d));
    }
}

/// Where some route leads from `a` to `cell`, some route is cheapest.
pub proof fn lemma_best_cost_exists(m: &Maze, a: State, cell: Vec2D, c: int)
    requires
        arrives_at(m, a, cell, c),
    ensures
        exists|d: int| is_best_cost(m, a, cell, d),
    decreases c,
{
    if none_cheaper_to(m, a, cell, c) {
        assert(is_best_cost(m, a, cell, c));
    } else {
        let p = choose|p: Seq<State>| arrives(m, p, a, cell) && route_cost(p) < c;
        lemma_cost_nonnegative(p);
        lemma_best_cost_exists(m, a, cell, route_cost(p));
    }
}

} // verus!
