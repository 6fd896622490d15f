//! Laws of the search: what holds of every maze, stated over routes and
//! proved from the definitions and from what `solve` guarantees.

use crate::bounds::Bounds;
use crate::direction::{Direction, State};
use crate::extract::{cells_before, cells_of, traced};
use crate::maze::Maze;
use crate::paths::{
    arrives, arrives_at, best_cost, best_tiles, connects, distance, is_best_cost, is_best_route,
    is_route, is_step, is_tight, lemma_best_cost, lemma_extend, lemma_join,
    lemma_step_cost_range, none_cheaper_to, on_best_route, route_cost, step_at, step_cost,
};
use crate::search::parents_or_none;
use crate::solver::Solution;
use crate::tiles::{lemma_traced_tiles, tied};
use crate::vec2d::Vec2D;
use vstd::prelude::*;
use vstd::set_lib::lemma_len_subset;

verus! {

/// Number of quarter turns made along `p`.
pub open spec fn route_turns(p: Seq<State>) -> int
    decreases p.len(),
{
    if p.len() <= 1 {
        0
    } else {
        route_turns(p.drop_last()) + p[p.len() - 2].facing.spec_turns_to(p.last().facing)
    }
}

/// The absolute value.
pub open spec fn magnitude(i: int) -> int {
    if i < 0 {
        -i
    } else {
        i
    }
}

/// Number of steps between two cells when no wall is in the way.
pub open spec fn manhattan(a: Vec2D, b: Vec2D) -> int {
    magnitude(b.x - a.x) + magnitude(b.y - a.y)
}

/// Number of quarter turns that a traveller who faces east at `a` must
/// make to get to `b`, for `b` not due west of `a`: none if `b` lies due
/// east, one if it lies north or south and not to the west, two if it lies
/// to the west.
pub open spec fn turns_needed(a: Vec2D, b: Vec2D) -> int {
    if b.y == a.y {
        0
    } else if b.x >= a.x {
        1
    } else {
        2
    }
}

/// `b` lies on the row of `a`, to the west of it.
pub open spec fn due_west(a: Vec2D, b: Vec2D) -> bool {
    b.y == a.y && b.x < a.x
}

/// `c` lies `i` steps from `pos` along `d`.
pub open spec fn is_ahead(pos: Vec2D, d: Direction, i: int, c: Vec2D) -> bool {
    match d {
        Direction::North => c.x == pos.x && c.y == pos.y - i,
        Direction::West => c.x == pos.x - i && c.y == pos.y,
        Direction::South => c.x == pos.x && c.y == pos.y + i,
        Direction::East => c.x == pos.x + i && c.y == pos.y,
    }
}

/// The tiles that `p` passes.
pub open spec fn route_cells(p: Seq<State>) -> Set<Vec2D> {
    Set::new(|c: Vec2D| exists|i: int| 0 <= i < p.len() && (#[trigger] p[i]).pos == c)
}

/// `more` is `fewer` with some cells turned into walls: the same bounds
/// and the same end, and every wall of `fewer` is a wall of `more`.
pub open spec fn walls_added(fewer: &Maze, more: &Maze) -> bool {
    &&& fewer.spec_bounds() == more.spec_bounds()
    &&& fewer.spec_end() == more.spec_end()
    &&& forall|c: Vec2D| fewer.spec_is_wall(c) ==> more.spec_is_wall(c)
}

/// The cost of a route is a thousand per quarter turn and one per step.
pub proof fn lemma_cost_split(p: Seq<State>)
    requires
        p.len() >= 1,
    ensures
        route_cost(p) == 1000 * route_turns(p) + p.len() - 1,
        route_turns(p) >= 0,
    decreases p.len(),
{
    if p.len() > 1 {
        lemma_cost_split(p.drop_last());
    }
}

/// How far a route that sets out facing east can have come after `k - 1`
/// moves: no further than `k - 1` steps, not off its row without a turn,
/// and not to the west of its first cell with fewer than two turns.
pub proof fn lemma_route_limits(m: &Maze, p: Seq<State>, k: int)
    requires
        is_route(m, p),
        p.first().facing == Direction::East,
        1 <= k <= p.len(),
    ensures
        route_turns(p.take(k)) >= 0,
        manhattan(p.first().pos, p[k - 1].pos) <= k - 1,
        route_turns(p.take(k)) == 0 ==> p[k - 1].facing == Direction::East && p[k - 1].pos.y
            == p.first().pos.y && p[k - 1].pos.x >= p.first().pos.x,
        route_turns(p.take(k)) == 1 ==> p[k - 1].facing != Direction::West && p[k - 1].pos.x
            >= p.first().pos.x,
    decreases k,
{
    lemma_cost_split(p.take(k));
    if k > 1 {
        lemma_route_limits(m, p, k - 1);
        lemma_cost_split(p.take(k - 1));
        assert(p.take(k).drop_last() =~= p.take(k - 1));
        assert(step_at(m, p, k - 2));
        assert(is_step(m, p[k - 2], p[k - 1]));
    }
}

/// A walk of `n` steps along `d` over open cells, begun with the turn from
/// the heading of `s`, is a route that costs the turn and the steps.
pub proof fn lemma_leg(m: &Maze, s: State, d: Direction, n: int, t: Vec2D)
    requires
        n >= 1,
        s.facing.spec_turns_to(d) != 2,
        is_ahead(s.pos, d, n, t),
        forall|c: Vec2D, i: int| 1 <= i <= n && #[trigger] is_ahead(s.pos, d, i, c) ==> m.spec_is_open(c),
    ensures
        exists|r: Seq<State>|
            connects(m, r, s, State { pos: t, facing: d }) && route_cost(r) == 1000
                * s.facing.spec_turns_to(d) + n,
    decreases n,
{
    let last = State { pos: t, facing: d };
    if n == 1 {
        let one = seq![s];
        assert(is_route(m, one));
        assert(is_ahead(s.pos, d, 1, t));
        lemma_extend(m, one, last);
        assert(route_cost(one) == 0);
        let r = one.push(last);
        assert(connects(m, r, s, last) && route_cost(r) == 1000 * s.facing.spec_turns_to(d) + n);
    } else {
        let c = Vec2D {
            x: (t.x - d.spec_delta().x) as i32,
            y: (t.y - d.spec_delta().y) as i32,
        };
        assert(is_ahead(s.pos, d, n - 1, c));
        lemma_leg(m, s, d, n - 1, c);
        let before = State { pos: c, facing: d };
        let r0 = choose|r: Seq<State>|
            connects(m, r, s, before) && route_cost(r) == 1000 * s.facing.spec_turns_to(d) + (n
                - 1);
        assert(is_ahead(s.pos, d, n, t));
        lemma_extend(m, r0, last);
        let r = r0.push(last);
        assert(connects(m, r, s, last) && route_cost(r) == 1000 * s.facing.spec_turns_to(d) + n);
    }
}

/// In a grid without walls, the least cost from `a`, facing east, to the
/// end cell is the number of steps between the two plus a thousand for
/// each quarter turn needed, provided the end does not lie due west of
/// `a`. (Due west the traveller has to leave the row and come back to it,
/// since no move reverses the heading.)
pub proof fn law_open_grid_cost(m: &Maze, a: Vec2D)
    requires
        m.spec_bounds().spec_contains(a),
        m.spec_bounds().spec_contains(m.spec_end()),
        forall|c: Vec2D| !m.spec_is_wall(c),
        !due_west(a, m.spec_end()),
    ensures
        best_cost(m, State { pos: a, facing: Direction::East }, m.spec_end()) == Some(
            manhattan(a, m.spec_end()) + 1000 * turns_needed(a, m.spec_end()),
        ),
{
    let b = m.spec_end();
    let src = State { pos: a, facing: Direction::East };
    let goal = manhattan(a, b) + 1000 * turns_needed(a, b);
    assert(none_cheaper_to(m, src, b, goal)) by {
        assert forall|p: Seq<State>| arrives(m, p, src, b) implies route_cost(p) >= goal by {
            lemma_route_limits(m, p, p.len() as int);
            lemma_cost_split(p);
            assert(p.take(p.len() as int) =~= p);
        }
    }
    assert(arrives_at(m, src, b, goal)) by {
        let dx = b.x - a.x;
        let dy = b.y - a.y;
        let vertical = if dy < 0 {
            Direction::North
        } else {
            Direction::South
        };
        if dy == 0 {
            if dx == 0 {
                let r = seq![src];
                assert(arrives(m, r, src, b) && route_cost(r) == goal);
            } else {
                lemma_leg(m, src, Direction::East, dx, b);
                let r = choose|r: Seq<State>|
                    connects(m, r, src, State { pos: b, facing: Direction::East }) && route_cost(r)
                        == 1000 * src.facing.spec_turns_to(Direction::East) + dx;
                assert(arrives(m, r, src, b) && route_cost(r) == goal);
            }
        } else if dx == 0 {
            lemma_leg(m, src, vertical, magnitude(dy), b);
            let r = choose|r: Seq<State>|
                connects(m, r, src, State { pos: b, facing: vertical }) && route_cost(r) == 1000
                    * src.facing.spec_turns_to(vertical) + magnitude(dy);
            assert(arrives(m, r, src, b) && route_cost(r) == goal);
        } else if dx > 0 {
            let corner = Vec2D { x: b.x, y: a.y };
            let mid = State { pos: corner, facing: Direction::East };
            lemma_leg(m, src, Direction::East, dx, corner);
            let r1 = choose|r: Seq<State>|
                connects(m, r, src, mid) && route_cost(r) == 1000 * src.facing.spec_turns_to(
                    Direction::East,
                ) + dx;
            lemma_leg(m, mid, vertical, magnitude(dy), b);
            let r2 = choose|r: Seq<State>|
                connects(m, r, mid, State { pos: b, facing: vertical }) && route_cost(r) == 1000
                    * mid.facing.spec_turns_to(vertical) + magnitude(dy);
            lemma_join(m, r1, r2);
            let r = r1 + r2.drop_first();
            assert(arrives(m, r, src, b) && route_cost(r) == goal);
        } else {
            let corner = Vec2D { x: a.x, y: b.y };
            let mid = State { pos: corner, facing: vertical };
            lemma_leg(m, src, vertical, magnitude(dy), corner);
            let r1 = choose|r: Seq<State>|
                connects(m, r, src, mid) && route_cost(r) == 1000 * src.facing.spec_turns_to(
                    vertical,
                ) + magnitude(dy);
            lemma_leg(m, mid, Direction::West, -dx, b);
            let r2 = choose|r: Seq<State>|
                connects(m, r, mid, State { pos: b, facing: Direction::West }) && route_cost(r)
                    == 1000 * mid.facing.spec_turns_to(Direction::West) + (-dx);
            lemma_join(m, r1, r2);
            let r = r1 + r2.drop_first();
            assert(arrives(m, r, src, b) && route_cost(r) == goal);
        }
    }
    assert(is_best_cost(m, src, b, goal));
    lemma_best_cost(m, src, b);
}

/// No move of any route reverses the heading, so no best route does.
pub proof fn law_no_reversal(m: &Maze, a: State, cell: Vec2D, p: Seq<State>, i: int)
    requires
        is_best_route(m, p, a, cell),
        0 <= i < p.len() - 1,
    ensures
        p[i].facing.spec_turns_to(p[i + 1].facing) != 2,
        step_cost(p[i].facing, p[i + 1].facing) <= 1001,
{
    assert(step_at(m, p, i));
}

/// Two solutions of one search hold the same minimal cost, the same
/// distances and the same predecessors, and give the same count of tiles
/// on best routes.
pub proof fn law_solve_repeatable(m: &Maze, src: State, first: Solution, second: Solution)
    requires
        first.spec_solves(m, src),
        second.spec_solves(m, src),
    ensures
        first.minimal_cost == second.minimal_cost,
        first.distances@ == second.distances@,
        first.parents@ == second.parents@,
        cells_of(traced(first.parents@, tied(first.distances@, m.spec_end(), first.minimal_cost)))
            == cells_of(
            traced(second.parents@, tied(second.distances@, m.spec_end(), second.minimal_cost)),
        ),
{
    assert(first.distances@ =~= second.distances@);
    assert forall|v: State|
        first.parents@.contains_key(v) <==> second.parents@.contains_key(v) by {
        first.parents.lemma_entries(v);
        second.parents.lemma_entries(v);
        if first.parents@.contains_key(v) {
            let p = choose|p: State| first.parents@[v].contains(p);
            assert(parents_or_none(first.parents@, v).contains(p));
            assert(parents_or_none(second.parents@, v).contains(p));
        }
        if second.parents@.contains_key(v) {
            let p = choose|p: State| second.parents@[v].contains(p);
            assert(parents_or_none(second.parents@, v).contains(p));
            assert(parents_or_none(first.parents@, v).contains(p));
        }
    }
    assert forall|v: State| first.parents@.contains_key(v) implies first.parents@[v]
        =~= second.parents@[v] by {
        assert forall|p: State| first.parents@[v].contains(p) <==> second.parents@[v].contains(
            p,
        ) by {
            assert(parents_or_none(first.parents@, v).contains(p)
                <==> parents_or_none(second.parents@, v).contains(p));
        }
    }
    assert(first.parents@ =~= second.parents@);
    lemma_traced_tiles(m, src, first.distances@, first.parents@, first.minimal_cost);
    lemma_traced_tiles(m, src, second.distances@, second.parents@, second.minimal_cost);
}

/// A route through a maze is a route through the same maze with fewer
/// walls.
pub proof fn lemma_route_survives(fewer: &Maze, more: &Maze, p: Seq<State>)
    requires
        walls_added(fewer, more),
        is_route(more, p),
    ensures
        is_route(fewer, p),
{
    assert forall|i: int| 0 <= i < p.len() - 1 implies #[trigger] step_at(fewer, p, i) by {
        assert(step_at(more, p, i));
    }
}

/// Turning cells into walls never lowers the least cost of reaching the
/// end: if the end can still be reached, it could be reached before, at
/// no higher cost.
pub proof fn law_walls_never_lower_cost(fewer: &Maze, more: &Maze, src: State)
    requires
        walls_added(fewer, more),
    ensures
        best_cost(more, src, more.spec_end()).is_some() ==> {
            &&& best_cost(fewer, src, fewer.spec_end()).is_some()
            &&& best_cost(fewer, src, fewer.spec_end()).unwrap() <= best_cost(
                more,
                src,
                more.spec_end(),
            ).unwrap()
        },
{
    let end = more.spec_end();
    lemma_best_cost(more, src, end);
    lemma_best_cost(fewer, src, end);
    if best_cost(more, src, end).is_some() {
        let c = best_cost(more, src, end).unwrap();
        let p = choose|p: Seq<State>| arrives(more, p, src, end) && route_cost(p) == c;
        lemma_route_survives(fewer, more, p);
        assert(arrives(fewer, p, src, end));
    }
}

/// The cells of a grid, up to any place in row-major order, are finitely
/// many.
pub proof fn lemma_cells_before_finite(b: Bounds, x: int, y: int)
    requires
        0 <= x <= b.width,
        0 <= y,
        0 <= b.width,
    ensures
        cells_before(b, x, y).finite(),
    decreases y, x,
{
    if x > 0 {
        lemma_cells_before_finite(b, x - 1, y);
        let c = Vec2D { x: (x - 1) as i32, y: y as i32 };
        if y < b.height {
            assert(cells_before(b, x, y) =~= cells_before(b, x - 1, y).insert(c));
        } else {
            assert(cells_before(b, x, y) =~= cells_before(b, x - 1, y));
        }
    } else if y > 0 {
        lemma_cells_before_finite(b, b.width as int, y - 1);
        assert(cells_before(b, 0, y) =~= cells_before(b, b.width as int, y - 1));
    } else {
        assert(cells_before(b, 0, 0) =~= Set::<Vec2D>::empty());
    }
}

/// The tiles on best routes from a cell of the grid are cells of the
/// grid, so there are finitely many.
pub proof fn lemma_best_tiles_finite(m: &Maze, src: State, cell: Vec2D)
    requires
        m.spec_bounds().spec_contains(src.pos),
    ensures
        best_tiles(m, src, cell).finite(),
        forall|c: Vec2D| best_tiles(m, src, cell).contains(c) ==> m.spec_bounds().spec_contains(c),
{
    let b = m.spec_bounds();
    let all = cells_before(b, 0, b.height as int);
    lemma_cells_before_finite(b, 0, b.height as int);
    assert forall|c: Vec2D| best_tiles(m, src, cell).contains(c) implies b.spec_contains(c) by {
        let (p, i) = choose|p: Seq<State>, i: int|
            is_best_route(m, p, src, cell) && 0 <= i < p.len() && (#[trigger] p[i]).pos == c;
        if i > 0 {
            assert(step_at(m, p, i - 1));
        }
    }
    assert(best_tiles(m, src, cell).subset_of(all));
    vstd::set_lib::lemma_set_subset_finite(all, best_tiles(m, src, cell));
}

/// Turning cells into walls never adds a tile to the best routes, and so
/// never raises their count, as long as the least cost stays what it was
/// or the end is cut off. (Where the least cost rises to another cost, the
/// dearer best routes may well pass more tiles than the cheaper ones did.)
pub proof fn law_walls_never_add_tiles(fewer: &Maze, more: &Maze, src: State)
    requires
        walls_added(fewer, more),
        fewer.spec_bounds().spec_contains(src.pos),
        best_cost(more, src, more.spec_end()) == best_cost(fewer, src, fewer.spec_end())
            || best_cost(more, src, more.spec_end()).is_none(),
    ensures
        best_tiles(more, src, more.spec_end()).subset_of(
            best_tiles(fewer, src, fewer.spec_end()),
        ),
        best_tiles(more, src, more.spec_end()).len() <= best_tiles(
            fewer,
            src,
            fewer.spec_end(),
        ).len(),
{
    let end = more.spec_end();
    lemma_best_cost(more, src, end);
    lemma_best_cost(fewer, src, end);
    assert forall|tile: Vec2D| on_best_route(more, src, end, tile) implies on_best_route(
        fewer,
        src,
        end,
        tile,
    ) by {
        let (p, i) = choose|p: Seq<State>, i: int|
            is_best_route(more, p, src, end) && 0 <= i < p.len() && (#[trigger] p[i]).pos == tile;
        lemma_route_survives(fewer, more, p);
        assert(arrives(more, p, src, end));
        assert(is_best_cost(more, src, end, route_cost(p)));
        assert(is_best_route(fewer, p, src, end));
    }
    assert(best_tiles(more, src, end).subset_of(best_tiles(fewer, src, end)));
    lemma_best_tiles_finite(fewer, src, end);
    lemma_len_subset(best_tiles(more, src, end), best_tiles(fewer, src, end));
}

/// Where the end cannot be reached there is no best route, and no tile on
/// one.
pub proof fn law_unreachable_no_tiles(m: &Maze, src: State)
    requires
        best_cost(m, src, m.spec_end()).is_none(),
    ensures
        best_tiles(m, src, m.spec_end()) == Set::<Vec2D>::empty(),
{
    lemma_best_cost(m, src, m.spec_end());
    assert forall|tile: Vec2D| !on_best_route(m, src, m.spec_end(), tile) by {
        if on_best_route(m, src, m.spec_end(), tile) {
            let (p, i) = choose|p: Seq<State>, i: int|
                is_best_route(m, p, src, m.spec_end()) && 0 <= i < p.len() && (#[trigger] p[i]).pos
                    == tile;
            assert(arrives(m, p, src, m.spec_end()));
        }
    }
    assert(best_tiles(m, src, m.spec_end()) =~= Set::<Vec2D>::empty());
}

/// Every state of a route that ends in a region which no move enters from
/// outside lies in the region.
pub proof fn lemma_route_stays_inside(m: &Maze, region: Set<Vec2D>, p: Seq<State>, i: int)
    requires
        is_route(m, p),
        region.contains(p.last().pos),
        forall|s: State, t: State|
            region.contains(t.pos) && #[trigger] is_step(m, s, t) ==> region.contains(s.pos),
        0 <= i < p.len(),
    ensures
        region.contains(p[i].pos),
    decreases p.len() - i,
{
    if i < p.len() - 1 {
        lemma_route_stays_inside(m, region, p, i + 1);
        assert(step_at(m, p, i));
    }
}

/// An end that is walled in cannot be reached: where the end lies in a
/// region that no move enters from outside, and the start lies outside the
/// region, there is no route and no least cost.
pub proof fn law_enclosed_end_unreachable(m: &Maze, src: State, region: Set<Vec2D>)
    requires
        region.contains(m.spec_end()),
        !region.contains(src.pos),
        forall|s: State, t: State|
            region.contains(t.pos) && #[trigger] is_step(m, s, t) ==> region.contains(s.pos),
    ensures
        best_cost(m, src, m.spec_end()).is_none(),
{
    lemma_best_cost(m, src, m.spec_end());
    assert forall|p: Seq<State>| !arrives(m, p, src, m.spec_end()) by {
        if arrives(m, p, src, m.spec_end()) {
            lemma_route_stays_inside(m, region, p, 0);
        }
    }
}

/// Predecessors on cheapest routes are strictly nearer to the source than
/// the states they lead to, so going back along them never comes round.
pub proof fn law_parents_are_nearer(m: &Maze, src: State, t: State, v: State)
    requires
        is_tight(m, src, t, v),
    ensures
        distance(m, src, t).unwrap() < distance(m, src, v).unwrap(),
{
    lemma_step_cost_range(t.facing, v.facing);
}

/// Where exactly two routes tie for the least cost, the tiles on best
/// routes are the tiles of the one together with the tiles of the other,
/// each tile once.
pub proof fn law_tied_routes_union(m: &Maze, src: State, p: Seq<State>, q: Seq<State>)
    requires
        is_best_route(m, p, src, m.spec_end()),
        is_best_route(m, q, src, m.spec_end()),
        forall|r: Seq<State>| is_best_route(m, r, src, m.spec_end()) ==> r == p || r == q,
    ensures
        best_tiles(m, src, m.spec_end()) == route_cells(p).union(route_cells(q)),
{
    let end = m.spec_end();
    assert forall|tile: Vec2D|
        best_tiles(m, src, end).contains(tile) <==> route_cells(p).union(route_cells(q)).contains(
            tile,
        ) by {
        if on_best_route(m, src, end, tile) {
            let (r, i) = choose|r: Seq<State>, i: int|
                is_best_route(m, r, src, end) && 0 <= i < r.len() && (#[trigger] r[i]).pos == tile;
            assert(r == p || r == q);
        }
        if route_cells(p).contains(tile) {
            let i = choose|i: int| 0 <= i < p.len() && (#[trigger] p[i]).pos == tile;
            assert(is_best_route(m, p, src, end) && 0 <= i < p.len() && p[i].pos == tile);
        }
        if route_cells(q).contains(tile) {
            let i = choose|i: int| 0 <= i < q.len() && (#[trigger] q[i]).pos == tile;
            assert(is_best_route(m, q, src, end) && 0 <= i < q.len() && q[i].pos == tile);
        }
    }
    assert(best_tiles(m, src, end) =~= route_cells(p).union(route_cells(q)));
}

} // verus!
