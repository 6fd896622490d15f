//! The path extractor: from the end states back along recorded
//! predecessors, and the count of the tiles met on the way.

use crate::bounds::Bounds;
use crate::direction::{lemma_index_round_trip, Direction, State};
use crate::maze::Maze;
use crate::search::parents_or_none;
use crate::sequences::lemma_take_one_more;
use crate::tables::{ParentMap, StateSet};
use crate::vec2d::Vec2D;
use vstd::prelude::*;

verus! {

/// Item `i + 1` of `c` is a recorded predecessor of item `i`.
pub open spec fn link_at(par: Map<State, Set<State>>, c: Seq<State>, i: int) -> bool {
    parents_or_none(par, c[i]).contains(c[i + 1])
}

/// A chain is a non-empty sequence of states, each a recorded predecessor
/// of the one before.
pub open spec fn is_chain(par: Map<State, Set<State>>, c: Seq<State>) -> bool {
    &&& c.len() > 0
    &&& forall|i: int| 0 <= i < c.len() - 1 ==> #[trigger] link_at(par, c, i)
}

/// Some chain leads from a state of `roots` back to `s`.
pub open spec fn leads_back(par: Map<State, Set<State>>, roots: Set<State>, s: State) -> bool {
    exists|c: Seq<State>| is_chain(par, c) && roots.contains(c.first()) && c.last() == s
}

/// The states met when going back from `roots` along recorded
/// predecessors, the roots included.
pub open spec fn traced(par: Map<State, Set<State>>, roots: Set<State>) -> Set<State> {
    Set::new(|s: State| leads_back(par, roots, s))
}

/// The positions of the states of a set, each once.
pub open spec fn cells_of(states: Set<State>) -> Set<Vec2D> {
    Set::new(|c: Vec2D| exists|d: Direction| states.contains(State { pos: c, facing: d }))
}

/// With each member, the set holds the recorded predecessors of the member.
pub open spec fn closed_under(par: Map<State, Set<State>>, seen: Set<State>) -> bool {
    forall|s: State, p: State|
        seen.contains(s) && #[trigger] parents_or_none(par, s).contains(p) ==> seen.contains(p)
}

/// A root is traced from itself.
pub proof fn lemma_root_traced(par: Map<State, Set<State>>, roots: Set<State>, s: State)
    requires
        roots.contains(s),
    ensures
        leads_back(par, roots, s),
{
    let c = seq![s];
    assert(is_chain(par, c) && roots.contains(c.first()) && c.last() == s);
}

/// A recorded predecessor of a traced state is traced.
pub proof fn lemma_parent_traced(
    par: Map<State, Set<State>>,
    roots: Set<State>,
    s: State,
    p: State,
)
    requires
        leads_back(par, roots, s),
        parents_or_none(par, s).contains(p),
    ensures
        leads_back(par, roots, p),
{
    let c = choose|c: Seq<State>| is_chain(par, c) && roots.contains(c.first()) && c.last() == s;
    let longer = c.push(p);
    assert forall|i: int| 0 <= i < longer.len() - 1 implies #[trigger] link_at(par, longer, i) by {
        if i < c.len() - 1 {
            assert(link_at(par, c, i));
        }
    }
    assert(is_chain(par, longer) && roots.contains(longer.first()) && longer.last() == p);
}

/// A closed set that holds the first state of a chain holds all of it.
pub proof fn lemma_closed_holds_chain(
    par: Map<State, Set<State>>,
    seen: Set<State>,
    c: Seq<State>,
    i: int,
)
    requires
        closed_under(par, seen),
        is_chain(par, c),
        seen.contains(c.first()),
        0 <= i < c.len(),
    ensures
        seen.contains(c[i]),
    decreases i,
{
    if i > 0 {
        lemma_closed_holds_chain(par, seen, c, i - 1);
        assert(link_at(par, c, i - 1));
    }
}

/// What is traced from several roots is what is traced from each of them.
pub proof fn lemma_traced_insert(par: Map<State, Set<State>>, roots: Set<State>, root: State)
    ensures
        traced(par, roots.insert(root)) == traced(par, roots).union(
            traced(par, Set::<State>::empty().insert(root)),
        ),
{
    let one = Set::<State>::empty().insert(root);
    let both = roots.insert(root);
    assert forall|s: State|
        traced(par, both).contains(s) <==> traced(par, roots).union(traced(par, one)).contains(
            s,
        ) by {
        if leads_back(par, both, s) {
            let c = choose|c: Seq<State>|
                is_chain(par, c) && both.contains(c.first()) && c.last() == s;
            if roots.contains(c.first()) {
                assert(leads_back(par, roots, s));
            } else {
                assert(one.contains(c.first()));
                assert(leads_back(par, one, s));
            }
        }
        if leads_back(par, roots, s) {
            let c = choose|c: Seq<State>|
                is_chain(par, c) && roots.contains(c.first()) && c.last() == s;
            assert(both.contains(c.first()));
        }
        if leads_back(par, one, s) {
            let c = choose|c: Seq<State>|
                is_chain(par, c) && one.contains(c.first()) && c.last() == s;
            assert(both.contains(c.first()));
        }
    }
    assert(traced(par, both) =~= traced(par, roots).union(traced(par, one)));
}

/// Nothing is traced from no root.
pub proof fn lemma_traced_empty(par: Map<State, Set<State>>)
    ensures
        traced(par, Set::<State>::empty()) == Set::<State>::empty(),
{
    assert(traced(par, Set::<State>::empty()) =~= Set::<State>::empty());
}

/// Adds to `seen` every state met when going back from `root` along
/// recorded predecessors. States that are in `seen` already are not gone
/// through again.
#[verifier::loop_isolation(false)]
pub fn trace_into(seen: &mut StateSet, root: State, parents: &ParentMap)
    requires
        old(seen).wf(),
        parents.wf(),
        old(seen).spec_bounds() == parents.spec_bounds(),
        parents.spec_bounds().spec_contains(root.pos),
        closed_under(parents@, old(seen)@),
    ensures
        final(seen).wf(),
        final(seen).spec_bounds() == old(seen).spec_bounds(),
        closed_under(parents@, final(seen)@),
        final(seen)@ == old(seen)@.union(traced(parents@, Set::<State>::empty().insert(root))),
{
    let ghost roots = Set::<State>::empty().insert(root);
    let ghost total: int = parents.spec_bounds().spec_state_count();
    let mut stack: Vec<State> = Vec::new();
    let first: bool = seen.insert(root);
    if first {
        stack.push(root);
    }
    proof {
        lemma_root_traced(parents@, roots, root);
        seen.lemma_inside();
        if first {
            assert(stack@[0] == root);
        }
    }
    while stack.len() > 0
        invariant
            seen.wf(),
            seen.spec_bounds() == parents.spec_bounds(),
            seen.spec_len() <= total,
            seen@.contains(root),
            forall|i: int|
                0 <= i < stack@.len() ==> seen@.contains(#[trigger] stack@[i]) && leads_back(
                    parents@,
                    roots,
                    stack@[i],
                ),
            forall|s: State|
                seen@.contains(s) ==> old(seen)@.contains(s) || leads_back(parents@, roots, s),
            forall|s: State| old(seen)@.contains(s) ==> seen@.contains(s),
            forall|s: State, p: State|
                seen@.contains(s) && #[trigger] parents_or_none(parents@, s).contains(p)
                    ==> seen@.contains(p) || stack@.contains(s),
        decreases 2 * (total - seen.spec_len()) + stack@.len(),
    {
        let ghost measure: int = 2 * (total - seen.spec_len()) + stack@.len();
        let ghost above = stack@;
        let s: State = stack.pop().unwrap();
        proof {
            seen.lemma_inside();
            assert forall|x: State| above.contains(x) && x != s implies stack@.contains(x) by {
                let i = choose|i: int| 0 <= i < above.len() && above[i] == x;
                assert(stack@[i] == x);
            }
        }
        let list: &Vec<State> = parents.get(s);
        let mut j: usize = 0;
        while j < list.len()
            invariant
                seen.wf(),
                seen.spec_bounds() == parents.spec_bounds(),
                seen.spec_len() <= total,
                seen@.contains(root),
                seen@.contains(s),
                j <= list@.len(),
                forall|i: int|
                    0 <= i < stack@.len() ==> seen@.contains(#[trigger] stack@[i]) && leads_back(
                        parents@,
                        roots,
                        stack@[i],
                    ),
                forall|x: State|
                    seen@.contains(x) ==> old(seen)@.contains(x) || leads_back(parents@, roots, x),
                forall|x: State| old(seen)@.contains(x) ==> seen@.contains(x),
                forall|x: State, p: State|
                    seen@.contains(x) && #[trigger] parents_or_none(parents@, x).contains(p)
                        ==> seen@.contains(p) || stack@.contains(x) || x == s,
                forall|i: int| 0 <= i < j ==> seen@.contains(#[trigger] list@[i]),
                2 * (total - seen.spec_len()) + stack@.len() <= measure - 1,
            decreases list@.len() - j,
        {
            let p: State = list[j];
            let ghost below = stack@;
            proof {
                assert(list@.contains(list@[j as int]));
                assert(list@.to_set().contains(p));
                lemma_parent_traced(parents@, roots, s, p);
            }
            let fresh: bool = seen.insert(p);
            if fresh {
                stack.push(p);
            }
            proof {
                seen.lemma_inside();
                assert forall|x: State| below.contains(x) implies stack@.contains(x) by {
                    let i = choose|i: int| 0 <= i < below.len() && below[i] == x;
                    assert(stack@[i] == x);
                }
                if fresh {
                    assert(stack@[stack@.len() - 1] == p);
                }
            }
            j = j + 1;
        }
        proof {
            assert forall|p: State| #[trigger]
                parents_or_none(parents@, s).contains(p) implies seen@.contains(p) by {
                assert(list@.to_set().contains(p));
                let i = choose|i: int| 0 <= i < list@.len() && list@[i] == p;
                assert(seen@.contains(list@[i]));
            }
        }
    }
    proof {
        assert(closed_under(parents@, seen@)) by {
            assert forall|s: State, p: State|
                seen@.contains(s) && #[trigger] parents_or_none(parents@, s).contains(
                    p,
                ) implies seen@.contains(p) by {
                assert(!stack@.contains(s));
            }
        }
        assert forall|s: State|
            seen@.contains(s) <==> old(seen)@.union(traced(parents@, roots)).contains(s) by {
            if leads_back(parents@, roots, s) {
                let c = choose|c: Seq<State>|
                    is_chain(parents@, c) && roots.contains(c.first()) && c.last() == s;
                lemma_closed_holds_chain(parents@, seen@, c, c.len() - 1);
            }
        }
        assert(seen@ =~= old(seen)@.union(traced(parents@, roots)));
    }
}

impl Maze {
    /// Returns the set of all states met when going back from `e` along
    /// recorded predecessors, `e` included.
    pub fn tiles_to(e: State, parents: &ParentMap) -> (set: StateSet)
        requires
            parents.wf(),
            parents.spec_bounds().spec_contains(e.pos),
        ensures
            set.wf(),
            set.spec_bounds() == parents.spec_bounds(),
            set@ == traced(parents@, Set::<State>::empty().insert(e)),
    {
        let mut set: StateSet = StateSet::new(parents.bounds());
        trace_into(&mut set, e, parents);
        proof {
            assert(set@ =~= traced(parents@, Set::<State>::empty().insert(e)));
        }
        set
    }
}

/// Whether some state of the set stands on `cell`.
pub fn holds_cell(set: &StateSet, cell: Vec2D) -> (b: bool)
    requires
        set.wf(),
    ensures
        b == cells_of(set@).contains(cell),
{
    let dirs: [Direction; 4] = Direction::all();
    let mut k: usize = 0;
    while k < 4
        invariant
            set.wf(),
            k <= 4,
            forall|i: int| 0 <= i < 4 ==> dirs[i] == Direction::spec_from_index(i),
            forall|d: Direction|
                d.spec_index() < k ==> !(#[trigger] set@.contains(State { pos: cell, facing: d })),
        decreases 4 - k,
    {
        let d: Direction = dirs[k];
        if set.contains(State::new(cell, d)) {
            return true;
        }
        proof {
            assert forall|e: Direction| e.spec_index() == k implies e == d by {
                lemma_index_round_trip(e);
                lemma_index_round_trip(d);
            }
        }
        k = k + 1;
    }
    proof {
        assert forall|d: Direction| #[trigger] d.spec_index() < 4 by {
            lemma_index_round_trip(d);
        }
    }
    false
}

/// The cells of the grid that come before `(x, y)` in row-major order.
pub open spec fn cells_before(b: Bounds, x: int, y: int) -> Set<Vec2D> {
    Set::new(|c: Vec2D| b.spec_contains(c) && (c.y < y || (c.y == y && c.x < x)))
}

/// Number of distinct positions of the states of a set.
#[verifier::loop_isolation(false)]
pub fn count_cells(set: &StateSet) -> (count: usize)
    requires
        set.wf(),
    ensures
        cells_of(set@).finite(),
        count == cells_of(set@).len(),
{
    let b: Bounds = set.bounds();
    let ghost all = cells_of(set@);
    let ghost mut acc: Set<Vec2D> = Set::empty();
    let mut count: usize = 0;
    let mut y: i32 = 0;
    proof {
        set.lemma_inside();
        assert(acc =~= all.intersect(cells_before(b, 0, 0)));
    }
    while y < b.height
        invariant
            0 <= y <= b.height,
            acc.finite(),
            acc.len() == count,
            acc == all.intersect(cells_before(b, 0, y as int)),
            count <= y * b.width,
        decreases b.height - y,
    {
        let mut x: i32 = 0;
        while x < b.width
            invariant
                0 <= y < b.height,
                0 <= x <= b.width,
                acc.finite(),
                acc.len() == count,
                acc == all.intersect(cells_before(b, x as int, y as int)),
                count <= y * b.width + x,
            decreases b.width - x,
        {
            let cell: Vec2D = Vec2D::new(x, y);
            proof {
                b.lemma_cell_range(cell);
            }
            if holds_cell(set, cell) {
                count = count + 1;
                proof {
                    acc = acc.insert(cell);
                }
            }
            proof {
                assert(acc =~= all.intersect(cells_before(b, x + 1, y as int)));
            }
            x = x + 1;
        }
        proof {
            assert(acc =~= all.intersect(cells_before(b, 0, y + 1)));
            assert(y * b.width + b.width == (y + 1) * b.width) by (nonlinear_arith);
        }
        y = y + 1;
    }
    proof {
        assert forall|c: Vec2D| all.contains(c) implies b.spec_contains(c) by {
            let d = choose|d: Direction| set@.contains(State { pos: c, facing: d });
            assert(set@.contains(State { pos: c, facing: d }));
        }
        assert(acc =~= all);
    }
    count
}

/// Counts the distinct tiles met when going back from the given end states
/// along recorded predecessors. A tile counts once, however many states on
/// it are met.
pub fn extract_optimal_tiles(end_states: &Vec<State>, parents: &ParentMap) -> (count: usize)
    requires
        parents.wf(),
        forall|i: int|
            0 <= i < end_states@.len() ==> parents.spec_bounds().spec_contains(
                (#[trigger] end_states@[i]).pos,
            ),
    ensures
        cells_of(traced(parents@, end_states@.to_set())).finite(),
        count == cells_of(traced(parents@, end_states@.to_set())).len(),
{
    let mut seen: StateSet = StateSet::new(parents.bounds());
    let mut i: usize = 0;
    proof {
        lemma_traced_empty(parents@);
        assert(end_states@.take(0).to_set() =~= Set::<State>::empty());
    }
    while i < end_states.len()
        invariant
            parents.wf(),
            seen.wf(),
            seen.spec_bounds() == parents.spec_bounds(),
            i <= end_states@.len(),
            forall|i: int|
                0 <= i < end_states@.len() ==> parents.spec_bounds().spec_contains(
                    (#[trigger] end_states@[i]).pos,
                ),
            closed_under(parents@, seen@),
            seen@ == traced(parents@, end_states@.take(i as int).to_set()),
        decreases end_states@.len() - i,
    {
        let e: State = end_states[i];
        trace_into(&mut seen, e, parents);
        proof {
            let shorter = end_states@.take(i as int).to_set();
            let longer = end_states@.take(i + 1).to_set();
            assert forall|s: State| longer.contains(s) <==> shorter.insert(e).contains(s) by {
                lemma_take_one_more(end_states@, i as int, s);
            }
            assert(longer =~= shorter.insert(e));
            lemma_traced_insert(parents@, shorter, e);
        }
        i = i + 1;
    }
    proof {
        assert(end_states@.take(end_states@.len() as int) =~= end_states@);
    }
    count_cells(&seen)
}

} // verus!
