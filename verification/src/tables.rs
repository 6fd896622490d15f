//! The two tables that a search fills: least known costs and, for each
//! state, the predecessors that realise its least known cost. Both are
//! keyed by the number of a state within the bounds of the grid.

use crate::bounds::Bounds;
use crate::direction::State;
use crate::sequences::{filled, lemma_push_to_set};
use vstd::prelude::*;

verus! {

/// Least known cost of each state that has been reached.
pub struct DistanceMap {
    bounds: Bounds,
    cells: Vec<Option<u64>>,
}

impl View for DistanceMap {
    type V = Map<State, u64>;

    /// The recorded costs, by state. States that were never reached have no
    /// entry.
    closed spec fn view(&self) -> Map<State, u64> {
        Map::new(
            |s: State|
                self.bounds.spec_contains(s.pos) && self.cells@[self.bounds.spec_state_index(
                    s,
                )].is_some(),
            |s: State| self.cells@[self.bounds.spec_state_index(s)].unwrap(),
        )
    }
}

impl DistanceMap {
    /// The bounds of the grid whose states the table is keyed by.
    pub closed spec fn spec_bounds(&self) -> Bounds {
        self.bounds
    }

    /// The table has one slot per state of the grid.
    pub closed spec fn wf(&self) -> bool {
        &&& self.bounds.wf()
        &&& self.cells@.len() == self.bounds.spec_state_count()
    }

    /// The recorded cost of `s`, if any.
    pub open spec fn spec_get(&self, s: State) -> Option<u64> {
        if self@.contains_key(s) {
            Some(self@[s])
        } else {
            None
        }
    }

    /// Only states of the grid have an entry.
    pub proof fn lemma_keys_inside(&self, s: State)
        ensures
            self@.contains_key(s) ==> self.spec_bounds().spec_contains(s.pos),
    {
    }

    /// The table without entries for a grid of the given bounds.
    pub fn new(bounds: Bounds) -> (d: DistanceMap)
        requires
            bounds.wf(),
        ensures
            d.wf(),
            d.spec_bounds() == bounds,
            d@ == Map::<State, u64>::empty(),
    {
        let n: usize = bounds.state_count();
        let d = DistanceMap { bounds, cells: filled(n, None) };
        proof {
            assert forall|s: State| !d@.contains_key(s) by {
                if bounds.spec_contains(s.pos) {
                    bounds.lemma_index_range(s);
                }
            }
            assert(d@ =~= Map::<State, u64>::empty());
        }
        d
    }

    /// The bounds of the grid whose states the table is keyed by.
    pub fn bounds(&self) -> (b: Bounds)
        ensures
            b == self.spec_bounds(),
            self.wf() ==> b.wf(),
    {
        self.bounds
    }

    /// The recorded cost of `s`, if any.
    pub fn get(&self, s: State) -> (r: Option<u64>)
        requires
            self.wf(),
        ensures
            r == self.spec_get(s),
    {
        if self.bounds.contains(s.pos) {
            let k: usize = self.bounds.state_index(s);
            self.cells[k]
        } else {
            None
        }
    }

    /// Records `cost` for `s`, in place of any earlier entry.
    pub fn set(&mut self, s: State, cost: u64)
        requires
            old(self).wf(),
            old(self).spec_bounds().spec_contains(s.pos),
        ensures
            final(self).wf(),
            final(self).spec_bounds() == old(self).spec_bounds(),
            final(self)@ == old(self)@.insert(s, cost),
    {
        let k: usize = self.bounds.state_index(s);
        self.cells[k] = Some(cost);
        proof {
            let b = self.bounds;
            assert forall|t: State| b.spec_contains(t.pos) && t != s implies self.cells@[b.spec_state_index(
                t,
            )] == old(self).cells@[b.spec_state_index(t)] by {
                b.lemma_index_injective(s, t);
                b.lemma_index_range(t);
            }
            assert(self@ =~= old(self)@.insert(s, cost));
        }
    }
}

/// For each state, the predecessors from which a move reaches it at its
/// least known cost.
pub struct ParentMap {
    bounds: Bounds,
    sets: Vec<Vec<State>>,
}

impl View for ParentMap {
    type V = Map<State, Set<State>>;

    /// The recorded predecessor sets, by state. States without a recorded
    /// predecessor have no entry.
    closed spec fn view(&self) -> Map<State, Set<State>> {
        Map::new(
            |s: State|
                self.bounds.spec_contains(s.pos) && self.sets@[self.bounds.spec_state_index(
                    s,
                )]@.len() > 0,
            |s: State| self.sets@[self.bounds.spec_state_index(s)]@.to_set(),
        )
    }
}

impl ParentMap {
    /// The bounds of the grid whose states the table is keyed by.
    pub closed spec fn spec_bounds(&self) -> Bounds {
        self.bounds
    }

    /// The table has one slot per state of the grid, and every recorded
    /// predecessor is a state of the grid.
    pub closed spec fn wf(&self) -> bool {
        &&& self.bounds.wf()
        &&& self.sets@.len() == self.bounds.spec_state_count()
        &&& forall|i: int, j: int|
            0 <= i < self.sets@.len() && 0 <= j < self.sets@[i]@.len()
                ==> self.bounds.spec_contains((#[trigger] self.sets@[i]@[j]).pos)
    }

    /// The recorded predecessors of `s` in the order in which they were
    /// recorded, one item per call of `reset` or `add` since the last
    /// `reset`.
    pub closed spec fn spec_list(&self, s: State) -> Seq<State> {
        if self.bounds.spec_contains(s.pos) {
            self.sets@[self.bounds.spec_state_index(s)]@
        } else {
            Seq::empty()
        }
    }

    /// The entry of a state holds the items of its list, and a state has
    /// an entry exactly if its list is not empty.
    pub proof fn lemma_list(&self, s: State)
        ensures
            self@.contains_key(s) <==> self.spec_list(s).len() > 0,
            self.spec_parents(s) == self.spec_list(s).to_set(),
    {
        if self.spec_list(s).len() == 0 {
            assert(self.spec_list(s).to_set() =~= Set::<State>::empty());
        }
    }

    /// The recorded predecessors of `s`: its entry, or the empty set.
    pub open spec fn spec_parents(&self, s: State) -> Set<State> {
        if self@.contains_key(s) {
            self@[s]
        } else {
            Set::empty()
        }
    }

    /// Only states of the grid have an entry, no entry is empty, and every
    /// recorded predecessor is a state of the grid.
    pub proof fn lemma_entries(&self, s: State)
        requires
            self.wf(),
        ensures
            self@.contains_key(s) ==> self.spec_bounds().spec_contains(s.pos),
            self@.contains_key(s) ==> exists|p: State| self@[s].contains(p),
            forall|p: State|
                self.spec_parents(s).contains(p) ==> self.spec_bounds().spec_contains(p.pos),
    {
        if self@.contains_key(s) {
            self.bounds.lemma_index_range(s);
            let list = self.sets@[self.bounds.spec_state_index(s)]@;
            assert(list.contains(list[0]));
            assert(self@[s].contains(list[0]));
            assert forall|p: State| self.spec_parents(s).contains(p) implies self.bounds.spec_contains(
                p.pos,
            ) by {
                let j = choose|j: int| 0 <= j < list.len() && list[j] == p;
                assert(self.bounds.spec_contains(
                    self.sets@[self.bounds.spec_state_index(s)]@[j].pos,
                ));
            }
        }
    }

    /// The table without entries for a grid of the given bounds.
    pub fn new(bounds: Bounds) -> (t: ParentMap)
        requires
            bounds.wf(),
        ensures
            t.wf(),
            t.spec_bounds() == bounds,
            t@ == Map::<State, Set<State>>::empty(),
            forall|s: State| #[trigger] t.spec_list(s) == Seq::<State>::empty(),
    {
        let n: usize = bounds.state_count();
        let mut sets: Vec<Vec<State>> = Vec::new();
        let mut i: usize = 0;
        while i < n
            invariant
                i <= n,
                sets@.len() == i,
                forall|j: int| 0 <= j < i ==> (#[trigger] sets@[j])@.len() == 0,
            decreases n - i,
        {
            sets.push(Vec::new());
            i = i + 1;
        }
        let t = ParentMap { bounds, sets };
        proof {
            assert forall|s: State| !t@.contains_key(s) by {
                if bounds.spec_contains(s.pos) {
                    bounds.lemma_index_range(s);
                }
            }
            assert(t@ =~= Map::<State, Set<State>>::empty());
            assert forall|s: State| #[trigger] t.spec_list(s) == Seq::<State>::empty() by {
                if bounds.spec_contains(s.pos) {
                    bounds.lemma_index_range(s);
                }
                assert(t.spec_list(s) =~= Seq::<State>::empty());
            }
        }
        t
    }

    /// The bounds of the grid whose states the table is keyed by.
    pub fn bounds(&self) -> (b: Bounds)
        ensures
            b == self.spec_bounds(),
            self.wf() ==> b.wf(),
    {
        self.bounds
    }

    /// The recorded predecessors of a state of the grid, in the order in
    /// which they were recorded.
    pub fn get(&self, s: State) -> (list: &Vec<State>)
        requires
            self.wf(),
            self.spec_bounds().spec_contains(s.pos),
        ensures
            list@ == self.spec_list(s),
            list@.to_set() == self.spec_parents(s),
            forall|j: int|
                0 <= j < list@.len() ==> self.spec_bounds().spec_contains((#[trigger] list@[j]).pos),
    {
        let k: usize = self.bounds.state_index(s);
        proof {
            let list = self.sets@[k as int]@;
            if list.len() == 0 {
                assert(list.to_set() =~= Set::<State>::empty());
            }
        }
        &self.sets[k]
    }

    /// Replaces the predecessors of `s` by `parent` alone.
    pub fn reset(&mut self, s: State, parent: State)
        requires
            old(self).wf(),
            old(self).spec_bounds().spec_contains(s.pos),
            old(self).spec_bounds().spec_contains(parent.pos),
        ensures
            final(self).wf(),
            final(self).spec_bounds() == old(self).spec_bounds(),
            final(self)@ == old(self)@.insert(s, Set::<State>::empty().insert(parent)),
            final(self).spec_list(s) == Seq::<State>::empty().push(parent),
            forall|t: State| t != s ==> #[trigger] final(self).spec_list(t) == old(self).spec_list(t),
    {
        let k: usize = self.bounds.state_index(s);
        let mut list: Vec<State> = Vec::new();
        list.push(parent);
        proof {
            lemma_push_to_set(Seq::<State>::empty(), parent);
            assert(Seq::<State>::empty().to_set() =~= Set::<State>::empty());
        }
        self.sets[k] = list;
        proof {
            let b = self.bounds;
            assert forall|t: State| b.spec_contains(t.pos) && t != s implies self.sets@[b.spec_state_index(
                t,
            )] == old(self).sets@[b.spec_state_index(t)] by {
                b.lemma_index_injective(s, t);
                b.lemma_index_range(t);
            }
            assert(self@ =~= old(self)@.insert(s, Set::<State>::empty().insert(parent)));
            assert forall|i: int, j: int|
                0 <= i < self.sets@.len() && 0 <= j < self.sets@[i]@.len() implies b.spec_contains(
                (#[trigger] self.sets@[i]@[j]).pos,
            ) by {
                if i != k {
                    assert(b.spec_contains(old(self).sets@[i]@[j].pos));
                }
            }
        }
    }

    /// Adds `parent` to the predecessors of `s` and keeps those recorded
    /// before.
    pub fn add(&mut self, s: State, parent: State)
        requires
            old(self).wf(),
            old(self).spec_bounds().spec_contains(s.pos),
            old(self).spec_bounds().spec_contains(parent.pos),
        ensures
            final(self).wf(),
            final(self).spec_bounds() == old(self).spec_bounds(),
            final(self)@ == old(self)@.insert(s, old(self).spec_parents(s).insert(parent)),
            final(self).spec_list(s) == old(self).spec_list(s).push(parent),
            forall|t: State| t != s ==> #[trigger] final(self).spec_list(t) == old(self).spec_list(t),
    {
        let k: usize = self.bounds.state_index(s);
        proof {
            let list = self.sets@[k as int]@;
            lemma_push_to_set(list, parent);
            if list.len() == 0 {
                assert(list.to_set() =~= Set::<State>::empty());
            }
        }
        self.sets[k].push(parent);
        proof {
            let b = self.bounds;
            assert forall|t: State| b.spec_contains(t.pos) && t != s implies self.sets@[b.spec_state_index(
                t,
            )] == old(self).sets@[b.spec_state_index(t)] by {
                b.lemma_index_injective(s, t);
                b.lemma_index_range(t);
            }
            assert(self@ =~= old(self)@.insert(s, old(self).spec_parents(s).insert(parent)));
            assert forall|i: int, j: int|
                0 <= i < self.sets@.len() && 0 <= j < self.sets@[i]@.len() implies b.spec_contains(
                (#[trigger] self.sets@[i]@[j]).pos,
            ) by {
                if i != k || j < old(self).sets@[i]@.len() {
                    assert(b.spec_contains(old(self).sets@[i]@[j].pos));
                }
            }
        }
    }
}

/// Number of `true` items of `flags`.
pub open spec fn count_true(flags: Seq<bool>) -> nat
    decreases flags.len(),
{
    if flags.len() == 0 {
        0
    } else {
        count_true(flags.drop_last()) + if flags.last() {
            1nat
        } else {
            0nat
        }
    }
}

/// There are no more `true` items than items.
pub proof fn lemma_count_true_bound(flags: Seq<bool>)
    ensures
        count_true(flags) <= flags.len(),
    decreases flags.len(),
{
    if flags.len() > 0 {
        lemma_count_true_bound(flags.drop_last());
    }
}

/// Turning one `false` item into `true` raises the count by one.
pub proof fn lemma_count_true_set(flags: Seq<bool>, i: int)
    requires
        0 <= i < flags.len(),
        !flags[i],
    ensures
        count_true(flags.update(i, true)) == count_true(flags) + 1,
    decreases flags.len(),
{
    let after = flags.update(i, true);
    if i == flags.len() - 1 {
        assert(after.drop_last() =~= flags.drop_last());
    } else {
        lemma_count_true_set(flags.drop_last(), i);
        assert(after.drop_last() =~= flags.drop_last().update(i, true));
    }
}

/// A set of states of one grid, with constant-time membership.
pub struct StateSet {
    bounds: Bounds,
    flags: Vec<bool>,
}

impl View for StateSet {
    type V = Set<State>;

    /// The members.
    closed spec fn view(&self) -> Set<State> {
        Set::new(
            |s: State|
                self.bounds.spec_contains(s.pos) && self.flags@[self.bounds.spec_state_index(s)],
        )
    }
}

impl StateSet {
    /// The bounds of the grid whose states the set can hold.
    pub closed spec fn spec_bounds(&self) -> Bounds {
        self.bounds
    }

    /// The set has one flag per state of the grid.
    pub closed spec fn wf(&self) -> bool {
        &&& self.bounds.wf()
        &&& self.flags@.len() == self.bounds.spec_state_count()
    }

    /// Number of members.
    pub closed spec fn spec_len(&self) -> nat {
        count_true(self.flags@)
    }

    /// A set holds no more states than the grid has, and only states of
    /// the grid.
    pub proof fn lemma_inside(&self)
        requires
            self.wf(),
        ensures
            self.spec_len() <= self.spec_bounds().spec_state_count(),
            forall|s: State| self@.contains(s) ==> self.spec_bounds().spec_contains(s.pos),
    {
        lemma_count_true_bound(self.flags@);
    }

    /// The empty set of states of a grid of the given bounds.
    pub fn new(bounds: Bounds) -> (set: StateSet)
        requires
            bounds.wf(),
        ensures
            set.wf(),
            set.spec_bounds() == bounds,
            set@ == Set::<State>::empty(),
            set.spec_len() == 0,
    {
        let n: usize = bounds.state_count();
        let set = StateSet { bounds, flags: filled(n, false) };
        proof {
            assert forall|s: State| !set@.contains(s) by {
                if bounds.spec_contains(s.pos) {
                    bounds.lemma_index_range(s);
                }
            }
            assert(set@ =~= Set::<State>::empty());
            lemma_all_false(set.flags@);
        }
        set
    }

    /// The bounds of the grid whose states the set can hold.
    pub fn bounds(&self) -> (b: Bounds)
        ensures
            b == self.spec_bounds(),
            self.wf() ==> b.wf(),
    {
        self.bounds
    }

    /// Whether `s` is a member.
    pub fn contains(&self, s: State) -> (b: bool)
        requires
            self.wf(),
        ensures
            b == self@.contains(s),
    {
        if self.bounds.contains(s.pos) {
            let k: usize = self.bounds.state_index(s);
            self.flags[k]
        } else {
            false
        }
    }

    /// Makes `s` a member. Returns whether it was none before.
    pub fn insert(&mut self, s: State) -> (fresh: bool)
        requires
            old(self).wf(),
            old(self).spec_bounds().spec_contains(s.pos),
        ensures
            final(self).wf(),
            final(self).spec_bounds() == old(self).spec_bounds(),
            final(self)@ == old(self)@.insert(s),
            fresh == !old(self)@.contains(s),
            final(self).spec_len() == old(self).spec_len() + if fresh {
                1nat
            } else {
                0nat
            },
    {
        let k: usize = self.bounds.state_index(s);
        let fresh: bool = !self.flags[k];
        proof {
            if fresh {
                lemma_count_true_set(self.flags@, k as int);
            } else {
                assert(self.flags@.update(k as int, true) =~= self.flags@);
            }
        }
        self.flags[k] = true;
        proof {
            let b = self.bounds;
            assert forall|t: State| b.spec_contains(t.pos) && t != s implies self.flags@[b.spec_state_index(
                t,
            )] == old(self).flags@[b.spec_state_index(t)] by {
                b.lemma_index_injective(s, t);
                b.lemma_index_range(t);
            }
            assert(self@ =~= old(self)@.insert(s));
        }
        fresh
    }
}

/// Where every item is `false`, the count of `true` items is zero.
pub proof fn lemma_all_false(flags: Seq<bool>)
    requires
        forall|i: int| 0 <= i < flags.len() ==> !flags[i],
    ensures
        count_true(flags) == 0,
    decreases flags.len(),
{
    if flags.len() > 0 {
        lemma_all_false(flags.drop_last());
    }
}

} // verus!
