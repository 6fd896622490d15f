//! The search frontier: a binary min-heap of costed states.

use crate::direction::{Direction, State};
use crate::vec2d::Vec2D;
use vstd::multiset::Multiset;
use vstd::prelude::*;
use vstd::seq_lib::{to_multiset_build, to_multiset_contains, to_multiset_remove, to_multiset_update};

verus! {

/// A state together with the cost at which the search reached it.
#[derive(Debug, Clone, Copy, PartialEq, Eq, Structural)]
pub struct Node {
    pub cost: u64,
    pub pos: Vec2D,
    pub facing: Direction,
}

impl Node {
    /// The state that the node stands for.
    pub open spec fn spec_state(self) -> State {
        State { pos: self.pos, facing: self.facing }
    }

    /// The order in which nodes leave the frontier: by cost, and among
    /// nodes of equal cost by position, `x` before `y`. Every two nodes are
    /// comparable.
    pub open spec fn spec_precedes(self, other: Node) -> bool {
        ||| self.cost < other.cost
        ||| (self.cost == other.cost && self.pos.x < other.pos.x)
        ||| (self.cost == other.cost && self.pos.x == other.pos.x && self.pos.y <= other.pos.y)
    }

    /// The node for `state` reached at `cost`.
    pub fn new(cost: u64, state: State) -> (n: Node)
        ensures
            n.cost == cost,
            n.spec_state() == state,
    {
        Node { cost, pos: state.pos, facing: state.facing }
    }

    /// The state that the node stands for.
    pub fn state(&self) -> (s: State)
        ensures
            s == self.spec_state(),
    {
        State { pos: self.pos, facing: self.facing }
    }

    /// Whether `self` may leave the frontier before `other`.
    pub fn precedes(&self, other: &Node) -> (b: bool)
        ensures
            b == self.spec_precedes(*other),
    {
        if self.cost != other.cost {
            self.cost < other.cost
        } else if self.pos.x != other.pos.x {
            self.pos.x < other.pos.x
        } else {
            self.pos.y <= other.pos.y
        }
    }
}

/// Index of the parent of slot `i` in the implicit tree.
pub open spec fn parent_of(i: int) -> int {
    (i - 1) / 2
}

/// The node in slot `i` does not precede the node in its parent slot
/// strictly.
pub open spec fn ordered_at(s: Seq<Node>, i: int) -> bool {
    s[parent_of(i)].spec_precedes(s[i])
}

/// Every slot but the root is in order with its parent.
pub open spec fn heap_ordered(s: Seq<Node>) -> bool {
    forall|i: int| 1 <= i < s.len() ==> #[trigger] ordered_at(s, i)
}

/// As `heap_ordered`, but nothing is said of slot `k` and its parent.
pub open spec fn ordered_but_above(s: Seq<Node>, k: int) -> bool {
    &&& forall|i: int| 1 <= i < s.len() && i != k ==> #[trigger] ordered_at(s, i)
    &&& forall|c: int|
        1 <= c < s.len() && #[trigger] parent_of(c) == k && k >= 1 ==> s[parent_of(k)].spec_precedes(
            s[c],
        )
}

/// As `heap_ordered`, but nothing is said of slot `k` and its children.
pub open spec fn ordered_but_below(s: Seq<Node>, k: int) -> bool {
    &&& forall|i: int| 1 <= i < s.len() && parent_of(i) != k ==> #[trigger] ordered_at(s, i)
    &&& forall|c: int|
        1 <= c < s.len() && #[trigger] parent_of(c) == k && k >= 1 ==> s[parent_of(k)].spec_precedes(
            s[c],
        )
}

/// In an ordered heap the root precedes every node.
pub proof fn lemma_root_is_least(s: Seq<Node>, i: int)
    requires
        heap_ordered(s),
        0 <= i < s.len(),
    ensures
        s[0].spec_precedes(s[i]),
    decreases i,
{
    if i > 0 {
        lemma_root_is_least(s, parent_of(i));
        assert(ordered_at(s, i));
    }
}

/// Exchanging two slots keeps the nodes, counted with multiplicity.
pub proof fn lemma_exchange_keeps_nodes(s: Seq<Node>, i: int, j: int)
    requires
        0 <= i < s.len(),
        0 <= j < s.len(),
    ensures
        s.update(i, s[j]).update(j, s[i]).to_multiset() == s.to_multiset(),
{
    let t = s.update(i, s[j]);
    to_multiset_update(s, i, s[j]);
    to_multiset_update(t, j, s[i]);
    to_multiset_contains(s, s[i]);
    to_multiset_contains(s, s[j]);
    assert(s.contains(s[i]));
    assert(s.contains(s[j]));
    assert(t[j] == s[j]);
    assert(s.to_multiset().insert(s[j]).remove(s[i]).insert(s[i]).remove(s[j]) =~= s.to_multiset());
}

/// Moving the last node into the root slot and dropping the last slot
/// removes one copy of the old root and nothing else.
pub proof fn lemma_take_root_keeps_rest(s: Seq<Node>)
    requires
        s.len() > 0,
    ensures
        s.update(0, s.last()).drop_last().to_multiset() == s.to_multiset().remove(s[0]),
{
    let last = s.len() - 1;
    to_multiset_remove(s, last);
    assert(s.remove(last) =~= s.drop_last());
    to_multiset_contains(s, s[0]);
    to_multiset_contains(s, s.last());
    assert(s.contains(s[0]));
    assert(s.contains(s.last()));
    if last == 0 {
        assert(s.update(0, s.last()).drop_last() =~= s.drop_last());
        assert(s.to_multiset().remove(s.last()) =~= s.to_multiset().remove(s[0]));
    } else {
        let d = s.drop_last();
        to_multiset_update(d, 0, s.last());
        assert(d.update(0, s.last()) =~= s.update(0, s.last()).drop_last());
        assert(d[0] == s[0]);
        assert(s.to_multiset().remove(s.last()).insert(s.last()).remove(s[0])
            =~= s.to_multiset().remove(s[0]));
    }
}

/// A priority queue of nodes from which the least node, in the order of
/// `Node::spec_precedes`, leaves first.
pub struct MinHeap {
    items: Vec<Node>,
}

impl View for MinHeap {
    type V = Multiset<Node>;

    /// The nodes in the queue, counted with multiplicity.
    closed spec fn view(&self) -> Multiset<Node> {
        self.items@.to_multiset()
    }
}

impl MinHeap {
    /// The slots are in heap order.
    pub closed spec fn wf(&self) -> bool {
        heap_ordered(self.items@)
    }

    /// Number of nodes in the queue.
    pub closed spec fn spec_len(&self) -> nat {
        self.items@.len()
    }

    /// The number of nodes is the size of the multiset.
    pub proof fn lemma_len(&self)
        ensures
            self.spec_len() == self@.len(),
    {
        self.items@.to_multiset_ensures();
    }

    /// The empty queue.
    pub fn new() -> (h: MinHeap)
        ensures
            h.wf(),
            h@ == Multiset::<Node>::empty(),
            h.spec_len() == 0,
    {
        let h = MinHeap { items: Vec::new() };
        proof {
            h.items@.to_multiset_ensures();
            assert(h@.len() == 0);
            assert(h@ =~= Multiset::<Node>::empty());
        }
        h
    }

    /// Number of nodes in the queue.
    pub fn len(&self) -> (n: usize)
        ensures
            n == self.spec_len(),
            n == self@.len(),
    {
        proof {
            self.lemma_len();
        }
        self.items.len()
    }

    /// Whether the queue holds no node.
    pub fn is_empty(&self) -> (b: bool)
        ensures
            b == (self.spec_len() == 0),
            b == (self@.len() == 0),
    {
        proof {
            self.lemma_len();
        }
        self.items.len() == 0
    }

    /// Exchanges the nodes in slots `i` and `j`.
    fn exchange(&mut self, i: usize, j: usize)
        requires
            i < old(self).items@.len(),
            j < old(self).items@.len(),
        ensures
            final(self).items@ == old(self).items@.update(i as int, old(self).items@[j as int]).update(
                j as int,
                old(self).items@[i as int],
            ),
            final(self)@ == old(self)@,
    {
        proof {
            lemma_exchange_keeps_nodes(self.items@, i as int, j as int);
        }
        let a: Node = self.items[i];
        let b: Node = self.items[j];
        self.items[i] = b;
        self.items[j] = a;
    }

    /// Moves the node in slot `start` towards the root until its parent
    /// precedes it.
    fn sift_up(&mut self, start: usize)
        requires
            start < old(self).items@.len(),
            ordered_but_above(old(self).items@, start as int),
        ensures
            final(self).wf(),
            final(self)@ == old(self)@,
            final(self).items@.len() == old(self).items@.len(),
    {
        let mut k: usize = start;
        while k > 0 && !self.items[(k - 1) / 2].precedes(&self.items[k])
            invariant
                k < self.items@.len(),
                self.items@.len() == old(self).items@.len(),
                self@ == old(self)@,
                ordered_but_above(self.items@, k as int),
            decreases k,
        {
            let p: usize = (k - 1) / 2;
            let ghost before = self.items@;
            self.exchange(p, k);
            proof {
                let after = self.items@;
                assert(parent_of(k as int) == p);
                assert forall|i: int| 1 <= i < after.len() && i != p implies #[trigger] ordered_at(
                    after,
                    i,
                ) by {
                    if i == k {
                    } else if parent_of(i) == k {
                    } else if parent_of(i) == p {
                        assert(ordered_at(before, i));
                    } else {
                        assert(ordered_at(before, i));
                    }
                }
                assert forall|c: int|
                    1 <= c < after.len() && #[trigger] parent_of(c) == p && p >= 1 implies after[parent_of(
                    p as int,
                )].spec_precedes(after[c]) by {
                    assert(ordered_at(before, p as int));
                    if c != k {
                        assert(ordered_at(before, c));
                    }
                }
            }
            k = p;
        }
        proof {
            assert forall|i: int| 1 <= i < self.items@.len() implies #[trigger] ordered_at(
                self.items@,
                i,
            ) by {
                if i == k {
                    assert(parent_of(k as int) == (k - 1) / 2);
                }
            }
        }
    }

    /// Moves the node in slot `start` away from the root until it
    /// precedes its children.
    fn sift_down(&mut self, start: usize)
        requires
            start < old(self).items@.len(),
            ordered_but_below(old(self).items@, start as int),
        ensures
            final(self).wf(),
            final(self)@ == old(self)@,
            final(self).items@.len() == old(self).items@.len(),
    {
        let n: usize = self.items.len();
        let mut k: usize = start;
        loop
            invariant
                n == self.items@.len(),
                k < n,
                self.items@.len() == old(self).items@.len(),
                self@ == old(self)@,
                ordered_but_below(self.items@, k as int),
            ensures
                heap_ordered(self.items@),
            decreases n - k,
        {
            if n < 2 || k > (n - 2) / 2 {
                proof {
                    assert forall|i: int| 1 <= i < self.items@.len() implies #[trigger] ordered_at(
                        self.items@,
                        i,
                    ) by {
                        assert(parent_of(i) != k);
                    }
                }
                break ;
            }
            let left: usize = 2 * k + 1;
            let right: usize = left + 1;
            let least: usize = if right < n && !self.items[left].precedes(&self.items[right]) {
                right
            } else {
                left
            };
            if self.items[k].precedes(&self.items[least]) {
                proof {
                    assert forall|i: int| 1 <= i < self.items@.len() implies #[trigger] ordered_at(
                        self.items@,
                        i,
                    ) by {
                        if parent_of(i) == k {
                            assert(i == left || i == right);
                        }
                    }
                }
                break ;
            }
            let ghost before = self.items@;
            self.exchange(k, least);
            proof {
                let after = self.items@;
                assert(parent_of(least as int) == k);
                assert forall|i: int|
                    1 <= i < after.len() && parent_of(i) != least implies #[trigger] ordered_at(
                    after,
                    i,
                ) by {
                    if i == least {
                    } else if parent_of(i) == k {
                        assert(i == left || i == right);
                    } else if i == k {
                        assert(parent_of(least as int) == k);
                    } else {
                        assert(ordered_at(before, i));
                    }
                }
                assert forall|c: int|
                    1 <= c < after.len() && #[trigger] parent_of(c) == least
                        && least >= 1 implies after[parent_of(least as int)].spec_precedes(
                    after[c],
                ) by {
                    assert(ordered_at(before, c));
                }
            }
            k = least;
        }
    }

    /// Adds `node` to the queue.
    pub fn push(&mut self, node: Node)
        requires
            old(self).wf(),
        ensures
            final(self).wf(),
            final(self)@ == old(self)@.insert(node),
            final(self).spec_len() == old(self).spec_len() + 1,
    {
        proof {
            to_multiset_build(self.items@, node);
        }
        let ghost before = self.items@;
        self.items.push(node);
        let last: usize = self.items.len() - 1;
        proof {
            let s = self.items@;
            assert forall|i: int| 1 <= i < s.len() && i != last implies #[trigger] ordered_at(
                s,
                i,
            ) by {
                assert(ordered_at(before, i));
            }
        }
        self.sift_up(last);
    }

    /// Takes a least node out of the queue, or returns `None` if the queue
    /// is empty. Which of several least nodes of equal cost and position
    /// leaves is not fixed.
    pub fn pop(&mut self) -> (r: Option<Node>)
        requires
            old(self).wf(),
        ensures
            final(self).wf(),
            r.is_none() <==> old(self)@.len() == 0,
            r.is_none() ==> final(self)@ == old(self)@,
            r.is_some() ==> {
                &&& old(self)@.count(r.unwrap()) > 0
                &&& final(self)@ == old(self)@.remove(r.unwrap())
                &&& final(self).spec_len() + 1 == old(self).spec_len()
                &&& forall|m: Node| old(self)@.count(m) > 0 ==> r.unwrap().spec_precedes(m)
            },
    {
        proof {
            self.lemma_len();
        }
        if self.items.len() == 0 {
            return None;
        }
        let ghost before = self.items@;
        proof {
            lemma_take_root_keeps_rest(before);
            to_multiset_contains(before, before[0]);
            assert(before.contains(before[0]));
            assert forall|m: Node| before.to_multiset().count(m) > 0 implies before[0].spec_precedes(
                m,
            ) by {
                to_multiset_contains(before, m);
                let i = choose|i: int| 0 <= i < before.len() && before[i] == m;
                lemma_root_is_least(before, i);
            }
        }
        let top: Node = self.items.swap_remove(0);
        if self.items.len() > 0 {
            proof {
                let s = self.items@;
                assert forall|i: int| 1 <= i < s.len() && parent_of(i) != 0 implies #[trigger] ordered_at(
                    s,
                    i,
                ) by {
                    assert(ordered_at(before, i));
                }
            }
            self.sift_down(0);
        }
        Some(top)
    }
}

} // verus!
