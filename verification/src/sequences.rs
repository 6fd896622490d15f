//! Small facts and helpers on sequences and vectors that the tables and
//! loops of the library share.

use vstd::prelude::*;

verus! {

/// Whether `c` is among the first `n + 1` items of `s` depends on the first
/// `n` items and on item `n` alone.
pub proof fn lemma_take_one_more<T>(s: Seq<T>, n: int, c: T)
    requires
        0 <= n < s.len(),
    ensures
        s.take(n + 1).contains(c) <==> (s.take(n).contains(c) || s[n] == c),
{
    let longer = s.take(n + 1);
    let shorter = s.take(n);
    if longer.contains(c) {
        let j = choose|j: int| 0 <= j < longer.len() && longer[j] == c;
        if j < n {
            assert(shorter[j] == c);
        }
    }
    if shorter.contains(c) {
        let j = choose|j: int| 0 <= j < shorter.len() && shorter[j] == c;
        assert(longer[j] == c);
    }
    if s[n] == c {
        assert(longer[n] == c);
    }
}

/// A vector of `n` copies of `value`.
pub fn filled<T: Copy>(n: usize, value: T) -> (v: Vec<T>)
    ensures
        v@.len() == n,
        forall|i: int| 0 <= i < n ==> v@[i] == value,
{
    let mut v: Vec<T> = Vec::new();
    let mut i: usize = 0;
    while i < n
        invariant
            i <= n,
            v@.len() == i,
            forall|j: int| 0 <= j < i ==> v@[j] == value,
        decreases n - i,
    {
        v.push(value);
        i = i + 1;
    }
    v
}

/// The items of a sequence with one more are the items of the sequence and
/// the new one.
pub proof fn lemma_push_to_set<T>(s: Seq<T>, x: T)
    ensures
        s.push(x).to_set() == s.to_set().insert(x),
{
    let longer = s.push(x);
    assert forall|y: T| longer.to_set().contains(y) <==> s.to_set().insert(x).contains(y) by {
        if longer.contains(y) {
            let j = choose|j: int| 0 <= j < longer.len() && longer[j] == y;
            if j < s.len() {
                assert(s[j] == y);
            }
        }
        if s.contains(y) {
            let j = choose|j: int| 0 <= j < s.len() && s[j] == y;
            assert(longer[j] == y);
        }
        assert(longer[s.len() as int] == x);
    }
    assert(longer.to_set() =~= s.to_set().insert(x));
}

} // verus!
