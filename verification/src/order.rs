//! Stable ordering of keyed items.
//!
//! Items are ranked by a strict "comes before" relation on their keys. Items
//! that the relation does not separate keep the order in which they were given.

use vstd::prelude::*;

verus! {

/// A key with a strict order: `before` says that one key has to come ahead of
/// another.
pub trait Ranked: Sized {
    spec fn before(&self, other: &Self) -> bool;

    fn precedes(&self, other: &Self) -> (b: bool)
        ensures
            b == self.before(other),
    ;
}

/// A key that ranks larger integers first.
#[derive(Clone, Copy)]
pub struct Desc {
    pub key: i128,
}

impl Ranked for Desc {
    open spec fn before(&self, other: &Self) -> bool {
        self.key > other.key
    }

    fn precedes(&self, other: &Self) -> (b: bool) {
        self.key > other.key
    }
}

/// The first place at or after `from` in `order` whose item has to come after
/// item `x`; the end of `order` where there is none.
pub open spec fn slot<K: Ranked>(keys: Seq<K>, order: Seq<usize>, x: int, from: nat) -> nat
    decreases order.len() - from,
{
    if from >= order.len() {
        order.len()
    } else if keys[x].before(&keys[order[from as int] as int]) {
        from
    } else {
        slot(keys, order, x, from + 1)
    }
}

/// The first `n` items in ranked order, as indices into `keys`: each item is
/// put behind every earlier item that it does not have to come before.
pub open spec fn ranking<K: Ranked>(keys: Seq<K>, n: nat) -> Seq<usize>
    decreases n,
{
    if n == 0 {
        Seq::empty()
    } else {
        let prev = ranking(keys, (n - 1) as nat);
        prev.insert(slot(keys, prev, n - 1, 0) as int, (n - 1) as usize)
    }
}

/// A ranking lists every index below `n` once.
pub proof fn lemma_ranking_permutes<K: Ranked>(keys: Seq<K>, n: nat)
    requires
        n <= keys.len(),
        n <= usize::MAX,
    ensures
        ranking(keys, n).len() == n,
        forall|i: int| 0 <= i < n ==> (#[trigger] ranking(keys, n)[i]) < n,
        ranking(keys, n).no_duplicates(),
        forall|x: usize| x < n ==> ranking(keys, n).contains(x),
    decreases n,
{
    if n > 0 {
        let prev = ranking(keys, (n - 1) as nat);
        lemma_ranking_permutes(keys, (n - 1) as nat);
        let pos = slot(keys, prev, n - 1, 0) as int;
        lemma_slot_bound(keys, prev, n - 1, 0);
        let cur = ranking(keys, n);
        assert(cur == prev.insert(pos, (n - 1) as usize));
        assert forall|x: usize| x < n implies cur.contains(x) by {
            if x == n - 1 {
                assert(cur[pos] == x);
            } else {
                assert(prev.contains(x));
                let j = choose|j: int| 0 <= j < prev.len() && prev[j] == x;
                if j < pos {
                    assert(cur[j] == x);
                } else {
                    assert(cur[j + 1] == x);
                }
            }
        }
    }
}

/// A slot lies between the place the search began at and the end of the order.
pub proof fn lemma_slot_bound<K: Ranked>(keys: Seq<K>, order: Seq<usize>, x: int, from: nat)
    requires
        from <= order.len(),
    ensures
        from <= slot(keys, order, x, from) <= order.len(),
    decreases order.len() - from,
{
    if from < order.len() && !keys[x].before(&keys[order[from as int] as int]) {
        lemma_slot_bound(keys, order, x, from + 1);
    }
}

/// Where no two keys have to come before each other, and "does not have to
/// come before" is transitive: in a ranking no item stands ahead of one that
/// has to come before it, and of two items that neither has to come before the
/// other, the one given first stands first.
pub proof fn lemma_ranking_sorted<K: Ranked>(keys: Seq<K>, n: nat, i: int, j: int)
    requires
        n <= keys.len(),
        n <= usize::MAX,
        0 <= i < j < n,
        forall|a: int, b: int|
            0 <= a < n && 0 <= b < n && keys[a].before(&keys[b]) ==> !keys[b].before(&keys[a]),
        forall|a: int, b: int, c: int|
            0 <= a < n && 0 <= b < n && 0 <= c < n && !keys[a].before(&keys[b]) && !keys[b].before(
                &keys[c],
            ) ==> !keys[a].before(&keys[c]),
    ensures
        !keys[ranking(keys, n)[j] as int].before(&keys[ranking(keys, n)[i] as int]),
        keys[ranking(keys, n)[i] as int].before(&keys[ranking(keys, n)[j] as int]) || ranking(
            keys,
            n,
        )[i] < ranking(keys, n)[j],
    decreases n,
{
    let prev = ranking(keys, (n - 1) as nat);
    let cur = ranking(keys, n);
    let x = n - 1;
    lemma_ranking_permutes(keys, (n - 1) as nat);
    lemma_slot_bound(keys, prev, x, 0);
    let pos = slot(keys, prev, x, 0) as int;
    assert(cur == prev.insert(pos, x as usize));
    assert forall|a: int, b: int, c: int|
        0 <= a < n - 1 && 0 <= b < n - 1 && 0 <= c < n - 1 && !keys[a].before(&keys[b])
            && !keys[b].before(&keys[c]) implies !keys[a].before(&keys[c]) by {}
    if j < pos {
        lemma_ranking_sorted(keys, (n - 1) as nat, i, j);
    } else if i > pos {
        lemma_ranking_sorted(keys, (n - 1) as nat, i - 1, j - 1);
    } else if i < pos && j > pos {
        lemma_ranking_sorted(keys, (n - 1) as nat, i, j - 1);
    } else if j == pos {
        // the new item stands behind item i, which it did not have to precede
        lemma_slot_skips(keys, prev, x, 0, i);
        assert(cur[i] == prev[i]);
        assert(prev[i] < n - 1);
    } else {
        // i == pos: the new item has to come before the item at its slot, and
        // so before every item behind it
        assert(i == pos && j > pos);
        lemma_slot_hit(keys, prev, x, 0);
        assert(keys[x].before(&keys[prev[pos] as int]));
        if j - 1 > pos {
            lemma_ranking_sorted(keys, (n - 1) as nat, pos, j - 1);
        }
        assert(cur[j] == prev[j - 1]);
        assert(prev[j - 1] < n - 1);
        assert(prev[pos] < n - 1);
        // were x not before prev[j-1]: prev[j-1] is not before prev[pos], so x
        // would not be before prev[pos]
        if !keys[x].before(&keys[prev[j - 1] as int]) {
            assert(!keys[prev[j - 1] as int].before(&keys[prev[pos] as int]));
            assert(!keys[x].before(&keys[prev[pos] as int]));
        }
        assert(keys[x].before(&keys[prev[j - 1] as int]));
    }
}

/// No item ahead of the slot has to come after item `x`.
pub proof fn lemma_slot_skips<K: Ranked>(
    keys: Seq<K>,
    order: Seq<usize>,
    x: int,
    from: nat,
    i: int,
)
    requires
        from <= i < slot(keys, order, x, from),
        from <= order.len(),
    ensures
        !keys[x].before(&keys[order[i] as int]),
    decreases order.len() - from,
{
    lemma_slot_bound(keys, order, x, from);
    if from < order.len() && !keys[x].before(&keys[order[from as int] as int]) {
        if i > from {
            lemma_slot_skips(keys, order, x, from + 1, i);
        }
    }
}

/// The item at the slot, if there is one, has to come after item `x`.
pub proof fn lemma_slot_hit<K: Ranked>(keys: Seq<K>, order: Seq<usize>, x: int, from: nat)
    requires
        from <= order.len(),
        slot(keys, order, x, from) < order.len(),
    ensures
        keys[x].before(&keys[order[slot(keys, order, x, from) as int] as int]),
    decreases order.len() - from,
{
    if from < order.len() && !keys[x].before(&keys[order[from as int] as int]) {
        lemma_slot_hit(keys, order, x, from + 1);
    }
}

/// The indices of `keys` in ranked order; ties keep the order of `keys`.
pub fn stable_order<K: Ranked>(keys: &Vec<K>) -> (order: Vec<usize>)
    ensures
        order@ == ranking(keys@, keys.len() as nat),
        order.len() == keys.len(),
        forall|i: int| 0 <= i < order.len() ==> (#[trigger] order[i]) < keys.len(),
        order@.no_duplicates(),
{
    let mut order: Vec<usize> = Vec::new();
    let mut x: usize = 0;
    while x < keys.len()
        invariant
            x <= keys.len(),
            order@ == ranking(keys@, x as nat),
            order.len() == x,
        decreases keys.len() - x,
    {
        proof {
            lemma_ranking_permutes(keys@, x as nat);
        }
        let mut pos: usize = 0;
        while pos < order.len() && !keys[x].precedes(&keys[order[pos]])
            invariant
                pos <= order.len(),
                order.len() == x,
                x < keys.len(),
                forall|i: int| 0 <= i < order.len() ==> (#[trigger] order[i]) < x,
                slot(keys@, order@, x as int, 0) == slot(keys@, order@, x as int, pos as nat),
            decreases order.len() - pos,
        {
            pos += 1;
        }
        order.insert(pos, x);
        x += 1;
    }
    proof {
        lemma_ranking_permutes(keys@, keys.len() as nat);
    }
    order
}

} // verus!
