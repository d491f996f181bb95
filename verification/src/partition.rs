//! Partitions: a cluster of reads for each haplotype.

use crate::fx::set_contains;
use crate::fx::set_insert;
use crate::fx::set_items;
use crate::fx::set_new;
use fxhash::FxHashSet;
use vstd::prelude::*;
use vstd::set_lib::lemma_len_subset;

verus! {

/// What the clusters hold, cluster by cluster.
pub open spec fn sets_of(part: Seq<FxHashSet<usize>>) -> Seq<Set<usize>> {
    Seq::new(part.len(), |c: int| part[c]@)
}

/// Some cluster holds `v`.
pub open spec fn holds(clusters: Seq<Set<usize>>, v: usize) -> bool {
    exists|c: int| 0 <= c < clusters.len() && (#[trigger] clusters[c]).contains(v)
}

/// No two clusters share a member.
pub open spec fn disjoint(clusters: Seq<Set<usize>>) -> bool {
    forall|c1: int, c2: int, v: usize|
        #![trigger clusters[c1].contains(v), clusters[c2].contains(v)]
        0 <= c1 < c2 < clusters.len() && clusters[c1].contains(v) ==> !clusters[c2].contains(v)
}

/// Every member of every cluster is below `n`.
pub open spec fn within(clusters: Seq<Set<usize>>, n: nat) -> bool {
    forall|c: int, v: usize|
        0 <= c < clusters.len() && #[trigger] clusters[c].contains(v) ==> v < n
}

/// Disjoint clusters of members below `n`.
pub open spec fn is_partition(clusters: Seq<Set<usize>>, n: nat) -> bool {
    disjoint(clusters) && within(clusters, n)
}

/// The numbers below `n`.
pub open spec fn below(n: nat) -> Set<usize> {
    Set::new(|x: usize| x < n)
}

/// There are `n` numbers below `n`, as far as a `usize` reaches.
pub proof fn lemma_below_finite(n: nat)
    requires
        n <= usize::MAX + 1,
    ensures
        below(n).finite(),
        below(n).len() == n,
    decreases n,
{
    if n == 0 {
        assert(below(0) =~= Set::<usize>::empty());
    } else {
        lemma_below_finite((n - 1) as nat);
        assert(below(n) =~= below((n - 1) as nat).insert((n - 1) as usize));
    }
}

/// A cluster of members below `n` is finite and has at most `n` members; it
/// has none exactly when its size is 0.
pub proof fn lemma_cluster_finite(clusters: Seq<Set<usize>>, n: nat, c: int)
    requires
        within(clusters, n),
        0 <= c < clusters.len(),
    ensures
        clusters[c].finite(),
        clusters[c].len() <= n,
        clusters[c].len() == 0 <==> forall|x: usize| !clusters[c].contains(x),
{
    let m: nat = if n <= usize::MAX + 1 {
        n
    } else {
        (usize::MAX + 1) as nat
    };
    lemma_below_finite(m);
    assert(clusters[c].subset_of(below(m))) by {
        assert forall|x: usize| clusters[c].contains(x) implies below(m).contains(x) by {
            assert(x < n);
        }
    }
    lemma_len_subset(clusters[c], below(m));
    if clusters[c].len() == 0 {
        clusters[c].lemma_len0_is_empty();
    }
    if forall|x: usize| !clusters[c].contains(x) {
        assert(clusters[c] =~= Set::<usize>::empty());
    }
}

/// The members of `s` below `upto`, ascending.
pub open spec fn members(s: Set<usize>, upto: nat) -> Seq<usize>
    decreases upto,
{
    if upto == 0 {
        Seq::empty()
    } else {
        let rest = members(s, (upto - 1) as nat);
        if s.contains((upto - 1) as usize) {
            rest.push((upto - 1) as usize)
        } else {
            rest
        }
    }
}

/// The list of members holds exactly the members below the bound, ascending.
pub proof fn lemma_members(s: Set<usize>, upto: nat)
    requires
        upto <= usize::MAX,
    ensures
        forall|i: int|
            0 <= i < members(s, upto).len() ==> (#[trigger] members(s, upto)[i]) < upto
                && s.contains(members(s, upto)[i]),
        forall|i: int, j: int|
            0 <= i < j < members(s, upto).len() ==> members(s, upto)[i] < members(s, upto)[j],
        forall|v: usize| v < upto && s.contains(v) ==> members(s, upto).contains(v),
    decreases upto,
{
    if upto > 0 {
        lemma_members(s, (upto - 1) as nat);
        let rest = members(s, (upto - 1) as nat);
        let cur = members(s, upto);
        assert forall|v: usize| v < upto && s.contains(v) implies cur.contains(v) by {
            if v == upto - 1 {
                assert(cur[cur.len() - 1] == v);
            } else {
                let j = choose|j: int| 0 <= j < rest.len() && rest[j] == v;
                assert(cur[j] == v);
            }
        }
    }
}

/// The members of a set below `upto`, ascending.
pub fn set_members(s: &FxHashSet<usize>, upto: usize) -> (list: Vec<usize>)
    ensures
        list@ == members(s@, upto as nat),
{
    let mut list: Vec<usize> = Vec::new();
    let mut v: usize = 0;
    while v < upto
        invariant
            v <= upto,
            list@ == members(s@, v as nat),
        decreases upto - v,
    {
        if set_contains(s, v) {
            list.push(v);
        }
        v += 1;
    }
    list
}

/// `k` clusters without members.
pub fn empty_clusters(k: usize) -> (clusters: Vec<FxHashSet<usize>>)
    ensures
        clusters.len() == k,
        forall|c: int| 0 <= c < k ==> (#[trigger] clusters[c])@ == Set::<usize>::empty(),
{
    let mut clusters: Vec<FxHashSet<usize>> = Vec::new();
    let mut c: usize = 0;
    while c < k
        invariant
            c <= k,
            clusters.len() == c,
            forall|d: int| 0 <= d < c ==> (#[trigger] clusters[d])@ == Set::<usize>::empty(),
        decreases k - c,
    {
        clusters.push(set_new());
        c += 1;
    }
    clusters
}

/// Putting a member that no cluster holds into one of the clusters keeps the
/// clusters disjoint, and afterwards the clusters hold it and what they held.
pub proof fn lemma_insert_member(clusters: Seq<Set<usize>>, n: nat, c: int, v: usize)
    requires
        is_partition(clusters, n),
        0 <= c < clusters.len(),
        !holds(clusters, v),
        v < n,
    ensures
        is_partition(clusters.update(c, clusters[c].insert(v)), n),
        forall|x: usize|
            holds(clusters.update(c, clusters[c].insert(v)), x) <==> holds(clusters, x) || x == v,
{
    let after = clusters.update(c, clusters[c].insert(v));
    assert forall|c1: int, c2: int, x: usize|
        #![trigger after[c1].contains(x), after[c2].contains(x)]
        0 <= c1 < c2 < after.len() && after[c1].contains(x) implies !after[c2].contains(x) by {
        if after[c2].contains(x) {
            if x == v {
                if c1 != c {
                    assert(clusters[c1].contains(v));
                } else {
                    assert(clusters[c2].contains(v));
                }
            } else {
                assert(clusters[c1].contains(x));
                assert(clusters[c2].contains(x));
            }
        }
    }
    assert forall|d: int, x: usize| 0 <= d < after.len() && #[trigger] after[d].contains(
        x,
    ) implies x < n by {
        if x != v {
            assert(clusters[d].contains(x));
        }
    }
    assert forall|x: usize| holds(after, x) <==> holds(clusters, x) || x == v by {
        if holds(after, x) && x != v {
            let d = choose|d: int| 0 <= d < after.len() && (#[trigger] after[d]).contains(x);
            assert(clusters[d].contains(x));
        }
        if holds(clusters, x) {
            let d = choose|d: int| 0 <= d < clusters.len() && (#[trigger] clusters[d]).contains(x);
            assert(after[d].contains(x));
        }
        if x == v {
            assert(after[c].contains(v));
        }
    }
}

/// Whether the clusters are disjoint and hold only members below `n`.
pub fn check_partition(partition: &Vec<FxHashSet<usize>>, n: usize) -> (b: bool)
    ensures
        b == is_partition(sets_of(partition@), n as nat),
{
    let ghost part = sets_of(partition@);
    let mut seen = set_new();
    let mut c: usize = 0;
    while c < partition.len()
        invariant
            c <= partition.len(),
            part == sets_of(partition@),
            forall|x: usize|
                seen@.contains(x) <==> exists|d: int|
                    0 <= d < c && (#[trigger] part[d]).contains(x),
            forall|d1: int, d2: int, x: usize|
                #![trigger part[d1].contains(x), part[d2].contains(x)]
                0 <= d1 < d2 < c && part[d1].contains(x) ==> !part[d2].contains(x),
            forall|d: int, x: usize| 0 <= d < c && #[trigger] part[d].contains(x) ==> x < n,
        decreases partition.len() - c,
    {
        let items = set_items(&partition[c]);
        let ghost start = seen@;
        let mut j: usize = 0;
        while j < items.len()
            invariant
                j <= items.len(),
                c < partition.len(),
                part == sets_of(partition@),
                items@.no_duplicates(),
                forall|v: usize| items@.contains(v) <==> part[c as int].contains(v),
                forall|x: usize|
                    start.contains(x) <==> exists|d: int|
                        0 <= d < c && (#[trigger] part[d]).contains(x),
                forall|x: usize|
                    seen@.contains(x) <==> start.contains(x) || exists|i: int|
                        0 <= i < j && #[trigger] items[i] == x,
                forall|i: int| 0 <= i < j ==> (#[trigger] items[i]) < n && !start.contains(items[i]),
            decreases items.len() - j,
        {
            let v = items[j];
            let ghost before = seen@;
            assert(items@.contains(v));
            if v >= n {
                assert(part[c as int].contains(v));
                return false;
            }
            if !set_insert(&mut seen, v) {
                proof {
                    if start.contains(v) {
                        let d = choose|d: int| 0 <= d < c && (#[trigger] part[d]).contains(v);
                        assert(part[d].contains(v) && part[c as int].contains(v));
                    } else {
                        let i = choose|i: int| 0 <= i < j && #[trigger] items[i] == v;
                        assert(items[i] == items[j as int]);
                    }
                }
                return false;
            }
            proof {
                assert forall|x: usize|
                    seen@.contains(x) <==> start.contains(x) || exists|i: int|
                        0 <= i < j + 1 && #[trigger] items[i] == x by {
                    if x == v {
                        assert(items[j as int] == x);
                    } else if before.contains(x) && !start.contains(x) {
                        let i = choose|i: int| 0 <= i < j && #[trigger] items[i] == x;
                        assert(0 <= i < j + 1 && items[i] == x);
                    }
                }
            }
            j += 1;
        }
        proof {
            assert forall|x: usize| part[c as int].contains(x) implies x < n && !start.contains(
                x,
            ) by {
                assert(items@.contains(x));
                let i = choose|i: int| 0 <= i < items.len() && items[i] == x;
                assert(items[i] < n);
            }
            assert forall|x: usize|
                seen@.contains(x) <==> exists|d: int|
                    0 <= d < c + 1 && (#[trigger] part[d]).contains(x) by {
                if seen@.contains(x) {
                    if start.contains(x) {
                        let d = choose|d: int| 0 <= d < c && (#[trigger] part[d]).contains(x);
                        assert(0 <= d < c + 1 && part[d].contains(x));
                    } else {
                        let i = choose|i: int| 0 <= i < items.len() && #[trigger] items[i] == x;
                        assert(items@.contains(x));
                        assert(part[c as int].contains(x));
                    }
                }
                if exists|d: int| 0 <= d < c + 1 && (#[trigger] part[d]).contains(x) {
                    let d = choose|d: int| 0 <= d < c + 1 && (#[trigger] part[d]).contains(x);
                    if d < c {
                        assert(start.contains(x));
                    } else {
                        assert(items@.contains(x));
                        let i = choose|i: int| 0 <= i < items.len() && items[i] == x;
                        assert(items[i] == x);
                    }
                }
            }
            assert forall|d1: int, d2: int, x: usize|
                #![trigger part[d1].contains(x), part[d2].contains(x)]
                0 <= d1 < d2 < c + 1 && part[d1].contains(x) implies !part[d2].contains(x) by {
                if d2 == c && part[d2].contains(x) {
                    assert(start.contains(x));
                }
            }
        }
        c += 1;
    }
    true
}

/// Whether every element of the set is below `n`.
pub fn check_below(s: &FxHashSet<usize>, n: usize) -> (b: bool)
    ensures
        b == (forall|v: usize| s@.contains(v) ==> v < n),
{
    let items = set_items(s);
    let mut j: usize = 0;
    while j < items.len()
        invariant
            j <= items.len(),
            forall|v: usize| items@.contains(v) <==> s@.contains(v),
            forall|i: int| 0 <= i < j ==> (#[trigger] items[i]) < n,
        decreases items.len() - j,
    {
        if items[j] >= n {
            assert(items@.contains(items[j as int]));
            return false;
        }
        j += 1;
    }
    proof {
        assert forall|v: usize| s@.contains(v) implies v < n by {
            assert(items@.contains(v));
            let i = choose|i: int| 0 <= i < items.len() && items[i] == v;
            assert(items[i] < n);
        }
    }
    true
}

} // verus!
