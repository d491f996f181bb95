//! Seeding: a clique of reads that lie far from each other, one for each
//! haplotype as far as the graph has one.

use crate::fx::set_contains;
use crate::fx::set_insert;
use crate::fx::set_len;
use crate::fx::set_new;
use crate::graph::links_of;
use crate::graph::Edge;
use crate::graph::Link;
use crate::graph::ReadGraph;
use fxhash::FxHashSet;
use vstd::prelude::*;
use vstd::set_lib::lemma_subset_equality;

verus! {

/// The index of the heaviest among the first `upto` edges; of several, the
/// last.
pub open spec fn heaviest(edges: Seq<Edge>, upto: nat) -> int
    decreases upto,
{
    if upto <= 1 {
        0
    } else {
        let best = heaviest(edges, (upto - 1) as nat);
        if edges[upto - 1].weight >= edges[best].weight {
            upto - 1
        } else {
            best
        }
    }
}

/// The least weight among the first `upto` links that lead into `clique`.
pub open spec fn closest(adj: Seq<Link>, clique: Set<usize>, upto: nat) -> Option<i64>
    decreases upto,
{
    if upto == 0 {
        None
    } else {
        let rest = closest(adj, clique, (upto - 1) as nat);
        let l = adj[upto - 1];
        if !clique.contains(l.to) {
            rest
        } else if rest.is_some() && rest.unwrap() < l.weight {
            rest
        } else {
            Some(l.weight)
        }
    }
}

/// Every member of `clique` is at the end of one of the links.
pub open spec fn reaches_all(adj: Seq<Link>, clique: Set<usize>) -> bool {
    forall|c: usize|
        clique.contains(c) ==> exists|j: int| 0 <= j < adj.len() && (#[trigger] adj[j]).to == c
}

/// Vertex `v` extends `clique`: it is outside it and linked to each of its
/// members.
pub open spec fn extends(edges: Seq<Edge>, clique: Set<usize>, v: usize) -> bool {
    let adj = links_of(edges, v);
    !clique.contains(v) && closest(adj, clique, adj.len()).is_some() && reaches_all(adj, clique)
}

/// The least weight from vertex `v` into `clique`.
pub open spec fn distance_into(edges: Seq<Edge>, clique: Set<usize>, v: usize) -> i64 {
    closest(links_of(edges, v), clique, links_of(edges, v).len()).unwrap()
}

/// The vertex below `upto` that extends `clique` best, with its least weight
/// into the clique: the one whose least weight into the clique is greatest,
/// and of several the highest vertex.
pub open spec fn extension(edges: Seq<Edge>, clique: Set<usize>, upto: nat) -> Option<
    (usize, i64),
>
    decreases upto,
{
    if upto == 0 {
        None
    } else {
        let rest = extension(edges, clique, (upto - 1) as nat);
        let v = (upto - 1) as usize;
        let d = distance_into(edges, clique, v);
        if extends(edges, clique, v) && (rest.is_none() || d >= rest.unwrap().1) {
            Some((v, d))
        } else {
            rest
        }
    }
}

/// The heaviest edge is as heavy as any, and heavier than those after it.
pub proof fn lemma_heaviest(edges: Seq<Edge>, upto: nat)
    requires
        1 <= upto <= edges.len(),
    ensures
        0 <= heaviest(edges, upto) < upto,
        forall|i: int|
            0 <= i < upto ==> (#[trigger] edges[i]).weight <= edges[heaviest(edges, upto)].weight,
        forall|i: int|
            heaviest(edges, upto) < i < upto ==> (#[trigger] edges[i]).weight
                < edges[heaviest(edges, upto)].weight,
    decreases upto,
{
    if upto > 1 {
        lemma_heaviest(edges, (upto - 1) as nat);
    }
}

/// The least weight into the clique is the weight of a link into it that no
/// other such link undercuts; there is none exactly when no link leads into
/// the clique.
pub proof fn lemma_closest(adj: Seq<Link>, clique: Set<usize>, upto: nat)
    requires
        upto <= adj.len(),
    ensures
        closest(adj, clique, upto).is_none() <==> forall|j: int|
            0 <= j < upto ==> !clique.contains((#[trigger] adj[j]).to),
        closest(adj, clique, upto).is_some() ==> {
            &&& exists|j: int|
                0 <= j < upto && clique.contains((#[trigger] adj[j]).to) && adj[j].weight
                    == closest(adj, clique, upto).unwrap()
            &&& forall|j: int|
                0 <= j < upto && clique.contains((#[trigger] adj[j]).to) ==> closest(
                    adj,
                    clique,
                    upto,
                ).unwrap() <= adj[j].weight
        },
    decreases upto,
{
    if upto > 0 {
        lemma_closest(adj, clique, (upto - 1) as nat);
        let rest = closest(adj, clique, (upto - 1) as nat);
        let l = adj[upto - 1];
        if clique.contains(l.to) {
            if rest.is_some() && rest.unwrap() < l.weight {
                let j = choose|j: int|
                    0 <= j < upto - 1 && clique.contains((#[trigger] adj[j]).to) && adj[j].weight
                        == rest.unwrap();
                assert(0 <= j < upto && clique.contains(adj[j].to));
            } else {
                assert(clique.contains(adj[upto - 1].to) && adj[upto - 1].weight == l.weight);
            }
        } else if rest.is_some() {
            let j = choose|j: int|
                0 <= j < upto - 1 && clique.contains((#[trigger] adj[j]).to) && adj[j].weight
                    == rest.unwrap();
            assert(0 <= j < upto && clique.contains(adj[j].to));
        }
    }
}

/// The best extension extends the clique, and no vertex that extends it lies
/// farther from it, nor as far at a higher index; there is none exactly when
/// no vertex extends the clique.
pub proof fn lemma_extension(edges: Seq<Edge>, clique: Set<usize>, upto: nat)
    requires
        upto <= usize::MAX,
    ensures
        extension(edges, clique, upto).is_none() <==> forall|v: usize|
            v < upto ==> !extends(edges, clique, v),
        extension(edges, clique, upto) matches Some(best) ==> {
            &&& best.0 < upto
            &&& extends(edges, clique, best.0)
            &&& best.1 == distance_into(edges, clique, best.0)
            &&& forall|v: usize|
                v < upto && #[trigger] extends(edges, clique, v) ==> distance_into(
                    edges,
                    clique,
                    v,
                ) < best.1 || (distance_into(edges, clique, v) == best.1 && v <= best.0)
        },
    decreases upto,
{
    if upto > 0 {
        lemma_extension(edges, clique, (upto - 1) as nat);
    }
}

/// The clique after at most `steps` extensions; growth ends when no vertex
/// extends the clique.
pub open spec fn grow(edges: Seq<Edge>, n: nat, clique: Seq<usize>, steps: nat) -> Seq<usize>
    decreases steps,
{
    if steps == 0 {
        clique
    } else {
        match extension(edges, clique.to_set(), n) {
            None => clique,
            Some(best) => grow(edges, n, clique.push(best.0), (steps - 1) as nat),
        }
    }
}

/// The seed clique for `k` haplotypes: the two ends of the heaviest edge,
/// extended up to `k - 2` times.
pub open spec fn seed_model(edges: Seq<Edge>, n: nat, k: nat) -> Seq<usize> {
    let e = edges[heaviest(edges, edges.len())];
    grow(edges, n, seq![e.a, e.b], (k - 2) as nat)
}

/// The members of a sequence after a push.
pub proof fn lemma_push_to_set(s: Seq<usize>, v: usize)
    ensures
        s.push(v).to_set() == s.to_set().insert(v),
{
    assert forall|x: usize| s.push(v).to_set().contains(x) <==> s.to_set().insert(v).contains(
        x,
    ) by {
        if s.push(v).contains(x) {
            let j = choose|j: int| 0 <= j < s.push(v).len() && s.push(v)[j] == x;
            if j < s.len() {
                assert(s[j] == x);
            }
        }
        if s.contains(x) {
            let j = choose|j: int| 0 <= j < s.len() && s[j] == x;
            assert(s.push(v)[j] == x);
        }
        if x == v {
            assert(s.push(v)[s.len() as int] == x);
        }
    }
    assert(s.push(v).to_set() =~= s.to_set().insert(v));
}

/// The index of the heaviest edge; of several, the last.
pub fn heaviest_edge(edges: &Vec<Edge>) -> (best: usize)
    requires
        edges.len() > 0,
    ensures
        best == heaviest(edges@, edges.len() as nat),
        best < edges.len(),
        forall|i: int| 0 <= i < edges.len() ==> edges[i].weight <= edges[best as int].weight,
        forall|i: int| best < i < edges.len() ==> edges[i].weight < edges[best as int].weight,
{
    let mut best: usize = 0;
    let mut i: usize = 1;
    while i < edges.len()
        invariant
            1 <= i <= edges.len(),
            best < i,
            best == heaviest(edges@, i as nat),
            forall|j: int| 0 <= j < i ==> edges[j].weight <= edges[best as int].weight,
            forall|j: int| best < j < i ==> edges[j].weight < edges[best as int].weight,
        decreases edges.len() - i,
    {
        if edges[i].weight >= edges[best].weight {
            best = i;
        }
        i += 1;
    }
    best
}

/// Over the links of one vertex: the least weight into `clique`, and whether
/// the links reach every member of it. `size` is the number of members.
fn scan_links(adj: &Vec<Link>, clique: &FxHashSet<usize>, size: usize) -> (r: (Option<i64>, bool))
    requires
        clique@.finite(),
        size == clique@.len(),
    ensures
        r.0 == closest(adj@, clique@, adj.len() as nat),
        r.1 == reaches_all(adj@, clique@),
{
    let mut met = set_new();
    let mut best: Option<i64> = None;
    let mut j: usize = 0;
    while j < adj.len()
        invariant
            j <= adj.len(),
            met@.finite(),
            forall|c: usize|
                met@.contains(c) <==> clique@.contains(c) && exists|i: int|
                    0 <= i < j && (#[trigger] adj[i]).to == c,
            best == closest(adj@, clique@, j as nat),
        decreases adj.len() - j,
    {
        let l = adj[j];
        if set_contains(clique, l.to) {
            let ghost before = met@;
            set_insert(&mut met, l.to);
            let keep = match best {
                Some(d) => d < l.weight,
                None => false,
            };
            if !keep {
                best = Some(l.weight);
            }
            proof {
                assert forall|c: usize|
                    met@.contains(c) <==> clique@.contains(c) && exists|i: int|
                        0 <= i < j + 1 && (#[trigger] adj[i]).to == c by {
                    if c == l.to {
                        assert(adj[j as int].to == c);
                    } else if before.contains(c) {
                        let i = choose|i: int| 0 <= i < j && (#[trigger] adj[i]).to == c;
                        assert(adj[i].to == c);
                    }
                }
            }
        }
        j += 1;
    }
    let full = set_len(&met) == size;
    proof {
        assert(met@.subset_of(clique@));
        if full {
            lemma_subset_equality(met@, clique@);
            assert forall|c: usize| clique@.contains(c) implies exists|i: int|
                0 <= i < adj.len() && (#[trigger] adj[i]).to == c by {
                assert(met@.contains(c));
            }
        }
        if reaches_all(adj@, clique@) {
            assert(met@ =~= clique@);
        }
    }
    (best, full)
}

/// The vertex that extends the clique best, if any does.
pub fn best_extension(g: &ReadGraph, clique: &FxHashSet<usize>) -> (r: Option<(usize, i64)>)
    requires
        g.wf(),
        clique@.finite(),
    ensures
        r == extension(g.edges@, clique@, g.order()),
        r matches Some(best) ==> best.0 < g.order() && !clique@.contains(best.0),
{
    let n = g.links.len();
    let size = set_len(clique);
    let mut best: Option<(usize, i64)> = None;
    let mut v: usize = 0;
    while v < n
        invariant
            v <= n,
            n == g.order(),
            g.wf(),
            clique@.finite(),
            size == clique@.len(),
            best == extension(g.edges@, clique@, v as nat),
        decreases n - v,
    {
        assert(g.adj(v as int) == links_of(g.edges@, v));
        if !set_contains(clique, v) {
            let (d, full) = scan_links(&g.links[v], clique, size);
            if full {
                match d {
                    Some(w) => {
                        let better = match best {
                            Some(b) => w >= b.1,
                            None => true,
                        };
                        if better {
                            best = Some((v, w));
                        }
                    },
                    None => {},
                }
            }
        }
        v += 1;
    }
    proof {
        lemma_extension(g.edges@, clique@, n as nat);
    }
    best
}

/// The seed clique for `ploidy` haplotypes, in the order in which its vertices
/// were found.
pub fn seed_clique(g: &ReadGraph, ploidy: usize) -> (clique: Vec<usize>)
    requires
        g.wf(),
        g.edges.len() > 0,
        ploidy >= 2,
    ensures
        clique@ == seed_model(g.edges@, g.order(), ploidy as nat),
        2 <= clique.len() <= ploidy,
        clique@.no_duplicates(),
        forall|i: int| 0 <= i < clique.len() ==> (#[trigger] clique[i]) < g.order(),
{
    let top = g.edges[heaviest_edge(&g.edges)];
    let mut clique: Vec<usize> = Vec::new();
    let mut members = set_new();
    clique.push(top.a);
    set_insert(&mut members, top.a);
    clique.push(top.b);
    set_insert(&mut members, top.b);
    proof {
        assert(clique@ == seq![top.a, top.b]);
        lemma_push_to_set(seq![top.a], top.b);
        lemma_push_to_set(Seq::<usize>::empty(), top.a);
        assert(Seq::<usize>::empty().push(top.a) == seq![top.a]);
        assert(seq![top.a].push(top.b) == seq![top.a, top.b]);
        assert(Seq::<usize>::empty().to_set() =~= Set::<usize>::empty());
        assert(members@ =~= clique@.to_set());
    }
    let mut step: usize = 2;
    let mut open = true;
    while open && step < ploidy
        invariant
            2 <= step <= ploidy,
            clique.len() <= step,
            2 <= clique.len(),
            g.wf(),
            g.edges.len() > 0,
            members@.finite(),
            members@ == clique@.to_set(),
            clique@.no_duplicates(),
            forall|i: int| 0 <= i < clique.len() ==> (#[trigger] clique[i]) < g.order(),
            open ==> seed_model(g.edges@, g.order(), ploidy as nat) == grow(
                g.edges@,
                g.order(),
                clique@,
                (ploidy - step) as nat,
            ),
            !open ==> seed_model(g.edges@, g.order(), ploidy as nat) == clique@,
        decreases
                (ploidy - step) + if open {
                    1int
                } else {
                    0int
                },
    {
        match best_extension(g, &members) {
            Some(best) => {
                proof {
                    lemma_push_to_set(clique@, best.0);
                    assert(!clique@.contains(best.0));
                }
                clique.push(best.0);
                set_insert(&mut members, best.0);
                step += 1;
            },
            None => {
                open = false;
            },
        }
    }
    clique
}

} // verus!
