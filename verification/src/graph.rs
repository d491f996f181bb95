//! The read graph: one vertex per read, one weighted edge per pair of reads
//! that share a site.

use crate::frag::agreements;
use crate::frag::check_overlap;
use crate::frag::disagreements;
use crate::frag::distance;
use crate::frag::frags_wf;
use crate::frag::overlaps;
use crate::frag::Frag;
use vstd::prelude::*;

verus! {

/// An edge between vertices `a < b`: its weight, and over the sites that the
/// two reads share, how many calls agree and how many differ.
#[derive(Clone, Copy)]
pub struct Edge {
    pub weight: i64,
    pub a: usize,
    pub b: usize,
    pub same: usize,
    pub diff: usize,
}

/// An edge as one of its endpoints sees it: the weight, the other endpoint,
/// and the number of shared sites.
#[derive(Clone, Copy)]
pub struct Link {
    pub weight: i64,
    pub to: usize,
    pub shared: usize,
}

/// The edge list, and for each vertex the list of its links.
pub struct ReadGraph {
    pub edges: Vec<Edge>,
    pub links: Vec<Vec<Link>>,
}

/// The links of vertex `v`, in the order of the edges.
pub open spec fn links_of(edges: Seq<Edge>, v: usize) -> Seq<Link>
    decreases edges.len(),
{
    if edges.len() == 0 {
        Seq::empty()
    } else {
        let e = edges.last();
        let rest = links_of(edges.drop_last(), v);
        if e.a == v {
            rest.push(Link { weight: e.weight, to: e.b, shared: (e.same + e.diff) as usize })
        } else if e.b == v {
            rest.push(Link { weight: e.weight, to: e.a, shared: (e.same + e.diff) as usize })
        } else {
            rest
        }
    }
}

/// Every edge joins two vertices below `n`, the lower one first.
pub open spec fn edges_wf(edges: Seq<Edge>, n: nat) -> bool {
    forall|i: int| 0 <= i < edges.len() ==> (#[trigger] edges[i]).a < edges[i].b < n
}

/// An edge without its weight: `(a, b, same, diff)`.
pub open spec fn shape(e: Edge) -> (usize, usize, usize, usize) {
    (e.a, e.b, e.same, e.diff)
}

/// The edges without their weights.
pub open spec fn shapes(edges: Seq<Edge>) -> Seq<(usize, usize, usize, usize)> {
    Seq::new(edges.len(), |i: int| shape(edges[i]))
}

/// The shapes of the edges from read `a` to the reads after it and before
/// `b_end`, by ascending partner. Vertex `v` is the fragment `frags[reads[v]]`.
pub open spec fn pair_row(frags: Seq<Frag>, reads: Seq<usize>, a: nat, b_end: nat) -> Seq<
    (usize, usize, usize, usize),
>
    decreases b_end,
{
    if b_end <= a + 1 {
        Seq::empty()
    } else {
        let b = (b_end - 1) as nat;
        let rest = pair_row(frags, reads, a, b);
        let r1 = frags[reads[a as int] as int];
        let r2 = frags[reads[b as int] as int];
        if overlaps(r1, r2) {
            rest.push(
                (
                    a as usize,
                    b as usize,
                    agreements(r1, r2, r1.positions.len() as nat) as usize,
                    disagreements(r1, r2, r1.positions.len() as nat) as usize,
                ),
            )
        } else {
            rest
        }
    }
}

/// The rows of the reads before `a_end`, one after the other.
pub open spec fn pair_rows(frags: Seq<Frag>, reads: Seq<usize>, a_end: nat) -> Seq<
    (usize, usize, usize, usize),
>
    decreases a_end,
{
    if a_end == 0 {
        Seq::empty()
    } else {
        pair_rows(frags, reads, (a_end - 1) as nat) + pair_row(
            frags,
            reads,
            (a_end - 1) as nat,
            reads.len(),
        )
    }
}

/// The shapes of all edges of the read graph: one for each pair of reads that
/// overlap, ordered by the lower and then by the higher read.
pub open spec fn read_pairs(frags: Seq<Frag>, reads: Seq<usize>) -> Seq<
    (usize, usize, usize, usize),
> {
    pair_rows(frags, reads, reads.len())
}

/// Each read is a fragment of the list.
pub open spec fn reads_wf(frags: Seq<Frag>, reads: Seq<usize>) -> bool {
    forall|v: int| 0 <= v < reads.len() ==> (#[trigger] reads[v]) < frags.len()
}

impl ReadGraph {
    /// The number of vertices.
    pub open spec fn order(&self) -> nat {
        self.links.len() as nat
    }

    /// The links of vertex `v` as stored.
    pub open spec fn adj(&self, v: int) -> Seq<Link> {
        self.links[v]@
    }

    /// The edges join vertices of the graph, and each vertex stores exactly its
    /// links.
    pub open spec fn wf(&self) -> bool {
        &&& edges_wf(self.edges@, self.order())
        &&& forall|v: usize| v < self.order() ==> self.adj(v as int) == links_of(self.edges@, v)
    }
}

/// The links of a vertex after one more edge.
pub proof fn lemma_links_push(edges: Seq<Edge>, e: Edge, v: usize)
    ensures
        links_of(edges.push(e), v) == if e.a == v {
            links_of(edges, v).push(
                Link { weight: e.weight, to: e.b, shared: (e.same + e.diff) as usize },
            )
        } else if e.b == v {
            links_of(edges, v).push(
                Link { weight: e.weight, to: e.a, shared: (e.same + e.diff) as usize },
            )
        } else {
            links_of(edges, v)
        },
{
    assert(edges.push(e).drop_last() == edges);
    assert(edges.push(e).last() == e);
}

/// The graph of the reads: an edge for every two reads that overlap, weighed
/// by `weigh` from the number of shared sites and the number of differing
/// calls.
pub fn build_graph<F: Fn(usize, usize) -> i64>(
    frags: &Vec<Frag>,
    reads: &Vec<usize>,
    weigh: &F,
) -> (g: ReadGraph)
    requires
        frags_wf(frags@),
        reads_wf(frags@, reads@),
        forall|n: usize, d: usize| call_requires(*weigh, (n, d)),
    ensures
        g.wf(),
        g.links.len() == reads.len(),
        shapes(g.edges@) == read_pairs(frags@, reads@),
        forall|i: int|
            0 <= i < g.edges.len() ==> call_ensures(
                *weigh,
                ((g.edges[i].same + g.edges[i].diff) as usize, g.edges[i].diff),
                (#[trigger] g.edges[i]).weight,
            ),
{
    let n = reads.len();
    let mut edges: Vec<Edge> = Vec::new();
    let mut links: Vec<Vec<Link>> = Vec::new();
    let mut v: usize = 0;
    while v < n
        invariant
            v <= n,
            links.len() == v,
            forall|u: int| 0 <= u < v ==> (#[trigger] links[u])@ == Seq::<Link>::empty(),
        decreases n - v,
    {
        links.push(Vec::new());
        v += 1;
    }
    let mut a: usize = 0;
    while a < n
        invariant
            a <= n,
            n == reads.len(),
            frags_wf(frags@),
            reads_wf(frags@, reads@),
            forall|n: usize, d: usize| call_requires(*weigh, (n, d)),
            links.len() == n,
            edges_wf(edges@, n as nat),
            forall|u: usize| u < n ==> (#[trigger] links[u as int])@ == links_of(edges@, u),
            shapes(edges@) == pair_rows(frags@, reads@, a as nat),
            forall|i: int|
                0 <= i < edges.len() ==> call_ensures(
                    *weigh,
                    ((edges[i].same + edges[i].diff) as usize, edges[i].diff),
                    (#[trigger] edges[i]).weight,
                ),
        decreases n - a,
    {
        let r1 = &frags[reads[a]];
        let mut b: usize = a + 1;
        while b < n
            invariant
                a < b <= n,
                n == reads.len(),
                frags_wf(frags@),
                reads_wf(frags@, reads@),
                *r1 == frags[reads[a as int] as int],
                forall|n: usize, d: usize| call_requires(*weigh, (n, d)),
                links.len() == n,
                edges_wf(edges@, n as nat),
                forall|u: usize| u < n ==> (#[trigger] links[u as int])@ == links_of(edges@, u),
                shapes(edges@) == pair_rows(frags@, reads@, a as nat) + pair_row(
                    frags@,
                    reads@,
                    a as nat,
                    b as nat,
                ),
                forall|i: int|
                    0 <= i < edges.len() ==> call_ensures(
                        *weigh,
                        ((edges[i].same + edges[i].diff) as usize, edges[i].diff),
                        (#[trigger] edges[i]).weight,
                    ),
            decreases n - b,
        {
            let r2 = &frags[reads[b]];
            if check_overlap(r1, r2) {
                let (same, diff) = distance(r1, r2);
                let weight = weigh(same + diff, diff);
                let e = Edge { weight, a, b, same, diff };
                let ghost before = edges@;
                edges.push(e);
                links[a].push(Link { weight, to: b, shared: same + diff });
                links[b].push(Link { weight, to: a, shared: same + diff });
                proof {
                    assert(shapes(edges@) == shapes(before).push(shape(e)));
                    assert forall|u: usize| u < n implies (#[trigger] links[u as int])@
                        == links_of(edges@, u) by {
                        lemma_links_push(before, e, u);
                    }
                }
            }
            b += 1;
        }
        a += 1;
    }
    ReadGraph { edges, links }
}

} // verus!
