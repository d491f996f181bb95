//! Clustering the reads of one interval.

use crate::clique::seed_clique;
use crate::clique::seed_model;
use crate::frag::frags_wf;
use crate::frag::overlaps;
use crate::frag::Frag;
use crate::fx::set_contains;
use crate::fx::set_insert;
use crate::fx::set_new;
use crate::graph::build_graph;
use crate::graph::pair_row;
use crate::graph::pair_rows;
use crate::graph::read_pairs;
use crate::graph::shapes;
use crate::graph::Edge;
use crate::interval::find_reads_in_interval;
use crate::interval::interval_reads;
use crate::partition::empty_clusters;
use crate::partition::holds;
use crate::partition::is_partition;
use crate::partition::lemma_members;
use crate::partition::members;
use crate::partition::set_members;
use crate::partition::sets_of;
use crate::populate::populate;
use crate::populate::populate_clusters3;
use fxhash::FxHashSet;
use vstd::prelude::*;

verus! {

/// The number of passes in which the clusters are filled.
pub const POPULATE_ITERS: usize = 10;

/// One cluster for each vertex of the clique, in its order, and empty clusters
/// up to `k`.
pub open spec fn seed_clusters(clique: Seq<usize>, k: nat) -> Seq<Set<usize>> {
    Seq::new(
        k,
        |c: int|
            if c < clique.len() {
                Set::<usize>::empty().insert(clique[c])
            } else {
                Set::<usize>::empty()
            },
    )
}

/// The clusters of the vertices of a graph: empty clusters where the graph has
/// no edge; else the seed clique, one vertex to a cluster, filled in
/// `POPULATE_ITERS` passes.
pub open spec fn cluster_model(edges: Seq<Edge>, n: nat, k: nat) -> Seq<Set<usize>> {
    if edges.len() == 0 {
        Seq::new(k, |c: int| Set::<usize>::empty())
    } else {
        populate(
            edges,
            n,
            seed_clusters(seed_model(edges, n, k), k),
            POPULATE_ITERS as nat,
            POPULATE_ITERS as nat,
        )
    }
}

/// The fragments that stand behind a set of vertices.
pub open spec fn fragments_of(reads: Seq<usize>, vertices: Set<usize>) -> Set<usize> {
    Set::new(
        |f: usize|
            exists|v: int| 0 <= v < reads.len() && vertices.contains(v as usize) && reads[v] == f,
    )
}

/// `edges` is the edge list of the graph of `reads` with weights that `weigh`
/// returned for them.
pub open spec fn weighed_by<F: Fn(usize, usize) -> i64>(
    frags: Seq<Frag>,
    reads: Seq<usize>,
    weigh: F,
    edges: Seq<Edge>,
) -> bool {
    &&& shapes(edges) == read_pairs(frags, reads)
    &&& forall|i: int|
        0 <= i < edges.len() ==> call_ensures(
            weigh,
            ((edges[i].same + edges[i].diff) as usize, edges[i].diff),
            (#[trigger] edges[i]).weight,
        )
}

/// `result` is the clustering of `all_reads` into `k` clusters under weights
/// that `weigh` returned: the vertices are the reads in ascending order, and
/// each cluster holds the fragments behind the vertices of the model's
/// cluster.
pub open spec fn clustering_of<F: Fn(usize, usize) -> i64>(
    frags: Seq<Frag>,
    all_reads: Set<usize>,
    k: nat,
    weigh: F,
    result: Seq<Set<usize>>,
) -> bool {
    let reads = members(all_reads, frags.len());
    exists|edges: Seq<Edge>|
        {
            &&& #[trigger] weighed_by(frags, reads, weigh, edges)
            &&& result.len() == k
            &&& forall|c: int|
                0 <= c < k ==> #[trigger] result[c] == fragments_of(
                    reads,
                    cluster_model(edges, reads.len(), k)[c],
                )
        }
}

/// Every read is a fragment of the list.
pub open spec fn reads_in_range(all_reads: Set<usize>, n: nat) -> bool {
    forall|f: usize| all_reads.contains(f) ==> f < n
}

/// No two of the reads overlap.
pub open spec fn no_overlap(frags: Seq<Frag>, all_reads: Set<usize>) -> bool {
    forall|f1: usize, f2: usize|
        all_reads.contains(f1) && all_reads.contains(f2) && f1 < f2 < frags.len() ==> !overlaps(
            frags[f1 as int],
            frags[f2 as int],
        )
}

/// The graph of the reads has no edge.
pub open spec fn edgeless(frags: Seq<Frag>, all_reads: Set<usize>) -> bool {
    read_pairs(frags, members(all_reads, frags.len())).len() == 0
}

/// The reads can be clustered into `k` clusters: a clique is seeded only
/// where two reads overlap, and then for two haplotypes or more.
pub open spec fn clusterable(frags: Seq<Frag>, all_reads: Set<usize>, k: nat) -> bool {
    k >= 2 || no_overlap(frags, all_reads)
}

/// Where no two of the listed reads overlap, none has a partner.
pub proof fn lemma_pair_row_empty(frags: Seq<Frag>, reads: Seq<usize>, a: nat, b_end: nat)
    requires
        b_end <= reads.len(),
        forall|x: int, y: int|
            0 <= x < y < reads.len() ==> !overlaps(
                frags[reads[x] as int],
                frags[reads[y] as int],
            ),
    ensures
        pair_row(frags, reads, a, b_end).len() == 0,
    decreases b_end,
{
    if b_end > a + 1 {
        lemma_pair_row_empty(frags, reads, a, (b_end - 1) as nat);
        assert(!overlaps(frags[reads[a as int] as int], frags[reads[b_end - 1] as int]));
    }
}

/// Where no two of the listed reads overlap, there is no pair.
pub proof fn lemma_pair_rows_empty(frags: Seq<Frag>, reads: Seq<usize>, a_end: nat)
    requires
        a_end <= reads.len(),
        forall|x: int, y: int|
            0 <= x < y < reads.len() ==> !overlaps(
                frags[reads[x] as int],
                frags[reads[y] as int],
            ),
    ensures
        pair_rows(frags, reads, a_end).len() == 0,
    decreases a_end,
{
    if a_end > 0 {
        lemma_pair_rows_empty(frags, reads, (a_end - 1) as nat);
        lemma_pair_row_empty(frags, reads, (a_end - 1) as nat, reads.len());
    }
}

/// A read with a partner that it overlaps has a pair in its row.
pub proof fn lemma_pair_row_hit(frags: Seq<Frag>, reads: Seq<usize>, a: nat, b_end: nat, b: nat)
    requires
        a < b < b_end,
        overlaps(frags[reads[a as int] as int], frags[reads[b as int] as int]),
    ensures
        pair_row(frags, reads, a, b_end).len() > 0,
    decreases b_end,
{
    if b < b_end - 1 {
        lemma_pair_row_hit(frags, reads, a, (b_end - 1) as nat, b);
    }
}

/// Two listed reads that overlap give a pair.
pub proof fn lemma_pair_rows_hit(frags: Seq<Frag>, reads: Seq<usize>, a_end: nat, a: nat, b: nat)
    requires
        a < a_end,
        a < b < reads.len(),
        overlaps(frags[reads[a as int] as int], frags[reads[b as int] as int]),
    ensures
        pair_rows(frags, reads, a_end).len() > 0,
    decreases a_end,
{
    if a < a_end - 1 {
        lemma_pair_rows_hit(frags, reads, (a_end - 1) as nat, a, b);
    } else {
        lemma_pair_row_hit(frags, reads, a, reads.len(), b);
    }
}

/// The graph of the reads has no edge exactly when no two of them overlap.
/// So it has none for no reads, and for a single read.
pub proof fn lemma_no_overlap_edgeless(frags: Seq<Frag>, all_reads: Set<usize>)
    requires
        frags.len() <= usize::MAX,
    ensures
        no_overlap(frags, all_reads) <==> edgeless(frags, all_reads),
{
    let reads = members(all_reads, frags.len());
    lemma_members(all_reads, frags.len());
    if no_overlap(frags, all_reads) {
        assert forall|x: int, y: int| 0 <= x < y < reads.len() implies !overlaps(
            frags[reads[x] as int],
            frags[reads[y] as int],
        ) by {
            assert(reads[x] < reads[y]);
            assert(all_reads.contains(reads[x]) && all_reads.contains(reads[y]));
        }
        lemma_pair_rows_empty(frags, reads, reads.len());
    } else {
        let (f1, f2) = choose|f1: usize, f2: usize|
            all_reads.contains(f1) && all_reads.contains(f2) && f1 < f2 < frags.len() && overlaps(
                frags[f1 as int],
                frags[f2 as int],
            );
        assert(reads.contains(f1) && reads.contains(f2));
        let x = choose|x: int| 0 <= x < reads.len() && reads[x] == f1;
        let y = choose|y: int| 0 <= y < reads.len() && reads[y] == f2;
        if y <= x {
            if y < x {
                assert(reads[y] < reads[x]);
            }
            assert(false);
        }
        lemma_pair_rows_hit(frags, reads, reads.len(), x as nat, y as nat);
    }
}

/// Whether no two of the reads overlap.
pub fn has_no_edge(frags: &Vec<Frag>, all_reads: &FxHashSet<usize>) -> (b: bool)
    requires
        frags_wf(frags@),
        reads_in_range(all_reads@, frags.len() as nat),
    ensures
        b == no_overlap(frags@, all_reads@),
        b == edgeless(frags@, all_reads@),
{
    let reads = set_members(all_reads, frags.len());
    proof {
        lemma_members(all_reads@, frags.len() as nat);
        lemma_no_overlap_edgeless(frags@, all_reads@);
    }
    let flat = |n: usize, d: usize| -> (w: i64) { 0i64 };
    let g = build_graph(frags, &reads, &flat);
    assert(shapes(g.edges@).len() == g.edges.len());
    g.edges.len() == 0
}

/// The clusters with their vertices replaced by the fragments behind them.
fn to_fragments(clusters: &Vec<FxHashSet<usize>>, reads: &Vec<usize>, Ghost(bound): Ghost<nat>) -> (partition:
    Vec<FxHashSet<usize>>)
    requires
        is_partition(sets_of(clusters@), reads.len() as nat),
        forall|v: int| 0 <= v < reads.len() ==> (#[trigger] reads[v]) < bound,
        forall|a: int, b: int| 0 <= a < b < reads.len() ==> reads[a] < reads[b],
    ensures
        partition.len() == clusters.len(),
        forall|c: int|
            0 <= c < clusters.len() ==> (#[trigger] partition[c])@ == fragments_of(
                reads@,
                clusters[c]@,
            ),
        is_partition(sets_of(partition@), bound),
        forall|v: int|
            0 <= v < reads.len() && holds(sets_of(clusters@), v as usize) ==> holds(
                sets_of(partition@),
                #[trigger] reads[v],
            ),
{
    let mut partition: Vec<FxHashSet<usize>> = Vec::new();
    let mut c: usize = 0;
    while c < clusters.len()
        invariant
            c <= clusters.len(),
            partition.len() == c,
            forall|d: int|
                0 <= d < c ==> (#[trigger] partition[d])@ == fragments_of(reads@, clusters[d]@),
        decreases clusters.len() - c,
    {
        let mut out = set_new();
        let mut v: usize = 0;
        while v < reads.len()
            invariant
                v <= reads.len(),
                c < clusters.len(),
                forall|f: usize|
                    out@.contains(f) <==> exists|u: int|
                        0 <= u < v && clusters[c as int]@.contains(u as usize) && #[trigger] reads[u]
                            == f,
            decreases reads.len() - v,
        {
            if set_contains(&clusters[c], v) {
                let ghost before = out@;
                set_insert(&mut out, reads[v]);
                proof {
                    assert forall|f: usize|
                        out@.contains(f) <==> exists|u: int|
                            0 <= u < v + 1 && clusters[c as int]@.contains(u as usize)
                                && #[trigger] reads[u] == f by {
                        if f == reads[v as int] {
                            assert(clusters[c as int]@.contains(v as usize) && reads[v as int] == f);
                        } else if before.contains(f) {
                            let u = choose|u: int|
                                0 <= u < v && clusters[c as int]@.contains(u as usize)
                                    && #[trigger] reads[u] == f;
                            assert(0 <= u < v + 1 && reads[u] == f);
                        }
                    }
                }
            }
            v += 1;
        }
        assert(out@ =~= fragments_of(reads@, clusters[c as int]@));
        partition.push(out);
        c += 1;
    }
    proof {
        let src = sets_of(clusters@);
        let dst = sets_of(partition@);
        assert forall|c1: int, c2: int, f: usize|
            #![trigger dst[c1].contains(f), dst[c2].contains(f)]
            0 <= c1 < c2 < dst.len() && dst[c1].contains(f) implies !dst[c2].contains(f) by {
            if dst[c2].contains(f) {
                assert(partition[c1]@.contains(f));
                assert(partition[c2]@.contains(f));
                let u1 = choose|u: int|
                    0 <= u < reads.len() && clusters[c1]@.contains(u as usize) && reads[u] == f;
                let u2 = choose|u: int|
                    0 <= u < reads.len() && clusters[c2]@.contains(u as usize) && reads[u] == f;
                if u1 < u2 {
                    assert(reads[u1] < reads[u2]);
                } else if u2 < u1 {
                    assert(reads[u2] < reads[u1]);
                }
                assert(src[c1].contains(u1 as usize));
                assert(src[c2].contains(u1 as usize));
            }
        }
        assert forall|d: int, f: usize| 0 <= d < dst.len() && #[trigger] dst[d].contains(
            f,
        ) implies f < bound by {
            assert(partition[d]@.contains(f));
            let u = choose|u: int|
                0 <= u < reads.len() && clusters[d]@.contains(u as usize) && reads[u] == f;
            assert(reads[u] < bound);
        }
        assert forall|v: int|
            0 <= v < reads.len() && holds(sets_of(clusters@), v as usize) implies holds(
            sets_of(partition@),
            #[trigger] reads[v],
        ) by {
            let d = choose|d: int| 0 <= d < src.len() && (#[trigger] src[d]).contains(v as usize);
            assert(clusters[d]@.contains(v as usize));
            assert(partition[d]@.contains(reads[v]));
            assert(dst[d].contains(reads[v]));
        }
    }
    partition
}

/// Clusters the reads into `ploidy` clusters.
///
/// The reads are the vertices of a graph with an edge for every two reads
/// that overlap; `weigh` gives the weight of an edge from the number of sites
/// that the two reads share and the number of those at which their calls
/// differ. Without an edge every cluster stays empty, whatever `ploidy` is.
/// Otherwise, with two clusters or more, the two reads at the ends of the
/// heaviest edge seed two clusters, further seeds extend them to a clique as
/// long as one can be found, and the clusters are filled in passes; every
/// read then lies in exactly one cluster, and the first two clusters are not
/// empty.
pub fn cluster_reads<F: Fn(usize, usize) -> i64>(
    frags: &Vec<Frag>,
    all_reads: &FxHashSet<usize>,
    ploidy: usize,
    weigh: &F,
) -> (partition: Vec<FxHashSet<usize>>)
    requires
        frags_wf(frags@),
        reads_in_range(all_reads@, frags.len() as nat),
        clusterable(frags@, all_reads@, ploidy as nat),
        forall|n: usize, d: usize| call_requires(*weigh, (n, d)),
    ensures
        partition.len() == ploidy,
        is_partition(sets_of(partition@), frags.len() as nat),
        forall|f: usize| holds(sets_of(partition@), f) ==> all_reads@.contains(f),
        clustering_of(frags@, all_reads@, ploidy as nat, *weigh, sets_of(partition@)),
        !no_overlap(frags@, all_reads@) ==> forall|f: usize|
            all_reads@.contains(f) ==> holds(sets_of(partition@), f),
        no_overlap(frags@, all_reads@) ==> forall|f: usize| !holds(sets_of(partition@), f),
        !no_overlap(frags@, all_reads@) ==> (exists|f: usize| partition[0]@.contains(f)) && (
        exists|f: usize| partition[1]@.contains(f)),
{
    let reads = set_members(all_reads, frags.len());
    proof {
        lemma_members(all_reads@, frags.len() as nat);
        lemma_no_overlap_edgeless(frags@, all_reads@);
    }
    let g = build_graph(frags, &reads, weigh);
    let n = reads.len();
    let ghost model = cluster_model(g.edges@, n as nat, ploidy as nat);
    assert(shapes(g.edges@).len() == g.edges.len());
    let mut clusters = empty_clusters(ploidy);
    if g.edges.len() > 0 {
        let clique = seed_clique(&g, ploidy);
        let mut used_vertices = set_new();
        let mut c: usize = 0;
        while c < clique.len()
            invariant
                c <= clique.len(),
                clique.len() <= ploidy,
                clusters.len() == ploidy,
                clique@.no_duplicates(),
                forall|i: int| 0 <= i < clique.len() ==> (#[trigger] clique[i]) < n,
                forall|d: int|
                    0 <= d < ploidy ==> (#[trigger] clusters[d])@ == if d < c {
                        Set::<usize>::empty().insert(clique[d])
                    } else {
                        Set::<usize>::empty()
                    },
                forall|x: usize|
                    used_vertices@.contains(x) <==> exists|i: int|
                        0 <= i < c && #[trigger] clique[i] == x,
            decreases clique.len() - c,
        {
            let ghost was = used_vertices@;
            set_insert(&mut clusters[c], clique[c]);
            set_insert(&mut used_vertices, clique[c]);
            proof {
                assert forall|x: usize|
                    used_vertices@.contains(x) <==> exists|i: int|
                        0 <= i < c + 1 && #[trigger] clique[i] == x by {
                    if x == clique[c as int] {
                    } else if was.contains(x) {
                        let i = choose|i: int| 0 <= i < c && #[trigger] clique[i] == x;
                        assert(0 <= i < c + 1 && clique[i] == x);
                    }
                }
            }
            c += 1;
        }
        proof {
            let seeds = sets_of(clusters@);
            assert(seeds =~= seed_clusters(clique@, ploidy as nat));
            assert forall|c1: int, c2: int, x: usize|
                #![trigger seeds[c1].contains(x), seeds[c2].contains(x)]
                0 <= c1 < c2 < seeds.len() && seeds[c1].contains(x) implies !seeds[c2].contains(
                x,
            ) by {
                if seeds[c2].contains(x) {
                    assert(clique[c1] == x && clique[c2] == x);
                }
            }
            assert forall|x: usize| used_vertices@.contains(x) <==> holds(seeds, x) by {
                if used_vertices@.contains(x) {
                    let i = choose|i: int| 0 <= i < clique.len() && #[trigger] clique[i] == x;
                    assert(seeds[i].contains(x));
                }
                if holds(seeds, x) {
                    let d = choose|d: int| 0 <= d < seeds.len() && (#[trigger] seeds[d]).contains(x);
                    assert(clique[d] == x);
                }
            }
        }
        let ghost seeds = sets_of(clusters@);
        assert(seeds[0].contains(clique[0]) && seeds[1].contains(clique[1]));
        populate_clusters3(&mut clusters, &mut used_vertices, &g, ploidy, POPULATE_ITERS);
        assert(sets_of(clusters@) == model);
        assert(sets_of(clusters@)[0].contains(clique[0]));
        assert(sets_of(clusters@)[1].contains(clique[1]));
        assert(clusters[0]@.contains(clique[0]) && clusters[1]@.contains(clique[1]));
    } else {
        assert(sets_of(clusters@) =~= model);
        assert(is_partition(sets_of(clusters@), n as nat));
    }
    let partition = to_fragments(&clusters, &reads, Ghost(frags.len() as nat));
    proof {
        let result = sets_of(partition@);
        assert(weighed_by(frags@, reads@, *weigh, g.edges@));
        assert forall|c: int| 0 <= c < ploidy implies #[trigger] result[c] == fragments_of(
            reads@,
            cluster_model(g.edges@, reads@.len(), ploidy as nat)[c],
        ) by {
            assert(sets_of(clusters@)[c] == clusters[c]@);
        }
        assert forall|f: usize| holds(result, f) implies all_reads@.contains(f) by {
            let d = choose|d: int| 0 <= d < result.len() && (#[trigger] result[d]).contains(f);
            assert(partition[d]@.contains(f));
        }
        if g.edges.len() > 0 {
            let v0 = choose|v: usize| clusters[0]@.contains(v);
            let v1 = choose|v: usize| clusters[1]@.contains(v);
            assert(sets_of(clusters@)[0].contains(v0) && sets_of(clusters@)[1].contains(v1));
            assert(v0 < reads.len() && v1 < reads.len());
            assert(fragments_of(reads@, clusters[0]@).contains(reads[v0 as int]));
            assert(fragments_of(reads@, clusters[1]@).contains(reads[v1 as int]));
            assert(partition[0]@.contains(reads[v0 as int]));
            assert(partition[1]@.contains(reads[v1 as int]));
            assert forall|f: usize| all_reads@.contains(f) implies holds(result, f) by {
                assert(reads@.contains(f));
                let v = choose|v: int| 0 <= v < reads.len() && reads[v] == f;
                assert(holds(sets_of(clusters@), v as usize));
                assert(holds(result, reads[v]));
            }
        } else {
            assert forall|f: usize| !holds(result, f) by {
                if holds(result, f) {
                    let d = choose|d: int|
                        0 <= d < result.len() && (#[trigger] result[d]).contains(f);
                    assert(partition[d]@.contains(f));
                }
            }
        }
    }
    partition
}

/// Clusters the reads that touch `[start, end]`: `find_reads_in_interval`,
/// then `cluster_reads`. Fewer than two clusters are admitted where no two of
/// those reads overlap.
pub fn generate_hap_block<F: Fn(usize, usize) -> i64>(
    start: usize,
    end: usize,
    ploidy: usize,
    all_frags: &Vec<Frag>,
    weigh: &F,
) -> (partition: Vec<FxHashSet<usize>>)
    requires
        frags_wf(all_frags@),
        clusterable(all_frags@, interval_reads(all_frags@, start, end), ploidy as nat),
        forall|n: usize, d: usize| call_requires(*weigh, (n, d)),
    ensures
        partition.len() == ploidy,
        is_partition(sets_of(partition@), all_frags.len() as nat),
        forall|f: usize|
            holds(sets_of(partition@), f) ==> interval_reads(all_frags@, start, end).contains(f),
        clustering_of(
            all_frags@,
            interval_reads(all_frags@, start, end),
            ploidy as nat,
            *weigh,
            sets_of(partition@),
        ),
        !no_overlap(all_frags@, interval_reads(all_frags@, start, end)) ==> forall|f: usize|
            interval_reads(all_frags@, start, end).contains(f) ==> holds(sets_of(partition@), f),
        no_overlap(all_frags@, interval_reads(all_frags@, start, end)) ==> forall|f: usize|
            !holds(sets_of(partition@), f),
{
    let all_reads = find_reads_in_interval(start, end, all_frags);
    cluster_reads(all_frags, &all_reads, ploidy, weigh)
}

} // verus!
