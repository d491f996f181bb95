//! With a weigher that returns one weight for each pair of counts, the
//! clustering and the estimate of the error rate are functions of their
//! inputs.

use crate::cluster::clustering_of;
use crate::cluster::weighed_by;
use crate::coverage::lemma_call_by_counts;
use crate::epsilon::estimate_of;
use crate::epsilon::sampled;
use crate::epsilon::window_outcome;
use crate::epsilon::window_with;
use crate::epsilon::Rate;
use crate::frag::Frag;
use crate::graph::shape;
use crate::graph::shapes;
use crate::graph::Edge;
use crate::hap_block::block_of;
use crate::hap_block::haplotype_of;
use crate::hap_block::hits;
use crate::hap_block::misses;
use crate::hap_block::HapBlock;
use crate::hap_block::Haplotype;
use crate::epsilon::window_reads;
use crate::partition::members;
use crate::stats::binom_of;
use crate::stats::cluster_hits;
use crate::stats::cluster_misses;
use vstd::prelude::*;

verus! {

/// The weigher returns one weight for each pair of counts.
pub open spec fn functional<F: Fn(usize, usize) -> i64>(weigh: F) -> bool {
    forall|n: usize, d: usize, w1: i64, w2: i64|
        call_ensures(weigh, (n, d), w1) && call_ensures(weigh, (n, d), w2) ==> w1 == w2
}

/// The graph of the reads has one edge list.
pub proof fn lemma_edges_unique<F: Fn(usize, usize) -> i64>(
    frags: Seq<Frag>,
    reads: Seq<usize>,
    weigh: F,
    e1: Seq<Edge>,
    e2: Seq<Edge>,
)
    requires
        functional(weigh),
        weighed_by(frags, reads, weigh, e1),
        weighed_by(frags, reads, weigh, e2),
    ensures
        e1 == e2,
{
    assert(shapes(e1).len() == e1.len());
    assert(shapes(e2).len() == e2.len());
    assert forall|i: int| 0 <= i < e1.len() implies e1[i] == e2[i] by {
        assert(shape(e1[i]) == shapes(e1)[i]);
        assert(shape(e2[i]) == shapes(e2)[i]);
        let n = (e1[i].same + e1[i].diff) as usize;
        assert(call_ensures(weigh, (n, e1[i].diff), e1[i].weight));
        assert(call_ensures(weigh, (n, e2[i].diff), e2[i].weight));
    }
    assert(e1 =~= e2);
}

/// The reads have one clustering.
pub proof fn lemma_clustering_unique<F: Fn(usize, usize) -> i64>(
    frags: Seq<Frag>,
    all_reads: Set<usize>,
    k: nat,
    weigh: F,
    r1: Seq<Set<usize>>,
    r2: Seq<Set<usize>>,
)
    requires
        functional(weigh),
        clustering_of(frags, all_reads, k, weigh, r1),
        clustering_of(frags, all_reads, k, weigh, r2),
    ensures
        r1 == r2,
{
    let reads = members(all_reads, frags.len());
    let e1 = choose|edges: Seq<Edge>|
        {
            &&& #[trigger] weighed_by(frags, reads, weigh, edges)
            &&& r1.len() == k
            &&& forall|c: int|
                0 <= c < k ==> #[trigger] r1[c] == crate::cluster::fragments_of(
                    reads,
                    crate::cluster::cluster_model(edges, reads.len(), k)[c],
                )
        };
    let e2 = choose|edges: Seq<Edge>|
        {
            &&& #[trigger] weighed_by(frags, reads, weigh, edges)
            &&& r2.len() == k
            &&& forall|c: int|
                0 <= c < k ==> #[trigger] r2[c] == crate::cluster::fragments_of(
                    reads,
                    crate::cluster::cluster_model(edges, reads.len(), k)[c],
                )
        };
    lemma_edges_unique(frags, reads, weigh, e1, e2);
    assert(r1 =~= r2);
}

/// Against two haplotypes of one cluster a read has the same counts.
pub proof fn lemma_hits_by_cluster(
    frags: Seq<Frag>,
    cluster: Set<usize>,
    h1: Haplotype,
    h2: Haplotype,
    r: Frag,
    n: nat,
)
    requires
        haplotype_of(frags, cluster, h1),
        haplotype_of(frags, cluster, h2),
    ensures
        hits(r, h1, n) == hits(r, h2, n),
        misses(r, h1, n) == misses(r, h2, n),
    decreases n,
{
    if n > 0 {
        lemma_hits_by_cluster(frags, cluster, h1, h2, r, (n - 1) as nat);
        let p = r.positions[n - 1];
        assert(h1.has_site(p) <==> h2.has_site(p));
        if h1.has_site(p) {
            let a = h1.hist(p);
            let b = h2.hist(p);
            assert(h1.index@[p] < h1.sites.len());
            assert(h2.index@[p] < h2.sites.len());
            assert(crate::hap_block::hist_wf(h1.sites[h1.index@[p] as int].alleles@));
            assert(crate::hap_block::hist_wf(h2.sites[h2.index@[p] as int].alleles@));
            assert forall|x: usize|
                #[trigger] crate::hap_block::tally(a, x) == crate::hap_block::tally(b, x) by {
                assert(h1.support(p, x) == crate::hap_block::tally(a, x));
                assert(h2.support(p, x) == crate::hap_block::tally(b, x));
            }
            lemma_call_by_counts(a, b);
        }
    }
}

/// Against two haplotypes of one cluster the cluster has the same counts.
pub proof fn lemma_cluster_hits_by_cluster(
    frags: Seq<Frag>,
    cluster: Set<usize>,
    h1: Haplotype,
    h2: Haplotype,
    upto: nat,
)
    requires
        haplotype_of(frags, cluster, h1),
        haplotype_of(frags, cluster, h2),
    ensures
        cluster_hits(frags, cluster, h1, upto) == cluster_hits(frags, cluster, h2, upto),
        cluster_misses(frags, cluster, h1, upto) == cluster_misses(frags, cluster, h2, upto),
    decreases upto,
{
    if upto > 0 {
        lemma_cluster_hits_by_cluster(frags, cluster, h1, h2, (upto - 1) as nat);
        let f = frags[upto - 1];
        lemma_hits_by_cluster(frags, cluster, h1, h2, f, f.positions.len() as nat);
    }
}

/// Against two blocks of one partition the partition has the same counts.
pub proof fn lemma_binom_unique(
    frags: Seq<Frag>,
    part: Seq<Set<usize>>,
    b1: HapBlock,
    b2: HapBlock,
)
    requires
        block_of(frags, part, b1),
        block_of(frags, part, b2),
    ensures
        binom_of(frags, part, b1) == binom_of(frags, part, b2),
{
    assert forall|c: int| 0 <= c < part.len() implies binom_of(frags, part, b1)[c] == binom_of(
        frags,
        part,
        b2,
    )[c] by {
        assert(haplotype_of(frags, part[c], b1.blocks[c]));
        assert(haplotype_of(frags, part[c], b2.blocks[c]));
        lemma_cluster_hits_by_cluster(frags, part[c], b1.blocks[c], b2.blocks[c], frags.len());
    }
    assert(binom_of(frags, part, b1) =~= binom_of(frags, part, b2));
}

/// The clusters of given reads have one list of rates.
pub proof fn lemma_window_unique<F: Fn(usize, usize) -> i64>(
    frags: Seq<Frag>,
    reads: Set<usize>,
    k: nat,
    weigh: F,
    rates1: Seq<Rate>,
    rates2: Seq<Rate>,
)
    requires
        functional(weigh),
        window_outcome(frags, reads, k, weigh, rates1),
        window_outcome(frags, reads, k, weigh, rates2),
    ensures
        rates1 == rates2,
{
    let (p1, b1) = choose|part: Seq<Set<usize>>, block: HapBlock| #[trigger]
        window_with(frags, reads, k, weigh, rates1, part, block);
    let (p2, b2) = choose|part: Seq<Set<usize>>, block: HapBlock| #[trigger]
        window_with(frags, reads, k, weigh, rates2, part, block);
    lemma_clustering_unique(frags, reads, k, weigh, p1, p2);
    lemma_binom_unique(frags, p1, b1, b2);
}

/// The estimate of the error rate from given windows is one value.
pub proof fn lemma_estimate_unique<F: Fn(usize, usize) -> i64>(
    frags: Seq<Frag>,
    windows: Seq<u64>,
    block_len: usize,
    k: nat,
    weigh: F,
    r1: Option<Rate>,
    r2: Option<Rate>,
)
    requires
        functional(weigh),
        estimate_of(frags, windows, block_len, k, weigh, r1),
        estimate_of(frags, windows, block_len, k, weigh, r2),
    ensures
        r1 == r2,
{
    let w1 = choose|per_window: Seq<Seq<Rate>>|
        #[trigger] sampled(frags, windows, block_len, k, weigh, per_window) && r1
            == crate::epsilon::percentile(
            crate::epsilon::flatten(per_window, per_window.len()),
        );
    let w2 = choose|per_window: Seq<Seq<Rate>>|
        #[trigger] sampled(frags, windows, block_len, k, weigh, per_window) && r2
            == crate::epsilon::percentile(
            crate::epsilon::flatten(per_window, per_window.len()),
        );
    assert forall|t: int| 0 <= t < windows.len() implies w1[t] == w2[t] by {
        lemma_window_unique(
            frags,
            window_reads(frags, windows[t], block_len),
            k,
            weigh,
            w1[t],
            w2[t],
        );
    }
    assert(w1 =~= w2);
}

} // verus!
