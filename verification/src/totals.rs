//! Every call of every read of a cluster is counted once: in the counts of
//! the cluster against its haplotype, and in the histograms of the haplotype.

use crate::clique::lemma_push_to_set;
use crate::coverage::lemma_coverage_positive;
use crate::coverage::lemma_support_counts;
use crate::frag::frags_wf;
use crate::frag::Frag;
use crate::hap_block::block_of;
use crate::hap_block::cluster_coverage;
use crate::hap_block::haplotype_of;
use crate::hap_block::hits;
use crate::hap_block::misses;
use crate::hap_block::total;
use crate::hap_block::HapBlock;
use crate::hap_block::Haplotype;
use crate::hap_block::Site;
use crate::stats::binom_of;
use crate::stats::calls_countable;
use crate::stats::cluster_hits;
use crate::stats::cluster_misses;
use crate::stats::lemma_cluster_counts_bound;
use vstd::prelude::*;

verus! {

/// The number of calls of the reads of `cluster` among the first `upto`
/// fragments.
pub open spec fn cluster_calls(frags: Seq<Frag>, cluster: Set<usize>, upto: nat) -> nat
    decreases upto,
{
    if upto == 0 {
        0
    } else {
        cluster_calls(frags, cluster, (upto - 1) as nat) + if cluster.contains((upto - 1) as usize) {
            frags[upto - 1].positions.len() as nat
        } else {
            0nat
        }
    }
}

/// The number of calls that the first `upto` histograms record.
pub open spec fn site_totals(sites: Seq<Site>, upto: nat) -> nat
    decreases upto,
{
    if upto == 0 {
        0
    } else {
        site_totals(sites, (upto - 1) as nat) + total(sites[upto - 1].alleles@)
    }
}

/// The sites of the histograms, in their order.
pub open spec fn site_positions(sites: Seq<Site>) -> Seq<usize> {
    Seq::new(sites.len(), |i: int| sites[i].position)
}

/// The number of the first `k` sites that lie in `covered`.
pub open spec fn sites_in(ps: Seq<usize>, covered: Set<usize>, k: nat) -> nat
    decreases k,
{
    if k == 0 {
        0
    } else {
        sites_in(ps, covered, (k - 1) as nat) + if covered.contains(ps[k - 1]) {
            1nat
        } else {
            0nat
        }
    }
}

/// Over the first `k` sites: the reads of `cluster` among the first `upto`
/// fragments that cover the site, summed up.
pub open spec fn coverage_sum(
    frags: Seq<Frag>,
    cluster: Set<usize>,
    ps: Seq<usize>,
    upto: nat,
    k: nat,
) -> nat
    decreases k,
{
    if k == 0 {
        0
    } else {
        coverage_sum(frags, cluster, ps, upto, (k - 1) as nat) + cluster_coverage(
            frags,
            cluster,
            ps[k - 1],
            upto,
        )
    }
}

/// A read whose sites all have a histogram is counted at each of its sites.
pub proof fn lemma_hits_full(r: Frag, hap: Haplotype, m: nat)
    requires
        m <= r.positions.len(),
        forall|j: int| 0 <= j < m ==> hap.has_site(#[trigger] r.positions[j]),
    ensures
        hits(r, hap, m) + misses(r, hap, m) == m,
    decreases m,
{
    if m > 0 {
        lemma_hits_full(r, hap, (m - 1) as nat);
        assert(hap.has_site(r.positions[m - 1]));
    }
}

/// The counts of a cluster against its own haplotype are the calls of its
/// reads.
pub proof fn lemma_hits_sum(frags: Seq<Frag>, cluster: Set<usize>, hap: Haplotype, upto: nat)
    requires
        frags_wf(frags),
        haplotype_of(frags, cluster, hap),
        upto <= frags.len(),
    ensures
        cluster_hits(frags, cluster, hap, upto) + cluster_misses(frags, cluster, hap, upto)
            == cluster_calls(frags, cluster, upto),
    decreases upto,
{
    if upto > 0 {
        lemma_hits_sum(frags, cluster, hap, (upto - 1) as nat);
        let f = frags[upto - 1];
        if cluster.contains((upto - 1) as usize) {
            assert forall|j: int| 0 <= j < f.positions.len() implies hap.has_site(
                #[trigger] f.positions[j],
            ) by {
                let p = f.positions[j];
                assert(f.positions@.contains(p));
                assert(frags[upto - 1].covers(p));
                lemma_coverage_positive(frags, cluster, p, frags.len());
            }
            lemma_hits_full(f, hap, f.positions.len() as nat);
        }
    }
}

/// Of sites that are listed once, those in a set are as many as the set has
/// among them.
pub proof fn lemma_sites_in(ps: Seq<usize>, covered: Set<usize>, k: nat)
    requires
        ps.no_duplicates(),
        k <= ps.len(),
    ensures
        ps.take(k as int).to_set().finite(),
        ps.take(k as int).to_set().intersect(covered).finite(),
        sites_in(ps, covered, k) == ps.take(k as int).to_set().intersect(covered).len(),
    decreases k,
{
    if k == 0 {
        assert(ps.take(0).to_set() =~= Set::<usize>::empty());
        assert(ps.take(0).to_set().intersect(covered) =~= Set::<usize>::empty());
    } else {
        lemma_sites_in(ps, covered, (k - 1) as nat);
        let head = ps.take(k - 1);
        let x = ps[k - 1];
        assert(ps.take(k as int) == head.push(x));
        lemma_push_to_set(head, x);
        let before = head.to_set().intersect(covered);
        let after = ps.take(k as int).to_set().intersect(covered);
        assert(!head.to_set().contains(x)) by {
            if head.contains(x) {
                let j = choose|j: int| 0 <= j < head.len() && head[j] == x;
                assert(ps[j] == ps[k - 1]);
            }
        }
        if covered.contains(x) {
            assert(after =~= before.insert(x));
        } else {
            assert(after =~= before);
        }
    }
}

/// One fragment more adds to the sum over the sites the number of sites that
/// it covers, where it is a read of the cluster.
pub proof fn lemma_coverage_sum_step(
    frags: Seq<Frag>,
    cluster: Set<usize>,
    ps: Seq<usize>,
    upto: nat,
    k: nat,
)
    requires
        upto > 0,
    ensures
        coverage_sum(frags, cluster, ps, upto, k) == coverage_sum(
            frags,
            cluster,
            ps,
            (upto - 1) as nat,
            k,
        ) + if cluster.contains((upto - 1) as usize) {
            sites_in(ps, frags[upto - 1].seq_dict@.dom(), k)
        } else {
            0nat
        },
    decreases k,
{
    if k > 0 {
        lemma_coverage_sum_step(frags, cluster, ps, upto, (k - 1) as nat);
    }
}

/// Over no fragments the sum over the sites is zero.
pub proof fn lemma_coverage_sum_zero(frags: Seq<Frag>, cluster: Set<usize>, ps: Seq<usize>, k: nat)
    ensures
        coverage_sum(frags, cluster, ps, 0, k) == 0,
    decreases k,
{
    if k > 0 {
        lemma_coverage_sum_zero(frags, cluster, ps, (k - 1) as nat);
    }
}

/// Where the sites are listed once and hold every site of every read of the
/// cluster, the sum over the sites is the number of calls of those reads.
pub proof fn lemma_coverage_sum(frags: Seq<Frag>, cluster: Set<usize>, ps: Seq<usize>, upto: nat)
    requires
        frags_wf(frags),
        upto <= frags.len(),
        ps.no_duplicates(),
        forall|i: int, p: usize|
            0 <= i < upto && cluster.contains(i as usize) && #[trigger] frags[i].covers(p)
                ==> ps.contains(p),
    ensures
        coverage_sum(frags, cluster, ps, upto, ps.len()) == cluster_calls(frags, cluster, upto),
    decreases upto,
{
    if upto == 0 {
        lemma_coverage_sum_zero(frags, cluster, ps, ps.len());
    } else {
        lemma_coverage_sum(frags, cluster, ps, (upto - 1) as nat);
        lemma_coverage_sum_step(frags, cluster, ps, upto, ps.len());
        if cluster.contains((upto - 1) as usize) {
            let f = frags[upto - 1];
            let dom = f.seq_dict@.dom();
            lemma_sites_in(ps, dom, ps.len());
            assert(ps.take(ps.len() as int) == ps);
            assert(f.wf());
            assert(ps.to_set().intersect(dom) =~= f.positions@.to_set()) by {
                assert forall|p: usize|
                    ps.to_set().intersect(dom).contains(p) <==> f.positions@.to_set().contains(
                        p,
                    ) by {
                    if f.positions@.contains(p) {
                        assert(frags[upto - 1].covers(p));
                    }
                }
            }
            f.positions@.unique_seq_to_set();
        }
    }
}

/// The histograms of a cluster's haplotype record, site by site, the reads
/// that cover the site.
pub proof fn lemma_site_totals(frags: Seq<Frag>, cluster: Set<usize>, hap: Haplotype, k: nat)
    requires
        haplotype_of(frags, cluster, hap),
        k <= hap.sites.len(),
    ensures
        site_totals(hap.sites@, k) == coverage_sum(
            frags,
            cluster,
            site_positions(hap.sites@),
            frags.len(),
            k,
        ),
    decreases k,
{
    if k > 0 {
        lemma_site_totals(frags, cluster, hap, (k - 1) as nat);
        let p = hap.sites[k - 1].position;
        assert(hap.has_site(p) && hap.index@[p] == k - 1);
        lemma_support_counts(frags, cluster, hap, p);
        assert(site_positions(hap.sites@)[k - 1] == p);
    }
}

/// Each call of each read of a cluster is counted once: the two counts of the
/// cluster against its own haplotype add up to the calls of its reads, and so
/// do the counts of all histograms of the haplotype.
pub proof fn lemma_calls_counted(frags: Seq<Frag>, cluster: Set<usize>, hap: Haplotype)
    requires
        frags_wf(frags),
        haplotype_of(frags, cluster, hap),
    ensures
        cluster_hits(frags, cluster, hap, frags.len()) + cluster_misses(
            frags,
            cluster,
            hap,
            frags.len(),
        ) == cluster_calls(frags, cluster, frags.len()),
        site_totals(hap.sites@, hap.sites.len() as nat) == cluster_calls(
            frags,
            cluster,
            frags.len(),
        ),
{
    lemma_hits_sum(frags, cluster, hap, frags.len());
    let ps = site_positions(hap.sites@);
    assert(ps.no_duplicates()) by {
        assert forall|i: int, j: int| 0 <= i < ps.len() && 0 <= j < ps.len() && i != j implies ps[i]
            != ps[j] by {
            assert(hap.index@[hap.sites[i].position] == i);
            assert(hap.index@[hap.sites[j].position] == j);
        }
    }
    assert forall|i: int, p: usize|
        0 <= i < frags.len() && cluster.contains(i as usize) && #[trigger] frags[i].covers(
            p,
        ) implies ps.contains(p) by {
        lemma_coverage_positive(frags, cluster, p, frags.len());
        assert(hap.has_site(p));
        let at = hap.index@[p] as int;
        assert(hap.sites[at].position == p);
        assert(ps[at] == p);
    }
    lemma_coverage_sum(frags, cluster, ps, frags.len());
    lemma_site_totals(frags, cluster, hap, hap.sites.len() as nat);
}

/// Against the block of the partition, the two counts that the statistics
/// give for a cluster add up to the calls of its reads, and so do the counts
/// of the histograms of its haplotype.
pub proof fn lemma_stats_count_calls(
    frags: Seq<Frag>,
    part: Seq<Set<usize>>,
    block: HapBlock,
    c: int,
)
    requires
        frags_wf(frags),
        calls_countable(frags),
        block_of(frags, part, block),
        0 <= c < part.len(),
    ensures
        binom_of(frags, part, block)[c].0 + binom_of(frags, part, block)[c].1 == cluster_calls(
            frags,
            part[c],
            frags.len(),
        ),
        site_totals(block.blocks[c].sites@, block.blocks[c].sites.len() as nat) == cluster_calls(
            frags,
            part[c],
            frags.len(),
        ),
{
    assert(haplotype_of(frags, part[c], block.blocks[c]));
    lemma_calls_counted(frags, part[c], block.blocks[c]);
    lemma_cluster_counts_bound(frags, part[c], block.blocks[c], frags.len(), -1);
}

} // verus!
