//! What the block of a partition says of its clusters: the histogram of a
//! site counts the reads that cover it, and the consensus depends on the
//! counts alone.

use crate::frag::Frag;
use crate::hap_block::call_of;
use crate::hap_block::cluster_coverage;
use crate::hap_block::cluster_support;
use crate::hap_block::haplotype_of;
use crate::hap_block::hist_wf;
use crate::hap_block::is_call;
use crate::hap_block::lemma_call_unique;
use crate::hap_block::lemma_tally_absent;
use crate::hap_block::lemma_tally_entry;
use crate::hap_block::lemma_tally_present;
use crate::hap_block::tally;
use crate::hap_block::total;
use crate::hap_block::AlleleCount;
use crate::hap_block::Haplotype;
use vstd::prelude::*;

verus! {

/// The number of entries of a histogram for `allele`.
pub open spec fn entries_for(hist: Seq<AlleleCount>, allele: usize) -> nat
    decreases hist.len(),
{
    if hist.len() == 0 {
        0
    } else {
        entries_for(hist.drop_last(), allele) + if hist.last().allele == allele {
            1nat
        } else {
            0nat
        }
    }
}

/// Over the entries of a histogram: the reads of `cluster` among the first
/// `upto` fragments that call the entry's allele at site `p`, summed up.
pub open spec fn support_sum(
    frags: Seq<Frag>,
    cluster: Set<usize>,
    p: usize,
    hist: Seq<AlleleCount>,
    upto: nat,
) -> nat
    decreases hist.len(),
{
    if hist.len() == 0 {
        0
    } else {
        support_sum(frags, cluster, p, hist.drop_last(), upto) + cluster_support(
            frags,
            cluster,
            p,
            hist.last().allele,
            upto,
        )
    }
}

/// Where no allele has two entries, an allele has one entry or none.
pub proof fn lemma_entries_for(hist: Seq<AlleleCount>, allele: usize)
    requires
        forall|x: int, y: int| 0 <= x < y < hist.len() ==> hist[x].allele != hist[y].allele,
    ensures
        entries_for(hist, allele) == if exists|j: int|
            0 <= j < hist.len() && (#[trigger] hist[j]).allele == allele {
            1nat
        } else {
            0nat
        },
    decreases hist.len(),
{
    if hist.len() > 0 {
        let rest = hist.drop_last();
        assert forall|x: int| 0 <= x < rest.len() implies #[trigger] rest[x] == hist[x] by {}
        assert forall|x: int, y: int| 0 <= x < y < rest.len() implies rest[x].allele
            != rest[y].allele by {
            assert(rest[x] == hist[x] && rest[y] == hist[y]);
        }
        lemma_entries_for(rest, allele);
        assert(hist.last() == hist[hist.len() - 1]);
        if hist.last().allele == allele {
            if exists|j: int| 0 <= j < rest.len() && (#[trigger] rest[j]).allele == allele {
                let j = choose|j: int| 0 <= j < rest.len() && (#[trigger] rest[j]).allele == allele;
                assert(hist[j].allele == hist[hist.len() - 1].allele);
            }
        } else {
            if exists|j: int| 0 <= j < hist.len() && (#[trigger] hist[j]).allele == allele {
                let j = choose|j: int| 0 <= j < hist.len() && (#[trigger] hist[j]).allele == allele;
                assert(rest[j].allele == allele);
            } else {
                assert forall|j: int| 0 <= j < rest.len() implies (#[trigger] rest[j]).allele
                    != allele by {
                    assert(hist[j].allele != allele);
                }
            }
        }
    }
}

/// One fragment more adds to the sum over the entries one for each entry of
/// the allele that the fragment calls at the site, where it is a read of the
/// cluster and covers the site.
pub proof fn lemma_support_sum_step(
    frags: Seq<Frag>,
    cluster: Set<usize>,
    p: usize,
    hist: Seq<AlleleCount>,
    upto: nat,
)
    requires
        upto > 0,
    ensures
        support_sum(frags, cluster, p, hist, upto) == support_sum(
            frags,
            cluster,
            p,
            hist,
            (upto - 1) as nat,
        ) + if cluster.contains((upto - 1) as usize) && frags[upto - 1].covers(p) {
            entries_for(hist, frags[upto - 1].allele(p))
        } else {
            0nat
        },
    decreases hist.len(),
{
    if hist.len() > 0 {
        lemma_support_sum_step(frags, cluster, p, hist.drop_last(), upto);
    }
}

/// Where the histogram has one entry for each allele that a read of the
/// cluster calls at the site, the sum over the entries is the number of reads
/// of the cluster that cover the site.
pub proof fn lemma_support_sum_coverage(
    frags: Seq<Frag>,
    cluster: Set<usize>,
    p: usize,
    hist: Seq<AlleleCount>,
    upto: nat,
)
    requires
        upto <= frags.len(),
        forall|x: int, y: int| 0 <= x < y < hist.len() ==> hist[x].allele != hist[y].allele,
        forall|i: int|
            0 <= i < upto && cluster.contains(i as usize) && frags[i].covers(p) ==> exists|j: int|
                0 <= j < hist.len() && (#[trigger] hist[j]).allele == frags[i].allele(p),
    ensures
        support_sum(frags, cluster, p, hist, upto) == cluster_coverage(frags, cluster, p, upto),
    decreases upto,
{
    if upto == 0 {
        lemma_support_sum_zero(frags, cluster, p, hist);
    } else {
        lemma_support_sum_coverage(frags, cluster, p, hist, (upto - 1) as nat);
        lemma_support_sum_step(frags, cluster, p, hist, upto);
        if cluster.contains((upto - 1) as usize) && frags[upto - 1].covers(p) {
            lemma_entries_for(hist, frags[upto - 1].allele(p));
        }
    }
}

/// Over no fragments the sum is zero.
pub proof fn lemma_support_sum_zero(
    frags: Seq<Frag>,
    cluster: Set<usize>,
    p: usize,
    hist: Seq<AlleleCount>,
)
    ensures
        support_sum(frags, cluster, p, hist, 0) == 0,
    decreases hist.len(),
{
    if hist.len() > 0 {
        lemma_support_sum_zero(frags, cluster, p, hist.drop_last());
    }
}

/// Where each allele's calls in the whole histogram `full` are the reads of
/// the cluster that call it, the counts of the first entries add up to the
/// sum of those reads over the entries.
pub proof fn lemma_total_is_support_sum(
    frags: Seq<Frag>,
    cluster: Set<usize>,
    p: usize,
    full: Seq<AlleleCount>,
    k: int,
)
    requires
        0 <= k <= full.len(),
        forall|x: int, y: int| 0 <= x < y < full.len() ==> full[x].allele != full[y].allele,
        forall|a: usize|
            #[trigger] tally(full, a) == cluster_support(frags, cluster, p, a, frags.len()),
    ensures
        total(full.take(k)) == support_sum(frags, cluster, p, full.take(k), frags.len()),
    decreases k,
{
    if k > 0 {
        lemma_total_is_support_sum(frags, cluster, p, full, k - 1);
        assert(full.take(k).drop_last() == full.take(k - 1));
        assert(full.take(k).last() == full[k - 1]);
        lemma_tally_entry(full, k - 1);
    }
}

/// In the haplotype of a cluster the counts at a site add up to the number of
/// reads of the cluster that cover the site.
pub proof fn lemma_support_counts(frags: Seq<Frag>, cluster: Set<usize>, hap: Haplotype, p: usize)
    requires
        haplotype_of(frags, cluster, hap),
        hap.has_site(p),
    ensures
        total(hap.hist(p)) == cluster_coverage(frags, cluster, p, frags.len()),
{
    let hist = hap.hist(p);
    assert(hist_wf(hist)) by {
        assert(hap.index@[p] < hap.sites.len());
        assert(hist_wf(hap.sites[hap.index@[p] as int].alleles@));
    }
    assert forall|a: usize|
        #[trigger] tally(hist, a) == cluster_support(frags, cluster, p, a, frags.len()) by {
        assert(hap.support(p, a) == tally(hist, a));
    }
    lemma_total_is_support_sum(frags, cluster, p, hist, hist.len() as int);
    assert(hist.take(hist.len() as int) == hist);
    assert forall|i: int|
        0 <= i < frags.len() && cluster.contains(i as usize) && frags[i].covers(
            p,
        ) implies exists|j: int|
        0 <= j < hist.len() && (#[trigger] hist[j]).allele == frags[i].allele(p) by {
        lemma_support_of_caller(frags, cluster, p, frags[i].allele(p), frags.len(), i);
        assert(tally(hist, frags[i].allele(p)) > 0);
        lemma_tally_present(hist, frags[i].allele(p));
    }
    lemma_support_sum_coverage(frags, cluster, p, hist, frags.len());
}

/// A read of the cluster that calls an allele at a site is counted.
pub proof fn lemma_support_of_caller(
    frags: Seq<Frag>,
    cluster: Set<usize>,
    p: usize,
    a: usize,
    upto: nat,
    i: int,
)
    requires
        0 <= i < upto,
        cluster.contains(i as usize),
        frags[i].covers(p),
        frags[i].allele(p) == a,
    ensures
        cluster_support(frags, cluster, p, a, upto) > 0,
    decreases upto,
{
    if i < upto - 1 {
        lemma_support_of_caller(frags, cluster, p, a, (upto - 1) as nat, i);
    }
}

/// An allele that no read of the cluster calls at the site has no support.
pub proof fn lemma_support_without_caller(
    frags: Seq<Frag>,
    cluster: Set<usize>,
    p: usize,
    a: usize,
    upto: nat,
)
    requires
        forall|i: int|
            0 <= i < upto && cluster.contains(i as usize) && (#[trigger] frags[i]).covers(p)
                ==> frags[i].allele(p) != a,
    ensures
        cluster_support(frags, cluster, p, a, upto) == 0,
    decreases upto,
{
    if upto > 0 {
        lemma_support_without_caller(frags, cluster, p, a, (upto - 1) as nat);
        assert(cluster.contains((upto - 1) as usize) && frags[upto - 1].covers(p)
            ==> frags[upto - 1].allele(p) != a);
    }
}

/// A site is covered exactly when some read of the cluster covers it.
pub proof fn lemma_coverage_positive(frags: Seq<Frag>, cluster: Set<usize>, p: usize, upto: nat)
    ensures
        cluster_coverage(frags, cluster, p, upto) > 0 <==> exists|i: int|
            0 <= i < upto && cluster.contains(i as usize) && (#[trigger] frags[i]).covers(p),
    decreases upto,
{
    if upto > 0 {
        lemma_coverage_positive(frags, cluster, p, (upto - 1) as nat);
        if cluster_coverage(frags, cluster, p, upto) > 0 {
            if cluster_coverage(frags, cluster, p, (upto - 1) as nat) > 0 {
                let i = choose|i: int|
                    0 <= i < upto - 1 && cluster.contains(i as usize) && (#[trigger] frags[i]).covers(
                        p,
                    );
                assert(0 <= i < upto && cluster.contains(i as usize) && frags[i].covers(p));
            } else {
                assert(cluster.contains((upto - 1) as usize) && frags[upto - 1].covers(p));
            }
        }
        if exists|i: int|
            0 <= i < upto && cluster.contains(i as usize) && (#[trigger] frags[i]).covers(p) {
            let i = choose|i: int|
                0 <= i < upto && cluster.contains(i as usize) && (#[trigger] frags[i]).covers(p);
            if i < upto - 1 {
                assert(0 <= i < upto - 1 && cluster.contains(i as usize) && frags[i].covers(p));
            }
        }
    }
}

/// The entry that leads among the first `k` entries of a histogram: the one
/// with the greatest count, and of several the one with the lowest allele.
pub open spec fn leader(hist: Seq<AlleleCount>, k: nat) -> int
    decreases k,
{
    if k <= 1 {
        0
    } else {
        let best = leader(hist, (k - 1) as nat);
        let e = hist[k - 1];
        if e.count > hist[best].count || (e.count == hist[best].count && e.allele
            < hist[best].allele) {
            k - 1
        } else {
            best
        }
    }
}

/// The leader is an entry that no other entry beats.
pub proof fn lemma_leader(hist: Seq<AlleleCount>, k: nat)
    requires
        1 <= k <= hist.len(),
    ensures
        0 <= leader(hist, k) < k,
        forall|j: int|
            0 <= j < k ==> (#[trigger] hist[j]).count < hist[leader(hist, k)].count || (
            hist[j].count == hist[leader(hist, k)].count && hist[leader(hist, k)].allele
                <= hist[j].allele),
    decreases k,
{
    if k > 1 {
        lemma_leader(hist, (k - 1) as nat);
    }
}

/// A well-formed histogram has a consensus: the allele of its leader.
pub proof fn lemma_call_exists(hist: Seq<AlleleCount>)
    requires
        hist_wf(hist),
    ensures
        is_call(hist, hist[leader(hist, hist.len())].allele),
        is_call(hist, call_of(hist)),
{
    lemma_leader(hist, hist.len());
    let best = leader(hist, hist.len());
    let a = hist[best].allele;
    lemma_tally_entry(hist, best);
    assert forall|b: usize|
        tally(hist, b) < tally(hist, a) || (#[trigger] tally(hist, b) == tally(hist, a) && a
            <= b) by {
        if exists|j: int| 0 <= j < hist.len() && (#[trigger] hist[j]).allele == b {
            let j = choose|j: int| 0 <= j < hist.len() && (#[trigger] hist[j]).allele == b;
            lemma_tally_entry(hist, j);
        } else {
            lemma_tally_absent(hist, b);
        }
    }
    assert(hist[best].count > 0);
    assert(is_call(hist, a));
}

/// Two well-formed histograms with the same number of calls for every allele
/// have the same consensus.
pub proof fn lemma_call_by_counts(h1: Seq<AlleleCount>, h2: Seq<AlleleCount>)
    requires
        hist_wf(h1),
        hist_wf(h2),
        forall|a: usize| #[trigger] tally(h1, a) == tally(h2, a),
    ensures
        call_of(h1) == call_of(h2),
{
    lemma_call_exists(h1);
    lemma_call_exists(h2);
    let a = call_of(h1);
    assert(is_call(h2, a)) by {
        assert(tally(h2, a) == tally(h1, a));
        assert forall|b: usize|
            tally(h2, b) < tally(h2, a) || (#[trigger] tally(h2, b) == tally(h2, a) && a <= b) by {
            assert(tally(h1, b) == tally(h2, b));
            assert(tally(h1, b) < tally(h1, a) || (tally(h1, b) == tally(h1, a) && a <= b));
        }
    }
    lemma_call_unique(h2, a, call_of(h2));
}

/// A cluster whose reads all carry the consensus of a haplotype, with a read
/// at each of its sites, has a haplotype with the same sites and the same
/// consensus at each of them.
pub proof fn lemma_consensus_round_trip(
    frags: Seq<Frag>,
    cluster: Set<usize>,
    given: Haplotype,
    derived: Haplotype,
)
    requires
        given.wf(),
        haplotype_of(frags, cluster, derived),
        forall|i: int, p: usize|
            0 <= i < frags.len() && cluster.contains(i as usize) && #[trigger] frags[i].covers(p)
                ==> given.has_site(p) && frags[i].allele(p) == given.call(p),
        forall|p: usize|
            given.has_site(p) ==> exists|i: int|
                0 <= i < frags.len() && cluster.contains(i as usize) && #[trigger] frags[i].covers(
                    p,
                ),
    ensures
        forall|p: usize| derived.has_site(p) <==> given.has_site(p),
        forall|p: usize| given.has_site(p) ==> derived.call(p) == given.call(p),
{
    assert forall|p: usize| derived.has_site(p) <==> given.has_site(p) by {
        lemma_coverage_positive(frags, cluster, p, frags.len());
        if derived.has_site(p) {
            let i = choose|i: int|
                0 <= i < frags.len() && cluster.contains(i as usize) && (#[trigger] frags[i]).covers(
                    p,
                );
            assert(frags[i].covers(p));
        }
        if given.has_site(p) {
            let i = choose|i: int|
                0 <= i < frags.len() && cluster.contains(i as usize) && #[trigger] frags[i].covers(
                    p,
                );
            assert(frags[i].covers(p));
        }
    }
    assert forall|p: usize| given.has_site(p) implies derived.call(p) == given.call(p) by {
        let a = given.call(p);
        let hist = derived.hist(p);
        assert(derived.has_site(p));
        let i = choose|i: int|
            0 <= i < frags.len() && cluster.contains(i as usize) && #[trigger] frags[i].covers(p);
        lemma_support_of_caller(frags, cluster, p, a, frags.len(), i);
        assert(derived.support(p, a) == tally(hist, a));
        assert forall|b: usize|
            tally(hist, b) < tally(hist, a) || (#[trigger] tally(hist, b) == tally(hist, a) && a
                <= b) by {
            if b != a {
                assert forall|j: int|
                    0 <= j < frags.len() && cluster.contains(j as usize) && (
                    #[trigger] frags[j]).covers(p) implies frags[j].allele(p) != b by {
                    assert(frags[j].covers(p));
                }
                lemma_support_without_caller(frags, cluster, p, b, frags.len());
                assert(derived.support(p, b) == tally(hist, b));
            }
        }
        assert(is_call(hist, a));
        assert(derived.index@[p] < derived.sites.len());
        assert(hist_wf(derived.sites[derived.index@[p] as int].alleles@));
        lemma_call_exists(hist);
        lemma_call_unique(hist, a, call_of(hist));
    }
}

} // verus!
