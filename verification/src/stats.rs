//! The statistics of a partition against a haplotype block: for each cluster
//! the calls of its reads that agree and that disagree with the consensus, and
//! the number of its reads.

use crate::frag::frags_wf;
use crate::frag::Frag;
use crate::fx::set_contains;
use crate::fx::set_len;
use crate::hap_block::distance_read_haplo;
use crate::hap_block::lemma_hits_bound;
use crate::hap_block::hits;
use crate::hap_block::misses;
use crate::hap_block::HapBlock;
use crate::hap_block::Haplotype;
use crate::partition::sets_of;
use fxhash::FxHashSet;
use vstd::prelude::*;

verus! {

/// The number of calls of the first `upto` fragments.
pub open spec fn total_calls(frags: Seq<Frag>, upto: nat) -> nat
    decreases upto,
{
    if upto == 0 {
        0
    } else {
        total_calls(frags, (upto - 1) as nat) + frags[upto - 1].positions.len() as nat
    }
}

/// The calls of all fragments can be counted in a `usize`.
pub open spec fn calls_countable(frags: Seq<Frag>) -> bool {
    total_calls(frags, frags.len()) <= usize::MAX
}

/// Over the reads of `cluster` among the first `upto` fragments: the number
/// of calls that are the consensus of `hap`.
pub open spec fn cluster_hits(frags: Seq<Frag>, cluster: Set<usize>, hap: Haplotype, upto: nat) -> nat
    decreases upto,
{
    if upto == 0 {
        0
    } else {
        cluster_hits(frags, cluster, hap, (upto - 1) as nat) + if cluster.contains(
            (upto - 1) as usize,
        ) {
            hits(frags[upto - 1], hap, frags[upto - 1].positions.len() as nat)
        } else {
            0nat
        }
    }
}

/// Over the reads of `cluster` among the first `upto` fragments: the number
/// of calls at sites of `hap` that are not its consensus.
pub open spec fn cluster_misses(
    frags: Seq<Frag>,
    cluster: Set<usize>,
    hap: Haplotype,
    upto: nat,
) -> nat
    decreases upto,
{
    if upto == 0 {
        0
    } else {
        cluster_misses(frags, cluster, hap, (upto - 1) as nat) + if cluster.contains(
            (upto - 1) as usize,
        ) {
            misses(frags[upto - 1], hap, frags[upto - 1].positions.len() as nat)
        } else {
            0nat
        }
    }
}

/// The pair of counts of each cluster against its haplotype.
pub open spec fn binom_of(frags: Seq<Frag>, part: Seq<Set<usize>>, block: HapBlock) -> Seq<
    (usize, usize),
> {
    Seq::new(
        part.len(),
        |c: int|
            (
                cluster_hits(frags, part[c], block.blocks[c], frags.len()) as usize,
                cluster_misses(frags, part[c], block.blocks[c], frags.len()) as usize,
            ),
    )
}

/// The number of reads of each cluster.
pub open spec fn sizes_of(part: Seq<Set<usize>>) -> Seq<usize> {
    Seq::new(part.len(), |c: int| part[c].len() as usize)
}

/// The number of calls grows with the number of fragments counted.
pub proof fn lemma_total_calls_monotone(frags: Seq<Frag>, a: nat, b: nat)
    requires
        a <= b,
    ensures
        total_calls(frags, a) <= total_calls(frags, b),
    decreases b,
{
    if a < b {
        lemma_total_calls_monotone(frags, a, (b - 1) as nat);
    }
}

/// The counts of a cluster, together with the calls of a fragment outside it,
/// are no more than all calls.
pub proof fn lemma_cluster_counts_bound(
    frags: Seq<Frag>,
    cluster: Set<usize>,
    hap: Haplotype,
    upto: nat,
    r: int,
)
    requires
        upto <= frags.len(),
    ensures
        cluster_hits(frags, cluster, hap, upto) + cluster_misses(frags, cluster, hap, upto)
            + (if 0 <= r < upto && !cluster.contains(r as usize) {
            frags[r].positions.len() as nat
        } else {
            0nat
        }) <= total_calls(frags, upto),
    decreases upto,
{
    if upto > 0 {
        lemma_cluster_counts_bound(frags, cluster, hap, (upto - 1) as nat, r);
        let f = frags[upto - 1];
        lemma_hits_bound(f, hap, f.positions.len() as nat);
    }
}

/// The counts of a cluster include the counts of each of its reads.
pub proof fn lemma_cluster_counts_member(
    frags: Seq<Frag>,
    cluster: Set<usize>,
    hap: Haplotype,
    upto: nat,
    r: int,
)
    requires
        0 <= r < upto,
        cluster.contains(r as usize),
    ensures
        cluster_hits(frags, cluster, hap, upto) >= hits(
            frags[r],
            hap,
            frags[r].positions.len() as nat,
        ),
        cluster_misses(frags, cluster, hap, upto) >= misses(
            frags[r],
            hap,
            frags[r].positions.len() as nat,
        ),
    decreases upto,
{
    if r < upto - 1 {
        lemma_cluster_counts_member(frags, cluster, hap, (upto - 1) as nat, r);
    }
}

/// Whether the calls of all fragments can be counted in a `usize`.
pub fn check_calls_countable(frags: &Vec<Frag>) -> (b: bool)
    ensures
        b == calls_countable(frags@),
{
    let mut sum: usize = 0;
    let mut i: usize = 0;
    while i < frags.len()
        invariant
            i <= frags.len(),
            sum == total_calls(frags@, i as nat),
        decreases frags.len() - i,
    {
        let len = frags[i].positions.len();
        if len > usize::MAX - sum {
            proof {
                lemma_total_calls_monotone(frags@, (i + 1) as nat, frags.len() as nat);
            }
            return false;
        }
        sum += len;
        i += 1;
    }
    true
}

/// The counts of one cluster against a haplotype.
pub fn cluster_stats(frags: &Vec<Frag>, cluster: &FxHashSet<usize>, hap: &Haplotype) -> (r: (
    usize,
    usize,
))
    requires
        frags_wf(frags@),
        hap.wf(),
        calls_countable(frags@),
    ensures
        r.0 == cluster_hits(frags@, cluster@, *hap, frags.len() as nat),
        r.1 == cluster_misses(frags@, cluster@, *hap, frags.len() as nat),
{
    let mut bases: usize = 0;
    let mut errors: usize = 0;
    let mut i: usize = 0;
    while i < frags.len()
        invariant
            i <= frags.len(),
            frags_wf(frags@),
            hap.wf(),
            calls_countable(frags@),
            bases == cluster_hits(frags@, cluster@, *hap, i as nat),
            errors == cluster_misses(frags@, cluster@, *hap, i as nat),
        decreases frags.len() - i,
    {
        if set_contains(cluster, i) {
            let (same, diff) = distance_read_haplo(&frags[i], hap);
            proof {
                lemma_cluster_counts_bound(frags@, cluster@, *hap, (i + 1) as nat, -1);
                lemma_total_calls_monotone(frags@, (i + 1) as nat, frags.len() as nat);
            }
            errors += diff;
            bases += same;
        }
        i += 1;
    }
    (bases, errors)
}

/// The statistics of the partition against the block: for each cluster the
/// number of calls of its reads that are the consensus of its haplotype and
/// the number that are not, and the number of its reads.
pub fn get_partition_stats(
    frags: &Vec<Frag>,
    partition: &Vec<FxHashSet<usize>>,
    hap_block: &HapBlock,
) -> (r: (Vec<(usize, usize)>, Vec<usize>))
    requires
        frags_wf(frags@),
        hap_block.wf(),
        hap_block.blocks.len() >= partition.len(),
        calls_countable(frags@),
    ensures
        r.0@ == binom_of(frags@, sets_of(partition@), *hap_block),
        r.1@ == sizes_of(sets_of(partition@)),
{
    let mut binom_vec: Vec<(usize, usize)> = Vec::new();
    let mut freq_vec: Vec<usize> = Vec::new();
    let ploidy = partition.len();
    let mut i: usize = 0;
    while i < ploidy
        invariant
            i <= ploidy,
            ploidy == partition.len(),
            frags_wf(frags@),
            hap_block.wf(),
            hap_block.blocks.len() >= partition.len(),
            calls_countable(frags@),
            binom_vec.len() == i,
            freq_vec.len() == i,
            forall|c: int|
                0 <= c < i ==> #[trigger] binom_vec[c] == binom_of(
                    frags@,
                    sets_of(partition@),
                    *hap_block,
                )[c],
            forall|c: int| 0 <= c < i ==> #[trigger] freq_vec[c] == sizes_of(sets_of(partition@))[c],
        decreases ploidy - i,
    {
        let stat = cluster_stats(frags, &partition[i], &hap_block.blocks[i]);
        binom_vec.push(stat);
        freq_vec.push(set_len(&partition[i]));
        i += 1;
    }
    assert(binom_vec@ =~= binom_of(frags@, sets_of(partition@), *hap_block));
    assert(freq_vec@ =~= sizes_of(sets_of(partition@)));
    (binom_vec, freq_vec)
}

/// The number of calls that disagree with the consensus, over the first
/// `upto` clusters.
pub open spec fn error_total(binom_vec: Seq<(usize, usize)>, upto: nat) -> nat
    decreases upto,
{
    if upto == 0 {
        0
    } else {
        error_total(binom_vec, (upto - 1) as nat) + binom_vec[upto - 1].1 as nat
    }
}

/// The error total grows with the number of clusters counted.
pub proof fn lemma_error_total_monotone(binom_vec: Seq<(usize, usize)>, a: nat, b: nat)
    requires
        a <= b,
    ensures
        error_total(binom_vec, a) <= error_total(binom_vec, b),
    decreases b,
{
    if a < b {
        lemma_error_total_monotone(binom_vec, a, (b - 1) as nat);
    }
}

/// The minimum-error-correction score: the number of calls that disagree with
/// the consensus of their cluster, negated, so that fewer errors score higher.
pub fn get_mec_score(binom_vec: &Vec<(usize, usize)>) -> (score: i128)
    requires
        error_total(binom_vec@, binom_vec.len() as nat) <= usize::MAX,
    ensures
        score == -error_total(binom_vec@, binom_vec.len() as nat),
{
    let mut errors: usize = 0;
    let mut i: usize = 0;
    while i < binom_vec.len()
        invariant
            i <= binom_vec.len(),
            error_total(binom_vec@, binom_vec.len() as nat) <= usize::MAX,
            errors == error_total(binom_vec@, i as nat),
        decreases binom_vec.len() - i,
    {
        proof {
            lemma_error_total_monotone(binom_vec@, (i + 1) as nat, binom_vec.len() as nat);
        }
        errors += binom_vec[i].1;
        i += 1;
    }
    -(errors as i128)
}

} // verus!
