//! Estimating the error rate of the reads from the clusters of sampled
//! windows.

use crate::cluster::cluster_reads;
use crate::cluster::clusterable;
use crate::cluster::clustering_of;
use crate::frag::frags_wf;
use crate::frag::Frag;
use crate::hap_block::block_of;
use crate::hap_block::hap_block_from_partition;
use crate::hap_block::HapBlock;
use crate::fx::set_new;
use crate::interval::find_reads_in_interval;
use crate::interval::interval_reads;
use crate::order::ranking;
use crate::order::stable_order;
use crate::order::Ranked;
use crate::partition::sets_of;
use crate::stats::binom_of;
use crate::stats::calls_countable;
use crate::stats::get_partition_stats;
use crate::stats::lemma_cluster_counts_bound;
use fxhash::FxHashSet;
use rand::Rng;
use rand::SeedableRng;
use rand_pcg::Pcg64;
use vstd::prelude::*;

verus! {

/// The seed of the generator that picks the windows.
pub const SEED: u64 = 1;

/// `rand_pcg::Pcg64`, the generator that picks the windows. Opaque here.
#[verifier::external_type_specification]
#[verifier::external_body]
pub struct ExPcg64(rand_pcg::Lcg128Xsl64);

/// What a `Pcg64` holds: its state and its increment, in this order.
pub uninterp spec fn pcg64_state(rng: Pcg64) -> Seq<int>;

/// What `Pcg64::seed_from_u64` makes of a seed.
pub uninterp spec fn pcg64_seeded(seed: u64) -> Seq<int>;

/// What `Rng::gen_range(0, bound)` makes of a `Pcg64`: the number drawn, and
/// what the generator holds afterwards.
pub uninterp spec fn pcg64_below(state: Seq<int>, bound: u64) -> (u64, Seq<int>);

/// `Pcg64::seed_from_u64`: trusted to return a generator whose contents are a
/// function of the seed alone.
#[verifier::external_body]
fn seeded_rng(seed: u64) -> (rng: Pcg64)
    ensures
        pcg64_state(rng) == pcg64_seeded(seed),
{
    Pcg64::seed_from_u64(seed)
}

/// `Rng::gen_range(0, bound)` on a `Pcg64`, for `u64`: trusted to return a
/// number below `bound`, and to make of the generator and to return what is a
/// function of the generator's contents and of `bound` alone. The call does
/// not return normally where `bound` is 0.
#[verifier::external_body]
fn draw_below(rng: &mut Pcg64, bound: u64) -> (r: u64)
    requires
        bound > 0,
    ensures
        r < bound,
        r == pcg64_below(pcg64_state(*old(rng)), bound).0,
        pcg64_state(*final(rng)) == pcg64_below(pcg64_state(*old(rng)), bound).1,
{
    rng.gen_range(0, bound)
}

/// The first `count` numbers below `bound` that a generator draws, and what it
/// holds after them.
pub open spec fn draws(state: Seq<int>, bound: u64, count: nat) -> (Seq<u64>, Seq<int>)
    decreases count,
{
    if count == 0 {
        (Seq::empty(), state)
    } else {
        let prev = draws(state, bound, (count - 1) as nat);
        let next = pcg64_below(prev.1, bound);
        (prev.0.push(next.0), next.1)
    }
}

/// The windows that the estimate samples: `num_tries` numbers below
/// `num_iters` from a generator seeded with `SEED`.
pub open spec fn sampled_windows(num_iters: usize, num_tries: usize) -> Seq<u64> {
    draws(pcg64_seeded(SEED), num_iters as u64, num_tries as nat).0
}

/// The windows to sample.
pub fn pick_windows(num_iters: usize, num_tries: usize) -> (windows: Vec<u64>)
    requires
        num_tries > 0 ==> num_iters > 0,
    ensures
        windows@ == sampled_windows(num_iters, num_tries),
        windows.len() == num_tries,
        forall|t: int| 0 <= t < windows.len() ==> (#[trigger] windows[t]) < num_iters,
{
    let mut rng = seeded_rng(SEED);
    let mut random_vec: Vec<u64> = Vec::new();
    let mut t: usize = 0;
    while t < num_tries
        invariant
            t <= num_tries,
            num_tries > 0 ==> num_iters > 0,
            random_vec.len() == t,
            (random_vec@, pcg64_state(rng)) == draws(
                pcg64_seeded(SEED),
                num_iters as u64,
                t as nat,
            ),
            forall|u: int| 0 <= u < t ==> (#[trigger] random_vec[u]) < num_iters,
        decreases num_tries - t,
    {
        let w = draw_below(&mut rng, num_iters as u64);
        random_vec.push(w);
        t += 1;
    }
    random_vec
}

/// The error rate of a cluster: of `total` calls at sites of its haplotype,
/// `errors` are not the consensus.
#[derive(Clone, Copy)]
pub struct Rate {
    pub errors: usize,
    pub total: usize,
}

impl Rate {
    /// A rate between 0 and 1: some calls, and no more errors than calls.
    pub open spec fn is_rate(&self) -> bool {
        0 < self.total && self.errors <= self.total
    }
}

impl Ranked for Rate {
    /// The lower rate comes first: `errors / total` is compared across.
    open spec fn before(&self, other: &Self) -> bool {
        self.errors * other.total < other.errors * self.total
    }

    fn precedes(&self, other: &Self) -> (b: bool) {
        let a: u128 = self.errors as u128;
        let b: u128 = other.total as u128;
        let c: u128 = other.errors as u128;
        let d: u128 = self.total as u128;
        assert(a * b <= 0xffff_ffff_ffff_ffff * 0xffff_ffff_ffff_ffff) by (nonlinear_arith)
            requires
                a <= 0xffff_ffff_ffff_ffff,
                b <= 0xffff_ffff_ffff_ffff,
        ;
        assert(c * d <= 0xffff_ffff_ffff_ffff * 0xffff_ffff_ffff_ffff) by (nonlinear_arith)
            requires
                c <= 0xffff_ffff_ffff_ffff,
                d <= 0xffff_ffff_ffff_ffff,
        ;
        a * b < c * d
    }
}

/// The rates of the first `upto` clusters of a window, up to the first
/// cluster without a call at a site of its haplotype.
pub open spec fn window_rates(binom: Seq<(usize, usize)>, upto: nat) -> Seq<Rate>
    decreases upto,
{
    if upto == 0 {
        Seq::empty()
    } else {
        let rest = window_rates(binom, (upto - 1) as nat);
        let stat = binom[upto - 1];
        if rest.len() < upto - 1 || stat.0 + stat.1 == 0 {
            rest
        } else {
            rest.push(Rate { errors: stat.1, total: (stat.0 + stat.1) as usize })
        }
    }
}

/// The rates of the first `upto` windows, one window after the other.
pub open spec fn flatten(per_window: Seq<Seq<Rate>>, upto: nat) -> Seq<Rate>
    decreases upto,
{
    if upto == 0 {
        Seq::empty()
    } else {
        flatten(per_window, (upto - 1) as nat) + per_window[upto - 1]
    }
}

/// The rate at the tenth part of the way through the rates in ascending
/// order, where equal rates keep their order; `None` without rates.
pub open spec fn percentile(rates: Seq<Rate>) -> Option<Rate> {
    if rates.len() == 0 {
        None
    } else {
        Some(rates[ranking(rates, rates.len())[(rates.len() / 10) as int] as int])
    }
}

/// The reads of window `w`: those of the sites from `w * block_len` up to,
/// and not including, `(w + 1) * block_len`. A window of no sites has no
/// reads.
pub open spec fn window_reads(frags: Seq<Frag>, w: u64, block_len: usize) -> Set<usize> {
    if block_len == 0 {
        Set::empty()
    } else {
        interval_reads(frags, (w * block_len) as usize, ((w + 1) * block_len - 1) as usize)
    }
}

/// `rates` are the rates of the clusters of `reads`, by way of the given
/// partition and block.
pub open spec fn window_with<F: Fn(usize, usize) -> i64>(
    frags: Seq<Frag>,
    reads: Set<usize>,
    k: nat,
    weigh: F,
    rates: Seq<Rate>,
    part: Seq<Set<usize>>,
    block: HapBlock,
) -> bool {
    &&& clustering_of(frags, reads, k, weigh, part)
    &&& block_of(frags, part, block)
    &&& rates == window_rates(binom_of(frags, part, block), k)
}

/// `rates` are the rates of the clusters of `reads`, each cluster against its
/// own haplotype.
pub open spec fn window_outcome<F: Fn(usize, usize) -> i64>(
    frags: Seq<Frag>,
    reads: Set<usize>,
    k: nat,
    weigh: F,
    rates: Seq<Rate>,
) -> bool {
    exists|part: Seq<Set<usize>>, block: HapBlock| #[trigger]
        window_with(frags, reads, k, weigh, rates, part, block)
}

/// `per_window` holds the rates of each sampled window.
pub open spec fn sampled<F: Fn(usize, usize) -> i64>(
    frags: Seq<Frag>,
    windows: Seq<u64>,
    block_len: usize,
    k: nat,
    weigh: F,
    per_window: Seq<Seq<Rate>>,
) -> bool {
    &&& per_window.len() == windows.len()
    &&& forall|t: int|
        0 <= t < windows.len() ==> window_outcome(
            frags,
            window_reads(frags, windows[t], block_len),
            k,
            weigh,
            #[trigger] per_window[t],
        )
}

/// Every one of the given windows can be clustered into `k` clusters.
pub open spec fn windows_clusterable(
    frags: Seq<Frag>,
    windows: Seq<u64>,
    block_len: usize,
    k: nat,
) -> bool {
    k >= 2 || forall|t: int|
        0 <= t < windows.len() ==> clusterable(
            frags,
            window_reads(frags, #[trigger] windows[t], block_len),
            k,
        )
}

/// `result` is the estimate from the given windows.
pub open spec fn estimate_of<F: Fn(usize, usize) -> i64>(
    frags: Seq<Frag>,
    windows: Seq<u64>,
    block_len: usize,
    k: nat,
    weigh: F,
    result: Option<Rate>,
) -> bool {
    exists|per_window: Seq<Seq<Rate>>|
        #[trigger] sampled(frags, windows, block_len, k, weigh, per_window) && result
            == percentile(flatten(per_window, per_window.len()))
}

/// The rates of the clusters of the given reads.
fn sample_window<F: Fn(usize, usize) -> i64>(
    all_reads: &FxHashSet<usize>,
    ploidy: usize,
    all_frags: &Vec<Frag>,
    weigh: &F,
) -> (rates: Vec<Rate>)
    requires
        frags_wf(all_frags@),
        calls_countable(all_frags@),
        forall|f: usize| all_reads@.contains(f) ==> f < all_frags.len(),
        clusterable(all_frags@, all_reads@, ploidy as nat),
        forall|n: usize, d: usize| call_requires(*weigh, (n, d)),
    ensures
        window_outcome(all_frags@, all_reads@, ploidy as nat, *weigh, rates@),
        forall|i: int| 0 <= i < rates.len() ==> (#[trigger] rates[i]).is_rate(),
{
    let part = cluster_reads(all_frags, all_reads, ploidy, weigh);
    let block = hap_block_from_partition(all_frags, &part);
    let (binom_vec, _freq_vec) = get_partition_stats(all_frags, &part, &block);
    let mut rates: Vec<Rate> = Vec::new();
    let mut c: usize = 0;
    let mut open = true;
    while open && c < binom_vec.len()
        invariant
            c <= binom_vec.len(),
            binom_vec.len() == ploidy,
            part.len() == ploidy,
            binom_vec@ == binom_of(all_frags@, sets_of(part@), block),
            block.blocks.len() == part.len(),
            calls_countable(all_frags@),
            forall|i: int| 0 <= i < rates.len() ==> (#[trigger] rates[i]).is_rate(),
            open ==> rates@ == window_rates(binom_vec@, c as nat) && rates.len() == c,
            !open ==> rates@ == window_rates(binom_vec@, binom_vec.len() as nat) && rates.len()
                < c,
        decreases binom_vec.len() - c,
    {
        let (good, bad) = binom_vec[c];
        proof {
            lemma_cluster_counts_bound(
                all_frags@,
                sets_of(part@)[c as int],
                block.blocks[c as int],
                all_frags.len() as nat,
                -1,
            );
            assert(binom_vec[c as int] == binom_of(all_frags@, sets_of(part@), block)[c as int]);
        }
        if good + bad == 0 {
            open = false;
            proof {
                lemma_window_closed(binom_vec@, (c + 1) as nat, binom_vec.len() as nat);
            }
        } else {
            rates.push(Rate { errors: bad, total: good + bad });
        }
        c += 1;
    }
    proof {
        assert(window_with(
            all_frags@,
            all_reads@,
            ploidy as nat,
            *weigh,
            rates@,
            sets_of(part@),
            block,
        ));
    }
    rates
}

/// After a cluster without calls no further rate is taken.
pub proof fn lemma_window_closed(binom: Seq<(usize, usize)>, at: nat, upto: nat)
    requires
        at <= upto,
        window_rates(binom, at).len() < at,
    ensures
        window_rates(binom, upto) == window_rates(binom, at),
    decreases upto,
{
    if at < upto {
        lemma_window_closed(binom, at, (upto - 1) as nat);
    }
}

/// The estimate from sampled windows: the reads of each window are clustered
/// and each cluster with calls gives its rate of calls that are not the
/// consensus, up to the first cluster without calls; the estimate is the rate
/// at the tenth part of the way through the rates in ascending order. Window
/// `w` holds the sites from `w * block_len` up to, and not including,
/// `(w + 1) * block_len`.
pub fn estimate_from_windows<F: Fn(usize, usize) -> i64>(
    windows: &Vec<u64>,
    ploidy: usize,
    all_frags: &Vec<Frag>,
    block_len: usize,
    weigh: &F,
) -> (r: Option<Rate>)
    requires
        frags_wf(all_frags@),
        calls_countable(all_frags@),
        windows_clusterable(all_frags@, windows@, block_len, ploidy as nat),
        forall|t: int|
            0 <= t < windows.len() ==> (#[trigger] windows[t]) < usize::MAX && (windows[t] + 1)
                * block_len <= usize::MAX,
        forall|n: usize, d: usize| call_requires(*weigh, (n, d)),
    ensures
        estimate_of(all_frags@, windows@, block_len, ploidy as nat, *weigh, r),
        r matches Some(rate) ==> rate.is_rate(),
{
    let mut epsilons: Vec<Rate> = Vec::new();
    let ghost mut per_window: Seq<Seq<Rate>> = Seq::empty();
    let mut t: usize = 0;
    while t < windows.len()
        invariant
            t <= windows.len(),
            frags_wf(all_frags@),
            calls_countable(all_frags@),
            windows_clusterable(all_frags@, windows@, block_len, ploidy as nat),
            forall|u: int|
                0 <= u < windows.len() ==> (#[trigger] windows[u]) < usize::MAX && (windows[u] + 1)
                    * block_len <= usize::MAX,
            forall|n: usize, d: usize| call_requires(*weigh, (n, d)),
            per_window.len() == t,
            forall|i: int| 0 <= i < epsilons.len() ==> (#[trigger] epsilons[i]).is_rate(),
            forall|u: int|
                0 <= u < t ==> window_outcome(
                    all_frags@,
                    window_reads(all_frags@, windows[u], block_len),
                    ploidy as nat,
                    *weigh,
                    #[trigger] per_window[u],
                ),
            epsilons@ == flatten(per_window, t as nat),
        decreases windows.len() - t,
    {
        let i = windows[t];
        assert((i + 1) * block_len <= usize::MAX);
        assert(i * block_len <= (i + 1) * block_len) by (nonlinear_arith)
            requires
                i >= 0,
                block_len >= 0,
        ;
        assert(block_len >= 1 ==> (i + 1) * block_len >= 1) by (nonlinear_arith)
            requires
                i >= 0,
        ;
        assert(i < usize::MAX);
        let all_reads = if block_len == 0 {
            set_new()
        } else {
            let start = (i as usize) * block_len;
            let end = (i as usize + 1) * block_len - 1;
            find_reads_in_interval(start, end, all_frags)
        };
        assert(all_reads@ =~= window_reads(all_frags@, i, block_len));
        assert(clusterable(
            all_frags@,
            window_reads(all_frags@, windows[t as int], block_len),
            ploidy as nat,
        ));
        let rates = sample_window(&all_reads, ploidy, all_frags, weigh);
        let ghost before = per_window;
        proof {
            per_window = per_window.push(rates@);
            assert forall|u: int| 0 <= u < t implies per_window[u] == before[u] by {}
            assert(flatten(per_window, t as nat) == flatten(before, t as nat)) by {
                lemma_flatten_prefix(before, per_window, t as nat);
            }
        }
        let mut c: usize = 0;
        let ghost head = epsilons@;
        while c < rates.len()
            invariant
                c <= rates.len(),
                forall|i: int| 0 <= i < rates.len() ==> (#[trigger] rates[i]).is_rate(),
                forall|i: int| 0 <= i < epsilons.len() ==> (#[trigger] epsilons[i]).is_rate(),
                epsilons@ == head + rates@.subrange(0, c as int),
            decreases rates.len() - c,
        {
            epsilons.push(rates[c]);
            assert(rates@.subrange(0, c + 1) == rates@.subrange(0, c as int).push(rates[c as int]));
            c += 1;
        }
        assert(rates@.subrange(0, rates.len() as int) == rates@);
        t += 1;
    }
    proof {
        assert(sampled(all_frags@, windows@, block_len, ploidy as nat, *weigh, per_window));
    }
    if epsilons.len() == 0 {
        return None;
    }
    let percentile_index = epsilons.len() / 10;
    let order = stable_order(&epsilons);
    Some(epsilons[order[percentile_index]])
}

/// The rates of the first windows depend on those windows alone.
pub proof fn lemma_flatten_prefix(a: Seq<Seq<Rate>>, b: Seq<Seq<Rate>>, upto: nat)
    requires
        upto <= a.len(),
        upto <= b.len(),
        forall|u: int| 0 <= u < upto ==> a[u] == b[u],
    ensures
        flatten(a, upto) == flatten(b, upto),
    decreases upto,
{
    if upto > 0 {
        lemma_flatten_prefix(a, b, (upto - 1) as nat);
    }
}

/// Estimates the error rate of the reads.
///
/// `num_tries` windows of `block_len` sites are drawn among the first
/// `num_iters` windows by a generator with a fixed seed, and the estimate is
/// taken from them as `estimate_from_windows` says. It is `None` where no
/// cluster of any window has a call. Fewer than two clusters are admitted
/// where no window has two reads that overlap.
pub fn estimate_epsilon<F: Fn(usize, usize) -> i64>(
    num_iters: usize,
    num_tries: usize,
    ploidy: usize,
    all_frags: &Vec<Frag>,
    block_len: usize,
    weigh: &F,
) -> (r: Option<Rate>)
    requires
        frags_wf(all_frags@),
        calls_countable(all_frags@),
        ploidy >= 2 || forall|w: u64|
            w < num_iters ==> clusterable(
                all_frags@,
                #[trigger] window_reads(all_frags@, w, block_len),
                ploidy as nat,
            ),
        num_tries > 0 ==> num_iters > 0,
        num_iters * block_len <= usize::MAX,
        forall|n: usize, d: usize| call_requires(*weigh, (n, d)),
    ensures
        estimate_of(
            all_frags@,
            sampled_windows(num_iters, num_tries),
            block_len,
            ploidy as nat,
            *weigh,
            r,
        ),
        r matches Some(rate) ==> rate.is_rate(),
{
    let windows = pick_windows(num_iters, num_tries);
    proof {
        assert forall|t: int| 0 <= t < windows.len() implies (#[trigger] windows[t]) < usize::MAX
            && (windows[t] + 1) * block_len <= usize::MAX by {
            let w = windows[t];
            assert((w + 1) * block_len <= num_iters * block_len) by (nonlinear_arith)
                requires
                    w + 1 <= num_iters,
                    block_len >= 0,
            ;
        }
    }
    estimate_from_windows(&windows, ploidy, all_frags, block_len, weigh)
}

} // verus!
