//! Haplotype blocks: for each haplotype and site, how many reads of the
//! haplotype's cluster call which allele.

use crate::frag::frags_wf;
use crate::frag::Frag;
use crate::fx::map_get;
use crate::fx::map_insert;
use crate::fx::map_keys;
use crate::fx::map_new;
use crate::fx::set_contains;
use crate::fx::set_insert;
use crate::fx::set_new;
use crate::partition::sets_of;
use fxhash::FxHashMap;
use fxhash::FxHashSet;
use vstd::prelude::*;

verus! {

/// The number of reads that call `allele`.
#[derive(Clone, Copy)]
pub struct AlleleCount {
    pub allele: usize,
    pub count: usize,
}

/// The histogram of the calls at one site.
pub struct Site {
    pub position: usize,
    pub alleles: Vec<AlleleCount>,
}

/// The histograms of one haplotype. `index` binds each site that has a
/// histogram to its place in `sites`.
pub struct Haplotype {
    pub sites: Vec<Site>,
    pub index: FxHashMap<usize, usize>,
}

/// One haplotype for each cluster of a partition.
pub struct HapBlock {
    pub blocks: Vec<Haplotype>,
}

/// The number of calls of `allele` that a histogram records.
pub open spec fn tally(hist: Seq<AlleleCount>, allele: usize) -> nat
    decreases hist.len(),
{
    if hist.len() == 0 {
        0
    } else {
        tally(hist.drop_last(), allele) + if hist.last().allele == allele {
            hist.last().count as nat
        } else {
            0nat
        }
    }
}

/// The number of calls that a histogram records.
pub open spec fn total(hist: Seq<AlleleCount>) -> nat
    decreases hist.len(),
{
    if hist.len() == 0 {
        0
    } else {
        total(hist.drop_last()) + hist.last().count as nat
    }
}

/// A histogram has an entry, no allele has two, and no entry counts nothing.
pub open spec fn hist_wf(hist: Seq<AlleleCount>) -> bool {
    &&& hist.len() > 0
    &&& forall|i: int, j: int| 0 <= i < j < hist.len() ==> hist[i].allele != hist[j].allele
    &&& forall|i: int| 0 <= i < hist.len() ==> (#[trigger] hist[i]).count > 0
}

/// `a` is the consensus of the histogram: an allele with the most calls, and
/// of several the lowest.
pub open spec fn is_call(hist: Seq<AlleleCount>, a: usize) -> bool {
    &&& tally(hist, a) > 0
    &&& forall|b: usize|
        tally(hist, b) < tally(hist, a) || (#[trigger] tally(hist, b) == tally(hist, a) && a <= b)
}

/// The consensus of a histogram.
pub open spec fn call_of(hist: Seq<AlleleCount>) -> usize {
    choose|a: usize| is_call(hist, a)
}

/// A histogram has at most one consensus.
pub proof fn lemma_call_unique(hist: Seq<AlleleCount>, a: usize, b: usize)
    requires
        is_call(hist, a),
        is_call(hist, b),
    ensures
        a == b,
{
    assert(tally(hist, b) < tally(hist, a) || (tally(hist, b) == tally(hist, a) && a <= b));
    assert(tally(hist, a) < tally(hist, b) || (tally(hist, a) == tally(hist, b) && b <= a));
}

/// An allele without an entry has no calls.
pub proof fn lemma_tally_absent(hist: Seq<AlleleCount>, b: usize)
    requires
        forall|j: int| 0 <= j < hist.len() ==> (#[trigger] hist[j]).allele != b,
    ensures
        tally(hist, b) == 0,
    decreases hist.len(),
{
    if hist.len() > 0 {
        assert(hist.last() == hist[hist.len() - 1]);
        assert forall|j: int| 0 <= j < hist.drop_last().len() implies (
        #[trigger] hist.drop_last()[j]).allele != b by {
            assert(hist.drop_last()[j] == hist[j]);
        }
        lemma_tally_absent(hist.drop_last(), b);
    }
}

/// Where no allele has two entries, an entry's count is the number of calls of
/// its allele.
pub proof fn lemma_tally_entry(hist: Seq<AlleleCount>, j: int)
    requires
        forall|x: int, y: int| 0 <= x < y < hist.len() ==> hist[x].allele != hist[y].allele,
        0 <= j < hist.len(),
    ensures
        tally(hist, hist[j].allele) == hist[j].count,
    decreases hist.len(),
{
    let rest = hist.drop_last();
    assert(hist.last() == hist[hist.len() - 1]);
    assert forall|x: int| 0 <= x < rest.len() implies #[trigger] rest[x] == hist[x] by {}
    if j == hist.len() - 1 {
        assert forall|x: int| 0 <= x < rest.len() implies (#[trigger] rest[x]).allele
            != hist[j].allele by {
            assert(rest[x] == hist[x]);
        }
        lemma_tally_absent(rest, hist[j].allele);
    } else {
        assert forall|x: int, y: int| 0 <= x < y < rest.len() implies rest[x].allele
            != rest[y].allele by {
            assert(rest[x] == hist[x] && rest[y] == hist[y]);
        }
        assert(rest[j] == hist[j]);
        lemma_tally_entry(rest, j);
    }
}

/// An allele with calls has an entry.
pub proof fn lemma_tally_present(hist: Seq<AlleleCount>, b: usize)
    requires
        tally(hist, b) > 0,
    ensures
        exists|j: int| 0 <= j < hist.len() && (#[trigger] hist[j]).allele == b,
{
    if forall|j: int| 0 <= j < hist.len() ==> (#[trigger] hist[j]).allele != b {
        lemma_tally_absent(hist, b);
    }
}

/// The calls of a histogram after one more entry.
pub proof fn lemma_tally_push(hist: Seq<AlleleCount>, e: AlleleCount, b: usize)
    ensures
        tally(hist.push(e), b) == tally(hist, b) + if e.allele == b {
            e.count as nat
        } else {
            0nat
        },
{
    assert(hist.push(e).drop_last() == hist);
    assert(hist.push(e).last() == e);
}

/// The calls of a histogram after the count of one entry was raised by one.
pub proof fn lemma_tally_bump(hist: Seq<AlleleCount>, k: int, b: usize)
    requires
        0 <= k < hist.len(),
        hist[k].count < usize::MAX,
    ensures
        tally(
            hist.update(
                k,
                AlleleCount { allele: hist[k].allele, count: (hist[k].count + 1) as usize },
            ),
            b,
        ) == tally(hist, b) + if hist[k].allele == b {
            1nat
        } else {
            0nat
        },
    decreases hist.len(),
{
    let e = AlleleCount { allele: hist[k].allele, count: (hist[k].count + 1) as usize };
    let after = hist.update(k, e);
    if k == hist.len() - 1 {
        assert(after.drop_last() == hist.drop_last());
        assert(after.last() == e);
    } else {
        assert(after.drop_last() == hist.drop_last().update(k, e));
        assert(after.last() == hist.last());
        assert(hist.drop_last()[k] == hist[k]);
        lemma_tally_bump(hist.drop_last(), k, b);
    }
}

/// The consensus of a histogram: the allele with the most calls, and of
/// several the lowest.
pub fn consensus(hist: &Vec<AlleleCount>) -> (a: usize)
    requires
        hist_wf(hist@),
    ensures
        is_call(hist@, a),
        a == call_of(hist@),
{
    let mut best: usize = 0;
    let mut i: usize = 1;
    while i < hist.len()
        invariant
            1 <= i <= hist.len(),
            best < i,
            forall|j: int|
                0 <= j < i ==> hist[j].count < hist[best as int].count || (hist[j].count
                    == hist[best as int].count && hist[best as int].allele <= hist[j].allele),
        decreases hist.len() - i,
    {
        let e = hist[i];
        let b = hist[best];
        if e.count > b.count || (e.count == b.count && e.allele < b.allele) {
            best = i;
        }
        i += 1;
    }
    let a = hist[best].allele;
    proof {
        lemma_tally_entry(hist@, best as int);
        assert forall|b: usize|
            tally(hist@, b) < tally(hist@, a) || (#[trigger] tally(hist@, b) == tally(hist@, a)
                && a <= b) by {
            if exists|j: int| 0 <= j < hist.len() && (#[trigger] hist[j]).allele == b {
                let j = choose|j: int| 0 <= j < hist.len() && (#[trigger] hist[j]).allele == b;
                lemma_tally_entry(hist@, j);
            } else {
                lemma_tally_absent(hist@, b);
            }
        }
        lemma_call_unique(hist@, a, call_of(hist@));
    }
    a
}

/// Whether the histogram is well formed.
pub fn check_hist(hist: &Vec<AlleleCount>) -> (b: bool)
    ensures
        b == hist_wf(hist@),
{
    if hist.len() == 0 {
        return false;
    }
    let mut seen = set_new();
    let mut i: usize = 0;
    while i < hist.len()
        invariant
            i <= hist.len(),
            forall|a: usize|
                seen@.contains(a) <==> exists|j: int| 0 <= j < i && (#[trigger] hist[j]).allele == a,
            forall|x: int, y: int| 0 <= x < y < i ==> hist[x].allele != hist[y].allele,
            forall|j: int| 0 <= j < i ==> (#[trigger] hist[j]).count > 0,
        decreases hist.len() - i,
    {
        let e = hist[i];
        let ghost before = seen@;
        if e.count == 0 {
            return false;
        }
        if !set_insert(&mut seen, e.allele) {
            proof {
                let j = choose|j: int| 0 <= j < i && (#[trigger] hist[j]).allele == e.allele;
                assert(hist[j].allele == hist[i as int].allele);
            }
            return false;
        }
        proof {
            assert forall|a: usize|
                seen@.contains(a) <==> exists|j: int|
                    0 <= j < i + 1 && (#[trigger] hist[j]).allele == a by {
                if a == e.allele {
                    assert(hist[i as int].allele == a);
                } else if before.contains(a) {
                    let j = choose|j: int| 0 <= j < i && (#[trigger] hist[j]).allele == a;
                    assert(0 <= j < i + 1 && hist[j].allele == a);
                }
            }
            assert forall|x: int, y: int| 0 <= x < y < i + 1 implies hist[x].allele
                != hist[y].allele by {
                if y == i && hist[x].allele == e.allele {
                    assert(before.contains(e.allele));
                }
            }
        }
        i += 1;
    }
    true
}

/// Counts one more call of allele `a`.
fn bump(hist: &mut Vec<AlleleCount>, a: usize)
    requires
        hist_wf(old(hist)@),
        tally(old(hist)@, a) < usize::MAX,
    ensures
        hist_wf(final(hist)@),
        forall|b: usize|
            #[trigger] tally(final(hist)@, b) == tally(old(hist)@, b) + if b == a {
                1nat
            } else {
                0nat
            },
{
    let ghost start = hist@;
    let mut k: usize = 0;
    while k < hist.len()
        invariant
            k <= hist.len(),
            hist@ == start,
            start == old(hist)@,
            hist_wf(start),
            tally(start, a) < usize::MAX,
            forall|j: int| 0 <= j < k ==> (#[trigger] hist[j]).allele != a,
        decreases hist.len() - k,
    {
        if hist[k].allele == a {
            let c = hist[k].count;
            proof {
                lemma_tally_entry(start, k as int);
            }
            hist[k] = AlleleCount { allele: a, count: c + 1 };
            proof {
                assert(hist@ == start.update(
                    k as int,
                    AlleleCount { allele: start[k as int].allele, count: (start[k as int].count + 1) as usize },
                ));
                assert forall|b: usize|
                    #[trigger] tally(hist@, b) == tally(start, b) + if b == a {
                        1nat
                    } else {
                        0nat
                    } by {
                    lemma_tally_bump(start, k as int, b);
                }
                assert forall|x: int, y: int| 0 <= x < y < hist.len() implies hist[x].allele
                    != hist[y].allele by {
                    assert(hist[x].allele == start[x].allele);
                    assert(hist[y].allele == start[y].allele);
                }
            }
            return ;
        }
        k += 1;
    }
    hist.push(AlleleCount { allele: a, count: 1 });
    proof {
        assert forall|b: usize|
            #[trigger] tally(hist@, b) == tally(start, b) + if b == a {
                1nat
            } else {
                0nat
            } by {
            lemma_tally_push(start, AlleleCount { allele: a, count: 1 }, b);
        }
    }
}

impl Haplotype {
    /// Whether the haplotype has a histogram at site `p`.
    pub open spec fn has_site(&self, p: usize) -> bool {
        self.index@.contains_key(p)
    }

    /// The histogram at site `p`, where there is one.
    pub open spec fn hist(&self, p: usize) -> Seq<AlleleCount> {
        self.sites[self.index@[p] as int].alleles@
    }

    /// The number of calls of allele `a` at site `p`.
    pub open spec fn support(&self, p: usize, a: usize) -> nat {
        if self.has_site(p) {
            tally(self.hist(p), a)
        } else {
            0
        }
    }

    /// The consensus at site `p`, where the haplotype has a histogram.
    pub open spec fn call(&self, p: usize) -> usize {
        call_of(self.hist(p))
    }

    /// The index binds exactly the sites that have a histogram, each to its
    /// place, and every histogram is well formed.
    pub open spec fn wf(&self) -> bool {
        &&& forall|i: int|
            0 <= i < self.sites.len() ==> self.index@.contains_key(
                (#[trigger] self.sites[i]).position,
            ) && self.index@[self.sites[i].position] == i
        &&& forall|p: usize|
            self.index@.contains_key(p) ==> (#[trigger] self.index@[p]) < self.sites.len()
                && self.sites[self.index@[p] as int].position == p
        &&& forall|i: int| 0 <= i < self.sites.len() ==> hist_wf((#[trigger] self.sites[i]).alleles@)
    }

    /// Whether the haplotype is well formed.
    pub fn is_wf(&self) -> (b: bool)
        ensures
            b == self.wf(),
    {
        let mut i: usize = 0;
        while i < self.sites.len()
            invariant
                i <= self.sites.len(),
                forall|j: int|
                    0 <= j < i ==> self.index@.contains_key((#[trigger] self.sites[j]).position)
                        && self.index@[self.sites[j].position] == j,
                forall|j: int| 0 <= j < i ==> hist_wf((#[trigger] self.sites[j]).alleles@),
            decreases self.sites.len() - i,
        {
            let site = &self.sites[i];
            match map_get(&self.index, site.position) {
                Some(at) => {
                    if *at != i {
                        return false;
                    }
                },
                None => {
                    return false;
                },
            }
            if !check_hist(&site.alleles) {
                return false;
            }
            i += 1;
        }
        let keys = map_keys(&self.index);
        let mut k: usize = 0;
        while k < keys.len()
            invariant
                k <= keys.len(),
                forall|p: usize| keys@.contains(p) <==> self.index@.contains_key(p),
                forall|j: int|
                    0 <= j < k ==> self.index@[#[trigger] keys[j]] < self.sites.len()
                        && self.sites[self.index@[keys[j]] as int].position == keys[j],
            decreases keys.len() - k,
        {
            let p = keys[k];
            assert(keys@.contains(p));
            match map_get(&self.index, p) {
                Some(at) => {
                    if *at >= self.sites.len() {
                        return false;
                    }
                    if self.sites[*at].position != p {
                        return false;
                    }
                },
                None => {},
            }
            k += 1;
        }
        proof {
            assert forall|p: usize| self.index@.contains_key(p) implies (
            #[trigger] self.index@[p]) < self.sites.len() && self.sites[self.index@[p] as int].position
                == p by {
                assert(keys@.contains(p));
                let j = choose|j: int| 0 <= j < keys.len() && keys[j] == p;
                assert(self.index@[keys[j]] < self.sites.len());
            }
        }
        true
    }

    /// A haplotype without histograms.
    pub fn new() -> (hap: Haplotype)
        ensures
            hap.wf(),
            forall|p: usize| !hap.has_site(p),
    {
        Haplotype { sites: Vec::new(), index: map_new() }
    }

    /// Counts one more call of allele `a` at site `p`.
    pub fn record(&mut self, p: usize, a: usize)
        requires
            old(self).wf(),
            old(self).support(p, a) < usize::MAX,
        ensures
            final(self).wf(),
            forall|q: usize| final(self).has_site(q) <==> old(self).has_site(q) || q == p,
            forall|q: usize, b: usize|
                #[trigger] final(self).support(q, b) == old(self).support(q, b) + if q == p && b
                    == a {
                    1nat
                } else {
                    0nat
                },
    {
        let ghost before = *self;
        match map_get(&self.index, p) {
            Some(found) => {
                let at = *found;
                bump(&mut self.sites[at].alleles, a);
                proof {
                    assert(self.index@ == before.index@);
                    assert(self.sites.len() == before.sites.len());
                    assert forall|i: int| 0 <= i < self.sites.len() implies (
                    #[trigger] self.sites[i]).position == before.sites[i].position && (i != at
                        ==> self.sites[i].alleles@ == before.sites[i].alleles@) by {}
                    assert forall|q: usize, b: usize|
                        #[trigger] self.support(q, b) == before.support(q, b) + if q == p && b
                            == a {
                            1nat
                        } else {
                            0nat
                        } by {
                        if self.has_site(q) && q != p {
                            assert(before.sites[before.index@[q] as int].position == q);
                            assert(before.index@[q] != at);
                        }
                    }
                }
            },
            None => {
                let mut alleles: Vec<AlleleCount> = Vec::new();
                alleles.push(AlleleCount { allele: a, count: 1 });
                let at = self.sites.len();
                self.sites.push(Site { position: p, alleles });
                map_insert(&mut self.index, p, at);
                proof {
                    let entry = AlleleCount { allele: a, count: 1 };
                    assert(self.sites[at as int].alleles@ == Seq::<AlleleCount>::empty().push(
                        entry,
                    ));
                    assert forall|i: int| 0 <= i < before.sites.len() implies (
                    #[trigger] self.sites[i]) == before.sites[i] by {}
                    assert forall|i: int| 0 <= i < self.sites.len() implies self.index@.contains_key(
                        (#[trigger] self.sites[i]).position,
                    ) && self.index@[self.sites[i].position] == i by {
                        if i < at {
                            assert(before.index@.contains_key(before.sites[i].position));
                        }
                    }
                    assert forall|q: usize, b: usize|
                        #[trigger] self.support(q, b) == before.support(q, b) + if q == p && b
                            == a {
                            1nat
                        } else {
                            0nat
                        } by {
                        if q == p {
                            lemma_tally_push(Seq::<AlleleCount>::empty(), entry, b);
                        }
                    }
                }
            },
        }
    }

    /// The consensus at site `p`, if the haplotype has a histogram there.
    pub fn call_at(&self, p: usize) -> (r: Option<usize>)
        requires
            self.wf(),
        ensures
            r == (if self.has_site(p) {
                Some(self.call(p))
            } else {
                None
            }),
            r matches Some(a) ==> is_call(self.hist(p), a),
    {
        match map_get(&self.index, p) {
            Some(at) => Some(consensus(&self.sites[*at].alleles)),
            None => None,
        }
    }

    /// The number of calls of allele `a` at site `p`.
    pub fn support_at(&self, p: usize, a: usize) -> (r: usize)
        requires
            self.wf(),
        ensures
            r == self.support(p, a),
    {
        match map_get(&self.index, p) {
            Some(at) => {
                let hist = &self.sites[*at].alleles;
                let mut k: usize = 0;
                while k < hist.len()
                    invariant
                        k <= hist.len(),
                        hist_wf(hist@),
                        self.has_site(p),
                        hist@ == self.hist(p),
                        forall|j: int| 0 <= j < k ==> (#[trigger] hist[j]).allele != a,
                    decreases hist.len() - k,
                {
                    if hist[k].allele == a {
                        proof {
                            lemma_tally_entry(hist@, k as int);
                        }
                        return hist[k].count;
                    }
                    k += 1;
                }
                proof {
                    lemma_tally_absent(hist@, a);
                }
                0
            },
            None => 0,
        }
    }
}

/// Among the first `upto` fragments, the number in `cluster` that call allele
/// `a` at site `p`.
pub open spec fn cluster_support(
    frags: Seq<Frag>,
    cluster: Set<usize>,
    p: usize,
    a: usize,
    upto: nat,
) -> nat
    decreases upto,
{
    if upto == 0 {
        0
    } else {
        cluster_support(frags, cluster, p, a, (upto - 1) as nat) + if cluster.contains(
            (upto - 1) as usize,
        ) && frags[upto - 1].covers(p) && frags[upto - 1].allele(p) == a {
            1nat
        } else {
            0nat
        }
    }
}

/// Among the first `upto` fragments, the number in `cluster` that cover site
/// `p`.
pub open spec fn cluster_coverage(frags: Seq<Frag>, cluster: Set<usize>, p: usize, upto: nat) -> nat
    decreases upto,
{
    if upto == 0 {
        0
    } else {
        cluster_coverage(frags, cluster, p, (upto - 1) as nat) + if cluster.contains(
            (upto - 1) as usize,
        ) && frags[upto - 1].covers(p) {
            1nat
        } else {
            0nat
        }
    }
}

/// No more fragments call an allele at a site than cover the site, and no
/// more cover it than there are.
pub proof fn lemma_support_bound(
    frags: Seq<Frag>,
    cluster: Set<usize>,
    p: usize,
    a: usize,
    upto: nat,
)
    ensures
        cluster_support(frags, cluster, p, a, upto) <= cluster_coverage(frags, cluster, p, upto)
            <= upto,
    decreases upto,
{
    if upto > 0 {
        lemma_support_bound(frags, cluster, p, a, (upto - 1) as nat);
    }
}

/// `hap` is the haplotype of `cluster`: at every site it counts, for every
/// allele, the reads of the cluster that call it there.
pub open spec fn haplotype_of(frags: Seq<Frag>, cluster: Set<usize>, hap: Haplotype) -> bool {
    &&& hap.wf()
    &&& forall|p: usize, a: usize|
        #[trigger] hap.support(p, a) == cluster_support(frags, cluster, p, a, frags.len())
    &&& forall|p: usize|
        #[trigger] hap.has_site(p) <==> cluster_coverage(frags, cluster, p, frags.len()) > 0
}

/// The haplotype of one cluster.
pub fn cluster_haplotype(frags: &Vec<Frag>, cluster: &FxHashSet<usize>) -> (hap: Haplotype)
    requires
        frags_wf(frags@),
    ensures
        haplotype_of(frags@, cluster@, hap),
{
    let mut hap = Haplotype::new();
    let mut i: usize = 0;
    while i < frags.len()
        invariant
            i <= frags.len(),
            frags_wf(frags@),
            hap.wf(),
            forall|p: usize, a: usize|
                #[trigger] hap.support(p, a) == cluster_support(frags@, cluster@, p, a, i as nat),
            forall|p: usize|
                #[trigger] hap.has_site(p) <==> cluster_coverage(frags@, cluster@, p, i as nat) > 0,
        decreases frags.len() - i,
    {
        if set_contains(cluster, i) {
            let frag = &frags[i];
            let mut j: usize = 0;
            while j < frag.positions.len()
                invariant
                    j <= frag.positions.len(),
                    i < frags.len(),
                    *frag == frags[i as int],
                    frag.wf(),
                    hap.wf(),
                    forall|p: usize, a: usize|
                        #[trigger] hap.support(p, a) == cluster_support(
                            frags@,
                            cluster@,
                            p,
                            a,
                            i as nat,
                        ) + if frag.positions@.subrange(0, j as int).contains(p) && frag.allele(p)
                            == a {
                            1nat
                        } else {
                            0nat
                        },
                    forall|p: usize|
                        #[trigger] hap.has_site(p) <==> cluster_coverage(
                            frags@,
                            cluster@,
                            p,
                            i as nat,
                        ) > 0 || frag.positions@.subrange(0, j as int).contains(p),
                decreases frag.positions.len() - j,
            {
                let p = frag.positions[j];
                let ghost seen = frag.positions@.subrange(0, j as int);
                let ghost next = frag.positions@.subrange(0, j + 1);
                proof {
                    assert(frag.positions@.contains(p));
                    assert(next == seen.push(p));
                    if seen.contains(p) {
                        let x = choose|x: int| 0 <= x < seen.len() && seen[x] == p;
                        assert(frag.positions[x] == p);
                    }
                    assert forall|q: usize| next.contains(q) <==> seen.contains(q) || q == p by {
                        if next.contains(q) {
                            let x = choose|x: int| 0 <= x < next.len() && next[x] == q;
                            if x < j {
                                assert(seen[x] == q);
                            }
                        }
                        if seen.contains(q) {
                            let x = choose|x: int| 0 <= x < seen.len() && seen[x] == q;
                            assert(next[x] == q);
                        }
                        if q == p {
                            assert(next[j as int] == q);
                        }
                    }
                }
                match frag.allele_at(p) {
                    Some(a) => {
                        proof {
                            lemma_support_bound(frags@, cluster@, p, a, i as nat);
                        }
                        hap.record(p, a);
                    },
                    None => {},
                }
                j += 1;
            }
            proof {
                assert(frag.positions@.subrange(0, j as int) == frag.positions@);
            }
        }
        i += 1;
    }
    hap
}

impl HapBlock {
    /// The number of haplotypes.
    pub open spec fn ploidy(&self) -> nat {
        self.blocks.len() as nat
    }

    /// Every haplotype is well formed.
    pub open spec fn wf(&self) -> bool {
        forall|h: int| 0 <= h < self.blocks.len() ==> (#[trigger] self.blocks[h]).wf()
    }

    /// Whether the block is well formed.
    pub fn is_wf(&self) -> (b: bool)
        ensures
            b == self.wf(),
    {
        let mut h: usize = 0;
        while h < self.blocks.len()
            invariant
                h <= self.blocks.len(),
                forall|c: int| 0 <= c < h ==> (#[trigger] self.blocks[c]).wf(),
            decreases self.blocks.len() - h,
        {
            if !self.blocks[h].is_wf() {
                return false;
            }
            h += 1;
        }
        true
    }
}

/// `block` is the block of the partition: one haplotype for each cluster.
pub open spec fn block_of(frags: Seq<Frag>, partition: Seq<Set<usize>>, block: HapBlock) -> bool {
    &&& block.blocks.len() == partition.len()
    &&& forall|h: int|
        0 <= h < partition.len() ==> haplotype_of(frags, partition[h], #[trigger] block.blocks[h])
}

/// The haplotype block of a partition: for each cluster, each site and each
/// allele the number of reads of the cluster that call the allele at the site.
pub fn hap_block_from_partition(frags: &Vec<Frag>, part: &Vec<FxHashSet<usize>>) -> (block:
    HapBlock)
    requires
        frags_wf(frags@),
    ensures
        block_of(frags@, sets_of(part@), block),
        block.wf(),
{
    let mut blocks: Vec<Haplotype> = Vec::new();
    let mut h: usize = 0;
    while h < part.len()
        invariant
            h <= part.len(),
            frags_wf(frags@),
            blocks.len() == h,
            forall|c: int|
                0 <= c < h ==> haplotype_of(frags@, sets_of(part@)[c], #[trigger] blocks[c]),
        decreases part.len() - h,
    {
        let hap = cluster_haplotype(frags, &part[h]);
        blocks.push(hap);
        h += 1;
    }
    HapBlock { blocks }
}

/// Among the first `n` sites of the read, the number at which the haplotype
/// has a histogram whose consensus is the read's allele.
pub open spec fn hits(r: Frag, hap: Haplotype, n: nat) -> nat
    decreases n,
{
    if n == 0 {
        0
    } else {
        let p = r.positions[n - 1];
        hits(r, hap, (n - 1) as nat) + if hap.has_site(p) && hap.call(p) == r.allele(p) {
            1nat
        } else {
            0nat
        }
    }
}

/// Among the first `n` sites of the read, the number at which the haplotype
/// has a histogram whose consensus is another allele than the read's.
pub open spec fn misses(r: Frag, hap: Haplotype, n: nat) -> nat
    decreases n,
{
    if n == 0 {
        0
    } else {
        let p = r.positions[n - 1];
        misses(r, hap, (n - 1) as nat) + if hap.has_site(p) && hap.call(p) != r.allele(p) {
            1nat
        } else {
            0nat
        }
    }
}

/// The two counts of a read against a haplotype are together no more than the
/// read has sites.
pub proof fn lemma_hits_bound(r: Frag, hap: Haplotype, n: nat)
    ensures
        hits(r, hap, n) + misses(r, hap, n) <= n,
    decreases n,
{
    if n > 0 {
        lemma_hits_bound(r, hap, (n - 1) as nat);
    }
}

/// Over the sites of the read at which the haplotype has a histogram: the
/// number at which the read calls the consensus, and the number at which it
/// calls another allele.
pub fn distance_read_haplo(r: &Frag, hap: &Haplotype) -> (d: (usize, usize))
    requires
        r.wf(),
        hap.wf(),
    ensures
        d.0 == hits(*r, *hap, r.positions.len() as nat),
        d.1 == misses(*r, *hap, r.positions.len() as nat),
        d.0 + d.1 <= r.positions.len(),
{
    let mut same: usize = 0;
    let mut diff: usize = 0;
    let mut i: usize = 0;
    while i < r.positions.len()
        invariant
            i <= r.positions.len(),
            r.wf(),
            hap.wf(),
            same == hits(*r, *hap, i as nat),
            diff == misses(*r, *hap, i as nat),
            same + diff <= i,
        decreases r.positions.len() - i,
    {
        let p = r.positions[i];
        assert(r.positions@.contains(p));
        match (hap.call_at(p), r.allele_at(p)) {
            (Some(c), Some(a)) => {
                if a == c {
                    same += 1;
                } else {
                    diff += 1;
                }
            },
            _ => {},
        }
        i += 1;
    }
    (same, diff)
}

} // verus!
