//! Fragments: the allele calls of one read at variant sites.

use crate::fx::map_get;
use crate::fx::map_insert;
use crate::fx::map_keys;
use crate::fx::set_contains;
use crate::fx::map_new;
use crate::fx::set_insert;
use crate::fx::set_new;
use fxhash::FxHashMap;
use vstd::prelude::*;

verus! {

/// One read. `positions` lists the variant sites at which the read has a call,
/// each once; `seq_dict` binds each of them to the allele called there.
pub struct Frag {
    pub first_position: usize,
    pub last_position: usize,
    pub positions: Vec<usize>,
    pub seq_dict: FxHashMap<usize, usize>,
}

impl Frag {
    /// Whether the read has a call at site `p`.
    pub open spec fn covers(&self, p: usize) -> bool {
        self.seq_dict@.contains_key(p)
    }

    /// The allele called at site `p`, where the read covers it.
    pub open spec fn allele(&self, p: usize) -> usize {
        self.seq_dict@[p]
    }

    /// The sites listed are distinct, they are exactly the sites with a call,
    /// and all lie between `first_position` and `last_position`.
    pub open spec fn wf(&self) -> bool {
        &&& self.first_position <= self.last_position
        &&& self.positions@.no_duplicates()
        &&& forall|p: usize| self.seq_dict@.contains_key(p) <==> self.positions@.contains(p)
        &&& forall|i: int|
            0 <= i < self.positions.len() ==> self.first_position <= #[trigger] self.positions[i]
                <= self.last_position
    }

    /// A fragment spanning `first_position..=last_position` with the given
    /// `(site, allele)` calls; `None` where a site repeats or lies outside the
    /// span, or the span is empty.
    pub fn new(first_position: usize, last_position: usize, calls: &Vec<(usize, usize)>) -> (r:
        Option<Frag>)
        ensures
            r.is_some() <==> calls_fit(first_position, last_position, calls@),
            r matches Some(f) ==> {
                &&& f.wf()
                &&& f.first_position == first_position
                &&& f.last_position == last_position
                &&& f.positions@ == sites_of(calls@)
                &&& forall|i: int|
                    0 <= i < calls.len() ==> f.covers(#[trigger] calls[i].0) && f.allele(
                        calls[i].0,
                    ) == calls[i].1
            },
    {
        if first_position > last_position {
            return None;
        }
        let mut positions: Vec<usize> = Vec::new();
        let mut seq_dict = map_new();
        let mut i: usize = 0;
        while i < calls.len()
            invariant
                i <= calls.len(),
                first_position <= last_position,
                positions@ == sites_of(calls@.take(i as int)),
                calls_fit(first_position, last_position, calls@.take(i as int)),
                forall|p: usize| seq_dict@.contains_key(p) <==> positions@.contains(p),
                forall|j: int|
                    0 <= j < i ==> seq_dict@.contains_key(#[trigger] calls[j].0)
                        && seq_dict@[calls[j].0] == calls[j].1,
            decreases calls.len() - i,
        {
            let (p, a) = calls[i];
            if p < first_position || p > last_position {
                assert(calls@[i as int].0 == p);
                return None;
            }
            if map_get(&seq_dict, p).is_some() {
                proof {
                    assert(positions@.contains(p));
                    let j = choose|j: int| 0 <= j < positions.len() && positions[j] == p;
                    assert(calls@.take(i as int)[j] == calls[j]);
                    assert(calls[j].0 == p && calls[i as int].0 == p);
                }
                return None;
            }
            proof {
                let ghost before = calls@.take(i as int);
                let ghost after = calls@.take(i + 1);
                assert(after == before.push(calls[i as int]));
                assert(sites_of(after) == sites_of(before).push(p));
                assert forall|x: int, y: int| 0 <= x < y < after.len() implies after[x].0
                    != after[y].0 by {
                    if y == i {
                        assert(before[x] == calls[x]);
                        assert(positions@[x] == before[x].0);
                        assert(positions@.contains(before[x].0));
                    } else {
                        assert(before[x].0 != before[y].0);
                    }
                }
            }
            let ghost old_dict = seq_dict@;
            let ghost prev = positions@;
            map_insert(&mut seq_dict, p, a);
            positions.push(p);
            proof {
                assert forall|q: usize| seq_dict@.contains_key(q) <==> positions@.contains(
                    q,
                ) by {
                    assert(positions@ == prev.push(p));
                    assert(old_dict.contains_key(q) <==> prev.contains(q));
                    if q == p {
                        assert(positions@[positions.len() - 1] == p);
                    } else {
                        if prev.contains(q) {
                            let j = choose|j: int| 0 <= j < prev.len() && prev[j] == q;
                            assert(positions@[j] == q);
                        }
                        if positions@.contains(q) {
                            let j = choose|j: int| 0 <= j < positions.len() && positions[j] == q;
                            assert(prev[j] == q);
                        }
                    }
                }
            }
            i += 1;
        }
        assert(calls@.take(calls.len() as int) == calls@);
        let f = Frag { first_position, last_position, positions, seq_dict };
        proof {
            assert forall|x: int, y: int|
                0 <= x < f.positions.len() && 0 <= y < f.positions.len() && x != y implies f.positions[x]
                != f.positions[y] by {
                if x < y {
                    assert(calls[x].0 != calls[y].0);
                } else {
                    assert(calls[y].0 != calls[x].0);
                }
            }
            assert forall|j: int| 0 <= j < f.positions.len() implies first_position
                <= #[trigger] f.positions[j] <= last_position by {
                assert(f.positions[j] == calls[j].0);
            }
        }
        Some(f)
    }

    /// Whether the fragment is well formed.
    pub fn is_wf(&self) -> (b: bool)
        ensures
            b == self.wf(),
    {
        if self.first_position > self.last_position {
            return false;
        }
        let mut seen = set_new();
        let mut i: usize = 0;
        while i < self.positions.len()
            invariant
                i <= self.positions.len(),
                self.first_position <= self.last_position,
                forall|p: usize|
                    seen@.contains(p) <==> exists|j: int|
                        0 <= j < i && #[trigger] self.positions[j] == p,
                forall|j: int, k: int| 0 <= j < k < i ==> self.positions[j] != self.positions[k],
                forall|j: int|
                    0 <= j < i ==> self.first_position <= #[trigger] self.positions[j]
                        <= self.last_position && self.seq_dict@.contains_key(self.positions[j]),
            decreases self.positions.len() - i,
        {
            let p = self.positions[i];
            let ghost before = seen@;
            if p < self.first_position || p > self.last_position {
                return false;
            }
            if !set_insert(&mut seen, p) {
                proof {
                    let j = choose|j: int| 0 <= j < i && #[trigger] self.positions[j] == p;
                    assert(self.positions[j] == self.positions[i as int]);
                }
                return false;
            }
            if map_get(&self.seq_dict, p).is_none() {
                assert(self.positions@.contains(p));
                return false;
            }
            proof {
                assert forall|q: usize|
                    seen@.contains(q) <==> exists|j: int|
                        0 <= j < i + 1 && #[trigger] self.positions[j] == q by {
                    if q == p {
                        assert(self.positions[i as int] == q);
                    } else if before.contains(q) {
                        let j = choose|j: int| 0 <= j < i && #[trigger] self.positions[j] == q;
                        assert(0 <= j < i + 1 && self.positions[j] == q);
                    }
                }
                assert forall|j: int, k: int| 0 <= j < k < i + 1 implies self.positions[j]
                    != self.positions[k] by {
                    if k == i && self.positions[j] == p {
                        assert(before.contains(p));
                    }
                }
            }
            i += 1;
        }
        proof {
            assert forall|p: usize| seen@.contains(p) <==> self.positions@.contains(p) by {
                if self.positions@.contains(p) {
                    let j = choose|j: int| 0 <= j < self.positions.len() && self.positions[j] == p;
                    assert(self.positions[j] == p);
                }
            }
        }
        let keys = map_keys(&self.seq_dict);
        let mut k: usize = 0;
        while k < keys.len()
            invariant
                k <= keys.len(),
                forall|p: usize| keys@.contains(p) <==> self.seq_dict@.contains_key(p),
                forall|p: usize| seen@.contains(p) <==> self.positions@.contains(p),
                forall|j: int| 0 <= j < k ==> self.positions@.contains(#[trigger] keys[j]),
            decreases keys.len() - k,
        {
            if !set_contains(&seen, keys[k]) {
                assert(keys@.contains(keys[k as int]));
                return false;
            }
            k += 1;
        }
        proof {
            assert forall|p: usize|
                self.seq_dict@.contains_key(p) <==> self.positions@.contains(p) by {
                if self.seq_dict@.contains_key(p) {
                    assert(keys@.contains(p));
                    let j = choose|j: int| 0 <= j < keys.len() && keys[j] == p;
                    assert(self.positions@.contains(keys[j]));
                }
                if self.positions@.contains(p) {
                    let j = choose|j: int| 0 <= j < self.positions.len() && self.positions[j] == p;
                    assert(self.seq_dict@.contains_key(self.positions[j]));
                }
            }
        }
        true
    }

    /// The allele called at site `p`, if the read covers it.
    pub fn allele_at(&self, p: usize) -> (r: Option<usize>)
        ensures
            r == (if self.covers(p) {
                Some(self.allele(p))
            } else {
                None
            }),
    {
        match map_get(&self.seq_dict, p) {
            Some(a) => Some(*a),
            None => None,
        }
    }
}

/// Every fragment of the list is well formed.
pub open spec fn frags_wf(frags: Seq<Frag>) -> bool {
    forall|i: int| 0 <= i < frags.len() ==> (#[trigger] frags[i]).wf()
}

/// Whether every fragment of the list is well formed.
pub fn check_frags(frags: &Vec<Frag>) -> (b: bool)
    ensures
        b == frags_wf(frags@),
{
    let mut i: usize = 0;
    while i < frags.len()
        invariant
            i <= frags.len(),
            forall|j: int| 0 <= j < i ==> (#[trigger] frags[j]).wf(),
        decreases frags.len() - i,
    {
        if !frags[i].is_wf() {
            return false;
        }
        i += 1;
    }
    true
}

/// The sites of a list of `(site, allele)` calls, in the list's order.
pub open spec fn sites_of(calls: Seq<(usize, usize)>) -> Seq<usize> {
    Seq::new(calls.len(), |i: int| calls[i].0)
}

/// The calls lie in a span that is not empty, and no site has two of them.
pub open spec fn calls_fit(first: usize, last: usize, calls: Seq<(usize, usize)>) -> bool {
    &&& first <= last
    &&& forall|i: int| 0 <= i < calls.len() ==> first <= (#[trigger] calls[i]).0 <= last
    &&& forall|i: int, j: int| 0 <= i < j < calls.len() ==> calls[i].0 != calls[j].0
}

/// Whether two fragments have a call at a common site.
pub open spec fn overlaps(r1: Frag, r2: Frag) -> bool {
    exists|p: usize| r1.covers(p) && r2.covers(p)
}

/// Among the first `n` sites of `r1`, the number that `r2` covers too with the
/// same allele.
pub open spec fn agreements(r1: Frag, r2: Frag, n: nat) -> nat
    decreases n,
{
    if n == 0 {
        0
    } else {
        let p = r1.positions[n - 1];
        agreements(r1, r2, (n - 1) as nat) + if r2.covers(p) && r2.allele(p) == r1.allele(p) {
            1nat
        } else {
            0nat
        }
    }
}

/// Among the first `n` sites of `r1`, the number that `r2` covers too with
/// another allele.
pub open spec fn disagreements(r1: Frag, r2: Frag, n: nat) -> nat
    decreases n,
{
    if n == 0 {
        0
    } else {
        let p = r1.positions[n - 1];
        disagreements(r1, r2, (n - 1) as nat) + if r2.covers(p) && r2.allele(p) != r1.allele(p) {
            1nat
        } else {
            0nat
        }
    }
}

/// The number of sites that both fragments cover.
pub open spec fn shared_sites(r1: Frag, r2: Frag) -> nat {
    agreements(r1, r2, r1.positions.len() as nat) + disagreements(
        r1,
        r2,
        r1.positions.len() as nat,
    )
}

/// No site among the first `n` of `r1` is covered by `r2` exactly when the two
/// counts over those sites are zero.
pub proof fn lemma_counts_zero(r1: Frag, r2: Frag, n: nat)
    requires
        n <= r1.positions.len(),
    ensures
        agreements(r1, r2, n) + disagreements(r1, r2, n) == 0 <==> forall|i: int|
            0 <= i < n ==> !r2.covers(#[trigger] r1.positions[i]),
        agreements(r1, r2, n) + disagreements(r1, r2, n) <= n,
    decreases n,
{
    if n > 0 {
        lemma_counts_zero(r1, r2, (n - 1) as nat);
        if agreements(r1, r2, n) + disagreements(r1, r2, n) == 0 {
            assert forall|i: int| 0 <= i < n implies !r2.covers(#[trigger] r1.positions[i]) by {
                if i < n - 1 {
                } else {
                }
            }
        } else {
            if forall|i: int| 0 <= i < n ==> !r2.covers(#[trigger] r1.positions[i]) {
                assert(!r2.covers(r1.positions[n - 1]));
                assert(false);
            }
        }
    }
}

/// Two fragments overlap exactly when they share at least one site.
pub proof fn lemma_overlap_shared(r1: Frag, r2: Frag)
    requires
        r1.wf(),
    ensures
        overlaps(r1, r2) <==> shared_sites(r1, r2) > 0,
{
    lemma_counts_zero(r1, r2, r1.positions.len() as nat);
    if overlaps(r1, r2) {
        let p = choose|p: usize| r1.covers(p) && r2.covers(p);
        assert(r1.positions@.contains(p));
        let i = choose|i: int| 0 <= i < r1.positions.len() && r1.positions[i] == p;
        assert(r2.covers(r1.positions[i]));
    }
    if shared_sites(r1, r2) > 0 {
        let i = choose|i: int| 0 <= i < r1.positions.len() && r2.covers(#[trigger] r1.positions[i]);
        assert(r1.positions@.contains(r1.positions[i]));
        assert(r1.covers(r1.positions[i]) && r2.covers(r1.positions[i]));
    }
}

/// Whether the two fragments share a site.
pub fn check_overlap(r1: &Frag, r2: &Frag) -> (b: bool)
    requires
        r1.wf(),
        r2.wf(),
    ensures
        b == overlaps(*r1, *r2),
{
    if r1.last_position < r2.first_position || r2.last_position < r1.first_position {
        proof {
            if overlaps(*r1, *r2) {
                let p = choose|p: usize| r1.covers(p) && r2.covers(p);
                assert(r1.positions@.contains(p));
                assert(r2.positions@.contains(p));
                let i = choose|i: int| 0 <= i < r1.positions.len() && r1.positions[i] == p;
                let j = choose|j: int| 0 <= j < r2.positions.len() && r2.positions[j] == p;
                assert(false);
            }
        }
        return false;
    }
    let mut i: usize = 0;
    while i < r1.positions.len()
        invariant
            i <= r1.positions.len(),
            r1.wf(),
            forall|j: int| 0 <= j < i ==> !r2.covers(#[trigger] r1.positions[j]),
        decreases r1.positions.len() - i,
    {
        let p = r1.positions[i];
        if r2.allele_at(p).is_some() {
            proof {
                assert(r1.positions@.contains(p));
                assert(r1.covers(p) && r2.covers(p));
            }
            return true;
        }
        i += 1;
    }
    proof {
        if overlaps(*r1, *r2) {
            let p = choose|p: usize| r1.covers(p) && r2.covers(p);
            assert(r1.positions@.contains(p));
            let j = choose|j: int| 0 <= j < r1.positions.len() && r1.positions[j] == p;
            assert(!r2.covers(r1.positions[j]));
            assert(false);
        }
    }
    false
}

/// Over the sites that both fragments cover: the number at which they call the
/// same allele, and the number at which they differ.
pub fn distance(r1: &Frag, r2: &Frag) -> (r: (usize, usize))
    requires
        r1.wf(),
    ensures
        r.0 == agreements(*r1, *r2, r1.positions.len() as nat),
        r.1 == disagreements(*r1, *r2, r1.positions.len() as nat),
        r.0 + r.1 == shared_sites(*r1, *r2),
        r.0 + r.1 <= r1.positions.len(),
{
    let mut same: usize = 0;
    let mut diff: usize = 0;
    let mut i: usize = 0;
    while i < r1.positions.len()
        invariant
            i <= r1.positions.len(),
            r1.wf(),
            same == agreements(*r1, *r2, i as nat),
            diff == disagreements(*r1, *r2, i as nat),
            same + diff <= i,
        decreases r1.positions.len() - i,
    {
        let p = r1.positions[i];
        assert(r1.positions@.contains(p));
        let mine = r1.allele_at(p);
        let theirs = r2.allele_at(p);
        match (mine, theirs) {
            (Some(a1), Some(a2)) => {
                if a1 == a2 {
                    same += 1;
                } else {
                    diff += 1;
                }
            },
            _ => {},
        }
        i += 1;
    }
    (same, diff)
}

} // verus!
