//! Single-read moves: proposing them, and applying the best of them.

use crate::frag::frags_wf;
use crate::frag::Frag;
use crate::fx::set_clone;
use crate::fx::set_contains;
use crate::fx::set_insert;
use crate::fx::set_len;
use crate::fx::set_new;
use crate::fx::set_remove;
use crate::hap_block::distance_read_haplo;
use crate::hap_block::hits;
use crate::hap_block::lemma_hits_bound;
use crate::hap_block::misses;
use crate::hap_block::HapBlock;
use crate::order::lemma_ranking_permutes;
use crate::order::ranking;
use crate::order::stable_order;
use crate::order::Desc;
use crate::partition::holds;
use crate::partition::is_partition;
use crate::partition::lemma_cluster_finite;
use crate::partition::within;
use crate::partition::lemma_members;
use crate::partition::members;
use crate::partition::set_members;
use crate::partition::sets_of;
use crate::stats::binom_of;
use crate::stats::calls_countable;
use crate::stats::lemma_cluster_counts_bound;
use crate::stats::lemma_cluster_counts_member;
use fxhash::FxHashSet;
use vstd::prelude::*;

verus! {

/// A move of `read` from cluster `from` to cluster `to`, with the counts that
/// the two clusters would have after it against their present haplotypes.
#[derive(Clone, Copy)]
pub struct Proposal {
    pub from: usize,
    pub read: usize,
    pub to: usize,
    pub from_after: (usize, usize),
    pub to_after: (usize, usize),
}

/// The proposal to move read `r` from cluster `i` to cluster `j`.
pub open spec fn proposal(
    frags: Seq<Frag>,
    block: HapBlock,
    binom: Seq<(usize, usize)>,
    i: int,
    r: usize,
    j: int,
) -> Proposal {
    let f = frags[r as int];
    let n = f.positions.len() as nat;
    Proposal {
        from: i as usize,
        read: r,
        to: j as usize,
        from_after: (
            (binom[i].0 - hits(f, block.blocks[i], n)) as usize,
            (binom[i].1 - misses(f, block.blocks[i], n)) as usize,
        ),
        to_after: (
            (binom[j].0 + hits(f, block.blocks[j], n)) as usize,
            (binom[j].1 + misses(f, block.blocks[j], n)) as usize,
        ),
    }
}

/// The proposals for read `r` of cluster `i` to the clusters below `j_end`,
/// ascending.
pub open spec fn proposals_to(
    frags: Seq<Frag>,
    block: HapBlock,
    binom: Seq<(usize, usize)>,
    i: int,
    r: usize,
    j_end: nat,
) -> Seq<Proposal>
    decreases j_end,
{
    if j_end == 0 {
        Seq::empty()
    } else {
        let rest = proposals_to(frags, block, binom, i, r, (j_end - 1) as nat);
        if j_end - 1 == i {
            rest
        } else {
            rest.push(proposal(frags, block, binom, i, r, j_end - 1))
        }
    }
}

/// The proposals for the first `r_end` reads of `rs`, all of cluster `i`, to
/// each of the other `k` clusters.
pub open spec fn proposals_of(
    frags: Seq<Frag>,
    block: HapBlock,
    binom: Seq<(usize, usize)>,
    k: nat,
    i: int,
    rs: Seq<usize>,
    r_end: nat,
) -> Seq<Proposal>
    decreases r_end,
{
    if r_end == 0 {
        Seq::empty()
    } else {
        proposals_of(frags, block, binom, k, i, rs, (r_end - 1) as nat) + proposals_to(
            frags,
            block,
            binom,
            i,
            rs[r_end - 1],
            k,
        )
    }
}

/// The proposals for the reads of the first `i_end` clusters: for each
/// cluster of two or more reads, for each of its reads in ascending order,
/// one to each other cluster in ascending order.
pub open spec fn proposals(
    frags: Seq<Frag>,
    part: Seq<Set<usize>>,
    block: HapBlock,
    binom: Seq<(usize, usize)>,
    i_end: nat,
) -> Seq<Proposal>
    decreases i_end,
{
    if i_end == 0 {
        Seq::empty()
    } else {
        let rest = proposals(frags, part, block, binom, (i_end - 1) as nat);
        let rs = members(part[i_end - 1], frags.len());
        if part[i_end - 1].len() <= 1 {
            rest
        } else {
            rest + proposals_of(frags, block, binom, part.len(), i_end - 1, rs, rs.len())
        }
    }
}

/// Each proposal moves a read of the list out of the cluster that holds it
/// into another cluster.
pub open spec fn proposals_fit(part: Seq<Set<usize>>, n: nat, list: Seq<Proposal>) -> bool {
    forall|t: int|
        0 <= t < list.len() ==> {
            &&& (#[trigger] list[t]).from < part.len()
            &&& list[t].to < part.len()
            &&& list[t].from != list[t].to
            &&& list[t].read < n
            &&& part[list[t].from as int].contains(list[t].read)
        }
}

/// A proposal for read `r` of cluster `i` moves it to another cluster below
/// the bound.
pub proof fn lemma_proposals_to(
    frags: Seq<Frag>,
    block: HapBlock,
    binom: Seq<(usize, usize)>,
    i: int,
    r: usize,
    j_end: nat,
)
    requires
        0 <= i <= usize::MAX,
        j_end <= usize::MAX,
    ensures
        forall|t: int|
            0 <= t < proposals_to(frags, block, binom, i, r, j_end).len() ==> {
                let p = #[trigger] proposals_to(frags, block, binom, i, r, j_end)[t];
                p.from == i && p.read == r && p.to < j_end && p.to != i
            },
    decreases j_end,
{
    if j_end > 0 {
        lemma_proposals_to(frags, block, binom, i, r, (j_end - 1) as nat);
        let rest = proposals_to(frags, block, binom, i, r, (j_end - 1) as nat);
        let cur = proposals_to(frags, block, binom, i, r, j_end);
        assert forall|t: int| 0 <= t < cur.len() implies {
            let p = #[trigger] cur[t];
            p.from == i && p.read == r && p.to < j_end && p.to != i
        } by {
            if t < rest.len() {
                assert(cur[t] == rest[t]);
            } else {
                assert(cur[t] == proposal(frags, block, binom, i, r, j_end - 1));
            }
        }
    }
}

/// A proposal for one of the listed reads of cluster `i` moves that read to
/// another of the `k` clusters.
pub proof fn lemma_proposals_of(
    frags: Seq<Frag>,
    block: HapBlock,
    binom: Seq<(usize, usize)>,
    k: nat,
    i: int,
    rs: Seq<usize>,
    r_end: nat,
)
    requires
        0 <= i <= usize::MAX,
        k <= usize::MAX,
        r_end <= rs.len(),
    ensures
        forall|t: int|
            0 <= t < proposals_of(frags, block, binom, k, i, rs, r_end).len() ==> {
                let p = #[trigger] proposals_of(frags, block, binom, k, i, rs, r_end)[t];
                p.from == i && p.to < k && p.to != i && rs.contains(p.read)
            },
    decreases r_end,
{
    if r_end > 0 {
        lemma_proposals_of(frags, block, binom, k, i, rs, (r_end - 1) as nat);
        lemma_proposals_to(frags, block, binom, i, rs[r_end - 1], k);
        let head = proposals_of(frags, block, binom, k, i, rs, (r_end - 1) as nat);
        let row = proposals_to(frags, block, binom, i, rs[r_end - 1], k);
        assert forall|t: int| 0 <= t < (head + row).len() implies {
            let p = #[trigger] (head + row)[t];
            p.from == i && p.to < k && p.to != i && rs.contains(p.read)
        } by {
            if t < head.len() {
                assert((head + row)[t] == head[t]);
            } else {
                assert((head + row)[t] == row[t - head.len()]);
                assert(rs[r_end - 1] == row[t - head.len()].read);
            }
        }
    }
}

/// Every proposal moves a read out of the cluster that holds it into another
/// cluster.
pub proof fn lemma_proposals_fit(
    frags: Seq<Frag>,
    part: Seq<Set<usize>>,
    block: HapBlock,
    binom: Seq<(usize, usize)>,
    i_end: nat,
)
    requires
        i_end <= part.len(),
        part.len() <= usize::MAX,
        frags.len() <= usize::MAX,
    ensures
        proposals_fit(part, frags.len(), proposals(frags, part, block, binom, i_end)),
    decreases i_end,
{
    if i_end > 0 {
        lemma_proposals_fit(frags, part, block, binom, (i_end - 1) as nat);
        let head = proposals(frags, part, block, binom, (i_end - 1) as nat);
        let rs = members(part[i_end - 1], frags.len());
        if part[i_end - 1].len() > 1 {
            let row = proposals_of(frags, block, binom, part.len(), i_end - 1, rs, rs.len());
            lemma_proposals_of(frags, block, binom, part.len(), i_end - 1, rs, rs.len());
            lemma_members(part[i_end - 1], frags.len());
            assert forall|t: int| 0 <= t < (head + row).len() implies {
                &&& (#[trigger] (head + row)[t]).from < part.len()
                &&& (head + row)[t].to < part.len()
                &&& (head + row)[t].from != (head + row)[t].to
                &&& (head + row)[t].read < frags.len()
                &&& part[(head + row)[t].from as int].contains((head + row)[t].read)
            } by {
                if t < head.len() {
                    assert((head + row)[t] == head[t]);
                } else {
                    let p = row[t - head.len()];
                    assert((head + row)[t] == p);
                    assert(rs.contains(p.read));
                    let y = choose|y: int| 0 <= y < rs.len() && rs[y] == p.read;
                    assert(rs[y] < frags.len() && part[i_end - 1].contains(rs[y]));
                }
            }
        }
    }
}

/// All proposals for the partition against the block, whose counts are
/// `binom_vec`.
pub fn propose_moves(
    frags: &Vec<Frag>,
    partition: &Vec<FxHashSet<usize>>,
    hap_block: &HapBlock,
    binom_vec: &Vec<(usize, usize)>,
) -> (list: Vec<Proposal>)
    requires
        frags_wf(frags@),
        hap_block.wf(),
        hap_block.blocks.len() >= partition.len(),
        calls_countable(frags@),
        is_partition(sets_of(partition@), frags.len() as nat),
        binom_vec@ == binom_of(frags@, sets_of(partition@), *hap_block),
    ensures
        list@ == proposals(
            frags@,
            sets_of(partition@),
            *hap_block,
            binom_vec@,
            partition.len() as nat,
        ),
        proposals_fit(sets_of(partition@), frags.len() as nat, list@),
{
    let ploidy = partition.len();
    let ghost part = sets_of(partition@);
    let mut list: Vec<Proposal> = Vec::new();
    let mut i: usize = 0;
    while i < ploidy
        invariant
            i <= ploidy,
            ploidy == partition.len(),
            part == sets_of(partition@),
            frags_wf(frags@),
            hap_block.wf(),
            hap_block.blocks.len() >= partition.len(),
            calls_countable(frags@),
            is_partition(part, frags.len() as nat),
            binom_vec@ == binom_of(frags@, part, *hap_block),
            list@ == proposals(frags@, part, *hap_block, binom_vec@, i as nat),
            proposals_fit(part, frags.len() as nat, list@),
        decreases ploidy - i,
    {
        if set_len(&partition[i]) > 1 {
            let rs = set_members(&partition[i], frags.len());
            let ghost head = list@;
            proof {
                lemma_members(part[i as int], frags.len() as nat);
            }
            let mut x: usize = 0;
            while x < rs.len()
                invariant
                    x <= rs.len(),
                    i < ploidy,
                    ploidy == partition.len(),
                    part == sets_of(partition@),
                    frags_wf(frags@),
                    hap_block.wf(),
                    hap_block.blocks.len() >= partition.len(),
                    calls_countable(frags@),
                    is_partition(part, frags.len() as nat),
                    binom_vec@ == binom_of(frags@, part, *hap_block),
                    rs@ == members(part[i as int], frags.len() as nat),
                    forall|y: int|
                        0 <= y < rs.len() ==> (#[trigger] rs[y]) < frags.len() && part[i as int].contains(
                            rs[y],
                        ),
                    list@ == head + proposals_of(
                        frags@,
                        *hap_block,
                        binom_vec@,
                        ploidy as nat,
                        i as int,
                        rs@,
                        x as nat,
                    ),
                    proposals_fit(part, frags.len() as nat, list@),
                decreases rs.len() - x,
            {
                let read = rs[x];
                let frag = &frags[read];
                let ghost done = list@;
                let (bases_good_read, errors_read) = distance_read_haplo(
                    frag,
                    &hap_block.blocks[i],
                );
                proof {
                    lemma_cluster_counts_member(
                        frags@,
                        part[i as int],
                        hap_block.blocks[i as int],
                        frags.len() as nat,
                        read as int,
                    );
                    assert(binom_vec[i as int] == binom_of(frags@, part, *hap_block)[i as int]);
                    lemma_cluster_counts_bound(
                        frags@,
                        part[i as int],
                        hap_block.blocks[i as int],
                        frags.len() as nat,
                        -1,
                    );
                }
                let bases_good_after = binom_vec[i].0 - bases_good_read;
                let errors_after = binom_vec[i].1 - errors_read;
                let mut j: usize = 0;
                while j < ploidy
                    invariant
                        j <= ploidy,
                        i < ploidy,
                        x < rs.len(),
                        read == rs[x as int],
                        read < frags.len(),
                        *frag == frags[read as int],
                        part[i as int].contains(read),
                        ploidy == partition.len(),
                        part == sets_of(partition@),
                        frags_wf(frags@),
                        hap_block.wf(),
                        hap_block.blocks.len() >= partition.len(),
                        calls_countable(frags@),
                        is_partition(part, frags.len() as nat),
                        binom_vec@ == binom_of(frags@, part, *hap_block),
                        bases_good_after == binom_vec[i as int].0 - hits(
                            *frag,
                            hap_block.blocks[i as int],
                            frag.positions.len() as nat,
                        ),
                        errors_after == binom_vec[i as int].1 - misses(
                            *frag,
                            hap_block.blocks[i as int],
                            frag.positions.len() as nat,
                        ),
                        list@ == done + proposals_to(
                            frags@,
                            *hap_block,
                            binom_vec@,
                            i as int,
                            read,
                            j as nat,
                        ),
                        proposals_fit(part, frags.len() as nat, list@),
                    decreases ploidy - j,
                {
                    if j != i {
                        let (read_bases_good_movej, read_errors_movej) = distance_read_haplo(
                            frag,
                            &hap_block.blocks[j],
                        );
                        proof {
                            assert(binom_vec[j as int] == binom_of(frags@, part, *hap_block)[j as int]);
                            lemma_hits_bound(
                                *frag,
                                hap_block.blocks[j as int],
                                frag.positions.len() as nat,
                            );
                            if i < j {
                                assert(part[i as int].contains(read) ==> !part[j as int].contains(
                                    read,
                                ));
                            } else {
                                assert(part[j as int].contains(read) ==> !part[i as int].contains(
                                    read,
                                ));
                            }
                            lemma_cluster_counts_bound(
                                frags@,
                                part[j as int],
                                hap_block.blocks[j as int],
                                frags.len() as nat,
                                read as int,
                            );
                        }
                        let p = Proposal {
                            from: i,
                            read,
                            to: j,
                            from_after: (bases_good_after, errors_after),
                            to_after: (
                                binom_vec[j].0 + read_bases_good_movej,
                                binom_vec[j].1 + read_errors_movej,
                            ),
                        };
                        list.push(p);
                        assert(p == proposal(
                            frags@,
                            *hap_block,
                            binom_vec@,
                            i as int,
                            read,
                            j as int,
                        ));
                    }
                    proof {
                        let step = proposals_to(
                            frags@,
                            *hap_block,
                            binom_vec@,
                            i as int,
                            read,
                            (j + 1) as nat,
                        );
                        assert(list@ =~= done + step);
                    }
                    j += 1;
                }
                proof {
                    let pre = proposals_of(
                        frags@,
                        *hap_block,
                        binom_vec@,
                        ploidy as nat,
                        i as int,
                        rs@,
                        x as nat,
                    );
                    let row = proposals_to(
                        frags@,
                        *hap_block,
                        binom_vec@,
                        i as int,
                        read,
                        ploidy as nat,
                    );
                    assert(list@ =~= head + (pre + row));
                }
                x += 1;
            }
        }
        i += 1;
    }
    list
}

/// The gains that `gain` returned for the proposals, one by one.
pub open spec fn gains_by<G: Fn(&Vec<(usize, usize)>, &Vec<usize>, &Proposal) -> i64>(
    gain: G,
    binom_vec: Vec<(usize, usize)>,
    freq_vec: Vec<usize>,
    list: Seq<Proposal>,
    gains: Seq<i64>,
) -> bool {
    &&& gains.len() == list.len()
    &&& forall|t: int|
        0 <= t < list.len() ==> call_ensures(gain, (&binom_vec, &freq_vec, &list[t]), #[trigger] gains[t])
}

/// Asks `gain` for the gain of each proposal. It is handed the counts and the
/// sizes of the clusters as they are, and the proposal.
pub fn score_moves<G: Fn(&Vec<(usize, usize)>, &Vec<usize>, &Proposal) -> i64>(
    list: &Vec<Proposal>,
    binom_vec: &Vec<(usize, usize)>,
    freq_vec: &Vec<usize>,
    gain: &G,
) -> (gains: Vec<i64>)
    requires
        forall|b: &Vec<(usize, usize)>, f: &Vec<usize>, p: &Proposal|
            call_requires(*gain, (b, f, p)),
    ensures
        gains_by(*gain, *binom_vec, *freq_vec, list@, gains@),
{
    let mut gains: Vec<i64> = Vec::new();
    let mut t: usize = 0;
    while t < list.len()
        invariant
            t <= list.len(),
            gains.len() == t,
            forall|b: &Vec<(usize, usize)>, f: &Vec<usize>, p: &Proposal|
                call_requires(*gain, (b, f, p)),
            forall|u: int|
                0 <= u < t ==> call_ensures(
                    *gain,
                    (binom_vec, freq_vec, &list[u]),
                    #[trigger] gains[u],
                ),
        decreases list.len() - t,
    {
        let g = gain(binom_vec, freq_vec, &list[t]);
        gains.push(g);
        t += 1;
    }
    gains
}

/// The proposals below `upto` with a gain above zero, ascending.
pub open spec fn positive(gains: Seq<i64>, upto: nat) -> Seq<usize>
    decreases upto,
{
    if upto == 0 {
        Seq::empty()
    } else {
        let rest = positive(gains, (upto - 1) as nat);
        if gains[upto - 1] > 0 {
            rest.push((upto - 1) as usize)
        } else {
            rest
        }
    }
}

/// The gains of the picked proposals, as keys that rank the greater gain
/// first.
pub open spec fn gain_keys(gains: Seq<i64>, picks: Seq<usize>) -> Seq<Desc> {
    Seq::new(picks.len(), |t: int| Desc { key: gains[picks[t] as int] as i128 })
}

/// The proposals with a gain above zero, the greater gain first; of equal
/// gains the earlier proposal first.
pub open spec fn best_turn(gains: Seq<i64>) -> Seq<usize> {
    let picks = positive(gains, gains.len());
    let keys = gain_keys(gains, picks);
    let order = ranking(keys, keys.len());
    Seq::new(order.len(), |t: int| picks[order[t] as int])
}

/// The sum of the first `upto` sizes.
pub open spec fn size_total(sizes: Seq<usize>, upto: nat) -> nat
    decreases upto,
{
    if upto == 0 {
        0
    } else {
        size_total(sizes, (upto - 1) as nat) + sizes[upto - 1] as nat
    }
}

/// The number of places of the turn whose proposals may be applied: a tenth
/// of the reads, or a fifth of the proposals where those are few.
pub open spec fn move_limit(num_reads: nat, count: nat) -> nat {
    if count / 10 < (num_reads / 10) / 5 {
        count / 5
    } else {
        num_reads / 10
    }
}

/// The limit is at most a tenth of the reads.
pub proof fn lemma_limit_bound(num_reads: nat, count: nat)
    ensures
        move_limit(num_reads, count) <= num_reads / 10,
{
}

/// One step over the state `(clusters, moved reads)`: the proposal is applied
/// unless its read has moved before or is the last of its cluster.
pub open spec fn move_step(s: (Seq<Set<usize>>, Set<usize>), p: Proposal) -> (
    Seq<Set<usize>>,
    Set<usize>,
) {
    if s.1.contains(p.read) || s.0[p.from as int].len() == 1 {
        s
    } else {
        let joined = s.0.update(p.to as int, s.0[p.to as int].insert(p.read));
        (joined.update(p.from as int, joined[p.from as int].remove(p.read)), s.1.insert(p.read))
    }
}

/// The state after the steps over the first `upto` places of the turn.
pub open spec fn moves_applied(
    part: Seq<Set<usize>>,
    list: Seq<Proposal>,
    turn: Seq<usize>,
    upto: nat,
) -> (Seq<Set<usize>>, Set<usize>)
    decreases upto,
{
    if upto == 0 {
        (part, Set::empty())
    } else {
        move_step(moves_applied(part, list, turn, (upto - 1) as nat), list[turn[upto - 1] as int])
    }
}

/// The number of places of the turn that are gone through: all of them, or as
/// many as the limit allows.
pub open spec fn places(sizes: Seq<usize>, turn: Seq<usize>) -> nat {
    let limit = move_limit(size_total(sizes, sizes.len()), turn.len());
    if limit < turn.len() {
        limit
    } else {
        turn.len()
    }
}

/// The partition after the best moves were applied: the proposals at the
/// first places of the turn, as many as the limit allows, less those whose
/// read has moved before or is the last of its cluster.
pub open spec fn moves_model(
    part: Seq<Set<usize>>,
    sizes: Seq<usize>,
    list: Seq<Proposal>,
    gains: Seq<i64>,
) -> Seq<Set<usize>> {
    let turn = best_turn(gains);
    moves_applied(part, list, turn, places(sizes, turn)).0
}

/// No more reads move than places are gone through.
pub proof fn lemma_moved_bound(
    part: Seq<Set<usize>>,
    list: Seq<Proposal>,
    turn: Seq<usize>,
    upto: nat,
)
    ensures
        moves_applied(part, list, turn, upto).1.finite(),
        moves_applied(part, list, turn, upto).1.len() <= upto,
    decreases upto,
{
    if upto > 0 {
        lemma_moved_bound(part, list, turn, (upto - 1) as nat);
    }
}

/// A read that has not moved is in the cluster in which it was.
pub proof fn lemma_unmoved_stay(
    part: Seq<Set<usize>>,
    list: Seq<Proposal>,
    turn: Seq<usize>,
    upto: nat,
    c: int,
    x: usize,
)
    requires
        0 <= c < part.len(),
        forall|t: int|
            0 <= t < upto ==> (#[trigger] list[turn[t] as int]).from < part.len() && list[turn[t] as int].to
                < part.len(),
        !moves_applied(part, list, turn, upto).1.contains(x),
    ensures
        moves_applied(part, list, turn, upto).0.len() == part.len(),
        moves_applied(part, list, turn, upto).0[c].contains(x) <==> part[c].contains(x),
    decreases upto,
{
    if upto > 0 {
        let prev = moves_applied(part, list, turn, (upto - 1) as nat);
        let p = list[turn[upto - 1] as int];
        assert(p.from < part.len() && p.to < part.len());
        lemma_unmoved_stay(part, list, turn, (upto - 1) as nat, c, x);
    }
}

/// The picked proposals are proposals below the bound.
pub proof fn lemma_positive(gains: Seq<i64>, upto: nat)
    requires
        upto <= usize::MAX,
    ensures
        positive(gains, upto).len() <= upto,
        forall|t: int|
            0 <= t < positive(gains, upto).len() ==> (#[trigger] positive(gains, upto)[t]) < upto,
    decreases upto,
{
    if upto > 0 {
        lemma_positive(gains, (upto - 1) as nat);
        let rest = positive(gains, (upto - 1) as nat);
        assert forall|t: int| 0 <= t < positive(gains, upto).len() implies (#[trigger] positive(
            gains,
            upto,
        )[t]) < upto by {
            if t < rest.len() {
                assert(positive(gains, upto)[t] == rest[t]);
            }
        }
    }
}

/// A read that moves from the cluster that holds it to another leaves the
/// clusters disjoint, and they hold what they held.
pub proof fn lemma_move_member(clusters: Seq<Set<usize>>, from: int, to: int, r: usize)
    requires
        crate::partition::disjoint(clusters),
        0 <= from < clusters.len(),
        0 <= to < clusters.len(),
        from != to,
        clusters[from].contains(r),
    ensures
        ({
            let joined = clusters.update(to, clusters[to].insert(r));
            let after = joined.update(from, joined[from].remove(r));
            &&& crate::partition::disjoint(after)
            &&& forall|x: usize| holds(after, x) <==> holds(clusters, x)
            &&& forall|c: int, x: usize|
                0 <= c < clusters.len() && x != r ==> (#[trigger] after[c].contains(x)
                    <==> clusters[c].contains(x))
            &&& forall|c: int| 0 <= c < clusters.len() ==> (#[trigger] after[c].contains(r) <==> c == to)
        }),
{
    let joined = clusters.update(to, clusters[to].insert(r));
    let after = joined.update(from, joined[from].remove(r));
    assert forall|c: int| 0 <= c < clusters.len() implies (#[trigger] after[c].contains(r) <==> c
        == to) by {
        if c != to && c != from {
            if c < from {
                assert(clusters[c].contains(r) ==> !clusters[from].contains(r));
            } else {
                assert(clusters[from].contains(r) ==> !clusters[c].contains(r));
            }
        }
    }
    assert forall|c1: int, c2: int, x: usize|
        #![trigger after[c1].contains(x), after[c2].contains(x)]
        0 <= c1 < c2 < after.len() && after[c1].contains(x) implies !after[c2].contains(x) by {
        if x == r {
            assert(after[c1].contains(r) <==> c1 == to);
            assert(after[c2].contains(r) <==> c2 == to);
        } else {
            assert(clusters[c1].contains(x) ==> !clusters[c2].contains(x));
        }
    }
    assert forall|x: usize| holds(after, x) <==> holds(clusters, x) by {
        if holds(after, x) {
            let c = choose|c: int| 0 <= c < after.len() && (#[trigger] after[c]).contains(x);
            if x == r {
                assert(clusters[from].contains(r));
            } else {
                assert(clusters[c].contains(x));
            }
        }
        if holds(clusters, x) {
            let c = choose|c: int| 0 <= c < clusters.len() && (#[trigger] clusters[c]).contains(x);
            if x == r {
                assert(after[to].contains(r));
            } else {
                assert(after[c].contains(x));
            }
        }
    }
}

/// One batch moves no more reads than the limit allows: every read whose
/// cluster has changed is among the moved reads, and those are no more than
/// the limit.
pub proof fn lemma_batch_bound(
    part: Seq<Set<usize>>,
    sizes: Seq<usize>,
    list: Seq<Proposal>,
    gains: Seq<i64>,
)
    requires
        gains.len() == list.len(),
        list.len() <= usize::MAX,
        forall|t: int|
            0 <= t < list.len() ==> (#[trigger] list[t]).from < part.len() && list[t].to
                < part.len(),
    ensures
        ({
            let turn = best_turn(gains);
            let done = moves_applied(part, list, turn, places(sizes, turn));
            &&& done.0 == moves_model(part, sizes, list, gains)
            &&& done.1.finite()
            &&& done.1.len() <= move_limit(size_total(sizes, sizes.len()), turn.len())
            &&& forall|c: int, x: usize|
                0 <= c < part.len() && #[trigger] done.0[c].contains(x) != part[c].contains(x)
                    ==> done.1.contains(x)
        }),
{
    let turn = best_turn(gains);
    let upto = places(sizes, turn);
    let done = moves_applied(part, list, turn, upto);
    let picks = positive(gains, gains.len());
    let keys = gain_keys(gains, picks);
    lemma_positive(gains, gains.len());
    lemma_ranking_permutes(keys, keys.len());
    lemma_moved_bound(part, list, turn, upto);
    assert forall|t: int| 0 <= t < upto implies (#[trigger] list[turn[t] as int]).from < part.len()
        && list[turn[t] as int].to < part.len() by {
        let o = ranking(keys, keys.len())[t];
        assert(o < picks.len());
        assert(picks[o as int] < gains.len());
    }
    assert forall|c: int, x: usize|
        0 <= c < part.len() && #[trigger] done.0[c].contains(x) != part[c].contains(
            x,
        ) implies done.1.contains(x) by {
        if !done.1.contains(x) {
            lemma_unmoved_stay(part, list, turn, upto, c, x);
        }
    }
}

/// No step empties a cluster: a cluster that has a read has one after the
/// steps over the first `upto` places.
pub proof fn lemma_none_emptied(
    part: Seq<Set<usize>>,
    n: nat,
    list: Seq<Proposal>,
    turn: Seq<usize>,
    upto: nat,
    c: int,
)
    requires
        within(part, n),
        proposals_fit(part, n, list),
        forall|t: int| 0 <= t < upto ==> (#[trigger] turn[t]) < list.len(),
        0 <= c < part.len(),
        exists|x: usize| part[c].contains(x),
    ensures
        moves_applied(part, list, turn, upto).0.len() == part.len(),
        within(moves_applied(part, list, turn, upto).0, n),
        exists|x: usize| moves_applied(part, list, turn, upto).0[c].contains(x),
    decreases upto,
{
    if upto > 0 {
        lemma_none_emptied(part, n, list, turn, (upto - 1) as nat, c);
        let prev = moves_applied(part, list, turn, (upto - 1) as nat);
        let p = list[turn[upto - 1] as int];
        let done = moves_applied(part, list, turn, upto);
        let kept = choose|x: usize| prev.0[c].contains(x);
        assert(p.from < part.len() && p.to < part.len() && p.from != p.to && p.read < n
            && part[p.from as int].contains(p.read));
        if !(prev.1.contains(p.read) || prev.0[p.from as int].len() == 1) {
            let joined = prev.0.update(p.to as int, prev.0[p.to as int].insert(p.read));
            assert(done.0 == joined.update(p.from as int, joined[p.from as int].remove(p.read)));
            assert forall|d: int, x: usize|
                0 <= d < done.0.len() && #[trigger] done.0[d].contains(x) implies x < n by {
                if x != p.read {
                    assert(prev.0[d].contains(x));
                }
            }
            if c == p.to {
                assert(done.0[c].contains(p.read));
            } else if c == p.from {
                assert forall|t: int| 0 <= t < upto - 1 implies (#[trigger] list[turn[t] as int]).from
                    < part.len() && list[turn[t] as int].to < part.len() by {
                    assert(turn[t] < list.len());
                }
                lemma_unmoved_stay(part, list, turn, (upto - 1) as nat, c, p.read);
                lemma_cluster_finite(prev.0, n, c);
                lemma_cluster_finite(done.0, n, c);
                assert(prev.0[c].contains(p.read));
                assert(done.0[c] == prev.0[c].remove(p.read));
                assert(done.0[c].len() == prev.0[c].len() - 1);
            } else {
                assert(done.0[c].contains(kept));
            }
        } else {
            assert(done.0[c].contains(kept));
        }
    }
}

/// One batch empties no cluster.
pub proof fn lemma_batch_keeps_clusters(
    part: Seq<Set<usize>>,
    n: nat,
    sizes: Seq<usize>,
    list: Seq<Proposal>,
    gains: Seq<i64>,
    c: int,
)
    requires
        within(part, n),
        proposals_fit(part, n, list),
        gains.len() == list.len(),
        list.len() <= usize::MAX,
        0 <= c < part.len(),
        exists|x: usize| part[c].contains(x),
    ensures
        exists|x: usize| moves_model(part, sizes, list, gains)[c].contains(x),
{
    let turn = best_turn(gains);
    let upto = places(sizes, turn);
    let picks = positive(gains, gains.len());
    let keys = gain_keys(gains, picks);
    lemma_positive(gains, gains.len());
    lemma_ranking_permutes(keys, keys.len());
    assert forall|t: int| 0 <= t < upto implies (#[trigger] turn[t]) < list.len() by {
        let o = ranking(keys, keys.len())[t];
        assert(o < picks.len());
        assert(picks[o as int] < gains.len());
    }
    lemma_none_emptied(part, n, list, turn, upto, c);
    let x = choose|x: usize| moves_applied(part, list, turn, upto).0[c].contains(x);
    assert(moves_model(part, sizes, list, gains)[c].contains(x));
}

/// Applies the best of the proposals: those with a gain above zero, in the
/// order of their gains, as far as the limit allows. A proposal is passed
/// over when its read has moved already or is the last of its cluster.
pub fn apply_moves(
    partition: &Vec<FxHashSet<usize>>,
    freq_vec: &Vec<usize>,
    list: &Vec<Proposal>,
    gains: &Vec<i64>,
) -> (new_part: Vec<FxHashSet<usize>>)
    requires
        gains.len() == list.len(),
        crate::partition::disjoint(sets_of(partition@)),
        exists|n: nat| proposals_fit(sets_of(partition@), n, list@),
    ensures
        sets_of(new_part@) == moves_model(sets_of(partition@), freq_vec@, list@, gains@),
        new_part.len() == partition.len(),
        crate::partition::disjoint(sets_of(new_part@)),
        forall|x: usize| holds(sets_of(new_part@), x) <==> holds(sets_of(partition@), x),
{
    let ghost start = sets_of(partition@);
    let ghost bound = choose|n: nat| proposals_fit(start, n, list@);
    let mut new_part: Vec<FxHashSet<usize>> = Vec::new();
    let mut c: usize = 0;
    while c < partition.len()
        invariant
            c <= partition.len(),
            new_part.len() == c,
            forall|d: int| 0 <= d < c ==> (#[trigger] new_part[d])@ == partition[d]@,
        decreases partition.len() - c,
    {
        new_part.push(set_clone(&partition[c]));
        c += 1;
    }
    assert(sets_of(new_part@) =~= start);

    let mut picks: Vec<usize> = Vec::new();
    let mut keys: Vec<Desc> = Vec::new();
    let mut t: usize = 0;
    while t < gains.len()
        invariant
            t <= gains.len(),
            picks@ == positive(gains@, t as nat),
            keys@ == gain_keys(gains@, picks@),
        decreases gains.len() - t,
    {
        if gains[t] > 0 {
            picks.push(t);
            keys.push(Desc { key: gains[t] as i128 });
            proof {
                lemma_positive(gains@, (t + 1) as nat);
                assert(keys@ =~= gain_keys(gains@, picks@));
            }
        }
        t += 1;
    }
    let order = stable_order(&keys);
    let ghost turn = best_turn(gains@);
    proof {
        lemma_positive(gains@, gains.len() as nat);
        assert(turn.len() == picks.len());
    }

    let mut num_reads: u128 = 0;
    let mut i: usize = 0;
    while i < freq_vec.len()
        invariant
            i <= freq_vec.len(),
            num_reads == size_total(freq_vec@, i as nat),
            num_reads <= i * 0xffff_ffff_ffff_ffff,
        decreases freq_vec.len() - i,
    {
        num_reads = num_reads + freq_vec[i] as u128;
        i += 1;
    }
    let count = picks.len() as u128;
    let mut number_of_moves = num_reads / 10;
    if count / 10 < number_of_moves / 5 {
        number_of_moves = count / 5;
    }
    let last: usize = if number_of_moves < count {
        number_of_moves as usize
    } else {
        order.len()
    };
    assert(last == places(freq_vec@, turn));

    let mut moved_reads = set_new();
    let mut mv_num: usize = 0;
    while mv_num < last
        invariant
            mv_num <= last,
            last <= order.len(),
            order.len() == picks.len(),
            gains.len() == list.len(),
            new_part.len() == partition.len(),
            start == sets_of(partition@),
            proposals_fit(start, bound, list@),
            turn == best_turn(gains@),
            turn.len() == order.len(),
            picks@ == positive(gains@, gains.len() as nat),
            order@ == ranking(gain_keys(gains@, picks@), picks.len() as nat),
            forall|u: int| 0 <= u < order.len() ==> (#[trigger] order[u]) < picks.len(),
            forall|u: int| 0 <= u < picks.len() ==> (#[trigger] picks[u]) < gains.len(),
            (sets_of(new_part@), moved_reads@) == moves_applied(start, list@, turn, mv_num as nat),
            crate::partition::disjoint(sets_of(new_part@)),
            forall|x: usize| holds(sets_of(new_part@), x) <==> holds(start, x),
            forall|d: int, x: usize|
                0 <= d < start.len() && !moved_reads@.contains(x) ==> (#[trigger] sets_of(
                    new_part@,
                )[d].contains(x) <==> start[d].contains(x)),
        decreases last - mv_num,
    {
        let mv = list[picks[order[mv_num]]];
        let ghost cur = sets_of(new_part@);
        assert(turn[mv_num as int] == picks[order[mv_num as int] as int]);
        assert(list[turn[mv_num as int] as int] == mv);
        if !set_contains(&moved_reads, mv.read) && set_len(&new_part[mv.from]) != 1 {
            proof {
                assert(cur[mv.from as int].contains(mv.read) <==> start[mv.from as int].contains(
                    mv.read,
                ));
                lemma_move_member(cur, mv.from as int, mv.to as int, mv.read);
            }
            set_insert(&mut new_part[mv.to], mv.read);
            set_remove(&mut new_part[mv.from], mv.read);
            set_insert(&mut moved_reads, mv.read);
            proof {
                let joined = cur.update(mv.to as int, cur[mv.to as int].insert(mv.read));
                let after = joined.update(mv.from as int, joined[mv.from as int].remove(mv.read));
                assert(sets_of(new_part@) =~= after);
                assert forall|d: int, x: usize|
                    0 <= d < start.len() && !moved_reads@.contains(x) implies (#[trigger] sets_of(
                        new_part@,
                    )[d].contains(x) <==> start[d].contains(x)) by {
                    assert(after[d].contains(x) <==> cur[d].contains(x));
                }
            }
        }
        mv_num += 1;
    }
    new_part
}

} // verus!
