//! Refining a partition: in each iteration the best single-read moves are
//! applied, and the new partition is kept while its score rises.

use crate::frag::frags_wf;
use crate::frag::Frag;
use crate::fx::set_len;
use crate::hap_block::block_of;
use crate::hap_block::hap_block_from_partition;
use crate::hap_block::HapBlock;
use crate::moves::apply_moves;
use crate::moves::best_turn;
use crate::moves::gains_by;
use crate::moves::lemma_batch_bound;
use crate::moves::lemma_limit_bound;
use crate::moves::moves_applied;
use crate::moves::places;
use crate::moves::size_total;
use crate::moves::lemma_batch_keeps_clusters;
use crate::moves::moves_model;
use crate::moves::proposals;
use crate::moves::propose_moves;
use crate::moves::score_moves;
use crate::moves::Proposal;
use crate::partition::holds;
use crate::partition::is_partition;
use crate::partition::lemma_cluster_finite;
use crate::partition::sets_of;
use crate::stats::binom_of;
use crate::stats::calls_countable;
use crate::stats::get_partition_stats;
use crate::stats::sizes_of;
use fxhash::FxHashSet;
use vstd::prelude::*;

verus! {

/// `result` came from `part` by the moves that the given counts, sizes and
/// gains select.
pub open spec fn iteration_with<G: Fn(&Vec<(usize, usize)>, &Vec<usize>, &Proposal) -> i64>(
    frags: Seq<Frag>,
    part: Seq<Set<usize>>,
    block: HapBlock,
    gain: G,
    result: Seq<Set<usize>>,
    binom_vec: Vec<(usize, usize)>,
    freq_vec: Vec<usize>,
    gains: Seq<i64>,
) -> bool {
    let list = proposals(frags, part, block, binom_vec@, part.len());
    &&& binom_vec@ == binom_of(frags, part, block)
    &&& freq_vec@ == sizes_of(part)
    &&& gains_by(gain, binom_vec, freq_vec, list, gains)
    &&& result == moves_model(part, freq_vec@, list, gains)
}

/// `result` is what one iteration makes of `part`: the best moves among all
/// proposals against `block`, under gains that `gain` returned for them.
pub open spec fn iteration_of<G: Fn(&Vec<(usize, usize)>, &Vec<usize>, &Proposal) -> i64>(
    frags: Seq<Frag>,
    part: Seq<Set<usize>>,
    block: HapBlock,
    gain: G,
    result: Seq<Set<usize>>,
) -> bool {
    exists|binom_vec: Vec<(usize, usize)>, freq_vec: Vec<usize>, gains: Seq<i64>| #[trigger]
        iteration_with(frags, part, block, gain, result, binom_vec, freq_vec, gains)
}

/// Every counts, sizes and proposal may be handed to `gain`.
pub open spec fn gain_total<G: Fn(&Vec<(usize, usize)>, &Vec<usize>, &Proposal) -> i64>(
    gain: G,
) -> bool {
    forall|b: &Vec<(usize, usize)>, f: &Vec<usize>, p: &Proposal| call_requires(gain, (b, f, p))
}

/// Every counts and sizes may be handed to `score`.
pub open spec fn score_total<S: Fn(&Vec<(usize, usize)>, &Vec<usize>) -> i64>(score: S) -> bool {
    forall|b: &Vec<(usize, usize)>, f: &Vec<usize>| call_requires(score, (b, f))
}

/// Every well-formed block may be handed to `polisher`, and what it returns
/// is a well-formed block of as many haplotypes.
pub open spec fn polisher_total<P: Fn(&HapBlock) -> HapBlock>(polisher: P) -> bool {
    &&& forall|b: &HapBlock| b.wf() ==> call_requires(polisher, (b,))
    &&& forall|b: &HapBlock, r: HapBlock|
        call_ensures(polisher, (b,), r) ==> r.wf() && r.blocks.len() == b.blocks.len()
}

/// The reads of `moved` are finitely many, and every read that is in a
/// cluster of `after` and not in the cluster of `before` at its place, or the
/// other way round, is among them.
pub open spec fn moved_in(before: Seq<Set<usize>>, after: Seq<Set<usize>>, moved: Set<usize>) -> bool {
    &&& moved.finite()
    &&& forall|c: int, x: usize|
        0 <= c < before.len() && #[trigger] after[c].contains(x) != before[c].contains(x)
            ==> moved.contains(x)
}

/// One iteration: proposes every move of one read to another cluster, asks
/// `gain` for the gain of each, and applies the best, as far as the limit
/// allows: no more reads change their cluster than a tenth of all reads. No
/// cluster is emptied.
pub fn opt_iterate<G: Fn(&Vec<(usize, usize)>, &Vec<usize>, &Proposal) -> i64>(
    frags: &Vec<Frag>,
    partition: &Vec<FxHashSet<usize>>,
    hap_block: &HapBlock,
    gain: &G,
) -> (new_part: Vec<FxHashSet<usize>>)
    requires
        frags_wf(frags@),
        calls_countable(frags@),
        is_partition(sets_of(partition@), frags.len() as nat),
        hap_block.wf(),
        hap_block.blocks.len() >= partition.len(),
        gain_total(*gain),
    ensures
        new_part.len() == partition.len(),
        is_partition(sets_of(new_part@), frags.len() as nat),
        forall|x: usize| holds(sets_of(new_part@), x) <==> holds(sets_of(partition@), x),
        iteration_of(frags@, sets_of(partition@), *hap_block, *gain, sets_of(new_part@)),
        forall|c: int|
            0 <= c < partition.len() && (exists|x: usize| (#[trigger] partition[c])@.contains(x))
                ==> exists|x: usize| new_part[c]@.contains(x),
        exists|moved: Set<usize>| #[trigger]
            moved_in(sets_of(partition@), sets_of(new_part@), moved) && moved.len() <= size_total(
                sizes_of(sets_of(partition@)),
                partition.len() as nat,
            ) / 10,
{
    let (binom_vec, freq_vec) = get_partition_stats(frags, partition, hap_block);
    let list = propose_moves(frags, partition, hap_block, &binom_vec);
    let gains = score_moves(&list, &binom_vec, &freq_vec, gain);
    let new_part = apply_moves(partition, &freq_vec, &list, &gains);
    proof {
        let before = sets_of(partition@);
        let after = sets_of(new_part@);
        assert(iteration_with(
            frags@,
            before,
            *hap_block,
            *gain,
            after,
            binom_vec,
            freq_vec,
            gains@,
        ));
        lemma_batch_bound(before, freq_vec@, list@, gains@);
        let done = moves_applied(
            before,
            list@,
            best_turn(gains@),
            places(freq_vec@, best_turn(gains@)),
        );
        lemma_limit_bound(
            size_total(freq_vec@, freq_vec@.len()),
            best_turn(gains@).len(),
        );
        assert(moved_in(before, after, done.1));
        assert forall|c: int|
            0 <= c < partition.len() && (exists|x: usize| (#[trigger] partition[c])@.contains(
                x,
            )) implies exists|x: usize| new_part[c]@.contains(x) by {
            let x = choose|x: usize| partition[c]@.contains(x);
            assert(before[c].contains(x));
            lemma_batch_keeps_clusters(before, frags.len() as nat, freq_vec@, list@, gains@, c);
            let y = choose|y: usize| moves_model(before, freq_vec@, list@, gains@)[c].contains(y);
            assert(after[c].contains(y));
            assert(new_part[c]@.contains(y));
        }
        assert forall|c: int, x: usize| 0 <= c < after.len() && #[trigger] after[c].contains(
            x,
        ) implies x < frags.len() by {
            assert(holds(after, x));
            let d = choose|d: int| 0 <= d < before.len() && (#[trigger] before[d]).contains(x);
            assert(before[d].contains(x));
        }
    }
    new_part
}

/// `block` is `raw` as it is, or what `polisher` made of it.
pub open spec fn polished_by<P: Fn(&HapBlock) -> HapBlock>(
    polish: bool,
    polisher: P,
    raw: HapBlock,
    block: HapBlock,
) -> bool {
    if polish {
        call_ensures(polisher, (&raw,), block)
    } else {
        block == raw
    }
}

/// `block` and `s` are the block and the score of `part`, computed by way of
/// the given raw block, counts and sizes.
pub open spec fn scored_with<
    S: Fn(&Vec<(usize, usize)>, &Vec<usize>) -> i64,
    P: Fn(&HapBlock) -> HapBlock,
>(
    frags: Seq<Frag>,
    part: Seq<Set<usize>>,
    polish: bool,
    polisher: P,
    score: S,
    block: HapBlock,
    s: i64,
    raw: HapBlock,
    binom_vec: Vec<(usize, usize)>,
    freq_vec: Vec<usize>,
) -> bool {
    &&& block_of(frags, part, raw)
    &&& polished_by(polish, polisher, raw, block)
    &&& binom_vec@ == binom_of(frags, part, block)
    &&& freq_vec@ == sizes_of(part)
    &&& call_ensures(score, (&binom_vec, &freq_vec), s)
}

/// `block` is the block of `part`, polished where `polish` is set, and `s` is
/// a score that `score` returned for the statistics of `part` against it.
pub open spec fn scored<
    S: Fn(&Vec<(usize, usize)>, &Vec<usize>) -> i64,
    P: Fn(&HapBlock) -> HapBlock,
>(
    frags: Seq<Frag>,
    part: Seq<Set<usize>>,
    polish: bool,
    polisher: P,
    score: S,
    block: HapBlock,
    s: i64,
) -> bool {
    exists|raw: HapBlock, binom_vec: Vec<(usize, usize)>, freq_vec: Vec<usize>| #[trigger]
        scored_with(frags, part, polish, polisher, score, block, s, raw, binom_vec, freq_vec)
}

/// The state `b` is what one iteration makes of the state `a`. A state is a
/// partition with its block and its score.
pub open spec fn follows<
    S: Fn(&Vec<(usize, usize)>, &Vec<usize>) -> i64,
    G: Fn(&Vec<(usize, usize)>, &Vec<usize>, &Proposal) -> i64,
    P: Fn(&HapBlock) -> HapBlock,
>(
    frags: Seq<Frag>,
    polish: bool,
    polisher: P,
    score: S,
    gain: G,
    a: (Seq<Set<usize>>, HapBlock, i64),
    b: (Seq<Set<usize>>, HapBlock, i64),
) -> bool {
    &&& iteration_of(frags, a.0, a.1, gain, b.0)
    &&& scored(frags, b.0, polish, polisher, score, b.1, b.2)
}

/// Each state of the path is what one iteration makes of the state before it,
/// and has a higher score.
pub open spec fn climbs<
    S: Fn(&Vec<(usize, usize)>, &Vec<usize>) -> i64,
    G: Fn(&Vec<(usize, usize)>, &Vec<usize>, &Proposal) -> i64,
    P: Fn(&HapBlock) -> HapBlock,
>(
    frags: Seq<Frag>,
    polish: bool,
    polisher: P,
    score: S,
    gain: G,
    path: Seq<(Seq<Set<usize>>, HapBlock, i64)>,
) -> bool {
    forall|t: int|
        0 <= t < path.len() - 1 ==> #[trigger] follows(
            frags,
            polish,
            polisher,
            score,
            gain,
            path[t],
            path[t + 1],
        ) && path[t].2 < path[t + 1].2
}

/// An iteration from the state `a` led to a state whose score is not higher.
pub open spec fn stalls<
    S: Fn(&Vec<(usize, usize)>, &Vec<usize>) -> i64,
    G: Fn(&Vec<(usize, usize)>, &Vec<usize>, &Proposal) -> i64,
    P: Fn(&HapBlock) -> HapBlock,
>(
    frags: Seq<Frag>,
    polish: bool,
    polisher: P,
    score: S,
    gain: G,
    a: (Seq<Set<usize>>, HapBlock, i64),
) -> bool {
    exists|next: (Seq<Set<usize>>, HapBlock, i64)|
        #[trigger] follows(frags, polish, polisher, score, gain, a, next) && next.2 <= a.2
}

/// `path` is the course of the refinement of `part`: its first state is that
/// of `part`, each further state came from the one before by an iteration
/// that raised the score, and it has `max_iters` iterations unless a further
/// iteration from its last state did not raise the score.
pub open spec fn refined<
    S: Fn(&Vec<(usize, usize)>, &Vec<usize>) -> i64,
    G: Fn(&Vec<(usize, usize)>, &Vec<usize>, &Proposal) -> i64,
    P: Fn(&HapBlock) -> HapBlock,
>(
    frags: Seq<Frag>,
    polish: bool,
    polisher: P,
    score: S,
    gain: G,
    max_iters: nat,
    part: Seq<Set<usize>>,
    path: Seq<(Seq<Set<usize>>, HapBlock, i64)>,
) -> bool {
    &&& 1 <= path.len() <= max_iters + 1
    &&& path[0].0 == part
    &&& scored(frags, part, polish, polisher, score, path[0].1, path[0].2)
    &&& climbs(frags, polish, polisher, score, gain, path)
    &&& path.len() <= max_iters ==> stalls(frags, polish, polisher, score, gain, path.last())
}

/// No cluster has a read.
pub open spec fn all_empty(part: Seq<Set<usize>>) -> bool {
    forall|x: usize| !holds(part, x)
}

/// Along a climb the score rises from state to state.
pub proof fn lemma_climb_rises<
    S: Fn(&Vec<(usize, usize)>, &Vec<usize>) -> i64,
    G: Fn(&Vec<(usize, usize)>, &Vec<usize>, &Proposal) -> i64,
    P: Fn(&HapBlock) -> HapBlock,
>(
    frags: Seq<Frag>,
    polish: bool,
    polisher: P,
    score: S,
    gain: G,
    path: Seq<(Seq<Set<usize>>, HapBlock, i64)>,
    upto: int,
)
    requires
        climbs(frags, polish, polisher, score, gain, path),
        0 <= upto < path.len(),
    ensures
        path[0].2 <= path[upto].2,
        upto > 0 ==> path[0].2 < path[upto].2,
    decreases upto,
{
    if upto > 0 {
        lemma_climb_rises(frags, polish, polisher, score, gain, path, upto - 1);
        assert(follows(frags, polish, polisher, score, gain, path[upto - 1], path[upto - 1 + 1]));
    }
}

/// The block of a partition, polished where `polish` is set, and its score.
pub fn evaluate<
    S: Fn(&Vec<(usize, usize)>, &Vec<usize>) -> i64,
    P: Fn(&HapBlock) -> HapBlock,
>(
    frags: &Vec<Frag>,
    partition: &Vec<FxHashSet<usize>>,
    polish: bool,
    score: &S,
    polisher: &P,
) -> (r: (HapBlock, i64))
    requires
        frags_wf(frags@),
        calls_countable(frags@),
        score_total(*score),
        polisher_total(*polisher),
    ensures
        scored(frags@, sets_of(partition@), polish, *polisher, *score, r.0, r.1),
        r.0.wf(),
        r.0.blocks.len() == partition.len(),
{
    let raw = hap_block_from_partition(frags, partition);
    let ghost raw_block = raw;
    let block = if polish {
        polisher(&raw)
    } else {
        raw
    };
    let (binom_vec, freq_vec) = get_partition_stats(frags, partition, &block);
    let s = score(&binom_vec, &freq_vec);
    assert(scored_with(
        frags@,
        sets_of(partition@),
        polish,
        *polisher,
        *score,
        block,
        s,
        raw_block,
        binom_vec,
        freq_vec,
    ));
    (block, s)
}

/// Refines a partition by hill climbing.
///
/// Where no cluster has a read, the partition comes back with its block and
/// the score 0. Otherwise the partition is scored, and up to `max_iters`
/// times one iteration of moves is tried: its result replaces the partition
/// where its score is higher, and ends the refinement where it is not.
/// Returned are the score, the partition and the block of the last state that
/// was kept. `score` scores the statistics of a partition, `gain` the change
/// of score that a proposed move would bring; with `polish` set every block
/// is handed to `polisher` and replaced by what it returns.
pub fn optimize_clustering<
    S: Fn(&Vec<(usize, usize)>, &Vec<usize>) -> i64,
    G: Fn(&Vec<(usize, usize)>, &Vec<usize>, &Proposal) -> i64,
    P: Fn(&HapBlock) -> HapBlock,
>(
    frags: &Vec<Frag>,
    partition: Vec<FxHashSet<usize>>,
    polish: bool,
    max_iters: usize,
    score: &S,
    gain: &G,
    polisher: &P,
) -> (r: (i64, Vec<FxHashSet<usize>>, HapBlock))
    requires
        frags_wf(frags@),
        calls_countable(frags@),
        is_partition(sets_of(partition@), frags.len() as nat),
        score_total(*score),
        gain_total(*gain),
        polisher_total(*polisher),
    ensures
        r.1.len() == partition.len(),
        is_partition(sets_of(r.1@), frags.len() as nat),
        forall|x: usize| holds(sets_of(r.1@), x) <==> holds(sets_of(partition@), x),
        r.2.wf(),
        r.2.blocks.len() == partition.len(),
        all_empty(sets_of(partition@)) ==> r.0 == 0 && r.1@ == partition@ && block_of(
            frags@,
            sets_of(partition@),
            r.2,
        ),
        !all_empty(sets_of(partition@)) ==> exists|path: Seq<(Seq<Set<usize>>, HapBlock, i64)>|
            #[trigger] refined(
                frags@,
                polish,
                *polisher,
                *score,
                *gain,
                max_iters as nat,
                sets_of(partition@),
                path,
            ) && path.last() == (sets_of(r.1@), r.2, r.0) && path[0].2 <= r.0,
        !all_empty(sets_of(partition@)) ==> scored(
            frags@,
            sets_of(r.1@),
            polish,
            *polisher,
            *score,
            r.2,
            r.0,
        ),
        max_iters == 0 ==> r.1@ == partition@,
{
    let ghost start = sets_of(partition@);
    let mut not_empty = false;
    let mut c: usize = 0;
    while c < partition.len()
        invariant
            c <= partition.len(),
            start == sets_of(partition@),
            not_empty <==> exists|d: int| 0 <= d < c && (#[trigger] start[d]).len() != 0,
        decreases partition.len() - c,
    {
        if set_len(&partition[c]) > 0 {
            not_empty = true;
            assert(start[c as int].len() != 0);
        }
        c += 1;
    }
    if !not_empty {
        proof {
            assert forall|x: usize| !holds(start, x) by {
                if holds(start, x) {
                    let d = choose|d: int| 0 <= d < start.len() && (#[trigger] start[d]).contains(x);
                    lemma_cluster_finite(start, frags.len() as nat, d);
                    assert(start[d].len() != 0);
                }
            }
        }
        let prev_hap_block = hap_block_from_partition(frags, &partition);
        return (0, partition, prev_hap_block);
    }
    proof {
        let d = choose|d: int| 0 <= d < start.len() && (#[trigger] start[d]).len() != 0;
        lemma_cluster_finite(start, frags.len() as nat, d);
        let x = choose|x: usize| start[d].contains(x);
        assert(holds(start, x));
        assert(!all_empty(start));
    }
    let (first_block, first_score) = evaluate(frags, &partition, polish, score, polisher);
    let ghost init = (start, first_block, first_score);
    let ghost mut path = Seq::empty().push(init);
    let mut prev_hap_block = first_block;
    let mut prev_score = first_score;
    let mut best_part = partition;
    let mut i: usize = 0;
    while i < max_iters
        invariant
            i <= max_iters,
            path.len() == i + 1,
            frags_wf(frags@),
            calls_countable(frags@),
            score_total(*score),
            gain_total(*gain),
            polisher_total(*polisher),
            start == sets_of(partition@),
            !all_empty(start),
            path[0] == init,
            init.0 == start,
            scored(frags@, start, polish, *polisher, *score, init.1, init.2),
            best_part.len() == partition.len(),
            is_partition(sets_of(best_part@), frags.len() as nat),
            forall|x: usize| holds(sets_of(best_part@), x) <==> holds(start, x),
            prev_hap_block.wf(),
            prev_hap_block.blocks.len() == partition.len(),
            scored(
                frags@,
                sets_of(best_part@),
                polish,
                *polisher,
                *score,
                prev_hap_block,
                prev_score,
            ),
            path.last() == (sets_of(best_part@), prev_hap_block, prev_score),
            climbs(frags@, polish, *polisher, *score, *gain, path),
            i == 0 ==> best_part@ == partition@,
        decreases max_iters - i,
    {
        let ghost cur = (sets_of(best_part@), prev_hap_block, prev_score);
        let new_part = opt_iterate(frags, &best_part, &prev_hap_block, gain);
        let (new_block, new_score) = evaluate(frags, &new_part, polish, score, polisher);
        let ghost next = (sets_of(new_part@), new_block, new_score);
        assert(follows(frags@, polish, *polisher, *score, *gain, cur, next));
        if new_score > prev_score {
            prev_score = new_score;
            best_part = new_part;
            prev_hap_block = new_block;
            proof {
                let longer = path.push(next);
                assert forall|t: int| 0 <= t < longer.len() - 1 implies #[trigger] follows(
                    frags@,
                    polish,
                    *polisher,
                    *score,
                    *gain,
                    longer[t],
                    longer[t + 1],
                ) && longer[t].2 < longer[t + 1].2 by {
                    if t < path.len() - 1 {
                        assert(follows(
                            frags@,
                            polish,
                            *polisher,
                            *score,
                            *gain,
                            path[t],
                            path[t + 1],
                        ));
                    } else {
                        assert(longer[t] == cur && longer[t + 1] == next);
                    }
                }
                path = longer;
            }
        } else {
            proof {
                assert(stalls(frags@, polish, *polisher, *score, *gain, cur));
                lemma_climb_rises(frags@, polish, *polisher, *score, *gain, path, path.len() - 1);
                assert(refined(
                    frags@,
                    polish,
                    *polisher,
                    *score,
                    *gain,
                    max_iters as nat,
                    start,
                    path,
                ));
            }
            return (prev_score, best_part, prev_hap_block);
        }
        i += 1;
    }
    proof {
        lemma_climb_rises(frags@, polish, *polisher, *score, *gain, path, path.len() - 1);
        assert(refined(frags@, polish, *polisher, *score, *gain, max_iters as nat, start, path));
    }
    (prev_score, best_part, prev_hap_block)
}

} // verus!
