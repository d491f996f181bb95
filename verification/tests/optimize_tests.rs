use fxhash::FxHashSet;
use polyphase::frag::Frag;
use polyphase::hap_block::hap_block_from_partition;
use polyphase::hap_block::HapBlock;
use polyphase::moves::apply_moves;
use polyphase::moves::propose_moves;
use polyphase::moves::score_moves;
use polyphase::moves::Proposal;
use polyphase::optimize::evaluate;
use polyphase::optimize::opt_iterate;
use polyphase::optimize::optimize_clustering;
use polyphase::stats::get_partition_stats;
use polyphase::weight::ordinal_from_bits;
use statrs::distribution::ChiSquared;
use statrs::distribution::Univariate;

const EPSILON: f64 = 0.05;
const DIV_FACTOR: f64 = 1.0;

fn read(first: usize, alleles: &[usize]) -> Frag {
    let list: Vec<(usize, usize)> =
        alleles.iter().enumerate().map(|(i, a)| (first + i, *a)).collect();
    Frag::new(first, first + alleles.len() - 1, &list).unwrap()
}

fn group(members: &[usize]) -> FxHashSet<usize> {
    members.iter().copied().collect()
}

fn listed(set: &FxHashSet<usize>) -> Vec<usize> {
    let mut v: Vec<usize> = set.iter().copied().collect();
    v.sort();
    v
}

fn binom_log_tail(n: usize, k: usize, p: f64, div_factor: f64) -> f64 {
    if n == 0 {
        return 0.0;
    }
    let n64 = n as f64;
    let a = (k as f64 / n64).clamp(1e-7, 1.0 - 1e-7);
    let mut rel_ent = a * (a / p).ln() + (1.0 - a) * ((1.0 - a) / (1.0 - p)).ln();
    if a < p {
        rel_ent = -rel_ent;
    }
    -1.0 * n64 / div_factor * rel_ent
}

fn chi_square_log_p(freqs: &Vec<usize>) -> f64 {
    let dof = (freqs.len() - 1) as f64;
    let sum: usize = freqs.iter().sum();
    let mean = sum as f64 / freqs.len() as f64;
    let mut chi_stat = 0.0;
    for f in freqs.iter() {
        chi_stat += (*f as f64 - mean).powf(2.0);
    }
    chi_stat /= mean;
    if chi_stat <= 0.0 {
        return 0.0;
    }
    let rv = ChiSquared::new(dof).unwrap();
    (1.0 - rv.cdf(chi_stat)).ln()
}

fn as_ordinal(x: f64) -> i64 {
    assert!(!x.is_nan());
    ordinal_from_bits((x + 0.0).to_bits())
}

fn upem(binom: &Vec<(usize, usize)>, freq: &Vec<usize>) -> i64 {
    let mut score = 0.0;
    for stat in binom.iter() {
        score += binom_log_tail(stat.0 + stat.1, stat.1, EPSILON, DIV_FACTOR);
    }
    as_ordinal(score + chi_square_log_p(freq))
}

fn upem_gain(binom: &Vec<(usize, usize)>, freq: &Vec<usize>, p: &Proposal) -> i64 {
    let tail = |s: (usize, usize)| binom_log_tail(s.0 + s.1, s.1, EPSILON, DIV_FACTOR);
    let mut after = freq.clone();
    after[p.to] += 1;
    after[p.from] -= 1;
    let new_score = tail(p.from_after) + tail(p.to_after) + chi_square_log_p(&after);
    let old_score = tail(binom[p.from]) + tail(binom[p.to]) + chi_square_log_p(freq);
    as_ordinal(new_score - old_score)
}

fn no_polish(_block: &HapBlock) -> HapBlock {
    HapBlock { blocks: Vec::new() }
}

fn two_haplotypes() -> Vec<Frag> {
    let mut frags = Vec::new();
    for _ in 0..6 {
        frags.push(read(0, &[0, 0, 0, 0]));
    }
    for _ in 0..6 {
        frags.push(read(0, &[1, 1, 1, 1]));
    }
    frags
}

fn move_of(from: usize, read: usize, to: usize) -> Proposal {
    Proposal { from, read, to, from_after: (0, 0), to_after: (0, 0) }
}

#[test]
fn empty_partition_scores_zero() {
    let frags: Vec<Frag> = Vec::new();
    let partition = vec![group(&[]), group(&[]), group(&[])];
    let (score, part, block) =
        optimize_clustering(&frags, partition, false, 10, &upem, &upem_gain, &no_polish);
    assert_eq!(score, 0);
    assert_eq!(part.len(), 3);
    assert!(part.iter().all(|c| c.is_empty()));
    assert_eq!(block.blocks.len(), 3);
    assert!(block.blocks.iter().all(|h| h.sites.is_empty()));
}

#[test]
fn separated_reads_score_higher_than_mixed() {
    let frags = vec![
        read(0, &[0, 0, 0]),
        read(0, &[0, 0, 0]),
        read(0, &[0, 0, 0]),
        read(0, &[1, 1, 1]),
    ];
    let good = vec![group(&[0, 1, 2]), group(&[3])];
    let mixed = vec![group(&[0, 3]), group(&[1, 2])];
    let (_, good_score) = evaluate(&frags, &good, false, &upem, &no_polish);
    let (_, mixed_score) = evaluate(&frags, &mixed, false, &upem, &no_polish);
    assert!(good_score > mixed_score);
}

#[test]
fn no_iteration_returns_the_partition_and_its_score() {
    let frags = two_haplotypes();
    let partition = vec![group(&[0, 1, 2, 3, 4]), group(&[5, 6, 7, 8, 9, 10, 11])];
    let (_, expected) = evaluate(&frags, &partition, false, &upem, &no_polish);
    let (score, part, block) =
        optimize_clustering(&frags, partition.clone(), false, 0, &upem, &upem_gain, &no_polish);
    assert_eq!(score, expected);
    assert_eq!(part, partition);
    assert_eq!(block.blocks.len(), 2);
    assert_eq!(block.blocks[1].support_at(0, 0), 1);
    assert_eq!(block.blocks[1].support_at(0, 1), 6);
}

#[test]
fn misplaced_read_is_moved_back() {
    let frags = two_haplotypes();
    let partition = vec![group(&[0, 1, 2, 3, 4]), group(&[5, 6, 7, 8, 9, 10, 11])];
    let (before, _) = {
        let (_, s) = evaluate(&frags, &partition, false, &upem, &no_polish);
        (s, ())
    };
    let (score, part, block) =
        optimize_clustering(&frags, partition, false, 10, &upem, &upem_gain, &no_polish);
    assert!(score > before);
    assert_eq!(listed(&part[0]), vec![0, 1, 2, 3, 4, 5]);
    assert_eq!(listed(&part[1]), vec![6, 7, 8, 9, 10, 11]);
    assert_eq!(block.blocks[1].support_at(0, 0), 0);
    let (_, after) = evaluate(&frags, &part, false, &upem, &no_polish);
    assert_eq!(score, after);
}

#[test]
fn score_never_falls() {
    let mut frags = Vec::new();
    for i in 0..24usize {
        let hap = i % 3;
        let alleles: Vec<usize> = (0..6).map(|s| if (s + i) % 7 == 0 { 2 } else { hap }).collect();
        frags.push(read(i % 4, &alleles));
    }
    let partition = vec![
        (0..8usize).collect::<FxHashSet<usize>>(),
        (8..16usize).collect::<FxHashSet<usize>>(),
        (16..24usize).collect::<FxHashSet<usize>>(),
    ];
    let (_, before) = evaluate(&frags, &partition, false, &upem, &no_polish);
    let mut last = before;
    for iters in 0..6usize {
        let (score, part, _) = optimize_clustering(
            &frags,
            partition.clone(),
            false,
            iters,
            &upem,
            &upem_gain,
            &no_polish,
        );
        assert!(score >= last);
        last = score;
        let mut seen: Vec<usize> = part.iter().flat_map(|c| c.iter().copied()).collect();
        seen.sort();
        assert_eq!(seen, (0..24usize).collect::<Vec<usize>>());
    }
    assert!(last > before);
}

#[test]
fn polisher_is_asked_when_polishing() {
    let frags = two_haplotypes();
    let partition = vec![group(&[0, 1, 2, 3, 4, 5]), group(&[6, 7, 8, 9, 10, 11])];
    // a polisher that swaps the two haplotypes makes every call an error
    let swap = |block: &HapBlock| -> HapBlock {
        let part = vec![group(&[6, 7, 8, 9, 10, 11]), group(&[0, 1, 2, 3, 4, 5])];
        assert_eq!(block.blocks.len(), 2);
        hap_block_from_partition(&two_haplotypes(), &part)
    };
    let (plain, _) = {
        let (_, s) = evaluate(&frags, &partition, false, &upem, &swap);
        (s, ())
    };
    let (block, polished) = evaluate(&frags, &partition, true, &upem, &swap);
    assert!(polished < plain);
    assert_eq!(block.blocks[0].call_at(0), Some(1));
    let (score, part, _) =
        optimize_clustering(&frags, partition.clone(), true, 0, &upem, &upem_gain, &swap);
    assert_eq!(score, polished);
    assert_eq!(part, partition);
}

#[test]
fn proposals_list_every_move_of_a_read() {
    let frags = vec![
        read(0, &[0, 0, 0]),
        read(0, &[0, 0, 0]),
        read(0, &[0, 0, 0]),
        read(0, &[1, 1, 1]),
    ];
    let partition = vec![group(&[0, 1, 2]), group(&[3]), group(&[])];
    let block = hap_block_from_partition(&frags, &partition);
    let (binom, _) = get_partition_stats(&frags, &partition, &block);
    let list = propose_moves(&frags, &partition, &block, &binom);
    let seen: Vec<(usize, usize, usize)> = list.iter().map(|p| (p.from, p.read, p.to)).collect();
    assert_eq!(seen, vec![(0, 0, 1), (0, 0, 2), (0, 1, 1), (0, 1, 2), (0, 2, 1), (0, 2, 2)]);
    assert_eq!(list[0].from_after, (6, 0));
    assert_eq!(list[0].to_after, (3, 3));
    assert_eq!(list[1].from_after, (6, 0));
    assert_eq!(list[1].to_after, (0, 0));
}

#[test]
fn gains_are_asked_for_each_proposal() {
    let list = vec![move_of(0, 4, 1), move_of(0, 5, 1), move_of(1, 9, 0)];
    let by_read = |_b: &Vec<(usize, usize)>, f: &Vec<usize>, p: &Proposal| -> i64 {
        (p.read * 10 + f.len()) as i64
    };
    let gains = score_moves(&list, &vec![(1, 1), (2, 2)], &vec![6, 4], &by_read);
    assert_eq!(gains, vec![42, 52, 92]);
}

#[test]
fn best_moves_are_applied_first_and_limited() {
    // 31 reads: the limit is 31 / 10 = 3, so the moves at places 0..3 are applied
    let partition = vec![(0..30usize).collect::<FxHashSet<usize>>(), group(&[30])];
    let freq = vec![30, 1];
    let list: Vec<Proposal> = (0..8usize).map(|r| move_of(0, r, 1)).collect();
    let gains = vec![5, 9, -1, 9, 0, 3, 7, 8];
    let part = apply_moves(&partition, &freq, &list, &gains);
    // ranked: reads 1, 3 (gain 9), 7 (8), 6 (7), 0 (5), 5 (3)
    assert_eq!(listed(&part[1]), vec![1, 3, 7, 30]);
    assert_eq!(part[0].len(), 27);
    assert!(!part[0].contains(&1));
    assert!(part[0].contains(&6));
    assert!(part[0].contains(&0));
}

#[test]
fn few_proposals_lower_the_limit() {
    // 100 reads and 8 moves: 8 / 10 < (100 / 10) / 5, so the limit is 8 / 5 = 1
    let partition = vec![(0..99usize).collect::<FxHashSet<usize>>(), group(&[99])];
    let freq = vec![99, 1];
    let list: Vec<Proposal> = (0..8usize).map(|r| move_of(0, r, 1)).collect();
    let gains = vec![1, 2, 3, 4, 5, 6, 7, 8];
    let part = apply_moves(&partition, &freq, &list, &gains);
    assert_eq!(listed(&part[1]), vec![7, 99]);
}

#[test]
fn moved_and_last_reads_are_passed_over() {
    let partition = vec![(0..40usize).collect::<FxHashSet<usize>>(), group(&[60, 61]), group(&[70])];
    let freq = vec![40, 2, 1];
    let list = vec![move_of(0, 0, 1), move_of(0, 0, 2), move_of(1, 60, 0), move_of(1, 61, 0)];
    let gains = vec![8, 9, 7, 6];
    let part = apply_moves(&partition, &freq, &list, &gains);
    // 43 reads: the limit is 4. Read 0 moves to cluster 2 and not again; once
    // read 60 has left, read 61 is the last of its cluster
    let mut first: Vec<usize> = (1..40usize).collect();
    first.push(60);
    assert_eq!(listed(&part[0]), first);
    assert_eq!(listed(&part[1]), vec![61]);
    assert_eq!(listed(&part[2]), vec![0, 70]);
}

#[test]
fn passed_over_proposals_use_up_their_places() {
    // 20 reads: the limit is 2; the proposal at place 0 is passed over, the
    // one at place 1 is applied, the one at place 2 is beyond the limit
    let partition = vec![(0..17usize).collect::<FxHashSet<usize>>(), group(&[17, 18]), group(&[19])];
    let list = vec![move_of(2, 19, 0), move_of(0, 1, 2), move_of(1, 17, 0)];
    let part = apply_moves(&partition, &vec![17, 2, 1], &list, &vec![9, 8, 7]);
    assert_eq!(listed(&part[1]), vec![17, 18]);
    assert_eq!(listed(&part[2]), vec![1, 19]);
    assert_eq!(part[0].len(), 16);
}

#[test]
fn no_move_below_ten_reads() {
    // 2 reads: the limit is 2 / 10 = 0
    let partition = vec![group(&[0, 1]), group(&[])];
    let list = vec![move_of(0, 0, 1), move_of(0, 1, 1)];
    let part = apply_moves(&partition, &vec![2, 0], &list, &vec![1, 0]);
    assert_eq!(part, partition);
    let partition = vec![group(&[0, 1, 2]), group(&[3, 4]), group(&[5])];
    let list = vec![move_of(0, 0, 1), move_of(0, 1, 2), move_of(1, 3, 0), move_of(1, 4, 0)];
    let part = apply_moves(&partition, &vec![3, 2, 1], &list, &vec![4, 9, 8, 7]);
    assert_eq!(part, partition);
}

#[test]
fn moves_without_gain_change_nothing() {
    let partition = vec![group(&[0, 1, 2]), group(&[3, 4])];
    let list = vec![move_of(0, 0, 1), move_of(1, 3, 0)];
    let part = apply_moves(&partition, &vec![3, 2], &list, &vec![0, -5]);
    assert_eq!(part, partition);
}

#[test]
fn one_iteration_moves_the_misplaced_read() {
    let frags = two_haplotypes();
    let partition = vec![group(&[0, 1, 2, 3, 4]), group(&[5, 6, 7, 8, 9, 10, 11])];
    let block = hap_block_from_partition(&frags, &partition);
    let part = opt_iterate(&frags, &partition, &block, &upem_gain);
    assert_eq!(listed(&part[0]), vec![0, 1, 2, 3, 4, 5]);
    assert_eq!(listed(&part[1]), vec![6, 7, 8, 9, 10, 11]);
}

#[test]
fn one_iteration_moves_at_most_a_tenth_of_the_reads() {
    let mut frags = Vec::new();
    for i in 0..24usize {
        let hap = i % 3;
        let alleles: Vec<usize> = (0..6).map(|s| if (s + i) % 7 == 0 { 2 } else { hap }).collect();
        frags.push(read(i % 4, &alleles));
    }
    let partition = vec![
        (0..8usize).collect::<FxHashSet<usize>>(),
        (8..16usize).collect::<FxHashSet<usize>>(),
        (16..24usize).collect::<FxHashSet<usize>>(),
    ];
    let block = hap_block_from_partition(&frags, &partition);
    let part = opt_iterate(&frags, &partition, &block, &upem_gain);
    let mut changed = 0;
    for r in 0..24usize {
        for c in 0..3 {
            if partition[c].contains(&r) && !part[c].contains(&r) {
                changed += 1;
            }
        }
    }
    assert!(changed <= 24 / 10);
    assert!(changed > 0);
    assert!(part.iter().all(|c| !c.is_empty()));
}
