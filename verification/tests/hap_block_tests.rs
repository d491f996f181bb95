use fxhash::FxHashSet;
use polyphase::frag::Frag;
use polyphase::hap_block::check_hist;
use polyphase::hap_block::consensus;
use polyphase::hap_block::distance_read_haplo;
use polyphase::hap_block::hap_block_from_partition;
use polyphase::hap_block::AlleleCount;
use polyphase::hap_block::Haplotype;
use polyphase::partition::check_below;
use polyphase::partition::check_partition;
use polyphase::stats::check_calls_countable;
use polyphase::stats::get_mec_score;
use polyphase::stats::get_partition_stats;

fn calls(first: usize, alleles: &[usize]) -> Frag {
    let list: Vec<(usize, usize)> =
        alleles.iter().enumerate().map(|(i, a)| (first + i, *a)).collect();
    Frag::new(first, first + alleles.len() - 1, &list).unwrap()
}

fn cluster(members: &[usize]) -> FxHashSet<usize> {
    members.iter().copied().collect()
}

fn sample_frags() -> Vec<Frag> {
    vec![
        calls(0, &[0, 0, 0]),
        calls(0, &[0, 1, 0]),
        calls(1, &[1, 2, 2]),
        calls(0, &[1, 1, 1]),
        calls(2, &[1, 0]),
    ]
}

#[test]
fn block_counts_the_calls_of_each_cluster() {
    let frags = sample_frags();
    let part = vec![cluster(&[0, 1, 2]), cluster(&[3, 4])];
    let block = hap_block_from_partition(&frags, &part);
    assert_eq!(block.blocks.len(), 2);
    let h0 = &block.blocks[0];
    assert_eq!(h0.support_at(0, 0), 2);
    assert_eq!(h0.support_at(0, 1), 0);
    assert_eq!(h0.support_at(1, 0), 1);
    assert_eq!(h0.support_at(1, 1), 2);
    assert_eq!(h0.support_at(2, 0), 2);
    assert_eq!(h0.support_at(2, 2), 1);
    assert_eq!(h0.support_at(3, 2), 1);
    assert_eq!(h0.support_at(4, 0), 0);
    let h1 = &block.blocks[1];
    assert_eq!(h1.support_at(2, 1), 2);
    assert_eq!(h1.support_at(3, 0), 1);
    assert_eq!(h1.support_at(0, 1), 1);
    assert_eq!(h1.support_at(0, 0), 0);
}

#[test]
fn block_of_empty_clusters_has_no_sites() {
    let frags = sample_frags();
    let part = vec![cluster(&[]), cluster(&[]), cluster(&[])];
    let block = hap_block_from_partition(&frags, &part);
    assert_eq!(block.blocks.len(), 3);
    for hap in block.blocks.iter() {
        assert!(hap.sites.is_empty());
        assert_eq!(hap.call_at(0), None);
    }
}

#[test]
fn site_counts_add_up_to_the_covering_reads() {
    let frags = sample_frags();
    let part = vec![cluster(&[0, 1, 2]), cluster(&[3, 4])];
    let block = hap_block_from_partition(&frags, &part);
    for (h, hap) in block.blocks.iter().enumerate() {
        for site in hap.sites.iter() {
            let sum: usize = site.alleles.iter().map(|e| e.count).sum();
            let covering = part[h]
                .iter()
                .filter(|r| frags[**r].allele_at(site.position).is_some())
                .count();
            assert_eq!(sum, covering);
        }
        for p in 0..6usize {
            let covering = part[h].iter().filter(|r| frags[**r].allele_at(p).is_some()).count();
            assert_eq!(hap.call_at(p).is_some(), covering > 0);
        }
    }
}

#[test]
fn consensus_is_the_most_called_allele() {
    let frags = sample_frags();
    let part = vec![cluster(&[0, 1, 2]), cluster(&[3, 4])];
    let block = hap_block_from_partition(&frags, &part);
    let h0 = &block.blocks[0];
    assert_eq!(h0.call_at(0), Some(0));
    assert_eq!(h0.call_at(1), Some(1));
    assert_eq!(h0.call_at(2), Some(0));
    assert_eq!(h0.call_at(3), Some(2));
    assert_eq!(h0.call_at(4), None);
}

#[test]
fn consensus_tie_goes_to_the_lowest_allele() {
    let hist = vec![
        AlleleCount { allele: 3, count: 2 },
        AlleleCount { allele: 1, count: 2 },
        AlleleCount { allele: 2, count: 1 },
    ];
    assert_eq!(consensus(&hist), 1);
    let hist = vec![AlleleCount { allele: 7, count: 1 }];
    assert_eq!(consensus(&hist), 7);
    let frags = vec![calls(0, &[1]), calls(0, &[0])];
    let block = hap_block_from_partition(&frags, &vec![cluster(&[0, 1])]);
    assert_eq!(block.blocks[0].call_at(0), Some(0));
}

#[test]
fn record_counts_one_call() {
    let mut hap = Haplotype::new();
    assert_eq!(hap.support_at(4, 1), 0);
    hap.record(4, 1);
    hap.record(4, 1);
    hap.record(4, 0);
    hap.record(9, 2);
    assert_eq!(hap.support_at(4, 1), 2);
    assert_eq!(hap.support_at(4, 0), 1);
    assert_eq!(hap.support_at(9, 2), 1);
    assert_eq!(hap.support_at(9, 1), 0);
    assert_eq!(hap.call_at(4), Some(1));
    assert_eq!(hap.call_at(5), None);
}

#[test]
fn read_against_haplotype() {
    let frags = sample_frags();
    let part = vec![cluster(&[0, 1, 2]), cluster(&[3, 4])];
    let block = hap_block_from_partition(&frags, &part);
    // consensus of haplotype 0 at sites 0..=3: 0, 1, 0, 2
    assert_eq!(distance_read_haplo(&frags[0], &block.blocks[0]), (2, 1));
    assert_eq!(distance_read_haplo(&frags[1], &block.blocks[0]), (3, 0));
    assert_eq!(distance_read_haplo(&frags[2], &block.blocks[0]), (2, 1));
    assert_eq!(distance_read_haplo(&frags[3], &block.blocks[0]), (1, 2));
    // a site without histogram is passed over
    let wide = calls(2, &[0, 2, 5, 5]);
    assert_eq!(distance_read_haplo(&wide, &block.blocks[0]), (2, 0));
}

#[test]
fn consensus_reads_give_back_the_consensus() {
    let frags = sample_frags();
    let part = vec![cluster(&[0, 1, 2]), cluster(&[3, 4])];
    let block = hap_block_from_partition(&frags, &part);
    let mut readback = Vec::new();
    for hap in block.blocks.iter() {
        let mut list = Vec::new();
        for site in hap.sites.iter() {
            list.push((site.position, hap.call_at(site.position).unwrap()));
        }
        readback.push(Frag::new(0, 10, &list).unwrap());
    }
    let again = hap_block_from_partition(&readback, &vec![cluster(&[0]), cluster(&[1])]);
    for h in 0..2 {
        for p in 0..8usize {
            assert_eq!(again.blocks[h].call_at(p), block.blocks[h].call_at(p));
        }
    }
    // the counts are not kept
    assert_eq!(block.blocks[0].support_at(1, 1), 2);
    assert_eq!(again.blocks[0].support_at(1, 1), 1);
}

#[test]
fn partition_stats_count_agreement_with_the_consensus() {
    let frags = vec![
        calls(0, &[0, 0, 0]),
        calls(0, &[0, 0, 0]),
        calls(0, &[0, 0, 0]),
        calls(0, &[1, 1, 1]),
    ];
    let good = vec![cluster(&[0, 1, 2]), cluster(&[3])];
    let block = hap_block_from_partition(&frags, &good);
    let (binom, freq) = get_partition_stats(&frags, &good, &block);
    assert_eq!(binom, vec![(9, 0), (3, 0)]);
    assert_eq!(freq, vec![3, 1]);
    let bad = vec![cluster(&[0, 3]), cluster(&[1, 2])];
    let block = hap_block_from_partition(&frags, &bad);
    let (binom, freq) = get_partition_stats(&frags, &bad, &block);
    assert_eq!(binom, vec![(3, 3), (6, 0)]);
    assert_eq!(freq, vec![2, 2]);
}

#[test]
fn mec_score_is_the_negated_error_count() {
    assert_eq!(get_mec_score(&vec![(3, 3), (6, 0)]), -3);
    assert_eq!(get_mec_score(&vec![(9, 0), (3, 0)]), 0);
    assert_eq!(get_mec_score(&vec![(1, 2), (0, 5), (7, 11)]), -18);
    assert_eq!(get_mec_score(&Vec::new()), 0);
}

#[test]
fn calls_of_ordinary_reads_are_countable() {
    assert!(check_calls_countable(&sample_frags()));
    assert!(check_calls_countable(&Vec::new()));
}

#[test]
fn histograms_are_checked() {
    assert!(check_hist(&vec![AlleleCount { allele: 1, count: 2 }, AlleleCount { allele: 0, count: 1 }]));
    assert!(!check_hist(&Vec::new()));
    assert!(!check_hist(&vec![AlleleCount { allele: 1, count: 0 }]));
    assert!(!check_hist(&vec![AlleleCount { allele: 1, count: 2 }, AlleleCount { allele: 1, count: 1 }]));
}

#[test]
fn blocks_are_checked() {
    let frags = sample_frags();
    let part = vec![cluster(&[0, 1, 2]), cluster(&[3, 4])];
    let mut block = hap_block_from_partition(&frags, &part);
    assert!(block.is_wf());
    block.blocks[0].index.insert(99, 0);
    assert!(!block.is_wf());
    let mut block = hap_block_from_partition(&frags, &part);
    block.blocks[1].index.remove(&2);
    assert!(!block.is_wf());
    let mut block = hap_block_from_partition(&frags, &part);
    block.blocks[1].sites[0].alleles.clear();
    assert!(!block.is_wf());
    let mut block = hap_block_from_partition(&frags, &part);
    block.blocks[0].sites.swap(0, 1);
    assert!(!block.is_wf());
    assert!(Haplotype::new().is_wf());
}

#[test]
fn partitions_are_checked() {
    assert!(check_partition(&vec![cluster(&[0, 1, 2]), cluster(&[]), cluster(&[3, 4])], 5));
    assert!(!check_partition(&vec![cluster(&[0, 1, 2]), cluster(&[3, 4])], 4));
    assert!(!check_partition(&vec![cluster(&[0, 1, 2]), cluster(&[2, 3])], 5));
    assert!(check_partition(&Vec::new(), 0));
    assert!(check_below(&cluster(&[0, 3]), 4));
    assert!(!check_below(&cluster(&[0, 4]), 4));
    assert!(check_below(&cluster(&[]), 0));
}

#[test]
fn every_call_is_counted_once() {
    let frags = sample_frags();
    let part = vec![cluster(&[0, 1, 2]), cluster(&[3, 4])];
    let block = hap_block_from_partition(&frags, &part);
    let (binom, _) = get_partition_stats(&frags, &part, &block);
    for h in 0..2 {
        let calls: usize = part[h].iter().map(|r| frags[*r].positions.len()).sum();
        let counted: usize = block.blocks[h]
            .sites
            .iter()
            .map(|site| site.alleles.iter().map(|e| e.count).sum::<usize>())
            .sum();
        assert_eq!(binom[h].0 + binom[h].1, calls);
        assert_eq!(counted, calls);
    }
    assert_eq!(binom[0].0 + binom[0].1, 9);
    assert_eq!(binom[1].0 + binom[1].1, 5);
}
