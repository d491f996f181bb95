use polyphase::epsilon::estimate_epsilon;
use polyphase::epsilon::estimate_from_windows;
use polyphase::epsilon::pick_windows;
use polyphase::frag::Frag;
use polyphase::weight::ordinal_from_bits;
use rand::Rng;
use rand::SeedableRng;
use rand_pcg::Pcg64;

fn fragment(first: usize, alleles: &[usize]) -> Frag {
    let list: Vec<(usize, usize)> =
        alleles.iter().enumerate().map(|(i, a)| (first + i, *a)).collect();
    Frag::new(first, first + alleles.len() - 1, &list).unwrap()
}

fn tail(n: usize, k: usize, p: f64, div_factor: f64) -> f64 {
    if n == 0 {
        return 0.0;
    }
    let n64 = n as f64;
    let a = (k as f64 / n64).clamp(1e-7, 1.0 - 1e-7);
    let mut rel_ent = a * (a / p).ln() + (1.0 - a) * ((1.0 - a) / (1.0 - p)).ln();
    if a < p {
        rel_ent = -rel_ent;
    }
    -1.0 * n64 / div_factor * rel_ent
}

fn weigh(n: usize, d: usize) -> i64 {
    let epsilon = 0.05;
    let dist = -1.0 * tail(n, d, 2.0 * epsilon * (1.0 - epsilon), 100.0);
    ordinal_from_bits((dist + 0.0).to_bits())
}

fn noisy_reads() -> Vec<Frag> {
    let mut frags = Vec::new();
    for w in 0..8usize {
        let base = w * 10;
        frags.push(fragment(base, &[0, 0, 0, 0]));
        frags.push(fragment(base, &[0, 0, 0, 0]));
        frags.push(fragment(base, &[0, 0, 0, 1]));
        frags.push(fragment(base, &[1, 1, 1, 1]));
    }
    frags
}

#[test]
fn windows_are_those_of_the_seeded_generator() {
    let mut rng = Pcg64::seed_from_u64(1);
    let mut expected: Vec<u64> = Vec::new();
    for _ in 0..20 {
        expected.push(rng.gen_range(0, 1000u64));
    }
    assert_eq!(pick_windows(1000, 20), expected);
    assert!(expected.iter().any(|w| *w != expected[0]));
}

#[test]
fn windows_stay_below_the_bound() {
    let windows = pick_windows(7, 200);
    assert_eq!(windows.len(), 200);
    assert!(windows.iter().all(|w| *w < 7));
    assert!(pick_windows(0, 0).is_empty());
    assert_eq!(pick_windows(1, 3), vec![0, 0, 0]);
}

#[test]
fn estimate_of_one_window() {
    let frags = vec![
        fragment(0, &[0, 0, 0, 0]),
        fragment(0, &[0, 0, 0, 0]),
        fragment(0, &[0, 0, 0, 1]),
        fragment(0, &[1, 1, 1, 1]),
    ];
    // clusters {0, 1, 2} and {3}: rates 1/12 and 0/4
    let r = estimate_from_windows(&vec![0], 2, &frags, 10, &weigh).unwrap();
    assert_eq!((r.errors, r.total), (0, 4));
}

#[test]
fn estimate_is_the_rate_at_the_tenth_part() {
    let frags = vec![
        fragment(0, &[0, 0, 0, 0]),
        fragment(0, &[0, 0, 0, 0]),
        fragment(0, &[0, 0, 0, 1]),
        fragment(0, &[1, 1, 1, 0]),
        fragment(0, &[1, 1, 1, 1]),
        fragment(0, &[1, 1, 1, 1]),
        fragment(0, &[1, 1, 1, 1]),
    ];
    // every window gives the rates 1/12 and 1/16; of 20 rates the one at place 2 is 1/16
    let windows = vec![0u64; 10];
    let r = estimate_from_windows(&windows, 2, &frags, 10, &weigh).unwrap();
    assert_eq!((r.errors, r.total), (1, 16));
}

#[test]
fn estimate_without_calls_is_none() {
    let frags: Vec<Frag> = Vec::new();
    assert!(estimate_epsilon(5, 10, 2, &frags, 100, &weigh).is_none());
    let frags = noisy_reads();
    assert!(estimate_from_windows(&Vec::new(), 2, &frags, 10, &weigh).is_none());
}

#[test]
fn estimate_is_reproducible() {
    let frags = noisy_reads();
    let first = estimate_epsilon(8, 10, 2, &frags, 10, &weigh).unwrap();
    let second = estimate_epsilon(8, 10, 2, &frags, 10, &weigh).unwrap();
    assert_eq!((first.errors, first.total), (second.errors, second.total));
    let windows = pick_windows(8, 10);
    let direct = estimate_from_windows(&windows, 2, &frags, 10, &weigh).unwrap();
    assert_eq!((first.errors, first.total), (direct.errors, direct.total));
}

#[test]
fn window_ends_before_the_next_begins() {
    // window 0 of 4 sites holds the sites 0..=3: the reads that begin at site
    // 4 belong to window 1
    let frags = vec![
        fragment(0, &[0, 0, 0, 0]),
        fragment(0, &[1, 1, 1, 1]),
        fragment(4, &[0, 0, 0, 0, 0]),
        fragment(4, &[1, 1, 1, 1, 1]),
    ];
    let first = estimate_from_windows(&vec![0], 2, &frags, 4, &weigh).unwrap();
    assert_eq!((first.errors, first.total), (0, 4));
    let second = estimate_from_windows(&vec![1], 2, &frags, 4, &weigh).unwrap();
    assert_eq!((second.errors, second.total), (0, 5));
}

#[test]
fn read_across_the_boundary_is_in_both_windows() {
    let frags = vec![
        fragment(0, &[0, 0, 0, 0]),
        fragment(2, &[1, 1, 1, 1]),
        fragment(4, &[0, 0, 0, 0]),
    ];
    // window 0: reads 0 and 1 overlap at the sites 2 and 3; window 1: reads 1 and 2
    let first = estimate_from_windows(&vec![0], 2, &frags, 4, &weigh).unwrap();
    assert_eq!((first.errors, first.total), (0, 4));
    let second = estimate_from_windows(&vec![1], 2, &frags, 4, &weigh).unwrap();
    assert_eq!((second.errors, second.total), (0, 4));
}

#[test]
fn window_without_sites_has_no_reads() {
    let frags = noisy_reads();
    assert!(estimate_from_windows(&vec![0, 1, 2], 2, &frags, 0, &weigh).is_none());
    assert!(estimate_epsilon(8, 10, 2, &frags, 0, &weigh).is_none());
}

#[test]
fn one_cluster_is_admitted_without_overlap() {
    let frags = vec![fragment(0, &[0, 0]), fragment(5, &[1, 1])];
    assert!(estimate_from_windows(&vec![0], 1, &frags, 10, &weigh).is_none());
    assert!(estimate_from_windows(&vec![0], 0, &frags, 10, &weigh).is_none());
}
