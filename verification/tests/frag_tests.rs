use polyphase::frag::check_frags;
use polyphase::frag::check_overlap;
use polyphase::frag::distance;
use polyphase::frag::Frag;

fn read_at(first: usize, alleles: &[usize]) -> Frag {
    let calls: Vec<(usize, usize)> =
        alleles.iter().enumerate().map(|(i, a)| (first + i, *a)).collect();
    Frag::new(first, first + alleles.len() - 1, &calls).unwrap()
}

#[test]
fn new_keeps_calls_in_order() {
    let f = Frag::new(2, 9, &vec![(5, 1), (2, 0), (9, 3)]).unwrap();
    assert_eq!(f.first_position, 2);
    assert_eq!(f.last_position, 9);
    assert_eq!(f.positions, vec![5, 2, 9]);
    assert_eq!(f.allele_at(5), Some(1));
    assert_eq!(f.allele_at(2), Some(0));
    assert_eq!(f.allele_at(9), Some(3));
    assert_eq!(f.allele_at(3), None);
}

#[test]
fn new_rejects_repeated_site() {
    assert!(Frag::new(0, 9, &vec![(1, 0), (4, 1), (1, 1)]).is_none());
}

#[test]
fn new_rejects_site_outside_span() {
    assert!(Frag::new(3, 5, &vec![(2, 0)]).is_none());
    assert!(Frag::new(3, 5, &vec![(6, 0)]).is_none());
    assert!(Frag::new(3, 5, &vec![(3, 0), (5, 1)]).is_some());
}

#[test]
fn new_rejects_empty_span() {
    assert!(Frag::new(5, 4, &vec![]).is_none());
    assert!(Frag::new(5, 5, &vec![]).is_some());
}

#[test]
fn distance_counts_shared_sites_only() {
    let a = Frag::new(0, 9, &vec![(0, 0), (1, 1), (2, 0), (7, 1)]).unwrap();
    let b = Frag::new(0, 9, &vec![(1, 1), (2, 1), (3, 0), (7, 1)]).unwrap();
    assert_eq!(distance(&a, &b), (2, 1));
    assert_eq!(distance(&b, &a), (2, 1));
}

#[test]
fn distance_of_anti_correlated_reads() {
    let a = read_at(0, &[0, 0, 0, 0]);
    let b = read_at(0, &[1, 1, 1, 1]);
    assert_eq!(distance(&a, &b), (0, 4));
    assert_eq!(distance(&a, &a), (4, 0));
}

#[test]
fn distance_without_shared_site_is_zero() {
    let a = read_at(0, &[0, 0]);
    let b = read_at(5, &[1, 1]);
    assert_eq!(distance(&a, &b), (0, 0));
}

#[test]
fn overlap_needs_a_common_site() {
    let a = Frag::new(0, 10, &vec![(0, 0), (4, 0), (10, 0)]).unwrap();
    let b = Frag::new(1, 9, &vec![(1, 0), (5, 0), (9, 0)]).unwrap();
    let c = Frag::new(4, 20, &vec![(4, 1), (20, 0)]).unwrap();
    let d = Frag::new(11, 12, &vec![(11, 1)]).unwrap();
    assert!(!check_overlap(&a, &b));
    assert!(check_overlap(&a, &c));
    assert!(check_overlap(&c, &a));
    assert!(!check_overlap(&a, &d));
    assert!(!check_overlap(&d, &a));
}

#[test]
fn built_fragments_are_well_formed() {
    let f = Frag::new(2, 9, &vec![(5, 1), (2, 0), (9, 3)]).unwrap();
    assert!(f.is_wf());
    assert!(check_frags(&vec![read_at(0, &[0, 1]), read_at(3, &[1])]));
    assert!(check_frags(&Vec::new()));
}

#[test]
fn malformed_fragments_are_told() {
    let good = Frag::new(2, 9, &vec![(5, 1), (2, 0), (9, 3)]).unwrap();
    let mut repeated = Frag::new(2, 9, &vec![(5, 1), (2, 0), (9, 3)]).unwrap();
    repeated.positions.push(5);
    assert!(!repeated.is_wf());
    let mut outside = Frag::new(2, 9, &vec![(5, 1), (2, 0), (9, 3)]).unwrap();
    outside.last_position = 8;
    assert!(!outside.is_wf());
    let mut uncalled = Frag::new(2, 9, &vec![(5, 1), (2, 0), (9, 3)]).unwrap();
    uncalled.positions.push(7);
    assert!(!uncalled.is_wf());
    let mut unlisted = Frag::new(2, 9, &vec![(5, 1), (2, 0), (9, 3)]).unwrap();
    unlisted.seq_dict.insert(7, 0);
    assert!(!unlisted.is_wf());
    let mut reversed = Frag::new(2, 9, &vec![]).unwrap();
    reversed.first_position = 10;
    assert!(!reversed.is_wf());
    assert!(!check_frags(&vec![good, unlisted]));
}
