use polyphase::frag::Frag;
use polyphase::interval::find_reads_in_interval;
use polyphase::interval::MAX_READ_LEN;
use polyphase::interval::MAX_SPAN;
use polyphase::interval::SNP_LEN;

fn span(first: usize, last: usize) -> Frag {
    Frag::new(first, last, &vec![(first, 0)]).unwrap()
}

fn sorted_members(set: &fxhash::FxHashSet<usize>) -> Vec<usize> {
    let mut v: Vec<usize> = set.iter().copied().collect();
    v.sort();
    v
}

#[test]
fn span_limit_is_read_length_over_site_distance() {
    assert_eq!(MAX_READ_LEN, 150000);
    assert_eq!(SNP_LEN, 45);
    assert_eq!(MAX_SPAN, 3333);
}

#[test]
fn empty_list_has_no_reads() {
    let frags: Vec<Frag> = Vec::new();
    assert!(find_reads_in_interval(0, 100, &frags).is_empty());
}

#[test]
fn selects_reads_that_meet_the_interval() {
    let frags = vec![span(0, 4), span(2, 10), span(10, 12), span(20, 25), span(26, 30)];
    let reads = find_reads_in_interval(10, 20, &frags);
    assert_eq!(sorted_members(&reads), vec![1, 2, 3]);
}

#[test]
fn interval_bounds_are_inclusive() {
    let frags = vec![span(0, 5), span(5, 5), span(5, 9), span(6, 9)];
    assert_eq!(sorted_members(&find_reads_in_interval(5, 5, &frags)), vec![0, 1, 2]);
    assert_eq!(sorted_members(&find_reads_in_interval(6, 6, &frags)), vec![2, 3]);
}

#[test]
fn wide_reads_are_dropped() {
    let frags = vec![span(0, 3333), span(0, 3334), span(1, 3334), span(1, 3335)];
    let reads = find_reads_in_interval(100, 200, &frags);
    assert_eq!(sorted_members(&reads), vec![0, 2]);
}

#[test]
fn scan_stops_at_first_read_beyond_the_interval() {
    let frags = vec![span(0, 4), span(9, 12), span(2, 6)];
    let reads = find_reads_in_interval(3, 5, &frags);
    assert_eq!(sorted_members(&reads), vec![0]);
}

#[test]
fn matches_filter_on_sorted_list() {
    let mut frags = Vec::new();
    for i in 0..40usize {
        let first = i * 3;
        let last = first + (i % 7) * 700;
        frags.push(span(first, last));
    }
    let (start, end) = (30usize, 75usize);
    let reads = find_reads_in_interval(start, end, &frags);
    let mut expected = Vec::new();
    for (i, f) in frags.iter().enumerate() {
        if f.first_position <= end
            && f.last_position >= start
            && f.last_position - f.first_position <= 150000 / 45
        {
            expected.push(i);
        }
    }
    assert_eq!(sorted_members(&reads), expected);
    assert!(!expected.is_empty());
}
