use fxhash::FxHashMap;
use polyphase::frag::Frag;
use polyphase::lookup::dist_from_graph;

fn simple(first: usize, alleles: &[usize]) -> Frag {
    let list: Vec<(usize, usize)> =
        alleles.iter().enumerate().map(|(i, a)| (first + i, *a)).collect();
    Frag::new(first, first + alleles.len() - 1, &list).unwrap()
}

#[test]
fn distance_is_found_under_either_read() {
    let frags = vec![simple(0, &[0, 0]), simple(1, &[0, 1]), simple(5, &[1])];
    let mut table: FxHashMap<usize, FxHashMap<usize, i32>> = FxHashMap::default();
    let mut under0: FxHashMap<usize, i32> = FxHashMap::default();
    under0.insert(1, 7);
    table.insert(0, under0);
    table.insert(1, FxHashMap::default());
    assert_eq!(dist_from_graph(&frags, 0, 1, &table), Some(7));
    assert_eq!(dist_from_graph(&frags, 1, 0, &table), Some(7));
}

#[test]
fn reads_without_overlap_have_no_distance() {
    let frags = vec![simple(0, &[0, 0]), simple(1, &[0, 1]), simple(5, &[1])];
    let table: FxHashMap<usize, FxHashMap<usize, i32>> = FxHashMap::default();
    assert_eq!(dist_from_graph(&frags, 0, 2, &table), None);
    assert_eq!(dist_from_graph(&frags, 2, 1, &table), None);
}
