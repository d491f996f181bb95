use fxhash::FxHashSet;
use polyphase::graph::Edge;
use polyphase::graph::Link;
use polyphase::graph::ReadGraph;
use polyphase::populate::populate_clusters1;
use polyphase::populate::populate_clusters2_binom;
use polyphase::populate::populate_clusters3;
use polyphase::populate::MIN_OVERLAP;
use polyphase::weight::CEILING;

fn vertices(members: &[usize]) -> FxHashSet<usize> {
    members.iter().copied().collect()
}

fn sorted(set: &FxHashSet<usize>) -> Vec<usize> {
    let mut v: Vec<usize> = set.iter().copied().collect();
    v.sort();
    v
}

fn graph_of(n: usize, edges: &[(usize, usize, i64, usize)]) -> ReadGraph {
    let mut list = Vec::new();
    let mut links = Vec::new();
    for _ in 0..n {
        links.push(Vec::new());
    }
    for (a, b, w, shared) in edges.iter() {
        list.push(Edge { weight: *w, a: *a, b: *b, same: *shared, diff: 0 });
        links[*a].push(Link { weight: *w, to: *b, shared: *shared });
        links[*b].push(Link { weight: *w, to: *a, shared: *shared });
    }
    ReadGraph { edges: list, links }
}

fn two_sided(n: usize, shared: usize) -> ReadGraph {
    let mut edges = Vec::new();
    for a in 0..n {
        for b in (a + 1)..n {
            let w = if a % 2 == b % 2 { 1 } else { 50 };
            edges.push((a, b, w + (a + b) as i64 % 3, shared));
        }
    }
    graph_of(n, &edges)
}

fn difference(a: i64, b: i64) -> i64 {
    a - b
}

#[test]
fn min_overlap_is_fifty() {
    assert_eq!(MIN_OVERLAP, 50);
}

#[test]
fn rounds_place_every_vertex() {
    let g = two_sided(12, 2);
    let mut clusters = vec![vertices(&[0]), vertices(&[1])];
    let mut used = vertices(&[0, 1]);
    populate_clusters1(&mut clusters, &mut used, &g, 2);
    assert_eq!(sorted(&clusters[0]), vec![0, 2, 4, 6, 8, 10]);
    assert_eq!(sorted(&clusters[1]), vec![1, 3, 5, 7, 9, 11]);
    assert_eq!(used.len(), 12);
}

#[test]
fn well_overlapping_vertices_are_placed_first() {
    // vertex 2 shares 60 sites with both seeds, vertex 3 only 10: vertex 2 is
    // placed in the first round, and vertex 3, which is nearest to vertex 2's
    // cluster, in a relaxed round after it
    let g = graph_of(
        4,
        &[(0, 1, 90, 60), (0, 2, 5, 60), (1, 2, 80, 60), (0, 3, 70, 10), (1, 3, 60, 10), (2, 3, 1, 10)],
    );
    let mut clusters = vec![vertices(&[0]), vertices(&[1])];
    let mut used = vertices(&[0, 1]);
    populate_clusters1(&mut clusters, &mut used, &g, 2);
    assert_eq!(sorted(&clusters[0]), vec![0, 2]);
    assert_eq!(sorted(&clusters[1]), vec![1, 3]);
}

#[test]
fn rounds_on_placed_vertices_change_nothing() {
    let g = two_sided(4, 2);
    let mut clusters = vec![vertices(&[0, 2]), vertices(&[1, 3])];
    let mut used = vertices(&[0, 1, 2, 3]);
    populate_clusters1(&mut clusters, &mut used, &g, 2);
    assert_eq!(sorted(&clusters[0]), vec![0, 2]);
    assert_eq!(sorted(&clusters[1]), vec![1, 3]);
}

#[test]
fn passes_by_margin_place_every_vertex() {
    let g = two_sided(12, 2);
    let mut clusters = vec![vertices(&[0]), vertices(&[1])];
    let mut used = vertices(&[0, 1]);
    populate_clusters2_binom(&mut clusters, &mut used, &g, 2, 10, &difference);
    assert_eq!(sorted(&clusters[0]), vec![0, 2, 4, 6, 8, 10]);
    assert_eq!(sorted(&clusters[1]), vec![1, 3, 5, 7, 9, 11]);
    assert_eq!(used.len(), 12);
}

#[test]
fn lowest_margin_is_placed_first() {
    // spans of vertex 2: 3 and 40, margin -37; of vertex 3: 10 and 12, margin -2;
    // of vertex 4, without a link to cluster 1: the ceiling
    let g = graph_of(
        5,
        &[(0, 2, 3, 1), (1, 2, 40, 1), (0, 3, 12, 1), (1, 3, 10, 1), (0, 4, 7, 1), (2, 3, 1, 1)],
    );
    let asked = std::cell::RefCell::new(Vec::new());
    let margin = |a: i64, b: i64| -> i64 {
        asked.borrow_mut().push((a, b));
        a - b
    };
    let mut clusters = vec![vertices(&[0]), vertices(&[1])];
    let mut used = vertices(&[0, 1]);
    // 5 vertices in 3 passes: a pass before the last places 5 / 3 + 1 = 2
    populate_clusters2_binom(&mut clusters, &mut used, &g, 2, 3, &margin);
    assert_eq!(asked.borrow()[0], (3, 40));
    assert_eq!(asked.borrow()[1], (10, 12));
    assert!(asked.borrow().iter().all(|(a, _)| *a != polyphase::weight::NO_EDGE));
    assert_eq!(sorted(&clusters[0]), vec![0, 2]);
    assert_eq!(sorted(&clusters[1]), vec![1, 3, 4]);
    assert!(CEILING > 40);
}

#[test]
fn passes_agree_with_rounds_on_a_clear_split() {
    let g = two_sided(9, 2);
    let mut by_pass = vec![vertices(&[0]), vertices(&[1])];
    let mut used = vertices(&[0, 1]);
    populate_clusters3(&mut by_pass, &mut used, &g, 2, 10);
    let mut by_round = vec![vertices(&[0]), vertices(&[1])];
    let mut used = vertices(&[0, 1]);
    populate_clusters1(&mut by_round, &mut used, &g, 2);
    assert_eq!(by_pass, by_round);
}

#[test]
fn early_pass_places_one_more_than_its_share() {
    // 25 vertices in 10 passes: a pass before the last places 25 / 10 + 1 = 3
    // of those that wait, so 23, 20, 17, 14, 11, 8, 5 and 2 vertices wait in turn
    let g = two_sided(25, 2);
    let asked = std::cell::Cell::new(0usize);
    let margin = |a: i64, b: i64| -> i64 {
        asked.set(asked.get() + 1);
        a - b
    };
    let mut clusters = vec![vertices(&[0]), vertices(&[1])];
    let mut used = vertices(&[0, 1]);
    populate_clusters2_binom(&mut clusters, &mut used, &g, 2, 10, &margin);
    assert_eq!(asked.get(), 23 + 20 + 17 + 14 + 11 + 8 + 5 + 2);
    assert_eq!(used.len(), 25);
}
