use fxhash::FxHashSet;
use polyphase::clique::best_extension;
use polyphase::clique::heaviest_edge;
use polyphase::clique::seed_clique;
use polyphase::cluster::cluster_reads;
use polyphase::cluster::has_no_edge;
use polyphase::cluster::generate_hap_block;
use polyphase::frag::Frag;
use polyphase::graph::build_graph;
use polyphase::graph::Edge;
use polyphase::populate::nearest_cluster;
use polyphase::populate::populate_clusters3;
use polyphase::weight::ordinal_from_bits;
use polyphase::weight::CEILING;
use polyphase::weight::NO_EDGE;

fn read_of(first: usize, alleles: &[usize]) -> Frag {
    let calls: Vec<(usize, usize)> =
        alleles.iter().enumerate().map(|(i, a)| (first + i, *a)).collect();
    Frag::new(first, first + alleles.len() - 1, &calls).unwrap()
}

fn log_tail(n: usize, k: usize, p: f64, div_factor: f64) -> f64 {
    if n == 0 {
        return 0.0;
    }
    let n64 = n as f64;
    let a = (k as f64 / n64).clamp(1e-7, 1.0 - 1e-7);
    let mut rel_ent = a * (a / p).ln() + (1.0 - a) * ((1.0 - a) / (1.0 - p)).ln();
    if a < p {
        rel_ent = -rel_ent;
    }
    -1.0 * n64 / div_factor * rel_ent
}

fn edge_weight(n: usize, d: usize) -> i64 {
    let epsilon = 0.05;
    let dist = -1.0 * log_tail(n, d, 2.0 * epsilon * (1.0 - epsilon), 100.0);
    ordinal_from_bits((dist + 0.0).to_bits())
}

fn differing(_n: usize, d: usize) -> i64 {
    d as i64
}

fn set_of(members: &[usize]) -> FxHashSet<usize> {
    members.iter().copied().collect()
}

fn all_reads(n: usize) -> FxHashSet<usize> {
    (0..n).collect()
}

fn members_of(set: &FxHashSet<usize>) -> Vec<usize> {
    let mut v: Vec<usize> = set.iter().copied().collect();
    v.sort();
    v
}

#[test]
fn empty_interval_gives_empty_clusters() {
    let frags: Vec<Frag> = Vec::new();
    let partition = generate_hap_block(0, 100, 3, &frags, &edge_weight);
    assert_eq!(partition.len(), 3);
    for cluster in partition.iter() {
        assert!(cluster.is_empty());
    }
    let reads: FxHashSet<usize> = FxHashSet::default();
    let partition = cluster_reads(&frags, &reads, 3, &edge_weight);
    assert_eq!(partition.len(), 3);
    assert!(partition.iter().all(|c| c.is_empty()));
}

#[test]
fn reads_without_overlap_stay_unclustered() {
    let frags = vec![read_of(0, &[0, 0]), read_of(5, &[1, 1]), read_of(10, &[0, 1])];
    let partition = cluster_reads(&frags, &all_reads(3), 2, &edge_weight);
    assert_eq!(partition.len(), 2);
    assert!(partition.iter().all(|c| c.is_empty()));
}

#[test]
fn two_anti_correlated_reads_are_separated() {
    let frags = vec![read_of(0, &[0, 0, 0, 0]), read_of(0, &[1, 1, 1, 1])];
    let partition = cluster_reads(&frags, &all_reads(2), 2, &edge_weight);
    assert_eq!(partition.len(), 2);
    assert_eq!(members_of(&partition[0]), vec![0]);
    assert_eq!(members_of(&partition[1]), vec![1]);
}

#[test]
fn identical_reads_share_a_cluster() {
    let frags = vec![
        read_of(0, &[0, 0, 0]),
        read_of(0, &[0, 0, 0]),
        read_of(0, &[0, 0, 0]),
        read_of(0, &[1, 1, 1]),
    ];
    let partition = cluster_reads(&frags, &all_reads(4), 2, &edge_weight);
    assert_eq!(partition.len(), 2);
    assert_eq!(members_of(&partition[0]), vec![0, 1, 2]);
    assert_eq!(members_of(&partition[1]), vec![3]);
}

#[test]
fn clusters_hold_only_the_given_reads() {
    let frags = vec![
        read_of(0, &[0, 0, 0]),
        read_of(0, &[1, 1, 1]),
        read_of(0, &[0, 0, 1]),
        read_of(0, &[1, 1, 0]),
        read_of(1, &[0, 0, 0]),
    ];
    let reads = set_of(&[0, 1, 3]);
    let partition = cluster_reads(&frags, &reads, 2, &edge_weight);
    assert_eq!(members_of(&partition[0]), vec![0]);
    assert_eq!(members_of(&partition[1]), vec![1, 3]);
}

#[test]
fn clustering_is_a_partition_of_the_reads() {
    let mut frags = Vec::new();
    for i in 0..30usize {
        let hap = i % 3;
        let alleles: Vec<usize> = (0..8).map(|s| (s + i / 3) % 3 * 0 + (hap + s) % 3).collect();
        frags.push(read_of(i % 5, &alleles));
    }
    let k = 3;
    let partition = cluster_reads(&frags, &all_reads(30), k, &edge_weight);
    assert_eq!(partition.len(), k);
    let mut seen = Vec::new();
    for cluster in partition.iter() {
        for r in cluster.iter() {
            seen.push(*r);
        }
    }
    seen.sort();
    assert_eq!(seen, (0..30usize).collect::<Vec<usize>>());
}

#[test]
fn clustering_within_an_interval() {
    let frags = vec![
        read_of(0, &[0, 0, 0]),
        read_of(0, &[1, 1, 1]),
        read_of(1, &[0, 0, 0]),
        read_of(50, &[1, 1]),
    ];
    let partition = generate_hap_block(0, 10, 2, &frags, &edge_weight);
    assert_eq!(partition.len(), 2);
    assert_eq!(members_of(&partition[0]), vec![0, 2]);
    assert_eq!(members_of(&partition[1]), vec![1]);
}

#[test]
fn graph_lists_overlapping_pairs_in_order() {
    let frags = vec![
        read_of(0, &[0, 0, 0]),
        read_of(2, &[0, 1, 1]),
        read_of(10, &[0]),
        read_of(1, &[1, 0, 1, 1]),
    ];
    let reads = vec![0, 1, 2, 3];
    let g = build_graph(&frags, &reads, &differing);
    let shapes: Vec<(usize, usize, usize, usize, i64)> =
        g.edges.iter().map(|e| (e.a, e.b, e.same, e.diff, e.weight)).collect();
    assert_eq!(shapes, vec![(0, 1, 1, 0, 0), (0, 3, 1, 1, 1), (1, 3, 3, 0, 0)]);
    assert_eq!(g.links.len(), 4);
    let links0: Vec<(usize, usize, i64)> =
        g.links[0].iter().map(|l| (l.to, l.shared, l.weight)).collect();
    assert_eq!(links0, vec![(1, 1, 0), (3, 2, 1)]);
    let links3: Vec<(usize, usize, i64)> =
        g.links[3].iter().map(|l| (l.to, l.shared, l.weight)).collect();
    assert_eq!(links3, vec![(0, 2, 1), (1, 3, 0)]);
    assert!(g.links[2].is_empty());
}

fn edge(a: usize, b: usize, weight: i64) -> Edge {
    Edge { weight, a, b, same: 0, diff: 1 }
}

#[test]
fn heaviest_edge_is_the_last_of_the_heaviest() {
    let edges = vec![edge(0, 1, 4), edge(0, 2, 9), edge(1, 2, 9), edge(2, 3, 1)];
    assert_eq!(heaviest_edge(&edges), 2);
    assert_eq!(heaviest_edge(&vec![edge(0, 1, -3)]), 0);
}

fn weighted_graph(n: usize, weights: &[(usize, usize, i64)]) -> polyphase::graph::ReadGraph {
    let mut edges = Vec::new();
    let mut links = Vec::new();
    for _ in 0..n {
        links.push(Vec::new());
    }
    for (a, b, w) in weights.iter() {
        edges.push(Edge { weight: *w, a: *a, b: *b, same: 1, diff: 1 });
        links[*a].push(polyphase::graph::Link { weight: *w, to: *b, shared: 2 });
        links[*b].push(polyphase::graph::Link { weight: *w, to: *a, shared: 2 });
    }
    polyphase::graph::ReadGraph { edges, links }
}

#[test]
fn extension_needs_links_to_every_member() {
    let g = weighted_graph(5, &[(0, 1, 10), (0, 2, 8), (1, 2, 3), (0, 3, 9), (1, 4, 9), (0, 4, 2)]);
    let clique = set_of(&[0, 1]);
    // vertex 3 reaches only 0; vertex 2 has least weight 3, vertex 4 has 2
    assert_eq!(best_extension(&g, &clique), Some((2, 3)));
}

#[test]
fn extension_prefers_the_higher_vertex_among_equals() {
    let g = weighted_graph(4, &[(0, 1, 10), (0, 2, 5), (1, 2, 7), (0, 3, 6), (1, 3, 5)]);
    assert_eq!(best_extension(&g, &set_of(&[0, 1])), Some((3, 5)));
}

#[test]
fn no_extension_without_full_adjacency() {
    let g = weighted_graph(4, &[(0, 1, 10), (0, 2, 5), (1, 3, 7)]);
    assert_eq!(best_extension(&g, &set_of(&[0, 1])), None);
}

#[test]
fn clique_grows_to_the_ploidy() {
    let g = weighted_graph(
        5,
        &[(0, 1, 10), (0, 2, 8), (1, 2, 3), (0, 3, 9), (1, 3, 9), (2, 3, 1), (0, 4, 2), (1, 4, 2)],
    );
    assert_eq!(seed_clique(&g, 2), vec![0, 1]);
    assert_eq!(seed_clique(&g, 3), vec![0, 1, 3]);
    assert_eq!(seed_clique(&g, 4), vec![0, 1, 3, 2]);
    // vertex 4 is not linked to 2 and 3: the clique stays at four
    assert_eq!(seed_clique(&g, 5), vec![0, 1, 3, 2]);
}

#[test]
fn nearest_cluster_has_least_greatest_weight() {
    let g = weighted_graph(5, &[(0, 4, 7), (1, 4, 2), (2, 4, 5), (3, 4, 2)]);
    let clusters = vec![set_of(&[0, 1]), set_of(&[2]), set_of(&[3])];
    assert_eq!(nearest_cluster(&g.links[4], &clusters), 2);
    let clusters = vec![set_of(&[0]), set_of(&[1]), set_of(&[3])];
    assert_eq!(nearest_cluster(&g.links[4], &clusters), 1);
}

#[test]
fn cluster_without_link_counts_as_no_edge() {
    let g = weighted_graph(3, &[(0, 2, NO_EDGE + 5)]);
    // the span of cluster 0 is NO_EDGE + 5; that of cluster 1, without a link, NO_EDGE
    let clusters = vec![set_of(&[0]), set_of(&[1])];
    assert_eq!(nearest_cluster(&g.links[2], &clusters), 1);
    let g = weighted_graph(3, &[(0, 2, NO_EDGE - 5)]);
    // a weight below NO_EDGE does not lower the span: both are NO_EDGE, the first wins
    assert_eq!(nearest_cluster(&g.links[2], &clusters), 0);
}

#[test]
fn spans_at_the_ceiling_fall_to_the_first_cluster() {
    let g = weighted_graph(3, &[(0, 2, i64::MAX), (1, 2, CEILING)]);
    let clusters = vec![set_of(&[0]), set_of(&[1])];
    assert_eq!(nearest_cluster(&g.links[2], &clusters), 0);
}

#[test]
fn populate_places_every_vertex_once() {
    let mut weights = Vec::new();
    for a in 0..12usize {
        for b in (a + 1)..12usize {
            let w = if a % 2 == b % 2 { 1 } else { 50 };
            weights.push((a, b, w + (a + b) as i64 % 3));
        }
    }
    let g = weighted_graph(12, &weights);
    let mut clusters = vec![set_of(&[0]), set_of(&[1])];
    let mut used = set_of(&[0, 1]);
    populate_clusters3(&mut clusters, &mut used, &g, 2, 10);
    assert_eq!(members_of(&clusters[0]), vec![0, 2, 4, 6, 8, 10]);
    assert_eq!(members_of(&clusters[1]), vec![1, 3, 5, 7, 9, 11]);
    assert_eq!(used.len(), 12);
}

#[test]
fn single_pass_places_all_and_no_pass_places_none() {
    let mut weights = Vec::new();
    for b in 1..25usize {
        weights.push((0, b, 1));
    }
    let g = weighted_graph(25, &weights);
    let mut clusters = vec![set_of(&[0]), set_of(&[])];
    let mut used = set_of(&[0]);
    populate_clusters3(&mut clusters, &mut used, &g, 2, 1);
    assert_eq!(used.len(), 25);
    let mut clusters = vec![set_of(&[0]), set_of(&[])];
    let mut used = set_of(&[0]);
    populate_clusters3(&mut clusters, &mut used, &g, 2, 0);
    assert_eq!(used.len(), 1);
    assert_eq!(members_of(&clusters[0]), vec![0]);
}

#[test]
fn any_ploidy_without_overlap() {
    let frags = vec![read_of(0, &[0, 0]), read_of(5, &[1, 1]), read_of(10, &[0, 1])];
    for k in 0..5usize {
        let partition = cluster_reads(&frags, &all_reads(3), k, &edge_weight);
        assert_eq!(partition.len(), k);
        assert!(partition.iter().all(|c| c.is_empty()));
        let partition = cluster_reads(&frags, &set_of(&[1]), k, &edge_weight);
        assert_eq!(partition.len(), k);
        assert!(partition.iter().all(|c| c.is_empty()));
        let partition = generate_hap_block(0, 100, k, &Vec::new(), &edge_weight);
        assert_eq!(partition.len(), k);
    }
}

#[test]
fn edges_are_told() {
    let frags = vec![read_of(0, &[0, 0]), read_of(5, &[1, 1]), read_of(1, &[0, 1])];
    assert!(has_no_edge(&frags, &set_of(&[0, 1])));
    assert!(has_no_edge(&frags, &set_of(&[1, 2])));
    assert!(!has_no_edge(&frags, &set_of(&[0, 2])));
    assert!(!has_no_edge(&frags, &all_reads(3)));
    assert!(has_no_edge(&frags, &set_of(&[])));
    assert!(has_no_edge(&frags, &set_of(&[2])));
}
