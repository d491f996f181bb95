//! Filling the clusters: in each pass the reads that wait are ranked by how
//! well they overlap the cluster they overlap least, and placed one by one.

use crate::fx::set_contains;
use crate::fx::set_insert;
use crate::graph::links_of;
use crate::graph::Edge;
use crate::graph::Link;
use crate::graph::ReadGraph;
use crate::order::lemma_ranking_permutes;
use crate::order::ranking;
use crate::order::stable_order;
use crate::order::Desc;
use crate::partition::holds;
use crate::partition::is_partition;
use crate::partition::lemma_insert_member;
use crate::partition::sets_of;
use crate::weight::CEILING;
use crate::weight::NO_EDGE;
use fxhash::FxHashSet;
use vstd::prelude::*;

verus! {

/// The largest number of shared sites among the first `upto` links that lead
/// into `cluster`; 0 where none does.
pub open spec fn reach(adj: Seq<Link>, cluster: Set<usize>, upto: nat) -> usize
    decreases upto,
{
    if upto == 0 {
        0
    } else {
        let rest = reach(adj, cluster, (upto - 1) as nat);
        let l = adj[upto - 1];
        if cluster.contains(l.to) && l.shared > rest {
            l.shared
        } else {
            rest
        }
    }
}

/// The least reach into any of the first `upto` clusters.
pub open spec fn least_reach(adj: Seq<Link>, clusters: Seq<Set<usize>>, upto: nat) -> usize
    decreases upto,
{
    if upto <= 1 {
        reach(adj, clusters[0], adj.len())
    } else {
        let rest = least_reach(adj, clusters, (upto - 1) as nat);
        let r = reach(adj, clusters[upto - 1], adj.len());
        if r < rest {
            r
        } else {
            rest
        }
    }
}

/// The greatest weight among the first `upto` links that lead into `cluster`,
/// and `NO_EDGE` where none is greater.
pub open spec fn span(adj: Seq<Link>, cluster: Set<usize>, upto: nat) -> i64
    decreases upto,
{
    if upto == 0 {
        NO_EDGE
    } else {
        let rest = span(adj, cluster, (upto - 1) as nat);
        let l = adj[upto - 1];
        if cluster.contains(l.to) && rest < l.weight {
            l.weight
        } else {
            rest
        }
    }
}

/// Among the first `upto` clusters, the one with the least span below
/// `CEILING`, with that span; of several the first; cluster 0 with `CEILING`
/// where no span is below it.
pub open spec fn nearest(adj: Seq<Link>, clusters: Seq<Set<usize>>, upto: nat) -> (int, i64)
    decreases upto,
{
    if upto == 0 {
        (0, CEILING)
    } else {
        let rest = nearest(adj, clusters, (upto - 1) as nat);
        let s = span(adj, clusters[upto - 1], adj.len());
        if s < rest.1 {
            (upto - 1, s)
        } else {
            rest
        }
    }
}

/// The clusters after vertex `v` has joined the nearest one.
pub open spec fn place(edges: Seq<Edge>, clusters: Seq<Set<usize>>, v: usize) -> Seq<Set<usize>> {
    let c = nearest(links_of(edges, v), clusters, clusters.len()).0;
    clusters.update(c, clusters[c].insert(v))
}

/// The vertices below `upto` that no cluster holds, ascending.
pub open spec fn unplaced(clusters: Seq<Set<usize>>, upto: nat) -> Seq<usize>
    decreases upto,
{
    if upto == 0 {
        Seq::empty()
    } else {
        let rest = unplaced(clusters, (upto - 1) as nat);
        if holds(clusters, (upto - 1) as usize) {
            rest
        } else {
            rest.push((upto - 1) as usize)
        }
    }
}

/// For each waiting vertex its least reach into the clusters, as a key that
/// ranks the greater reach first.
pub open spec fn reach_keys(edges: Seq<Edge>, clusters: Seq<Set<usize>>, cands: Seq<usize>) -> Seq<
    Desc,
> {
    Seq::new(
        cands.len(),
        |i: int|
            Desc { key: least_reach(links_of(edges, cands[i]), clusters, clusters.len()) as i128 },
    )
}

/// The waiting vertices in the order of a ranking.
pub open spec fn turn_of(cands: Seq<usize>, order: Seq<usize>) -> Seq<usize> {
    Seq::new(order.len(), |j: int| cands[order[j] as int])
}

/// The clusters after the first `count` vertices of `turn` were placed, one
/// after the other.
pub open spec fn place_in_turn(
    edges: Seq<Edge>,
    clusters: Seq<Set<usize>>,
    turn: Seq<usize>,
    count: nat,
) -> Seq<Set<usize>>
    decreases count,
{
    if count == 0 {
        clusters
    } else {
        place(edges, place_in_turn(edges, clusters, turn, (count - 1) as nat), turn[count - 1])
    }
}

/// How many of the `waiting` vertices one pass places: all of them in the last
/// pass; in an earlier pass at most one more than the `iters`-th part of the
/// `n` vertices.
pub open spec fn pass_count(n: nat, iters: nat, iteration: nat, waiting: nat) -> nat {
    if iteration + 1 == iters || waiting <= n / iters + 1 {
        waiting
    } else {
        n / iters + 1
    }
}

/// The clusters after one pass.
pub open spec fn pass(
    edges: Seq<Edge>,
    n: nat,
    clusters: Seq<Set<usize>>,
    iters: nat,
    iteration: nat,
) -> Seq<Set<usize>> {
    let cands = unplaced(clusters, n);
    let keys = reach_keys(edges, clusters, cands);
    let turn = turn_of(cands, ranking(keys, keys.len()));
    place_in_turn(edges, clusters, turn, pass_count(n, iters, iteration, cands.len()))
}

/// The clusters after the first `done` of `iters` passes.
pub open spec fn populate(
    edges: Seq<Edge>,
    n: nat,
    clusters: Seq<Set<usize>>,
    iters: nat,
    done: nat,
) -> Seq<Set<usize>>
    decreases done,
{
    if done == 0 {
        clusters
    } else {
        pass(edges, n, populate(edges, n, clusters, iters, (done - 1) as nat), iters, (done - 1) as nat)
    }
}

/// The reach is the number of sites shared over some link into the cluster
/// that no other such link exceeds, and 0 where no link leads into it.
pub proof fn lemma_reach(adj: Seq<Link>, cluster: Set<usize>, upto: nat)
    requires
        upto <= adj.len(),
    ensures
        forall|j: int|
            0 <= j < upto && cluster.contains((#[trigger] adj[j]).to) ==> adj[j].shared <= reach(
                adj,
                cluster,
                upto,
            ),
        reach(adj, cluster, upto) == 0 || exists|j: int|
            0 <= j < upto && cluster.contains((#[trigger] adj[j]).to) && adj[j].shared == reach(
                adj,
                cluster,
                upto,
            ),
    decreases upto,
{
    if upto > 0 {
        lemma_reach(adj, cluster, (upto - 1) as nat);
        let rest = reach(adj, cluster, (upto - 1) as nat);
        let l = adj[upto - 1];
        if cluster.contains(l.to) && l.shared > rest {
            assert(cluster.contains(adj[upto - 1].to) && adj[upto - 1].shared == l.shared);
        } else if rest != 0 {
            let j = choose|j: int|
                0 <= j < upto - 1 && cluster.contains((#[trigger] adj[j]).to) && adj[j].shared
                    == rest;
            assert(0 <= j < upto && cluster.contains(adj[j].to));
        }
    }
}

/// The span is the weight of some link into the cluster that no other such
/// link exceeds, and `NO_EDGE` where no such link weighs more.
pub proof fn lemma_span(adj: Seq<Link>, cluster: Set<usize>, upto: nat)
    requires
        upto <= adj.len(),
    ensures
        NO_EDGE <= span(adj, cluster, upto),
        forall|j: int|
            0 <= j < upto && cluster.contains((#[trigger] adj[j]).to) ==> adj[j].weight <= span(
                adj,
                cluster,
                upto,
            ),
        span(adj, cluster, upto) == NO_EDGE || exists|j: int|
            0 <= j < upto && cluster.contains((#[trigger] adj[j]).to) && adj[j].weight == span(
                adj,
                cluster,
                upto,
            ),
    decreases upto,
{
    if upto > 0 {
        lemma_span(adj, cluster, (upto - 1) as nat);
        let rest = span(adj, cluster, (upto - 1) as nat);
        let l = adj[upto - 1];
        if cluster.contains(l.to) && rest < l.weight {
            assert(cluster.contains(adj[upto - 1].to) && adj[upto - 1].weight == l.weight);
        } else if rest != NO_EDGE {
            let j = choose|j: int|
                0 <= j < upto - 1 && cluster.contains((#[trigger] adj[j]).to) && adj[j].weight
                    == rest;
            assert(0 <= j < upto && cluster.contains(adj[j].to));
        }
    }
}

/// The least reach is the reach into one of the clusters, and no cluster has
/// a lower one.
pub proof fn lemma_least_reach(adj: Seq<Link>, clusters: Seq<Set<usize>>, upto: nat)
    requires
        1 <= upto <= clusters.len(),
    ensures
        forall|c: int|
            0 <= c < upto ==> least_reach(adj, clusters, upto) <= reach(
                adj,
                #[trigger] clusters[c],
                adj.len(),
            ),
        exists|c: int|
            0 <= c < upto && least_reach(adj, clusters, upto) == reach(
                adj,
                #[trigger] clusters[c],
                adj.len(),
            ),
    decreases upto,
{
    if upto > 1 {
        lemma_least_reach(adj, clusters, (upto - 1) as nat);
        let rest = least_reach(adj, clusters, (upto - 1) as nat);
        let r = reach(adj, clusters[upto - 1], adj.len());
        if r < rest {
            assert(least_reach(adj, clusters, upto) == reach(adj, clusters[upto - 1], adj.len()));
        } else {
            let c = choose|c: int|
                0 <= c < upto - 1 && rest == reach(adj, #[trigger] clusters[c], adj.len());
            assert(0 <= c < upto && least_reach(adj, clusters, upto) == reach(
                adj,
                clusters[c],
                adj.len(),
            ));
        }
    } else {
        assert(least_reach(adj, clusters, upto) == reach(adj, clusters[0], adj.len()));
    }
}

/// The nearest cluster has the least span, and is the first of those that
/// have it; where no span is below `CEILING`, it is cluster 0.
pub proof fn lemma_nearest(adj: Seq<Link>, clusters: Seq<Set<usize>>, upto: nat)
    requires
        upto <= clusters.len(),
    ensures
        nearest(adj, clusters, upto).1 <= CEILING,
        forall|c: int|
            0 <= c < upto ==> nearest(adj, clusters, upto).1 <= span(
                adj,
                #[trigger] clusters[c],
                adj.len(),
            ),
        nearest(adj, clusters, upto).1 < CEILING ==> {
            let best = nearest(adj, clusters, upto);
            &&& 0 <= best.0 < upto
            &&& span(adj, clusters[best.0], adj.len()) == best.1
            &&& forall|c: int|
                0 <= c < best.0 ==> best.1 < span(adj, #[trigger] clusters[c], adj.len())
        },
        nearest(adj, clusters, upto).1 == CEILING ==> nearest(adj, clusters, upto).0 == 0,
    decreases upto,
{
    if upto > 0 {
        lemma_nearest(adj, clusters, (upto - 1) as nat);
    }
}

/// The list of unplaced vertices holds exactly the vertices below the bound
/// that no cluster holds, in ascending order.
pub proof fn lemma_unplaced(clusters: Seq<Set<usize>>, upto: nat)
    requires
        upto <= usize::MAX,
    ensures
        forall|i: int|
            0 <= i < unplaced(clusters, upto).len() ==> (#[trigger] unplaced(clusters, upto)[i])
                < upto && !holds(clusters, unplaced(clusters, upto)[i]),
        forall|i: int, j: int|
            0 <= i < j < unplaced(clusters, upto).len() ==> unplaced(clusters, upto)[i] < unplaced(
                clusters,
                upto,
            )[j],
        forall|v: usize| v < upto && !holds(clusters, v) ==> unplaced(clusters, upto).contains(v),
    decreases upto,
{
    if upto > 0 {
        lemma_unplaced(clusters, (upto - 1) as nat);
        let rest = unplaced(clusters, (upto - 1) as nat);
        let cur = unplaced(clusters, upto);
        assert forall|v: usize| v < upto && !holds(clusters, v) implies cur.contains(v) by {
            if v == upto - 1 {
                assert(cur[cur.len() - 1] == v);
            } else {
                let j = choose|j: int| 0 <= j < rest.len() && rest[j] == v;
                assert(cur[j] == v);
            }
        }
    }
}

/// The largest number of shared sites among the links into `cluster`.
fn link_reach(adj: &Vec<Link>, cluster: &FxHashSet<usize>) -> (r: usize)
    ensures
        r == reach(adj@, cluster@, adj.len() as nat),
{
    let mut best: usize = 0;
    let mut j: usize = 0;
    while j < adj.len()
        invariant
            j <= adj.len(),
            best == reach(adj@, cluster@, j as nat),
        decreases adj.len() - j,
    {
        let l = adj[j];
        if set_contains(cluster, l.to) && l.shared > best {
            best = l.shared;
        }
        j += 1;
    }
    best
}

/// The least reach of the links into any of the clusters.
fn least_overlap(adj: &Vec<Link>, clusters: &Vec<FxHashSet<usize>>) -> (r: usize)
    requires
        clusters.len() >= 1,
    ensures
        r == least_reach(adj@, sets_of(clusters@), clusters.len() as nat),
{
    let mut least = link_reach(adj, &clusters[0]);
    let mut c: usize = 1;
    while c < clusters.len()
        invariant
            1 <= c <= clusters.len(),
            least == least_reach(adj@, sets_of(clusters@), c as nat),
        decreases clusters.len() - c,
    {
        let r = link_reach(adj, &clusters[c]);
        if r < least {
            least = r;
        }
        c += 1;
    }
    least
}

/// The greatest weight among the links into `cluster`, and `NO_EDGE` where
/// none is greater.
fn link_span(adj: &Vec<Link>, cluster: &FxHashSet<usize>) -> (r: i64)
    ensures
        r == span(adj@, cluster@, adj.len() as nat),
{
    let mut best: i64 = NO_EDGE;
    let mut j: usize = 0;
    while j < adj.len()
        invariant
            j <= adj.len(),
            best == span(adj@, cluster@, j as nat),
        decreases adj.len() - j,
    {
        let l = adj[j];
        if set_contains(cluster, l.to) && best < l.weight {
            best = l.weight;
        }
        j += 1;
    }
    best
}

/// The cluster whose span from the links is least; of several the first.
pub fn nearest_cluster(adj: &Vec<Link>, clusters: &Vec<FxHashSet<usize>>) -> (c: usize)
    requires
        clusters.len() >= 1,
    ensures
        c == nearest(adj@, sets_of(clusters@), clusters.len() as nat).0,
        c < clusters.len(),
{
    let mut best: usize = 0;
    let mut least: i64 = CEILING;
    let mut c: usize = 0;
    while c < clusters.len()
        invariant
            c <= clusters.len(),
            best < clusters.len(),
            (best as int, least) == nearest(adj@, sets_of(clusters@), c as nat),
        decreases clusters.len() - c,
    {
        let s = link_span(adj, &clusters[c]);
        if s < least {
            best = c;
            least = s;
        }
        c += 1;
    }
    best
}

/// Every cluster of `after` holds what the cluster of `before` at its place
/// held.
pub open spec fn keeps(before: Seq<Set<usize>>, after: Seq<Set<usize>>) -> bool {
    forall|c: int, x: usize|
        0 <= c < before.len() && #[trigger] before[c].contains(x) ==> c < after.len()
            && after[c].contains(x)
}

/// The vertices that no cluster holds, ascending, each with its key.
fn waiting_vertices(
    clusters: &Vec<FxHashSet<usize>>,
    used_vertices: &FxHashSet<usize>,
    g: &ReadGraph,
) -> (r: (Vec<usize>, Vec<Desc>))
    requires
        g.wf(),
        clusters.len() >= 1,
        forall|v: usize| used_vertices@.contains(v) <==> holds(sets_of(clusters@), v),
    ensures
        r.0@ == unplaced(sets_of(clusters@), g.order()),
        r.1@ == reach_keys(g.edges@, sets_of(clusters@), r.0@),
{
    let n = g.links.len();
    let ghost start = sets_of(clusters@);
    let mut cands: Vec<usize> = Vec::new();
    let mut keys: Vec<Desc> = Vec::new();
    let mut v: usize = 0;
    while v < n
        invariant
            v <= n,
            n == g.order(),
            g.wf(),
            clusters.len() >= 1,
            start == sets_of(clusters@),
            forall|x: usize| used_vertices@.contains(x) <==> holds(start, x),
            cands@ == unplaced(start, v as nat),
            keys@ == reach_keys(g.edges@, start, cands@),
        decreases n - v,
    {
        if !set_contains(used_vertices, v) {
            assert(g.adj(v as int) == links_of(g.edges@, v));
            let r = least_overlap(&g.links[v], clusters);
            cands.push(v);
            keys.push(Desc { key: r as i128 });
            assert(keys@ =~= reach_keys(g.edges@, start, cands@));
        }
        v += 1;
    }
    (cands, keys)
}

/// Places the first `count` of the waiting vertices in the order given, each
/// into the cluster nearest to it at that moment.
fn place_first(
    clusters: &mut Vec<FxHashSet<usize>>,
    used_vertices: &mut FxHashSet<usize>,
    g: &ReadGraph,
    cands: &Vec<usize>,
    order: &Vec<usize>,
    count: usize,
)
    requires
        g.wf(),
        old(clusters).len() >= 1,
        is_partition(sets_of(old(clusters)@), g.order()),
        forall|v: usize| old(used_vertices)@.contains(v) <==> holds(sets_of(old(clusters)@), v),
        cands@ == unplaced(sets_of(old(clusters)@), g.order()),
        order.len() == cands.len(),
        order@.no_duplicates(),
        forall|i: int| 0 <= i < order.len() ==> (#[trigger] order[i]) < cands.len(),
        count <= cands.len(),
    ensures
        final(clusters).len() == old(clusters).len(),
        sets_of(final(clusters)@) == place_in_turn(
            g.edges@,
            sets_of(old(clusters)@),
            turn_of(cands@, order@),
            count as nat,
        ),
        is_partition(sets_of(final(clusters)@), g.order()),
        forall|v: usize| final(used_vertices)@.contains(v) <==> holds(sets_of(final(clusters)@), v),
        forall|x: usize|
            holds(sets_of(final(clusters)@), x) <==> holds(sets_of(old(clusters)@), x) || exists|
                i: int,
            |
                0 <= i < count && #[trigger] turn_of(cands@, order@)[i] == x,
        keeps(sets_of(old(clusters)@), sets_of(final(clusters)@)),
{
    let n = g.links.len();
    let ghost start = sets_of(clusters@);
    let ghost turn = turn_of(cands@, order@);
    proof {
        lemma_unplaced(start, n as nat);
    }
    let mut j: usize = 0;
    while j < count
        invariant
            j <= count,
            count <= cands.len(),
            n == g.order(),
            g.wf(),
            clusters.len() == start.len(),
            clusters.len() >= 1,
            order.len() == cands.len(),
            order@.no_duplicates(),
            forall|i: int| 0 <= i < order.len() ==> (#[trigger] order[i]) < cands.len(),
            forall|i: int|
                0 <= i < cands.len() ==> (#[trigger] cands[i]) < n && !holds(start, cands[i]),
            forall|a: int, b: int| 0 <= a < b < cands.len() ==> cands[a] < cands[b],
            turn == turn_of(cands@, order@),
            sets_of(clusters@) == place_in_turn(g.edges@, start, turn, j as nat),
            is_partition(sets_of(clusters@), n as nat),
            forall|x: usize| used_vertices@.contains(x) <==> holds(sets_of(clusters@), x),
            forall|x: usize|
                holds(sets_of(clusters@), x) <==> holds(start, x) || exists|i: int|
                    0 <= i < j && #[trigger] turn[i] == x,
            keeps(start, sets_of(clusters@)),
        decreases count - j,
    {
        let v = cands[order[j]];
        let ghost before = sets_of(clusters@);
        proof {
            assert(turn[j as int] == v);
            if holds(before, v) {
                let i = choose|i: int| 0 <= i < j && #[trigger] turn[i] == v;
                assert(cands[order[i] as int] == cands[order[j as int] as int]);
                if order[i] < order[j as int] {
                    assert(cands[order[i] as int] < cands[order[j as int] as int]);
                } else if order[i] > order[j as int] {
                    assert(cands[order[j as int] as int] < cands[order[i] as int]);
                }
                assert(false);
            }
            assert(g.adj(v as int) == links_of(g.edges@, v));
        }
        let c = nearest_cluster(&g.links[v], clusters);
        set_insert(&mut clusters[c], v);
        set_insert(used_vertices, v);
        proof {
            assert(sets_of(clusters@) =~= before.update(c as int, before[c as int].insert(v)));
            lemma_insert_member(before, n as nat, c as int, v);
            assert forall|d: int, x: usize| 0 <= d < start.len() && #[trigger] start[d].contains(
                x,
            ) implies d < clusters.len() && sets_of(clusters@)[d].contains(x) by {
                assert(before[d].contains(x));
            }
            assert forall|x: usize|
                holds(sets_of(clusters@), x) <==> holds(start, x) || exists|i: int|
                    0 <= i < j + 1 && #[trigger] turn[i] == x by {
                if holds(before, x) && !holds(start, x) {
                    let i = choose|i: int| 0 <= i < j && #[trigger] turn[i] == x;
                    assert(0 <= i < j + 1 && turn[i] == x);
                }
                if exists|i: int| 0 <= i < j + 1 && #[trigger] turn[i] == x {
                    let i = choose|i: int| 0 <= i < j + 1 && #[trigger] turn[i] == x;
                    if i < j {
                        assert(holds(before, x));
                    }
                }
            }
        }
        j += 1;
    }
}

/// Every waiting vertex has its place in the turn of a full ranking.
proof fn lemma_turn_covers(cands: Seq<usize>, order: Seq<usize>, x: usize)
    requires
        cands.contains(x),
        cands.len() <= usize::MAX,
        order.len() == cands.len(),
        forall|i: usize| i < cands.len() ==> order.contains(i),
    ensures
        exists|t: int| 0 <= t < order.len() && #[trigger] turn_of(cands, order)[t] == x,
{
    let i = choose|i: int| 0 <= i < cands.len() && cands[i] == x;
    assert(order.contains(i as usize));
    let t = choose|t: int| 0 <= t < order.len() && order[t] == i as usize;
    assert(turn_of(cands, order)[t] == x);
}

/// One pass: ranks the vertices that wait and places the first of them.
fn populate_pass(
    clusters: &mut Vec<FxHashSet<usize>>,
    used_vertices: &mut FxHashSet<usize>,
    g: &ReadGraph,
    iters: usize,
    iteration: usize,
)
    requires
        g.wf(),
        old(clusters).len() >= 1,
        iteration < iters,
        is_partition(sets_of(old(clusters)@), g.order()),
        forall|v: usize| old(used_vertices)@.contains(v) <==> holds(sets_of(old(clusters)@), v),
    ensures
        final(clusters).len() == old(clusters).len(),
        sets_of(final(clusters)@) == pass(
            g.edges@,
            g.order(),
            sets_of(old(clusters)@),
            iters as nat,
            iteration as nat,
        ),
        is_partition(sets_of(final(clusters)@), g.order()),
        forall|v: usize| final(used_vertices)@.contains(v) <==> holds(sets_of(final(clusters)@), v),
        forall|v: usize| holds(sets_of(old(clusters)@), v) ==> holds(sets_of(final(clusters)@), v),
        iteration + 1 == iters ==> forall|v: usize|
            v < g.order() ==> holds(sets_of(final(clusters)@), v),
        keeps(sets_of(old(clusters)@), sets_of(final(clusters)@)),
{
    let n = g.links.len();
    let ghost start = sets_of(clusters@);
    let (cands, keys) = waiting_vertices(clusters, used_vertices, g);
    let order = stable_order(&keys);
    let max_num_iters = n / iters;
    let last = iteration == iters - 1;
    let count = if last || cands.len() <= max_num_iters {
        cands.len()
    } else {
        max_num_iters + 1
    };
    assert(count == pass_count(n as nat, iters as nat, iteration as nat, cands.len() as nat));
    place_first(clusters, used_vertices, g, &cands, &order, count);
    proof {
        if last {
            lemma_unplaced(start, n as nat);
            lemma_ranking_permutes(keys@, keys.len() as nat);
            assert forall|x: usize| x < n implies holds(sets_of(clusters@), x) by {
                if !holds(start, x) {
                    lemma_turn_covers(cands@, order@, x);
                }
            }
        }
    }
}

/// Fills the clusters in `iters` passes. Each pass ranks the vertices that no
/// cluster holds yet by their least reach into the clusters, the greater reach
/// first, and places them in that order, each into the cluster nearest to it
/// at that moment. A pass before the last stops after one vertex more than the
/// `iters`-th part of all vertices; the last places all that wait.
pub fn populate_clusters3(
    clusters: &mut Vec<FxHashSet<usize>>,
    used_vertices: &mut FxHashSet<usize>,
    g: &ReadGraph,
    ploidy: usize,
    iters: usize,
)
    requires
        g.wf(),
        ploidy >= 1,
        old(clusters).len() == ploidy,
        is_partition(sets_of(old(clusters)@), g.order()),
        forall|v: usize| old(used_vertices)@.contains(v) <==> holds(sets_of(old(clusters)@), v),
    ensures
        final(clusters).len() == ploidy,
        sets_of(final(clusters)@) == populate(
            g.edges@,
            g.order(),
            sets_of(old(clusters)@),
            iters as nat,
            iters as nat,
        ),
        is_partition(sets_of(final(clusters)@), g.order()),
        forall|v: usize| final(used_vertices)@.contains(v) <==> holds(sets_of(final(clusters)@), v),
        forall|v: usize| holds(sets_of(old(clusters)@), v) ==> holds(sets_of(final(clusters)@), v),
        iters >= 1 ==> forall|v: usize| v < g.order() ==> holds(sets_of(final(clusters)@), v),
        keeps(sets_of(old(clusters)@), sets_of(final(clusters)@)),
{
    let ghost start = sets_of(clusters@);
    let mut iteration: usize = 0;
    while iteration < iters
        invariant
            iteration <= iters,
            g.wf(),
            ploidy >= 1,
            clusters.len() == ploidy,
            keeps(start, sets_of(clusters@)),
            sets_of(clusters@) == populate(
                g.edges@,
                g.order(),
                start,
                iters as nat,
                iteration as nat,
            ),
            is_partition(sets_of(clusters@), g.order()),
            forall|v: usize| used_vertices@.contains(v) <==> holds(sets_of(clusters@), v),
            forall|v: usize| holds(start, v) ==> holds(sets_of(clusters@), v),
            iteration == iters && iters >= 1 ==> forall|v: usize|
                v < g.order() ==> holds(sets_of(clusters@), v),
        decreases iters - iteration,
    {
        let ghost cur = sets_of(clusters@);
        populate_pass(clusters, used_vertices, g, iters, iteration);
        proof {
            assert forall|d: int, x: usize| 0 <= d < start.len() && #[trigger] start[d].contains(
                x,
            ) implies d < clusters.len() && sets_of(clusters@)[d].contains(x) by {
                assert(cur[d].contains(x));
            }
        }
        iteration += 1;
    }
}

/// The least number of sites that a read shares with its worst cluster for
/// the read to be placed before the rule is relaxed.
pub const MIN_OVERLAP: usize = 50;

/// The first place at or after `from` in the turn whose vertex has a key
/// below `MIN_OVERLAP`; the end of the turn where there is none.
pub open spec fn ready(keys: Seq<Desc>, order: Seq<usize>, from: nat) -> nat
    decreases order.len() - from,
{
    if from >= order.len() {
        order.len()
    } else if keys[order[from as int] as int].key < MIN_OVERLAP {
        from
    } else {
        ready(keys, order, from + 1)
    }
}

/// The clusters after one round: the waiting vertices are ranked as in a
/// pass, and placed up to the first whose key is below `MIN_OVERLAP`, or all
/// of them where the rule is relaxed.
pub open spec fn round(edges: Seq<Edge>, n: nat, clusters: Seq<Set<usize>>, relax: bool) -> Seq<
    Set<usize>,
> {
    let cands = unplaced(clusters, n);
    let keys = reach_keys(edges, clusters, cands);
    let order = ranking(keys, keys.len());
    place_in_turn(
        edges,
        clusters,
        turn_of(cands, order),
        if relax {
            order.len()
        } else {
            ready(keys, order, 0)
        },
    )
}

/// One round leads from the state `a` to the state `b`. A state is the
/// clusters, the number of vertices that waited before the last round, and
/// whether the rule is relaxed: it is from the round on before which no
/// fewer vertices wait than before the round ahead of it.
pub open spec fn round_step(
    edges: Seq<Edge>,
    n: nat,
    a: (Seq<Set<usize>>, nat, bool),
    b: (Seq<Set<usize>>, nat, bool),
) -> bool {
    let waiting = unplaced(a.0, n).len();
    let relax = a.2 || a.1 == waiting;
    waiting > 0 && b == (round(edges, n, a.0, relax), waiting, relax)
}

/// Each state of the path follows from the one before it by a round.
pub open spec fn rounds(edges: Seq<Edge>, n: nat, path: Seq<(Seq<Set<usize>>, nat, bool)>) -> bool {
    forall|t: int|
        0 <= t < path.len() - 1 ==> #[trigger] round_step(edges, n, path[t], path[t + 1])
}

/// `result` is what rounds make of `start` until no vertex waits.
pub open spec fn filled(
    edges: Seq<Edge>,
    n: nat,
    start: Seq<Set<usize>>,
    result: Seq<Set<usize>>,
) -> bool {
    exists|path: Seq<(Seq<Set<usize>>, nat, bool)>|
        {
            &&& #[trigger] rounds(edges, n, path)
            &&& path.len() >= 1
            &&& path[0] == (start, n, false)
            &&& path.last().0 == result
            &&& unplaced(result, n).len() == 0
        }
}

/// Where the clusters come to hold a vertex more and lose none, fewer
/// vertices wait.
pub proof fn lemma_waiting_shrinks(
    before: Seq<Set<usize>>,
    after: Seq<Set<usize>>,
    upto: nat,
    v: usize,
)
    requires
        forall|x: usize| holds(before, x) ==> holds(after, x),
        holds(after, v),
        !holds(before, v),
    ensures
        unplaced(after, upto).len() <= unplaced(before, upto).len(),
        v < upto ==> unplaced(after, upto).len() < unplaced(before, upto).len(),
    decreases upto,
{
    if upto > 0 {
        lemma_waiting_shrinks(before, after, (upto - 1) as nat, v);
    }
}

/// Fills the clusters in rounds until every vertex is placed. A round ranks
/// the waiting vertices as a pass of `populate_clusters3` does and places
/// them in that order, up to the first that shares fewer than `MIN_OVERLAP`
/// sites with its worst cluster. Once a round has placed none, every later
/// round places all that wait.
pub fn populate_clusters1(
    clusters: &mut Vec<FxHashSet<usize>>,
    used_vertices: &mut FxHashSet<usize>,
    g: &ReadGraph,
    ploidy: usize,
)
    requires
        g.wf(),
        ploidy >= 1,
        old(clusters).len() == ploidy,
        is_partition(sets_of(old(clusters)@), g.order()),
        forall|v: usize| old(used_vertices)@.contains(v) <==> holds(sets_of(old(clusters)@), v),
    ensures
        final(clusters).len() == ploidy,
        filled(g.edges@, g.order(), sets_of(old(clusters)@), sets_of(final(clusters)@)),
        is_partition(sets_of(final(clusters)@), g.order()),
        forall|v: usize| final(used_vertices)@.contains(v) <==> holds(sets_of(final(clusters)@), v),
        forall|v: usize| holds(sets_of(old(clusters)@), v) ==> holds(sets_of(final(clusters)@), v),
        forall|v: usize| v < g.order() ==> holds(sets_of(final(clusters)@), v),
{
    let n = g.links.len();
    let ghost start = sets_of(clusters@);
    let ghost mut path = Seq::empty().push((start, n as nat, false));
    let mut prev_waiting = n;
    let mut relax = false;
    let (first_cands, first_keys) = waiting_vertices(clusters, used_vertices, g);
    let mut cands = first_cands;
    let mut keys = first_keys;
    while cands.len() > 0
        invariant
            n == g.order(),
            g.wf(),
            ploidy >= 1,
            clusters.len() == ploidy,
            is_partition(sets_of(clusters@), n as nat),
            forall|v: usize| used_vertices@.contains(v) <==> holds(sets_of(clusters@), v),
            forall|v: usize| holds(start, v) ==> holds(sets_of(clusters@), v),
            cands@ == unplaced(sets_of(clusters@), n as nat),
            keys@ == reach_keys(g.edges@, sets_of(clusters@), cands@),
            path.len() >= 1,
            path[0] == (start, n as nat, false),
            path.last() == (sets_of(clusters@), prev_waiting as nat, relax),
            rounds(g.edges@, n as nat, path),
        decreases
                cands.len(),
                if relax {
                    0int
                } else if prev_waiting == cands.len() {
                    1int
                } else {
                    2int
                },
    {
        let ghost cur = sets_of(clusters@);
        let ghost state = (cur, prev_waiting as nat, relax);
        if prev_waiting == cands.len() {
            relax = true;
        }
        prev_waiting = cands.len();
        let order = stable_order(&keys);
        let mut count: usize = 0;
        if relax {
            count = order.len();
        } else {
            while count < order.len() && keys[order[count]].key >= MIN_OVERLAP as i128
                invariant
                    count <= order.len(),
                    order.len() == keys.len(),
                    forall|i: int| 0 <= i < order.len() ==> (#[trigger] order[i]) < keys.len(),
                    ready(keys@, order@, 0) == ready(keys@, order@, count as nat),
                decreases order.len() - count,
            {
                count += 1;
            }
        }
        place_first(clusters, used_vertices, g, &cands, &order, count);
        let ghost next = (sets_of(clusters@), prev_waiting as nat, relax);
        proof {
            assert(round_step(g.edges@, n as nat, state, next));
            let longer = path.push(next);
            assert forall|t: int| 0 <= t < longer.len() - 1 implies #[trigger] round_step(
                g.edges@,
                n as nat,
                longer[t],
                longer[t + 1],
            ) by {
                if t < path.len() - 1 {
                    assert(round_step(g.edges@, n as nat, path[t], path[t + 1]));
                } else {
                    assert(longer[t] == state && longer[t + 1] == next);
                }
            }
            path = longer;
            if count > 0 {
                lemma_unplaced(cur, n as nat);
                let v = turn_of(cands@, order@)[0];
                assert(v == cands[order[0] as int]);
                lemma_waiting_shrinks(cur, sets_of(clusters@), n as nat, v);
            } else {
                assert(sets_of(clusters@) == cur);
            }
        }
        let (next_cands, next_keys) = waiting_vertices(clusters, used_vertices, g);
        cands = next_cands;
        keys = next_keys;
    }
    proof {
        lemma_unplaced(sets_of(clusters@), n as nat);
        assert forall|v: usize| v < n implies holds(sets_of(clusters@), v) by {
            if !holds(sets_of(clusters@), v) {
                assert(unplaced(sets_of(clusters@), n as nat).contains(v));
            }
        }
    }
}

/// The least and the second least span of the links into the first `upto`
/// clusters, of which there are two or more.
pub open spec fn least_spans(adj: Seq<Link>, clusters: Seq<Set<usize>>, upto: nat) -> (i64, i64)
    decreases upto,
{
    if upto <= 2 {
        let s0 = span(adj, clusters[0], adj.len());
        let s1 = span(adj, clusters[1], adj.len());
        if s1 < s0 {
            (s1, s0)
        } else {
            (s0, s1)
        }
    } else {
        let rest = least_spans(adj, clusters, (upto - 1) as nat);
        let s = span(adj, clusters[upto - 1], adj.len());
        if s < rest.0 {
            (s, rest.0)
        } else if s < rest.1 {
            (rest.0, s)
        } else {
            rest
        }
    }
}

/// `keys` are the margins of the waiting vertices: for a vertex without a
/// link into some cluster `CEILING`; for another what `margin` returned for
/// its least and its second least span.
pub open spec fn margins_by<M: Fn(i64, i64) -> i64>(
    margin: M,
    edges: Seq<Edge>,
    clusters: Seq<Set<usize>>,
    cands: Seq<usize>,
    keys: Seq<i64>,
) -> bool {
    &&& keys.len() == cands.len()
    &&& forall|i: int|
        0 <= i < cands.len() ==> {
            let least = least_spans(links_of(edges, cands[i]), clusters, clusters.len());
            if least.0 == NO_EDGE {
                #[trigger] keys[i] == CEILING
            } else {
                call_ensures(margin, (least.0, least.1), keys[i])
            }
        }
}

/// The margins as keys that rank the lower margin first.
pub open spec fn rising(keys: Seq<i64>) -> Seq<Desc> {
    Seq::new(keys.len(), |i: int| Desc { key: (-(keys[i] as int)) as i128 })
}

/// The clusters after one pass that ranks the waiting vertices by the given
/// margins, the lower margin first, and places as many as a pass of
/// `populate_clusters3` does.
pub open spec fn margin_pass(
    edges: Seq<Edge>,
    n: nat,
    clusters: Seq<Set<usize>>,
    iters: nat,
    iteration: nat,
    keys: Seq<i64>,
) -> Seq<Set<usize>> {
    let cands = unplaced(clusters, n);
    let turn = turn_of(cands, ranking(rising(keys), keys.len()));
    place_in_turn(edges, clusters, turn, pass_count(n, iters, iteration, cands.len()))
}

/// `after` is what pass `iteration` makes of `before` under margins that
/// `margin` returned.
pub open spec fn margin_step<M: Fn(i64, i64) -> i64>(
    margin: M,
    edges: Seq<Edge>,
    n: nat,
    iters: nat,
    iteration: nat,
    before: Seq<Set<usize>>,
    after: Seq<Set<usize>>,
) -> bool {
    exists|keys: Seq<i64>|
        #[trigger] margins_by(margin, edges, before, unplaced(before, n), keys) && after
            == margin_pass(edges, n, before, iters, iteration, keys)
}

/// `result` is what `iters` passes by margin make of `start`.
pub open spec fn filled_by_margin<M: Fn(i64, i64) -> i64>(
    margin: M,
    edges: Seq<Edge>,
    n: nat,
    iters: nat,
    start: Seq<Set<usize>>,
    result: Seq<Set<usize>>,
) -> bool {
    exists|path: Seq<Seq<Set<usize>>>|
        {
            &&& path.len() == iters + 1
            &&& path[0] == start
            &&& path.last() == result
            &&& forall|t: int|
                0 <= t < iters ==> #[trigger] margin_step(
                    margin,
                    edges,
                    n,
                    iters,
                    t as nat,
                    path[t],
                    path[t + 1],
                )
        }
}

/// The least and the second least span of the links into the clusters.
fn least_two_spans(adj: &Vec<Link>, clusters: &Vec<FxHashSet<usize>>) -> (r: (i64, i64))
    requires
        clusters.len() >= 2,
    ensures
        r == least_spans(adj@, sets_of(clusters@), clusters.len() as nat),
{
    let s0 = link_span(adj, &clusters[0]);
    let s1 = link_span(adj, &clusters[1]);
    let mut least = if s1 < s0 {
        (s1, s0)
    } else {
        (s0, s1)
    };
    let mut c: usize = 2;
    while c < clusters.len()
        invariant
            2 <= c <= clusters.len(),
            least == least_spans(adj@, sets_of(clusters@), c as nat),
        decreases clusters.len() - c,
    {
        let s = link_span(adj, &clusters[c]);
        if s < least.0 {
            least = (s, least.0);
        } else if s < least.1 {
            least = (least.0, s);
        }
        c += 1;
    }
    least
}

/// One pass by margin.
fn populate_pass_by_margin<M: Fn(i64, i64) -> i64>(
    clusters: &mut Vec<FxHashSet<usize>>,
    used_vertices: &mut FxHashSet<usize>,
    g: &ReadGraph,
    iters: usize,
    iteration: usize,
    margin: &M,
)
    requires
        g.wf(),
        old(clusters).len() >= 2,
        iteration < iters,
        is_partition(sets_of(old(clusters)@), g.order()),
        forall|v: usize| old(used_vertices)@.contains(v) <==> holds(sets_of(old(clusters)@), v),
        forall|a: i64, b: i64| call_requires(*margin, (a, b)),
    ensures
        final(clusters).len() == old(clusters).len(),
        margin_step(
            *margin,
            g.edges@,
            g.order(),
            iters as nat,
            iteration as nat,
            sets_of(old(clusters)@),
            sets_of(final(clusters)@),
        ),
        is_partition(sets_of(final(clusters)@), g.order()),
        forall|v: usize| final(used_vertices)@.contains(v) <==> holds(sets_of(final(clusters)@), v),
        forall|v: usize| holds(sets_of(old(clusters)@), v) ==> holds(sets_of(final(clusters)@), v),
        iteration + 1 == iters ==> forall|v: usize|
            v < g.order() ==> holds(sets_of(final(clusters)@), v),
{
    let n = g.links.len();
    let ghost start = sets_of(clusters@);
    let mut cands: Vec<usize> = Vec::new();
    let mut keys: Vec<i64> = Vec::new();
    let mut ranks: Vec<Desc> = Vec::new();
    let mut v: usize = 0;
    while v < n
        invariant
            v <= n,
            n == g.order(),
            g.wf(),
            clusters.len() >= 2,
            start == sets_of(clusters@),
            forall|a: i64, b: i64| call_requires(*margin, (a, b)),
            forall|x: usize| used_vertices@.contains(x) <==> holds(start, x),
            cands@ == unplaced(start, v as nat),
            margins_by(*margin, g.edges@, start, cands@, keys@),
            ranks@ == rising(keys@),
        decreases n - v,
    {
        if !set_contains(used_vertices, v) {
            assert(g.adj(v as int) == links_of(g.edges@, v));
            let least = least_two_spans(&g.links[v], clusters);
            let key = if least.0 == NO_EDGE {
                CEILING
            } else {
                margin(least.0, least.1)
            };
            let ghost had = keys@;
            let ghost were = cands@;
            cands.push(v);
            keys.push(key);
            ranks.push(Desc { key: -(key as i128) });
            proof {
                assert(ranks@ =~= rising(keys@));
                assert forall|i: int| 0 <= i < cands.len() implies {
                    let l = least_spans(links_of(g.edges@, cands[i]), start, start.len());
                    if l.0 == NO_EDGE {
                        #[trigger] keys[i] == CEILING
                    } else {
                        call_ensures(*margin, (l.0, l.1), keys[i])
                    }
                } by {
                    if i < were.len() {
                        assert(cands[i] == were[i] && keys[i] == had[i]);
                    }
                }
            }
        }
        v += 1;
    }
    let order = stable_order(&ranks);
    let max_num_iters = n / iters;
    let last = iteration == iters - 1;
    let count = if last || cands.len() <= max_num_iters {
        cands.len()
    } else {
        max_num_iters + 1
    };
    assert(count == pass_count(n as nat, iters as nat, iteration as nat, cands.len() as nat));
    place_first(clusters, used_vertices, g, &cands, &order, count);
    proof {
        assert(sets_of(clusters@) == margin_pass(
            g.edges@,
            n as nat,
            start,
            iters as nat,
            iteration as nat,
            keys@,
        ));
        if last {
            lemma_unplaced(start, n as nat);
            lemma_ranking_permutes(ranks@, ranks.len() as nat);
            assert forall|x: usize| x < n implies holds(sets_of(clusters@), x) by {
                if !holds(start, x) {
                    lemma_turn_covers(cands@, order@, x);
                }
            }
        }
    }
}

/// Fills the clusters in `iters` passes that rank the waiting vertices by
/// margin: `margin` is asked what separates the least span of a vertex from
/// its second least, and the vertex with the lower answer is placed first. A
/// vertex without a link into some cluster comes last. Each vertex joins the
/// cluster nearest to it, and a pass places as many as a pass of
/// `populate_clusters3`.
pub fn populate_clusters2_binom<M: Fn(i64, i64) -> i64>(
    clusters: &mut Vec<FxHashSet<usize>>,
    used_vertices: &mut FxHashSet<usize>,
    g: &ReadGraph,
    ploidy: usize,
    iters: usize,
    margin: &M,
)
    requires
        g.wf(),
        ploidy >= 2,
        old(clusters).len() == ploidy,
        is_partition(sets_of(old(clusters)@), g.order()),
        forall|v: usize| old(used_vertices)@.contains(v) <==> holds(sets_of(old(clusters)@), v),
        forall|a: i64, b: i64| call_requires(*margin, (a, b)),
    ensures
        final(clusters).len() == ploidy,
        filled_by_margin(
            *margin,
            g.edges@,
            g.order(),
            iters as nat,
            sets_of(old(clusters)@),
            sets_of(final(clusters)@),
        ),
        is_partition(sets_of(final(clusters)@), g.order()),
        forall|v: usize| final(used_vertices)@.contains(v) <==> holds(sets_of(final(clusters)@), v),
        forall|v: usize| holds(sets_of(old(clusters)@), v) ==> holds(sets_of(final(clusters)@), v),
        iters >= 1 ==> forall|v: usize| v < g.order() ==> holds(sets_of(final(clusters)@), v),
{
    let ghost start = sets_of(clusters@);
    let ghost mut path = Seq::empty().push(start);
    let mut iteration: usize = 0;
    while iteration < iters
        invariant
            iteration <= iters,
            g.wf(),
            ploidy >= 2,
            clusters.len() == ploidy,
            forall|a: i64, b: i64| call_requires(*margin, (a, b)),
            is_partition(sets_of(clusters@), g.order()),
            forall|v: usize| used_vertices@.contains(v) <==> holds(sets_of(clusters@), v),
            forall|v: usize| holds(start, v) ==> holds(sets_of(clusters@), v),
            iteration == iters && iters >= 1 ==> forall|v: usize|
                v < g.order() ==> holds(sets_of(clusters@), v),
            path.len() == iteration + 1,
            path[0] == start,
            path.last() == sets_of(clusters@),
            forall|t: int|
                0 <= t < iteration ==> #[trigger] margin_step(
                    *margin,
                    g.edges@,
                    g.order(),
                    iters as nat,
                    t as nat,
                    path[t],
                    path[t + 1],
                ),
        decreases iters - iteration,
    {
        let ghost cur = sets_of(clusters@);
        populate_pass_by_margin(clusters, used_vertices, g, iters, iteration, margin);
        proof {
            let longer = path.push(sets_of(clusters@));
            assert forall|t: int| 0 <= t < iteration + 1 implies #[trigger] margin_step(
                *margin,
                g.edges@,
                g.order(),
                iters as nat,
                t as nat,
                longer[t],
                longer[t + 1],
            ) by {
                if t < iteration {
                    assert(margin_step(
                        *margin,
                        g.edges@,
                        g.order(),
                        iters as nat,
                        t as nat,
                        path[t],
                        path[t + 1],
                    ));
                    assert(longer[t] == path[t] && longer[t + 1] == path[t + 1]);
                } else {
                    assert(longer[t] == cur);
                }
            }
            path = longer;
        }
        iteration += 1;
    }
}

} // verus!
