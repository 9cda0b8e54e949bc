use vstd::prelude::*;

use crate::graph::{Edge, Graph};

verus! {

/// `w` is a sequence of edge positions forming a walk from `from` to `to`;
/// the empty walk goes from a node to itself.
pub open spec fn is_walk(edges: Seq<Edge>, w: Seq<int>, from: u64, to: u64) -> bool {
    &&& forall|i: int| 0 <= i < w.len() ==> 0 <= #[trigger] w[i] < edges.len()
    &&& w.len() == 0 ==> from == to
    &&& w.len() > 0 ==> edges[w[0]].0 == from && edges[w.last()].1 == to
    &&& forall|i: int| 0 <= i < w.len() - 1 ==> edges[#[trigger] w[i]].1 == edges[w[i + 1]].0
}

/// Sum of the costs of the walk's edges.
pub open spec fn walk_cost(edges: Seq<Edge>, w: Seq<int>) -> int
    decreases w.len(),
{
    if w.len() == 0 {
        0
    } else {
        walk_cost(edges, w.drop_last()) + edges[w.last()].2
    }
}

/// The nodes a walk visits, from its first node to its last.
pub open spec fn walk_nodes(edges: Seq<Edge>, w: Seq<int>, from: u64) -> Seq<u64> {
    seq![from] + Seq::new(w.len(), |i: int| edges[w[i]].1)
}

/// Some walk from `start` to `goal` costs at most `bound`.
pub open spec fn reachable_within(edges: Seq<Edge>, start: u64, goal: u64, bound: int) -> bool {
    exists|w: Seq<int>| is_walk(edges, w, start, goal) && walk_cost(edges, w) <= bound
}

/// `path` is the node sequence of a walk from `start` to `goal` of cost `cost`,
/// and no walk from `start` to `goal` costs less.
pub open spec fn is_shortest(edges: Seq<Edge>, start: u64, goal: u64, path: Seq<u64>, cost: int) -> bool {
    &&& exists|w: Seq<int>|
        is_walk(edges, w, start, goal) && walk_cost(edges, w) == cost && walk_nodes(edges, w, start) == path
    &&& forall|w: Seq<int>| is_walk(edges, w, start, goal) ==> cost <= walk_cost(edges, w)
}

/// What a query may answer: a cheapest path with its cost, or nothing when every
/// walk from `start` to `goal` costs more than a `u64` can hold (in particular
/// when there is no walk at all).
pub open spec fn is_search_outcome(
    edges: Seq<Edge>,
    start: u64,
    goal: u64,
    r: Option<(Seq<u64>, u64)>,
) -> bool {
    match r {
        Some((path, cost)) => is_shortest(edges, start, goal, path, cost as int),
        None => !reachable_within(edges, start, goal, u64::MAX as int),
    }
}

pub open spec fn outcome_view(r: Option<(Vec<u64>, u64)>) -> Option<(Seq<u64>, u64)> {
    match r {
        Some((p, c)) => Some((p@, c)),
        None => None,
    }
}

pub proof fn lemma_walk_cost_nonneg(edges: Seq<Edge>, w: Seq<int>)
    ensures
        walk_cost(edges, w) >= 0,
    decreases w.len(),
{
    if w.len() > 0 {
        lemma_walk_cost_nonneg(edges, w.drop_last());
    }
}

/// Extending a walk by one edge out of its last node gives a walk.
pub proof fn lemma_walk_push(edges: Seq<Edge>, w: Seq<int>, from: u64, to: u64, k: int)
    requires
        is_walk(edges, w, from, to),
        0 <= k < edges.len(),
        edges[k].0 == to,
    ensures
        is_walk(edges, w.push(k), from, edges[k].1),
        walk_cost(edges, w.push(k)) == walk_cost(edges, w) + edges[k].2,
        walk_nodes(edges, w.push(k), from) == walk_nodes(edges, w, from).push(edges[k].1),
{
    let w2 = w.push(k);
    assert(w2.drop_last() =~= w);
    assert forall|i: int| 0 <= i < w2.len() - 1 implies edges[#[trigger] w2[i]].1 == edges[w2[i + 1]].0 by {
        if i < w.len() - 1 {
            assert(w2[i] == w[i] && w2[i + 1] == w[i + 1]);
        }
    }
    assert(walk_nodes(edges, w2, from) =~= walk_nodes(edges, w, from).push(edges[k].1));
}

/// A non-empty walk without its last edge is a walk to that edge's source.
pub proof fn lemma_walk_drop_last(edges: Seq<Edge>, w: Seq<int>, from: u64, to: u64)
    requires
        is_walk(edges, w, from, to),
        w.len() > 0,
    ensures
        is_walk(edges, w.drop_last(), from, edges[w.last()].0),
        walk_cost(edges, w) == walk_cost(edges, w.drop_last()) + edges[w.last()].2,
{
    let w1 = w.drop_last();
    if w1.len() > 0 {
        assert(edges[w[w.len() - 2]].1 == edges[w[w.len() - 1]].0);
        assert forall|i: int| 0 <= i < w1.len() - 1 implies edges[#[trigger] w1[i]].1 == edges[w1[i + 1]].0 by {
            assert(w1[i] == w[i] && w1[i + 1] == w[i + 1]);
        }
    }
}

proof fn lemma_cost_swap(edges: Seq<Edge>, w: Seq<int>, i: int, k: int)
    requires
        0 <= i < w.len(),
    ensures
        walk_cost(edges, w.update(i, k)) == walk_cost(edges, w) - edges[w[i]].2 + edges[k].2,
    decreases w.len(),
{
    let w2 = w.update(i, k);
    if i == w.len() - 1 {
        assert(w2.drop_last() =~= w.drop_last());
    } else {
        assert(w2.drop_last() =~= w.drop_last().update(i, k));
        lemma_cost_swap(edges, w.drop_last(), i, k);
    }
}

/// Replacing one edge of a walk by a parallel edge gives a walk between the same nodes.
proof fn lemma_walk_swap(edges: Seq<Edge>, w: Seq<int>, from: u64, to: u64, i: int, k: int)
    requires
        is_walk(edges, w, from, to),
        0 <= i < w.len(),
        0 <= k < edges.len(),
        edges[k].0 == edges[w[i]].0,
        edges[k].1 == edges[w[i]].1,
    ensures
        is_walk(edges, w.update(i, k), from, to),
        walk_cost(edges, w.update(i, k)) == walk_cost(edges, w) - edges[w[i]].2 + edges[k].2,
{
    let w2 = w.update(i, k);
    assert forall|x: int| 0 <= x < w2.len() - 1 implies edges[#[trigger] w2[x]].1 == edges[w2[x + 1]].0 by {
        assert(edges[w[x]].1 == edges[w[x + 1]].0);
    }
    assert forall|x: int| 0 <= x < w2.len() implies 0 <= #[trigger] w2[x] < edges.len() by {
        assert(0 <= w[x] < edges.len());
    }
    lemma_cost_swap(edges, w, i, k);
}

/// Of two parallel edges with different costs, a cheapest walk never takes the
/// dearer one.
pub proof fn lemma_cheaper_parallel_edge_preferred(
    edges: Seq<Edge>,
    start: u64,
    goal: u64,
    path: Seq<u64>,
    cost: int,
    w: Seq<int>,
    cheap: int,
    dear: int,
)
    requires
        is_shortest(edges, start, goal, path, cost),
        is_walk(edges, w, start, goal),
        walk_cost(edges, w) == cost,
        0 <= cheap < edges.len(),
        0 <= dear < edges.len(),
        edges[cheap].0 == edges[dear].0,
        edges[cheap].1 == edges[dear].1,
        edges[cheap].2 < edges[dear].2,
    ensures
        !w.contains(dear),
{
    if w.contains(dear) {
        let i = choose|i: int| 0 <= i < w.len() && w[i] == dear;
        lemma_walk_swap(edges, w, start, goal, i, cheap);
        assert(cost <= walk_cost(edges, w.update(i, cheap)));
    }
}

/// Two answers to the same query agree on whether a path was found and, when
/// one was, on its cost.
pub proof fn lemma_same_query_same_cost(
    edges: Seq<Edge>,
    start: u64,
    goal: u64,
    first: Option<(Seq<u64>, u64)>,
    second: Option<(Seq<u64>, u64)>,
)
    requires
        is_search_outcome(edges, start, goal, first),
        is_search_outcome(edges, start, goal, second),
    ensures
        first.is_some() == second.is_some(),
        match (first, second) {
            (Some((_, c1)), Some((_, c2))) => c1 == c2,
            _ => true,
        },
{
    if let Some((p1, c1)) = first {
        let w1 = choose|w: Seq<int>|
            is_walk(edges, w, start, goal) && walk_cost(edges, w) == c1 as int && walk_nodes(edges, w, start) == p1;
        assert(reachable_within(edges, start, goal, u64::MAX as int));
        if let Some((p2, c2)) = second {
            let w2 = choose|w: Seq<int>|
                is_walk(edges, w, start, goal) && walk_cost(edges, w) == c2 as int && walk_nodes(edges, w, start) == p2;
            assert(c1 <= walk_cost(edges, w2));
            assert(c2 <= walk_cost(edges, w1));
        }
    } else if let Some((p2, c2)) = second {
        let w2 = choose|w: Seq<int>|
            is_walk(edges, w, start, goal) && walk_cost(edges, w) == c2 as int && walk_nodes(edges, w, start) == p2;
        assert(reachable_within(edges, start, goal, u64::MAX as int));
    }
}

/// Every edge's endpoints are among the nodes, which are distinct.
pub open spec fn nodes_cover(edges: Seq<Edge>, nodes: Seq<u64>) -> bool {
    &&& nodes.no_duplicates()
    &&& forall|k: int|
        0 <= k < edges.len() ==> nodes.contains(#[trigger] edges[k].0) && nodes.contains(edges[k].1)
}

/// The search state: every node with a known cost has a walk of that cost from
/// `start` recorded beside it, and the cost of every settled node is minimal.
spec fn search_inv(
    edges: Seq<Edge>,
    nodes: Seq<u64>,
    start: u64,
    sid: int,
    dist: Seq<Option<u64>>,
    done: Seq<bool>,
    paths: Seq<Vec<u64>>,
    walks: Seq<Seq<int>>,
) -> bool {
    &&& dist.len() == nodes.len()
    &&& done.len() == nodes.len()
    &&& paths.len() == nodes.len()
    &&& walks.len() == nodes.len()
    &&& 0 <= sid < nodes.len()
    &&& nodes[sid] == start
    &&& dist[sid] == Some(0u64)
    &&& forall|i: int|
        0 <= i < nodes.len() && (#[trigger] dist[i]) is Some ==> is_walk(edges, walks[i], start, nodes[i])
            && walk_cost(edges, walks[i]) == dist[i]->0 && paths[i]@ == walk_nodes(edges, walks[i], start)
    &&& forall|i: int| 0 <= i < nodes.len() && #[trigger] done[i] ==> dist[i] is Some
    &&& forall|i: int, w: Seq<int>|
        0 <= i < nodes.len() && #[trigger] done[i] && #[trigger] is_walk(edges, w, start, nodes[i])
            ==> dist[i]->0 <= walk_cost(edges, w)
}

/// Edge `k` out of settled node `i` has been relaxed into node `j`.
spec fn edge_relaxed(edges: Seq<Edge>, dist: Seq<Option<u64>>, i: int, k: int, j: int) -> bool {
    dist[i]->0 + edges[k].2 > u64::MAX || (dist[j] is Some && dist[j]->0 <= dist[i]->0 + edges[k].2)
}

/// Every edge out of a settled node has been relaxed, except the edges of
/// node `u` at positions `kb` and beyond.
spec fn relaxed_except(
    edges: Seq<Edge>,
    nodes: Seq<u64>,
    dist: Seq<Option<u64>>,
    done: Seq<bool>,
    u: int,
    kb: int,
) -> bool {
    forall|i: int, k: int, j: int|
        0 <= i < nodes.len() && 0 <= k < edges.len() && 0 <= j < nodes.len() && #[trigger] done[i]
            && edges[k].0 == nodes[i] && #[trigger] nodes[j] == #[trigger] edges[k].1 && (i != u || k < kb)
            ==> edge_relaxed(edges, dist, i, k, j)
}

/// A walk from `start` to a node that is not settled costs at least the cost of
/// some unsettled node with a known cost, unless it costs more than a `u64` holds.
proof fn lemma_frontier(
    edges: Seq<Edge>,
    nodes: Seq<u64>,
    start: u64,
    sid: int,
    dist: Seq<Option<u64>>,
    done: Seq<bool>,
    paths: Seq<Vec<u64>>,
    walks: Seq<Seq<int>>,
    w: Seq<int>,
    t: u64,
)
    requires
        nodes_cover(edges, nodes),
        search_inv(edges, nodes, start, sid, dist, done, paths, walks),
        relaxed_except(edges, nodes, dist, done, -1, 0),
        is_walk(edges, w, start, t),
        forall|i: int| 0 <= i < nodes.len() && nodes[i] == t ==> !done[i],
    ensures
        walk_cost(edges, w) > u64::MAX || exists|y: int|
            0 <= y < nodes.len() && !done[y] && dist[y] is Some && dist[y]->0 <= walk_cost(edges, w),
    decreases w.len(),
{
    if w.len() == 0 {
        assert(!done[sid]);
    } else {
        let k = w.last();
        let x = edges[k].0;
        let w1 = w.drop_last();
        lemma_walk_drop_last(edges, w, start, t);
        lemma_walk_cost_nonneg(edges, w1);
        assert(nodes.contains(edges[k].0));
        assert(nodes.contains(edges[k].1));
        let i = choose|i: int| 0 <= i < nodes.len() && nodes[i] == x;
        let j = choose|j: int| 0 <= j < nodes.len() && nodes[j] == t;
        if done[i] {
            assert(is_walk(edges, w1, start, nodes[i]));
            assert(dist[i]->0 <= walk_cost(edges, w1));
            assert(edge_relaxed(edges, dist, i, k, j));
            assert(!done[j]);
        } else {
            assert forall|i2: int| 0 <= i2 < nodes.len() && nodes[i2] == x implies !done[i2] by {
                assert(nodes[i2] == nodes[i]);
            }
            lemma_frontier(edges, nodes, start, sid, dist, done, paths, walks, w1, x);
        }
    }
}

spec fn count_unsettled(done: Seq<bool>) -> nat
    decreases done.len(),
{
    if done.len() == 0 {
        0
    } else {
        count_unsettled(done.drop_last()) + if done.last() {
            0nat
        } else {
            1nat
        }
    }
}

proof fn lemma_settle_one(done: Seq<bool>, u: int)
    requires
        0 <= u < done.len(),
        !done[u],
    ensures
        count_unsettled(done.update(u, true)) < count_unsettled(done),
    decreases done.len(),
{
    let d2 = done.update(u, true);
    if u == done.len() - 1 {
        assert(d2.drop_last() =~= done.drop_last());
    } else {
        assert(d2.drop_last() =~= done.drop_last().update(u, true));
        lemma_settle_one(done.drop_last(), u);
    }
}

/// The unsettled node of least known cost (the first such one on ties), or
/// `None` when no unsettled node has a known cost.
pub fn find_lowest_cost_node(dist: &Vec<Option<u64>>, done: &Vec<bool>) -> (r: Option<usize>)
    requires
        dist@.len() == done@.len(),
    ensures
        match r {
            Some(u) => u < dist@.len() && !done@[u as int] && dist@[u as int] is Some && forall|i: int|
                0 <= i < dist@.len() && !done@[i] && (#[trigger] dist@[i]) is Some
                    ==> dist@[u as int]->0 <= dist@[i]->0,
            None => forall|i: int| 0 <= i < dist@.len() && !done@[i] ==> (#[trigger] dist@[i]) is None,
        },
{
    let mut best: Option<usize> = None;
    let mut i: usize = 0;
    while i < dist.len()
        invariant
            dist@.len() == done@.len(),
            i <= dist@.len(),
            match best {
                Some(u) => u < i && !done@[u as int] && dist@[u as int] is Some && forall|x: int|
                    0 <= x < i && !done@[x] && (#[trigger] dist@[x]) is Some
                        ==> dist@[u as int]->0 <= dist@[x]->0,
                None => forall|x: int| 0 <= x < i && !done@[x] ==> (#[trigger] dist@[x]) is None,
            },
        decreases dist@.len() - i,
    {
        if !done[i] {
            if let Some(d) = dist[i] {
                match best {
                    None => {
                        best = Some(i);
                    },
                    Some(b) => {
                        if let Some(db) = dist[b] {
                            if d < db {
                                best = Some(i);
                            }
                        }
                    },
                }
            }
        }
        i = i + 1;
    }
    best
}

fn copy_path(p: &Vec<u64>) -> (r: Vec<u64>)
    ensures
        r@ == p@,
{
    let mut r: Vec<u64> = Vec::new();
    let mut i: usize = 0;
    while i < p.len()
        invariant
            i <= p@.len(),
            r@ == p@.subrange(0, i as int),
        decreases p@.len() - i,
    {
        r.push(p[i]);
        i = i + 1;
    }
    assert(r@ =~= p@);
    r
}

/// Dijkstra's search from `start`: the cheapest path to `goal` with its cost,
/// or `None` when `goal` cannot be reached (within a cost a `u64` holds).
pub fn find_shortest_path(graph: &Graph, start: u64, goal: u64) -> (r: Option<(Vec<u64>, u64)>)
    requires
        graph.wf(),
    ensures
        is_search_outcome(graph@, start, goal, outcome_view(r)),
{
    let ghost edges = graph@;
    let ghost nodes = graph.node_seq();
    proof {
        graph.lemma_wf();
    }
    let sid = match graph.node_index(start) {
        Some(i) => i,
        None => {
            proof {
                assert forall|w: Seq<int>| #[trigger] is_walk(edges, w, start, goal) implies w.len() == 0 by {
                    if w.len() > 0 {
                        assert(nodes.contains(edges[w[0]].0));
                    }
                }
            }
            if start == goal {
                let mut p: Vec<u64> = Vec::new();
                p.push(start);
                proof {
                    let w0 = Seq::<int>::empty();
                    assert(is_walk(edges, w0, start, goal));
                    assert(walk_nodes(edges, w0, start) =~= p@);
                    assert(walk_cost(edges, w0) == 0);
                    assert forall|w: Seq<int>| is_walk(edges, w, start, goal) implies 0 <= walk_cost(edges, w) by {
                        lemma_walk_cost_nonneg(edges, w);
                    }
                }
                return Some((p, 0));
            } else {
                return None;
            }
        },
    };
    let n = graph.node_count();
    let m = graph.edge_count();
    let mut dist: Vec<Option<u64>> = Vec::new();
    let mut done: Vec<bool> = Vec::new();
    let mut paths: Vec<Vec<u64>> = Vec::new();
    let ghost mut walks: Seq<Seq<int>> = Seq::empty();
    let mut i: usize = 0;
    while i < n
        invariant
            n == nodes.len(),
            i <= n,
            sid < n,
            nodes[sid as int] == start,
            dist@.len() == i && done@.len() == i && paths@.len() == i && walks.len() == i,
            forall|x: int| 0 <= x < i ==> #[trigger] done@[x] == false,
            forall|x: int| 0 <= x < i ==> #[trigger] dist@[x] == if x == sid { Some(0u64) } else { None },
            forall|x: int| 0 <= x < i ==> #[trigger] walks[x] == Seq::<int>::empty(),
            forall|x: int| 0 <= x < i ==> (#[trigger] paths@[x])@ == seq![start],
        decreases n - i,
    {
        let mut p: Vec<u64> = Vec::new();
        p.push(start);
        paths.push(p);
        done.push(false);
        if i == sid {
            dist.push(Some(0));
        } else {
            dist.push(None);
        }
        proof {
            walks = walks.push(Seq::<int>::empty());
        }
        i = i + 1;
    }
    proof {
        assert forall|x: int| 0 <= x < n && (#[trigger] dist@[x]) is Some implies is_walk(edges, walks[x], start, nodes[x])
            && walk_cost(edges, walks[x]) == dist@[x]->0 && paths@[x]@ == walk_nodes(edges, walks[x], start) by {
            assert(walk_nodes(edges, walks[x], start) =~= seq![start]);
        }
    }
    loop
        invariant
            graph.wf(),
            edges == graph@,
            nodes == graph.node_seq(),
            n == nodes.len(),
            m == edges.len(),
            nodes_cover(edges, nodes),
            search_inv(edges, nodes, start, sid as int, dist@, done@, paths@, walks),
            relaxed_except(edges, nodes, dist@, done@, -1, 0),
        ensures
            forall|x: int| 0 <= x < n && !done@[x] ==> (#[trigger] dist@[x]) is None,
        decreases count_unsettled(done@),
    {
        let u = match find_lowest_cost_node(&dist, &done) {
            Some(u) => u,
            None => break,
        };
        let du = dist[u].unwrap();
        let src = graph.node_at(u);
        proof {
            assert forall|w: Seq<int>| #[trigger] is_walk(edges, w, start, nodes[u as int]) implies du <= walk_cost(
                edges,
                w,
            ) by {
                assert forall|i2: int| 0 <= i2 < nodes.len() && nodes[i2] == nodes[u as int] implies !done@[i2] by {
                    assert(nodes[i2] == nodes[u as int]);
                }
                lemma_frontier(edges, nodes, start, sid as int, dist@, done@, paths@, walks, w, nodes[u as int]);
            }
            lemma_settle_one(done@, u as int);
        }
        done.set(u, true);
        let mut k: usize = 0;
        while k < m
            invariant
                graph.wf(),
                edges == graph@,
                nodes == graph.node_seq(),
                n == nodes.len(),
                m == edges.len(),
                nodes_cover(edges, nodes),
                u < n,
                src == nodes[u as int],
                done@[u as int],
                dist@[u as int] == Some(du),
                k <= m,
                search_inv(edges, nodes, start, sid as int, dist@, done@, paths@, walks),
                relaxed_except(edges, nodes, dist@, done@, u as int, k as int),
            decreases m - k,
        {
            let e = graph.edge_at(k);
            if e.0 == src {
                assert(nodes.contains(edges[k as int].1));
                let j = graph.node_index(e.1).unwrap();
                proof {
                    lemma_walk_push(edges, walks[u as int], start, src, k as int);
                }
                if !done[j] {
                    if let Some(c) = du.checked_add(e.2) {
                        let better = match dist[j] {
                            None => true,
                            Some(dj) => c < dj,
                        };
                        if better {
                            let mut p = copy_path(&paths[u]);
                            p.push(e.1);
                            let ghost old_dist = dist@;
                            proof {
                                walks = walks.update(j as int, walks[u as int].push(k as int));
                            }
                            let ghost old_paths = paths@;
                            dist.set(j, Some(c));
                            paths.set(j, p);
                            proof {
                                assert forall|x: int| 0 <= x < n && (#[trigger] dist@[x]) is Some implies is_walk(
                                    edges,
                                    walks[x],
                                    start,
                                    nodes[x],
                                ) && walk_cost(edges, walks[x]) == dist@[x]->0 && paths@[x]@ == walk_nodes(
                                    edges,
                                    walks[x],
                                    start,
                                ) by {
                                    if x != j {
                                        assert(old_dist[x] == dist@[x]);
                                        assert(old_paths[x] == paths@[x]);
                                    }
                                }
                                assert forall|i2: int, k2: int, j2: int|
                                    0 <= i2 < nodes.len() && 0 <= k2 < edges.len() && 0 <= j2 < nodes.len()
                                        && #[trigger] done@[i2] && edges[k2].0 == nodes[i2]
                                        && #[trigger] nodes[j2] == #[trigger] edges[k2].1 && (i2 != u || k2 < k + 1)
                                    implies edge_relaxed(edges, dist@, i2, k2, j2) by {
                                    if i2 != u || k2 < k {
                                        assert(edge_relaxed(edges, old_dist, i2, k2, j2));
                                    }
                                    if j2 != j {
                                        assert(nodes[j2] != nodes[j as int]);
                                    }
                                }
                            }
                        }
                    }
                }
            }
            k = k + 1;
        }
    }
    let gid = match graph.node_index(goal) {
        Some(g) => g,
        None => {
            proof {
                assert forall|w: Seq<int>| is_walk(edges, w, start, goal) implies false by {
                    if w.len() > 0 {
                        let kk = w.last();
                        assert(0 <= kk < edges.len());
                        assert(nodes.contains(edges[kk].0));
                        assert(nodes.contains(edges[kk].1));
                    } else {
                        assert(nodes[sid as int] == goal);
                    }
                }
            }
            return None;
        },
    };
    if done[gid] {
        let du = dist[gid].unwrap();
        let p = copy_path(&paths[gid]);
        proof {
            let w = walks[gid as int];
            assert(is_walk(edges, w, start, goal) && walk_cost(edges, w) == du && walk_nodes(edges, w, start) == p@);
        }
        Some((p, du))
    } else {
        proof {
            assert forall|w: Seq<int>| #[trigger] is_walk(edges, w, start, goal) implies walk_cost(edges, w) > u64::MAX by {
                assert forall|i2: int| 0 <= i2 < nodes.len() && nodes[i2] == goal implies !done@[i2] by {
                    assert(nodes[i2] == nodes[gid as int]);
                }
                lemma_frontier(edges, nodes, start, sid as int, dist@, done@, paths@, walks, w, goal);
            }
        }
        None
    }
}

} // verus!
