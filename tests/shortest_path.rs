use dijkstra::graph::Graph;
use dijkstra::shortest_path::{find_lowest_cost_node, find_shortest_path};

fn graph_of(edges: &[(u64, u64, u64)]) -> Graph {
    Graph::from_edge_list(&edges.to_vec())
}

/// Cheapest cost over all simple paths, by exhaustive search.
fn brute_force(edges: &[(u64, u64, u64)], at: u64, goal: u64, seen: &mut Vec<u64>) -> Option<u64> {
    if at == goal {
        return Some(0);
    }
    let mut best: Option<u64> = None;
    for &(s, d, w) in edges {
        if s == at && !seen.contains(&d) {
            seen.push(d);
            if let Some(rest) = brute_force(edges, d, goal, seen) {
                let c = rest + w;
                if best.map_or(true, |b| c < b) {
                    best = Some(c);
                }
            }
            seen.pop();
        }
    }
    best
}

fn path_cost(edges: &[(u64, u64, u64)], path: &[u64]) -> Option<u64> {
    let mut total = 0u64;
    for pair in path.windows(2) {
        let w = edges
            .iter()
            .filter(|e| e.0 == pair[0] && e.1 == pair[1])
            .map(|e| e.2)
            .min()?;
        total += w;
    }
    Some(total)
}

fn check_against_brute_force(edges: &[(u64, u64, u64)]) {
    let g = graph_of(edges);
    let mut nodes: Vec<u64> = Vec::new();
    for &(s, d, _) in edges {
        for v in [s, d] {
            if !nodes.contains(&v) {
                nodes.push(v);
            }
        }
    }
    for &s in &nodes {
        for &t in &nodes {
            let expected = brute_force(edges, s, t, &mut vec![s]);
            let got = find_shortest_path(&g, s, t);
            match (expected, got) {
                (None, None) => {}
                (Some(c), Some((path, cost))) => {
                    assert_eq!(cost, c, "query {} -> {}", s, t);
                    assert_eq!(path.first(), Some(&s));
                    assert_eq!(path.last(), Some(&t));
                    assert_eq!(path_cost(edges, &path), Some(cost));
                }
                (e, r) => panic!("query {} -> {}: expected {:?}, got {:?}", s, t, e, r),
            }
        }
    }
}

#[test]
fn prefers_cheaper_two_hop_route() {
    let g = graph_of(&[(0, 1, 5), (0, 2, 1), (2, 1, 1)]);
    assert_eq!(find_shortest_path(&g, 0, 1), Some((vec![0, 2, 1], 2)));
}

#[test]
fn chain_from_1000_to_9000_costs_24() {
    let g = graph_of(&[
        (1000, 5000, 7),
        (5000, 7000, 8),
        (7000, 9000, 9),
        (1000, 9000, 30),
        (5000, 9000, 20),
    ]);
    let (path, cost) = find_shortest_path(&g, 1000, 9000).unwrap();
    assert_eq!(cost, 24);
    assert_eq!(path, vec![1000, 5000, 7000, 9000]);
}

#[test]
fn disconnected_components_are_unreachable() {
    let g = graph_of(&[(0, 1, 1), (1, 2, 1), (10, 11, 1), (11, 10, 1)]);
    assert_eq!(find_shortest_path(&g, 0, 10), None);
    assert_eq!(find_shortest_path(&g, 10, 2), None);
}

#[test]
fn edges_are_directed() {
    let g = graph_of(&[(0, 1, 4)]);
    assert_eq!(find_shortest_path(&g, 0, 1), Some((vec![0, 1], 4)));
    assert_eq!(find_shortest_path(&g, 1, 0), None);
}

#[test]
fn parallel_edges_use_the_cheaper_one() {
    let g = graph_of(&[(0, 1, 7), (0, 1, 3), (1, 2, 2), (1, 2, 9)]);
    assert_eq!(find_shortest_path(&g, 0, 2), Some((vec![0, 1, 2], 5)));
}

#[test]
fn repeated_queries_agree() {
    let g = graph_of(&[(0, 1, 1), (0, 2, 1), (1, 3, 1), (2, 3, 1), (3, 4, 2)]);
    let first = find_shortest_path(&g, 0, 4);
    let second = find_shortest_path(&g, 0, 4);
    assert_eq!(first, second);
    assert_eq!(first.unwrap().1, 4);
}

#[test]
fn start_equal_to_goal_is_free() {
    let g = graph_of(&[(0, 1, 3), (1, 0, 3)]);
    assert_eq!(find_shortest_path(&g, 1, 1), Some((vec![1], 0)));
    assert_eq!(find_shortest_path(&g, 42, 42), Some((vec![42], 0)));
}

#[test]
fn unknown_nodes_are_unreachable() {
    let g = graph_of(&[(0, 1, 3)]);
    assert_eq!(find_shortest_path(&g, 0, 99), None);
    assert_eq!(find_shortest_path(&g, 99, 1), None);
}

#[test]
fn self_loops_and_zero_costs() {
    let g = graph_of(&[(0, 0, 1), (0, 1, 0), (1, 1, 0), (1, 2, 0)]);
    assert_eq!(find_shortest_path(&g, 0, 2), Some((vec![0, 1, 2], 0)));
}

#[test]
fn cost_beyond_u64_counts_as_unreachable() {
    let g = graph_of(&[(0, 1, u64::MAX), (1, 2, 1)]);
    assert_eq!(find_shortest_path(&g, 0, 1), Some((vec![0, 1], u64::MAX)));
    assert_eq!(find_shortest_path(&g, 0, 2), None);
    assert_eq!(find_shortest_path(&g, 1, 2), Some((vec![1, 2], 1)));
}

#[test]
fn matches_brute_force_on_small_graphs() {
    check_against_brute_force(&[(0, 1, 5), (0, 2, 1), (2, 1, 1)]);
    check_against_brute_force(&[
        (0, 1, 4),
        (0, 2, 1),
        (2, 1, 2),
        (1, 3, 1),
        (2, 3, 5),
        (3, 4, 3),
        (4, 0, 1),
        (3, 1, 0),
    ]);
    check_against_brute_force(&[(1, 2, 2), (2, 3, 2), (1, 3, 5), (3, 1, 1), (4, 5, 1), (5, 4, 9), (2, 2, 1)]);
    check_against_brute_force(&[(7, 8, 3), (7, 8, 1), (8, 9, 0), (9, 7, 2), (8, 7, 6), (9, 10, 4)]);
}

#[test]
fn neighbors_keep_order_and_parallel_edges() {
    let g = graph_of(&[(0, 1, 5), (2, 0, 1), (0, 1, 2), (0, 3, 9)]);
    assert_eq!(g.neighbors(0), vec![(1, 5), (1, 2), (3, 9)]);
    assert_eq!(g.neighbors(3), vec![]);
    assert_eq!(g.neighbors(2), vec![(0, 1)]);
}

#[test]
fn graph_nodes_are_all_endpoints() {
    let g = graph_of(&[(5, 6, 1), (6, 5, 1), (7, 5, 2)]);
    assert_eq!(g.node_count(), 3);
    assert_eq!(g.edge_count(), 3);
    assert_eq!(g.node_at(0), 5);
    assert_eq!(g.node_at(2), 7);
    assert_eq!(g.edge_at(2), (7, 5, 2));
    assert_eq!(g.node_index(7), Some(2));
    assert_eq!(g.node_index(8), None);
    assert!(g.contains_node(6));
    assert!(!g.contains_node(1));
}

#[test]
fn empty_graph_has_no_paths() {
    let g = graph_of(&[]);
    assert_eq!(g.node_count(), 0);
    assert_eq!(find_shortest_path(&g, 0, 1), None);
}

#[test]
fn lowest_cost_node_skips_settled_and_unknown() {
    let dist = vec![Some(1), None, Some(3), Some(3)];
    assert_eq!(find_lowest_cost_node(&dist, &vec![true, false, false, false]), Some(2));
    assert_eq!(find_lowest_cost_node(&dist, &vec![false, false, false, false]), Some(0));
    assert_eq!(find_lowest_cost_node(&dist, &vec![true, false, true, true]), None);
}
