use apsp::algorithms::dijkstra_am::{dijkstra, Dijkstra};
use apsp::algorithms::dijkstra_par::{dijkstra_parallel, DijkstraPar};
use apsp::algorithms::floyd_warshall_am::{floyd_warshall, FloydWarshall};
use apsp::algorithms::floyd_warshall_block::{floyd_warshall_blocked, FloydWarshallBlock};
use apsp::algorithms::floyd_warshall_block_par::{
    floyd_warshall_blocked_par, FloydWarshallBlockPar,
};
use apsp::base::APSPAlgorithm;
use apsp::graph::GraphAM;

fn graph_from_edges(n: usize, edges: &[(usize, usize, u64)]) -> GraphAM {
    let mut g = GraphAM::with_capacity(n);
    for &(from, to, w) in edges {
        g.add_edge(from, to, w);
    }
    g
}

fn undirected_from_edges(n: usize, edges: &[(usize, usize, u64)]) -> GraphAM {
    let mut g = GraphAM::with_capacity(n);
    for &(from, to, w) in edges {
        g.add_edge(from, to, w);
        g.add_edge(to, from, w);
    }
    g
}

/// The four-node directed example: the three-hop path beats the direct edge,
/// and the reverse direction is unreachable.
#[test]
fn four_node_directed_example() {
    let g = graph_from_edges(4, &[(0, 1, 1), (1, 2, 2), (2, 3, 1), (0, 3, 10)]);
    let dist = floyd_warshall(&g);
    assert_eq!(dist[0][3], Some(4));
    assert_eq!(dist[3][0], None);
    assert_eq!(dist[0][1], Some(1));
    assert_eq!(dist[0][2], Some(3));
    assert_eq!(dist[1][3], Some(3));

    let mut engine = Dijkstra::new();
    engine.load_graph(&g);
    engine.execute();
    let result = engine.get_result();
    assert_eq!(result.get(0, 3), Some(4));
    assert_eq!(result.get(3, 0), None);
}

/// Every engine produces the same mapping on the same graph.
#[test]
fn all_engines_agree() {
    let g = graph_from_edges(
        5,
        &[(0, 1, 3), (1, 2, 4), (2, 0, 5), (0, 3, 1), (3, 4, 1), (4, 1, 1), (2, 4, 2)],
    );
    let reference = floyd_warshall(&g);
    assert_eq!(dijkstra(&g), reference);
    assert_eq!(dijkstra_parallel(&g, 3), reference);
    assert_eq!(floyd_warshall_blocked(&g, 2), reference);
    assert_eq!(floyd_warshall_blocked_par(&g, 2), reference);

    let mut a = FloydWarshall::new();
    let mut b = Dijkstra::new();
    let mut c = DijkstraPar::new(2);
    let mut d = FloydWarshallBlock::new(2);
    let mut e = FloydWarshallBlockPar::new(2);
    a.load_graph(&g);
    b.load_graph(&g);
    c.load_graph(&g);
    d.load_graph(&g);
    e.load_graph(&g);
    a.execute();
    b.execute();
    c.execute();
    d.execute();
    e.execute();
    assert_eq!(a.shortest_paths, reference);
    assert_eq!(b.shortest_paths, reference);
    assert_eq!(c.shortest_paths, reference);
    assert_eq!(d.shortest_paths, reference);
    assert_eq!(e.shortest_paths, reference);
    let ra = a.get_result();
    let rb = b.get_result();
    assert!(ra.result_compare(&rb));
    assert!(rb.result_compare(&ra));
}

/// A two-component graph: cross-component pairs are absent, pairs within a
/// component are finite.
#[test]
fn disconnected_components() {
    let g = undirected_from_edges(4, &[(0, 1, 7), (2, 3, 2)]);
    let dist = floyd_warshall(&g);
    assert_eq!(dist[0][1], Some(7));
    assert_eq!(dist[1][0], Some(7));
    assert_eq!(dist[2][3], Some(2));
    assert_eq!(dist[3][2], Some(2));
    for i in 0..2 {
        for j in 2..4 {
            assert_eq!(dist[i][j], None);
            assert_eq!(dist[j][i], None);
        }
    }
    assert_eq!(dijkstra(&g), dist);
    assert_eq!(floyd_warshall_blocked_par(&g, 3), dist);
}

/// The diagonal is zero for every node, whatever the engine.
#[test]
fn diagonal_is_zero() {
    let g = graph_from_edges(3, &[(0, 1, 5), (1, 2, 5)]);
    for dist in [
        floyd_warshall(&g),
        dijkstra(&g),
        dijkstra_parallel(&g, 2),
        floyd_warshall_blocked(&g, 1),
        floyd_warshall_blocked_par(&g, 2),
    ] {
        for i in 0..3 {
            assert_eq!(dist[i][i], Some(0));
        }
    }
}

/// An undirected graph yields a symmetric distance matrix.
#[test]
fn undirected_is_symmetric() {
    let g = undirected_from_edges(5, &[(0, 1, 2), (1, 2, 9), (2, 3, 1), (3, 4, 4), (0, 4, 3)]);
    let dist = dijkstra(&g);
    for i in 0..5 {
        for j in 0..5 {
            assert_eq!(dist[i][j], dist[j][i]);
        }
    }
    assert_eq!(floyd_warshall(&g), dist);
}

/// The triangle inequality holds for every finite pair of legs.
#[test]
fn triangle_inequality_holds() {
    let g = graph_from_edges(
        4,
        &[(0, 1, 1), (1, 0, 6), (1, 2, 2), (2, 3, 1), (0, 3, 10), (3, 1, 2)],
    );
    let dist = floyd_warshall(&g);
    for i in 0..4 {
        for j in 0..4 {
            for k in 0..4 {
                if let (Some(a), Some(b)) = (dist[i][k], dist[k][j]) {
                    let d = dist[i][j].expect("two finite legs imply a finite distance");
                    assert!(d <= a + b);
                }
            }
        }
    }
}

/// Running `execute` twice on the same loaded graph is bit-identical.
#[test]
fn execute_is_idempotent() {
    let g = graph_from_edges(4, &[(0, 1, 1), (1, 2, 2), (2, 3, 1), (0, 3, 10)]);
    let mut engine = FloydWarshallBlockPar::new(3);
    engine.load_graph(&g);
    engine.execute();
    let first = engine.shortest_paths.clone();
    engine.execute();
    assert_eq!(engine.shortest_paths, first);

    let mut seq = Dijkstra::new();
    seq.load_graph(&g);
    seq.execute();
    let once = seq.shortest_paths.clone();
    seq.execute();
    assert_eq!(seq.shortest_paths, once);
}

/// Worker counts of 1, N, and N + 5 all give the single-threaded answer,
/// including the empty partitions that N + 5 produces.
#[test]
fn partition_invariance() {
    let n = 4;
    let g = graph_from_edges(n, &[(0, 1, 1), (1, 2, 2), (2, 3, 1), (0, 3, 10), (3, 0, 8)]);
    let reference = dijkstra(&g);
    for threads in [1, n, n + 5] {
        assert_eq!(dijkstra_parallel(&g, threads), reference);
        assert_eq!(floyd_warshall_blocked_par(&g, threads), reference);
    }
    for blocks in [1, 2, n] {
        assert_eq!(floyd_warshall_blocked(&g, blocks), reference);
    }
}

/// Loading a new graph replaces the old one entirely.
#[test]
fn load_replaces_prior_state() {
    let g1 = graph_from_edges(2, &[(0, 1, 1)]);
    let g2 = graph_from_edges(2, &[(0, 1, 9)]);
    let mut engine = FloydWarshall::new();
    engine.load_graph(&g1);
    engine.execute();
    engine.load_graph(&g2);
    engine.execute();
    let result = engine.get_result();
    assert_eq!(result.get(0, 1), Some(9));
}

/// Engines cope with the empty graph and the one-node graph.
#[test]
fn degenerate_sizes() {
    let empty = GraphAM::new();
    assert_eq!(floyd_warshall(&empty).len(), 0);
    assert_eq!(dijkstra(&empty).len(), 0);
    assert_eq!(dijkstra_parallel(&empty, 3).len(), 0);
    assert_eq!(floyd_warshall_blocked(&empty, 2).len(), 0);
    assert_eq!(floyd_warshall_blocked_par(&empty, 2).len(), 0);

    let one = GraphAM::with_capacity(1);
    let dist = floyd_warshall_blocked(&one, 5);
    assert_eq!(dist, vec![vec![Some(0)]]);
    assert_eq!(dijkstra(&one), dist);
}

/// A self-loop never beats the zero diagonal, and parallel edges keep the
/// last weight recorded.
#[test]
fn self_loops_and_overwrites() {
    let mut g = GraphAM::with_capacity(2);
    g.add_edge(0, 0, 4);
    g.add_edge(0, 1, 9);
    g.add_edge(0, 1, 2);
    let dist = floyd_warshall(&g);
    assert_eq!(dist[0][0], Some(0));
    assert_eq!(dist[0][1], Some(2));
}

/// Weights at the engines' bound still sum correctly along paths.
#[test]
fn boundary_weights() {
    let w = apsp::minplus::MAX_WEIGHT;
    let g = graph_from_edges(3, &[(0, 1, w), (1, 2, w)]);
    let dist = floyd_warshall(&g);
    assert_eq!(dist[0][2], Some(2 * w));
    assert_eq!(dijkstra(&g), dist);
    assert_eq!(floyd_warshall_blocked(&g, 2), dist);
    assert_eq!(floyd_warshall_blocked_par(&g, 2), dist);
}

/// Before any `execute`, the sparse result is empty.
#[test]
fn result_before_execute_is_empty() {
    let mut engine = Dijkstra::new();
    let result = engine.get_result();
    assert_eq!(result.get(0, 0), None);
    assert!(result.shortest_paths.is_empty());
}

/// An edge is a plain copyable value.
#[test]
fn edge_is_a_plain_value() {
    let e = apsp::graph::Edge { from: 0, to: 1, weight: 5 };
    let copied = e;
    assert_eq!(copied.from, 0);
    assert_eq!(copied.to, 1);
    assert_eq!(copied.weight, 5);
    assert_eq!(e.weight, 5);
}

/// Worker counts far beyond the node count are accepted and change nothing.
#[test]
fn huge_worker_counts() {
    let g = graph_from_edges(3, &[(0, 1, 2), (1, 2, 3)]);
    let reference = floyd_warshall(&g);
    assert_eq!(dijkstra_parallel(&g, 10_000), reference);
    assert_eq!(floyd_warshall_blocked_par(&g, 10_000), reference);
    assert_eq!(floyd_warshall_blocked_par(&g, usize::MAX), reference);
}
