//! The row-partitioned single-source engine.
//!
//! Source nodes are split into contiguous ranges, one per worker; each
//! worker independently computes the rows of its range against the shared
//! read-only adjacency matrix, and the coordinator copies every worker's
//! rows into the final matrix at its row offset. The ranges `[i*n/T,
//! (i+1)*n/T)` are disjoint and cover all rows, so the assembled matrix is
//! provably the same whatever the worker count; a harness may run the
//! workers on real threads and merge their results through the same code.

use vstd::prelude::*;
use vstd::arithmetic::div_mod::{lemma_div_is_ordered, lemma_div_multiples_vanish};
use crate::base::{collect_result, APSPAlgorithm, APSPResult};
use crate::graph::GraphAM;
use crate::minplus::{
    lemma_lift_mat_index, lemma_rows_view_square, lift_cell, lift_mat, rows_view, vec_square,
    weights_bounded, Matrix, MAX_NODE_COUNT,
};
use crate::shortest::{lemma_shortest_upto_square, shortest_mat};
use crate::algorithms::dijkstra_am::dijkstra_single;

verus! {

/// The partition range `[idx*n/t, (idx+1)*n/t)` is well-formed and lies
/// inside `[0, n]`.
proof fn lemma_range_bounds(idx: int, n: int, t: int)
    requires
        0 <= idx,
        idx + 1 <= t,
        1 <= t,
        0 <= n,
    ensures
        0 <= idx * n / t,
        idx * n / t <= (idx + 1) * n / t,
        (idx + 1) * n / t <= n,
        idx * n <= t * n,
        (idx + 1) * n <= t * n,
{
    assert(0 <= idx * n) by (nonlinear_arith)
        requires 0 <= idx, 0 <= n;
    assert(idx * n <= (idx + 1) * n) by (nonlinear_arith)
        requires 0 <= idx, 0 <= n;
    assert((idx + 1) * n <= t * n) by (nonlinear_arith)
        requires idx + 1 <= t, 0 <= n;
    lemma_div_is_ordered(0, idx * n, t);
    lemma_div_is_ordered(idx * n, (idx + 1) * n, t);
    lemma_div_is_ordered((idx + 1) * n, t * n, t);
    lemma_div_multiples_vanish(n, t);
    assert(t * n / t == n);
    assert(0int / t == 0);
}

/// A worker's output is its sub-matrix of rows plus its range bounds, and
/// each row holds the shortest distances from the matching source.
pub open spec fn worker_rows_ok(
    rows: Seq<Vec<Option<u64>>>,
    start: int,
    end: int,
    g: Matrix,
) -> bool {
    &&& rows.len() == end - start
    &&& forall|i: int| 0 <= i < rows.len() ==> (#[trigger] rows[i])@.len() == g.len()
    &&& forall|i: int, v: int|
        0 <= i < rows.len() && 0 <= v < g.len() ==> lift_cell(#[trigger] rows[i]@[v])
            == shortest_mat(g)[start + i][v]
}

/// Run the single-source engine for every source in `[start, end)`,
/// producing that range's rows and its bounds. This is the work one
/// partition worker performs.
pub fn dijkstra(
    node_count: usize,
    adjacency_matrix: &Vec<Vec<Option<u64>>>,
    start: usize,
    end: usize,
) -> (r: (Vec<Vec<Option<u64>>>, usize, usize))
    requires
        vec_square(adjacency_matrix@, node_count as nat),
        node_count <= MAX_NODE_COUNT,
        weights_bounded(rows_view(adjacency_matrix@)),
        start <= end <= node_count,
    ensures
        r.1 == start,
        r.2 == end,
        worker_rows_ok(r.0@, start as int, end as int, rows_view(adjacency_matrix@)),
{
    let ghost g = rows_view(adjacency_matrix@);
    let mut distance_matrix: Vec<Vec<Option<u64>>> = Vec::new();
    let mut start_node: usize = start;
    while start_node < end
        invariant
            start <= start_node <= end <= node_count,
            vec_square(adjacency_matrix@, node_count as nat),
            node_count <= MAX_NODE_COUNT,
            weights_bounded(g),
            g == rows_view(adjacency_matrix@),
            g.len() == node_count,
            distance_matrix@.len() == start_node - start,
            forall|i: int|
                0 <= i < distance_matrix@.len() ==> (#[trigger] distance_matrix@[i])@.len()
                    == node_count,
            forall|i: int, v: int|
                0 <= i < distance_matrix@.len() && 0 <= v < node_count ==> lift_cell(
                    #[trigger] distance_matrix@[i]@[v],
                ) == shortest_mat(g)[start + i][v],
        decreases end - start_node,
    {
        let row = dijkstra_single(node_count, adjacency_matrix, start_node);
        distance_matrix.push(row);
        start_node = start_node + 1;
    }
    (distance_matrix, start, end)
}

/// Rows before `upto` of the assembled matrix already hold their final
/// shortest distances.
spec fn rows_assembled(dm: Seq<Vec<Option<u64>>>, g: Matrix, upto: int) -> bool {
    forall|r: int, c: int|
        0 <= r < upto && 0 <= c < g.len() ==> lift_cell(#[trigger] dm[r]@[c]) == shortest_mat(
            g,
        )[r][c]
}

/// Partition the sources into `threads` contiguous ranges, run the worker
/// on each, and merge the returned rows. The result does not depend on the
/// partitioning: it is always the shortest-distance matrix, for any
/// `threads >= 1`, including counts larger than the node count.
pub fn dijkstra_parallel(graph: &GraphAM, threads: usize) -> (r: Vec<Vec<Option<u64>>>)
    requires
        graph.wf(),
        graph.weights_fit(),
        threads >= 1,
    ensures
        vec_square(r@, graph.node_count as nat),
        lift_mat(rows_view(r@)) == shortest_mat(graph.mat()),
{
    let ghost g = graph.mat();
    let node_count = graph.node_count;
    proof {
        assert forall|t: int|
            0 <= t < node_count implies #[trigger] graph.adjacency_matrix@[t]@.len()
            == node_count by {
            assert(g[t] == graph.adjacency_matrix@[t]@);
            assert(g[t].len() == node_count);
        }
        assert(vec_square(graph.adjacency_matrix@, node_count as nat));
        assert(rows_view(graph.adjacency_matrix@) =~~= g);
        lemma_shortest_upto_square(g, g.len());
    }
    let adjacency_matrix = &graph.adjacency_matrix;

    let mut handles: Vec<(Vec<Vec<Option<u64>>>, usize, usize)> = Vec::new();
    let mut i: usize = 0;
    while i < threads
        invariant
            i <= threads,
            threads >= 1,
            node_count == graph.node_count,
            node_count <= MAX_NODE_COUNT,
            graph.wf(),
            graph.weights_fit(),
            g == graph.mat(),
            g == rows_view(graph.adjacency_matrix@),
            vec_square(graph.adjacency_matrix@, node_count as nat),
            adjacency_matrix == &graph.adjacency_matrix,
            handles@.len() == i,
            forall|h: int|
                0 <= h < i ==> (#[trigger] handles@[h]).1 == h * node_count as int / threads as int
                    && handles@[h].2 == (h + 1) * node_count as int / threads as int
                    && worker_rows_ok(
                    handles@[h].0@,
                    handles@[h].1 as int,
                    handles@[h].2 as int,
                    g,
                ),
        decreases threads - i,
    {
        proof {
            lemma_range_bounds(i as int, node_count as int, threads as int);
            assert((i as int) * (node_count as int) <= 0x8000_0000_0000_0000_0000)
                by (nonlinear_arith)
                requires i as int <= 0xFFFF_FFFF_FFFF_FFFF, node_count <= 0x8000;
            assert((i as int + 1) * (node_count as int) <= 0x8000_0000_0000_0000_0000)
                by (nonlinear_arith)
                requires i as int <= 0xFFFF_FFFF_FFFF_FFFF, node_count <= 0x8000;
        }
        let start128 = (i as u128) * (node_count as u128) / (threads as u128);
        let end128 = ((i as u128) + 1) * (node_count as u128) / (threads as u128);
        proof {
            assert(end128 <= node_count as u128);
            assert(start128 <= end128);
        }
        let start = start128 as usize;
        let end = end128 as usize;
        let handle = dijkstra(node_count, adjacency_matrix, start, end);
        handles.push(handle);
        i = i + 1;
    }

    // An n-by-n matrix of absent distances, filled range by range below.
    let mut distance_matrix: Vec<Vec<Option<u64>>> = Vec::new();
    let mut t: usize = 0;
    while t < node_count
        invariant
            t <= node_count,
            distance_matrix@.len() == t,
            forall|r: int| 0 <= r < t ==> (#[trigger] distance_matrix@[r])@.len() == node_count,
        decreases node_count - t,
    {
        let mut row: Vec<Option<u64>> = Vec::new();
        let mut c: usize = 0;
        while c < node_count
            invariant
                c <= node_count,
                row@.len() == c,
            decreases node_count - c,
        {
            row.push(None);
            c = c + 1;
        }
        distance_matrix.push(row);
        t = t + 1;
    }

    proof {
        assert(sm_square(g));
    }
    let mut h: usize = 0;
    while h < handles.len()
        invariant
            h <= handles@.len(),
            handles@.len() == threads,
            threads >= 1,
            node_count <= MAX_NODE_COUNT,
            g.len() == node_count,
            sm_square(g),
            forall|hh: int|
                0 <= hh < threads ==> (#[trigger] handles@[hh]).1 == hh * node_count as int
                    / threads as int && handles@[hh].2 == (hh + 1) * node_count as int
                    / threads as int && worker_rows_ok(
                    handles@[hh].0@,
                    handles@[hh].1 as int,
                    handles@[hh].2 as int,
                    g,
                ),
            vec_square(distance_matrix@, node_count as nat),
            rows_assembled(
                distance_matrix@,
                g,
                h as int * node_count as int / threads as int,
            ),
        decreases handles@.len() - h,
    {
        let hd = &handles[h];
        let hstart = hd.1;
        let hend = hd.2;
        proof {
            lemma_range_bounds(h as int, node_count as int, threads as int);
        }
        let mut row_idx: usize = hstart;
        while row_idx < hend
            invariant
                hstart <= row_idx <= hend,
                h < handles@.len(),
                handles@.len() == threads,
                node_count <= MAX_NODE_COUNT,
                g.len() == node_count,
                sm_square(g),
                hd == &handles@[h as int],
                hstart == hd.1,
                hend == hd.2,
                hend <= node_count,
                worker_rows_ok(hd.0@, hstart as int, hend as int, g),
                vec_square(distance_matrix@, node_count as nat),
                rows_assembled(distance_matrix@, g, hstart as int),
                forall|r: int, c: int|
                    hstart <= r < row_idx && 0 <= c < node_count ==> lift_cell(
                        #[trigger] distance_matrix@[r]@[c],
                    ) == shortest_mat(g)[r][c],
            decreases hend - row_idx,
        {
            let mut col: usize = 0;
            while col < node_count
                invariant
                    col <= node_count,
                    hstart <= row_idx < hend,
                    h < handles@.len(),
                    node_count <= MAX_NODE_COUNT,
                    g.len() == node_count,
                    sm_square(g),
                    hd == &handles@[h as int],
                    hstart == hd.1,
                    hend == hd.2,
                    hend <= node_count,
                    worker_rows_ok(hd.0@, hstart as int, hend as int, g),
                    vec_square(distance_matrix@, node_count as nat),
                    rows_assembled(distance_matrix@, g, hstart as int),
                    forall|r: int, c: int|
                        hstart <= r < row_idx && 0 <= c < node_count ==> lift_cell(
                            #[trigger] distance_matrix@[r]@[c],
                        ) == shortest_mat(g)[r][c],
                    forall|c: int|
                        0 <= c < col ==> lift_cell(#[trigger] distance_matrix@[row_idx as int]@[c])
                            == shortest_mat(g)[row_idx as int][c],
                decreases node_count - col,
            {
                distance_matrix[row_idx][col] = hd.0[row_idx - hstart][col];
                proof {
                    assert(hd.0@[row_idx - hstart]@[col as int] == distance_matrix@[
                    row_idx as int]@[col as int]);
                    assert(lift_cell(hd.0@[row_idx - hstart]@[col as int]) == shortest_mat(
                        g,
                    )[hstart + (row_idx - hstart)][col as int]);
                }
                col = col + 1;
            }
            row_idx = row_idx + 1;
        }
        proof {
            assert(rows_assembled(distance_matrix@, g, hend as int));
        }
        h = h + 1;
    }
    proof {
        lemma_div_multiples_vanish(node_count as int, threads as int);
        assert(threads as int * node_count as int / threads as int == node_count as int);
        assert(rows_assembled(distance_matrix@, g, node_count as int));
        assert forall|r: int, c: int|
            0 <= r < node_count && 0 <= c < node_count implies lift_mat(
            rows_view(distance_matrix@),
        )[r][c] == shortest_mat(g)[r][c] by {
            lemma_lift_mat_index(distance_matrix@, r, c);
        }
        assert(lift_mat(rows_view(distance_matrix@)) =~~= shortest_mat(g));
    }
    distance_matrix
}

/// The shortest-distance matrix is square (restated as a predicate so the
/// merge loops can carry it).
spec fn sm_square(g: Matrix) -> bool {
    &&& shortest_mat(g).len() == g.len()
    &&& forall|i: int| 0 <= i < g.len() ==> (#[trigger] shortest_mat(g)[i]).len() == g.len()
}

/// The row-partitioned engine behind the uniform interface.
pub struct DijkstraPar {
    pub graph: GraphAM,
    pub shortest_paths: Vec<Vec<Option<u64>>>,
    pub num_cores: usize,
}

impl DijkstraPar {
    /// An engine that will partition its sources across `cores` workers.
    pub fn new(cores: usize) -> (r: Self)
        requires
            cores >= 1,
        ensures
            r.graph_ok(),
            r.graph_view().len() == 0,
            r.result_view().len() == 0,
            r.num_cores == cores,
    {
        DijkstraPar { graph: GraphAM::new(), shortest_paths: Vec::new(), num_cores: cores }
    }
}

impl APSPAlgorithm for DijkstraPar {
    open spec fn graph_view(&self) -> Matrix {
        self.graph.mat()
    }

    open spec fn result_view(&self) -> Matrix {
        rows_view(self.shortest_paths@)
    }

    open spec fn graph_ok(&self) -> bool {
        self.graph.wf() && self.graph.weights_fit() && self.num_cores >= 1
    }

    fn load_graph(&mut self, graph: &GraphAM) {
        self.graph = graph.duplicate();
    }

    fn execute(&mut self) {
        self.shortest_paths = dijkstra_parallel(&self.graph, self.num_cores);
        proof {
            lemma_rows_view_square(self.shortest_paths@, self.graph.node_count as nat);
        }
    }

    fn get_result(&mut self) -> (r: APSPResult) {
        collect_result(&self.shortest_paths)
    }
}

} // verus!
