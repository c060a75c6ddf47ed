//! The triple-loop relaxation engine: for each pivot node in turn, try to
//! improve every pair's distance by routing through the pivot. The relaxation
//! is performed in place; that is sound because a pivot's own row and column
//! never change while it is the pivot.

use vstd::prelude::*;
use crate::base::{collect_result, APSPAlgorithm, APSPResult};
use crate::graph::GraphAM;
use crate::minplus::{
    dist_square, lemma_lift_mat_index, lift_cell, lift_mat, mp_add, mp_min, rows_view,
    vec_square, DistMatrix, Matrix,
};
use crate::shortest::{
    lemma_shortest_upto_diag, lemma_shortest_upto_fits, lemma_shortest_upto_square, relax_step,
    shortest_mat, shortest_upto,
};
use crate::fwb_function::{copy_matrix, set_diag_zero};

verus! {

/// The distances after pivot `k` has been applied to every cell before
/// row `i`, column `j` (in row-major order) and to no later cell.
pub open spec fn relax_prefix(d: DistMatrix, k: int, i: int, j: int) -> DistMatrix {
    Seq::new(
        d.len(),
        |r: int| Seq::new(
            d.len(),
            |c: int| if r < i || (r == i && c < j) {
                mp_min(d[r][c], mp_add(d[r][k], d[k][c]))
            } else {
                d[r][c]
            },
        ),
    )
}

/// While `k` is the pivot and its self-distance is zero, row `k` and
/// column `k` are unchanged however far the sweep has progressed.
proof fn lemma_relax_prefix_row_col(d: DistMatrix, k: int, i: int, j: int)
    requires
        dist_square(d, d.len()),
        0 <= k < d.len(),
        d[k][k] == Some(0int),
    ensures
        forall|t: int| 0 <= t < d.len() ==> #[trigger] relax_prefix(d, k, i, j)[t][k] == d[t][k],
        forall|t: int| 0 <= t < d.len() ==> #[trigger] relax_prefix(d, k, i, j)[k][t] == d[k][t],
{
    assert forall|t: int|
        0 <= t < d.len() implies #[trigger] relax_prefix(d, k, i, j)[t][k] == d[t][k] by {
        match d[t][k] {
            Some(x) => {
                assert(mp_add(d[t][k], d[k][k]) == Some(x));
            },
            None => {},
        }
    }
    assert forall|t: int|
        0 <= t < d.len() implies #[trigger] relax_prefix(d, k, i, j)[k][t] == d[k][t] by {
        match d[k][t] {
            Some(x) => {
                assert(mp_add(d[k][k], d[k][t]) == Some(x));
            },
            None => {},
        }
    }
}

/// Triple-loop relaxation over a whole adjacency matrix: returns the
/// all-pairs shortest-distance matrix of `graph`.
pub fn floyd_warshall(graph: &GraphAM) -> (r: Vec<Vec<Option<u64>>>)
    requires
        graph.wf(),
        graph.weights_fit(),
    ensures
        vec_square(r@, graph.node_count as nat),
        lift_mat(rows_view(r@)) == shortest_mat(graph.mat()),
{
    let ghost g = graph.mat();
    let n = graph.node_count;
    let mut distance = copy_matrix(&graph.adjacency_matrix);
    proof {
        assert forall|t: int| 0 <= t < n implies #[trigger] distance@[t]@.len() == n by {
            assert(distance@[t]@ == graph.adjacency_matrix@[t]@);
            assert(g[t] == graph.adjacency_matrix@[t]@);
            assert(g[t].len() == n);
        }
        assert(vec_square(distance@, n as nat));
        assert(rows_view(distance@) =~~= g);
    }
    set_diag_zero(&mut distance);
    let mut k: usize = 0;
    while k < n
        invariant
            k <= n,
            graph.wf(),
            graph.weights_fit(),
            graph.node_count == n,
            g == graph.mat(),
            vec_square(distance@, n as nat),
            lift_mat(rows_view(distance@)) == shortest_upto(g, k as nat),
        decreases n - k,
    {
        let ghost d = shortest_upto(g, k as nat);
        proof {
            lemma_shortest_upto_square(g, k as nat);
            lemma_shortest_upto_diag(g, k as nat, k as int);
            assert(relax_prefix(d, k as int, 0, 0) =~~= d);
        }
        let mut i: usize = 0;
        while i < n
            invariant
                i <= n,
                k < n,
                graph.wf(),
                graph.weights_fit(),
                graph.node_count == n,
                g == graph.mat(),
                vec_square(distance@, n as nat),
                d == shortest_upto(g, k as nat),
                dist_square(d, n as nat),
                d[k as int][k as int] == Some(0int),
                lift_mat(rows_view(distance@)) == relax_prefix(d, k as int, i as int, 0),
            decreases n - i,
        {
            let mut j: usize = 0;
            while j < n
                invariant
                    j <= n,
                    i < n,
                    k < n,
                    graph.wf(),
                    graph.weights_fit(),
                    graph.node_count == n,
                    g == graph.mat(),
                    vec_square(distance@, n as nat),
                    d == shortest_upto(g, k as nat),
                    dist_square(d, n as nat),
                    d[k as int][k as int] == Some(0int),
                    lift_mat(rows_view(distance@)) == relax_prefix(d, k as int, i as int, j as int),
                decreases n - j,
            {
                let ghost cur = relax_prefix(d, k as int, i as int, j as int);
                proof {
                    lemma_relax_prefix_row_col(d, k as int, i as int, j as int);
                    lemma_lift_mat_index(distance@, i as int, k as int);
                    lemma_lift_mat_index(distance@, k as int, j as int);
                    lemma_lift_mat_index(distance@, i as int, j as int);
                    assert(cur[i as int][k as int] == d[i as int][k as int]);
                    assert(cur[k as int][j as int] == d[k as int][j as int]);
                    assert(cur[i as int][j as int] == d[i as int][j as int]);
                    lemma_shortest_upto_fits(g, k as nat, i as int, k as int);
                    lemma_shortest_upto_fits(g, k as nat, k as int, j as int);
                }
                let dik = distance[i][k];
                let dkj = distance[k][j];
                if let (Some(ik), Some(kj)) = (dik, dkj) {
                    let cand = ik + kj;
                    let dij = distance[i][j];
                    let improves = match dij {
                        Some(ij) => cand < ij,
                        None => true,
                    };
                    if improves {
                        distance[i][j] = Some(cand);
                    }
                }
                proof {
                    assert(lift_mat(rows_view(distance@)) =~~= relax_prefix(
                        d,
                        k as int,
                        i as int,
                        j + 1,
                    )) by {
                        assert forall|r: int, c: int|
                            0 <= r < n && 0 <= c < n implies lift_cell(distance@[r]@[c])
                            == relax_prefix(d, k as int, i as int, j + 1)[r][c] by {
                            lemma_lift_mat_index(distance@, r, c);
                            if r == i as int && c == j as int {
                                assert(relax_prefix(d, k as int, i as int, j + 1)[r][c] == mp_min(
                                    d[r][c],
                                    mp_add(d[r][k as int], d[k as int][c]),
                                ));
                            } else {
                                assert(lift_cell(distance@[r]@[c]) == cur[r][c]);
                                assert(relax_prefix(d, k as int, i as int, j + 1)[r][c]
                                    == cur[r][c]);
                            }
                        }
                    }
                }
                j = j + 1;
            }
            proof {
                assert(relax_prefix(d, k as int, i as int, n as int) =~~= relax_prefix(
                    d,
                    k as int,
                    i + 1,
                    0,
                ));
            }
            i = i + 1;
        }
        proof {
            assert(relax_prefix(d, k as int, n as int, 0) =~~= relax_step(d, k as int));
            assert(shortest_upto(g, (k + 1) as nat) == relax_step(d, k as int));
        }
        k = k + 1;
    }
    distance
}

/// The triple-loop relaxation engine behind the uniform interface.
pub struct FloydWarshall {
    pub graph: GraphAM,
    pub shortest_paths: Vec<Vec<Option<u64>>>,
}

impl FloydWarshall {
    /// An engine with no graph loaded yet.
    pub fn new() -> (r: Self)
        ensures
            r.graph_ok(),
            r.graph_view().len() == 0,
            r.result_view().len() == 0,
    {
        FloydWarshall { graph: GraphAM::new(), shortest_paths: Vec::new() }
    }
}

impl APSPAlgorithm for FloydWarshall {
    open spec fn graph_view(&self) -> Matrix {
        self.graph.mat()
    }

    open spec fn result_view(&self) -> Matrix {
        rows_view(self.shortest_paths@)
    }

    open spec fn graph_ok(&self) -> bool {
        self.graph.wf() && self.graph.weights_fit()
    }

    fn load_graph(&mut self, graph: &GraphAM) {
        self.graph = graph.duplicate();
    }

    fn execute(&mut self) {
        self.shortest_paths = floyd_warshall(&self.graph);
        proof {
            crate::minplus::lemma_rows_view_square(
                self.shortest_paths@,
                self.graph.node_count as nat,
            );
        }
    }

    fn get_result(&mut self) -> (r: APSPResult) {
        collect_result(&self.shortest_paths)
    }
}

} // verus!
