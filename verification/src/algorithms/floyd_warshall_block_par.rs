//! The partitioned block-decomposed relaxation engine.
//!
//! The same decomposition as the sequential blocked engine, organised for
//! fork-join execution: per pivot block, the self-update runs alone; the
//! column updates are independent per block column and are committed before
//! any row work starts (a hard barrier, since the row sweep reads them);
//! each row worker then computes a whole private row strip from read-only
//! inputs, and the coordinator writes every returned strip back at its row
//! offset. Workers touch disjoint regions, so the result is the same
//! whatever the worker count: the all-pairs shortest-distance matrix.

use vstd::prelude::*;
use crate::base::{collect_result, APSPAlgorithm, APSPResult};
use crate::fwb_function::{
    block_of, copy_matrix, floyd_warshall_in_place1, floyd_warshall_in_place2,
    floyd_warshall_in_place3, floyd_warshall_in_place4, imin, rect, set_diag_zero,
    slice_matrix, slice_matrix_block, slice_matrix_immut, write_back_to_distance,
};
use crate::graph::GraphAM;
use crate::minplus::{
    lemma_lift_mat_dims, lemma_rows_view_square, lift_cell, lift_mat, rows_view, square,
    vec_square, weights_bounded, Matrix, MAX_NODE_COUNT,
};
use crate::shortest::{lemma_shortest_upto_square, shortest_mat, shortest_upto};
use crate::algorithms::floyd_warshall_block::{
    lemma_block_bounds, lemma_block_disjoint, lemma_ceil_props, lemma_lift_block,
    lemma_pass_mixed_exact, lemma_pass_self_block, lemma_slice_region, staged, staged_done,
};

verus! {

/// One row worker: given its own read-only row strip (as the matrix stood
/// after the column phase), the pivot row strip, and the relaxed pivot
/// block, produce the strip of post-block rows for its block row.
fn fwb_row_worker(
    ai: &Vec<Vec<Option<u64>>>,
    ak: &Vec<Vec<Option<u64>>>,
    akk: &Vec<Vec<Option<u64>>>,
    k: usize,
    block_size: usize,
    blocks: usize,
    node_count: usize,
    g: Ghost<Matrix>,
    rbase: Ghost<int>,
)
 -> (out: Vec<Vec<Option<u64>>>)
    requires
        square(g@, g@.len()),
        weights_bounded(g@),
        g@.len() <= MAX_NODE_COUNT as int,
        g@.len() == node_count,
        node_count >= 1,
        block_size >= 1,
        block_size <= node_count,
        blocks <= node_count,
        node_count as int <= blocks as int * block_size as int,
        (blocks as int - 1) * block_size as int <= node_count as int - 1,
        k < blocks,
        0 <= rbase@,
        rbase@ + ai@.len() <= node_count,
        1 <= ai@.len() <= block_size,
        rect(ai@),
        forall|t: int| 0 <= t < ai@.len() ==> (#[trigger] ai@[t])@.len() == node_count,
        lift_mat(rows_view(ai@)) == block_of(
            shortest_upto(g@, (k as int * block_size as int) as nat),
            rbase@,
            rbase@ + ai@.len(),
            0,
            node_count as int,
        ),
        ak@.len() == imin((k + 1) as int * block_size as int, node_count as int) - k as int
            * block_size as int,
        rect(ak@),
        forall|t: int| 0 <= t < ak@.len() ==> (#[trigger] ak@[t])@.len() == node_count,
        forall|r: int, c: int|
            0 <= r < ak@.len() && 0 <= c < node_count && !(k as int * block_size as int <= c
                < imin((k + 1) as int * block_size as int, node_count as int))
                ==> lift_cell(#[trigger] ak@[r]@[c]) == shortest_upto(
                g@,
                imin((k + 1) as int * block_size as int, node_count as int) as nat,
            )[k as int * block_size as int + r][c],
        akk@.len() == imin((k + 1) as int * block_size as int, node_count as int) - k as int
            * block_size as int,
        rect(akk@),
        forall|t: int|
            0 <= t < akk@.len() ==> (#[trigger] akk@[t])@.len() == imin(
                (k + 1) as int * block_size as int,
                node_count as int,
            ) - k as int * block_size as int,
        lift_mat(rows_view(akk@)) == block_of(
            shortest_upto(g@, imin((k + 1) as int * block_size as int, node_count as int) as nat),
            k as int * block_size as int,
            imin((k + 1) as int * block_size as int, node_count as int),
            k as int * block_size as int,
            imin((k + 1) as int * block_size as int, node_count as int),
        ),
    ensures
        out@.len() == ai@.len(),
        forall|t: int| 0 <= t < out@.len() ==> (#[trigger] out@[t])@.len() == node_count,
        lift_mat(rows_view(out@)) == block_of(
            shortest_upto(g@, imin((k + 1) as int * block_size as int, node_count as int) as nat),
            rbase@,
            rbase@ + ai@.len(),
            0,
            node_count as int,
        ),
{
    let ghost nn = node_count as int;
    let ghost lov = k as int * block_size as int;
    let ghost hiv = imin((k + 1) as int * block_size as int, nn);
    let ghost ri0 = rbase@;
    let ghost ri1 = rbase@ + ai@.len();
    let ghost up_l = shortest_upto(g@, lov as nat);
    let ghost up_h = shortest_upto(g@, hiv as nat);
    let nr = ai.len();
    proof {
        lemma_block_bounds(k as int, block_size as int, blocks as int, nn);
        lemma_shortest_upto_square(g@, lov as nat);
        lemma_shortest_upto_square(g@, hiv as nat);
        lemma_lift_mat_dims(ai@);
    }

    // A private output strip, absent everywhere until a block is written.
    let mut distance_matrix: Vec<Vec<Option<u64>>> = Vec::new();
    let mut t: usize = 0;
    while t < nr
        invariant
            t <= nr,
            distance_matrix@.len() == t,
            forall|r: int|
                0 <= r < t ==> (#[trigger] distance_matrix@[r])@.len() == node_count,
            forall|r: int, c: int|
                0 <= r < t && 0 <= c < node_count ==> #[trigger] distance_matrix@[r]@[c] is None,
        decreases nr - t,
    {
        let mut row: Vec<Option<u64>> = Vec::new();
        let mut c: usize = 0;
        while c < node_count
            invariant
                c <= node_count,
                row@.len() == c,
                forall|x: int| 0 <= x < c ==> #[trigger] row@[x] is None,
            decreases node_count - c,
        {
            row.push(None);
            c = c + 1;
        }
        distance_matrix.push(row);
        t = t + 1;
    }

    let aik0 = slice_matrix_block(ai, 0, k, block_size);
    proof {
        lemma_lift_mat_dims(aik0@);
        assert(rect(aik0@));
        assert(aik0@.len() == nr);
        assert(lift_mat(rows_view(aik0@)) =~~= block_of(up_l, ri0, ri1, lov, hiv)) by {
            lemma_lift_mat_dims(ai@);
            assert forall|r: int, c: int|
                0 <= r < nr && 0 <= c < hiv - lov implies lift_mat(rows_view(aik0@))[r][c]
                == block_of(up_l, ri0, ri1, lov, hiv)[r][c] by {
                crate::minplus::lemma_lift_mat_index(aik0@, r, c);
                assert(aik0@[r]@[c] == rows_view(aik0@)[r][c]);
                assert(rows_view(aik0@)[r][c] == rows_view(ai@)[r][lov + c]);
                crate::minplus::lemma_lift_mat_index(ai@, r, lov + c);
                assert(lift_cell(ai@[r]@[lov + c]) == block_of(up_l, ri0, ri1, 0, nn)[r][lov
                    + c]);
            }
        }
    }
    let aik = floyd_warshall_in_place3(&aik0, akk, block_size);
    proof {
        assert(aik0@[0]@.len() == hiv - lov);
        assert(akk@[0]@.len() == hiv - lov);
        assert(imin(block_size as int, imin(hiv - lov, hiv - lov)) == hiv - lov);
        assert(imin(block_size as int, nr as int) == nr as int);
        lemma_pass_mixed_exact(
            g@, lov, hiv, ri0, lov, ri1 - ri0, hiv - lov,
            None,
            Some(block_of(up_h, lov, hiv, lov, hiv)),
        );
        assert(lift_mat(rows_view(aik@)) == block_of(up_h, ri0, ri1, lov, hiv));
        lemma_lift_mat_dims(aik@);
        assert(rect(aik@));
    }

    let mut j: usize = 0;
    while j < blocks
        invariant
            j <= blocks,
            k < blocks,
            node_count >= 1,
            block_size >= 1,
            block_size <= node_count,
            blocks <= node_count,
            nn == node_count as int,
            square(g@, g@.len()),
            weights_bounded(g@),
            g@.len() == node_count,
            g@.len() <= MAX_NODE_COUNT as int,
            nn <= blocks as int * block_size as int,
            (blocks as int - 1) * block_size as int <= nn - 1,
            lov == k as int * block_size as int,
            hiv == imin((k + 1) as int * block_size as int, nn),
            0 <= lov < hiv <= nn,
            hiv - lov <= block_size,
            0 <= ri0,
            ri1 == ri0 + nr,
            ri1 <= nn,
            1 <= nr <= block_size,
            up_l == shortest_upto(g@, lov as nat),
            up_h == shortest_upto(g@, hiv as nat),
            crate::minplus::dist_square(up_l, g@.len()),
            crate::minplus::dist_square(up_h, g@.len()),
            ai@.len() == nr,
            rect(ai@),
            forall|r: int| 0 <= r < nr ==> (#[trigger] ai@[r])@.len() == node_count,
            lift_mat(rows_view(ai@)) == block_of(up_l, ri0, ri1, 0, nn),
            ak@.len() == hiv - lov,
            rect(ak@),
            forall|r: int| 0 <= r < ak@.len() ==> (#[trigger] ak@[r])@.len() == node_count,
            forall|r: int, c: int|
                0 <= r < ak@.len() && 0 <= c < node_count && !(lov <= c < hiv) ==> lift_cell(
                    #[trigger] ak@[r]@[c],
                ) == up_h[lov + r][c],
            aik@.len() == nr,
            rect(aik@),
            forall|r: int| 0 <= r < nr ==> (#[trigger] aik@[r])@.len() == hiv - lov,
            lift_mat(rows_view(aik@)) == block_of(up_h, ri0, ri1, lov, hiv),
            distance_matrix@.len() == nr,
            forall|r: int|
                0 <= r < nr ==> (#[trigger] distance_matrix@[r])@.len() == node_count,
            forall|r: int, c: int|
                0 <= r < nr && 0 <= c < node_count ==> lift_cell(
                    #[trigger] distance_matrix@[r]@[c],
                ) == (if c < j as int * block_size as int {
                    up_h[ri0 + r][c]
                } else {
                    None
                }),
        decreases blocks - j,
    {
        let ghost dpre = distance_matrix@;
        proof {
            lemma_block_bounds(j as int, block_size as int, blocks as int, nn);
            lemma_block_bounds(k as int, block_size as int, blocks as int, nn);
        }
        let ghost cj0 = j as int * block_size as int;
        let ghost cj1 = imin((j + 1) as int * block_size as int, nn);
        if j == k {
            write_back_to_distance(&mut distance_matrix, &aik, 0, j * block_size);
            proof {
                assert forall|r: int, c: int|
                    0 <= r < nr && 0 <= c < node_count implies lift_cell(
                    #[trigger] distance_matrix@[r]@[c],
                ) == (if c < (j + 1) as int * block_size as int {
                    up_h[ri0 + r][c]
                } else {
                    None
                }) by {
                    if cj0 <= c < cj1 {
                        assert(distance_matrix@[0 + r]@[cj0 + (c - cj0)] == aik@[r]@[c - cj0]);
                        assert(distance_matrix@[r]@[c] == aik@[r]@[c - cj0]);
                        crate::minplus::lemma_lift_mat_index(aik@, r, c - cj0);
                        assert(lift_cell(aik@[r]@[c - cj0]) == block_of(
                            up_h, ri0, ri1, lov, hiv,
                        )[r][c - cj0]);
                    } else {
                        assert(distance_matrix@[r]@[c] == dpre[r]@[c]);
                        if cj1 <= c < (j + 1) as int * block_size as int {
                            assert(c >= nn);
                        }
                    }
                }
            }
        } else {
            proof {
                if j < k {
                    lemma_block_disjoint(j as int, k as int, block_size as int);
                } else {
                    lemma_block_disjoint(k as int, j as int, block_size as int);
                }
            }
            let aij0 = slice_matrix_block(ai, 0, j, block_size);
            proof {
                lemma_lift_mat_dims(aij0@);
                assert(rect(aij0@));
                assert(aij0@.len() == nr);
                assert(lift_mat(rows_view(aij0@)) =~~= block_of(up_l, ri0, ri1, cj0, cj1)) by {
                    assert forall|r: int, c: int|
                        0 <= r < nr && 0 <= c < cj1 - cj0 implies lift_mat(
                        rows_view(aij0@),
                    )[r][c] == block_of(up_l, ri0, ri1, cj0, cj1)[r][c] by {
                        crate::minplus::lemma_lift_mat_index(aij0@, r, c);
                        assert(aij0@[r]@[c] == rows_view(aij0@)[r][c]);
                        assert(rows_view(aij0@)[r][c] == rows_view(ai@)[r][cj0 + c]);
                        crate::minplus::lemma_lift_mat_index(ai@, r, cj0 + c);
                        assert(lift_cell(ai@[r]@[cj0 + c]) == block_of(
                            up_l, ri0, ri1, 0, nn,
                        )[r][cj0 + c]);
                    }
                }
            }
            let akj = slice_matrix_immut(ak, 0, j, block_size);
            proof {
                lemma_lift_mat_dims(akj@);
                assert(rect(akj@));
                assert(akj@.len() == hiv - lov) by {
                    assert(imin(block_size as int, ak@.len() as int) == hiv - lov);
                }
                assert(lift_mat(rows_view(akj@)) =~~= block_of(up_h, lov, hiv, cj0, cj1)) by {
                    assert forall|r: int, c: int|
                        0 <= r < hiv - lov && 0 <= c < cj1 - cj0 implies lift_mat(
                        rows_view(akj@),
                    )[r][c] == block_of(up_h, lov, hiv, cj0, cj1)[r][c] by {
                        crate::minplus::lemma_lift_mat_index(akj@, r, c);
                        assert(akj@[r]@[c] == rows_view(akj@)[r][c]);
                        assert(rows_view(akj@)[r][c] == rows_view(ak@)[r][cj0 + c]);
                        assert(!(lov <= cj0 + c < hiv));
                        assert(lift_cell(ak@[r]@[cj0 + c]) == up_h[lov + r][cj0 + c]);
                    }
                }
            }
            let aij = floyd_warshall_in_place4(&aij0, &aik, &akj, block_size);
            proof {
                assert(aij0@[0]@.len() == cj1 - cj0);
                assert(akj@[0]@.len() == cj1 - cj0);
                assert(aik@[0]@.len() == hiv - lov);
                assert(imin(block_size as int, imin(hiv - lov, hiv - lov)) == hiv - lov);
                assert(imin(block_size as int, imin(nr as int, nr as int)) == nr as int);
                assert(imin(block_size as int, imin(cj1 - cj0, cj1 - cj0)) == cj1 - cj0);
                lemma_pass_mixed_exact(
                    g@, lov, hiv, ri0, cj0, ri1 - ri0, cj1 - cj0,
                    Some(block_of(up_h, ri0, ri1, lov, hiv)),
                    Some(block_of(up_h, lov, hiv, cj0, cj1)),
                );
                assert(lift_mat(rows_view(aij@)) == block_of(up_h, ri0, ri1, cj0, cj1));
                lemma_lift_mat_dims(aij@);
            }
            write_back_to_distance(&mut distance_matrix, &aij, 0, j * block_size);
            proof {
                assert forall|r: int, c: int|
                    0 <= r < nr && 0 <= c < node_count implies lift_cell(
                    #[trigger] distance_matrix@[r]@[c],
                ) == (if c < (j + 1) as int * block_size as int {
                    up_h[ri0 + r][c]
                } else {
                    None
                }) by {
                    if cj0 <= c < cj1 {
                        assert(distance_matrix@[0 + r]@[cj0 + (c - cj0)] == aij@[r]@[c - cj0]);
                        assert(distance_matrix@[r]@[c] == aij@[r]@[c - cj0]);
                        crate::minplus::lemma_lift_mat_index(aij@, r, c - cj0);
                        assert(lift_cell(aij@[r]@[c - cj0]) == block_of(
                            up_h, ri0, ri1, cj0, cj1,
                        )[r][c - cj0]);
                    } else {
                        assert(distance_matrix@[r]@[c] == dpre[r]@[c]);
                        if cj1 <= c < (j + 1) as int * block_size as int {
                            assert(c >= nn);
                        }
                    }
                }
            }
        }
        j = j + 1;
    }
    proof {
        lemma_lift_mat_dims(distance_matrix@);
        assert forall|r: int, c: int|
            0 <= r < nr && 0 <= c < nn implies lift_mat(rows_view(distance_matrix@))[r][c]
            == block_of(up_h, ri0, ri1, 0, nn)[r][c] by {
            crate::minplus::lemma_lift_mat_index(distance_matrix@, r, c);
            assert(c < blocks as int * block_size as int);
        }
        assert(lift_mat(rows_view(distance_matrix@)) =~~= block_of(up_h, ri0, ri1, 0, nn));
    }
    distance_matrix
}

/// The partitioned block-decomposed relaxation over a whole adjacency
/// matrix: same result as the sequential engines, for any core count.
pub fn floyd_warshall_blocked_par(graph: &GraphAM, num_cores: usize) -> (res: Vec<
    Vec<Option<u64>>,
>)
    requires
        graph.wf(),
        graph.weights_fit(),
        num_cores >= 1,
    ensures
        vec_square(res@, graph.node_count as nat),
        lift_mat(rows_view(res@)) == shortest_mat(graph.mat()),
{
    let ghost g = graph.mat();
    let n = graph.node_count;
    let ghost nn = n as int;
    let mut distance = copy_matrix(&graph.adjacency_matrix);
    proof {
        assert forall|t: int| 0 <= t < n implies #[trigger] distance@[t]@.len() == n by {
            assert(distance@[t]@ == graph.adjacency_matrix@[t]@);
            assert(g[t] == graph.adjacency_matrix@[t]@);
            assert(g[t].len() == n);
        }
        assert(vec_square(distance@, n as nat));
        assert(rows_view(distance@) =~~= g);
    }
    set_diag_zero(&mut distance);
    if n == 0 {
        return distance;
    }
    proof {
        lemma_ceil_props(nn, num_cores as int);
    }
    let block_size = (((n as u128) + (num_cores as u128) - 1) / (num_cores as u128)) as usize;
    let blocks = (n + block_size - 1) / block_size;
    proof {
        lemma_ceil_props(nn, block_size as int);
        lemma_shortest_upto_square(g, g.len());
    }
    let mut k: usize = 0;
    while k < blocks
        invariant
            k <= blocks,
            n >= 1,
            block_size >= 1,
            graph.wf(),
            graph.weights_fit(),
            n == graph.node_count,
            nn == n as int,
            g == graph.mat(),
            g.len() == n,
            square(g, n as nat),
            weights_bounded(g),
            n <= MAX_NODE_COUNT,
            nn <= blocks as int * block_size as int,
            (blocks as int - 1) * block_size as int <= nn - 1,
            blocks >= 1,
            block_size <= n,
            blocks <= n,
            vec_square(distance@, n as nat),
            lift_mat(rows_view(distance@)) == shortest_upto(
                g,
                imin(k as int * block_size as int, nn) as nat,
            ),
        decreases blocks - k,
    {
        proof {
            lemma_block_bounds(k as int, block_size as int, blocks as int, nn);
        }
        let lo = k * block_size;
        let hi_raw = lo + block_size;
        let hi = if hi_raw < n {
            hi_raw
        } else {
            n
        };
        let ghost lov = lo as int;
        let ghost hiv = hi as int;
        let ghost up_l = shortest_upto(g, lov as nat);
        let ghost up_h = shortest_upto(g, hiv as nat);
        proof {
            assert(imin(k as int * block_size as int, nn) == lov);
            assert(hiv == imin((k + 1) as int * block_size as int, nn));
            assert(lov < hiv <= nn);
            assert(hiv - lov <= block_size);
            lemma_shortest_upto_square(g, lov as nat);
            lemma_shortest_upto_square(g, hiv as nat);
            lemma_lift_mat_dims(distance@);
            assert(staged(lift_mat(rows_view(distance@)), g, lov, hiv, 0, 0, 0, 0, 0, false));
        }
        // Self-update, single-threaded.
        let akk0 = slice_matrix_block(&distance, k, k, block_size);
        proof {
            lemma_lift_mat_dims(akk0@);
            assert(rect(akk0@));
            lemma_lift_block(rows_view(distance@), lov, hiv, lov, hiv);
            lemma_slice_region(
                lift_mat(rows_view(distance@)), g, lov, hiv, 0, 0, 0, 0, 0, false,
                lov, hiv, lov, hiv, false,
            );
            assert(lift_mat(rows_view(akk0@)) == block_of(up_l, lov, hiv, lov, hiv));
        }
        let akk = floyd_warshall_in_place1(&akk0, block_size);
        proof {
            assert(akk0@.len() == hiv - lov);
            assert(akk0@[0]@.len() == hiv - lov);
            assert(imin(block_size as int, imin(hiv - lov, hiv - lov)) == hiv - lov);
            lemma_pass_self_block(g, lov, hiv, (hiv - lov) as nat);
            assert(lift_mat(rows_view(akk@)) == block_of(up_h, lov, hiv, lov, hiv));
            lemma_lift_mat_dims(akk@);
            assert(rect(akk@));
        }
        // Column update: one independent product per block column, all
        // committed before any row work begins.
        let mut j: usize = 0;
        while j < blocks
            invariant
                j <= blocks,
                k < blocks,
                n >= 1,
                block_size >= 1,
                nn == n as int,
                g.len() == n,
                square(g, n as nat),
                weights_bounded(g),
                n <= MAX_NODE_COUNT,
                nn <= blocks as int * block_size as int,
                (blocks as int - 1) * block_size as int <= nn - 1,
                lov == k as int * block_size as int,
                hiv == imin((k + 1) as int * block_size as int, nn),
                lo as int == lov,
                hi as int == hiv,
                blocks <= n,
                block_size <= n,
                0 <= lov < hiv <= nn,
                hiv - lov <= block_size,
                up_l == shortest_upto(g, lov as nat),
                up_h == shortest_upto(g, hiv as nat),
                crate::minplus::dist_square(up_l, n as nat),
                crate::minplus::dist_square(up_h, n as nat),
                akk@.len() == hiv - lov,
                forall|t: int| 0 <= t < akk@.len() ==> (#[trigger] akk@[t])@.len() == hiv - lov,
                rect(akk@),
                lift_mat(rows_view(akk@)) == block_of(up_h, lov, hiv, lov, hiv),
                vec_square(distance@, n as nat),
                staged(
                    lift_mat(rows_view(distance@)),
                    g,
                    lov,
                    hiv,
                    j as int * block_size as int,
                    0,
                    0,
                    0,
                    0,
                    false,
                ),
            decreases blocks - j,
        {
            proof {
                lemma_block_bounds(j as int, block_size as int, blocks as int, nn);
                lemma_block_bounds(k as int, block_size as int, blocks as int, nn);
            }
            if j != k {
                let ghost cj0 = j as int * block_size as int;
                let ghost cj1 = imin((j + 1) as int * block_size as int, nn);
                proof {
                    if j < k {
                        lemma_block_disjoint(j as int, k as int, block_size as int);
                    } else {
                        lemma_block_disjoint(k as int, j as int, block_size as int);
                    }
                    lemma_lift_mat_dims(distance@);
                }
                let akj0 = slice_matrix_block(&distance, k, j, block_size);
                proof {
                    lemma_lift_mat_dims(akj0@);
                    assert(rect(akj0@));
                    lemma_lift_block(rows_view(distance@), lov, hiv, cj0, cj1);
                    lemma_slice_region(
                        lift_mat(rows_view(distance@)), g, lov, hiv,
                        j as int * block_size as int, 0, 0, 0, 0, false,
                        lov, hiv, cj0, cj1, false,
                    );
                    assert(lift_mat(rows_view(akj0@)) == block_of(up_l, lov, hiv, cj0, cj1));
                }
                let akj = floyd_warshall_in_place2(&akj0, &akk, block_size);
                proof {
                    assert(akj0@.len() == hiv - lov);
                    assert(akj0@[0]@.len() == cj1 - cj0);
                    assert(imin(block_size as int, imin(hiv - lov, hiv - lov)) == hiv - lov);
                    assert(imin(block_size as int, cj1 - cj0) == cj1 - cj0);
                    lemma_pass_mixed_exact(
                        g, lov, hiv, lov, cj0, hiv - lov, cj1 - cj0,
                        Some(block_of(up_h, lov, hiv, lov, hiv)),
                        None,
                    );
                    assert(lift_mat(rows_view(akj@)) == block_of(up_h, lov, hiv, cj0, cj1));
                    lemma_lift_mat_dims(akj@);
                }
                let ghost dpre = distance@;
                write_back_to_distance(&mut distance, &akj, lo, j * block_size);
                proof {
                    lemma_lift_mat_dims(distance@);
                    assert forall|r: int, c: int|
                        0 <= r < nn && 0 <= c < nn implies #[trigger] lift_mat(
                        rows_view(distance@),
                    )[r][c] == (if staged_done(
                        lov,
                        hiv,
                        (j + 1) as int * block_size as int,
                        0,
                        0,
                        0,
                        0,
                        false,
                        r,
                        c,
                    ) {
                        up_h[r][c]
                    } else {
                        up_l[r][c]
                    }) by {
                        crate::minplus::lemma_lift_mat_index(distance@, r, c);
                        crate::minplus::lemma_lift_mat_index(dpre, r, c);
                        if lov <= r < hiv && cj0 <= c < cj1 {
                            assert(distance@[lov + (r - lov)]@[cj0 + (c - cj0)] == akj@[
                                r - lov
                            ]@[c - cj0]);
                            assert(distance@[r]@[c] == akj@[r - lov]@[c - cj0]);
                            crate::minplus::lemma_lift_mat_index(akj@, r - lov, c - cj0);
                            assert(lift_cell(akj@[r - lov]@[c - cj0]) == block_of(
                                up_h, lov, hiv, cj0, cj1,
                            )[r - lov][c - cj0]);
                        } else {
                            assert(distance@[r]@[c] == dpre[r]@[c]);
                        }
                    }
                    assert(staged(
                        lift_mat(rows_view(distance@)), g, lov, hiv,
                        (j + 1) as int * block_size as int, 0, 0, 0, 0, false,
                    ));
                }
            } else {
                proof {
                    assert(staged(
                        lift_mat(rows_view(distance@)), g, lov, hiv,
                        (j + 1) as int * block_size as int, 0, 0, 0, 0, false,
                    )) by {
                        assert forall|r: int, c: int|
                            0 <= r < nn && 0 <= c < nn && #[trigger] staged_done(
                                lov, hiv, (j + 1) as int * block_size as int,
                                0, 0, 0, 0, false, r, c,
                            ) implies staged_done(
                            lov, hiv, j as int * block_size as int, 0, 0, 0, 0, false, r, c,
                        ) by {
                            if !(lov <= c < hiv) && c < (j + 1) as int * block_size as int {
                                assert(!(j as int * block_size as int <= c < (j + 1) as int
                                    * block_size as int));
                            }
                        }
                    }
                }
            }
            j = j + 1;
        }
        // Row update: one worker per block row, each computing its whole
        // row strip privately; strips are written back at their offsets.
        let mut i: usize = 0;
        while i < blocks
            invariant
                i <= blocks,
                k < blocks,
                n >= 1,
                block_size >= 1,
                nn == n as int,
                g.len() == n,
                square(g, n as nat),
                weights_bounded(g),
                n <= MAX_NODE_COUNT,
                nn <= blocks as int * block_size as int,
                (blocks as int - 1) * block_size as int <= nn - 1,
                lov == k as int * block_size as int,
                hiv == imin((k + 1) as int * block_size as int, nn),
                lo as int == lov,
                hi as int == hiv,
                blocks <= n,
                block_size <= n,
                k < blocks,
                0 <= lov < hiv <= nn,
                hiv - lov <= block_size,
                up_l == shortest_upto(g, lov as nat),
                up_h == shortest_upto(g, hiv as nat),
                crate::minplus::dist_square(up_l, n as nat),
                crate::minplus::dist_square(up_h, n as nat),
                akk@.len() == hiv - lov,
                forall|t: int| 0 <= t < akk@.len() ==> (#[trigger] akk@[t])@.len() == hiv - lov,
                rect(akk@),
                lift_mat(rows_view(akk@)) == block_of(up_h, lov, hiv, lov, hiv),
                vec_square(distance@, n as nat),
                staged(
                    lift_mat(rows_view(distance@)),
                    g,
                    lov,
                    hiv,
                    nn,
                    i as int * block_size as int,
                    0,
                    0,
                    0,
                    false,
                ),
            decreases blocks - i,
        {
            proof {
                lemma_block_bounds(i as int, block_size as int, blocks as int, nn);
                lemma_block_bounds(k as int, block_size as int, blocks as int, nn);
            }
            if i != k {
                let ghost ri0 = i as int * block_size as int;
                let ghost ri1 = imin((i + 1) as int * block_size as int, nn);
                proof {
                    if i < k {
                        lemma_block_disjoint(i as int, k as int, block_size as int);
                    } else {
                        lemma_block_disjoint(k as int, i as int, block_size as int);
                    }
                    lemma_lift_mat_dims(distance@);
                }
                let ai = slice_matrix(&distance, i * block_size, (i + 1) * block_size, 0, n);
                proof {
                    lemma_lift_mat_dims(ai@);
                    assert(rect(ai@));
                    assert(ai@.len() == ri1 - ri0);
                    lemma_lift_block(rows_view(distance@), ri0, ri1, 0, nn);
                    lemma_slice_region(
                        lift_mat(rows_view(distance@)), g, lov, hiv, nn,
                        i as int * block_size as int, 0, 0, 0, false,
                        ri0, ri1, 0, nn, false,
                    );
                    assert(lift_mat(rows_view(ai@)) == block_of(up_l, ri0, ri1, 0, nn));
                }
                let ak = slice_matrix(&distance, k * block_size, (k + 1) * block_size, 0, n);
                proof {
                    lemma_lift_mat_dims(ak@);
                    assert(rect(ak@));
                    assert(ak@.len() == hiv - lov);
                    assert forall|r: int, c: int|
                        0 <= r < ak@.len() && 0 <= c < n && !(lov <= c < hiv) implies lift_cell(
                        #[trigger] ak@[r]@[c],
                    ) == up_h[lov + r][c] by {
                        crate::minplus::lemma_lift_mat_index(ak@, r, c);
                        assert(rows_view(ak@)[r][c] == rows_view(distance@)[lov + r][c]);
                        crate::minplus::lemma_lift_mat_index(distance@, lov + r, c);
                        assert(staged_done(
                            lov, hiv, nn, i as int * block_size as int, 0, 0, 0, false,
                            lov + r, c,
                        ));
                    }
                }
                let strip = fwb_row_worker(
                    &ai,
                    &ak,
                    &akk,
                    k,
                    block_size,
                    blocks,
                    n,
                    Ghost(g),
                    Ghost(ri0),
                );
                let ghost dpre = distance@;
                write_back_to_distance(&mut distance, &strip, i * block_size, 0);
                proof {
                    lemma_lift_mat_dims(distance@);
                    assert forall|r: int, c: int|
                        0 <= r < nn && 0 <= c < nn implies #[trigger] lift_mat(
                        rows_view(distance@),
                    )[r][c] == (if staged_done(
                        lov, hiv, nn, (i + 1) as int * block_size as int, 0, 0, 0, false, r, c,
                    ) {
                        up_h[r][c]
                    } else {
                        up_l[r][c]
                    }) by {
                        crate::minplus::lemma_lift_mat_index(distance@, r, c);
                        crate::minplus::lemma_lift_mat_index(dpre, r, c);
                        if ri0 <= r < ri1 && 0 <= c < nn {
                            assert(distance@[ri0 + (r - ri0)]@[0 + (c - 0)] == strip@[
                                r - ri0
                            ]@[c]);
                            assert(distance@[r]@[c] == strip@[r - ri0]@[c]);
                            crate::minplus::lemma_lift_mat_index(strip@, r - ri0, c);
                            assert(lift_cell(strip@[r - ri0]@[c]) == block_of(
                                up_h, ri0, ri1, 0, nn,
                            )[r - ri0][c]);
                            if lov <= r < hiv {
                                assert(false);
                            }
                        } else {
                            assert(distance@[r]@[c] == dpre[r]@[c]);
                        }
                    }
                    assert(staged(
                        lift_mat(rows_view(distance@)), g, lov, hiv, nn,
                        (i + 1) as int * block_size as int, 0, 0, 0, false,
                    ));
                }
            } else {
                proof {
                    assert(staged(
                        lift_mat(rows_view(distance@)), g, lov, hiv, nn,
                        (i + 1) as int * block_size as int, 0, 0, 0, false,
                    )) by {
                        assert forall|r: int, c: int|
                            0 <= r < nn && 0 <= c < nn && #[trigger] staged_done(
                                lov, hiv, nn, (i + 1) as int * block_size as int,
                                0, 0, 0, false, r, c,
                            ) implies staged_done(
                            lov, hiv, nn, i as int * block_size as int, 0, 0, 0, false, r, c,
                        ) by {
                            if !(lov <= r < hiv) && r < (i + 1) as int * block_size as int {
                                assert(!(i as int * block_size as int <= r < (i + 1) as int
                                    * block_size as int));
                            }
                        }
                    }
                }
            }
            i = i + 1;
        }
        let ghost dpre = distance@;
        write_back_to_distance(&mut distance, &akk, lo, lo);
        proof {
            lemma_lift_mat_dims(distance@);
            assert forall|r: int, c: int|
                0 <= r < nn && 0 <= c < nn implies #[trigger] lift_mat(
                rows_view(distance@),
            )[r][c] == up_h[r][c] by {
                crate::minplus::lemma_lift_mat_index(distance@, r, c);
                crate::minplus::lemma_lift_mat_index(dpre, r, c);
                if lov <= r < hiv && lov <= c < hiv {
                    assert(distance@[lov + (r - lov)]@[lov + (c - lov)] == akk@[
                        r - lov
                    ]@[c - lov]);
                    assert(distance@[r]@[c] == akk@[r - lov]@[c - lov]);
                    crate::minplus::lemma_lift_mat_index(akk@, r - lov, c - lov);
                    assert(lift_cell(akk@[r - lov]@[c - lov]) == block_of(
                        up_h, lov, hiv, lov, hiv,
                    )[r - lov][c - lov]);
                } else {
                    assert(distance@[r]@[c] == dpre[r]@[c]);
                    assert(staged_done(
                        lov, hiv, nn, blocks as int * block_size as int, 0, 0, 0, false, r, c,
                    ));
                }
            }
            assert(lift_mat(rows_view(distance@)) =~~= up_h);
            assert(imin((k + 1) as int * block_size as int, nn) == hiv);
        }
        k = k + 1;
    }
    proof {
        assert(imin(blocks as int * block_size as int, nn) == nn);
        assert(lift_mat(rows_view(distance@)) == shortest_mat(g));
    }
    distance
}

/// The partitioned block-decomposed engine behind the uniform interface.
pub struct FloydWarshallBlockPar {
    pub graph: GraphAM,
    pub shortest_paths: Vec<Vec<Option<u64>>>,
    pub num_cores: usize,
}

impl FloydWarshallBlockPar {
    /// An engine that will cut the matrix for `cores` workers.
    pub fn new(cores: usize) -> (r: Self)
        requires
            cores >= 1,
        ensures
            r.graph_ok(),
            r.graph_view().len() == 0,
            r.result_view().len() == 0,
            r.num_cores == cores,
    {
        FloydWarshallBlockPar {
            graph: GraphAM::new(),
            shortest_paths: Vec::new(),
            num_cores: cores,
        }
    }
}

impl APSPAlgorithm for FloydWarshallBlockPar {
    open spec fn graph_view(&self) -> Matrix {
        self.graph.mat()
    }

    open spec fn result_view(&self) -> Matrix {
        rows_view(self.shortest_paths@)
    }

    open spec fn graph_ok(&self) -> bool {
        self.graph.wf() && self.graph.weights_fit() && self.num_cores >= 1
    }

    fn load_graph(&mut self, graph: &GraphAM) {
        self.graph = graph.duplicate();
    }

    fn execute(&mut self) {
        self.shortest_paths = floyd_warshall_blocked_par(&self.graph, self.num_cores);
        proof {
            lemma_rows_view_square(self.shortest_paths@, self.graph.node_count as nat);
        }
    }

    fn get_result(&mut self) -> (r: APSPResult) {
        collect_result(&self.shortest_paths)
    }
}

} // verus!
