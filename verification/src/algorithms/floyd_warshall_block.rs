//! The cache-friendly block-decomposed relaxation engine.
//!
//! The matrix is cut into square blocks. For each pivot block in turn: the
//! pivot block is relaxed against itself; every block in the pivot's row is
//! relaxed with the pivot block as left operand; then every remaining block
//! is relaxed through the pivot rows and columns. Later phases read what
//! earlier phases wrote: that ordering is what the correctness proof rests
//! on. Each phase's product is pinned to `shortest_upto` by a sandwich
//! argument: its cells never drop below the post-block distances and never
//! exceed the distances admitted so far, so after the whole block they are
//! exactly the post-block distances.

use vstd::prelude::*;
use vstd::arithmetic::div_mod::lemma_fundamental_div_mod;
use crate::base::{collect_result, APSPAlgorithm, APSPResult};
use crate::fwb_function::{
    block_of, copy_matrix, dist_rect, floyd_warshall_in_place1, floyd_warshall_in_place2,
    floyd_warshall_in_place3, floyd_warshall_in_place4, imin, mp_add_cap, pass_gen,
    product_cell, product_step, rect, set_diag_zero, slice_matrix_block, slice_matrix_immut,
    write_back_to_distance,
};
use crate::graph::GraphAM;
use crate::minplus::{
    dist_ok, dist_square, lemma_lift_mat_dims, lemma_mp_add_mono, lemma_mp_le_antisym,
    lemma_mp_le_min_both, lemma_mp_le_trans, lemma_mp_min_le, lemma_mp_min_mono,
    lemma_rows_view_square, lift_cell, lift_mat, mp_add, mp_le, mp_min, rows_view, square,
    vec_square, weights_bounded, DistMatrix, Matrix, MAX_NODE_COUNT, MAX_WEIGHT,
};
use crate::shortest::{
    lemma_shortest_upto_bounded, lemma_shortest_upto_mono, lemma_shortest_upto_square,
    lemma_shortest_upto_triangle, relax_step, shortest_mat, shortest_upto,
};

verus! {

/// Ceiling division: `blocks * size` covers `n`, and every block before the
/// last starts strictly inside `n`.
pub proof fn lemma_ceil_props(n: int, size: int)
    requires
        n >= 1,
        size >= 1,
    ensures
        n <= ((n + size - 1) / size) * size,
        (((n + size - 1) / size) - 1) * size <= n - 1,
        (n + size - 1) / size >= 1,
        (n + size - 1) / size <= n,
{
    let q = (n + size - 1) / size;
    lemma_fundamental_div_mod(n + size - 1, size);
    assert(n + size - 1 == size * q + ((n + size - 1) % size));
    assert(0 <= (n + size - 1) % size < size);
    assert(size * q == q * size) by (nonlinear_arith);
    assert((q - 1) * size == q * size - size) by (nonlinear_arith);
    if q < 1 {
        assert(size * q <= 0) by (nonlinear_arith)
            requires q <= 0, size >= 1;
    }
    if q > n {
        assert(size * q >= size * (n + 1)) by (nonlinear_arith)
            requires q >= n + 1, size >= 1;
        assert(size * (n + 1) == size * n + size) by (nonlinear_arith);
        assert(size * n >= n) by (nonlinear_arith)
            requires size >= 1, n >= 0;
        assert(false);
    }
}

/// Lifting commutes with taking a block.
pub proof fn lemma_lift_block(m: Matrix, r0: int, r1: int, c0: int, c1: int)
    requires
        0 <= r0 <= r1 <= m.len(),
        0 <= c0 <= c1,
        forall|r: int| r0 <= r < r1 ==> c1 <= (#[trigger] m[r]).len(),
    ensures
        lift_mat(block_of(m, r0, r1, c0, c1)) == block_of(lift_mat(m), r0, r1, c0, c1),
{
    let a = lift_mat(block_of(m, r0, r1, c0, c1));
    let b = block_of(lift_mat(m), r0, r1, c0, c1);
    assert forall|r: int, c: int| 0 <= r < r1 - r0 && 0 <= c < c1 - c0 implies #[trigger] a[r][c]
        == b[r][c] by {
        assert(block_of(m, r0, r1, c0, c1)[r][c] == m[r0 + r][c0 + c]);
        assert(a[r] == block_of(m, r0, r1, c0, c1)[r].map_values(
            |x: Option<u64>| lift_cell(x),
        ));
        assert(a[r][c] == lift_cell(m[r0 + r][c0 + c]));
        assert(lift_mat(m)[r0 + r] == m[r0 + r].map_values(|x: Option<u64>| lift_cell(x)));
        assert(b[r][c] == lift_mat(m)[r0 + r][c0 + c]);
    }
    assert(a =~~= b);
}

/// The pivot block relaxed against itself is, pivot by pivot, exactly the
/// restricted shortest-distance matrix of that block.
pub proof fn lemma_pass_self_block(g: Matrix, lo: int, hi: int, t: nat)
    requires
        square(g, g.len()),
        weights_bounded(g),
        g.len() <= MAX_NODE_COUNT as int,
        0 <= lo < hi <= g.len(),
        t <= hi - lo,
    ensures
        pass_gen(
            block_of(shortest_upto(g, lo as nat), lo, hi, lo, hi),
            None,
            None,
            t,
            hi - lo,
            hi - lo,
        ) == block_of(shortest_upto(g, (lo + t) as nat), lo, hi, lo, hi),
    decreases t,
{
    lemma_shortest_upto_square(g, lo as nat);
    let c0 = block_of(shortest_upto(g, lo as nat), lo, hi, lo, hi);
    if t == 0 {
    } else {
        lemma_pass_self_block(g, lo, hi, (t - 1) as nat);
        let d = shortest_upto(g, (lo + t - 1) as nat);
        lemma_shortest_upto_square(g, (lo + t - 1) as nat);
        let p = pass_gen(c0, None, None, (t - 1) as nat, hi - lo, hi - lo);
        assert(p == block_of(d, lo, hi, lo, hi));
        let q = pass_gen(c0, None, None, t, hi - lo, hi - lo);
        assert(q == product_step(p, p, p, t - 1, hi - lo, hi - lo));
        let piv = lo + t - 1;
        let mw = MAX_WEIGHT as int;
        let m = (g.len() - 1) * mw;
        assert(2 * m <= u64::MAX as int) by (nonlinear_arith)
            requires g.len() <= 0x8000, m == (g.len() - 1) * mw, mw == 0x8000_0000;
        assert forall|r: int, c: int|
            0 <= r < hi - lo && 0 <= c < hi - lo implies #[trigger] q[r][c] == shortest_upto(
            g,
            (lo + t) as nat,
        )[lo + r][lo + c] by {
            assert(p[r][c] == d[lo + r][lo + c]);
            assert(p[r][t - 1] == d[lo + r][piv]);
            assert(p[t - 1][c] == d[piv][lo + c]);
            lemma_shortest_upto_bounded(g, (lo + t - 1) as nat, lo + r, piv);
            lemma_shortest_upto_bounded(g, (lo + t - 1) as nat, piv, lo + c);
            assert(mp_add_cap(d[lo + r][piv], d[piv][lo + c]) == mp_add(
                d[lo + r][piv],
                d[piv][lo + c],
            ));
            assert(q[r][c] == product_cell(p, p, p, t - 1, r, c));
            assert(shortest_upto(g, (lo + t) as nat) == relax_step(d, piv));
            assert(shortest_upto(g, (lo + t) as nat)[lo + r][lo + c] == mp_min(
                d[lo + r][lo + c],
                mp_add(d[lo + r][piv], d[piv][lo + c]),
            ));
        }
        assert(q =~~= block_of(shortest_upto(g, (lo + t) as nat), lo, hi, lo, hi));
    }
}

/// The sandwich carried through a block product with at least one exact
/// operand: after `t` pivots each cell is at least the post-block distance,
/// at most the distance admitted so far, and bounded by `(t + 2)` shortest
/// distances, so no candidate sum ever overflows.
pub proof fn lemma_pass_mixed_block(
    g: Matrix,
    lo: int,
    hi: int,
    ri: int,
    ci: int,
    nr: int,
    nc: int,
    ea: Option<DistMatrix>,
    eb: Option<DistMatrix>,
    t: nat,
)
    requires
        square(g, g.len()),
        weights_bounded(g),
        g.len() <= MAX_NODE_COUNT as int,
        0 <= lo < hi <= g.len(),
        t <= hi - lo,
        0 <= ri,
        ri + nr <= g.len(),
        0 <= ci,
        ci + nc <= g.len(),
        nr >= 0,
        nc >= 0,
        !(ea is None && eb is None),
        (match ea {
            Some(m) => m == block_of(shortest_upto(g, hi as nat), ri, ri + nr, lo, hi),
            None => ci == lo && nc == hi - lo,
        }),
        (match eb {
            Some(m) => m == block_of(shortest_upto(g, hi as nat), lo, hi, ci, ci + nc),
            None => ri == lo && nr == hi - lo,
        }),
    ensures
        forall|r: int, c: int|
            0 <= r < nr && 0 <= c < nc ==> mp_le(
                shortest_upto(g, hi as nat)[ri + r][ci + c],
                #[trigger] pass_gen(
                    block_of(shortest_upto(g, lo as nat), ri, ri + nr, ci, ci + nc),
                    ea,
                    eb,
                    t,
                    nr,
                    nc,
                )[r][c],
            ),
        forall|r: int, c: int|
            0 <= r < nr && 0 <= c < nc ==> mp_le(
                #[trigger] pass_gen(
                    block_of(shortest_upto(g, lo as nat), ri, ri + nr, ci, ci + nc),
                    ea,
                    eb,
                    t,
                    nr,
                    nc,
                )[r][c],
                shortest_upto(g, (lo + t) as nat)[ri + r][ci + c],
            ),
        forall|r: int, c: int|
            0 <= r < nr && 0 <= c < nc ==> dist_ok(
                #[trigger] pass_gen(
                    block_of(shortest_upto(g, lo as nat), ri, ri + nr, ci, ci + nc),
                    ea,
                    eb,
                    t,
                    nr,
                    nc,
                )[r][c],
                (t + 2) * ((g.len() - 1) * (MAX_WEIGHT as int)),
            ),
    decreases t,
{
    let n = g.len() as int;
    let mw = MAX_WEIGHT as int;
    let m = (n - 1) * mw;
    let c0 = block_of(shortest_upto(g, lo as nat), ri, ri + nr, ci, ci + nc);
    lemma_shortest_upto_square(g, lo as nat);
    lemma_shortest_upto_square(g, hi as nat);
    if t == 0 {
        assert forall|r: int, c: int|
            0 <= r < nr && 0 <= c < nc implies mp_le(
            shortest_upto(g, hi as nat)[ri + r][ci + c],
            #[trigger] pass_gen(c0, ea, eb, 0, nr, nc)[r][c],
        ) && mp_le(
            pass_gen(c0, ea, eb, 0, nr, nc)[r][c],
            shortest_upto(g, (lo + 0) as nat)[ri + r][ci + c],
        ) && dist_ok(pass_gen(c0, ea, eb, 0, nr, nc)[r][c], 2 * m) by {
            assert(c0[r][c] == shortest_upto(g, lo as nat)[ri + r][ci + c]);
            lemma_shortest_upto_mono(g, lo as nat, hi as nat, ri + r, ci + c);
            lemma_shortest_upto_bounded(g, lo as nat, ri + r, ci + c);
            assert(m <= 2 * m) by (nonlinear_arith)
                requires m >= 0;
            match shortest_upto(g, lo as nat)[ri + r][ci + c] {
                Some(x) => {},
                None => {},
            }
        }
    } else {
        lemma_pass_mixed_block(g, lo, hi, ri, ci, nr, nc, ea, eb, (t - 1) as nat);
        let p = pass_gen(c0, ea, eb, (t - 1) as nat, nr, nc);
        let q = pass_gen(c0, ea, eb, t, nr, nc);
        crate::fwb_function::lemma_pass_gen_dims(c0, ea, eb, (t - 1) as nat, nr, nc);
        let au = crate::fwb_function::opsel(p, ea);
        let bu = crate::fwb_function::opsel(p, eb);
        assert(q == product_step(p, au, bu, t - 1, nr, nc));
        let piv = lo + t - 1;
        let dlo = shortest_upto(g, (lo + t - 1) as nat);
        let dhi = shortest_upto(g, hi as nat);
        lemma_shortest_upto_square(g, (lo + t - 1) as nat);
        assert forall|r: int, c: int|
            0 <= r < nr && 0 <= c < nc implies mp_le(dhi[ri + r][ci + c], #[trigger] q[r][c])
            && mp_le(q[r][c], shortest_upto(g, (lo + t) as nat)[ri + r][ci + c]) && dist_ok(
            q[r][c],
            (t + 2) * m,
        ) by {
            // What the step reads as operands, and the facts known of them.
            let av = au[r][t - 1];
            let bv = bu[t - 1][c];
            assert(mp_le(dhi[ri + r][piv], av) && mp_le(av, dlo[ri + r][piv]) && dist_ok(
                av,
                (t + 1) * m,
            )) by {
                match ea {
                    Some(ma) => {
                        assert(av == dhi[ri + r][piv]);
                        lemma_shortest_upto_mono(g, (lo + t - 1) as nat, hi as nat, ri + r, piv);
                        lemma_shortest_upto_bounded(g, hi as nat, ri + r, piv);
                        assert(m <= (t + 1) * m) by (nonlinear_arith)
                            requires m >= 0, t >= 1;
                    },
                    None => {
                        assert(av == p[r][t - 1]);
                        assert(mp_le(dhi[ri + r][lo + (t - 1)], p[r][t - 1]));
                        assert(mp_le(p[r][t - 1], dlo[ri + r][lo + (t - 1)]));
                        assert((t - 1) + 2 == t + 1);
                    },
                }
            }
            assert(mp_le(dhi[piv][ci + c], bv) && mp_le(bv, dlo[piv][ci + c]) && dist_ok(
                bv,
                (t + 1) * m,
            )) by {
                match eb {
                    Some(mb) => {
                        assert(bv == dhi[piv][ci + c]);
                        lemma_shortest_upto_mono(g, (lo + t - 1) as nat, hi as nat, piv, ci + c);
                        lemma_shortest_upto_bounded(g, hi as nat, piv, ci + c);
                        assert(m <= (t + 1) * m) by (nonlinear_arith)
                            requires m >= 0, t >= 1;
                    },
                    None => {
                        assert(bv == p[t - 1][c]);
                        assert(mp_le(dhi[lo + (t - 1)][ci + c], p[t - 1][c]));
                        assert(mp_le(p[t - 1][c], dlo[lo + (t - 1)][ci + c]));
                        assert((t - 1) + 2 == t + 1);
                    },
                }
            }
            // One operand is exact, so the candidate sum stays far below the
            // weight range and the capped sum is the true sum.
            assert(dist_ok(av, (t + 1) * m) && dist_ok(bv, (t + 1) * m));
            assert((ea is Some) || (eb is Some));
            let abound: int = if ea is Some {
                m
            } else {
                (t + 1) * m
            };
            let bbound: int = if eb is Some {
                m
            } else {
                (t + 1) * m
            };
            assert(dist_ok(av, abound)) by {
                if ea is Some {
                    lemma_shortest_upto_bounded(g, hi as nat, ri + r, piv);
                }
            }
            assert(dist_ok(bv, bbound)) by {
                if eb is Some {
                    lemma_shortest_upto_bounded(g, hi as nat, piv, ci + c);
                }
            }
            assert(abound + bbound <= (t + 2) * m) by (nonlinear_arith)
                requires m >= 0, t >= 1, abound == m || abound == (t + 1) * m,
                    bbound == m || bbound == (t + 1) * m, abound == m || bbound == m;
            assert((t + 2) * m <= u64::MAX as int) by (nonlinear_arith)
                requires 0 <= m <= 0x8000 * 0x8000_0000, t <= 0x8000;
            assert(m <= 0x8000 * 0x8000_0000) by (nonlinear_arith)
                requires g.len() <= 0x8000, mw == 0x8000_0000, m == (g.len() - 1) * mw;
            assert(mp_add_cap(av, bv) == mp_add(av, bv));
            assert(q[r][c] == mp_min(p[r][c], mp_add(av, bv)));
            // Sound: never below the post-block distances.
            lemma_shortest_upto_triangle(g, hi as nat, ri + r, piv, ci + c);
            lemma_mp_add_mono(dhi[ri + r][piv], av, dhi[piv][ci + c], bv);
            lemma_mp_le_trans(
                dhi[ri + r][ci + c],
                mp_add(dhi[ri + r][piv], dhi[piv][ci + c]),
                mp_add(av, bv),
            );
            lemma_mp_le_min_both(dhi[ri + r][ci + c], p[r][c], mp_add(av, bv));
            // Complete: never above the distances admitted so far.
            lemma_mp_add_mono(av, dlo[ri + r][piv], bv, dlo[piv][ci + c]);
            lemma_mp_min_mono(
                p[r][c],
                dlo[ri + r][ci + c],
                mp_add(av, bv),
                mp_add(dlo[ri + r][piv], dlo[piv][ci + c]),
            );
            assert(shortest_upto(g, (lo + t) as nat) == relax_step(dlo, piv));
            assert(shortest_upto(g, (lo + t) as nat)[ri + r][ci + c] == mp_min(
                dlo[ri + r][ci + c],
                mp_add(dlo[ri + r][piv], dlo[piv][ci + c]),
            ));
            // Bounded.
            assert(dist_ok(q[r][c], (t + 2) * m)) by {
                assert((t + 1) * m <= (t + 2) * m) by (nonlinear_arith)
                    requires m >= 0;
                lemma_mp_min_le(p[r][c], mp_add(av, bv));
            }
        }
    }
}

/// At the end of a block product with an exact operand, the sandwich closes:
/// the result is exactly the post-block distances of its region.
pub proof fn lemma_pass_mixed_exact(
    g: Matrix,
    lo: int,
    hi: int,
    ri: int,
    ci: int,
    nr: int,
    nc: int,
    ea: Option<DistMatrix>,
    eb: Option<DistMatrix>,
)
    requires
        square(g, g.len()),
        weights_bounded(g),
        g.len() <= MAX_NODE_COUNT as int,
        0 <= lo < hi <= g.len(),
        0 <= ri,
        ri + nr <= g.len(),
        0 <= ci,
        ci + nc <= g.len(),
        nr >= 0,
        nc >= 0,
        !(ea is None && eb is None),
        (match ea {
            Some(m) => m == block_of(shortest_upto(g, hi as nat), ri, ri + nr, lo, hi),
            None => ci == lo && nc == hi - lo,
        }),
        (match eb {
            Some(m) => m == block_of(shortest_upto(g, hi as nat), lo, hi, ci, ci + nc),
            None => ri == lo && nr == hi - lo,
        }),
    ensures
        pass_gen(
            block_of(shortest_upto(g, lo as nat), ri, ri + nr, ci, ci + nc),
            ea,
            eb,
            (hi - lo) as nat,
            nr,
            nc,
        ) == block_of(shortest_upto(g, hi as nat), ri, ri + nr, ci, ci + nc),
{
    let c0 = block_of(shortest_upto(g, lo as nat), ri, ri + nr, ci, ci + nc);
    let t = (hi - lo) as nat;
    lemma_pass_mixed_block(g, lo, hi, ri, ci, nr, nc, ea, eb, t);
    crate::fwb_function::lemma_pass_gen_dims(c0, ea, eb, t, nr, nc);
    let q = pass_gen(c0, ea, eb, t, nr, nc);
    assert forall|r: int, c: int| 0 <= r < nr && 0 <= c < nc implies #[trigger] q[r][c]
        == shortest_upto(g, hi as nat)[ri + r][ci + c] by {
        lemma_mp_le_antisym(q[r][c], shortest_upto(g, hi as nat)[ri + r][ci + c]);
    }
    assert(q =~~= block_of(shortest_upto(g, hi as nat), ri, ri + nr, ci, ci + nc));
}


/// Which cells of the matrix have already been recomputed for the current
/// pivot block `[lo, hi)`: pivot rows up to column bound `c2b` (phase two),
/// whole row blocks before `r3b` (phase three), and within the current row
/// block `[rlo, rhi)` the columns before `c3b`, plus its pivot columns once
/// `aik` has been written back.
pub open spec fn staged_done(
    lo: int,
    hi: int,
    c2b: int,
    r3b: int,
    rlo: int,
    rhi: int,
    c3b: int,
    aik: bool,
    r: int,
    c: int,
) -> bool {
    ||| (lo <= r < hi && !(lo <= c < hi) && c < c2b)
    ||| (!(lo <= r < hi) && r < r3b)
    ||| (rlo <= r < rhi && !(lo <= c < hi) && c < c3b)
    ||| (aik && rlo <= r < rhi && lo <= c < hi)
}

/// Between phases the matrix holds post-block distances exactly on the
/// recomputed region and pre-block distances everywhere else.
pub open spec fn staged(
    d: DistMatrix,
    g: Matrix,
    lo: int,
    hi: int,
    c2b: int,
    r3b: int,
    rlo: int,
    rhi: int,
    c3b: int,
    aik: bool,
) -> bool {
    forall|r: int, c: int|
        0 <= r < g.len() && 0 <= c < g.len() ==> #[trigger] d[r][c] == (
        if staged_done(lo, hi, c2b, r3b, rlo, rhi, c3b, aik, r, c) {
            shortest_upto(g, hi as nat)[r][c]
        } else {
            shortest_upto(g, lo as nat)[r][c]
        })
}

/// A region that the staging map classifies uniformly is a block of the
/// matching restricted shortest-distance matrix.
pub proof fn lemma_slice_region(
    d: DistMatrix,
    g: Matrix,
    lo: int,
    hi: int,
    c2b: int,
    r3b: int,
    rlo: int,
    rhi: int,
    c3b: int,
    aik: bool,
    r0: int,
    r1: int,
    c0: int,
    c1: int,
    use_hi: bool,
)
    requires
        staged(d, g, lo, hi, c2b, r3b, rlo, rhi, c3b, aik),
        dist_square(d, g.len()),
        0 <= r0 <= r1 <= g.len(),
        0 <= c0 <= c1 <= g.len(),
        forall|r: int, c: int|
            r0 <= r < r1 && c0 <= c < c1 ==> #[trigger] staged_done(
                lo,
                hi,
                c2b,
                r3b,
                rlo,
                rhi,
                c3b,
                aik,
                r,
                c,
            ) == use_hi,
    ensures
        block_of(d, r0, r1, c0, c1) == block_of(
            shortest_upto(g, (if use_hi { hi } else { lo }) as nat),
            r0,
            r1,
            c0,
            c1,
        ),
{
    let which = shortest_upto(g, (if use_hi { hi } else { lo }) as nat);
    assert forall|r: int, c: int|
        0 <= r < r1 - r0 && 0 <= c < c1 - c0 implies #[trigger] block_of(d, r0, r1, c0, c1)[r][c]
        == block_of(which, r0, r1, c0, c1)[r][c] by {
        assert(staged_done(lo, hi, c2b, r3b, rlo, rhi, c3b, aik, r0 + r, c0 + c) == use_hi);
        assert(d[r0 + r][c0 + c] == which[r0 + r][c0 + c]);
    }
    assert(block_of(d, r0, r1, c0, c1) =~~= block_of(which, r0, r1, c0, c1));
}

/// Index arithmetic for block `idx` of a matrix cut into `blocks` blocks of
/// `bsz` rows: it starts inside the matrix and ends where the next starts.
pub proof fn lemma_block_bounds(idx: int, bsz: int, blocks: int, n: int)
    requires
        0 <= idx < blocks,
        bsz >= 1,
        n >= 1,
        n <= blocks * bsz,
        (blocks - 1) * bsz <= n - 1,
    ensures
        0 <= idx * bsz <= n - 1,
        (idx + 1) * bsz == idx * bsz + bsz,
        idx * bsz < imin((idx + 1) * bsz, n) <= n,
        (idx + 1) * bsz <= n - 1 + bsz,
{
    assert(idx * bsz <= (blocks - 1) * bsz) by (nonlinear_arith)
        requires idx <= blocks - 1, bsz >= 0;
    assert(idx * bsz >= 0) by (nonlinear_arith)
        requires idx >= 0, bsz >= 0;
    assert((idx + 1) * bsz == idx * bsz + bsz) by (nonlinear_arith);
}

/// Two different blocks never overlap.
pub proof fn lemma_block_disjoint(a: int, b: int, bsz: int)
    requires
        0 <= a < b,
        bsz >= 1,
    ensures
        (a + 1) * bsz <= b * bsz,
{
    assert((a + 1) * bsz <= b * bsz) by (nonlinear_arith)
        requires a + 1 <= b, bsz >= 0;
}

/// The block-decomposed relaxation over a whole adjacency matrix: the same
/// all-pairs shortest-distance matrix as the plain triple loop, computed
/// block by block. A block count larger than the node count degenerates to
/// one-node blocks rather than failing.
pub fn floyd_warshall_blocked(graph: &GraphAM, num_blocks: usize) -> (res: Vec<Vec<Option<u64>>>)
    requires
        graph.wf(),
        graph.weights_fit(),
        num_blocks >= 1,
    ensures
        vec_square(res@, graph.node_count as nat),
        lift_mat(rows_view(res@)) == shortest_mat(graph.mat()),
{
    let ghost g = graph.mat();
    let n = graph.node_count;
    let ghost nn = n as int;
    let mut distance = copy_matrix(&graph.adjacency_matrix);
    proof {
        assert forall|t: int| 0 <= t < n implies #[trigger] distance@[t]@.len() == n by {
            assert(distance@[t]@ == graph.adjacency_matrix@[t]@);
            assert(g[t] == graph.adjacency_matrix@[t]@);
            assert(g[t].len() == n);
        }
        assert(vec_square(distance@, n as nat));
        assert(rows_view(distance@) =~~= g);
    }
    set_diag_zero(&mut distance);
    if n == 0 {
        return distance;
    }
    let bs0 = n / num_blocks;
    let block_size = if bs0 == 0 {
        1
    } else {
        bs0
    };
    proof {
        assert(n as int / num_blocks as int <= n as int) by (nonlinear_arith)
            requires num_blocks >= 1, n >= 0;
    }
    let blocks = (n + block_size - 1) / block_size;
    proof {
        lemma_ceil_props(nn, block_size as int);
        lemma_shortest_upto_square(g, g.len());
    }
    let mut k: usize = 0;
    while k < blocks
        invariant
            k <= blocks,
            n >= 1,
            block_size >= 1,
            graph.wf(),
            graph.weights_fit(),
            n == graph.node_count,
            nn == n as int,
            g == graph.mat(),
            g.len() == n,
            square(g, n as nat),
            weights_bounded(g),
            n <= MAX_NODE_COUNT,
            blocks as int == (nn + block_size - 1) / block_size as int,
            nn <= blocks as int * block_size as int,
            (blocks as int - 1) * block_size as int <= nn - 1,
            blocks >= 1,
            block_size <= n,
            blocks <= n,
            vec_square(distance@, n as nat),
            lift_mat(rows_view(distance@)) == shortest_upto(
                g,
                imin(k as int * block_size as int, nn) as nat,
            ),
        decreases blocks - k,
    {
        proof {
            lemma_block_bounds(k as int, block_size as int, blocks as int, nn);
        }
        let lo = k * block_size;
        let hi_raw = lo + block_size;
        let hi = if hi_raw < n {
            hi_raw
        } else {
            n
        };
        let ghost lov = lo as int;
        let ghost hiv = hi as int;
        let ghost up_l = shortest_upto(g, lov as nat);
        let ghost up_h = shortest_upto(g, hiv as nat);
        proof {
            assert(imin(k as int * block_size as int, nn) == lov);
            assert(hiv == imin((k + 1) as int * block_size as int, nn));
            assert(lov < hiv <= nn);
            assert(hiv - lov <= block_size);
            lemma_shortest_upto_square(g, lov as nat);
            lemma_shortest_upto_square(g, hiv as nat);
            lemma_lift_mat_dims(distance@);
            assert(dist_rect(lift_mat(rows_view(distance@)), nn));
            assert(staged(lift_mat(rows_view(distance@)), g, lov, hiv, 0, 0, 0, 0, 0, false));
        }
        // Self-update: relax the pivot block against itself.
        let akk0 = slice_matrix_block(&distance, k, k, block_size);
        proof {
            lemma_lift_mat_dims(akk0@);
            assert(rect(akk0@));
            lemma_lift_block(rows_view(distance@), lov, hiv, lov, hiv);
            lemma_slice_region(
                lift_mat(rows_view(distance@)), g, lov, hiv, 0, 0, 0, 0, 0, false,
                lov, hiv, lov, hiv, false,
            );
            assert(lift_mat(rows_view(akk0@)) == block_of(up_l, lov, hiv, lov, hiv));
        }
        let akk = floyd_warshall_in_place1(&akk0, block_size);
        proof {
            assert(akk0@.len() == hiv - lov);
            assert(akk0@[0]@.len() == hiv - lov);
            assert(imin(block_size as int, imin(hiv - lov, hiv - lov)) == hiv - lov);
            lemma_pass_self_block(g, lov, hiv, (hiv - lov) as nat);
            assert(lift_mat(rows_view(akk@)) == block_of(up_h, lov, hiv, lov, hiv));
            lemma_lift_mat_dims(akk@);
            assert(rect(akk@));
        }
        // Column update: relax every block in the pivot's block row.
        let mut j: usize = 0;
        while j < blocks
            invariant
                j <= blocks,
                k < blocks,
                n >= 1,
                block_size >= 1,
                nn == n as int,
                g.len() == n,
                square(g, n as nat),
                weights_bounded(g),
                n <= MAX_NODE_COUNT,
                blocks as int == (nn + block_size - 1) / block_size as int,
                nn <= blocks as int * block_size as int,
                (blocks as int - 1) * block_size as int <= nn - 1,
                lov == k as int * block_size as int,
                hiv == imin((k + 1) as int * block_size as int, nn),
                lo as int == lov,
                hi as int == hiv,
                blocks <= n,
                0 <= lov < hiv <= nn,
                hiv - lov <= block_size,
                up_l == shortest_upto(g, lov as nat),
                up_h == shortest_upto(g, hiv as nat),
                dist_square(up_l, n as nat),
                dist_square(up_h, n as nat),
                akk@.len() == hiv - lov,
                forall|t: int| 0 <= t < akk@.len() ==> (#[trigger] akk@[t])@.len() == hiv - lov,
                rect(akk@),
                lift_mat(rows_view(akk@)) == block_of(up_h, lov, hiv, lov, hiv),
                vec_square(distance@, n as nat),
                staged(
                    lift_mat(rows_view(distance@)),
                    g,
                    lov,
                    hiv,
                    j as int * block_size as int,
                    0,
                    0,
                    0,
                    0,
                    false,
                ),
            decreases blocks - j,
        {
            proof {
                lemma_block_bounds(j as int, block_size as int, blocks as int, nn);
                lemma_block_bounds(k as int, block_size as int, blocks as int, nn);
            }
            if j != k {
                let ghost cj0 = j as int * block_size as int;
                let ghost cj1 = imin((j + 1) as int * block_size as int, nn);
                proof {
                    if j < k {
                        lemma_block_disjoint(j as int, k as int, block_size as int);
                    } else {
                        lemma_block_disjoint(k as int, j as int, block_size as int);
                    }
                    lemma_lift_mat_dims(distance@);
                }
                let akj0 = slice_matrix_block(&distance, k, j, block_size);
                proof {
                    lemma_lift_mat_dims(akj0@);
                    assert(rect(akj0@));
                    lemma_lift_block(rows_view(distance@), lov, hiv, cj0, cj1);
                    lemma_slice_region(
                        lift_mat(rows_view(distance@)), g, lov, hiv,
                        j as int * block_size as int, 0, 0, 0, 0, false,
                        lov, hiv, cj0, cj1, false,
                    );
                    assert(lift_mat(rows_view(akj0@)) == block_of(up_l, lov, hiv, cj0, cj1));
                }
                let akj = floyd_warshall_in_place2(&akj0, &akk, block_size);
                proof {
                    assert(akj0@.len() == hiv - lov);
                    assert(akj0@[0]@.len() == cj1 - cj0);
                    assert(imin(block_size as int, imin(hiv - lov, hiv - lov)) == hiv - lov);
                    assert(imin(block_size as int, cj1 - cj0) == cj1 - cj0);
                    lemma_pass_mixed_exact(
                        g, lov, hiv, lov, cj0, hiv - lov, cj1 - cj0,
                        Some(block_of(up_h, lov, hiv, lov, hiv)),
                        None,
                    );
                    assert(lift_mat(rows_view(akj@)) == block_of(up_h, lov, hiv, cj0, cj1));
                    lemma_lift_mat_dims(akj@);
                }
                let ghost dpre = distance@;
                write_back_to_distance(&mut distance, &akj, lo, j * block_size);
                proof {
                    lemma_lift_mat_dims(distance@);
                    assert forall|r: int, c: int|
                        0 <= r < nn && 0 <= c < nn implies #[trigger] lift_mat(
                        rows_view(distance@),
                    )[r][c] == (if staged_done(
                        lov,
                        hiv,
                        (j + 1) as int * block_size as int,
                        0,
                        0,
                        0,
                        0,
                        false,
                        r,
                        c,
                    ) {
                        up_h[r][c]
                    } else {
                        up_l[r][c]
                    }) by {
                        crate::minplus::lemma_lift_mat_index(distance@, r, c);
                        crate::minplus::lemma_lift_mat_index(dpre, r, c);
                        if lov <= r < hiv && cj0 <= c < cj1 {
                            assert(distance@[lov + (r - lov)]@[cj0 + (c - cj0)] == akj@[
                                r - lov
                            ]@[c - cj0]);
                            assert(distance@[r]@[c] == akj@[r - lov]@[c - cj0]);
                            crate::minplus::lemma_lift_mat_index(akj@, r - lov, c - cj0);
                            assert(lift_cell(akj@[r - lov]@[c - cj0]) == block_of(
                                up_h, lov, hiv, cj0, cj1,
                            )[r - lov][c - cj0]);
                        } else {
                            assert(distance@[r]@[c] == dpre[r]@[c]);
                        }
                    }
                    assert(staged(
                        lift_mat(rows_view(distance@)), g, lov, hiv,
                        (j + 1) as int * block_size as int, 0, 0, 0, 0, false,
                    ));
                }
            } else {
                proof {
                    assert(staged(
                        lift_mat(rows_view(distance@)), g, lov, hiv,
                        (j + 1) as int * block_size as int, 0, 0, 0, 0, false,
                    )) by {
                        assert forall|r: int, c: int|
                            0 <= r < nn && 0 <= c < nn && #[trigger] staged_done(
                                lov, hiv, (j + 1) as int * block_size as int,
                                0, 0, 0, 0, false, r, c,
                            ) implies staged_done(
                            lov, hiv, j as int * block_size as int, 0, 0, 0, 0, false, r, c,
                        ) by {
                            if !(lov <= c < hiv) && c < (j + 1) as int * block_size as int {
                                assert(!(j as int * block_size as int <= c < (j + 1) as int
                                    * block_size as int));
                            }
                        }
                    }
                }
            }
            j = j + 1;
        }
        // Row update: relax every other block row against the pivot.
        proof {
            assert(staged(
                lift_mat(rows_view(distance@)), g, lov, hiv, nn, 0, 0, 0, 0, false,
            )) by {
                assert(nn <= blocks as int * block_size as int);
            }
            assert(staged(lift_mat(rows_view(distance@)), g, lov, hiv, nn, 0, 0, 0, 0, false)
                ==> staged(lift_mat(rows_view(distance@)), g, lov, hiv, nn,
                    0 * block_size as int, 0, 0, 0, false));
        }
        let mut i: usize = 0;
        while i < blocks
            invariant
                i <= blocks,
                k < blocks,
                n >= 1,
                block_size >= 1,
                nn == n as int,
                g.len() == n,
                square(g, n as nat),
                weights_bounded(g),
                n <= MAX_NODE_COUNT,
                blocks as int == (nn + block_size - 1) / block_size as int,
                nn <= blocks as int * block_size as int,
                (blocks as int - 1) * block_size as int <= nn - 1,
                lov == k as int * block_size as int,
                hiv == imin((k + 1) as int * block_size as int, nn),
                lo as int == lov,
                hi as int == hiv,
                blocks <= n,
                0 <= lov < hiv <= nn,
                hiv - lov <= block_size,
                up_l == shortest_upto(g, lov as nat),
                up_h == shortest_upto(g, hiv as nat),
                dist_square(up_l, n as nat),
                dist_square(up_h, n as nat),
                akk@.len() == hiv - lov,
                forall|t: int| 0 <= t < akk@.len() ==> (#[trigger] akk@[t])@.len() == hiv - lov,
                rect(akk@),
                lift_mat(rows_view(akk@)) == block_of(up_h, lov, hiv, lov, hiv),
                vec_square(distance@, n as nat),
                staged(
                    lift_mat(rows_view(distance@)),
                    g,
                    lov,
                    hiv,
                    nn,
                    i as int * block_size as int,
                    0,
                    0,
                    0,
                    false,
                ),
            decreases blocks - i,
        {
            proof {
                lemma_block_bounds(i as int, block_size as int, blocks as int, nn);
                lemma_block_bounds(k as int, block_size as int, blocks as int, nn);
            }
            if i != k {
                let ghost ri0 = i as int * block_size as int;
                let ghost ri1 = imin((i + 1) as int * block_size as int, nn);
                proof {
                    if i < k {
                        lemma_block_disjoint(i as int, k as int, block_size as int);
                    } else {
                        lemma_block_disjoint(k as int, i as int, block_size as int);
                    }
                    lemma_lift_mat_dims(distance@);
                }
                let aik0 = slice_matrix_block(&distance, i, k, block_size);
                proof {
                    lemma_lift_mat_dims(aik0@);
                    assert(rect(aik0@));
                    lemma_lift_block(rows_view(distance@), ri0, ri1, lov, hiv);
                    lemma_slice_region(
                        lift_mat(rows_view(distance@)), g, lov, hiv, nn,
                        i as int * block_size as int, 0, 0, 0, false,
                        ri0, ri1, lov, hiv, false,
                    );
                    assert(lift_mat(rows_view(aik0@)) == block_of(up_l, ri0, ri1, lov, hiv));
                }
                let aik = floyd_warshall_in_place3(&aik0, &akk, block_size);
                proof {
                    assert(aik0@.len() == ri1 - ri0);
                    assert(aik0@[0]@.len() == hiv - lov);
                    assert(imin(block_size as int, imin(hiv - lov, hiv - lov)) == hiv - lov);
                    assert(imin(block_size as int, ri1 - ri0) == ri1 - ri0);
                    lemma_pass_mixed_exact(
                        g, lov, hiv, ri0, lov, ri1 - ri0, hiv - lov,
                        None,
                        Some(block_of(up_h, lov, hiv, lov, hiv)),
                    );
                    assert(lift_mat(rows_view(aik@)) == block_of(up_h, ri0, ri1, lov, hiv));
                    lemma_lift_mat_dims(aik@);
                    assert(rect(aik@));
                }
                let mut j2: usize = 0;
                while j2 < blocks
                    invariant
                        j2 <= blocks,
                        i < blocks,
                        i != k,
                        k < blocks,
                        n >= 1,
                        block_size >= 1,
                        nn == n as int,
                        g.len() == n,
                        square(g, n as nat),
                        weights_bounded(g),
                        n <= MAX_NODE_COUNT,
                        blocks as int == (nn + block_size - 1) / block_size as int,
                        nn <= blocks as int * block_size as int,
                        (blocks as int - 1) * block_size as int <= nn - 1,
                        lov == k as int * block_size as int,
                        hiv == imin((k + 1) as int * block_size as int, nn),
                        lo as int == lov,
                        hi as int == hiv,
                        blocks <= n,
                        0 <= lov < hiv <= nn,
                        hiv - lov <= block_size,
                        ri0 == i as int * block_size as int,
                        ri1 == imin((i + 1) as int * block_size as int, nn),
                        0 <= ri0 < ri1 <= nn,
                        ri1 - ri0 <= block_size,
                        up_l == shortest_upto(g, lov as nat),
                        up_h == shortest_upto(g, hiv as nat),
                        dist_square(up_l, n as nat),
                        dist_square(up_h, n as nat),
                        akk@.len() == hiv - lov,
                        forall|t: int|
                            0 <= t < akk@.len() ==> (#[trigger] akk@[t])@.len() == hiv - lov,
                        rect(akk@),
                        lift_mat(rows_view(akk@)) == block_of(up_h, lov, hiv, lov, hiv),
                        aik@.len() == ri1 - ri0,
                        forall|t: int|
                            0 <= t < aik@.len() ==> (#[trigger] aik@[t])@.len() == hiv - lov,
                        rect(aik@),
                        lift_mat(rows_view(aik@)) == block_of(up_h, ri0, ri1, lov, hiv),
                        vec_square(distance@, n as nat),
                        staged(
                            lift_mat(rows_view(distance@)),
                            g,
                            lov,
                            hiv,
                            nn,
                            i as int * block_size as int,
                            ri0,
                            ri1,
                            j2 as int * block_size as int,
                            false,
                        ),
                    decreases blocks - j2,
                {
                    proof {
                        lemma_block_bounds(j2 as int, block_size as int, blocks as int, nn);
                        lemma_block_bounds(i as int, block_size as int, blocks as int, nn);
                        lemma_block_bounds(k as int, block_size as int, blocks as int, nn);
                    }
                    if j2 != k {
                        let ghost cj0 = j2 as int * block_size as int;
                        let ghost cj1 = imin((j2 + 1) as int * block_size as int, nn);
                        proof {
                            if j2 < k {
                                lemma_block_disjoint(j2 as int, k as int, block_size as int);
                            } else {
                                lemma_block_disjoint(k as int, j2 as int, block_size as int);
                            }
                            if i < k {
                                lemma_block_disjoint(i as int, k as int, block_size as int);
                            } else {
                                lemma_block_disjoint(k as int, i as int, block_size as int);
                            }
                            lemma_block_bounds(i as int, block_size as int, blocks as int, nn);
                            lemma_block_bounds(k as int, block_size as int, blocks as int, nn);
                            lemma_lift_mat_dims(distance@);
                        }
                        let aij0 = slice_matrix_block(&distance, i, j2, block_size);
                        proof {
                            lemma_lift_mat_dims(aij0@);
                            assert(rect(aij0@));
                            lemma_lift_block(rows_view(distance@), ri0, ri1, cj0, cj1);
                            lemma_slice_region(
                                lift_mat(rows_view(distance@)), g, lov, hiv, nn,
                                i as int * block_size as int, ri0, ri1,
                                j2 as int * block_size as int, false,
                                ri0, ri1, cj0, cj1, false,
                            );
                            assert(lift_mat(rows_view(aij0@)) == block_of(
                                up_l, ri0, ri1, cj0, cj1,
                            ));
                        }
                        let akj = slice_matrix_immut(&distance, k, j2, block_size);
                        proof {
                            lemma_lift_mat_dims(akj@);
                            assert(rect(akj@));
                            lemma_lift_block(rows_view(distance@), lov, hiv, cj0, cj1);
                            lemma_slice_region(
                                lift_mat(rows_view(distance@)), g, lov, hiv, nn,
                                i as int * block_size as int, ri0, ri1,
                                j2 as int * block_size as int, false,
                                lov, hiv, cj0, cj1, true,
                            );
                            assert(lift_mat(rows_view(akj@)) == block_of(
                                up_h, lov, hiv, cj0, cj1,
                            ));
                        }
                        let aij = floyd_warshall_in_place4(&aij0, &aik, &akj, block_size);
                        proof {
                            assert(aij0@.len() == ri1 - ri0);
                            assert(aij0@[0]@.len() == cj1 - cj0);
                            assert(akj@.len() == hiv - lov);
                            assert(akj@[0]@.len() == cj1 - cj0);
                            assert(aik@[0]@.len() == hiv - lov);
                            assert(imin(block_size as int, imin(hiv - lov, hiv - lov)) == hiv
                                - lov);
                            assert(imin(block_size as int, imin(ri1 - ri0, ri1 - ri0)) == ri1
                                - ri0);
                            assert(imin(block_size as int, imin(cj1 - cj0, cj1 - cj0)) == cj1
                                - cj0);
                            lemma_pass_mixed_exact(
                                g, lov, hiv, ri0, cj0, ri1 - ri0, cj1 - cj0,
                                Some(block_of(up_h, ri0, ri1, lov, hiv)),
                                Some(block_of(up_h, lov, hiv, cj0, cj1)),
                            );
                            assert(lift_mat(rows_view(aij@)) == block_of(
                                up_h, ri0, ri1, cj0, cj1,
                            ));
                            lemma_lift_mat_dims(aij@);
                        }
                        let ghost dpre = distance@;
                        write_back_to_distance(&mut distance, &aij, i * block_size, j2 * block_size);
                        proof {
                            lemma_lift_mat_dims(distance@);
                            assert forall|r: int, c: int|
                                0 <= r < nn && 0 <= c < nn implies #[trigger] lift_mat(
                                rows_view(distance@),
                            )[r][c] == (if staged_done(
                                lov, hiv, nn, i as int * block_size as int, ri0, ri1,
                                (j2 + 1) as int * block_size as int, false, r, c,
                            ) {
                                up_h[r][c]
                            } else {
                                up_l[r][c]
                            }) by {
                                crate::minplus::lemma_lift_mat_index(distance@, r, c);
                                crate::minplus::lemma_lift_mat_index(dpre, r, c);
                                if ri0 <= r < ri1 && cj0 <= c < cj1 {
                                    assert(distance@[ri0 + (r - ri0)]@[cj0 + (c - cj0)] == aij@[
                                        r - ri0
                                    ]@[c - cj0]);
                                    assert(distance@[r]@[c] == aij@[r - ri0]@[c - cj0]);
                                    crate::minplus::lemma_lift_mat_index(aij@, r - ri0, c - cj0);
                                    assert(lift_cell(aij@[r - ri0]@[c - cj0]) == block_of(
                                        up_h, ri0, ri1, cj0, cj1,
                                    )[r - ri0][c - cj0]);
                                } else {
                                    assert(distance@[r]@[c] == dpre[r]@[c]);
                                }
                            }
                            assert(staged(
                                lift_mat(rows_view(distance@)), g, lov, hiv, nn,
                                i as int * block_size as int, ri0, ri1,
                                (j2 + 1) as int * block_size as int, false,
                            ));
                        }
                    } else {
                        proof {
                            assert(staged(
                                lift_mat(rows_view(distance@)), g, lov, hiv, nn,
                                i as int * block_size as int, ri0, ri1,
                                (j2 + 1) as int * block_size as int, false,
                            )) by {
                                assert forall|r: int, c: int|
                                    0 <= r < nn && 0 <= c < nn && #[trigger] staged_done(
                                        lov, hiv, nn, i as int * block_size as int, ri0, ri1,
                                        (j2 + 1) as int * block_size as int, false, r, c,
                                    ) implies staged_done(
                                    lov, hiv, nn, i as int * block_size as int, ri0, ri1,
                                    j2 as int * block_size as int, false, r, c,
                                ) by {
                                    if !(lov <= c < hiv) && c < (j2 + 1) as int
                                        * block_size as int {
                                        assert(!(j2 as int * block_size as int <= c < (j2
                                            + 1) as int * block_size as int));
                                    }
                                }
                            }
                        }
                    }
                    j2 = j2 + 1;
                }
                let ghost dpre = distance@;
                write_back_to_distance(&mut distance, &aik, i * block_size, lo);
                proof {
                    lemma_lift_mat_dims(distance@);
                    assert forall|r: int, c: int|
                        0 <= r < nn && 0 <= c < nn implies #[trigger] lift_mat(
                        rows_view(distance@),
                    )[r][c] == (if staged_done(
                        lov, hiv, nn, (i + 1) as int * block_size as int, 0, 0, 0, false, r, c,
                    ) {
                        up_h[r][c]
                    } else {
                        up_l[r][c]
                    }) by {
                        crate::minplus::lemma_lift_mat_index(distance@, r, c);
                        crate::minplus::lemma_lift_mat_index(dpre, r, c);
                        if ri0 <= r < ri1 && lov <= c < hiv {
                            assert(distance@[ri0 + (r - ri0)]@[lov + (c - lov)] == aik@[
                                r - ri0
                            ]@[c - lov]);
                            assert(distance@[r]@[c] == aik@[r - ri0]@[c - lov]);
                            crate::minplus::lemma_lift_mat_index(aik@, r - ri0, c - lov);
                            assert(lift_cell(aik@[r - ri0]@[c - lov]) == block_of(
                                up_h, ri0, ri1, lov, hiv,
                            )[r - ri0][c - lov]);
                        } else {
                            assert(distance@[r]@[c] == dpre[r]@[c]);
                            assert(staged_done(
                                lov, hiv, nn, i as int * block_size as int, ri0, ri1,
                                nn, false, r, c,
                            ) == staged_done(
                                lov, hiv, nn, (i + 1) as int * block_size as int,
                                0, 0, 0, false, r, c,
                            ));
                        }
                    }
                    assert(staged(
                        lift_mat(rows_view(distance@)), g, lov, hiv, nn,
                        (i + 1) as int * block_size as int, 0, 0, 0, false,
                    ));
                }
            } else {
                proof {
                    assert(staged(
                        lift_mat(rows_view(distance@)), g, lov, hiv, nn,
                        (i + 1) as int * block_size as int, 0, 0, 0, false,
                    )) by {
                        assert forall|r: int, c: int|
                            0 <= r < nn && 0 <= c < nn && #[trigger] staged_done(
                                lov, hiv, nn, (i + 1) as int * block_size as int,
                                0, 0, 0, false, r, c,
                            ) implies staged_done(
                            lov, hiv, nn, i as int * block_size as int, 0, 0, 0, false, r, c,
                        ) by {
                            if !(lov <= r < hiv) && r < (i + 1) as int * block_size as int {
                                assert(!(i as int * block_size as int <= r < (i + 1) as int
                                    * block_size as int));
                            }
                        }
                    }
                }
            }
            i = i + 1;
        }
        let ghost dpre = distance@;
        write_back_to_distance(&mut distance, &akk, lo, lo);
        proof {
            lemma_lift_mat_dims(distance@);
            assert forall|r: int, c: int|
                0 <= r < nn && 0 <= c < nn implies #[trigger] lift_mat(
                rows_view(distance@),
            )[r][c] == up_h[r][c] by {
                crate::minplus::lemma_lift_mat_index(distance@, r, c);
                crate::minplus::lemma_lift_mat_index(dpre, r, c);
                if lov <= r < hiv && lov <= c < hiv {
                    assert(distance@[lov + (r - lov)]@[lov + (c - lov)] == akk@[
                        r - lov
                    ]@[c - lov]);
                    assert(distance@[r]@[c] == akk@[r - lov]@[c - lov]);
                    crate::minplus::lemma_lift_mat_index(akk@, r - lov, c - lov);
                    assert(lift_cell(akk@[r - lov]@[c - lov]) == block_of(
                        up_h, lov, hiv, lov, hiv,
                    )[r - lov][c - lov]);
                } else {
                    assert(distance@[r]@[c] == dpre[r]@[c]);
                    assert(staged_done(
                        lov, hiv, nn, blocks as int * block_size as int, 0, 0, 0, false, r, c,
                    ));
                }
            }
            assert(lift_mat(rows_view(distance@)) =~~= up_h);
            assert(imin((k + 1) as int * block_size as int, nn) == hiv);
        }
        k = k + 1;
    }
    proof {
        assert(imin(blocks as int * block_size as int, nn) == nn);
        assert(lift_mat(rows_view(distance@)) == shortest_mat(g));
    }
    distance
}

/// The block-decomposed engine behind the uniform interface.
pub struct FloydWarshallBlock {
    pub graph: GraphAM,
    pub shortest_paths: Vec<Vec<Option<u64>>>,
    pub num_blocks: usize,
}

impl FloydWarshallBlock {
    /// An engine that will cut the matrix into `blocks` block rows.
    pub fn new(blocks: usize) -> (r: Self)
        requires
            blocks >= 1,
        ensures
            r.graph_ok(),
            r.graph_view().len() == 0,
            r.result_view().len() == 0,
            r.num_blocks == blocks,
    {
        FloydWarshallBlock { graph: GraphAM::new(), shortest_paths: Vec::new(), num_blocks: blocks }
    }
}

impl APSPAlgorithm for FloydWarshallBlock {
    open spec fn graph_view(&self) -> Matrix {
        self.graph.mat()
    }

    open spec fn result_view(&self) -> Matrix {
        rows_view(self.shortest_paths@)
    }

    open spec fn graph_ok(&self) -> bool {
        self.graph.wf() && self.graph.weights_fit() && self.num_blocks >= 1
    }

    fn load_graph(&mut self, graph: &GraphAM) {
        self.graph = graph.duplicate();
    }

    fn execute(&mut self) {
        self.shortest_paths = floyd_warshall_blocked(&self.graph, self.num_blocks);
        proof {
            lemma_rows_view_square(self.shortest_paths@, self.graph.node_count as nat);
        }
    }

    fn get_result(&mut self) -> (r: APSPResult) {
        collect_result(&self.shortest_paths)
    }
}

} // verus!

