//! The shortest-distance matrix that every engine must produce.
//!
//! `shortest_upto(g, k)` is the matrix of least walk costs when only nodes
//! below `k` may appear in a walk's interior, defined by one relaxation pass
//! per admitted pivot. `shortest_mat(g)` admits every node and is therefore
//! the all-pairs shortest-distance matrix; the characterization lemmas here
//! prove that each entry really is the minimum cost over all walks.

use vstd::prelude::*;
use crate::minplus::{
    dist_ok, dist_square, lemma_mp_add_mono, lemma_mp_le_trans, lemma_mp_min_le, lift_cell,
    mp_add, mp_le, mp_min, square, weights_bounded, DistMatrix, Matrix, MAX_NODE_COUNT,
    MAX_WEIGHT,
};
use crate::walks::{
    concat_walks, edge_weight, first_at, has_edge, interior_below, is_walk, last_at,
    lemma_first_at, lemma_last_at, lemma_walk_concat, lemma_walk_cost_bound,
    lemma_walk_cost_nonneg, lemma_walk_len_bound, lemma_walk_simplify, lemma_walk_split,
    route, simplified_of, walk_cost,
};

verus! {

/// The distances before any relaxation: zero on the diagonal, the edge
/// weight elsewhere.
pub open spec fn init_mat(g: Matrix) -> DistMatrix {
    Seq::new(
        g.len(),
        |i: int| Seq::new(g.len(), |j: int| if i == j { Some(0int) } else { lift_cell(g[i][j]) }),
    )
}

/// One relaxation pass: allow walks to route through node `k`.
pub open spec fn relax_step(d: DistMatrix, k: int) -> DistMatrix {
    Seq::new(
        d.len(),
        |i: int| Seq::new(d.len(), |j: int| mp_min(d[i][j], mp_add(d[i][k], d[k][j]))),
    )
}

/// Least walk costs when only nodes below `k` may be interior.
pub open spec fn shortest_upto(g: Matrix, k: nat) -> DistMatrix
    decreases k,
{
    if k == 0 {
        init_mat(g)
    } else {
        relax_step(shortest_upto(g, (k - 1) as nat), k - 1)
    }
}

/// The all-pairs shortest-distance matrix of `g`.
pub open spec fn shortest_mat(g: Matrix) -> DistMatrix {
    shortest_upto(g, g.len())
}

pub proof fn lemma_shortest_upto_square(g: Matrix, k: nat)
    ensures
        dist_square(shortest_upto(g, k), g.len()),
    decreases k,
{
    if k > 0 {
        lemma_shortest_upto_square(g, (k - 1) as nat);
    }
}

/// Every finite entry of `shortest_upto` is achieved by a fitting walk.
pub proof fn lemma_shortest_upto_sound(g: Matrix, k: nat, i: int, j: int)
    requires
        square(g, g.len()),
        0 <= i < g.len(),
        0 <= j < g.len(),
        k <= g.len(),
    ensures
        shortest_upto(g, k)[i][j] matches Some(c) ==> exists|p: Seq<int>|
            #[trigger] route(g, p, i, j, k as int) && walk_cost(g, p) == c,
    decreases k,
{
    lemma_shortest_upto_square(g, k);
    if k == 0 {
        if i == j {
            let p = seq![i];
            assert(shortest_upto(g, k)[i][j] == Some(0int));
            assert(route(g, p, i, j, 0) && walk_cost(g, p) == 0);
        } else {
            match g[i][j] {
                Some(w) => {
                    let p = seq![i, j];
                    assert(p[0] == i && p[1] == j);
                    assert(has_edge(g, p[0], p[1]));
                    assert(is_walk(g, p));
                    assert(p.drop_first() =~= seq![j]);
                    assert(walk_cost(g, seq![j]) == 0);
                    assert(edge_weight(g, i, j) == w as int);
                    assert(walk_cost(g, p) == w as int);
                    assert(shortest_upto(g, k)[i][j] == Some(w as int));
                    assert(route(g, p, i, j, 0) && walk_cost(g, p) == w as int);
                },
                None => {
                    assert(shortest_upto(g, k)[i][j] is None);
                },
            }
        }
    } else {
        let kk = k - 1;
        let d = shortest_upto(g, (k - 1) as nat);
        lemma_shortest_upto_square(g, (k - 1) as nat);
        lemma_shortest_upto_sound(g, (k - 1) as nat, i, j);
        lemma_shortest_upto_sound(g, (k - 1) as nat, i, kk);
        lemma_shortest_upto_sound(g, (k - 1) as nat, kk, j);
        let v = shortest_upto(g, k)[i][j];
        assert(v == mp_min(d[i][j], mp_add(d[i][kk], d[kk][j])));
        lemma_mp_min_le(d[i][j], mp_add(d[i][kk], d[kk][j]));
        match v {
            Some(c) => {
                if v == d[i][j] {
                    let p = choose|p: Seq<int>|
                        #[trigger] route(g, p, i, j, kk) && walk_cost(g, p) == c;
                    assert(interior_below(p, k as int));
                    assert(route(g, p, i, j, k as int) && walk_cost(g, p) == c);
                } else {
                    let c1 = d[i][kk]->Some_0;
                    let c2 = d[kk][j]->Some_0;
                    let p1 = choose|p: Seq<int>|
                        #[trigger] route(g, p, i, kk, kk) && walk_cost(g, p) == c1;
                    let p2 = choose|p: Seq<int>|
                        #[trigger] route(g, p, kk, j, kk) && walk_cost(g, p) == c2;
                    lemma_walk_concat(g, p1, p2);
                    let r = concat_walks(p1, p2);
                    assert(interior_below(p1, k as int));
                    assert(interior_below(p2, k as int));
                    assert(interior_below(r, k as int));
                    assert(route(g, r, i, j, k as int) && walk_cost(g, r) == c);
                }
            },
            None => {},
        }
    }
}

/// No fitting walk costs less than the matching `shortest_upto` entry.
pub proof fn lemma_shortest_upto_complete(g: Matrix, k: nat, i: int, j: int, p: Seq<int>)
    requires
        square(g, g.len()),
        0 <= i < g.len(),
        0 <= j < g.len(),
        k <= g.len(),
        route(g, p, i, j, k as int),
    ensures
        mp_le(shortest_upto(g, k)[i][j], Some(walk_cost(g, p))),
    decreases k,
{
    lemma_shortest_upto_square(g, k);
    if k == 0 {
        if p.len() == 1 {
            assert(i == j);
            assert(shortest_upto(g, k)[i][j] == Some(0int));
        } else if p.len() == 2 {
            assert(p[1] == p.last());
            let t0: int = 0;
            assert(has_edge(g, p[t0], p[t0 + 1]));
            assert(has_edge(g, i, j));
            let w = g[i][j]->Some_0;
            assert(p.drop_first() =~= seq![j]);
            assert(walk_cost(g, seq![j]) == 0);
            assert(edge_weight(g, i, j) == w as int);
            assert(walk_cost(g, p) == w as int);
            if i == j {
                assert(shortest_upto(g, k)[i][j] == Some(0int));
            } else {
                assert(shortest_upto(g, k)[i][j] == Some(w as int));
            }
        } else {
            assert(p[1] < 0);
            assert(false);
        }
    } else {
        let kk = k - 1;
        let d = shortest_upto(g, (k - 1) as nat);
        lemma_shortest_upto_square(g, (k - 1) as nat);
        let v = shortest_upto(g, k)[i][j];
        assert(v == mp_min(d[i][j], mp_add(d[i][kk], d[kk][j])));
        lemma_mp_min_le(d[i][j], mp_add(d[i][kk], d[kk][j]));
        if p.len() < 3 || !p.subrange(1, p.len() - 1).contains(kk) {
            assert(interior_below(p, kk)) by {
                assert forall|t: int| 0 < t < p.len() - 1 implies #[trigger] p[t] < kk by {
                    let inter = p.subrange(1, p.len() - 1);
                    assert(inter[t - 1] == p[t]);
                    assert(p[t] != kk);
                    assert(p[t] < k);
                }
            }
            lemma_shortest_upto_complete(g, (k - 1) as nat, i, j, p);
            lemma_mp_le_trans(v, d[i][j], Some(walk_cost(g, p)));
        } else {
            let inter = p.subrange(1, p.len() - 1);
            lemma_first_at(inter, kk);
            lemma_last_at(inter, kk);
            let t1 = 1 + first_at(inter, kk);
            let t2 = 1 + last_at(inter, kk);
            assert(inter[first_at(inter, kk)] == p[t1]);
            assert(inter[last_at(inter, kk)] == p[t2]);
            assert(p[t1] == kk);
            assert(p[t2] == kk);
            assert(1 <= t1 <= t2 <= p.len() - 2);
            lemma_walk_split(g, p, t2);
            let pre0 = p.subrange(0, t2 + 1);
            let suf = p.subrange(t2, p.len() as int);
            lemma_walk_split(g, pre0, t1);
            let pre = pre0.subrange(0, t1 + 1);
            assert(pre =~= p.subrange(0, t1 + 1));
            lemma_walk_cost_nonneg(g, pre0.subrange(t1, t2 + 1));
            let ci = walk_cost(g, pre);
            let cj = walk_cost(g, suf);
            assert(walk_cost(g, p) >= ci + cj);
            assert(pre.first() == i);
            assert(pre.last() == p[t1]);
            assert(suf.first() == kk);
            assert(suf.last() == j);
            assert(interior_below(pre, kk)) by {
                assert forall|t: int| 0 < t < pre.len() - 1 implies #[trigger] pre[t] < kk by {
                    assert(pre[t] == p[t]);
                    assert(inter[t - 1] == p[t]);
                    assert(t - 1 < first_at(inter, kk));
                    assert(p[t] != kk);
                    assert(p[t] < k);
                }
            }
            assert(interior_below(suf, kk)) by {
                assert forall|t: int| 0 < t < suf.len() - 1 implies #[trigger] suf[t] < kk by {
                    assert(suf[t] == p[t2 + t]);
                    assert(inter[t2 + t - 1] == p[t2 + t]);
                    assert(t2 + t - 1 > last_at(inter, kk));
                    assert(p[t2 + t] != kk);
                    assert(p[t2 + t] < k);
                }
            }
            assert(route(g, pre, i, kk, kk));
            assert(route(g, suf, kk, j, kk));
            lemma_shortest_upto_complete(g, (k - 1) as nat, i, kk, pre);
            lemma_shortest_upto_complete(g, (k - 1) as nat, kk, j, suf);
            lemma_mp_add_mono(d[i][kk], Some(ci), d[kk][j], Some(cj));
            lemma_mp_le_trans(v, mp_add(d[i][kk], d[kk][j]), Some(ci + cj));
            lemma_mp_le_trans(v, Some(ci + cj), Some(walk_cost(g, p)));
        }
    }
}

/// The self-distance of every node is exactly zero.
pub proof fn lemma_shortest_upto_diag(g: Matrix, k: nat, i: int)
    requires
        square(g, g.len()),
        0 <= i < g.len(),
        k <= g.len(),
    ensures
        shortest_upto(g, k)[i][i] == Some(0int),
{
    lemma_shortest_upto_square(g, k);
    let p = seq![i];
    assert(route(g, p, i, i, k as int));
    lemma_shortest_upto_complete(g, k, i, i, p);
    lemma_shortest_upto_sound(g, k, i, i);
    match shortest_upto(g, k)[i][i] {
        Some(c) => {
            let q = choose|q: Seq<int>|
                #[trigger] route(g, q, i, i, k as int) && walk_cost(g, q) == c;
            lemma_walk_cost_nonneg(g, q);
        },
        None => {
            assert(false);
        },
    }
}

/// Admitting more pivots never makes a distance worse.
pub proof fn lemma_shortest_upto_mono(g: Matrix, k1: nat, k2: nat, i: int, j: int)
    requires
        0 <= i < g.len(),
        0 <= j < g.len(),
        k1 <= k2,
    ensures
        mp_le(shortest_upto(g, k2)[i][j], shortest_upto(g, k1)[i][j]),
    decreases k2,
{
    lemma_shortest_upto_square(g, k2);
    if k2 > k1 {
        let d = shortest_upto(g, (k2 - 1) as nat);
        lemma_shortest_upto_square(g, (k2 - 1) as nat);
        lemma_shortest_upto_mono(g, k1, (k2 - 1) as nat, i, j);
        lemma_mp_min_le(d[i][j], mp_add(d[i][k2 - 1], d[k2 - 1][j]));
        lemma_mp_le_trans(shortest_upto(g, k2)[i][j], d[i][j], shortest_upto(g, k1)[i][j]);
    }
}

/// Finite shortest distances lie between 0 and `(n - 1) * MAX_WEIGHT`.
pub proof fn lemma_shortest_upto_bounded(g: Matrix, k: nat, i: int, j: int)
    requires
        square(g, g.len()),
        weights_bounded(g),
        0 <= i < g.len(),
        0 <= j < g.len(),
        k <= g.len(),
    ensures
        dist_ok(shortest_upto(g, k)[i][j], (g.len() - 1) * (MAX_WEIGHT as int)),
{
    lemma_shortest_upto_square(g, k);
    lemma_shortest_upto_sound(g, k, i, j);
    match shortest_upto(g, k)[i][j] {
        Some(c) => {
            let p = choose|p: Seq<int>|
                #[trigger] route(g, p, i, j, k as int) && walk_cost(g, p) == c;
            lemma_walk_cost_nonneg(g, p);
            lemma_walk_simplify(g, p);
            let q = choose|q: Seq<int>| #[trigger] simplified_of(g, q, p);
            lemma_walk_len_bound(g, q);
            lemma_walk_cost_bound(g, q);
            assert(route(g, q, i, j, k as int));
            lemma_shortest_upto_complete(g, k, i, j, q);
            assert(c <= walk_cost(g, q));
            assert((q.len() - 1) * (MAX_WEIGHT as int) <= (g.len() - 1) * (MAX_WEIGHT as int))
                by (nonlinear_arith)
                requires 1 <= q.len() <= g.len();
        },
        None => {},
    }
}

/// The triangle inequality, with any admitted node as the midpoint.
pub proof fn lemma_shortest_upto_triangle(g: Matrix, k: nat, i: int, mid: int, j: int)
    requires
        square(g, g.len()),
        0 <= i < g.len(),
        0 <= j < g.len(),
        0 <= mid < k <= g.len(),
    ensures
        mp_le(
            shortest_upto(g, k)[i][j],
            mp_add(shortest_upto(g, k)[i][mid], shortest_upto(g, k)[mid][j]),
        ),
{
    lemma_shortest_upto_square(g, k);
    let a = shortest_upto(g, k)[i][mid];
    let b = shortest_upto(g, k)[mid][j];
    lemma_shortest_upto_sound(g, k, i, mid);
    lemma_shortest_upto_sound(g, k, mid, j);
    match (a, b) {
        (Some(ca), Some(cb)) => {
            let p1 = choose|p: Seq<int>|
                #[trigger] route(g, p, i, mid, k as int) && walk_cost(g, p) == ca;
            let p2 = choose|p: Seq<int>|
                #[trigger] route(g, p, mid, j, k as int) && walk_cost(g, p) == cb;
            lemma_walk_concat(g, p1, p2);
            let r = concat_walks(p1, p2);
            assert(interior_below(r, k as int));
            assert(route(g, r, i, j, k as int));
            lemma_shortest_upto_complete(g, k, i, j, r);
        },
        _ => {},
    }
}

/// The triangle inequality over the full shortest-distance matrix: going
/// through any midpoint can never beat the direct shortest distance.
pub proof fn lemma_shortest_triangle(g: Matrix, i: int, mid: int, j: int)
    requires
        square(g, g.len()),
        0 <= i < g.len(),
        0 <= j < g.len(),
        0 <= mid < g.len(),
    ensures
        mp_le(shortest_mat(g)[i][j], mp_add(shortest_mat(g)[i][mid], shortest_mat(g)[mid][j])),
{
    lemma_shortest_upto_triangle(g, g.len(), i, mid, j);
}

/// A single edge is itself a walk, so the shortest distance never exceeds
/// the direct edge weight.
pub proof fn lemma_shortest_edge(g: Matrix, u: int, v: int)
    requires
        square(g, g.len()),
        0 <= u < g.len(),
        0 <= v < g.len(),
    ensures
        mp_le(shortest_mat(g)[u][v], lift_cell(g[u][v])),
{
    lemma_shortest_upto_square(g, g.len());
    match g[u][v] {
        Some(w) => {
            let p = seq![u, v];
            assert(p[0] == u && p[1] == v);
            assert(has_edge(g, p[0], p[1]));
            assert(is_walk(g, p));
            assert(p.drop_first() =~= seq![v]);
            assert(walk_cost(g, seq![v]) == 0);
            assert(edge_weight(g, u, v) == w as int);
            assert(walk_cost(g, p) == w as int);
            assert(route(g, p, u, v, g.len() as int));
            lemma_shortest_upto_complete(g, g.len(), u, v, p);
        },
        None => {},
    }
}

/// Every node's shortest distance to itself is zero.
pub proof fn lemma_shortest_diag(g: Matrix, i: int)
    requires
        square(g, g.len()),
        0 <= i < g.len(),
    ensures
        shortest_mat(g)[i][i] == Some(0int),
{
    lemma_shortest_upto_diag(g, g.len(), i);
}

/// For an undirected graph the shortest-distance matrix is symmetric.
pub proof fn lemma_shortest_symmetric(g: Matrix, i: int, j: int)
    requires
        square(g, g.len()),
        crate::walks::symmetric(g),
        0 <= i < g.len(),
        0 <= j < g.len(),
    ensures
        shortest_mat(g)[i][j] == shortest_mat(g)[j][i],
{
    lemma_shortest_upto_square(g, g.len());
    lemma_shortest_one_way(g, i, j);
    lemma_shortest_one_way(g, j, i);
    lemma_mp_le_trans(
        shortest_mat(g)[i][j],
        shortest_mat(g)[j][i],
        shortest_mat(g)[i][j],
    );
    crate::minplus::lemma_mp_le_antisym(shortest_mat(g)[i][j], shortest_mat(g)[j][i]);
}

/// One direction of the symmetry argument: reversing a witness walk shows
/// the reverse distance is no worse.
proof fn lemma_shortest_one_way(g: Matrix, i: int, j: int)
    requires
        square(g, g.len()),
        crate::walks::symmetric(g),
        0 <= i < g.len(),
        0 <= j < g.len(),
    ensures
        mp_le(shortest_mat(g)[j][i], shortest_mat(g)[i][j]),
{
    lemma_shortest_upto_square(g, g.len());
    lemma_shortest_upto_sound(g, g.len(), i, j);
    match shortest_mat(g)[i][j] {
        Some(c) => {
            let p = choose|p: Seq<int>|
                #[trigger] route(g, p, i, j, g.len() as int) && walk_cost(g, p) == c;
            crate::walks::lemma_walk_reverse(g, p);
            assert(route(g, p.reverse(), j, i, g.len() as int));
            lemma_shortest_upto_complete(g, g.len(), j, i, p.reverse());
        },
        None => {},
    }
}

/// Finite entries of shortest-distance matrices fit comfortably in `u64`:
/// they are at most `(MAX_NODE_COUNT - 1) * MAX_WEIGHT < 2^62`.
pub proof fn lemma_shortest_upto_fits(g: Matrix, k: nat, i: int, j: int)
    requires
        square(g, g.len()),
        weights_bounded(g),
        g.len() <= MAX_NODE_COUNT,
        0 <= i < g.len(),
        0 <= j < g.len(),
        k <= g.len(),
    ensures
        dist_ok(shortest_upto(g, k)[i][j], 0x4000_0000_0000_0000),
{
    lemma_shortest_upto_bounded(g, k, i, j);
    assert((g.len() - 1) * (MAX_WEIGHT as int) <= 0x4000_0000_0000_0000) by (nonlinear_arith)
        requires g.len() <= 0x8000_0000;
}

} // verus!
