//! Walks through a weighted adjacency matrix and their costs.
//!
//! A walk is a non-empty sequence of node indices in which consecutive nodes
//! are joined by edges; its cost is the sum of those edge weights. Shortest
//! distances are characterized as minima over walks, so the engines' proofs
//! all rest on the lemmas here: costs are non-negative and bounded, walks
//! concatenate and split, and every walk simplifies to one without repeated
//! nodes that costs no more.

use vstd::prelude::*;
use vstd::set_lib::{lemma_int_range, lemma_len_subset, set_int_range};
use crate::minplus::{weights_bounded, Matrix, MAX_WEIGHT};

verus! {

/// There is an edge from `u` to `v`.
pub open spec fn has_edge(g: Matrix, u: int, v: int) -> bool {
    g[u][v] is Some
}

/// The weight of the edge from `u` to `v`, or 0 where there is none.
pub open spec fn edge_weight(g: Matrix, u: int, v: int) -> int {
    match g[u][v] {
        Some(w) => w as int,
        None => 0,
    }
}

/// `p` is a walk: non-empty, all nodes in range, consecutive nodes joined.
pub open spec fn is_walk(g: Matrix, p: Seq<int>) -> bool {
    &&& p.len() >= 1
    &&& forall|t: int| 0 <= t < p.len() ==> 0 <= #[trigger] p[t] < g.len()
    &&& forall|t: int| 0 <= t < p.len() - 1 ==> #[trigger] has_edge(g, p[t], p[t + 1])
}

/// The cost of a walk: the sum of the weights along it.
pub open spec fn walk_cost(g: Matrix, p: Seq<int>) -> int
    decreases p.len(),
{
    if p.len() <= 1 {
        0
    } else {
        edge_weight(g, p[0], p[1]) + walk_cost(g, p.drop_first())
    }
}

/// Every interior node of `p` (all but the two endpoints) is below `k`.
pub open spec fn interior_below(p: Seq<int>, k: int) -> bool {
    forall|t: int| 0 < t < p.len() - 1 ==> #[trigger] p[t] < k
}

/// `p` is a walk from `i` to `j` whose interior nodes are all below `k`.
pub open spec fn route(g: Matrix, p: Seq<int>, i: int, j: int, k: int) -> bool {
    &&& is_walk(g, p)
    &&& p.first() == i
    &&& p.last() == j
    &&& interior_below(p, k)
}

/// Join two walks that share an endpoint, keeping that node once.
pub open spec fn concat_walks(p: Seq<int>, q: Seq<int>) -> Seq<int> {
    p + q.drop_first()
}

pub proof fn lemma_walk_cost_nonneg(g: Matrix, p: Seq<int>)
    ensures
        walk_cost(g, p) >= 0,
    decreases p.len(),
{
    if p.len() > 1 {
        lemma_walk_cost_nonneg(g, p.drop_first());
    }
}

pub proof fn lemma_walk_drop_first(g: Matrix, p: Seq<int>)
    requires
        is_walk(g, p),
        p.len() >= 2,
    ensures
        is_walk(g, p.drop_first()),
{
    let d = p.drop_first();
    assert forall|t: int| 0 <= t < d.len() - 1 implies #[trigger] has_edge(g, d[t], d[t + 1]) by {
        assert(d[t] == p[t + 1]);
        assert(d[t + 1] == p[t + 2]);
        assert(has_edge(g, p[t + 1], p[t + 2]));
    }
}

pub proof fn lemma_walk_cost_bound(g: Matrix, p: Seq<int>)
    requires
        is_walk(g, p),
        weights_bounded(g),
        crate::minplus::square(g, g.len()),
    ensures
        walk_cost(g, p) <= (p.len() - 1) * (MAX_WEIGHT as int),
    decreases p.len(),
{
    let mw = MAX_WEIGHT as int;
    if p.len() <= 1 {
    } else {
        lemma_walk_drop_first(g, p);
        lemma_walk_cost_bound(g, p.drop_first());
        assert(has_edge(g, p[0], p[1]));
        assert(g[p[0]].len() == g.len());
        assert(edge_weight(g, p[0], p[1]) <= mw);
        assert((p.len() - 1) * mw == mw + (p.len() - 2) * mw) by (nonlinear_arith);
    }
}

pub proof fn lemma_walk_cost_concat(g: Matrix, p: Seq<int>, q: Seq<int>)
    requires
        p.len() >= 1,
        q.len() >= 1,
        p.last() == q.first(),
    ensures
        walk_cost(g, concat_walks(p, q)) == walk_cost(g, p) + walk_cost(g, q),
    decreases p.len(),
{
    let r = concat_walks(p, q);
    if p.len() == 1 {
        assert(r =~= q);
    } else {
        lemma_walk_cost_concat(g, p.drop_first(), q);
        assert(r.drop_first() =~= concat_walks(p.drop_first(), q));
        assert(r[0] == p[0]);
        assert(r[1] == p[1]);
    }
}

/// Concatenating two walks with a shared endpoint yields a walk; its interior
/// stays below any bound that covers both interiors and, when the junction
/// node becomes interior, the junction as well.
pub proof fn lemma_walk_concat(g: Matrix, p: Seq<int>, q: Seq<int>)
    requires
        is_walk(g, p),
        is_walk(g, q),
        p.last() == q.first(),
    ensures
        is_walk(g, concat_walks(p, q)),
        concat_walks(p, q).len() == p.len() + q.len() - 1,
        concat_walks(p, q).first() == p.first(),
        concat_walks(p, q).last() == q.last(),
        walk_cost(g, concat_walks(p, q)) == walk_cost(g, p) + walk_cost(g, q),
        forall|b: int|
            interior_below(p, b) && interior_below(q, b) && (p.len() == 1 || q.len() == 1
                || p.last() < b) ==> #[trigger] interior_below(concat_walks(p, q), b),
{
    let r = concat_walks(p, q);
    lemma_walk_cost_concat(g, p, q);
    assert(r.last() == q.last()) by {
        if q.len() == 1 {
            assert(r =~= p);
        } else {
            assert(r[r.len() - 1] == q[q.len() - 1]);
        }
    }
    assert forall|t: int| 0 <= t < r.len() implies 0 <= #[trigger] r[t] < g.len() by {
        if t < p.len() {
            assert(r[t] == p[t]);
        } else {
            assert(r[t] == q[t - p.len() + 1]);
        }
    }
    assert forall|t: int| 0 <= t < r.len() - 1 implies #[trigger] has_edge(g, r[t], r[t + 1]) by {
        if t + 1 < p.len() {
            assert(r[t] == p[t]);
            assert(r[t + 1] == p[t + 1]);
            assert(has_edge(g, p[t], p[t + 1]));
        } else if t + 1 == p.len() {
            assert(r[t] == p[t]);
            assert(p[t] == p.last());
            assert(r[t + 1] == q[1]);
            assert(has_edge(g, q[0], q[1]));
        } else {
            assert(r[t] == q[t - p.len() + 1]);
            assert(r[t + 1] == q[t - p.len() + 2]);
            assert(has_edge(g, q[t - p.len() + 1], q[t - p.len() + 2]));
        }
    }
    assert forall|b: int|
        interior_below(p, b) && interior_below(q, b) && (p.len() == 1 || q.len() == 1
            || p.last() < b) implies #[trigger] interior_below(concat_walks(p, q), b) by {
        if p.len() == 1 {
            assert(r =~= q);
        } else if q.len() == 1 {
            assert(r =~= p);
        } else {
            assert forall|t: int| 0 < t < r.len() - 1 implies #[trigger] r[t] < b by {
                if t < p.len() - 1 {
                    assert(r[t] == p[t]);
                } else if t == p.len() - 1 {
                    assert(r[t] == p[t]);
                    assert(p[t] == p.last());
                } else {
                    assert(r[t] == q[t - p.len() + 1]);
                    assert(0 < t - p.len() + 1 < q.len() - 1);
                }
            }
        }
    }
}

/// Splitting a walk at position `t` yields two walks whose costs sum to the
/// whole walk's cost.
pub proof fn lemma_walk_cost_split(g: Matrix, p: Seq<int>, t: int)
    requires
        0 <= t < p.len(),
    ensures
        walk_cost(g, p) == walk_cost(g, p.subrange(0, t + 1)) + walk_cost(
            g,
            p.subrange(t, p.len() as int),
        ),
    decreases t,
{
    if t == 0 {
        assert(p.subrange(0, 1).len() == 1);
        assert(p.subrange(0, p.len() as int) =~= p);
    } else {
        let d = p.drop_first();
        lemma_walk_cost_split(g, d, t - 1);
        let pre = p.subrange(0, t + 1);
        assert(pre.drop_first() =~= d.subrange(0, t));
        assert(p.subrange(t, p.len() as int) =~= d.subrange(t - 1, d.len() as int));
        assert(pre[0] == p[0]);
        assert(pre[1] == p[1]);
    }
}

pub proof fn lemma_walk_split(g: Matrix, p: Seq<int>, t: int)
    requires
        is_walk(g, p),
        0 <= t < p.len(),
    ensures
        is_walk(g, p.subrange(0, t + 1)),
        is_walk(g, p.subrange(t, p.len() as int)),
        p.subrange(0, t + 1).first() == p.first(),
        p.subrange(0, t + 1).last() == p[t],
        p.subrange(t, p.len() as int).first() == p[t],
        p.subrange(t, p.len() as int).last() == p.last(),
        walk_cost(g, p) == walk_cost(g, p.subrange(0, t + 1)) + walk_cost(
            g,
            p.subrange(t, p.len() as int),
        ),
{
    lemma_walk_cost_split(g, p, t);
    let pre = p.subrange(0, t + 1);
    let suf = p.subrange(t, p.len() as int);
    assert forall|s: int| 0 <= s < pre.len() - 1 implies #[trigger] has_edge(g, pre[s], pre[s + 1]) by {
        assert(pre[s] == p[s]);
        assert(pre[s + 1] == p[s + 1]);
        assert(has_edge(g, p[s], p[s + 1]));
    }
    assert forall|s: int| 0 <= s < suf.len() - 1 implies #[trigger] has_edge(g, suf[s], suf[s + 1]) by {
        assert(suf[s] == p[t + s]);
        assert(suf[s + 1] == p[t + s + 1]);
        assert(has_edge(g, p[t + s], p[t + s + 1]));
    }
}

/// A walk's cost is the cost up to its second-to-last node plus the final
/// edge's weight.
pub proof fn lemma_walk_cost_drop_last(g: Matrix, p: Seq<int>)
    requires
        p.len() >= 2,
    ensures
        walk_cost(g, p) == walk_cost(g, p.drop_last()) + edge_weight(
            g,
            p[p.len() - 2],
            p[p.len() - 1],
        ),
{
    lemma_walk_cost_split(g, p, p.len() - 2);
    let tail = p.subrange(p.len() - 2, p.len() as int);
    assert(tail.len() == 2);
    assert(tail.drop_first() =~= seq![p[p.len() - 1]]);
    assert(walk_cost(g, tail.drop_first()) == 0);
    assert(tail[0] == p[p.len() - 2]);
    assert(tail[1] == p[p.len() - 1]);
    assert(p.drop_last() =~= p.subrange(0, p.len() - 1));
}

/// Dropping the last node of a walk leaves a walk.
pub proof fn lemma_walk_drop_last(g: Matrix, p: Seq<int>)
    requires
        is_walk(g, p),
        p.len() >= 2,
    ensures
        is_walk(g, p.drop_last()),
{
    let d = p.drop_last();
    assert forall|t: int| 0 <= t < d.len() - 1 implies #[trigger] has_edge(g, d[t], d[t + 1]) by {
        assert(d[t] == p[t]);
        assert(d[t + 1] == p[t + 1]);
        assert(has_edge(g, p[t], p[t + 1]));
    }
}

/// Every edge has a mirror of the same weight: the graph is undirected.
pub open spec fn symmetric(g: Matrix) -> bool {
    forall|i: int, j: int| 0 <= i < g.len() && 0 <= j < g.len() ==> #[trigger] g[i][j] == g[j][i]
}

/// In an undirected graph, reversing a walk yields a walk of equal cost
/// between the swapped endpoints, with the same interior bound.
pub proof fn lemma_walk_reverse(g: Matrix, p: Seq<int>)
    requires
        is_walk(g, p),
        symmetric(g),
    ensures
        is_walk(g, p.reverse()),
        p.reverse().first() == p.last(),
        p.reverse().last() == p.first(),
        walk_cost(g, p.reverse()) == walk_cost(g, p),
        forall|b: int| #[trigger] interior_below(p, b) ==> interior_below(p.reverse(), b),
    decreases p.len(),
{
    let rp = p.reverse();
    assert forall|t: int| 0 <= t < rp.len() implies 0 <= #[trigger] rp[t] < g.len() by {
        assert(rp[t] == p[p.len() - 1 - t]);
    }
    assert forall|t: int| 0 <= t < rp.len() - 1 implies #[trigger] has_edge(g, rp[t], rp[t + 1]) by {
        assert(rp[t] == p[p.len() - 1 - t]);
        assert(rp[t + 1] == p[p.len() - 2 - t]);
        let s = p.len() - 2 - t;
        assert(has_edge(g, p[s], p[s + 1]));
        assert(g[p[s + 1]][p[s]] == g[p[s]][p[s + 1]]);
    }
    if p.len() >= 2 {
        lemma_walk_drop_last(g, p);
        lemma_walk_reverse(g, p.drop_last());
        assert(rp.drop_first() =~= p.drop_last().reverse());
        lemma_walk_cost_drop_last(g, p);
        assert(rp[0] == p[p.len() - 1]);
        assert(rp[1] == p[p.len() - 2]);
        assert(g[p[p.len() - 1]][p[p.len() - 2]] == g[p[p.len() - 2]][p[p.len() - 1]]);
        assert(edge_weight(g, rp[0], rp[1]) == edge_weight(g, p[p.len() - 2], p[p.len() - 1]));
        assert(walk_cost(g, rp) == edge_weight(g, rp[0], rp[1]) + walk_cost(g, rp.drop_first()));
    }
    assert forall|b: int| #[trigger] interior_below(p, b) implies interior_below(rp, b) by {
        assert forall|t: int| 0 < t < rp.len() - 1 implies #[trigger] rp[t] < b by {
            assert(rp[t] == p[p.len() - 1 - t]);
            assert(0 < p.len() - 1 - t < p.len() - 1);
        }
    }
}

/// The position of the first occurrence of `v` in `p`.
pub open spec fn first_at(p: Seq<int>, v: int) -> int
    decreases p.len(),
{
    if p.len() == 0 {
        0
    } else if p[0] == v {
        0
    } else {
        1 + first_at(p.drop_first(), v)
    }
}

/// The position of the last occurrence of `v` in `p`.
pub open spec fn last_at(p: Seq<int>, v: int) -> int
    decreases p.len(),
{
    if p.len() == 0 {
        0
    } else if p[p.len() - 1] == v {
        p.len() - 1
    } else {
        last_at(p.drop_last(), v)
    }
}

pub proof fn lemma_first_at(p: Seq<int>, v: int)
    requires
        p.contains(v),
    ensures
        0 <= first_at(p, v) < p.len(),
        p[first_at(p, v)] == v,
        forall|t: int| 0 <= t < first_at(p, v) ==> p[t] != v,
    decreases p.len(),
{
    if p.len() == 0 {
    } else if p[0] == v {
    } else {
        let d = p.drop_first();
        assert(d.contains(v)) by {
            let w = choose|w: int| 0 <= w < p.len() && p[w] == v;
            assert(d[w - 1] == v);
        }
        lemma_first_at(d, v);
        assert forall|t: int| 0 <= t < first_at(p, v) implies p[t] != v by {
            if t > 0 {
                assert(d[t - 1] == p[t]);
            }
        }
    }
}

pub proof fn lemma_last_at(p: Seq<int>, v: int)
    requires
        p.contains(v),
    ensures
        0 <= last_at(p, v) < p.len(),
        p[last_at(p, v)] == v,
        forall|t: int| last_at(p, v) < t < p.len() ==> p[t] != v,
    decreases p.len(),
{
    if p.len() == 0 {
    } else if p[p.len() - 1] == v {
    } else {
        let d = p.drop_last();
        assert(d.contains(v)) by {
            let w = choose|w: int| 0 <= w < p.len() && p[w] == v;
            assert(d[w] == v);
        }
        lemma_last_at(d, v);
        assert forall|t: int| last_at(p, v) < t < p.len() implies p[t] != v by {
            if t < p.len() - 1 {
                assert(d[t] == p[t]);
            }
        }
    }
}

/// `q` rewrites `p` as a duplicate-free walk with the same endpoints, cost
/// no greater, and interior within every bound that `p`'s interior respects.
pub open spec fn simplified_of(g: Matrix, q: Seq<int>, p: Seq<int>) -> bool {
    &&& is_walk(g, q)
    &&& q.first() == p.first()
    &&& q.last() == p.last()
    &&& q.no_duplicates()
    &&& walk_cost(g, q) <= walk_cost(g, p)
    &&& forall|b: int| #[trigger] interior_below(p, b) ==> interior_below(q, b)
}

/// Every walk admits a duplicate-free simplification.
pub proof fn lemma_walk_simplify(g: Matrix, p: Seq<int>)
    requires
        is_walk(g, p),
    ensures
        exists|q: Seq<int>| #[trigger] simplified_of(g, q, p),
    decreases p.len(),
{
    if p.no_duplicates() {
        assert(simplified_of(g, p, p));
    } else {
        let (x, y) = choose|x: int, y: int|
            0 <= x < p.len() && 0 <= y < p.len() && x != y && p[x] == p[y];
        let (i, j) = if x < y { (x, y) } else { (y, x) };
        let pre = p.subrange(0, i + 1);
        let suf = p.subrange(j, p.len() as int);
        lemma_walk_split(g, p, j);
        lemma_walk_split(g, p.subrange(0, j + 1), i);
        assert(pre =~= p.subrange(0, j + 1).subrange(0, i + 1));
        lemma_walk_cost_nonneg(g, p.subrange(0, j + 1).subrange(i, j + 1));
        assert(walk_cost(g, pre) + walk_cost(g, suf) <= walk_cost(g, p));
        assert(pre.last() == suf.first());
        lemma_walk_concat(g, pre, suf);
        let r = concat_walks(pre, suf);
        assert(r.len() < p.len());
        assert(walk_cost(g, r) <= walk_cost(g, p));
        assert forall|b: int| #[trigger] interior_below(p, b) implies interior_below(r, b) by {
            assert forall|t: int| 0 < t < r.len() - 1 implies #[trigger] r[t] < b by {
                if t < pre.len() {
                    assert(r[t] == p[t]);
                    assert(0 < t < p.len() - 1);
                } else {
                    assert(r[t] == suf[t - pre.len() + 1]);
                    assert(suf[t - pre.len() + 1] == p[j + t - pre.len() + 1]);
                    assert(0 < j + t - pre.len() + 1 < p.len() - 1);
                }
            }
        }
        lemma_walk_simplify(g, r);
        let q = choose|q: Seq<int>| #[trigger] simplified_of(g, q, r);
        assert(simplified_of(g, q, p));
    }
}

/// A duplicate-free walk visits at most as many nodes as the graph has.
pub proof fn lemma_walk_len_bound(g: Matrix, p: Seq<int>)
    requires
        is_walk(g, p),
        p.no_duplicates(),
    ensures
        p.len() <= g.len(),
{
    p.unique_seq_to_set();
    let range = set_int_range(0, g.len() as int);
    lemma_int_range(0, g.len() as int);
    assert(p.to_set().subset_of(range)) by {
        assert forall|v: int| p.to_set().contains(v) implies range.contains(v) by {
            assert(p.contains(v));
            let t = choose|t: int| 0 <= t < p.len() && p[t] == v;
            assert(0 <= p[t] < g.len());
        }
    }
    lemma_len_subset(p.to_set(), range);
}

} // verus!
