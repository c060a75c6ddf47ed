//! The single-source relaxation engine, run once per source node.
//!
//! Each source keeps a distance vector and a priority structure of
//! (weight, node) entries. The smallest pending weight is popped first;
//! entries made stale by a later improvement are discarded lazily. The
//! greedy argument is carried by a ghost set of settled nodes: a settled
//! node's distance is exact, and every walk that leaves the settled region
//! costs at least the recorded distance of its first node outside it.

use vstd::prelude::*;
use crate::base::{collect_result, APSPAlgorithm, APSPResult};
use crate::graph::GraphAM;
use crate::minplus::{
    lemma_lift_mat_index, lemma_mp_add_mono, lemma_mp_le_trans, lemma_rows_view_square,
    lift_cell, lift_mat, mp_add, mp_le, rows_view, square, vec_square, weights_bounded,
    Matrix, MAX_NODE_COUNT, MAX_WEIGHT,
};
use crate::shortest::{
    lemma_shortest_diag, lemma_shortest_edge, lemma_shortest_triangle,
    lemma_shortest_upto_bounded, lemma_shortest_upto_sound, lemma_shortest_upto_square,
    shortest_mat,
};
use crate::walks::{
    is_walk, lemma_walk_cost_drop_last, lemma_walk_cost_nonneg, lemma_walk_drop_last,
    lemma_walk_split, route, walk_cost,
};

verus! {

/// `e` occurs somewhere in the queue.
spec fn in_queue(q: Seq<(u64, usize)>, e: (u64, usize)) -> bool {
    exists|t: int| 0 <= t < q.len() && q[t] == e
}

/// A queue entry names a node in range and a weight no better than the
/// distance currently recorded for that node.
spec fn queue_entry_ok(dv: Seq<Option<u64>>, e: (u64, usize), n: int) -> bool {
    &&& (e.1 as int) < n
    &&& mp_le(lift_cell(dv[e.1 as int]), Some(e.0 as int))
}

/// If node `x` has a recorded distance, an entry carrying exactly that
/// distance is still pending in the queue.
spec fn pending_in_queue(q: Seq<(u64, usize)>, dv: Seq<Option<u64>>, x: int) -> bool {
    match dv[x] {
        Some(d) => in_queue(q, (d, x as usize)),
        None => true,
    }
}

/// A recorded distance is absent or at most `n * MAX_WEIGHT`.
spec fn dist_cell_ok(c: Option<u64>, n: int) -> bool {
    match c {
        Some(d) => d as int <= n * (MAX_WEIGHT as int),
        None => true,
    }
}

/// Every edge out of `x` has been relaxed against `x`'s recorded distance.
spec fn edges_relaxed(g: Matrix, dv: Seq<Option<u64>>, x: int) -> bool {
    forall|t: int|
        0 <= t < g.len() ==> mp_le(
            lift_cell(#[trigger] dv[t]),
            mp_add(lift_cell(dv[x]), lift_cell(g[x][t])),
        )
}

/// `p` starts at `i` and stays inside the settled set `ss` except possibly
/// at its final node.
spec fn s_walk(g: Matrix, p: Seq<int>, i: int, ss: Set<int>) -> bool {
    &&& is_walk(g, p)
    &&& p.first() == i
    &&& forall|t: int| 0 <= t < p.len() - 1 ==> ss.contains(#[trigger] p[t])
}

/// Ranking of a distance cell for termination: an absent distance ranks
/// above every recorded one.
spec fn pot(c: Option<u64>) -> int {
    match c {
        Some(x) => x as int,
        None => 0x7FFF_FFFF_FFFF_FFFF,
    }
}

/// Total ranking of a distance vector; it strictly drops on every improvement.
spec fn pot_sum(s: Seq<Option<u64>>) -> int
    decreases s.len(),
{
    if s.len() == 0 {
        0
    } else {
        pot(s[0]) + pot_sum(s.drop_first())
    }
}

proof fn lemma_pot_sum_nonneg(s: Seq<Option<u64>>)
    ensures
        pot_sum(s) >= 0,
    decreases s.len(),
{
    if s.len() > 0 {
        lemma_pot_sum_nonneg(s.drop_first());
    }
}

proof fn lemma_pot_sum_update(s: Seq<Option<u64>>, i: int, v: Option<u64>)
    requires
        0 <= i < s.len(),
    ensures
        pot_sum(s.update(i, v)) == pot_sum(s) - pot(s[i]) + pot(v),
    decreases s.len(),
{
    if i == 0 {
        assert(s.update(0, v).drop_first() =~= s.drop_first());
        assert(s.update(0, v)[0] == v);
    } else {
        assert(s.update(i, v).drop_first() =~= s.drop_first().update(i - 1, v));
        lemma_pot_sum_update(s.drop_first(), i - 1, v);
        assert(s.update(i, v)[0] == s[0]);
        assert(s.drop_first()[i - 1] == s[i]);
    }
}

/// Remove and return an entry carrying the smallest pending weight.
fn pop_min(q: &mut Vec<(u64, usize)>) -> (e: (u64, usize))
    requires
        old(q)@.len() > 0,
    ensures
        final(q)@.len() == old(q)@.len() - 1,
        in_queue(old(q)@, e),
        forall|t: int| 0 <= t < final(q)@.len() ==> in_queue(old(q)@, #[trigger] final(q)@[t]),
        forall|x: (u64, usize)| #[trigger] in_queue(old(q)@, x) ==> e.0 <= x.0,
        forall|x: (u64, usize)|
            x != e && #[trigger] in_queue(old(q)@, x) ==> in_queue(final(q)@, x),
{
    let mut best: usize = 0;
    let mut t: usize = 1;
    while t < q.len()
        invariant
            1 <= t <= q@.len(),
            best < t,
            forall|w: int| 0 <= w < t ==> q@[best as int].0 <= #[trigger] q@[w].0,
        decreases q@.len() - t,
    {
        if q[t].0 < q[best].0 {
            best = t;
        }
        t = t + 1;
    }
    let ghost q0 = q@;
    let e = q.swap_remove(best);
    proof {
        let len = q0.len() as int;
        assert(q@ == q0.update(best as int, q0.last()).drop_last());
        assert forall|t2: int| 0 <= t2 < q@.len() implies in_queue(q0, #[trigger] q@[t2]) by {
            if t2 == best as int {
                assert(q@[t2] == q0[len - 1]);
            } else {
                assert(q@[t2] == q0[t2]);
            }
        }
        assert forall|x: (u64, usize)| #[trigger] in_queue(q0, x) implies e.0 <= x.0 by {
            let w = choose|w: int| 0 <= w < q0.len() && q0[w] == x;
        }
        assert forall|x: (u64, usize)|
            x != e && #[trigger] in_queue(q0, x) implies in_queue(q@, x) by {
            let w = choose|w: int| 0 <= w < q0.len() && q0[w] == x;
            if w == best as int {
                assert(false);
            } else if w == len - 1 {
                assert(best as int != len - 1);
                assert(q@[best as int] == x);
            } else {
                assert(q@[w] == x);
            }
        }
    }
    e
}

/// Locate the first node of `p` that lies outside the settled set.
proof fn find_first_out(p: Seq<int>, ss: Set<int>) -> (idx: int)
    requires
        p.len() >= 1,
        !ss.contains(p[p.len() - 1]),
    ensures
        0 <= idx < p.len(),
        !ss.contains(p[idx]),
        forall|t: int| 0 <= t < idx ==> ss.contains(#[trigger] p[t]),
    decreases p.len(),
{
    if !ss.contains(p[0]) {
        0
    } else {
        let d = p.drop_first();
        assert(d[d.len() - 1] == p[p.len() - 1]);
        let sub = find_first_out(d, ss);
        assert(d[sub] == p[sub + 1]);
        assert forall|t: int| 0 <= t < sub + 1 implies ss.contains(#[trigger] p[t]) by {
            if t > 0 {
                assert(d[t - 1] == p[t]);
            }
        }
        sub + 1
    }
}

/// A walk that stays settled except at its end costs at least the distance
/// recorded for its final node, provided every settled node's edges have
/// been relaxed and the source records distance zero.
proof fn lemma_swalk_dominated(
    g: Matrix,
    dv: Seq<Option<u64>>,
    s: int,
    ss: Set<int>,
    p: Seq<int>,
)
    requires
        square(g, g.len()),
        dv.len() == g.len(),
        0 <= s < g.len(),
        dv[s] == Some(0u64),
        forall|x: int| #[trigger] ss.contains(x) ==> edges_relaxed(g, dv, x),
        s_walk(g, p, s, ss),
    ensures
        mp_le(lift_cell(dv[p.last()]), Some(walk_cost(g, p))),
    decreases p.len(),
{
    if p.len() == 1 {
        assert(p.last() == s);
    } else {
        let d = p.drop_last();
        let x = p[p.len() - 2];
        let last = p[p.len() - 1];
        lemma_walk_drop_last(g, p);
        assert(s_walk(g, d, s, ss)) by {
            assert(d[0] == p[0]);
            assert forall|t: int| 0 <= t < d.len() - 1 implies ss.contains(#[trigger] d[t]) by {
                assert(d[t] == p[t]);
            }
        }
        lemma_swalk_dominated(g, dv, s, ss, d);
        lemma_walk_cost_drop_last(g, p);
        assert(ss.contains(x));
        assert(edges_relaxed(g, dv, x));
        assert(mp_le(lift_cell(dv[last]), mp_add(lift_cell(dv[x]), lift_cell(g[x][last]))));
        let t0: int = p.len() - 2;
        assert(crate::walks::has_edge(g, p[t0], p[t0 + 1]));
        let ew = crate::walks::edge_weight(g, x, last);
        assert(lift_cell(g[x][last]) == Some(ew));
        assert(d.last() == x);
        lemma_mp_add_mono(
            lift_cell(dv[x]),
            Some(walk_cost(g, d)),
            lift_cell(g[x][last]),
            Some(ew),
        );
        lemma_mp_le_trans(
            lift_cell(dv[last]),
            mp_add(lift_cell(dv[x]), lift_cell(g[x][last])),
            Some(walk_cost(g, d) + ew),
        );
    }
}

/// Single-source relaxation: the shortest distance from `start_node` to
/// every node, or `None` where no walk exists.
pub fn dijkstra_single(
    node_count: usize,
    adjacency_matrix: &Vec<Vec<Option<u64>>>,
    start_node: usize,
) -> (distance: Vec<Option<u64>>)
    requires
        vec_square(adjacency_matrix@, node_count as nat),
        node_count <= MAX_NODE_COUNT,
        weights_bounded(rows_view(adjacency_matrix@)),
        start_node < node_count,
    ensures
        distance@.len() == node_count,
        forall|v: int|
            0 <= v < node_count ==> lift_cell(#[trigger] distance@[v]) == shortest_mat(
                rows_view(adjacency_matrix@),
            )[start_node as int][v],
{
    let ghost g = rows_view(adjacency_matrix@);
    let ghost s = start_node as int;
    let ghost nn = node_count as int;
    proof {
        lemma_rows_view_square(adjacency_matrix@, node_count as nat);
        lemma_shortest_upto_square(g, g.len());
        lemma_shortest_diag(g, s);
    }
    let ghost sm = shortest_mat(g);

    let mut distance: Vec<Option<u64>> = Vec::new();
    let mut t: usize = 0;
    while t < node_count
        invariant
            t <= node_count,
            distance@.len() == t,
            forall|v: int| 0 <= v < t ==> #[trigger] distance@[v] is None,
        decreases node_count - t,
    {
        distance.push(None);
        t = t + 1;
    }
    distance[start_node] = Some(0);

    let mut priority_queue: Vec<(u64, usize)> = Vec::new();
    priority_queue.push((0, start_node));

    let ghost mut settled: Set<int> = Set::empty();
    proof {
        assert(priority_queue@[0] == (0u64, start_node));
        assert(in_queue(priority_queue@, (0u64, start_node)));
    }

    while priority_queue.len() > 0
        invariant
            vec_square(adjacency_matrix@, node_count as nat),
            node_count <= MAX_NODE_COUNT,
            g == rows_view(adjacency_matrix@),
            weights_bounded(g),
            square(g, g.len()),
            g.len() == node_count,
            sm == shortest_mat(g),
            start_node < node_count,
            s == start_node as int,
            nn == node_count as int,
            distance@.len() == node_count,
            forall|v: int| 0 <= v < nn ==> mp_le(sm[s][v], lift_cell(#[trigger] distance@[v])),
            forall|v: int| 0 <= v < nn ==> dist_cell_ok(#[trigger] distance@[v], nn),
            distance@[s] == Some(0u64),
            forall|x: int| #[trigger]
                settled.contains(x) ==> 0 <= x < nn && lift_cell(distance@[x]) == sm[s][x],
            forall|x: int| #[trigger] settled.contains(x) ==> edges_relaxed(g, distance@, x),
            forall|t2: int|
                0 <= t2 < priority_queue@.len() ==> queue_entry_ok(
                    distance@,
                    #[trigger] priority_queue@[t2],
                    nn,
                ),
            forall|x: int|
                0 <= x < nn && !settled.contains(x) ==> #[trigger] pending_in_queue(
                    priority_queue@,
                    distance@,
                    x,
                ),
        decreases 2 * pot_sum(distance@) + priority_queue@.len(),
    {
        proof {
            lemma_pot_sum_nonneg(distance@);
        }
        let ghost q0 = priority_queue@;
        let ghost dv0 = distance@;
        let e = pop_min(&mut priority_queue);
        let current_weight = e.0;
        let current_node = e.1;
        proof {
            let w = choose|w: int| 0 <= w < q0.len() && q0[w] == e;
            assert(queue_entry_ok(dv0, e, nn));
            assert forall|t2: int|
                0 <= t2 < priority_queue@.len() implies queue_entry_ok(
                distance@,
                #[trigger] priority_queue@[t2],
                nn,
            ) by {
                assert(in_queue(q0, priority_queue@[t2]));
                let w2 = choose|w2: int| 0 <= w2 < q0.len() && q0[w2] == priority_queue@[t2];
                assert(queue_entry_ok(dv0, q0[w2], nn));
            }
        }
        let stale = match distance[current_node] {
            Some(check) => current_weight > check,
            None => false,
        };
        if stale {
            proof {
                assert forall|x: int|
                    0 <= x < nn && !settled.contains(x) implies #[trigger] pending_in_queue(
                    priority_queue@,
                    distance@,
                    x,
                ) by {
                    assert(pending_in_queue(q0, distance@, x));
                    match distance@[x] {
                        Some(d) => {
                            let old_entry = (d, x as usize);
                            if old_entry == e {
                                assert(false);
                            }
                            assert(in_queue(priority_queue@, old_entry));
                        },
                        None => {},
                    }
                }
            }
            continue;
        }
        // The popped entry is current: its weight equals the recorded
        // distance, and greedily that distance is already exact.
        proof {
            let v = current_node as int;
            assert(mp_le(lift_cell(distance@[v]), Some(current_weight as int)));
            assert(distance@[v] == Some(current_weight));
            if lift_cell(distance@[v]) != sm[s][v] {
                if settled.contains(v) {
                    assert(false);
                }
                assert(mp_le(sm[s][v], Some(current_weight as int)));
                match sm[s][v] {
                    Some(cstar) => {
                        assert(cstar < current_weight as int);
                        lemma_shortest_upto_sound(g, g.len(), s, v);
                        let p = choose|p: Seq<int>|
                            #[trigger] route(g, p, s, v, nn) && walk_cost(g, p) == cstar;
                        assert(p[p.len() - 1] == v);
                        let idx = find_first_out(p, settled);
                        let u = p[idx];
                        lemma_walk_split(g, p, idx);
                        let pre = p.subrange(0, idx + 1);
                        lemma_walk_cost_nonneg(g, p.subrange(idx, p.len() as int));
                        assert(s_walk(g, pre, s, settled)) by {
                            assert(pre[0] == p[0]);
                            assert forall|t2: int|
                                0 <= t2 < pre.len() - 1 implies settled.contains(
                                #[trigger] pre[t2],
                            ) by {
                                assert(pre[t2] == p[t2]);
                            }
                        }
                        lemma_swalk_dominated(g, distance@, s, settled, pre);
                        assert(pre.last() == u);
                        assert(mp_le(lift_cell(distance@[u]), Some(walk_cost(g, pre))));
                        assert(walk_cost(g, pre) <= cstar);
                        match distance@[u] {
                            Some(du) => {
                                assert(!settled.contains(u));
                                assert(pending_in_queue(q0, distance@, u));
                                assert(in_queue(q0, (du, u as usize)));
                                assert(current_weight <= du);
                                assert(du as int <= cstar);
                                assert(false);
                            },
                            None => {
                                assert(false);
                            },
                        }
                    },
                    None => {
                        assert(false);
                    },
                }
            }
            assert(sm[s][v] == Some(current_weight as int));
            assert forall|x: int|
                0 <= x < nn && !settled.contains(x) && x != current_node as int
                    implies #[trigger] pending_in_queue(priority_queue@, distance@, x) by {
                assert(pending_in_queue(q0, distance@, x));
                match distance@[x] {
                    Some(d) => {
                        let oe = (d, x as usize);
                        assert(oe.1 as int == x);
                        assert(oe != e);
                        assert(in_queue(q0, oe));
                        assert(in_queue(priority_queue@, oe));
                    },
                    None => {},
                }
            }
        }
        let mut neighbour: usize = 0;
        while neighbour < node_count
            invariant
                neighbour <= node_count,
                current_node < node_count,
                vec_square(adjacency_matrix@, node_count as nat),
                node_count <= MAX_NODE_COUNT,
                g == rows_view(adjacency_matrix@),
                weights_bounded(g),
                square(g, g.len()),
                g.len() == node_count,
                sm == shortest_mat(g),
                start_node < node_count,
                s == start_node as int,
                nn == node_count as int,
                distance@.len() == node_count,
                distance@[current_node as int] == Some(current_weight),
                sm[s][current_node as int] == Some(current_weight as int),
                forall|v: int| 0 <= v < nn ==> mp_le(sm[s][v], lift_cell(#[trigger] distance@[v])),
                forall|v: int| 0 <= v < nn ==> dist_cell_ok(#[trigger] distance@[v], nn),
                distance@[s] == Some(0u64),
                forall|x: int| #[trigger]
                    settled.contains(x) ==> 0 <= x < nn && lift_cell(distance@[x]) == sm[s][x],
                forall|x: int| #[trigger] settled.contains(x) ==> edges_relaxed(g, distance@, x),
                forall|t2: int|
                    0 <= t2 < priority_queue@.len() ==> queue_entry_ok(
                        distance@,
                        #[trigger] priority_queue@[t2],
                        nn,
                    ),
                forall|x: int|
                    0 <= x < nn && !settled.contains(x) && x != current_node as int
                        ==> #[trigger] pending_in_queue(priority_queue@, distance@, x),
                forall|t2: int|
                    0 <= t2 < neighbour ==> mp_le(
                        lift_cell(#[trigger] distance@[t2]),
                        mp_add(Some(current_weight as int), lift_cell(g[current_node as int][t2])),
                    ),
                2 * pot_sum(distance@) + priority_queue@.len() <= 2 * pot_sum(dv0) + q0.len() - 1,
            decreases node_count - neighbour,
        {
            let ghost v = current_node as int;
            let ghost nb = neighbour as int;
            proof {
                lemma_lift_mat_index(adjacency_matrix@, v, nb);
            }
            if let Some(edge_w) = adjacency_matrix[current_node][neighbour] {
                proof {
                    lemma_shortest_upto_bounded(g, g.len(), s, v);
                    assert(edge_w <= MAX_WEIGHT);
                    assert((nn - 1) * (MAX_WEIGHT as int) + MAX_WEIGHT as int == nn * (
                    MAX_WEIGHT as int)) by (nonlinear_arith);
                    assert(nn * (MAX_WEIGHT as int) <= 0x4000_0000_0000_0000) by (nonlinear_arith)
                        requires nn <= 0x8000_0000;
                    assert(current_weight as int + edge_w as int <= nn * (MAX_WEIGHT as int));
                    lemma_shortest_triangle(g, s, v, nb);
                    lemma_shortest_edge(g, v, nb);
                    lemma_mp_add_mono(
                        sm[s][v],
                        sm[s][v],
                        sm[v][nb],
                        lift_cell(g[v][nb]),
                    );
                    lemma_mp_le_trans(
                        sm[s][nb],
                        mp_add(sm[s][v], sm[v][nb]),
                        mp_add(sm[s][v], lift_cell(g[v][nb])),
                    );
                    assert(mp_le(sm[s][nb], Some(current_weight as int + edge_w as int)));
                }
                let new_distance = current_weight + edge_w;
                let improves = match distance[neighbour] {
                    Some(dist_nb) => dist_nb > new_distance,
                    None => true,
                };
                if improves {
                    proof {
                        if settled.contains(nb) {
                            assert(lift_cell(distance@[nb]) == sm[s][nb]);
                            assert(false);
                        }
                        if nb == s {
                            assert(distance@[s] == Some(0u64));
                            assert(false);
                        }
                        lemma_pot_sum_update(distance@, nb, Some(new_distance));
                    }
                    let ghost dv_before = distance@;
                    let ghost q_before = priority_queue@;
                    distance[neighbour] = Some(new_distance);
                    priority_queue.push((new_distance, neighbour));
                    proof {
                        assert(priority_queue@[q_before.len() as int] == (
                        new_distance,
                        neighbour,
                        ));
                        assert(in_queue(priority_queue@, (new_distance, neighbour)));
                        assert forall|x: int| #[trigger]
                            settled.contains(x) implies edges_relaxed(g, distance@, x) by {
                            assert(edges_relaxed(g, dv_before, x));
                            assert(x != nb);
                            assert forall|t2: int|
                                0 <= t2 < g.len() implies mp_le(
                                lift_cell(#[trigger] distance@[t2]),
                                mp_add(lift_cell(distance@[x]), lift_cell(g[x][t2])),
                            ) by {
                                assert(mp_le(
                                    lift_cell(dv_before[t2]),
                                    mp_add(lift_cell(dv_before[x]), lift_cell(g[x][t2])),
                                ));
                                if t2 == nb {
                                    lemma_mp_le_trans(
                                        lift_cell(distance@[nb]),
                                        lift_cell(dv_before[nb]),
                                        mp_add(lift_cell(dv_before[x]), lift_cell(g[x][t2])),
                                    );
                                }
                            }
                        }
                        assert forall|t2: int|
                            0 <= t2 < priority_queue@.len() implies queue_entry_ok(
                            distance@,
                            #[trigger] priority_queue@[t2],
                            nn,
                        ) by {
                            if t2 < q_before.len() {
                                assert(queue_entry_ok(dv_before, q_before[t2], nn));
                                let x = priority_queue@[t2];
                                if x.1 as int == nb {
                                    assert(mp_le(
                                        lift_cell(distance@[nb]),
                                        lift_cell(dv_before[nb]),
                                    ));
                                    lemma_mp_le_trans(
                                        lift_cell(distance@[nb]),
                                        lift_cell(dv_before[nb]),
                                        Some(x.0 as int),
                                    );
                                }
                            }
                        }
                        assert forall|x: int|
                            0 <= x < nn && !settled.contains(x) && x != v
                                implies #[trigger] pending_in_queue(
                                priority_queue@,
                                distance@,
                                x,
                            ) by {
                            if x == nb {
                                assert(distance@[nb] == Some(new_distance));
                            } else {
                                assert(pending_in_queue(q_before, dv_before, x));
                                assert(distance@[x] == dv_before[x]);
                                match distance@[x] {
                                    Some(d) => {
                                        assert(in_queue(q_before, (d, x as usize)));
                                        let w2 = choose|w2: int|
                                            0 <= w2 < q_before.len() && q_before[w2] == (
                                            d,
                                            x as usize,
                                            );
                                        assert(priority_queue@[w2] == (d, x as usize));
                                    },
                                    None => {},
                                }
                            }
                        }
                    }
                } else {
                    proof {
                        assert(mp_le(
                            lift_cell(distance@[nb]),
                            mp_add(Some(current_weight as int), lift_cell(g[v][nb])),
                        ));
                    }
                }
            } else {
                proof {
                    assert(lift_cell(g[v][nb]) is None);
                }
            }
            neighbour = neighbour + 1;
        }
        proof {
            settled = settled.insert(current_node as int);
            lemma_pot_sum_nonneg(distance@);
            assert(edges_relaxed(g, distance@, current_node as int));
        }
    }
    proof {
        assert forall|v: int|
            0 <= v < node_count implies lift_cell(#[trigger] distance@[v]) == sm[s][v] by {
            if settled.contains(v) {
            } else {
                assert(pending_in_queue(priority_queue@, distance@, v));
                match distance@[v] {
                    Some(d) => {
                        assert(in_queue(priority_queue@, (d, v as usize)));
                        assert(false);
                    },
                    None => {},
                }
                match sm[s][v] {
                    Some(cstar) => {
                        lemma_shortest_upto_sound(g, g.len(), s, v);
                        let p = choose|p: Seq<int>|
                            #[trigger] route(g, p, s, v, nn) && walk_cost(g, p) == cstar;
                        assert(p[p.len() - 1] == v);
                        let idx = find_first_out(p, settled);
                        let u = p[idx];
                        lemma_walk_split(g, p, idx);
                        let pre = p.subrange(0, idx + 1);
                        assert(s_walk(g, pre, s, settled)) by {
                            assert(pre[0] == p[0]);
                            assert forall|t2: int|
                                0 <= t2 < pre.len() - 1 implies settled.contains(
                                #[trigger] pre[t2],
                            ) by {
                                assert(pre[t2] == p[t2]);
                            }
                        }
                        lemma_swalk_dominated(g, distance@, s, settled, pre);
                        assert(pre.last() == u);
                        match distance@[u] {
                            Some(du) => {
                                assert(!settled.contains(u));
                                assert(pending_in_queue(priority_queue@, distance@, u));
                                assert(in_queue(priority_queue@, (du, u as usize)));
                                assert(false);
                            },
                            None => {
                                assert(false);
                            },
                        }
                    },
                    None => {},
                }
            }
        }
    }
    distance
}

/// Run the single-source engine from every node and assemble the rows into
/// the all-pairs distance matrix.
pub fn dijkstra(graph: &GraphAM) -> (r: Vec<Vec<Option<u64>>>)
    requires
        graph.wf(),
        graph.weights_fit(),
    ensures
        vec_square(r@, graph.node_count as nat),
        lift_mat(rows_view(r@)) == shortest_mat(graph.mat()),
{
    let ghost g = graph.mat();
    let n = graph.node_count;
    proof {
        assert forall|t: int| 0 <= t < n implies #[trigger] graph.adjacency_matrix@[t]@.len()
            == n by {
            assert(g[t] == graph.adjacency_matrix@[t]@);
            assert(g[t].len() == n);
        }
        assert(vec_square(graph.adjacency_matrix@, n as nat));
        assert(rows_view(graph.adjacency_matrix@) =~~= g);
        lemma_shortest_upto_square(g, g.len());
    }
    let mut distance_matrix: Vec<Vec<Option<u64>>> = Vec::new();
    let mut start_node: usize = 0;
    while start_node < n
        invariant
            start_node <= n,
            graph.wf(),
            graph.weights_fit(),
            n == graph.node_count,
            g == graph.mat(),
            g == rows_view(graph.adjacency_matrix@),
            vec_square(graph.adjacency_matrix@, n as nat),
            distance_matrix@.len() == start_node,
            forall|i: int| 0 <= i < start_node ==> (#[trigger] distance_matrix@[i])@.len() == n,
            forall|i: int, v: int|
                0 <= i < start_node && 0 <= v < n ==> lift_cell(
                    #[trigger] distance_matrix@[i]@[v],
                ) == shortest_mat(g)[i][v],
        decreases n - start_node,
    {
        let row = dijkstra_single(n, &graph.adjacency_matrix, start_node);
        distance_matrix.push(row);
        start_node = start_node + 1;
    }
    proof {
        lemma_shortest_upto_square(g, g.len());
        assert forall|i: int, v: int|
            0 <= i < n && 0 <= v < n implies lift_mat(rows_view(distance_matrix@))[i][v]
            == shortest_mat(g)[i][v] by {
            lemma_lift_mat_index(distance_matrix@, i, v);
        }
        assert(lift_mat(rows_view(distance_matrix@)) =~~= shortest_mat(g));
    }
    distance_matrix
}

/// The all-sources single-source engine behind the uniform interface.
pub struct Dijkstra {
    pub graph: GraphAM,
    pub shortest_paths: Vec<Vec<Option<u64>>>,
}

impl Dijkstra {
    /// An engine with no graph loaded yet.
    pub fn new() -> (r: Self)
        ensures
            r.graph_ok(),
            r.graph_view().len() == 0,
            r.result_view().len() == 0,
    {
        Dijkstra { graph: GraphAM::new(), shortest_paths: Vec::new() }
    }
}

impl APSPAlgorithm for Dijkstra {
    open spec fn graph_view(&self) -> Matrix {
        self.graph.mat()
    }

    open spec fn result_view(&self) -> Matrix {
        rows_view(self.shortest_paths@)
    }

    open spec fn graph_ok(&self) -> bool {
        self.graph.wf() && self.graph.weights_fit()
    }

    fn load_graph(&mut self, graph: &GraphAM) {
        self.graph = graph.duplicate();
    }

    fn execute(&mut self) {
        self.shortest_paths = dijkstra(&self.graph);
        proof {
            lemma_rows_view_square(self.shortest_paths@, self.graph.node_count as nat);
        }
    }

    fn get_result(&mut self) -> (r: APSPResult) {
        collect_result(&self.shortest_paths)
    }
}

} // verus!
