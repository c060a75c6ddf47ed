//! The sparse all-pairs result, the equality check over it, and the uniform
//! interface every engine offers: load a graph, execute, read the result.

use vstd::prelude::*;
use crate::graph::GraphAM;
use crate::minplus::{lift_mat, rows_view, square, Matrix};
use crate::shortest::shortest_mat;

verus! {

/// The key a stored entry speaks about.
pub open spec fn entry_key(e: (usize, usize, u64)) -> (int, int) {
    (e.0 as int, e.1 as int)
}

/// The mapping that a list of entries denotes; a later entry would win,
/// though well-formed results never repeat a key.
pub open spec fn entries_map(s: Seq<(usize, usize, u64)>) -> Map<(int, int), u64>
    decreases s.len(),
{
    if s.len() == 0 {
        Map::empty()
    } else {
        entries_map(s.drop_last()).insert(entry_key(s.last()), s.last().2)
    }
}

/// No two entries speak about the same pair.
pub open spec fn keys_distinct(s: Seq<(usize, usize, u64)>) -> bool {
    forall|a: int, b: int|
        0 <= a < b < s.len() ==> entry_key(#[trigger] s[a]) != entry_key(#[trigger] s[b])
}

pub proof fn lemma_entries_map_dom(s: Seq<(usize, usize, u64)>)
    ensures
        forall|k: (int, int)| #[trigger]
            entries_map(s).dom().contains(k) ==> exists|a: int|
                0 <= a < s.len() && entry_key(#[trigger] s[a]) == k,
        forall|a: int|
            0 <= a < s.len() ==> entries_map(s).dom().contains(entry_key(#[trigger] s[a])),
    decreases s.len(),
{
    if s.len() > 0 {
        let d = s.drop_last();
        lemma_entries_map_dom(d);
        assert forall|k: (int, int)| #[trigger]
            entries_map(s).dom().contains(k) implies exists|a: int|
            0 <= a < s.len() && entry_key(#[trigger] s[a]) == k by {
            if k == entry_key(s.last()) {
                assert(entry_key(s[s.len() - 1]) == k);
            } else {
                assert(entries_map(d).dom().contains(k));
                let a = choose|a: int| 0 <= a < d.len() && entry_key(#[trigger] d[a]) == k;
                assert(d[a] == s[a]);
                assert(entry_key(s[a]) == k);
            }
        }
        assert forall|a: int|
            0 <= a < s.len() implies entries_map(s).dom().contains(
            entry_key(#[trigger] s[a]),
        ) by {
            if a < s.len() - 1 {
                assert(d[a] == s[a]);
                assert(entries_map(d).dom().contains(entry_key(d[a])));
            }
        }
    }
}

pub proof fn lemma_entries_map_value(s: Seq<(usize, usize, u64)>, a: int)
    requires
        keys_distinct(s),
        0 <= a < s.len(),
    ensures
        entries_map(s).dom().contains(entry_key(s[a])),
        entries_map(s)[entry_key(s[a])] == s[a].2,
    decreases s.len(),
{
    let d = s.drop_last();
    if a == s.len() - 1 {
    } else {
        assert forall|x: int, y: int|
            0 <= x < y < d.len() implies entry_key(#[trigger] d[x]) != entry_key(
            #[trigger] d[y],
        ) by {
            assert(d[x] == s[x]);
            assert(d[y] == s[y]);
        }
        lemma_entries_map_value(d, a);
        assert(d[a] == s[a]);
        assert(entry_key(s[s.len() - 1]) != entry_key(s[a]));
    }
}

/// Replacing the weight stored at one position rewrites the mapping at
/// exactly that entry's key.
pub proof fn lemma_entries_map_update(s: Seq<(usize, usize, u64)>, a: int, cost: u64)
    requires
        keys_distinct(s),
        0 <= a < s.len(),
    ensures
        entries_map(s.update(a, (s[a].0, s[a].1, cost))) == entries_map(s).insert(
            entry_key(s[a]),
            cost,
        ),
        keys_distinct(s.update(a, (s[a].0, s[a].1, cost))),
    decreases s.len(),
{
    let e2 = (s[a].0, s[a].1, cost);
    let s2 = s.update(a, e2);
    assert forall|x: int, y: int|
        0 <= x < y < s2.len() implies entry_key(#[trigger] s2[x]) != entry_key(
        #[trigger] s2[y],
    ) by {
        assert(entry_key(s2[x]) == entry_key(s[x]));
        assert(entry_key(s2[y]) == entry_key(s[y]));
    }
    if a == s.len() - 1 {
        assert(s2.drop_last() =~= s.drop_last());
        assert(s2.last() == e2);
        assert(entries_map(s).insert(entry_key(s[a]), cost) =~= entries_map(
            s.drop_last(),
        ).insert(entry_key(e2), cost));
    } else {
        let d = s.drop_last();
        assert forall|x: int, y: int|
            0 <= x < y < d.len() implies entry_key(#[trigger] d[x]) != entry_key(
            #[trigger] d[y],
        ) by {
            assert(d[x] == s[x]);
            assert(d[y] == s[y]);
        }
        assert(d[a] == s[a]);
        lemma_entries_map_update(d, a, cost);
        assert(s2.drop_last() =~= d.update(a, (d[a].0, d[a].1, cost)));
        assert(s2.last() == s.last());
        assert(s[s.len() - 1] == s.last());
        assert(entry_key(s[a]) != entry_key(s.last()));
        // The two inserts go to different keys, so they commute.
        assert(entries_map(d).insert(entry_key(s[a]), cost).insert(
            entry_key(s.last()),
            s.last().2,
        ) =~= entries_map(d).insert(entry_key(s.last()), s.last().2).insert(
            entry_key(s[a]),
            cost,
        ));
    }
}

/// `m1` is confirmed by `m2`: every pair of `m1` carries the same weight in
/// `m2`, except that a diagonal pair may simply be absent there.
pub open spec fn result_matches(m1: Map<(int, int), u64>, m2: Map<(int, int), u64>) -> bool {
    forall|k: (int, int)| #[trigger]
        m1.dom().contains(k) ==> if m2.dom().contains(k) {
            m2[k] == m1[k]
        } else {
            k.0 == k.1
        }
}

/// The sparse mapping from reachable (source, destination) pairs to their
/// shortest distance.
pub struct APSPResult {
    pub shortest_paths: Vec<(usize, usize, u64)>,
}

impl APSPResult {
    /// The mapping this result denotes.
    pub open spec fn map_view(&self) -> Map<(int, int), u64> {
        entries_map(self.shortest_paths@)
    }

    /// Entries never repeat a pair.
    pub open spec fn wf(&self) -> bool {
        keys_distinct(self.shortest_paths@)
    }

    /// An empty result.
    pub fn new() -> (r: Self)
        ensures
            r.wf(),
            r.map_view() == Map::<(int, int), u64>::empty(),
    {
        APSPResult { shortest_paths: Vec::new() }
    }

    /// Record the distance for one pair, replacing any weight recorded for
    /// that pair before.
    pub fn add(&mut self, from: usize, to: usize, cost: u64)
        requires
            old(self).wf(),
        ensures
            final(self).wf(),
            final(self).map_view() == old(self).map_view().insert(
                (from as int, to as int),
                cost,
            ),
    {
        let mut idx: usize = 0;
        while idx < self.shortest_paths.len()
            invariant
                idx <= self.shortest_paths@.len(),
                self.wf(),
                self.shortest_paths@ == old(self).shortest_paths@,
                forall|t: int|
                    0 <= t < idx ==> entry_key(#[trigger] self.shortest_paths@[t]) != (
                    from as int,
                    to as int,
                ),
            decreases self.shortest_paths@.len() - idx,
        {
            let e = self.shortest_paths[idx];
            if e.0 == from && e.1 == to {
                self.shortest_paths[idx] = (from, to, cost);
                proof {
                    let s0 = old(self).shortest_paths@;
                    lemma_entries_map_update(s0, idx as int, cost);
                    assert(s0[idx as int].0 == from && s0[idx as int].1 == to);
                    assert(self.shortest_paths@ =~= s0.update(idx as int, (from, to, cost)));
                    assert(entry_key(s0[idx as int]) == (from as int, to as int));
                }
                return;
            }
            idx = idx + 1;
        }
        proof {
            lemma_entries_map_dom(self.shortest_paths@);
        }
        self.shortest_paths.push((from, to, cost));
        proof {
            let s = self.shortest_paths@;
            assert(s.drop_last() =~= old(self).shortest_paths@);
            assert forall|x: int, y: int|
                0 <= x < y < s.len() implies entry_key(#[trigger] s[x]) != entry_key(
                #[trigger] s[y],
            ) by {
                if y < s.len() - 1 {
                    assert(old(self).shortest_paths@[x] == s[x]);
                    assert(old(self).shortest_paths@[y] == s[y]);
                } else {
                    assert(old(self).shortest_paths@[x] == s[x]);
                }
            }
        }
    }

    /// Look a pair up.
    pub fn get(&self, from: usize, to: usize) -> (r: Option<u64>)
        requires
            self.wf(),
        ensures
            match r {
                Some(c) => self.map_view().dom().contains((from as int, to as int))
                    && self.map_view()[(from as int, to as int)] == c,
                None => !self.map_view().dom().contains((from as int, to as int)),
            },
    {
        let s = &self.shortest_paths;
        let mut idx: usize = 0;
        while idx < s.len()
            invariant
                idx <= s@.len(),
                self.wf(),
                s == &self.shortest_paths,
                forall|t: int|
                    0 <= t < idx ==> entry_key(#[trigger] s@[t]) != (from as int, to as int),
            decreases s@.len() - idx,
        {
            let e = s[idx];
            if e.0 == from && e.1 == to {
                proof {
                    lemma_entries_map_value(s@, idx as int);
                }
                return Some(e.2);
            }
            idx = idx + 1;
        }
        proof {
            lemma_entries_map_dom(s@);
        }
        None
    }

    /// Check this result against another: every pair recorded here must
    /// carry the same weight there, except that a diagonal pair may be
    /// absent there (consumers may omit the always-zero diagonal).
    pub fn result_compare(&self, result2: &APSPResult) -> (r: bool)
        requires
            self.wf(),
            result2.wf(),
        ensures
            r == result_matches(self.map_view(), result2.map_view()),
    {
        let ghost m2 = result2.map_view();
        let mut returnvalue = true;
        let s = &self.shortest_paths;
        let mut idx: usize = 0;
        while idx < s.len()
            invariant
                idx <= s@.len(),
                self.wf(),
                result2.wf(),
                s == &self.shortest_paths,
                m2 == result2.map_view(),
                returnvalue == forall|t: int|
                    0 <= t < idx ==> entry_confirmed(#[trigger] s@[t], m2),
            decreases s@.len() - idx,
        {
            let e = s[idx];
            match result2.get(e.0, e.1) {
                Some(cost2) => {
                    if e.2 != cost2 {
                        returnvalue = false;
                    }
                },
                None => {
                    if e.0 != e.1 {
                        returnvalue = false;
                    }
                },
            }
            proof {
                if !returnvalue {
                    assert(!entry_confirmed(s@[idx as int], m2) || exists|t: int|
                        0 <= t < idx && !entry_confirmed(#[trigger] s@[t], m2));
                }
            }
            idx = idx + 1;
        }
        proof {
            lemma_entries_map_dom(s@);
            if returnvalue {
                assert forall|k: (int, int)| #[trigger]
                    self.map_view().dom().contains(k) implies (if m2.dom().contains(k) {
                    m2[k] == self.map_view()[k]
                } else {
                    k.0 == k.1
                }) by {
                    let a = choose|a: int| 0 <= a < s@.len() && entry_key(#[trigger] s@[a]) == k;
                    lemma_entries_map_value(s@, a);
                    assert(entry_confirmed(s@[a], m2));
                }
            } else {
                let t = choose|t: int| 0 <= t < s@.len() && !entry_confirmed(#[trigger] s@[t], m2);
                lemma_entries_map_value(s@, t);
                assert(!result_matches(self.map_view(), m2));
            }
        }
        returnvalue
    }
}

/// One stored entry agrees with the mapping `m2`, up to the omitted diagonal.
pub open spec fn entry_confirmed(e: (usize, usize, u64), m2: Map<(int, int), u64>) -> bool {
    if m2.dom().contains(entry_key(e)) {
        m2[entry_key(e)] == e.2
    } else {
        e.0 == e.1
    }
}

/// The sparse mapping a dense distance matrix denotes: exactly its present
/// cells, keyed by (row, column).
pub open spec fn result_map(m: Matrix) -> Map<(int, int), u64> {
    Map::new(
        |k: (int, int)| 0 <= k.0 < m.len() && 0 <= k.1 < m[k.0].len() && m[k.0][k.1] is Some,
        |k: (int, int)| m[k.0][k.1]->Some_0,
    )
}

/// `result_map` restricted to cells before row `i`, or in row `i` before
/// column `j`: what a row-major sweep has already collected.
pub open spec fn result_map_prefix(m: Matrix, i: int, j: int) -> Map<(int, int), u64> {
    Map::new(
        |k: (int, int)| (k.0 < i || (k.0 == i && k.1 < j)) && 0 <= k.0 < m.len() && 0 <= k.1
            < m[k.0].len() && m[k.0][k.1] is Some,
        |k: (int, int)| m[k.0][k.1]->Some_0,
    )
}

/// Turn a dense distance matrix into the sparse result: every present cell
/// is recorded once, absent cells are skipped.
pub fn collect_result(shortest_paths: &Vec<Vec<Option<u64>>>) -> (r: APSPResult)
    ensures
        r.wf(),
        r.map_view() == result_map(rows_view(shortest_paths@)),
{
    let ghost m = rows_view(shortest_paths@);
    let mut result = APSPResult::new();
    proof {
        assert(result.map_view() =~= result_map_prefix(m, 0, 0));
    }
    let mut i: usize = 0;
    while i < shortest_paths.len()
        invariant
            i <= m.len(),
            m == rows_view(shortest_paths@),
            result.wf(),
            result.map_view() == result_map_prefix(m, i as int, 0),
        decreases m.len() - i,
    {
        let row = &shortest_paths[i];
        let mut j: usize = 0;
        while j < row.len()
            invariant
                i < m.len(),
                j <= m[i as int].len(),
                m == rows_view(shortest_paths@),
                row == &shortest_paths[i as int],
                row@ == m[i as int],
                result.wf(),
                result.map_view() == result_map_prefix(m, i as int, j as int),
            decreases m[i as int].len() - j,
        {
            if let Some(value) = row[j] {
                result.add(i, j, value);
                proof {
                    assert(result.map_view() =~= result_map_prefix(m, i as int, j + 1));
                }
            } else {
                proof {
                    assert(result.map_view() =~= result_map_prefix(m, i as int, j + 1));
                }
            }
            j = j + 1;
        }
        proof {
            assert(result_map_prefix(m, i as int, m[i as int].len() as int) =~= result_map_prefix(
                m,
                i + 1,
                0,
            ));
        }
        i = i + 1;
    }
    proof {
        assert(result_map_prefix(m, m.len() as int, 0) =~= result_map(m));
    }
    result
}

/// Any two dense matrices that satisfy an engine's `execute` contract for
/// the same graph are bit-identical. Since every engine — and every repeat
/// run of the same engine — ensures its result lifts to `shortest_mat` of
/// the loaded graph, all of them produce identical results, and so do their
/// sparse mappings.
pub proof fn lemma_engines_agree(g: Matrix, r1: Matrix, r2: Matrix)
    requires
        lift_mat(r1) == shortest_mat(g),
        lift_mat(r2) == shortest_mat(g),
    ensures
        r1 == r2,
        result_map(r1) == result_map(r2),
{
    crate::minplus::lemma_lift_mat_injective(r1, r2);
}

/// What every engine offers: load a graph, run to completion, read back the
/// sparse result. `execute` always recomputes the whole answer and always
/// produces the min-plus shortest-distance matrix of the loaded graph, so
/// running it twice, or running two different engines, gives equal results.
pub trait APSPAlgorithm: Sized {
    /// The graph the engine currently holds.
    spec fn graph_view(&self) -> Matrix;

    /// The dense distance matrix computed by the last `execute`.
    spec fn result_view(&self) -> Matrix;

    /// The held graph is square and small enough to process.
    spec fn graph_ok(&self) -> bool;

    /// Load a graph, replacing any prior one; the stored result matrix is
    /// not touched until the next `execute`.
    fn load_graph(&mut self, graph: &GraphAM)
        requires
            old(self).graph_ok(),
            graph.wf(),
            graph.weights_fit(),
        ensures
            final(self).graph_ok(),
            final(self).graph_view() == graph.mat(),
            final(self).result_view() == old(self).result_view(),
    ;

    /// Recompute all shortest distances for the loaded graph from scratch.
    fn execute(&mut self)
        requires
            old(self).graph_ok(),
        ensures
            final(self).graph_ok(),
            final(self).graph_view() == old(self).graph_view(),
            square(final(self).result_view(), old(self).graph_view().len()),
            lift_mat(final(self).result_view()) == shortest_mat(old(self).graph_view()),
    ;

    /// The sparse mapping derived from the last `execute`.
    fn get_result(&mut self) -> (r: APSPResult)
        ensures
            *final(self) == *old(self),
            r.wf(),
            r.map_view() == result_map(old(self).result_view()),
    ;
}

} // verus!
