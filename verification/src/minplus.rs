//! The min-plus (tropical) algebra that every shortest-path engine computes in.
//!
//! A distance is an `Option`: `None` stands for "no path known", the logical
//! plus-infinity, and `Some(w)` for a finite weight. Executable code carries
//! `Option<u64>`; specifications lift those values into `Option<int>` so that
//! sums never wrap.

use vstd::prelude::*;

verus! {

/// Largest node count the engines accept; together with `MAX_WEIGHT` it keeps
/// every candidate path sum, including the intermediate sums of the blocked
/// engines, below `u64::MAX`.
pub const MAX_NODE_COUNT: usize = 0x8000;

/// Largest edge weight the engines accept.
pub const MAX_WEIGHT: u64 = 0x8000_0000;

/// A dense square matrix of optional edge weights, as specifications see it.
pub type Matrix = Seq<Seq<Option<u64>>>;

/// A dense square matrix of optional distances with mathematical-integer weights.
pub type DistMatrix = Seq<Seq<Option<int>>>;

/// View of a vector-of-rows as a `Matrix`.
pub open spec fn rows_view(m: Seq<Vec<Option<u64>>>) -> Matrix {
    m.map_values(|r: Vec<Option<u64>>| r@)
}

/// Lift a machine-weight cell into the mathematical algebra.
pub open spec fn lift_cell(c: Option<u64>) -> Option<int> {
    match c {
        Some(w) => Some(w as int),
        None => None,
    }
}

/// Lift a whole matrix of machine weights.
pub open spec fn lift_mat(m: Matrix) -> DistMatrix {
    m.map_values(|r: Seq<Option<u64>>| r.map_values(|c: Option<u64>| lift_cell(c)))
}

/// `m` is an `n` by `n` matrix.
pub open spec fn square(m: Matrix, n: nat) -> bool {
    &&& m.len() == n
    &&& forall|i: int| 0 <= i < n ==> (#[trigger] m[i]).len() == n
}

/// `d` is an `n` by `n` distance matrix.
pub open spec fn dist_square(d: DistMatrix, n: nat) -> bool {
    &&& d.len() == n
    &&& forall|i: int| 0 <= i < n ==> (#[trigger] d[i]).len() == n
}

/// Every present weight of `m` is at most `MAX_WEIGHT`.
pub open spec fn weights_bounded(m: Matrix) -> bool {
    forall|i: int, j: int|
        0 <= i < m.len() && 0 <= j < m[i].len() ==> weight_ok(#[trigger] m[i][j])
}

/// A single cell is either absent or a bounded weight.
pub open spec fn weight_ok(c: Option<u64>) -> bool {
    match c {
        Some(w) => w <= MAX_WEIGHT,
        None => true,
    }
}

/// A vector of rows really is an `n` by `n` matrix.
pub open spec fn vec_square(m: Seq<Vec<Option<u64>>>, n: nat) -> bool {
    &&& m.len() == n
    &&& forall|i: int| 0 <= i < n ==> #[trigger] m[i]@.len() == n
}

/// Reading a lifted matrix cell is lifting the read cell.
pub proof fn lemma_lift_mat_index(m: Seq<Vec<Option<u64>>>, i: int, j: int)
    requires
        0 <= i < m.len(),
        0 <= j < m[i]@.len(),
    ensures
        lift_mat(rows_view(m))[i][j] == lift_cell(m[i]@[j]),
        rows_view(m)[i][j] == m[i]@[j],
{
}

/// Lifting preserves every dimension.
pub proof fn lemma_lift_mat_dims(m: Seq<Vec<Option<u64>>>)
    ensures
        lift_mat(rows_view(m)).len() == m.len(),
        rows_view(m).len() == m.len(),
        forall|r: int|
            0 <= r < m.len() ==> (#[trigger] lift_mat(rows_view(m))[r]).len() == m[r]@.len(),
        forall|r: int| 0 <= r < m.len() ==> (#[trigger] rows_view(m)[r]).len() == m[r]@.len(),
{
    assert forall|r: int|
        0 <= r < m.len() implies (#[trigger] lift_mat(rows_view(m))[r]).len() == m[r]@.len()
        && rows_view(m)[r].len() == m[r]@.len() by {
        assert(rows_view(m)[r] == m[r]@);
        assert(lift_mat(rows_view(m))[r].len() == rows_view(m)[r].len());
    }
}

/// Lifting loses nothing: matrices with equal lifts are equal.
pub proof fn lemma_lift_mat_injective(r1: Matrix, r2: Matrix)
    requires
        lift_mat(r1) == lift_mat(r2),
    ensures
        r1 == r2,
{
    assert(r1.len() == r2.len()) by {
        assert(lift_mat(r1).len() == r1.len());
        assert(lift_mat(r2).len() == r2.len());
    }
    assert forall|i: int| 0 <= i < r1.len() implies #[trigger] r1[i] == r2[i] by {
        assert(lift_mat(r1)[i] == r1[i].map_values(|c: Option<u64>| lift_cell(c)));
        assert(lift_mat(r2)[i] == r2[i].map_values(|c: Option<u64>| lift_cell(c)));
        assert(r1[i].len() == r2[i].len());
        assert forall|j: int| 0 <= j < r1[i].len() implies #[trigger] r1[i][j] == r2[i][j] by {
            assert(lift_cell(r1[i][j]) == lift_mat(r1)[i][j]);
            assert(lift_cell(r2[i][j]) == lift_mat(r2)[i][j]);
        }
        assert(r1[i] =~= r2[i]);
    }
    assert(r1 =~= r2);
}

/// A square vector of rows views to a square matrix.
pub proof fn lemma_rows_view_square(m: Seq<Vec<Option<u64>>>, n: nat)
    requires
        vec_square(m, n),
    ensures
        square(rows_view(m), n),
{
    assert forall|i: int| 0 <= i < n implies (#[trigger] rows_view(m)[i]).len() == n by {
        assert(rows_view(m)[i] == m[i]@);
    }
}

/// Min-plus addition: combining path legs; `None` (no path) is absorbing.
pub open spec fn mp_add(a: Option<int>, b: Option<int>) -> Option<int> {
    match (a, b) {
        (Some(x), Some(y)) => Some(x + y),
        _ => None,
    }
}

/// Min-plus minimum: the better of two distances; `None` is the worst value.
pub open spec fn mp_min(a: Option<int>, b: Option<int>) -> Option<int> {
    match (a, b) {
        (Some(x), Some(y)) => if x <= y { a } else { b },
        (Some(_), None) => a,
        (None, _) => b,
    }
}

/// Distance order: `a` is at least as good as `b`; `None` is plus-infinity.
pub open spec fn mp_le(a: Option<int>, b: Option<int>) -> bool {
    match (a, b) {
        (Some(x), Some(y)) => x <= y,
        (None, Some(_)) => false,
        (_, None) => true,
    }
}

/// A distance is either absent or a value between 0 and `bound`.
pub open spec fn dist_ok(d: Option<int>, bound: int) -> bool {
    match d {
        Some(c) => 0 <= c <= bound,
        None => true,
    }
}

/// Every cell is absent or non-negative; true of every matrix lifted from
/// machine weights.
pub open spec fn nonneg_mat(d: DistMatrix) -> bool {
    forall|i: int, j: int|
        0 <= i < d.len() && 0 <= j < d[i].len() ==> dist_nonneg(#[trigger] d[i][j])
}

/// A distance is absent or non-negative.
pub open spec fn dist_nonneg(d: Option<int>) -> bool {
    match d {
        Some(c) => c >= 0,
        None => true,
    }
}

pub proof fn lemma_lift_nonneg(m: Matrix)
    ensures
        nonneg_mat(lift_mat(m)),
{
    assert forall|i: int, j: int|
        0 <= i < lift_mat(m).len() && 0 <= j < lift_mat(m)[i].len() implies dist_nonneg(
        #[trigger] lift_mat(m)[i][j],
    ) by {
        assert(lift_mat(m)[i][j] == lift_cell(m[i][j]));
    }
}

pub proof fn lemma_mp_le_trans(a: Option<int>, b: Option<int>, c: Option<int>)
    requires
        mp_le(a, b),
        mp_le(b, c),
    ensures
        mp_le(a, c),
{
}

pub proof fn lemma_mp_min_le(a: Option<int>, b: Option<int>)
    ensures
        mp_le(mp_min(a, b), a),
        mp_le(mp_min(a, b), b),
        mp_min(a, b) == a || mp_min(a, b) == b,
{
}

pub proof fn lemma_mp_le_antisym(a: Option<int>, b: Option<int>)
    requires
        mp_le(a, b),
        mp_le(b, a),
    ensures
        a == b,
{
}

pub proof fn lemma_mp_add_mono(a1: Option<int>, a2: Option<int>, b1: Option<int>, b2: Option<int>)
    requires
        mp_le(a1, a2),
        mp_le(b1, b2),
    ensures
        mp_le(mp_add(a1, b1), mp_add(a2, b2)),
{
}

pub proof fn lemma_mp_min_mono(a1: Option<int>, a2: Option<int>, b1: Option<int>, b2: Option<int>)
    requires
        mp_le(a1, a2),
        mp_le(b1, b2),
    ensures
        mp_le(mp_min(a1, b1), mp_min(a2, b2)),
{
}

pub proof fn lemma_mp_le_min_both(x: Option<int>, a: Option<int>, b: Option<int>)
    requires
        mp_le(x, a),
        mp_le(x, b),
    ensures
        mp_le(x, mp_min(a, b)),
{
}

} // verus!
