//! Functions shared by the block-decomposed relaxation engines: copying a
//! matrix, zeroing its diagonal, slicing blocks out, writing them back, and
//! the four min-plus block-product variants, which differ in which operands
//! alias the accumulator.
//!
//! A block product processes pivots in order; for each pivot `k` it relaxes
//! `C[i][j]` against `A[i][k] + B[k][j]`. Its meaning is the functional
//! `pass_gen`: because weights are unsigned, relaxing the pivot's own row
//! and column in place changes nothing, so the in-place loop and the
//! functional pass agree. A candidate sum that would not fit a weight is
//! treated as no candidate; the engines prove such sums never occur on the
//! matrices they pass.

use vstd::prelude::*;
use crate::minplus::{
    dist_nonneg, lemma_lift_mat_index, lift_cell, lift_mat, mp_min, nonneg_mat, rows_view,
    vec_square, DistMatrix,
};
use crate::shortest::init_mat;

verus! {

/// The smaller of two integers.
pub open spec fn imin(a: int, b: int) -> int {
    if a <= b {
        a
    } else {
        b
    }
}

/// Every row is as wide as the first.
pub open spec fn rect(m: Seq<Vec<Option<u64>>>) -> bool {
    forall|i: int| 0 <= i < m.len() ==> (#[trigger] m[i])@.len() == m[0]@.len()
}

/// Min-plus addition capped at the weight range: a candidate that cannot be
/// represented is no candidate.
pub open spec fn mp_add_cap(a: Option<int>, b: Option<int>) -> Option<int> {
    match (a, b) {
        (Some(x), Some(y)) => if x + y <= u64::MAX as int {
            Some(x + y)
        } else {
            None
        },
        _ => None,
    }
}

/// One relaxation of cell `(r, j)` through pivot `k`.
pub open spec fn product_cell(
    c: DistMatrix,
    a: DistMatrix,
    b: DistMatrix,
    k: int,
    r: int,
    j: int,
) -> Option<int> {
    mp_min(c[r][j], mp_add_cap(a[r][k], b[k][j]))
}

/// One whole pivot applied to the cells below row `ir` and column `jr`.
pub open spec fn product_step(
    c: DistMatrix,
    a: DistMatrix,
    b: DistMatrix,
    k: int,
    ir: int,
    jr: int,
) -> DistMatrix {
    Seq::new(
        c.len(),
        |r: int| Seq::new(
            c[r].len(),
            |j: int| if r < ir && j < jr {
                product_cell(c, a, b, k, r, j)
            } else {
                c[r][j]
            },
        ),
    )
}

/// An absent operand aliases the accumulator.
pub open spec fn opsel(p: DistMatrix, e: Option<DistMatrix>) -> DistMatrix {
    match e {
        Some(m) => m,
        None => p,
    }
}

/// The block product: pivots `0..k` applied in order, each reading the
/// matrix left by the previous one where an operand aliases the accumulator.
pub open spec fn pass_gen(
    c: DistMatrix,
    ea: Option<DistMatrix>,
    eb: Option<DistMatrix>,
    k: nat,
    ir: int,
    jr: int,
) -> DistMatrix
    decreases k,
{
    if k == 0 {
        c
    } else {
        let p = pass_gen(c, ea, eb, (k - 1) as nat, ir, jr);
        product_step(p, opsel(p, ea), opsel(p, eb), k - 1, ir, jr)
    }
}

/// Within pivot `k`, the cells before row `i`, column `j` (row-major)
/// already relaxed, later cells untouched.
pub open spec fn product_prefix(
    p: DistMatrix,
    a: DistMatrix,
    b: DistMatrix,
    k: int,
    i: int,
    j: int,
    ir: int,
    jr: int,
) -> DistMatrix {
    Seq::new(
        p.len(),
        |r: int| Seq::new(
            p[r].len(),
            |cc: int| if (r < i || (r == i && cc < j)) && r < ir && cc < jr {
                product_cell(p, a, b, k, r, cc)
            } else {
                p[r][cc]
            },
        ),
    )
}

/// The optional external operand, lifted.
pub open spec fn lift_opt(m: Option<&Vec<Vec<Option<u64>>>>) -> Option<DistMatrix> {
    match m {
        Some(v) => Some(lift_mat(rows_view(v@))),
        None => None,
    }
}

pub proof fn lemma_pass_gen_dims(
    c: DistMatrix,
    ea: Option<DistMatrix>,
    eb: Option<DistMatrix>,
    k: nat,
    ir: int,
    jr: int,
)
    ensures
        pass_gen(c, ea, eb, k, ir, jr).len() == c.len(),
        forall|r: int|
            0 <= r < c.len() ==> (#[trigger] pass_gen(c, ea, eb, k, ir, jr)[r]).len()
                == c[r].len(),
    decreases k,
{
    if k > 0 {
        lemma_pass_gen_dims(c, ea, eb, (k - 1) as nat, ir, jr);
    }
}

/// Every row of `d` is `w` cells wide.
pub open spec fn dist_rect(d: DistMatrix, w: int) -> bool {
    forall|r: int| 0 <= r < d.len() ==> (#[trigger] d[r]).len() == w
}

pub proof fn lemma_pass_gen_nonneg(
    c: DistMatrix,
    ea: Option<DistMatrix>,
    eb: Option<DistMatrix>,
    k: nat,
    ir: int,
    jr: int,
    w: int,
    aw: int,
    bw: int,
)
    requires
        nonneg_mat(c),
        dist_rect(c, w),
        ir <= c.len(),
        jr <= w,
        (match ea {
            Some(m) => nonneg_mat(m) && dist_rect(m, aw) && ir <= m.len() && k as int <= aw,
            None => k as int <= w,
        }),
        (match eb {
            Some(m) => nonneg_mat(m) && dist_rect(m, bw) && k as int <= m.len() && jr <= bw,
            None => k as int <= c.len(),
        }),
    ensures
        nonneg_mat(pass_gen(c, ea, eb, k, ir, jr)),
    decreases k,
{
    if k > 0 {
        lemma_pass_gen_nonneg(c, ea, eb, (k - 1) as nat, ir, jr, w, aw, bw);
        let p = pass_gen(c, ea, eb, (k - 1) as nat, ir, jr);
        let q = pass_gen(c, ea, eb, k, ir, jr);
        let au = opsel(p, ea);
        let bu = opsel(p, eb);
        lemma_pass_gen_dims(c, ea, eb, (k - 1) as nat, ir, jr);
        assert forall|i: int, j: int|
            0 <= i < q.len() && 0 <= j < q[i].len() implies dist_nonneg(#[trigger] q[i][j]) by {
            assert(dist_nonneg(p[i][j]));
            if i < ir && j < jr {
                assert(p[i].len() == c[i].len());
                assert(dist_nonneg(au[i][k - 1]));
                assert(dist_nonneg(bu[k - 1][j]));
            }
        }
    }
}

/// Relaxing any cell of the pivot's own column against a non-negative
/// operand diagonal is a no-op when the row operand aliases the accumulator.
pub proof fn lemma_prefix_col_stable(
    p: DistMatrix,
    b: DistMatrix,
    k: int,
    i: int,
    j: int,
    ir: int,
    jr: int,
    r: int,
)
    requires
        0 <= r < p.len(),
        0 <= k < p[r].len(),
        k < jr ==> dist_nonneg(b[k][k]),
    ensures
        product_prefix(p, p, b, k, i, j, ir, jr)[r][k] == p[r][k],
{
    if k < jr {
        assert(product_cell(p, p, b, k, r, k) == mp_min(p[r][k], mp_add_cap(p[r][k], b[k][k])));
    }
}

/// Relaxing any cell of the pivot's own row against a non-negative operand
/// diagonal is a no-op when the column operand aliases the accumulator.
pub proof fn lemma_prefix_row_stable(
    p: DistMatrix,
    a: DistMatrix,
    k: int,
    i: int,
    j: int,
    ir: int,
    jr: int,
    cc: int,
)
    requires
        0 <= k < p.len(),
        0 <= cc < p[k].len(),
        k < ir ==> dist_nonneg(a[k][k]),
    ensures
        product_prefix(p, a, p, k, i, j, ir, jr)[k][cc] == p[k][cc],
{
    if k < ir {
        assert(product_cell(p, a, p, k, k, cc) == mp_min(p[k][cc], mp_add_cap(a[k][k], p[k][cc])));
    }
}

/// The shared triple loop behind the four block-product variants: relax
/// `result[i][j]` against `A[i][k] + B[k][j]` for every pivot in order,
/// where an absent operand reads `result` itself.
fn min_plus_run(
    result: &mut Vec<Vec<Option<u64>>>,
    matrix_a: Option<&Vec<Vec<Option<u64>>>>,
    matrix_b: Option<&Vec<Vec<Option<u64>>>>,
    kr: usize,
    ir: usize,
    jr: usize,
)
    requires
        old(result)@.len() >= 1,
        rect(old(result)@),
        ir <= old(result)@.len(),
        jr <= old(result)@[0]@.len(),
        (match matrix_a {
            Some(m) => m@.len() >= 1 && rect(m@) && ir <= m@.len() && kr <= m@[0]@.len(),
            None => kr <= old(result)@[0]@.len(),
        }),
        (match matrix_b {
            Some(m) => m@.len() >= 1 && rect(m@) && kr <= m@.len() && jr <= m@[0]@.len(),
            None => kr <= old(result)@.len(),
        }),
    ensures
        final(result)@.len() == old(result)@.len(),
        forall|r: int|
            0 <= r < old(result)@.len() ==> (#[trigger] final(result)@[r])@.len() == old(
                result,
            )@[r]@.len(),
        lift_mat(rows_view(final(result)@)) == pass_gen(
            lift_mat(rows_view(old(result)@)),
            lift_opt(matrix_a),
            lift_opt(matrix_b),
            kr as nat,
            ir as int,
            jr as int,
        ),
{
    let ghost c0 = lift_mat(rows_view(result@));
    let ghost ea = lift_opt(matrix_a);
    let ghost eb = lift_opt(matrix_b);
    let ghost w = c0[0].len() as int;
    let ghost aw = (match ea {
        Some(m) => m[0].len() as int,
        None => 0int,
    });
    let ghost bw = (match eb {
        Some(m) => m[0].len() as int,
        None => 0int,
    });
    proof {
        crate::minplus::lemma_lift_nonneg(rows_view(result@));
        crate::minplus::lemma_lift_mat_dims(result@);
        match matrix_a {
            Some(m) => {
                crate::minplus::lemma_lift_nonneg(rows_view(m@));
                crate::minplus::lemma_lift_mat_dims(m@);
            },
            None => {},
        }
        match matrix_b {
            Some(m) => {
                crate::minplus::lemma_lift_nonneg(rows_view(m@));
                crate::minplus::lemma_lift_mat_dims(m@);
            },
            None => {},
        }
        assert(dist_rect(c0, w));
    }
    let mut k: usize = 0;
    while k < kr
        invariant
            k <= kr,
            result@.len() >= 1,
            rect(result@),
            result@.len() == old(result)@.len(),
            forall|r: int|
                0 <= r < old(result)@.len() ==> (#[trigger] result@[r])@.len() == old(
                    result,
                )@[r]@.len(),
            ir <= result@.len(),
            jr <= result@[0]@.len(),
            c0 == lift_mat(rows_view(old(result)@)),
            ea == lift_opt(matrix_a),
            eb == lift_opt(matrix_b),
            nonneg_mat(c0),
            c0.len() == result@.len(),
            dist_rect(c0, w),
            w == result@[0]@.len() as int,
            (match ea {
                Some(m) => nonneg_mat(m) && dist_rect(m, aw) && ir <= m.len() && kr as int <= aw,
                None => kr as int <= w,
            }),
            (match eb {
                Some(m) => nonneg_mat(m) && dist_rect(m, bw) && kr <= m.len() && jr as int <= bw,
                None => kr <= c0.len(),
            }),
            lift_mat(rows_view(result@)) == pass_gen(c0, ea, eb, k as nat, ir as int, jr as int),
        decreases kr - k,
    {
        let ghost p = pass_gen(c0, ea, eb, k as nat, ir as int, jr as int);
        let ghost au = opsel(p, ea);
        let ghost bu = opsel(p, eb);
        proof {
            lemma_pass_gen_dims(c0, ea, eb, k as nat, ir as int, jr as int);
            lemma_pass_gen_nonneg(c0, ea, eb, k as nat, ir as int, jr as int, w, aw, bw);
            assert(product_prefix(p, au, bu, k as int, 0, 0, ir as int, jr as int) =~~= p);
        }
        let mut i: usize = 0;
        while i < ir
            invariant
                i <= ir,
                k < kr,
                result@.len() >= 1,
                rect(result@),
                result@.len() == old(result)@.len(),
                forall|r: int|
                    0 <= r < old(result)@.len() ==> (#[trigger] result@[r])@.len() == old(
                        result,
                    )@[r]@.len(),
                ir <= result@.len(),
                jr <= result@[0]@.len(),
                c0 == lift_mat(rows_view(old(result)@)),
                ea == lift_opt(matrix_a),
                eb == lift_opt(matrix_b),
                nonneg_mat(c0),
                nonneg_mat(p),
                c0.len() == result@.len(),
                dist_rect(c0, w),
                w == result@[0]@.len() as int,
                (match ea {
                    Some(m) => nonneg_mat(m) && dist_rect(m, aw) && ir <= m.len() && kr as int
                        <= aw,
                    None => kr as int <= w,
                }),
                (match eb {
                    Some(m) => nonneg_mat(m) && dist_rect(m, bw) && kr <= m.len() && jr as int
                        <= bw,
                    None => kr <= c0.len(),
                }),
                p == pass_gen(c0, ea, eb, k as nat, ir as int, jr as int),
                au == opsel(p, ea),
                bu == opsel(p, eb),
                p.len() == c0.len(),
                dist_rect(p, w),
                lift_mat(rows_view(result@)) == product_prefix(
                    p,
                    au,
                    bu,
                    k as int,
                    i as int,
                    0,
                    ir as int,
                    jr as int,
                ),
            decreases ir - i,
        {
            let mut j: usize = 0;
            while j < jr
                invariant
                    j <= jr,
                    i < ir,
                    k < kr,
                    result@.len() >= 1,
                    rect(result@),
                    result@.len() == old(result)@.len(),
                    forall|r: int|
                        0 <= r < old(result)@.len() ==> (#[trigger] result@[r])@.len() == old(
                            result,
                        )@[r]@.len(),
                    ir <= result@.len(),
                    jr <= result@[0]@.len(),
                    c0 == lift_mat(rows_view(old(result)@)),
                    ea == lift_opt(matrix_a),
                    eb == lift_opt(matrix_b),
                    nonneg_mat(c0),
                    nonneg_mat(p),
                    c0.len() == result@.len(),
                    dist_rect(c0, w),
                    w == result@[0]@.len() as int,
                    (match ea {
                        Some(m) => nonneg_mat(m) && dist_rect(m, aw) && ir <= m.len() && kr as int
                            <= aw,
                        None => kr as int <= w,
                    }),
                    (match eb {
                        Some(m) => nonneg_mat(m) && dist_rect(m, bw) && kr <= m.len() && jr as int
                            <= bw,
                        None => kr <= c0.len(),
                    }),
                    p == pass_gen(c0, ea, eb, k as nat, ir as int, jr as int),
                    au == opsel(p, ea),
                    bu == opsel(p, eb),
                    p.len() == c0.len(),
                    dist_rect(p, w),
                    lift_mat(rows_view(result@)) == product_prefix(
                        p,
                        au,
                        bu,
                        k as int,
                        i as int,
                        j as int,
                        ir as int,
                        jr as int,
                    ),
                decreases jr - j,
            {
                let ghost cur = product_prefix(
                    p,
                    au,
                    bu,
                    k as int,
                    i as int,
                    j as int,
                    ir as int,
                    jr as int,
                );
                proof {
                    if k < (jr as int) {
                        match eb {
                            Some(m) => {
                                assert(dist_nonneg(bu[k as int][k as int]));
                            },
                            None => {
                                assert(bu == p);
                                assert(dist_nonneg(p[k as int][k as int]));
                            },
                        }
                    }
                    if k < (ir as int) {
                        match ea {
                            Some(m) => {
                                assert(dist_nonneg(au[k as int][k as int]));
                            },
                            None => {
                                assert(au == p);
                                assert(dist_nonneg(p[k as int][k as int]));
                            },
                        }
                    }
                }
                let av = match matrix_a {
                    Some(m) => m[i][k],
                    None => result[i][k],
                };
                let bv = match matrix_b {
                    Some(m) => m[k][j],
                    None => result[k][j],
                };
                proof {
                    match matrix_a {
                        Some(m) => {
                            lemma_lift_mat_index(m@, i as int, k as int);
                            assert(lift_cell(av) == au[i as int][k as int]);
                        },
                        None => {
                            lemma_lift_mat_index(result@, i as int, k as int);
                            lemma_prefix_col_stable(
                                p,
                                bu,
                                k as int,
                                i as int,
                                j as int,
                                ir as int,
                                jr as int,
                                i as int,
                            );
                            assert(lift_cell(av) == au[i as int][k as int]);
                        },
                    }
                    match matrix_b {
                        Some(m) => {
                            lemma_lift_mat_index(m@, k as int, j as int);
                            assert(lift_cell(bv) == bu[k as int][j as int]);
                        },
                        None => {
                            lemma_lift_mat_index(result@, k as int, j as int);
                            lemma_prefix_row_stable(
                                p,
                                au,
                                k as int,
                                i as int,
                                j as int,
                                ir as int,
                                jr as int,
                                j as int,
                            );
                            assert(lift_cell(bv) == bu[k as int][j as int]);
                        },
                    }
                    lemma_lift_mat_index(result@, i as int, j as int);
                    assert(lift_cell(result@[i as int]@[j as int]) == cur[i as int][j as int]);
                    assert(cur[i as int][j as int] == p[i as int][j as int]);
                }
                if let (Some(aik), Some(bkj)) = (av, bv) {
                    let sum128 = (aik as u128) + (bkj as u128);
                    if sum128 <= (u64::MAX as u128) {
                        let cand = sum128 as u64;
                        let cur_cell = result[i][j];
                        let improves = match cur_cell {
                            Some(cij) => cij > cand,
                            None => true,
                        };
                        if improves {
                            result[i][j] = Some(cand);
                        }
                    }
                }
                proof {
                    assert(lift_mat(rows_view(result@)) =~~= product_prefix(
                        p,
                        au,
                        bu,
                        k as int,
                        i as int,
                        j + 1,
                        ir as int,
                        jr as int,
                    )) by {
                        assert forall|r: int, cc: int|
                            0 <= r < p.len() && 0 <= cc < p[r].len() implies lift_cell(
                            result@[r]@[cc],
                        ) == product_prefix(
                            p,
                            au,
                            bu,
                            k as int,
                            i as int,
                            j + 1,
                            ir as int,
                            jr as int,
                        )[r][cc] by {
                            lemma_lift_mat_index(result@, r, cc);
                            if r == i as int && cc == j as int {
                                assert(product_prefix(
                                    p,
                                    au,
                                    bu,
                                    k as int,
                                    i as int,
                                    j + 1,
                                    ir as int,
                                    jr as int,
                                )[r][cc] == product_cell(p, au, bu, k as int, r, cc));
                            } else {
                                assert(lift_cell(result@[r]@[cc]) == cur[r][cc]);
                                assert(product_prefix(
                                    p,
                                    au,
                                    bu,
                                    k as int,
                                    i as int,
                                    j + 1,
                                    ir as int,
                                    jr as int,
                                )[r][cc] == cur[r][cc]);
                            }
                        }
                    }
                }
                j = j + 1;
            }
            proof {
                assert(product_prefix(p, au, bu, k as int, i as int, jr as int, ir as int, jr as int)
                    =~~= product_prefix(p, au, bu, k as int, i + 1, 0, ir as int, jr as int));
            }
            i = i + 1;
        }
        proof {
            assert(product_prefix(p, au, bu, k as int, ir as int, 0, ir as int, jr as int)
                =~~= product_step(p, au, bu, k as int, ir as int, jr as int));
            assert(pass_gen(c0, ea, eb, (k + 1) as nat, ir as int, jr as int) == product_step(
                p,
                au,
                bu,
                k as int,
                ir as int,
                jr as int,
            ));
        }
        k = k + 1;
    }
}

/// Min-plus self-product: the accumulator serves as both operands, one
/// self-contained relaxation pass over a block.
pub fn floyd_warshall_in_place1(matrix_c: &Vec<Vec<Option<u64>>>, b: usize) -> (result: Vec<
    Vec<Option<u64>>,
>)
    requires
        matrix_c@.len() >= 1,
        rect(matrix_c@),
    ensures
        result@.len() == matrix_c@.len(),
        forall|r: int|
            0 <= r < matrix_c@.len() ==> (#[trigger] result@[r])@.len() == matrix_c@[r]@.len(),
        lift_mat(rows_view(result@)) == pass_gen(
            lift_mat(rows_view(matrix_c@)),
            None,
            None,
            imin(b as int, imin(matrix_c@[0]@.len() as int, matrix_c@.len() as int)) as nat,
            imin(b as int, matrix_c@.len() as int),
            imin(b as int, matrix_c@[0]@.len() as int),
        ),
{
    let mut result = copy_matrix(matrix_c);
    let height = result.len();
    let width = result[0].len();
    let kr = if b < width {
        b
    } else {
        width
    };
    let kr = if kr < height {
        kr
    } else {
        height
    };
    let ir = if b < height {
        b
    } else {
        height
    };
    let jr = if b < width {
        b
    } else {
        width
    };
    proof {
        assert(rows_view(result@) =~~= rows_view(matrix_c@));
    }
    min_plus_run(&mut result, None, None, kr, ir, jr);
    result
}

/// Min-plus product with the left operand fixed: `C = min(C, A * C)`.
pub fn floyd_warshall_in_place2(
    matrix_c: &Vec<Vec<Option<u64>>>,
    matrix_a: &Vec<Vec<Option<u64>>>,
    b: usize,
) -> (result: Vec<Vec<Option<u64>>>)
    requires
        matrix_c@.len() >= 1,
        matrix_a@.len() >= 1,
        rect(matrix_c@),
        rect(matrix_a@),
    ensures
        result@.len() == matrix_c@.len(),
        forall|r: int|
            0 <= r < matrix_c@.len() ==> (#[trigger] result@[r])@.len() == matrix_c@[r]@.len(),
        lift_mat(rows_view(result@)) == pass_gen(
            lift_mat(rows_view(matrix_c@)),
            Some(lift_mat(rows_view(matrix_a@))),
            None,
            imin(b as int, imin(matrix_a@[0]@.len() as int, matrix_c@.len() as int)) as nat,
            imin(b as int, imin(matrix_a@.len() as int, matrix_c@.len() as int)),
            imin(b as int, matrix_c@[0]@.len() as int),
        ),
{
    let mut result = copy_matrix(matrix_c);
    let height = result.len();
    let width = result[0].len();
    let a_height = matrix_a.len();
    let a_width = matrix_a[0].len();
    let kr = if b < a_width {
        b
    } else {
        a_width
    };
    let kr = if kr < height {
        kr
    } else {
        height
    };
    let ir = if b < a_height {
        b
    } else {
        a_height
    };
    let ir = if ir < height {
        ir
    } else {
        height
    };
    let jr = if b < width {
        b
    } else {
        width
    };
    proof {
        assert(rows_view(result@) =~~= rows_view(matrix_c@));
    }
    min_plus_run(&mut result, Some(matrix_a), None, kr, ir, jr);
    result
}

/// Min-plus product with the right operand fixed: `C = min(C, C * B)`.
pub fn floyd_warshall_in_place3(
    matrix_c: &Vec<Vec<Option<u64>>>,
    matrix_b: &Vec<Vec<Option<u64>>>,
    b: usize,
) -> (result: Vec<Vec<Option<u64>>>)
    requires
        matrix_c@.len() >= 1,
        matrix_b@.len() >= 1,
        rect(matrix_c@),
        rect(matrix_b@),
    ensures
        result@.len() == matrix_c@.len(),
        forall|r: int|
            0 <= r < matrix_c@.len() ==> (#[trigger] result@[r])@.len() == matrix_c@[r]@.len(),
        lift_mat(rows_view(result@)) == pass_gen(
            lift_mat(rows_view(matrix_c@)),
            None,
            Some(lift_mat(rows_view(matrix_b@))),
            imin(b as int, imin(matrix_c@[0]@.len() as int, matrix_b@.len() as int)) as nat,
            imin(b as int, matrix_c@.len() as int),
            imin(b as int, imin(matrix_b@[0]@.len() as int, matrix_c@[0]@.len() as int)),
        ),
{
    let mut result = copy_matrix(matrix_c);
    let height = result.len();
    let width = result[0].len();
    let b_height = matrix_b.len();
    let b_width = matrix_b[0].len();
    let kr = if b < width {
        b
    } else {
        width
    };
    let kr = if kr < b_height {
        kr
    } else {
        b_height
    };
    let ir = if b < height {
        b
    } else {
        height
    };
    let jr = if b < b_width {
        b
    } else {
        b_width
    };
    let jr = if jr < width {
        jr
    } else {
        width
    };
    proof {
        assert(rows_view(result@) =~~= rows_view(matrix_c@));
    }
    min_plus_run(&mut result, None, Some(matrix_b), kr, ir, jr);
    result
}

/// Min-plus product with both operands fixed: `C = min(C, A * B)`.
pub fn floyd_warshall_in_place4(
    matrix_c: &Vec<Vec<Option<u64>>>,
    matrix_a: &Vec<Vec<Option<u64>>>,
    matrix_b: &Vec<Vec<Option<u64>>>,
    b: usize,
) -> (result: Vec<Vec<Option<u64>>>)
    requires
        matrix_c@.len() >= 1,
        matrix_a@.len() >= 1,
        matrix_b@.len() >= 1,
        rect(matrix_c@),
        rect(matrix_a@),
        rect(matrix_b@),
    ensures
        result@.len() == matrix_c@.len(),
        forall|r: int|
            0 <= r < matrix_c@.len() ==> (#[trigger] result@[r])@.len() == matrix_c@[r]@.len(),
        lift_mat(rows_view(result@)) == pass_gen(
            lift_mat(rows_view(matrix_c@)),
            Some(lift_mat(rows_view(matrix_a@))),
            Some(lift_mat(rows_view(matrix_b@))),
            imin(b as int, imin(matrix_a@[0]@.len() as int, matrix_b@.len() as int)) as nat,
            imin(b as int, imin(matrix_a@.len() as int, matrix_c@.len() as int)),
            imin(b as int, imin(matrix_b@[0]@.len() as int, matrix_c@[0]@.len() as int)),
        ),
{
    let mut result = copy_matrix(matrix_c);
    let height = result.len();
    let width = result[0].len();
    let kr = if b < matrix_a[0].len() {
        b
    } else {
        matrix_a[0].len()
    };
    let b_height = matrix_b.len();
    let kr = if kr < b_height {
        kr
    } else {
        b_height
    };
    let a_height = matrix_a.len();
    let ir = if b < a_height {
        b
    } else {
        a_height
    };
    let ir = if ir < height {
        ir
    } else {
        height
    };
    let b_width = matrix_b[0].len();
    let jr = if b < b_width {
        b
    } else {
        b_width
    };
    let jr = if jr < width {
        jr
    } else {
        width
    };
    proof {
        assert(rows_view(result@) =~~= rows_view(matrix_c@));
    }
    min_plus_run(&mut result, Some(matrix_a), Some(matrix_b), kr, ir, jr);
    result
}

/// The rectangular region of a matrix with the given corner offsets.
pub open spec fn block_of<T>(m: Seq<Seq<T>>, r0: int, r1: int, c0: int, c1: int) -> Seq<Seq<T>> {
    Seq::new((r1 - r0) as nat, |r: int| Seq::new((c1 - c0) as nat, |c: int| m[r0 + r][c0 + c]))
}

/// Copy the region `[row_start..row_end) x [col_start..col_end)` out of a
/// matrix; bounds are clamped to the matrix's dimensions.
pub fn slice_matrix(
    data: &Vec<Vec<Option<u64>>>,
    row_start: usize,
    row_end: usize,
    col_start: usize,
    col_end: usize,
) -> (sliced_matrix: Vec<Vec<Option<u64>>>)
    requires
        data@.len() >= 1,
        rect(data@),
        row_start as int <= imin(row_end as int, data@.len() as int),
        col_start as int <= imin(col_end as int, data@[0]@.len() as int),
    ensures
        rows_view(sliced_matrix@) == block_of(
            rows_view(data@),
            row_start as int,
            imin(row_end as int, data@.len() as int),
            col_start as int,
            imin(col_end as int, data@[0]@.len() as int),
        ),
        sliced_matrix@.len() == imin(row_end as int, data@.len() as int) - row_start,
        forall|r: int|
            0 <= r < sliced_matrix@.len() ==> (#[trigger] sliced_matrix@[r])@.len() == imin(
                col_end as int,
                data@[0]@.len() as int,
            ) - col_start,
{
    let row_end = if row_end < data.len() {
        row_end
    } else {
        data.len()
    };
    let width = data[0].len();
    let col_end = if col_end < width {
        col_end
    } else {
        width
    };
    let mut sliced_matrix: Vec<Vec<Option<u64>>> = Vec::new();
    let mut r: usize = row_start;
    while r < row_end
        invariant
            row_start <= r <= row_end,
            row_end <= data@.len(),
            col_start <= col_end,
            col_end <= data@[0]@.len(),
            rect(data@),
            sliced_matrix@.len() == r - row_start,
            forall|t: int|
                0 <= t < sliced_matrix@.len() ==> (#[trigger] sliced_matrix@[t])@.len() == col_end
                    - col_start,
            forall|t: int, c: int|
                0 <= t < sliced_matrix@.len() && 0 <= c < col_end - col_start
                    ==> #[trigger] sliced_matrix@[t]@[c] == data@[row_start + t]@[col_start + c],
        decreases row_end - r,
    {
        let mut row: Vec<Option<u64>> = Vec::new();
        let src = &data[r];
        let mut c: usize = col_start;
        while c < col_end
            invariant
                col_start <= c <= col_end,
                col_end <= src@.len(),
                src == &data@[r as int],
                r < data@.len(),
                row@.len() == c - col_start,
                forall|t: int| 0 <= t < row@.len() ==> #[trigger] row@[t] == src@[col_start + t],
            decreases col_end - c,
        {
            row.push(src[c]);
            c = c + 1;
        }
        sliced_matrix.push(row);
        r = r + 1;
    }
    proof {
        assert(rows_view(sliced_matrix@) =~~= block_of(
            rows_view(data@),
            row_start as int,
            row_end as int,
            col_start as int,
            col_end as int,
        ));
    }
    sliced_matrix
}

/// Copy block `(block_row, block_col)` of a matrix partitioned into square
/// blocks of the given size.
pub fn slice_matrix_block(
    data: &Vec<Vec<Option<u64>>>,
    block_row: usize,
    block_col: usize,
    block_size: usize,
) -> (r: Vec<Vec<Option<u64>>>)
    requires
        data@.len() >= 1,
        rect(data@),
        block_row < usize::MAX,
        block_col < usize::MAX,
        (block_row + 1) * block_size <= usize::MAX,
        (block_col + 1) * block_size <= usize::MAX,
        block_row * block_size <= data@.len(),
        block_col * block_size <= data@[0]@.len(),
    ensures
        rows_view(r@) == block_of(
            rows_view(data@),
            block_row as int * block_size as int,
            imin((block_row + 1) as int * block_size as int, data@.len() as int),
            block_col as int * block_size as int,
            imin((block_col + 1) as int * block_size as int, data@[0]@.len() as int),
        ),
        r@.len() == imin((block_row + 1) as int * block_size as int, data@.len() as int)
            - block_row as int * block_size as int,
        forall|t: int|
            0 <= t < r@.len() ==> (#[trigger] r@[t])@.len() == imin(
                (block_col + 1) as int * block_size as int,
                data@[0]@.len() as int,
            ) - block_col as int * block_size as int,
{
    proof {
        assert(block_row * block_size <= (block_row + 1) * block_size) by (nonlinear_arith)
            requires block_size >= 0, block_row >= 0;
        assert(block_col * block_size <= (block_col + 1) * block_size) by (nonlinear_arith)
            requires block_size >= 0, block_col >= 0;
    }
    let row_start = block_row * block_size;
    let row_end = (block_row + 1) * block_size;
    let col_start = block_col * block_size;
    let col_end = (block_col + 1) * block_size;
    slice_matrix(data, row_start, row_end, col_start, col_end)
}

/// Copy a block out of a matrix without taking ownership of the source;
/// the same region as `slice_matrix_block`.
pub fn slice_matrix_immut(
    data: &Vec<Vec<Option<u64>>>,
    block_row: usize,
    block_col: usize,
    block_size: usize,
) -> (r: Vec<Vec<Option<u64>>>)
    requires
        data@.len() >= 1,
        rect(data@),
        block_row < usize::MAX,
        block_col < usize::MAX,
        (block_row + 1) * block_size <= usize::MAX,
        (block_col + 1) * block_size <= usize::MAX,
        block_row * block_size <= data@.len(),
        block_col * block_size <= data@[0]@.len(),
    ensures
        rows_view(r@) == block_of(
            rows_view(data@),
            block_row as int * block_size as int,
            imin((block_row + 1) as int * block_size as int, data@.len() as int),
            block_col as int * block_size as int,
            imin((block_col + 1) as int * block_size as int, data@[0]@.len() as int),
        ),
        r@.len() == imin((block_row + 1) as int * block_size as int, data@.len() as int)
            - block_row as int * block_size as int,
        forall|t: int|
            0 <= t < r@.len() ==> (#[trigger] r@[t])@.len() == imin(
                (block_col + 1) as int * block_size as int,
                data@[0]@.len() as int,
            ) - block_col as int * block_size as int,
{
    slice_matrix_block(data, block_row, block_col, block_size)
}

/// Write a block back into a larger matrix at the given corner: the region
/// takes the block's cells, every other cell keeps its value.
pub fn write_back_to_distance(
    distance: &mut Vec<Vec<Option<u64>>>,
    block_matrix: &Vec<Vec<Option<u64>>>,
    row_start: usize,
    col_start: usize,
)
    requires
        rect(old(distance)@),
        rect(block_matrix@),
        block_matrix@.len() >= 1,
        row_start + block_matrix@.len() <= old(distance)@.len(),
        old(distance)@.len() >= 1,
        col_start + block_matrix@[0]@.len() <= old(distance)@[0]@.len(),
    ensures
        final(distance)@.len() == old(distance)@.len(),
        forall|r: int|
            0 <= r < old(distance)@.len() ==> (#[trigger] final(distance)@[r])@.len() == old(
                distance,
            )@[r]@.len(),
        forall|r: int, c: int|
            0 <= r < block_matrix@.len() && 0 <= c < block_matrix@[0]@.len()
                ==> #[trigger] final(distance)@[row_start + r]@[col_start + c]
                == block_matrix@[r]@[c],
        forall|r: int, c: int|
            0 <= r < old(distance)@.len() && 0 <= c < old(distance)@[r]@.len() && !(row_start <= r
                < row_start + block_matrix@.len() && col_start <= c < col_start
                + block_matrix@[0]@.len()) ==> #[trigger] final(distance)@[r]@[c] == old(
                distance,
            )@[r]@[c],
{
    let total_rows = distance.len();
    let total_cols = distance[0].len();
    proof {
        assert(row_start + block_matrix@.len() <= total_rows);
        assert(col_start + block_matrix@[0]@.len() <= total_cols);
    }
    let row_end = row_start + block_matrix.len();
    let col_end = col_start + block_matrix[0].len();
    let mut i: usize = row_start;
    while i < row_end
        invariant
            row_start <= i <= row_end,
            row_end == row_start + block_matrix@.len(),
            col_end == col_start + block_matrix@[0]@.len(),
            rect(block_matrix@),
            row_end <= distance@.len(),
            distance@.len() == old(distance)@.len(),
            col_end <= old(distance)@[0]@.len(),
            rect(old(distance)@),
            forall|r: int|
                0 <= r < old(distance)@.len() ==> (#[trigger] distance@[r])@.len() == old(
                    distance,
                )@[r]@.len(),
            forall|r: int, c: int|
                row_start <= r < i && col_start <= c < col_end
                    ==> #[trigger] distance@[r]@[c] == block_matrix@[r - row_start]@[c - col_start],
            forall|r: int, c: int|
                0 <= r < old(distance)@.len() && 0 <= c < old(distance)@[r]@.len() && !(row_start
                    <= r < i && col_start <= c < col_end) ==> #[trigger] distance@[r]@[c] == old(
                    distance,
                )@[r]@[c],
        decreases row_end - i,
    {
        let mut j: usize = col_start;
        while j < col_end
            invariant
                col_start <= j <= col_end,
                row_start <= i < row_end,
                row_end == row_start + block_matrix@.len(),
                col_end == col_start + block_matrix@[0]@.len(),
                rect(block_matrix@),
                row_end <= distance@.len(),
                distance@.len() == old(distance)@.len(),
                col_end <= old(distance)@[0]@.len(),
                rect(old(distance)@),
                forall|r: int|
                    0 <= r < old(distance)@.len() ==> (#[trigger] distance@[r])@.len() == old(
                        distance,
                    )@[r]@.len(),
                forall|r: int, c: int|
                    row_start <= r < i && col_start <= c < col_end
                        ==> #[trigger] distance@[r]@[c] == block_matrix@[r - row_start]@[c
                        - col_start],
                forall|c: int|
                    col_start <= c < j ==> #[trigger] distance@[i as int]@[c] == block_matrix@[
                        i - row_start
                    ]@[c - col_start],
                forall|r: int, c: int|
                    0 <= r < old(distance)@.len() && 0 <= c < old(distance)@[r]@.len() && !(
                    row_start <= r < i && col_start <= c < col_end) && !(r == i as int && col_start
                        <= c < j) ==> #[trigger] distance@[r]@[c] == old(distance)@[r]@[c],
            decreases col_end - j,
        {
            distance[i][j] = block_matrix[i - row_start][j - col_start];
            j = j + 1;
        }
        i = i + 1;
    }
}

/// A fresh row-by-row copy of a matrix.
pub fn copy_matrix(m: &Vec<Vec<Option<u64>>>) -> (r: Vec<Vec<Option<u64>>>)
    ensures
        r@.len() == m@.len(),
        forall|i: int| 0 <= i < m@.len() ==> #[trigger] r@[i]@ == m@[i]@,
{
    let mut r: Vec<Vec<Option<u64>>> = Vec::new();
    let mut i: usize = 0;
    while i < m.len()
        invariant
            i <= m@.len(),
            r@.len() == i,
            forall|t: int| 0 <= t < i ==> #[trigger] r@[t]@ == m@[t]@,
        decreases m@.len() - i,
    {
        let mut row: Vec<Option<u64>> = Vec::new();
        let mut j: usize = 0;
        let src = &m[i];
        while j < src.len()
            invariant
                j <= src@.len(),
                row@ == src@.subrange(0, j as int),
            decreases src@.len() - j,
        {
            row.push(src[j]);
            proof {
                assert(row@ =~= src@.subrange(0, j + 1));
            }
            j = j + 1;
        }
        proof {
            assert(row@ =~= src@);
        }
        r.push(row);
        i = i + 1;
    }
    r
}

/// Set every diagonal cell of a square matrix to `Some(0)`: a node is always
/// at distance zero from itself. After this, the matrix lifts to `init_mat`.
pub fn set_diag_zero(m: &mut Vec<Vec<Option<u64>>>)
    requires
        vec_square(old(m)@, old(m)@.len()),
    ensures
        final(m)@.len() == old(m)@.len(),
        vec_square(final(m)@, final(m)@.len()),
        lift_mat(rows_view(final(m)@)) == init_mat(rows_view(old(m)@)),
{
    let ghost g = rows_view(old(m)@);
    let ghost n = m@.len();
    let mut i: usize = 0;
    while i < m.len()
        invariant
            i <= n,
            m@.len() == n,
            vec_square(m@, n),
            g.len() == n,
            forall|r: int| 0 <= r < n ==> #[trigger] g[r].len() == n,
            forall|r: int, c: int|
                0 <= r < n && 0 <= c < n && !(r == c && r < i) ==> #[trigger] m@[r]@[c] == g[r][c],
            forall|r: int| 0 <= r < i ==> #[trigger] m@[r]@[r] == Some(0u64),
        decreases n - i,
    {
        m[i][i] = Some(0);
        i = i + 1;
    }
    proof {
        assert(lift_mat(rows_view(m@)) =~~= init_mat(g));
    }
}

} // verus!
