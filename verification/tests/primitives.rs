use apsp::fwb_function::{
    copy_matrix, floyd_warshall_in_place1, floyd_warshall_in_place2, floyd_warshall_in_place3,
    floyd_warshall_in_place4, slice_matrix, slice_matrix_block, slice_matrix_immut,
    write_back_to_distance,
};

fn m(rows: &[&[Option<u64>]]) -> Vec<Vec<Option<u64>>> {
    rows.iter().map(|r| r.to_vec()).collect()
}

#[test]
fn slice_matrix_copies_a_region() {
    let data = m(&[
        &[Some(1), Some(2), Some(3)],
        &[Some(4), Some(5), Some(6)],
        &[Some(7), None, Some(9)],
    ]);
    let s = slice_matrix(&data, 1, 3, 0, 2);
    assert_eq!(s, m(&[&[Some(4), Some(5)], &[Some(7), None]]));
    // Bounds past the matrix are clamped.
    let clamped = slice_matrix(&data, 2, 9, 2, 9);
    assert_eq!(clamped, m(&[&[Some(9)]]));
}

#[test]
fn slice_matrix_block_takes_the_requested_block() {
    let data = m(&[
        &[Some(1), Some(2), Some(3)],
        &[Some(4), Some(5), Some(6)],
        &[Some(7), Some(8), Some(9)],
    ]);
    let block = slice_matrix_block(&data, 1, 0, 2);
    assert_eq!(block, m(&[&[Some(7), Some(8)]]));
    assert_eq!(slice_matrix_immut(&data, 1, 0, 2), block);
    // A short final block keeps only what exists.
    let tail = slice_matrix_block(&data, 1, 1, 2);
    assert_eq!(tail, m(&[&[Some(9)]]));
}

#[test]
fn write_back_replaces_exactly_the_region() {
    let mut distance = m(&[
        &[Some(1), Some(2), Some(3)],
        &[Some(4), Some(5), Some(6)],
        &[Some(7), Some(8), Some(9)],
    ]);
    let block = m(&[&[None, Some(50)]]);
    write_back_to_distance(&mut distance, &block, 1, 1);
    assert_eq!(
        distance,
        m(&[
            &[Some(1), Some(2), Some(3)],
            &[Some(4), None, Some(50)],
            &[Some(7), Some(8), Some(9)],
        ])
    );
}

#[test]
fn copy_matrix_is_deep() {
    let data = m(&[&[Some(1), None], &[None, Some(2)]]);
    let copied = copy_matrix(&data);
    assert_eq!(copied, data);
}

#[test]
fn in_place1_is_a_relaxation_pass() {
    // Two nodes with zero diagonal: the pass closes the 0 -> 1 -> 0 cycle.
    let c = m(&[&[Some(0), Some(3)], &[Some(4), Some(0)]]);
    let relaxed = floyd_warshall_in_place1(&c, 2);
    assert_eq!(relaxed, m(&[&[Some(0), Some(3)], &[Some(4), Some(0)]]));

    // A missing cell is filled by the two-leg candidate.
    let c = m(&[&[Some(0), Some(3), None], &[None, Some(0), Some(2)], &[None, None, Some(0)]]);
    let relaxed = floyd_warshall_in_place1(&c, 3);
    assert_eq!(relaxed[0][2], Some(5));
}

#[test]
fn in_place2_fixes_the_left_operand() {
    // C = min(C, A * C): one pivot, A supplies the row legs.
    let c = m(&[&[Some(10), Some(7)], &[Some(1), Some(9)]]);
    let a = m(&[&[Some(0), Some(2)], &[Some(2), Some(0)]]);
    let out = floyd_warshall_in_place2(&c, &a, 2);
    // Pivot 0: C[1][1] relaxes through A[1][0] + C[0][1] = 2 + 7 = 9 (tie);
    // pivot 1: C[0][0] relaxes through A[0][1] + C[1][0] = 2 + 1 = 3.
    assert_eq!(out[0][0], Some(3));
    assert_eq!(out[1][0], Some(1));
}

#[test]
fn in_place3_fixes_the_right_operand() {
    let c = m(&[&[Some(10), Some(1)], &[Some(7), Some(9)]]);
    let b = m(&[&[Some(0), Some(2)], &[Some(2), Some(0)]]);
    let out = floyd_warshall_in_place3(&c, &b, 2);
    // Pivot 1: C[0][0] relaxes through C[0][1] + B[1][0] = 1 + 2 = 3.
    assert_eq!(out[0][0], Some(3));
    assert_eq!(out[0][1], Some(1));
}

#[test]
fn in_place4_keeps_both_operands_fixed() {
    let c = m(&[&[None, None], &[None, None]]);
    let a = m(&[&[Some(1), Some(2)], &[Some(3), Some(4)]]);
    let b = m(&[&[Some(10), Some(20)], &[Some(30), Some(40)]]);
    let out = floyd_warshall_in_place4(&c, &a, &b, 2);
    // Each cell becomes min over k of a[i][k] + b[k][j].
    assert_eq!(out, m(&[&[Some(11), Some(21)], &[Some(13), Some(23)]]));
}

#[test]
fn in_place_respects_the_block_bound() {
    // With bound 1, only pivot 0 and the top-left cell range are touched.
    let c = m(&[&[Some(9), Some(9)], &[Some(9), Some(9)]]);
    let a = m(&[&[Some(1), Some(1)], &[Some(1), Some(1)]]);
    let b = m(&[&[Some(1), Some(1)], &[Some(1), Some(1)]]);
    let out = floyd_warshall_in_place4(&c, &a, &b, 1);
    assert_eq!(out, m(&[&[Some(2), Some(9)], &[Some(9), Some(9)]]));
}

#[test]
fn candidate_sums_that_cannot_be_represented_are_skipped() {
    let c = m(&[&[Some(0), None], &[None, None]]);
    let a = m(&[&[Some(0), Some(u64::MAX)], &[None, Some(0)]]);
    let b = m(&[&[Some(0), None], &[Some(2), Some(2)]]);
    let out = floyd_warshall_in_place4(&c, &a, &b, 2);
    // `u64::MAX + 2` cannot be a weight, so those candidates are skipped.
    assert_eq!(out, m(&[&[Some(0), None], &[Some(2), Some(2)]]));
}
