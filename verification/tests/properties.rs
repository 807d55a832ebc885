use tnn_core::multiply::mul_band;
use tnn_core::tensor::Tensor;

fn naive_matmul(a: &[i64], b: &[i64], m: usize, k: usize, n: usize) -> Vec<i64> {
    let mut out = vec![0i64; m * n];
    for i in 0..m {
        for j in 0..k {
            for l in 0..n {
                out[i * n + l] += a[i * k + j] * b[j * n + l];
            }
        }
    }
    out
}

#[test]
fn matmul_matches_naive_reference() {
    let a: Vec<i64> = (1..=9).collect();
    let b: Vec<i64> = (2..=10).collect();
    let expected = naive_matmul(&a, &b, 3, 3, 3);

    let t1 = Tensor::from(&[3, 3], a, false);
    let t2 = Tensor::from(&[3, 3], b, false);
    let t3 = t1.matmul(t2).unwrap();

    assert_eq!(t3.to_contiguous(), expected);
}

#[test]
fn matmul_matches_naive_at_odd_dimensions() {
    // 5 x 3 times 3 x 5 exercises every floor-division quadrant boundary.
    let a: Vec<i64> = (1..=15).map(|x| x * 3 - 20).collect();
    let b: Vec<i64> = (1..=15).map(|x| 7 - x).collect();
    let expected = naive_matmul(&a, &b, 5, 3, 5);

    let t1 = Tensor::from(&[5, 3], a, false);
    let t2 = Tensor::from(&[3, 5], b, false);
    let t3 = t1.matmul(t2).unwrap();

    assert_eq!(t3.shape(), vec![5, 5]);
    assert_eq!(t3.to_contiguous(), expected);
}

#[test]
fn band_split_matches_naive_at_odd_dimensions() {
    // The two disjoint row-bands of a 5x3 by 3x7 product, each computed
    // from compacted quadrants, tile the naive product exactly.
    let (m, k, n) = (5usize, 3usize, 7usize);
    let (m_mid, k_mid, n_mid) = (m / 2, k / 2, n / 2);
    let a: Vec<i64> = (0..(m * k) as i64).map(|x| x * x - 11).collect();
    let b: Vec<i64> = (0..(k * n) as i64).map(|x| 5 - 2 * x).collect();
    let expected = naive_matmul(&a, &b, m, k, n);

    let ta = Tensor::from(&[m, k], a, false);
    let tb = Tensor::from(&[k, n], b, true);

    let a11 = ta.sub_block(0, m_mid, 0, k_mid);
    let a12 = ta.sub_block(0, m_mid, k_mid, k);
    let a21 = ta.sub_block(m_mid, m, 0, k_mid);
    let a22 = ta.sub_block(m_mid, m, k_mid, k);
    let b11 = tb.sub_block(0, k_mid, 0, n_mid);
    let b12 = tb.sub_block(0, k_mid, n_mid, n);
    let b21 = tb.sub_block(k_mid, k, 0, n_mid);
    let b22 = tb.sub_block(k_mid, k, n_mid, n);

    let top = mul_band(&a11, &a12, &b11, &b12, &b21, &b22, m_mid, k_mid, k - k_mid, n_mid, n - n_mid);
    let bottom = mul_band(&a21, &a22, &b11, &b12, &b21, &b22, m - m_mid, k_mid, k - k_mid, n_mid, n - n_mid);

    let mut combined = top;
    combined.extend(bottom);
    assert_eq!(combined, expected);
}

#[test]
fn block_mul_at_respects_offset_and_stride() {
    let a = vec![1, 2, 3, 4]; // 2 x 2
    let b = vec![5, 6, 7, 8]; // 2 x 2
    // Two full-width rows of stride 4; the block is their right half.
    let mut out = vec![9, 9, 0, 0, 9, 9, 0, 0];
    Tensor::block_mul_at(&a, &b, &mut out, 2, 2, 2, 2, 4);
    assert_eq!(out, vec![9, 9, 19, 22, 9, 9, 43, 50]);
}

#[test]
fn block_mul_at_accumulates_instead_of_overwriting() {
    let a = vec![1, 0, 0, 1]; // identity, 2 x 2
    let b = vec![1, 2, 3, 4];
    let mut out = vec![100, 200, 300, 400];
    Tensor::block_mul_at(&a, &b, &mut out, 0, 2, 2, 2, 2);
    assert_eq!(out, vec![101, 202, 303, 404]);
}

#[test]
fn reshape_round_trip_recovers_buffer() {
    let data = vec![4, 8, 15, 16, 23, 42];
    let mut tensor = Tensor::from(&[2, 3], data.clone(), false);
    tensor.reshape(&[3, 2]);
    tensor.reshape(&[2, 3]);
    assert_eq!(tensor.shape(), vec![2, 3]);
    assert_eq!(tensor.data, data);
}

#[test]
fn reshape_keeps_flat_element_order() {
    let data = vec![1, 2, 3, 4, 5, 6];
    let mut tensor = Tensor::from(&[2, 3], data.clone(), true);
    tensor.reshape(&[6, 1]);
    assert_eq!(tensor.to_contiguous(), data);
}

#[test]
fn add_commutes() {
    let mut t1 = Tensor::from(&[2, 2], vec![5, -3, 0, 12], false);
    let mut t2 = Tensor::from(&[2, 2], vec![-1, 4, 9, -7], true);
    let left = t1.add(t2.clone());
    let right = t2.add(t1.clone());
    assert_eq!(left.to_contiguous(), right.to_contiguous());
    assert_eq!(left.to_contiguous(), vec![4, 1, 9, 5]);
}

#[test]
fn relu_is_idempotent_and_nonnegative() {
    let mut t = Tensor::from(&[2, 3], vec![-5, 0, 3, -1, 7, -200], true);
    t.relu();
    let once = t.to_contiguous();
    assert!(once.iter().all(|x| *x >= 0));
    t.relu();
    assert_eq!(t.to_contiguous(), once);
    assert_eq!(once, vec![0, 0, 3, 0, 7, 0]);
}

#[test]
fn matmul_rejects_row_column_mismatch() {
    // The compatibility rule compares left rows with right columns.
    let t1 = Tensor::from(&[2, 3], vec![1, 2, 3, 4, 5, 6], false);
    let t2 = Tensor::from(&[4, 5], (1..=20).collect(), false);
    let err = t1.matmul(t2).unwrap_err();
    assert_eq!(err.left, vec![2, 3]);
    assert_eq!(err.right, vec![4, 5]);
}

#[test]
fn matmul_rejects_inner_dimension_mismatch() {
    // Left rows equal right columns, but no product is defined: the call
    // still returns the structured error instead of failing fatally.
    let t1 = Tensor::from(&[2, 5], vec![1, 2, 3, 4, 5, 6, 7, 8, 9, 10], false);
    let t2 = Tensor::from(&[3, 2], vec![1, 2, 3, 4, 5, 6], false);
    let err = t1.matmul(t2).unwrap_err();
    assert_eq!(err.left, vec![2, 5]);
    assert_eq!(err.right, vec![3, 2]);
}

#[test]
fn zeros_has_requested_shape_and_zero_values() {
    let t = Tensor::zeros(&[3, 4]);
    assert_eq!(t.shape(), vec![3, 4]);
    assert_eq!(t.to_contiguous(), vec![0; 12]);
}

#[test]
fn column_major_layout_is_normalized() {
    let t = Tensor::from(&[2, 3], vec![1, 2, 3, 4, 5, 6], true);
    // Physical storage is column-first; the logical order is unchanged.
    assert!(t.column_major);
    assert_eq!(t.data, vec![1, 4, 2, 5, 3, 6]);
    assert_eq!(t.to_contiguous(), vec![1, 2, 3, 4, 5, 6]);

    let r = Tensor::from(&[2, 3], vec![1, 2, 3, 4, 5, 6], false);
    assert!(!r.column_major);
    assert_eq!(r.data, vec![1, 2, 3, 4, 5, 6]);
}

#[test]
fn sub_block_extracts_compacted_copy() {
    let t = Tensor::from(&[3, 4], (1..=12).collect(), true);
    let block = t.sub_block(1, 3, 1, 3);
    assert_eq!(block, vec![6, 7, 10, 11]);
}

#[test]
fn check_compatible_reports_both_shapes() {
    let t1 = Tensor::from(&[2, 2], vec![1, 2, 3, 4], false);
    let t2 = Tensor::from(&[2, 3], vec![1, 2, 3, 4, 5, 6], false);
    let err = Tensor::check_compatible(&t1, &t2).unwrap_err();
    assert_eq!(err.left, vec![2, 2]);
    assert_eq!(err.right, vec![2, 3]);
    assert!(Tensor::check_compatible(&t1, &t1).is_ok());
}
