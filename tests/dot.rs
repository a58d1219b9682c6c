use tensordot::array::{NdArray, ShapeError};
use tensordot::contraction::{outer_product, tensordot};

fn array(shape: &[usize], data: Vec<i64>) -> NdArray {
    NdArray::from_shape_vec(shape.to_vec(), data).unwrap()
}

#[test]
fn test_tensordot() {
    let arr_2x3x4 = array(&[2, 3, 4], (1..=24).collect());
    let arr_4x2x3 = array(&[4, 2, 3], (1..=24).collect());

    let result = tensordot(&arr_2x3x4, &arr_4x2x3, &[0, 2], &[1, 0]);

    assert!(result.is_ok());

    let result = result.unwrap();
    assert_eq!(result.shape(), [3, 3]);
    assert_eq!(
        result.data(),
        [914, 982, 1050, 1282, 1382, 1482, 1650, 1782, 1914]
    );
}

#[test]
fn test_outer_product() {
    let arr_1x2 = array(&[1, 2], vec![1, 2]);
    let arr_3x4 = array(&[3, 4], (1..=12).collect());

    let result = outer_product(&arr_1x2, &arr_3x4);

    assert!(result.is_ok());

    let result = result.unwrap();
    assert_eq!(result.shape(), [1, 2, 3, 4]);
    assert_eq!(
        result.data(),
        [
            1, 2, 3, 4, 5, 6, 7, 8, 9, 10, 11, 12, //
            2, 4, 6, 8, 10, 12, 14, 16, 18, 20, 22, 24,
        ]
    );
}

#[test]
fn contraction_from_zero_based_values() {
    let lhs = array(&[2, 3, 4], (0..24).collect());
    let rhs = array(&[4, 2, 3], (1..=24).collect());
    let result = tensordot(&lhs, &rhs, &[0, 2], &[1, 0]).unwrap();
    assert_eq!(result.shape(), [3, 3]);
    assert_eq!(result.data()[0], 914 - (1 + 4 + 7 + 10 + 13 + 16 + 19 + 22));
}

#[test]
fn contraction_keeps_free_axes_in_order() {
    let lhs = array(&[2, 3, 4], (0..24).collect());
    let rhs = array(&[5, 3, 6], (0..90).collect());
    let result = tensordot(&lhs, &rhs, &[1], &[1]).unwrap();
    assert_eq!(result.shape(), [2, 4, 5, 6]);
    // result[i][k][a][c] = sum_j lhs[i][j][k] * rhs[a][j][c]
    let (i, k, a, c) = (1usize, 2usize, 3usize, 4usize);
    let expected: i64 = (0..3)
        .map(|j| ((i * 12 + j * 4 + k) as i64) * ((a * 18 + j * 6 + c) as i64))
        .sum();
    let pos = ((i * 4 + k) * 5 + a) * 6 + c;
    assert_eq!(result.data()[pos], expected);
}

#[test]
fn matrix_product_as_contraction() {
    let lhs = array(&[2, 3], vec![1, 2, 3, 4, 5, 6]);
    let rhs = array(&[3, 2], vec![7, 8, 9, 10, 11, 12]);
    let result = tensordot(&lhs, &rhs, &[1], &[0]).unwrap();
    assert_eq!(result.shape(), [2, 2]);
    assert_eq!(result.data(), [58, 64, 139, 154]);
}

#[test]
fn full_contraction_is_inner_product() {
    let lhs = array(&[2, 3], vec![1, 2, 3, 4, 5, 6]);
    let rhs = array(&[2, 3], vec![6, 5, 4, 3, 2, 1]);
    let result = tensordot(&lhs, &rhs, &[0, 1], &[0, 1]).unwrap();
    assert_eq!(result.ndim(), 0);
    assert_eq!(result.data(), [6 + 10 + 12 + 12 + 10 + 6]);
}

#[test]
fn full_contraction_with_swapped_axes() {
    let lhs = array(&[2, 3], vec![1, 2, 3, 4, 5, 6]);
    let rhs = array(&[3, 2], vec![1, 4, 2, 5, 3, 6]);
    let result = tensordot(&lhs, &rhs, &[0, 1], &[1, 0]).unwrap();
    assert_eq!(result.shape(), [0usize; 0]);
    assert_eq!(result.data(), [1 + 4 + 9 + 16 + 25 + 36]);
}

#[test]
fn contraction_wraps_on_overflow() {
    let lhs = array(&[1], vec![i64::MAX]);
    let rhs = array(&[1], vec![2]);
    let result = tensordot(&lhs, &rhs, &[0], &[0]).unwrap();
    assert_eq!(result.data(), [i64::MAX.wrapping_mul(2)]);
}

#[test]
fn duplicate_axes_are_refused() {
    let lhs = array(&[2, 2], vec![1, 2, 3, 4]);
    let rhs = array(&[2, 2], vec![1, 2, 3, 4]);
    assert_eq!(
        tensordot(&lhs, &rhs, &[0, 0], &[0, 1]).err(),
        Some(ShapeError::DuplicateAxis)
    );
    assert_eq!(
        tensordot(&lhs, &rhs, &[0, 1], &[1, 1]).err(),
        Some(ShapeError::DuplicateAxis)
    );
}

#[test]
fn axis_out_of_range_is_refused() {
    let lhs = array(&[2, 2], vec![1, 2, 3, 4]);
    let rhs = array(&[2, 2], vec![1, 2, 3, 4]);
    assert_eq!(
        tensordot(&lhs, &rhs, &[2], &[0]).err(),
        Some(ShapeError::OutOfBounds)
    );
}

#[test]
fn mismatched_contraction_is_refused() {
    let lhs = array(&[2, 3], vec![1, 2, 3, 4, 5, 6]);
    let rhs = array(&[2, 3], vec![1, 2, 3, 4, 5, 6]);
    assert_eq!(
        tensordot(&lhs, &rhs, &[1], &[0]).err(),
        Some(ShapeError::IncompatibleShape)
    );
    assert_eq!(
        tensordot(&lhs, &rhs, &[0, 1], &[0]).err(),
        Some(ShapeError::IncompatibleShape)
    );
}

#[test]
fn oversized_result_is_refused() {
    let big = (isize::MAX as usize) / 16;
    let lhs = array(&[big, 0], vec![]);
    let rhs = array(&[0, big], vec![]);
    assert_eq!(
        tensordot(&lhs, &rhs, &[1], &[0]).err(),
        Some(ShapeError::Overflow)
    );
    assert_eq!(outer_product(&lhs, &rhs).err(), Some(ShapeError::Overflow));
}

#[test]
fn outer_product_row_sums() {
    let a = array(&[3], vec![2, -1, 5]);
    let b = array(&[2, 2], vec![1, 2, 3, 4]);
    let result = outer_product(&a, &b).unwrap();
    assert_eq!(result.shape(), [3, 2, 2]);
    let sums: Vec<i64> = result.data().chunks(4).map(|r| r.iter().sum()).collect();
    assert_eq!(sums, [20, -10, 50]);
}

#[test]
fn outer_product_of_scalars() {
    let a = array(&[], vec![3]);
    let b = array(&[], vec![-4]);
    let result = outer_product(&a, &b).unwrap();
    assert_eq!(result.ndim(), 0);
    assert_eq!(result.data(), [-12]);
}

#[test]
fn outer_product_with_empty_axis() {
    let a = array(&[2, 0], vec![]);
    let b = array(&[3], vec![1, 2, 3]);
    let result = outer_product(&a, &b).unwrap();
    assert_eq!(result.shape(), [2, 0, 3]);
    assert!(result.data().is_empty());
}
