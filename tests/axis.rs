use tensordot::array::{moveaxis_dyn, moveaxis_static, FixedArray, NdArray, ShapeError};
use tensordot::permutation::moveaxis_permutation;

fn range_array(shape: &[usize]) -> NdArray {
    let count: usize = shape.iter().product();
    NdArray::from_shape_vec(shape.to_vec(), (0..count as i64).collect()).unwrap()
}

#[test]
fn test_moveaxis_dyn() {
    let arr_2x3x4x5 = range_array(&[2, 3, 4, 5]);
    let arr_4x2x3x5 = moveaxis_dyn(arr_2x3x4x5, &[2], &[0]);
    assert_eq!(arr_4x2x3x5.shape(), [4, 2, 3, 5]);
}

#[test]
fn test_moveaxis_static() {
    let arr_2x3x4x5: FixedArray<4> = FixedArray::from_array(range_array(&[2, 3, 4, 5])).unwrap();
    let arr_4x2x3x5 = moveaxis_static(arr_2x3x4x5, &[2], &[0]);
    assert_eq!(arr_4x2x3x5.array.shape(), [4, 2, 3, 5]);
}

#[test]
fn moveaxis_reorders_elements() {
    let a = range_array(&[2, 3]);
    let b = moveaxis_dyn(a, &[0], &[1]);
    assert_eq!(b.shape(), [3, 2]);
    assert_eq!(b.data(), [0, 3, 1, 4, 2, 5]);
}

#[test]
fn moveaxis_element_lookup() {
    let a = range_array(&[2, 3, 4, 5]);
    let b = moveaxis_dyn(a, &[2], &[0]);
    // b[k][i][j][l] == a[i][j][k][l] == ((i * 3 + j) * 4 + k) * 5 + l
    let (k, i, j, l) = (3usize, 1usize, 2usize, 4usize);
    let pos = ((k * 2 + i) * 3 + j) * 5 + l;
    assert_eq!(b.data()[pos], (((i * 3 + j) * 4 + k) * 5 + l) as i64);
}

#[test]
fn moveaxis_nothing_is_identity() {
    let a = range_array(&[2, 3, 4]);
    let b = moveaxis_dyn(a, &[], &[]);
    assert_eq!(b.shape(), [2, 3, 4]);
    assert_eq!(b.data(), (0..24).collect::<Vec<i64>>().as_slice());
}

#[test]
fn moveaxis_round_trip() {
    let a = range_array(&[2, 3, 4, 5]);
    let b = moveaxis_dyn(a, &[3, 0], &[1, 2]);
    assert_eq!(b.shape(), [3, 5, 2, 4]);
    assert_eq!(b.data().len(), 120);
    let c = moveaxis_dyn(b, &[1, 2], &[3, 0]);
    assert_eq!(c.shape(), [2, 3, 4, 5]);
    assert_eq!(c.data(), (0..120).collect::<Vec<i64>>().as_slice());
}

#[test]
fn moveaxis_keeps_shape_values() {
    let a = range_array(&[2, 3, 4, 5]);
    let b = moveaxis_dyn(a, &[0, 1], &[3, 2]);
    let mut shape = b.shape().to_vec();
    assert_eq!(shape, [4, 5, 3, 2]);
    shape.sort();
    assert_eq!(shape, [2, 3, 4, 5]);
}

#[test]
fn permutation_of_a_move() {
    assert_eq!(moveaxis_permutation(4, &[2], &[0]), [2, 0, 1, 3]);
    assert_eq!(moveaxis_permutation(4, &[0, 3], &[3, 0]), [3, 1, 2, 0]);
    assert_eq!(moveaxis_permutation(3, &[], &[]), [0, 1, 2]);
    assert_eq!(moveaxis_permutation(5, &[4, 1], &[0, 4]), [4, 0, 2, 3, 1]);
}

#[test]
fn fixed_rank_refuses_other_rank() {
    let a = range_array(&[2, 3]);
    assert!(FixedArray::<3>::from_array(a).is_none());
}

#[test]
fn from_shape_vec_errors() {
    assert_eq!(
        NdArray::from_shape_vec(vec![2, 3], vec![1, 2, 3]).err(),
        Some(ShapeError::IncompatibleShape)
    );
    assert_eq!(
        NdArray::from_shape_vec(vec![usize::MAX, 2, 0], vec![]).err(),
        Some(ShapeError::Overflow)
    );
    let empty = NdArray::from_shape_vec(vec![3, 0], vec![]).unwrap();
    assert_eq!(empty.ndim(), 2);
    let scalar = NdArray::from_shape_vec(vec![], vec![7]).unwrap();
    assert_eq!(scalar.data(), [7]);
}
