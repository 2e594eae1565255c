use rumpy::arith::{absolute, arith, arith_bool, negate, ptp, ArithOp, PtpError};
use rumpy::dtype::DType;
use rumpy::npy::RawArray;
use rumpy::raw::{tobytes, ToBytesError};
use rumpy::reduce::ReduceError;
use rumpy::nd::{ArrayError, NdArray};
use rumpy::tiling::{block_2d, block_flat, meshgrid};

fn arr<T: Copy>(shape: &[usize], data: &[T]) -> NdArray<T> {
    NdArray { shape: shape.to_vec(), data: data.to_vec() }
}

#[test]
fn arithmetic_broadcasts_and_wraps() {
    let a = arr(&[2, 2], &[1, 2, 3, 4]);
    let b = arr(&[2], &[10, 20]);
    assert_eq!(arith(&a, &b, ArithOp::Add).unwrap(), arr(&[2, 2], &[11, 22, 13, 24]));
    assert_eq!(arith(&a, &b, ArithOp::Sub).unwrap(), arr(&[2, 2], &[-9, -18, -7, -16]));
    assert_eq!(arith(&a, &b, ArithOp::Mul).unwrap(), arr(&[2, 2], &[10, 40, 30, 80]));
    let big = arr(&[1], &[i64::MAX]);
    assert_eq!(arith(&big, &arr(&[1], &[1]), ArithOp::Add).unwrap().data, vec![i64::MIN]);
    assert_eq!(arith(&big, &arr(&[1], &[2]), ArithOp::Mul).unwrap().data, vec![-2]);
    assert_eq!(arith(&a, &arr(&[3], &[1, 2, 3]), ArithOp::Add), Err(ArrayError::IncompatibleShapes));
}

#[test]
fn floor_division_rounds_down() {
    let a = arr(&[4], &[7, -7, 7, -7]);
    let b = arr(&[4], &[2, 2, -2, -2]);
    assert_eq!(arith(&a, &b, ArithOp::FloorDivide).unwrap().data, vec![3, -4, -4, 3]);
    assert_eq!(arith(&a, &b, ArithOp::Remainder).unwrap().data, vec![1, 1, -1, -1]);
    // a == b * q + r
    let q = arith(&a, &b, ArithOp::FloorDivide).unwrap().data;
    let r = arith(&a, &b, ArithOp::Remainder).unwrap().data;
    for i in 0..4 {
        assert_eq!(a.data[i], b.data[i] * q[i] + r[i]);
    }
}

#[test]
fn boolean_arithmetic() {
    let a = arr(&[4], &[false, false, true, true]);
    let b = arr(&[4], &[false, true, false, true]);
    assert_eq!(arith_bool(&a, &b, ArithOp::Add).unwrap().data, vec![false, true, true, true]);
    assert_eq!(arith_bool(&a, &b, ArithOp::Sub).unwrap().data, vec![false, true, true, false]);
    assert_eq!(arith_bool(&a, &b, ArithOp::Mul).unwrap().data, vec![false, false, false, true]);
}

#[test]
fn negation_and_magnitude() {
    let a = arr(&[3], &[3, -4, 0]);
    assert_eq!(negate(&a).data, vec![-3, 4, 0]);
    assert_eq!(negate(&NdArray { shape: vec![1], data: vec![i64::MIN] }).data, vec![i64::MIN]);
    assert_eq!(absolute(&a).data, vec![3, 4, 0]);
    assert_eq!(absolute(&arr(&[1], &[i64::MIN])).data, vec![i64::MIN]);
}

#[test]
fn blocks_and_grids() {
    let a = arr(&[2, 1], &[1, 2]);
    let b = arr(&[2, 2], &[3, 4, 5, 6]);
    let c = arr(&[1, 3], &[7, 8, 9]);
    let m = block_2d(&[vec![a.clone(), b.clone()], vec![c.clone()]]).unwrap();
    assert_eq!(m.shape, vec![3, 3]);
    assert_eq!(m.data, vec![1, 3, 4, 2, 5, 6, 7, 8, 9]);
    assert_eq!(block_flat(&[arr(&[2], &[1, 2]), arr(&[1], &[3])]).unwrap(), arr(&[3], &[1, 2, 3]));
    assert_eq!(block_flat::<i64>(&[]), Err(ArrayError::NoArrays));
    assert_eq!(block_2d(&[vec![a.clone()], vec![c]]), Err(ArrayError::IncompatibleShapes));
    let (xx, yy) = meshgrid(&arr(&[3], &[1, 2, 3]), &arr(&[2], &[10, 20]));
    assert_eq!(xx, arr(&[2, 3], &[1, 2, 3, 1, 2, 3]));
    assert_eq!(yy, arr(&[2, 3], &[10, 10, 10, 20, 20, 20]));
}

#[test]
fn peak_to_peak() {
    let a = arr(&[2, 3], &[4, 9, 2, 3, 5, 7]);
    assert_eq!(ptp(&a, None, false).unwrap().data, vec![7]);
    assert_eq!(ptp(&a, Some(&[0]), false).unwrap(), arr(&[3], &[1, 4, 5]));
    assert_eq!(ptp(&a, Some(&[1]), true).unwrap(), arr(&[2, 1], &[7, 4]));
    assert_eq!(ptp(&arr::<i64>(&[0], &[]), None, false), Err(PtpError::Reduce(ReduceError::Empty)));
}

#[test]
fn element_bytes_in_machine_order() {
    let a = RawArray { dtype: DType::I32, shape: vec![2], data: vec![1, 0, 0, 0, 2, 0, 0, 0] };
    let b = tobytes(&a).unwrap();
    let expected: Vec<u8> = [1i32, 2i32].iter().flat_map(|v| v.to_ne_bytes()).collect();
    assert_eq!(b, expected);
    let o = RawArray { dtype: DType::Object, shape: vec![0], data: vec![] };
    assert_eq!(tobytes(&o), Err(ToBytesError::UnsupportedDtype(DType::Object)));
}
