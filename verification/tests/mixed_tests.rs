use rumpy::arith::ArithOp;
use rumpy::dtype::DType;
use rumpy::mixed::{binary_op, concatenate, dot, elem_max, elem_min, power, MixedError};
use rumpy::nd::{ArrayError, NdArray};

fn arr(shape: &[usize], data: &[i128]) -> NdArray<i128> {
    NdArray { shape: shape.to_vec(), data: data.to_vec() }
}

#[test]
fn mixed_sums_promote_before_wrapping() {
    // int8 + uint8 promotes to int16, so 100 + 200 does not wrap
    let a = arr(&[2], &[100, -100]);
    let b = arr(&[2], &[200, 255]);
    let (t, v) = binary_op(DType::I8, &a, DType::U8, &b, ArithOp::Add).unwrap();
    assert_eq!(t, DType::I16);
    assert_eq!(v.data, vec![300, 155]);
    // int8 + int8 wraps
    let (t, v) = binary_op(DType::I8, &a, DType::I8, &a, ArithOp::Add).unwrap();
    assert_eq!(t, DType::I8);
    assert_eq!(v.data, vec![-56, 56]);
}

#[test]
fn mixed_floor_divide_and_remainder() {
    let a = arr(&[2], &[7, -7]);
    let b = arr(&[2], &[-2, 2]);
    let (t, q) = binary_op(DType::I16, &a, DType::I32, &b, ArithOp::FloorDivide).unwrap();
    assert_eq!(t, DType::I32);
    assert_eq!(q.data, vec![-4, -4]);
    let (_, r) = binary_op(DType::I16, &a, DType::I32, &b, ArithOp::Remainder).unwrap();
    assert_eq!(r.data, vec![-1, 1]);
}

#[test]
fn mixed_refusals() {
    let a = arr(&[1], &[1]);
    assert_eq!(binary_op(DType::I64, &a, DType::U64, &a, ArithOp::Add), Err(MixedError::NotInteger(DType::F64)));
    let b = arr(&[2], &[1, 2]);
    let c = arr(&[3], &[1, 2, 3]);
    assert_eq!(
        binary_op(DType::I8, &b, DType::I8, &c, ArithOp::Add),
        Err(MixedError::Array(ArrayError::IncompatibleShapes))
    );
    assert_eq!(power(DType::U8, &b, DType::I8, &arr(&[1], &[-1])), Err(MixedError::Array(ArrayError::NegativeExponent)));
}

#[test]
fn mixed_power_promotes() {
    let a = arr(&[2], &[2, 3]);
    let e = arr(&[1], &[10]);
    let (t, v) = power(DType::U8, &a, DType::I8, &e).unwrap();
    assert_eq!(t, DType::I16);
    assert_eq!(v.data, vec![1024, -6487]);
}

#[test]
fn mixed_maximum_and_minimum_compare_exactly() {
    let a = arr(&[3], &[i64::MAX as i128, -1, 5]);
    let b = arr(&[1], &[i64::MAX as i128 - 1]);
    let (t, mx) = elem_max(DType::I64, &a, DType::I32, &arr(&[1], &[0])).unwrap();
    assert_eq!(t, DType::I64);
    assert_eq!(mx.data, vec![i64::MAX as i128, 0, 5]);
    let (_, mn) = elem_min(DType::I64, &a, DType::I64, &b).unwrap();
    assert_eq!(mn.data, vec![i64::MAX as i128 - 1, -1, 5]);
    let one = arr(&[1], &[1]);
    assert_eq!(elem_max(DType::U64, &one, DType::I8, &one), Err(MixedError::NotInteger(DType::F64)));
}

#[test]
fn mixed_concatenate_promotes_and_joins() {
    let a = arr(&[2], &[-1, 2]);
    let b = arr(&[1], &[255]);
    let (t, v) = concatenate(&[DType::I8, DType::U8], &[a.clone(), b.clone()], 0).unwrap();
    assert_eq!(t, DType::I16);
    assert_eq!(v, arr(&[3], &[-1, 2, 255]));
    assert_eq!(concatenate(&[], &[], 0), Err(MixedError::Array(ArrayError::NoArrays)));
    assert_eq!(
        concatenate(&[DType::I64, DType::U64], &[a.clone(), b.clone()], 0),
        Err(MixedError::NotInteger(DType::F64))
    );
    assert_eq!(
        concatenate(&[DType::I8, DType::U8], &[a, b], 1),
        Err(MixedError::Array(ArrayError::AxisOutOfBounds))
    );
}

#[test]
fn dot_of_vectors_and_matrices() {
    let v = arr(&[2], &[100, 100]);
    let w = arr(&[2], &[2, 1]);
    let (t, s) = dot(DType::I8, &v, DType::I8, &w).unwrap();
    assert_eq!(t, DType::I8);
    assert_eq!(s, arr(&[], &[44]));
    let (t, s) = dot(DType::I8, &v, DType::I16, &w).unwrap();
    assert_eq!(t, DType::I16);
    assert_eq!(s.data, vec![300]);
    let m = arr(&[2, 2], &[1, 2, 3, 4]);
    let n = arr(&[2, 2], &[5, 6, 7, 8]);
    assert_eq!(dot(DType::I32, &m, DType::I32, &n).unwrap().1, arr(&[2, 2], &[19, 22, 43, 50]));
    let ones = arr(&[2], &[1, 1]);
    assert_eq!(dot(DType::I32, &m, DType::I32, &ones).unwrap().1, arr(&[2], &[3, 7]));
    assert_eq!(dot(DType::I32, &ones, DType::I32, &m).unwrap().1, arr(&[2], &[4, 6]));
    let rect = arr(&[2, 3], &[1, 2, 3, 4, 5, 6]);
    let col = arr(&[3, 1], &[1, 0, -1]);
    assert_eq!(dot(DType::I64, &rect, DType::I64, &col).unwrap().1, arr(&[2, 1], &[-2, -2]));
    let empty_a = arr(&[2, 0], &[]);
    let empty_b = arr(&[0, 3], &[]);
    assert_eq!(dot(DType::I64, &empty_a, DType::I64, &empty_b).unwrap().1, arr(&[2, 3], &[0; 6]));
}

#[test]
fn dot_wraps_and_refuses() {
    let big = arr(&[1], &[u64::MAX as i128]);
    let two = arr(&[1], &[2]);
    assert_eq!(dot(DType::U64, &big, DType::U64, &two).unwrap().1.data, vec![u64::MAX as i128 - 1]);
    assert_eq!(dot(DType::I64, &two, DType::U64, &two), Err(MixedError::NotInteger(DType::F64)));
    let three = arr(&[3], &[1, 2, 3]);
    assert_eq!(dot(DType::I8, &two, DType::I8, &three), Err(MixedError::Array(ArrayError::IncompatibleShapes)));
    let cube = arr(&[1, 1, 1], &[1]);
    assert_eq!(dot(DType::I8, &cube, DType::I8, &two), Err(MixedError::Array(ArrayError::NotVectorOrMatrix)));
    let m = arr(&[2, 2], &[1, 2, 3, 4]);
    assert_eq!(dot(DType::I8, &m, DType::I8, &three), Err(MixedError::Array(ArrayError::IncompatibleShapes)));
}
