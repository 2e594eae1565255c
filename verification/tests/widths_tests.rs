use rumpy::arith::ArithOp;
use rumpy::dtype::DType;
use rumpy::nd::{ArrayError, NdArray};
use rumpy::widths::{arith_at, cast_at, negate_at, power_at};

fn arr(shape: &[usize], data: &[i128]) -> NdArray<i128> {
    NdArray { shape: shape.to_vec(), data: data.to_vec() }
}

#[test]
fn int8_sums_wrap() {
    let a = arr(&[2], &[100, -100]);
    let b = arr(&[2], &[100, -100]);
    assert_eq!(arith_at(DType::I8, &a, &b, ArithOp::Add).unwrap().data, vec![-56, 56]);
    assert_eq!(arith_at(DType::I8, &a, &b, ArithOp::Sub).unwrap().data, vec![0, 0]);
}

#[test]
fn uint8_products_wrap() {
    let a = arr(&[3], &[200, 16, 255]);
    let b = arr(&[1], &[2]);
    assert_eq!(arith_at(DType::U8, &a, &b, ArithOp::Mul).unwrap(), arr(&[3], &[144, 32, 254]));
    let c = arr(&[1], &[0]);
    let d = arr(&[1], &[1]);
    assert_eq!(arith_at(DType::U8, &c, &d, ArithOp::Sub).unwrap().data, vec![255]);
}

#[test]
fn uint64_and_int64_products_wrap() {
    let m = u64::MAX as i128;
    let a = arr(&[1], &[m]);
    assert_eq!(arith_at(DType::U64, &a, &a, ArithOp::Mul).unwrap().data, vec![1]);
    let b = arr(&[1], &[i64::MAX as i128]);
    let two = arr(&[1], &[2]);
    assert_eq!(arith_at(DType::I64, &b, &two, ArithOp::Mul).unwrap().data, vec![-2]);
    assert_eq!(arith_at(DType::I64, &b, &arr(&[1], &[1]), ArithOp::Add).unwrap().data, vec![i64::MIN as i128]);
}

#[test]
fn int16_floor_division_and_remainder() {
    let a = arr(&[4], &[7, -7, 7, -7]);
    let b = arr(&[4], &[2, 2, -2, -2]);
    assert_eq!(arith_at(DType::I16, &a, &b, ArithOp::FloorDivide).unwrap().data, vec![3, -4, -4, 3]);
    assert_eq!(arith_at(DType::I16, &a, &b, ArithOp::Remainder).unwrap().data, vec![1, 1, -1, -1]);
}

#[test]
fn int8_division_edges() {
    let a = arr(&[2], &[-128, 127]);
    let b = arr(&[2], &[1, -1]);
    assert_eq!(arith_at(DType::I8, &a, &b, ArithOp::FloorDivide).unwrap().data, vec![-128, -127]);
    let c = arr(&[1], &[-128]);
    let d = arr(&[1], &[-3]);
    assert_eq!(arith_at(DType::I8, &c, &d, ArithOp::FloorDivide).unwrap().data, vec![42]);
    assert_eq!(arith_at(DType::I8, &c, &d, ArithOp::Remainder).unwrap().data, vec![-2]);
}

#[test]
fn widths_broadcast_and_refuse() {
    let a = arr(&[2, 1], &[1, 2]);
    let b = arr(&[3], &[10, 20, 30]);
    assert_eq!(arith_at(DType::I32, &a, &b, ArithOp::Add).unwrap(), arr(&[2, 3], &[11, 21, 31, 12, 22, 32]));
    let c = arr(&[2], &[1, 2]);
    assert_eq!(arith_at(DType::I32, &b, &c, ArithOp::Add), Err(ArrayError::IncompatibleShapes));
}

#[test]
fn negation_wraps_at_each_width() {
    assert_eq!(negate_at(DType::I8, &arr(&[3], &[-128, 5, 0])).data, vec![-128, -5, 0]);
    assert_eq!(negate_at(DType::U8, &arr(&[3], &[1, 0, 255])).data, vec![255, 0, 1]);
    assert_eq!(negate_at(DType::U16, &arr(&[2, 1], &[2, 3])), arr(&[2, 1], &[65534, 65533]));
}

#[test]
fn powers_wrap_at_each_width() {
    let a = arr(&[3], &[3, 2, -2]);
    let b = arr(&[3], &[5, 0, 15]);
    assert_eq!(power_at(DType::I8, &a, &b).unwrap().data, vec![-13, 1, 0]);
    assert_eq!(power_at(DType::I16, &a, &b).unwrap().data, vec![243, 1, -32768]);
    let neg = arr(&[3], &[5, -1, 15]);
    assert_eq!(power_at(DType::I16, &a, &neg), Err(ArrayError::NegativeExponent));
    let c = arr(&[2], &[2, 3]);
    let e = arr(&[2], &[9, 4]);
    assert_eq!(power_at(DType::U8, &c, &e).unwrap().data, vec![0, 81]);
    let m = u64::MAX as i128;
    let big = arr(&[2], &[3, m]);
    let exps = arr(&[2], &[40, 3]);
    assert_eq!(power_at(DType::U64, &big, &exps).unwrap().data, vec![12157665459056928801, m]);
    assert_eq!(power_at(DType::U8, &c, &arr(&[3], &[1, 2, 3])), Err(ArrayError::IncompatibleShapes));
}

#[test]
fn casts_wrap_into_the_target() {
    assert_eq!(cast_at(DType::I8, &arr(&[3], &[300, -129, 127])).data, vec![44, 127, 127]);
    assert_eq!(cast_at(DType::U8, &arr(&[2], &[-1, 256])).data, vec![255, 0]);
    assert_eq!(cast_at(DType::I16, &arr(&[1, 1], &[u64::MAX as i128])), arr(&[1, 1], &[-1]));
    assert_eq!(cast_at(DType::I64, &arr(&[1], &[-5])).data, vec![-5]);
    // widening then narrowing back returns the values
    let v = arr(&[3], &[-128, 0, 127]);
    let wide = cast_at(DType::I32, &v);
    assert_eq!(cast_at(DType::I8, &wide), v);
}
