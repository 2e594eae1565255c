use rumpy::arith::divmod;
use rumpy::broadcast::{bitwise_and, bitwise_or, bitwise_xor, invert, left_shift, right_shift};
use rumpy::logic::{logical_and, logical_not, logical_or, logical_xor, power_bool};
use rumpy::nd::{ArrayError, NdArray};
use rumpy::tiling::squeeze;

fn arr<T: Copy>(shape: &[usize], data: &[T]) -> NdArray<T> {
    NdArray { shape: shape.to_vec(), data: data.to_vec() }
}

#[test]
fn shifts_broadcast_a_scalar_count() {
    let a = arr(&[3], &[1i64, 2, 3]);
    let two = arr(&[], &[2i64]);
    assert_eq!(left_shift(&a, &two).unwrap(), arr(&[3], &[4, 8, 12]));
    assert_eq!(right_shift(&arr(&[2], &[-8i64, 9]), &arr(&[], &[1i64])).unwrap(), arr(&[2], &[-4, 4]));
}

#[test]
fn shift_counts_wrap_modulo_the_width() {
    assert_eq!(left_shift(&arr(&[], &[1i64]), &arr(&[], &[65i64])).unwrap(), arr(&[], &[2]));
    assert_eq!(left_shift(&arr(&[], &[1i64]), &arr(&[], &[-1i64])).unwrap(), arr(&[], &[i64::MIN]));
}

#[test]
fn shift_shapes_must_broadcast() {
    let a = arr(&[2], &[1i64, 2]);
    let b = arr(&[3], &[1i64, 2, 3]);
    assert_eq!(left_shift(&a, &b), Err(ArrayError::IncompatibleShapes));
}

#[test]
fn bitwise_operations() {
    let a = arr(&[3], &[12i64, -1, 5]);
    let b = arr(&[3], &[10i64, 6, 0]);
    assert_eq!(bitwise_and(&a, &b).unwrap(), arr(&[3], &[8, 6, 0]));
    assert_eq!(bitwise_or(&a, &b).unwrap(), arr(&[3], &[14, -1, 5]));
    assert_eq!(bitwise_xor(&a, &b).unwrap(), arr(&[3], &[6, -7, 5]));
}

#[test]
fn invert_flips_every_bit() {
    let a = arr(&[4], &[0i64, 5, -1, i64::MIN]);
    assert_eq!(invert(&a), arr(&[4], &[-1, -6, 0, i64::MAX]));
}

#[test]
fn logical_operations_broadcast() {
    let a = arr(&[2, 1], &[true, false]);
    let b = arr(&[2], &[true, false]);
    assert_eq!(logical_and(&a, &b).unwrap(), arr(&[2, 2], &[true, false, false, false]));
    assert_eq!(logical_or(&a, &b).unwrap(), arr(&[2, 2], &[true, true, true, false]));
    assert_eq!(logical_xor(&a, &b).unwrap(), arr(&[2, 2], &[false, true, true, false]));
    assert_eq!(logical_not(&b), arr(&[2], &[false, true]));
}

#[test]
fn squeeze_drops_unit_axes() {
    let a = arr(&[1, 3, 1, 2], &[1i64, 2, 3, 4, 5, 6]);
    assert_eq!(squeeze(&a), arr(&[3, 2], &[1, 2, 3, 4, 5, 6]));
    assert_eq!(squeeze(&arr(&[1, 1], &[7i64])), arr(&[], &[7]));
}

#[test]
fn divmod_pairs_quotient_and_remainder() {
    let a = arr(&[4], &[7i64, -7, 7, -7]);
    let b = arr(&[4], &[2i64, 2, -2, -2]);
    let (q, r) = divmod(&a, &b).unwrap();
    assert_eq!(q, arr(&[4], &[3, -4, -4, 3]));
    assert_eq!(r, arr(&[4], &[1, 1, -1, -1]));
}

#[test]
fn boolean_power() {
    let a = arr(&[4], &[true, true, false, false]);
    let b = arr(&[4], &[true, false, true, false]);
    assert_eq!(power_bool(&a, &b).unwrap(), arr(&[4], &[true, true, false, true]));
}
