use rumpy::broadcast::{array_equiv, broadcast_arrays, gcd, lcm, where_select};
use rumpy::search::{choose_from, take_along_axis, ChooseError, TakeError};
use rumpy::fold::{reduce_i64, reduce_multi_i64};
use rumpy::linalg::AxisError;
use rumpy::logic::any_all;
use rumpy::nd::{ArrayError, NdArray};
use rumpy::reduce::{Reduce, ReduceError};

fn arr<T: Copy>(shape: &[usize], data: &[T]) -> NdArray<T> {
    NdArray { shape: shape.to_vec(), data: data.to_vec() }
}

fn range(shape: &[usize]) -> NdArray<i64> {
    let n: usize = shape.iter().product();
    NdArray { shape: shape.to_vec(), data: (0..n as i64).collect() }
}

#[test]
fn reduce_whole_and_along_axis() {
    let a = range(&[2, 3]);
    let s = reduce_i64(&a, None, Reduce::Sum).unwrap();
    assert_eq!(s.shape, Vec::<usize>::new());
    assert_eq!(s.data, vec![15]);
    assert_eq!(reduce_i64(&a, Some(0), Reduce::Sum).unwrap(), arr(&[3], &[3, 5, 7]));
    assert_eq!(reduce_i64(&a, Some(1), Reduce::Sum).unwrap(), arr(&[2], &[3, 12]));
    assert_eq!(reduce_i64(&a, Some(-1), Reduce::Prod).unwrap(), arr(&[2], &[0, 60]));
    assert_eq!(reduce_i64(&a, Some(0), Reduce::Max).unwrap(), arr(&[3], &[3, 4, 5]));
    let b = arr(&[2, 2], &[4, -7, 2, 9]);
    assert_eq!(reduce_i64(&b, Some(1), Reduce::Min).unwrap(), arr(&[2], &[-7, 2]));
    assert_eq!(reduce_i64(&b, None, Reduce::Max).unwrap().data, vec![9]);
}

#[test]
fn reduce_errors_and_empty() {
    let e = arr::<i64>(&[0, 3], &[]);
    assert_eq!(reduce_i64(&e, None, Reduce::Min), Err(ReduceError::Empty));
    assert_eq!(reduce_i64(&e, Some(0), Reduce::Sum).unwrap(), arr(&[3], &[0, 0, 0]));
    assert_eq!(reduce_i64(&e, Some(1), Reduce::Prod).unwrap(), arr::<i64>(&[0], &[]));
    assert_eq!(reduce_i64(&e, None, Reduce::Prod).unwrap().data, vec![1]);
    let a = range(&[2, 3]);
    assert_eq!(reduce_i64(&a, Some(2), Reduce::Sum), Err(ReduceError::AxisOutOfRange(2)));
    assert_eq!(reduce_i64(&a, Some(-3), Reduce::Sum), Err(ReduceError::AxisOutOfRange(-1)));
}

#[test]
fn reduce_several_axes() {
    let a = range(&[2, 3, 4]);
    let r = reduce_multi_i64(&a, Some(&[0, 2]), false, Reduce::Sum).unwrap();
    assert_eq!(r.shape, vec![3]);
    // sum over i and k of (12 i + 4 j + k)
    assert_eq!(r.data, vec![60, 92, 124]);
    let k = reduce_multi_i64(&a, Some(&[2, 0]), true, Reduce::Sum).unwrap();
    assert_eq!(k.shape, vec![1, 3, 1]);
    assert_eq!(k.data, vec![60, 92, 124]);
    let all = reduce_multi_i64(&a, None, true, Reduce::Max).unwrap();
    assert_eq!(all.shape, vec![1, 1, 1]);
    assert_eq!(all.data, vec![23]);
    assert_eq!(reduce_multi_i64(&a, None, false, Reduce::Sum).unwrap().data, vec![276]);
    assert_eq!(reduce_multi_i64(&a, Some(&[]), false, Reduce::Sum).unwrap(), a);
    assert_eq!(reduce_multi_i64(&a, Some(&[0, 3]), false, Reduce::Sum), Err(ReduceError::AxisOutOfBounds(3)));
    assert_eq!(reduce_multi_i64(&a, Some(&[1, -2]), false, Reduce::Sum), Err(ReduceError::DuplicateAxis(-2)));
}

#[test]
fn any_and_all_over_axes() {
    let m = arr(&[2, 3], &[true, false, false, true, true, false]);
    let any0 = any_all(&m, Some(&[0]), false, false).unwrap();
    assert_eq!(any0, arr(&[3], &[true, true, false]));
    let all1 = any_all(&m, Some(&[1]), true, true).unwrap();
    assert_eq!(all1, arr(&[2, 1], &[false, false]));
    let anyall = any_all(&m, None, false, false).unwrap();
    assert_eq!(anyall.shape, Vec::<usize>::new());
    assert_eq!(anyall.data, vec![true]);
    assert_eq!(any_all(&m, None, true, true).unwrap(), arr(&[1, 1], &[false]));
    assert_eq!(any_all(&m, Some(&[]), false, true).unwrap(), m);
    assert_eq!(any_all(&m, Some(&[5]), false, true), Err(AxisError { axis: 5, ndim: 2 }));
    let e = arr::<bool>(&[0], &[]);
    assert_eq!(any_all(&e, None, false, true).unwrap().data, vec![true]);
    assert_eq!(any_all(&e, None, false, false).unwrap().data, vec![false]);
}

#[test]
fn broadcast_several_arrays() {
    let a = arr(&[3], &[1, 2, 3]);
    let b = arr(&[2, 1], &[10, 20]);
    let out = broadcast_arrays(&[a, b]).unwrap();
    assert_eq!(out.len(), 2);
    assert_eq!(out[0], arr(&[2, 3], &[1, 2, 3, 1, 2, 3]));
    assert_eq!(out[1], arr(&[2, 3], &[10, 10, 10, 20, 20, 20]));
    assert_eq!(broadcast_arrays::<i64>(&[]).unwrap().len(), 0);
    assert_eq!(broadcast_arrays(&[arr(&[2], &[1, 2]), arr(&[3], &[1, 2, 3])]), Err(ArrayError::IncompatibleShapes));
}

#[test]
fn where_picks_elementwise() {
    let c = arr(&[3], &[true, false, true]);
    let x = arr(&[3], &[1, 2, 3]);
    let y = arr(&[], &[0]);
    assert_eq!(where_select(&c, &x, &y).unwrap(), arr(&[3], &[1, 0, 3]));
    let c2 = arr(&[2, 1], &[true, false]);
    let w = where_select(&c2, &x, &arr(&[3], &[7, 8, 9])).unwrap();
    assert_eq!(w, arr(&[2, 3], &[1, 2, 3, 7, 8, 9]));
    assert_eq!(where_select(&c, &arr(&[2], &[1, 2]), &y), Err(ArrayError::IncompatibleShapes));
}

#[test]
fn gcd_and_lcm_elementwise() {
    let a = arr(&[4], &[12, -18, 0, 7]);
    let b = arr(&[], &[8]);
    assert_eq!(gcd(&a, &b).unwrap(), arr(&[4], &[4, 2, 8, 1]));
    assert_eq!(lcm(&a, &b).unwrap(), arr(&[4], &[24, 72, 0, 56]));
    let big = arr(&[1], &[i64::MAX]);
    assert_eq!(lcm(&big, &arr(&[1], &[2])).unwrap().data, vec![i64::MAX]);
    assert_eq!(gcd(&a, &arr(&[2], &[1, 2])), Err(ArrayError::IncompatibleShapes));
}

#[test]
fn take_along_axis_picks() {
    let a = arr(&[2, 3], &[10, 30, 20, 60, 40, 50]);
    let idx = arr(&[2, 1], &[1, 0]);
    assert_eq!(take_along_axis(&a, &idx, 1).unwrap(), arr(&[2, 1], &[30, 60]));
    let idx0 = arr(&[1, 3], &[1, 0, 1]);
    assert_eq!(take_along_axis(&a, &idx0, 0).unwrap(), arr(&[1, 3], &[60, 30, 50]));
    assert_eq!(take_along_axis(&a, &idx, -1).unwrap(), arr(&[2, 1], &[30, 60]));
    assert_eq!(take_along_axis(&a, &idx, 2), Err(TakeError::AxisOutOfBounds(2)));
    assert_eq!(take_along_axis(&a, &arr(&[1], &[0]), 0), Err(TakeError::RankMismatch));
}

#[test]
fn choose_from_arrays() {
    let idx = arr(&[4], &[0, 1, 1, 0]);
    let r = choose_from(&idx, &[vec![10, 20, 30, 40], vec![5]]).unwrap();
    assert_eq!(r, arr(&[4], &[10, 5, 5, 40]));
    assert_eq!(choose_from::<i64>(&idx, &[]), Err(ChooseError::NoChoices));
    assert_eq!(choose_from(&arr(&[1], &[2]), &[vec![1], vec![2]]), Err(ChooseError::IndexOutOfRange(2)));
}

#[test]
fn equivalence_after_broadcast() {
    let a = arr(&[2], &[1, 2]);
    assert!(array_equiv(&a, &arr(&[3, 2], &[1, 2, 1, 2, 1, 2])));
    assert!(!array_equiv(&a, &arr(&[2, 2], &[1, 2, 1, 3])));
    assert!(!array_equiv(&a, &arr(&[3], &[1, 2, 3])));
}
