use rumpy::lanes::{
    argpartition, argsort, cumprod, cumsum, diff, lanes_along, lanes_over_axes, partition, sort, sort_in_place,
};
use rumpy::axes::MoveAxisError;
use rumpy::linalg::AxisError;
use rumpy::nd::NdArray;

fn arr(shape: &[usize], data: &[i64]) -> NdArray<i64> {
    NdArray { shape: shape.to_vec(), data: data.to_vec() }
}

#[test]
fn cumsum_flattens_without_axis() {
    let a = arr(&[2, 3], &[1, 2, 3, 4, 5, 6]);
    assert_eq!(cumsum(&a, None).unwrap(), arr(&[6], &[1, 3, 6, 10, 15, 21]));
}

#[test]
fn cumsum_along_each_axis() {
    let a = arr(&[2, 3], &[1, 2, 3, 4, 5, 6]);
    assert_eq!(cumsum(&a, Some(0)).unwrap(), arr(&[2, 3], &[1, 2, 3, 5, 7, 9]));
    assert_eq!(cumsum(&a, Some(1)).unwrap(), arr(&[2, 3], &[1, 3, 6, 4, 9, 15]));
    assert_eq!(cumsum(&a, Some(-1)).unwrap(), arr(&[2, 3], &[1, 3, 6, 4, 9, 15]));
}

#[test]
fn cumprod_along_axis() {
    let a = arr(&[2, 3], &[1, 2, 3, 4, 5, 6]);
    assert_eq!(cumprod(&a, Some(1)).unwrap(), arr(&[2, 3], &[1, 2, 6, 4, 20, 120]));
    assert_eq!(cumprod(&a, None).unwrap(), arr(&[6], &[1, 2, 6, 24, 120, 720]));
}

#[test]
fn cumsum_wraps_on_overflow() {
    let a = arr(&[2], &[i64::MAX, 1]);
    assert_eq!(cumsum(&a, None).unwrap(), arr(&[2], &[i64::MAX, i64::MIN]));
}

#[test]
fn cumsum_rejects_a_missing_axis() {
    let a = arr(&[2, 3], &[1, 2, 3, 4, 5, 6]);
    assert_eq!(cumsum(&a, Some(2)), Err(AxisError { axis: 2, ndim: 2 }));
}

#[test]
fn diff_along_last_axis() {
    let a = arr(&[2, 3], &[1, 2, 4, 7, 0, -5]);
    assert_eq!(diff(&a, -1).unwrap(), arr(&[2, 2], &[1, 2, -7, -5]));
}

#[test]
fn diff_along_first_axis() {
    let a = arr(&[2, 3], &[1, 2, 4, 7, 0, -5]);
    assert_eq!(diff(&a, 0).unwrap(), arr(&[1, 3], &[6, -2, -9]));
}

#[test]
fn diff_of_short_axes() {
    assert_eq!(diff(&arr(&[1], &[5]), 0).unwrap(), arr(&[0], &[]));
    assert_eq!(diff(&arr(&[0], &[]), 0).unwrap(), arr(&[0], &[]));
}

#[test]
fn diff_of_a_scalar_fails() {
    assert_eq!(diff(&arr(&[], &[3]), -1), Err(AxisError { axis: -1, ndim: 0 }));
}

#[test]
fn diff_undoes_cumsum() {
    let a = arr(&[5], &[3, -1, 4, 1, -5]);
    let c = cumsum(&a, None).unwrap();
    assert_eq!(diff(&c, 0).unwrap(), arr(&[4], &[-1, 4, 1, -5]));
}

#[test]
fn sort_along_axes() {
    let a = arr(&[2, 3], &[3, 1, 2, 0, 5, -4]);
    assert_eq!(sort(&a, Some(-1)).unwrap(), arr(&[2, 3], &[1, 2, 3, -4, 0, 5]));
    assert_eq!(sort(&a, Some(0)).unwrap(), arr(&[2, 3], &[0, 1, -4, 3, 5, 2]));
    assert_eq!(sort(&a, None).unwrap(), arr(&[6], &[-4, 0, 1, 2, 3, 5]));
}

#[test]
fn argsort_is_stable() {
    let a = arr(&[5], &[2, 1, 2, 1, 0]);
    assert_eq!(argsort(&a, Some(0)).unwrap(), arr(&[5], &[4, 1, 3, 0, 2]));
}

#[test]
fn argsort_along_axes() {
    let a = arr(&[2, 3], &[3, 1, 2, 0, 5, -4]);
    assert_eq!(argsort(&a, Some(1)).unwrap(), arr(&[2, 3], &[1, 2, 0, 2, 0, 1]));
    assert_eq!(argsort(&a, Some(0)).unwrap(), arr(&[2, 3], &[1, 0, 1, 0, 1, 0]));
    assert_eq!(argsort(&a, None).unwrap(), arr(&[6], &[5, 3, 1, 2, 0, 4]));
}

#[test]
fn argsort_orders_the_array() {
    let a = arr(&[6], &[9, -3, 7, 7, 0, 2]);
    let idx = argsort(&a, None).unwrap();
    let picked: Vec<i64> = idx.data.iter().map(|&k| a.data[k as usize]).collect();
    assert_eq!(picked, sort(&a, None).unwrap().data);
}

#[test]
fn partition_sorts_last_axis() {
    let a = arr(&[2, 2], &[4, 3, 1, 2]);
    assert_eq!(partition(&a).unwrap(), arr(&[2, 2], &[3, 4, 1, 2]));
    assert_eq!(argpartition(&a).unwrap(), arr(&[2, 2], &[1, 0, 0, 1]));
}

#[test]
fn sort_in_place_replaces_the_array() {
    let mut a = arr(&[2, 2], &[4, 3, 1, 2]);
    sort_in_place(&mut a, 0).unwrap();
    assert_eq!(a, arr(&[2, 2], &[1, 2, 4, 3]));
    let before = a.clone();
    assert_eq!(sort_in_place(&mut a, 3), Err(AxisError { axis: 3, ndim: 2 }));
    assert_eq!(a, before);
}

#[test]
fn sort_of_empty_lanes() {
    let a = arr(&[2, 0], &[]);
    assert_eq!(sort(&a, Some(0)).unwrap(), arr(&[2, 0], &[]));
    assert_eq!(argsort(&a, None).unwrap(), arr(&[0], &[]));
}

#[test]
fn lanes_along_each_axis() {
    let a = arr(&[2, 3], &[1, 2, 3, 4, 5, 6]);
    let (sh, ls) = lanes_along(&a, 0).unwrap();
    assert_eq!(sh, vec![3]);
    assert_eq!(ls, vec![vec![1, 4], vec![2, 5], vec![3, 6]]);
    let (sh, ls) = lanes_along(&a, -1).unwrap();
    assert_eq!(sh, vec![2]);
    assert_eq!(ls, vec![vec![1, 2, 3], vec![4, 5, 6]]);
    let c = arr(&[2, 2, 2], &[0, 1, 2, 3, 4, 5, 6, 7]);
    let (sh, ls) = lanes_along(&c, 1).unwrap();
    assert_eq!(sh, vec![2, 2]);
    assert_eq!(ls, vec![vec![0, 2], vec![1, 3], vec![4, 6], vec![5, 7]]);
    assert_eq!(lanes_along(&a, 2), Err(AxisError { axis: 2, ndim: 2 }));
    let f = NdArray { shape: vec![2, 2], data: vec![0.5f64, 1.5, 2.5, 3.5] };
    assert_eq!(lanes_along(&f, 0).unwrap().1, vec![vec![0.5, 2.5], vec![1.5, 3.5]]);
}

#[test]
fn lanes_over_several_axes() {
    let data: Vec<i64> = (0..12).collect();
    let a = arr(&[2, 3, 2], &data);
    let (sh, ls) = lanes_over_axes(&a, Some(&[0, 2]), false).unwrap();
    assert_eq!(sh, vec![3]);
    assert_eq!(ls, vec![vec![0, 1, 6, 7], vec![2, 3, 8, 9], vec![4, 5, 10, 11]]);
    let (sh, ls) = lanes_over_axes(&a, Some(&[2, 0]), true).unwrap();
    assert_eq!(sh, vec![1, 3, 1]);
    assert_eq!(ls[0], vec![0, 6, 1, 7]);
    let (sh, ls) = lanes_over_axes(&a, None, false).unwrap();
    assert_eq!(sh, Vec::<usize>::new());
    assert_eq!(ls, vec![data.clone()]);
    let (sh, _) = lanes_over_axes(&a, None, true).unwrap();
    assert_eq!(sh, vec![1, 1, 1]);
    let (sh, ls) = lanes_over_axes(&a, Some(&[-1]), false).unwrap();
    assert_eq!(sh, vec![2, 3]);
    assert_eq!(ls[1], vec![2, 3]);
    assert_eq!(
        lanes_over_axes(&a, Some(&[3]), false),
        Err(MoveAxisError::Axis(AxisError { axis: 3, ndim: 3 }))
    );
}
