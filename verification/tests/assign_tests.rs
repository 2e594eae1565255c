use rumpy::assign::{copyto, fill, full, full_like, take, TakeIndexError};
use rumpy::nd::{array_split, concatenate, rot90, ArrayError, NdArray, SplitSections};

fn arr<T: Copy>(shape: &[usize], data: &[T]) -> NdArray<T> {
    NdArray { shape: shape.to_vec(), data: data.to_vec() }
}

fn range(shape: &[usize]) -> NdArray<i64> {
    let n: usize = shape.iter().product();
    NdArray { shape: shape.to_vec(), data: (0..n as i64).collect() }
}

#[test]
fn full_and_full_like() {
    assert_eq!(full(&[2, 2], 7i64), arr(&[2, 2], &[7, 7, 7, 7]));
    assert_eq!(full(&[0, 3], 1i64), arr(&[0, 3], &[]));
    let a = range(&[3]);
    assert_eq!(full_like(&a, true), arr(&[3], &[true, true, true]));
    assert_eq!(full_like(&a, 0i64), arr(&[3], &[0, 0, 0]));
}

#[test]
fn fill_with_a_scalar() {
    let mut a = range(&[2, 3]);
    fill(&mut a, &arr(&[], &[5i64]));
    assert_eq!(a, arr(&[2, 3], &[5, 5, 5, 5, 5, 5]));
}

#[test]
fn fill_with_an_array_replaces_it() {
    let mut a = range(&[2, 3]);
    fill(&mut a, &arr(&[2], &[8i64, 9]));
    assert_eq!(a, arr(&[2], &[8, 9]));
}

#[test]
fn copyto_broadcasts_the_source() {
    let mut dst = range(&[2, 3]);
    assert_eq!(copyto(&mut dst, &arr(&[3], &[1i64, 2, 3])), Ok(()));
    assert_eq!(dst, arr(&[2, 3], &[1, 2, 3, 1, 2, 3]));
    let before = dst.clone();
    assert_eq!(copyto(&mut dst, &arr(&[2], &[1i64, 2])), Err(ArrayError::IncompatibleShapes));
    assert_eq!(dst, before);
}

#[test]
fn take_reads_flattened_elements() {
    let a = arr(&[2, 2], &[10i64, 20, 30, 40]);
    assert_eq!(take(&a, &[3, 0, -1, -4]).unwrap(), arr(&[4], &[40, 10, 40, 10]));
    assert_eq!(take(&a, &[]).unwrap(), arr(&[0], &[]));
}

#[test]
fn take_refuses_the_first_bad_index() {
    let a = arr(&[3], &[1i64, 2, 3]);
    assert_eq!(take(&a, &[0, 3, -5]), Err(TakeIndexError::OutOfBounds(3)));
    assert_eq!(take(&a, &[-4]), Err(TakeIndexError::OutOfBounds(-4)));
}

#[test]
fn concatenate_undoes_array_split() {
    let a = range(&[3, 7]);
    let parts = array_split(&a, &SplitSections::Count(3), 1, true).ok().unwrap();
    assert_eq!(concatenate(&parts, 1).ok().unwrap(), a);
    let rows = array_split(&a, &SplitSections::Indices(vec![1, 1, 2]), 0, true).ok().unwrap();
    assert_eq!(rows.len(), 4);
    assert_eq!(concatenate(&rows, 0).ok().unwrap(), a);
}

#[test]
fn four_quarter_turns_give_the_array_back() {
    let a = range(&[2, 3, 4]);
    let mut b = a.clone();
    for _ in 0..4 {
        b = rot90(&b, 1).ok().unwrap();
    }
    assert_eq!(b, a);
    assert_eq!(rot90(&rot90(&a, 2).ok().unwrap(), 2).ok().unwrap(), a);
}
