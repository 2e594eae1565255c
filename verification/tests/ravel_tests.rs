use rumpy::nd::NdArray;
use rumpy::ravel::{
    diag_indices, indices, ravel_multi_index, tri_indices, unravel_index, IndicesError, RavelError,
};

fn vec1(data: &[i64]) -> NdArray<i64> {
    NdArray { shape: vec![data.len()], data: data.to_vec() }
}

#[test]
fn unravel_index_splits_flat_indices() {
    let r = unravel_index(&[22, 41, 37], &[7, 6]);
    assert_eq!(r.len(), 2);
    assert_eq!(r[0], vec1(&[3, 6, 6]));
    assert_eq!(r[1], vec1(&[4, 5, 1]));
}

#[test]
fn unravel_index_three_axes() {
    let r = unravel_index(&[1621], &[6, 7, 8, 9]);
    assert_eq!(r.len(), 4);
    assert_eq!(r[0], vec1(&[3]));
    assert_eq!(r[1], vec1(&[1]));
    assert_eq!(r[2], vec1(&[4]));
    assert_eq!(r[3], vec1(&[1]));
}

#[test]
fn unravel_index_empty_input() {
    let r = unravel_index(&[], &[2, 3]);
    assert_eq!(r.len(), 2);
    assert_eq!(r[0], vec1(&[]));
    assert_eq!(r[1], vec1(&[]));
}

#[test]
fn ravel_multi_index_joins_coordinates() {
    let r = ravel_multi_index(&[vec![3, 6, 6], vec![4, 5, 1]], &[7, 6]).unwrap();
    assert_eq!(r, vec1(&[22, 41, 37]));
}

#[test]
fn ravel_multi_index_counts_arrays() {
    let r = ravel_multi_index(&[vec![1, 2]], &[3, 4]);
    assert_eq!(r, Err(RavelError::CountMismatch));
}

#[test]
fn ravel_undoes_unravel() {
    let dims = [3usize, 4, 5];
    let flat: Vec<i64> = (0..60).collect();
    let coords = unravel_index(&flat, &dims);
    let arrs: Vec<Vec<i64>> = coords.into_iter().map(|a| a.data).collect();
    let back = ravel_multi_index(&arrs, &dims).unwrap();
    assert_eq!(back.data, flat);
}

#[test]
fn indices_of_a_grid() {
    let r = indices(&[2, 3]).unwrap();
    assert_eq!(r.shape, vec![2, 2, 3]);
    assert_eq!(r.data, vec![0, 0, 0, 1, 1, 1, 0, 1, 2, 0, 1, 2]);
}

#[test]
fn indices_of_no_axes() {
    let r = indices(&[]).unwrap();
    assert_eq!(r.shape, vec![0]);
    assert!(r.data.is_empty());
}

#[test]
fn indices_of_an_empty_shape_fail() {
    assert_eq!(indices(&[2, 0]), Err(IndicesError::EmptyShape));
}

#[test]
fn diag_indices_repeat_the_range() {
    let r = diag_indices(3, 2);
    assert_eq!(r.len(), 2);
    assert_eq!(r[0], vec1(&[0, 1, 2]));
    assert_eq!(r[1], vec1(&[0, 1, 2]));
    assert_eq!(diag_indices(4, 3).len(), 3);
}

#[test]
fn tril_indices_square() {
    let (rows, cols) = tri_indices(3, 0, None, true);
    assert_eq!(rows, vec1(&[0, 1, 1, 2, 2, 2]));
    assert_eq!(cols, vec1(&[0, 0, 1, 0, 1, 2]));
}

#[test]
fn tril_indices_below_diagonal_rectangle() {
    let (rows, cols) = tri_indices(3, -1, Some(4), true);
    assert_eq!(rows, vec1(&[1, 2, 2]));
    assert_eq!(cols, vec1(&[0, 0, 1]));
}

#[test]
fn triu_indices_above_diagonal() {
    let (rows, cols) = tri_indices(3, 1, None, false);
    assert_eq!(rows, vec1(&[0, 0, 1]));
    assert_eq!(cols, vec1(&[1, 2, 2]));
}
