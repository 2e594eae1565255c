use rumpy::axes::{moveaxis, permute_axes, rollaxis, swapaxes, MoveAxisError, RollAxisError};
use rumpy::linalg::AxisError;
use rumpy::nd::{ArrayError, NdArray};
use rumpy::nonzero::{argwhere, flatnonzero};
use rumpy::search::{compress, searchsorted, CompressError, Side};
use rumpy::sorting::{lexsort, sort_isize, LexsortError};
use rumpy::tiling::{
    broadcast_to, expand_dims, insert, repeat, resize, stack, tile, ExpandDimsError, InsertError, ResizeError,
};

fn arr<T: Copy>(shape: &[usize], data: &[T]) -> NdArray<T> {
    NdArray { shape: shape.to_vec(), data: data.to_vec() }
}

fn range(shape: &[usize]) -> NdArray<i64> {
    let n: usize = shape.iter().product();
    NdArray { shape: shape.to_vec(), data: (0..n as i64).collect() }
}

#[test]
fn permute_axes_moves_coordinates() {
    let a = range(&[2, 3, 4]);
    let p = permute_axes(&a, &[1, 2, 0]);
    assert_eq!(p.shape, vec![3, 4, 2]);
    // p[j, k, i] == a[i, j, k]
    for i in 0..2 {
        for j in 0..3 {
            for k in 0..4 {
                assert_eq!(p.data[(j * 4 + k) * 2 + i], a.data[(i * 3 + j) * 4 + k]);
            }
        }
    }
    assert_eq!(permute_axes(&a, &[0, 1, 2]), a);
}

#[test]
fn swapaxes_matrix_is_transpose() {
    let a = range(&[2, 3]);
    let s = swapaxes(&a, 0, -1).unwrap();
    assert_eq!(s.shape, vec![3, 2]);
    assert_eq!(s.data, vec![0, 3, 1, 4, 2, 5]);
    assert_eq!(swapaxes(&s, 1, 0).unwrap(), a);
    assert_eq!(swapaxes(&a, 2, 0), Err(AxisError { axis: 2, ndim: 2 }));
    assert_eq!(swapaxes(&a, 0, -3), Err(AxisError { axis: -3, ndim: 2 }));
}

#[test]
fn rollaxis_moves_one_axis() {
    let a = range(&[2, 3, 4]);
    assert_eq!(rollaxis(&a, 2, 0).unwrap().shape, vec![4, 2, 3]);
    assert_eq!(rollaxis(&a, 0, 3).unwrap().shape, vec![3, 4, 2]);
    assert_eq!(rollaxis(&a, 1, -1).unwrap().shape, vec![2, 4, 3]);
    assert_eq!(rollaxis(&a, 0, 2).unwrap().shape, vec![3, 4, 2]);
    assert_eq!(rollaxis(&a, 2, 1).unwrap().shape, vec![2, 4, 3]);
    assert_eq!(rollaxis(&a, 3, 0), Err(RollAxisError::Axis(AxisError { axis: 3, ndim: 3 })));
    assert_eq!(rollaxis(&a, 0, 4), Err(RollAxisError::Start(4)));
    assert_eq!(rollaxis(&a, 0, -4), Err(RollAxisError::Start(-4)));
    let r = rollaxis(&a, 2, 0).unwrap();
    // r[k, i, j] == a[i, j, k]
    assert_eq!(r.data[(3 * 2 + 1) * 3 + 2], a.data[(1 * 3 + 2) * 4 + 3]);
}

#[test]
fn sorting_axes_and_lexsort() {
    assert_eq!(sort_isize(&[3, -1, 2, -1, 0]), vec![-1, -1, 0, 2, 3]);
    assert_eq!(sort_isize(&[]), Vec::<isize>::new());
    // last key primary: sort by surname, then first name
    let first = vec![1, 2, 3, 1, 2];
    let last = vec![4, 4, 2, 2, 3];
    let r = lexsort(&[first, last]).unwrap();
    assert_eq!(r.shape, vec![5]);
    assert_eq!(r.data, vec![3, 2, 4, 0, 1]);
    // ties keep the original order
    assert_eq!(lexsort(&[vec![5, 5, 5]]).unwrap().data, vec![0, 1, 2]);
    assert_eq!(lexsort(&[]), Err(LexsortError::NoKeys));
    assert_eq!(lexsort(&[vec![1, 2], vec![1]]), Err(LexsortError::LengthMismatch));
}

#[test]
fn resize_repeats_cyclically() {
    let a = arr(&[3], &[1, 2, 3]);
    let r = resize(&a, &[2, 4]).unwrap();
    assert_eq!(r.shape, vec![2, 4]);
    assert_eq!(r.data, vec![1, 2, 3, 1, 2, 3, 1, 2]);
    assert_eq!(resize(&a, &[2]).unwrap().data, vec![1, 2]);
    assert_eq!(resize(&arr::<i64>(&[0], &[]), &[2]), Err(ResizeError::EmptySource));
}

#[test]
fn repeat_each_element() {
    let a = range(&[2, 2]);
    let r = repeat(&a, 2);
    assert_eq!(r.shape, vec![8]);
    assert_eq!(r.data, vec![0, 0, 1, 1, 2, 2, 3, 3]);
    assert_eq!(repeat(&a, 0).data, Vec::<i64>::new());
}

#[test]
fn tile_along_axes() {
    let a = arr(&[3], &[0, 1, 2]);
    let t = tile(&a, &[2]);
    assert_eq!(t.shape, vec![6]);
    assert_eq!(t.data, vec![0, 1, 2, 0, 1, 2]);
    let t2 = tile(&a, &[2, 2]);
    assert_eq!(t2.shape, vec![2, 6]);
    assert_eq!(t2.data, vec![0, 1, 2, 0, 1, 2, 0, 1, 2, 0, 1, 2]);
    let b = arr(&[2, 2], &[1, 2, 3, 4]);
    let t3 = tile(&b, &[2, 1]);
    assert_eq!(t3.shape, vec![4, 2]);
    assert_eq!(t3.data, vec![1, 2, 3, 4, 1, 2, 3, 4]);
    assert_eq!(tile(&b, &[0]).shape, vec![2, 0]);
}

#[test]
fn broadcast_to_shapes() {
    let a = arr(&[3], &[1, 2, 3]);
    let b = broadcast_to(&a, &[2, 3]).unwrap();
    assert_eq!(b.data, vec![1, 2, 3, 1, 2, 3]);
    let c = arr(&[2, 1], &[7, 8]);
    assert_eq!(broadcast_to(&c, &[2, 3]).unwrap().data, vec![7, 7, 7, 8, 8, 8]);
    assert_eq!(broadcast_to(&a, &[3, 2]), Err(ArrayError::IncompatibleShapes));
    assert_eq!(broadcast_to(&a, &[]), Err(ArrayError::IncompatibleShapes));
}

#[test]
fn stack_new_axis() {
    let a = arr(&[3], &[1, 2, 3]);
    let b = arr(&[3], &[4, 5, 6]);
    let s0 = stack(&[a.clone(), b.clone()], 0).unwrap();
    assert_eq!(s0.shape, vec![2, 3]);
    assert_eq!(s0.data, vec![1, 2, 3, 4, 5, 6]);
    let s1 = stack(&[a.clone(), b.clone()], 1).unwrap();
    assert_eq!(s1.shape, vec![3, 2]);
    assert_eq!(s1.data, vec![1, 4, 2, 5, 3, 6]);
    assert_eq!(stack(&[a.clone(), b.clone()], 2), Err(ArrayError::AxisOutOfBounds));
    assert_eq!(stack::<i64>(&[], 0), Err(ArrayError::NoArrays));
    assert_eq!(stack(&[a, arr(&[2], &[1, 2])], 0), Err(ArrayError::IncompatibleShapes));
}

#[test]
fn expand_dims_positions() {
    let a = range(&[2, 3]);
    assert_eq!(expand_dims(&a, &[0]).unwrap().shape, vec![1, 2, 3]);
    assert_eq!(expand_dims(&a, &[-1]).unwrap().shape, vec![2, 3, 1]);
    assert_eq!(expand_dims(&a, &[2, 0]).unwrap().shape, vec![1, 2, 1, 3]);
    assert_eq!(expand_dims(&a, &[7]).unwrap().shape, vec![2, 3, 1]);
    assert_eq!(expand_dims(&a, &[0]).unwrap().data, a.data);
    let v = range(&[4]);
    assert_eq!(expand_dims(&v, &[-1, 0]), Err(ExpandDimsError::AxisOutOfBounds(-1)));
}

#[test]
fn insert_values() {
    let a = arr(&[2, 2], &[1, 1, 2, 2]);
    let r = insert(&a, 1, &arr(&[], &[5]), None).unwrap();
    assert_eq!(r.shape, vec![5]);
    assert_eq!(r.data, vec![1, 5, 1, 2, 2]);
    let r = insert(&a, 1, &arr(&[], &[5]), Some(1)).unwrap();
    assert_eq!(r.shape, vec![2, 3]);
    assert_eq!(r.data, vec![1, 5, 1, 2, 5, 2]);
    let r = insert(&a, -1, &arr(&[2], &[8, 9]), Some(0)).unwrap();
    assert_eq!(r.shape, vec![3, 2]);
    assert_eq!(r.data, vec![1, 1, 8, 9, 2, 2]);
    let r = insert(&a, 10, &arr(&[], &[0]), None).unwrap();
    assert_eq!(r.data, vec![1, 1, 2, 2, 0]);
    assert_eq!(insert(&a, 0, &arr(&[], &[0]), Some(2)), Err(InsertError::Axis(AxisError { axis: 2, ndim: 2 })));
    assert_eq!(
        insert(&a, 0, &arr(&[3], &[1, 2, 3]), Some(0)),
        Err(InsertError::Join(ArrayError::IncompatibleShapes))
    );
}

#[test]
fn nonzero_positions() {
    let m = arr(&[2, 3], &[false, true, false, true, false, true]);
    let f = flatnonzero(&m);
    assert_eq!(f.shape, vec![3]);
    assert_eq!(f.data, vec![1, 3, 5]);
    let w = argwhere(&m);
    assert_eq!(w.shape, vec![3, 2]);
    assert_eq!(w.data, vec![0, 1, 1, 0, 1, 2]);
    let s = argwhere(&arr(&[], &[true]));
    assert_eq!(s.shape, vec![1, 1]);
    assert_eq!(s.data, vec![0]);
    assert_eq!(argwhere(&arr(&[], &[false])).shape, vec![0, 1]);
}

#[test]
fn compress_flat() {
    let a = range(&[2, 2]);
    let c = compress(&[true, false, true], &a, None).unwrap();
    assert_eq!(c.shape, vec![2]);
    assert_eq!(c.data, vec![0, 2]);
    assert_eq!(compress(&[true, true, true, true, true], &a, None).unwrap().data, vec![0, 1, 2, 3]);
    assert_eq!(compress(&[true], &a, Some(0)), Err(CompressError::AxisUnsupported));
}

#[test]
fn searchsorted_sides() {
    let a = arr(&[5], &[1, 2, 2, 3, 5]);
    let v = arr(&[4], &[2, 0, 4, 9]);
    let l = searchsorted(&a, &v, Side::Left, None);
    assert_eq!(l.shape, vec![4]);
    assert_eq!(l.data, vec![1, 0, 4, 5]);
    let r = searchsorted(&a, &v, Side::Right, None);
    assert_eq!(r.data, vec![3, 0, 4, 5]);
    let v2 = arr(&[2, 1], &[3, 2]);
    let l2 = searchsorted(&a, &v2, Side::Left, None);
    assert_eq!(l2.shape, vec![2, 1]);
    assert_eq!(l2.data, vec![3, 1]);
    // unsorted data read through a sorter
    let b = arr(&[3], &[30, 10, 20]);
    let s = searchsorted(&b, &arr(&[1], &[25]), Side::Left, Some(&[1, 2, 0]));
    assert_eq!(s.data, vec![2]);
    assert_eq!(Side::parse("left"), Some(Side::Left));
    assert_eq!(Side::parse("right"), Some(Side::Right));
    assert_eq!(Side::parse("middle"), None);
}

#[test]
fn moveaxis_places_axes() {
    let a = range(&[2, 3, 4]);
    assert_eq!(moveaxis(&a, &[0], &[-1]).unwrap().shape, vec![3, 4, 2]);
    assert_eq!(moveaxis(&a, &[-1], &[0]).unwrap().shape, vec![4, 2, 3]);
    assert_eq!(moveaxis(&a, &[0, 1], &[-1, -2]).unwrap().shape, vec![4, 3, 2]);
    let m = moveaxis(&a, &[2], &[0]).unwrap();
    // m[k, i, j] == a[i, j, k]
    assert_eq!(m.data[(3 * 2 + 1) * 3 + 2], a.data[(1 * 3 + 2) * 4 + 3]);
    assert_eq!(moveaxis(&a, &[3], &[0]), Err(MoveAxisError::Axis(AxisError { axis: 3, ndim: 3 })));
    assert_eq!(moveaxis(&a, &[0], &[0, 1]), Err(MoveAxisError::LengthMismatch));
    assert_eq!(moveaxis(&a, &[], &[]).unwrap(), a);
}
