use rumpy::nd::{
    append, array_split, atleast_1d, atleast_2d, atleast_3d, bincount, broadcast_shape, column_stack, compare,
    concatenate, count_nonzero, delete, diag, diagflat, dstack, flatten, flip, fliplr, flipud, pad_constant,
    parse_pad_width, place, power_i64, put_along_axis, reshape, roll, rot90, transpose, tril, triu, ArrayError,
    CmpOp, NdArray, PadError, PadWidth, PutError, SplitError, SplitSections,
};

fn arr<T: Copy>(shape: &[usize], data: &[T]) -> NdArray<T> {
    NdArray { shape: shape.to_vec(), data: data.to_vec() }
}

fn range(shape: &[usize]) -> NdArray<i64> {
    let n: usize = shape.iter().product();
    NdArray { shape: shape.to_vec(), data: (0..n as i64).collect() }
}

#[test]
fn transpose_matrix() {
    let t = transpose(&range(&[2, 3]));
    assert_eq!(t.shape, vec![3, 2]);
    assert_eq!(t.data, vec![0, 3, 1, 4, 2, 5]);
}

#[test]
fn transpose_three_axes_and_back() {
    let a = range(&[2, 3, 4]);
    let t = transpose(&a);
    assert_eq!(t.shape, vec![4, 3, 2]);
    // element (i, j, k) moves to (k, j, i)
    assert_eq!(t.data[(3 * 3 + 2) * 2 + 1], a.data[(1 * 3 + 2) * 4 + 3]);
    assert_eq!(transpose(&t), a);
}

#[test]
fn flips() {
    let a = range(&[2, 3]);
    assert_eq!(flip(&a, None).data, vec![5, 4, 3, 2, 1, 0]);
    assert_eq!(flip(&a, Some(0)).data, vec![3, 4, 5, 0, 1, 2]);
    assert_eq!(flip(&a, Some(-1)).data, vec![2, 1, 0, 5, 4, 3]);
    assert_eq!(flipud(&a).data, vec![3, 4, 5, 0, 1, 2]);
    assert_eq!(fliplr(&a).ok().unwrap().data, vec![2, 1, 0, 5, 4, 3]);
    assert_eq!(fliplr(&range(&[3])), Err(ArrayError::TooFewDimensions(2)));
    let s = arr::<i64>(&[], &[7]);
    assert_eq!(flip(&s, Some(5)), s);
    assert_eq!(flip(&flip(&a, Some(1)), Some(1)), a);
}

#[test]
fn rot90_quarter_turns() {
    let a = range(&[2, 2]);
    assert_eq!(rot90(&a, 1).ok().unwrap().data, vec![1, 3, 0, 2]);
    assert_eq!(rot90(&a, -1).ok().unwrap().data, vec![2, 0, 3, 1]);
    assert_eq!(rot90(&a, 4).ok().unwrap(), a);
    assert_eq!(rot90(&range(&[3]), 1), Err(ArrayError::TooFewDimensions(2)));
    let r = rot90(&range(&[2, 3]), 1).ok().unwrap();
    assert_eq!(r.shape, vec![3, 2]);
    assert_eq!(r.data, vec![2, 5, 1, 4, 0, 3]);
}

#[test]
fn roll_rotates_in_place_of_shape() {
    let a = range(&[5]);
    assert_eq!(roll(&a, 2).data, vec![3, 4, 0, 1, 2]);
    assert_eq!(roll(&a, -1).data, vec![1, 2, 3, 4, 0]);
    assert_eq!(roll(&a, 7).data, roll(&a, 2).data);
    let m = roll(&range(&[2, 2]), 1);
    assert_eq!(m.shape, vec![2, 2]);
    assert_eq!(m.data, vec![3, 0, 1, 2]);
    let g = roll(&arr(&[2, 3], &[1i64, 2, 3, 4, 5, 6]), 1);
    assert_eq!(g, arr(&[2, 3], &[6, 1, 2, 3, 4, 5]));
    assert_eq!(roll(&arr::<i64>(&[2, 0], &[]), 1).shape, vec![2, 0]);
    assert_eq!(roll(&roll(&a, 3), 4).data, roll(&a, 7).data);
    assert_eq!(roll(&arr::<i64>(&[0], &[]), 3).shape, vec![0]);
}

#[test]
fn reshape_and_atleast() {
    let a = range(&[6]);
    assert_eq!(reshape(&a, &[2, 3]).unwrap().shape, vec![2, 3]);
    assert!(reshape(&a, &[4]).is_none());
    assert_eq!(flatten(&range(&[2, 3])).shape, vec![6]);
    let s = arr::<i64>(&[], &[1]);
    assert_eq!(atleast_1d(&s).shape, vec![1]);
    assert_eq!(atleast_2d(&range(&[3])).shape, vec![1, 3]);
    assert_eq!(atleast_2d(&s).shape, vec![1, 1]);
    assert_eq!(atleast_3d(&range(&[3])).shape, vec![1, 3, 1]);
    assert_eq!(atleast_3d(&range(&[2, 3])).shape, vec![2, 3, 1]);
    assert_eq!(atleast_3d(&range(&[1, 2, 3, 4])).shape, vec![1, 2, 3, 4]);
}

#[test]
fn triangles() {
    let a = arr(&[3, 3], &[1, 2, 3, 4, 5, 6, 7, 8, 9]);
    assert_eq!(triu(&a, 0, 0).ok().unwrap().data, vec![1, 2, 3, 0, 5, 6, 0, 0, 9]);
    assert_eq!(tril(&a, -1, 0).ok().unwrap().data, vec![0, 0, 0, 4, 0, 0, 7, 8, 0]);
    assert_eq!(triu(&a, 1, 0).ok().unwrap().data, vec![0, 2, 3, 0, 0, 6, 0, 0, 0]);
    assert_eq!(triu(&range(&[3]), 0, 0), Err(ArrayError::WrongDimensions(2)));
}

#[test]
fn diagonals() {
    let v = arr(&[2], &[1, 2]);
    let d = diag(&v, 1, 0).ok().unwrap();
    assert_eq!(d.shape, vec![3, 3]);
    assert_eq!(d.data, vec![0, 1, 0, 0, 0, 2, 0, 0, 0]);
    let d = diag(&v, -1, 0).ok().unwrap();
    assert_eq!(d.data, vec![0, 0, 0, 1, 0, 0, 0, 2, 0]);
    let m = arr(&[3, 3], &[1, 2, 3, 4, 5, 6, 7, 8, 9]);
    assert_eq!(diag(&m, 0, 0).ok().unwrap().data, vec![1, 5, 9]);
    assert_eq!(diag(&m, 1, 0).ok().unwrap().data, vec![2, 6]);
    assert_eq!(diag(&m, -1, 0).ok().unwrap().data, vec![4, 8]);
    assert_eq!(diag(&m, 5, 0).ok().unwrap().data, Vec::<i32>::new());
    assert_eq!(diag(&range(&[1, 1, 1]), 0, 0), Err(ArrayError::NotVectorOrMatrix));
    let f = diagflat(&arr(&[2, 2], &[1, 2, 3, 4]), 0);
    assert_eq!(f.shape, vec![4, 4]);
    assert_eq!(f.data[0], 1);
    assert_eq!(f.data[5], 2);
    assert_eq!(f.data[10], 3);
    assert_eq!(f.data[15], 4);
    assert_eq!(f.data.iter().filter(|&&x| x != 0).count(), 4);
}

#[test]
fn delete_and_append() {
    let a = range(&[4]);
    assert_eq!(delete(&a, 1).ok().unwrap().data, vec![0, 2, 3]);
    assert_eq!(delete(&a, 4), Err(ArrayError::IndexOutOfRange(4)));
    let b = append(&arr(&[2], &[1, 2]), &arr(&[1, 1], &[3]));
    assert_eq!(b.shape, vec![3]);
    assert_eq!(b.data, vec![1, 2, 3]);
}

#[test]
fn concatenation() {
    let a = arr(&[1, 2], &[1, 2]);
    let b = arr(&[2, 2], &[3, 4, 5, 6]);
    let c = concatenate(&[a.clone(), b.clone()], 0).ok().unwrap();
    assert_eq!(c.shape, vec![3, 2]);
    assert_eq!(c.data, vec![1, 2, 3, 4, 5, 6]);
    let x = arr(&[2, 1], &[1, 2]);
    let y = arr(&[2, 1], &[3, 4]);
    let z = concatenate(&[x, y], 1).ok().unwrap();
    assert_eq!(z.shape, vec![2, 2]);
    assert_eq!(z.data, vec![1, 3, 2, 4]);
    assert_eq!(concatenate(&[a.clone(), b.clone()], 1), Err(ArrayError::IncompatibleShapes));
    assert_eq!(concatenate::<i32>(&[], 0), Err(ArrayError::NoArrays));
    assert_eq!(concatenate(&[a.clone()], 2), Err(ArrayError::AxisOutOfBounds));
    assert_eq!(concatenate(&[a, arr(&[2], &[1, 2])], 0), Err(ArrayError::IncompatibleShapes));
}

#[test]
fn stacking() {
    let c = column_stack(&[arr(&[2], &[1, 2]), arr(&[2], &[3, 4])]).ok().unwrap();
    assert_eq!(c.shape, vec![2, 2]);
    assert_eq!(c.data, vec![1, 3, 2, 4]);
    let d = dstack(&[arr(&[2], &[1, 2]), arr(&[2], &[3, 4])]).ok().unwrap();
    assert_eq!(d.shape, vec![1, 2, 2]);
    assert_eq!(d.data, vec![1, 3, 2, 4]);
}

#[test]
fn broadcasting() {
    assert_eq!(broadcast_shape(&[3, 1], &[1, 4]), Some(vec![3, 4]));
    assert_eq!(broadcast_shape(&[], &[2, 3]), Some(vec![2, 3]));
    assert_eq!(broadcast_shape(&[5, 2, 3], &[3]), Some(vec![5, 2, 3]));
    assert_eq!(broadcast_shape(&[2], &[3]), None);
    assert_eq!(broadcast_shape(&[4, 3], &[2, 1]), None);
    assert_eq!(broadcast_shape(&[2, 1, 4], &[3, 1]), broadcast_shape(&[3, 1], &[2, 1, 4]));
}

#[test]
fn comparisons_broadcast() {
    let a = arr::<i128>(&[3], &[1, 2, 3]);
    let b = arr::<i128>(&[1], &[2]);
    assert_eq!(compare(&a, &b, CmpOp::Lt).ok().unwrap().data, vec![true, false, false]);
    assert_eq!(compare(&a, &b, CmpOp::Ge).ok().unwrap().data, vec![false, true, true]);
    let col = arr::<i128>(&[2, 1], &[1, 3]);
    let r = compare(&col, &a, CmpOp::Eq).ok().unwrap();
    assert_eq!(r.shape, vec![2, 3]);
    assert_eq!(r.data, vec![true, false, false, false, false, true]);
    assert_eq!(compare(&a, &arr::<i128>(&[2], &[1, 2]), CmpOp::Ne), Err(ArrayError::IncompatibleShapes));
}

#[test]
fn integer_powers_broadcast() {
    let a = arr::<i64>(&[2], &[2, 3]);
    let e = arr::<i64>(&[], &[10]);
    assert_eq!(power_i64(&a, &e).ok().unwrap().data, vec![1024, 59049]);
    let neg = arr::<i64>(&[1], &[-1]);
    assert_eq!(power_i64(&a, &neg), Err(ArrayError::NegativeExponent));
    let none = arr::<i64>(&[0], &[]);
    assert_eq!(power_i64(&none, &neg).ok().unwrap().data, Vec::<i64>::new());
    let big = arr::<i64>(&[1], &[64]);
    assert_eq!(power_i64(&a, &big).ok().unwrap().data[0], 0);
}

#[test]
fn padding() {
    let a = arr(&[1, 2], &[1, 2]);
    let p = pad_constant(&a, &[(1, 0), (0, 1)], 0);
    assert_eq!(p.shape, vec![2, 3]);
    assert_eq!(p.data, vec![0, 0, 0, 1, 2, 0]);
    let v = pad_constant(&arr(&[2], &[5, 6]), &[(2, 1)], -1);
    assert_eq!(v.data, vec![-1, -1, 5, 6, -1]);
    assert_eq!(parse_pad_width(&PadWidth::Scalar(2), 2), Ok(vec![(2, 2), (2, 2)]));
    assert_eq!(parse_pad_width(&PadWidth::Pair(-1, 3), 2), Ok(vec![(0, 3), (0, 3)]));
    assert_eq!(parse_pad_width(&PadWidth::PerAxis(vec![(1, 2)]), 2), Err(PadError::WrongCount(1)));
    assert_eq!(parse_pad_width(&PadWidth::PerAxis(vec![(1, 2), (-3, 0)]), 2), Ok(vec![(1, 2), (0, 0)]));
}

#[test]
fn splitting() {
    let a = range(&[7]);
    let parts = array_split(&a, &SplitSections::Count(3), 0, true).ok().unwrap();
    assert_eq!(parts.len(), 3);
    assert_eq!(parts[0].data, vec![0, 1, 2]);
    assert_eq!(parts[1].data, vec![3, 4]);
    assert_eq!(parts[2].data, vec![5, 6]);
    assert_eq!(array_split(&a, &SplitSections::Count(3), 0, false), Err(SplitError::UnevenDivision(7, 3)));
    assert_eq!(array_split(&a, &SplitSections::Count(0), 0, true), Err(SplitError::ZeroSections));
    assert_eq!(array_split(&a, &SplitSections::Count(2), 1, true), Err(SplitError::AxisOutOfBounds(1)));
    let m = range(&[2, 4]);
    let cols = array_split(&m, &SplitSections::Indices(vec![1, 10]), -1, true).ok().unwrap();
    assert_eq!(cols.len(), 3);
    assert_eq!(cols[0].shape, vec![2, 1]);
    assert_eq!(cols[0].data, vec![0, 4]);
    assert_eq!(cols[1].shape, vec![2, 3]);
    assert_eq!(cols[1].data, vec![1, 2, 3, 5, 6, 7]);
    assert_eq!(cols[2].shape, vec![2, 0]);
}

#[test]
fn placing_values() {
    let mut a = arr(&[4], &[1, 2, 3, 4]);
    assert_eq!(place(&mut a, &[true, false, true, true], &[9, 8]), Ok(()));
    assert_eq!(a.data, vec![9, 2, 8, 9]);
    let mut b = arr(&[2], &[1, 2]);
    assert_eq!(place(&mut b, &[false, false], &[]), Ok(()));
    assert_eq!(place(&mut b, &[true, false], &[]), Err(PutError::EmptyValues));
    assert_eq!(place(&mut b, &[true], &[5]), Err(PutError::MaskSizeMismatch));
    assert_eq!(b.data, vec![1, 2]);
}

#[test]
fn put_along_an_axis() {
    let mut d = arr(&[2, 2], &[0, 0, 0, 0]);
    let idx = arr::<i64>(&[2, 1], &[1, 0]);
    assert_eq!(put_along_axis(&mut d, &idx, &[5, 6], 1), Ok(()));
    assert_eq!(d.data, vec![0, 5, 6, 0]);
    assert_eq!(put_along_axis(&mut d, &idx, &[5, 6], 2), Err(PutError::AxisOutOfBounds(2)));
    let mut e = arr(&[2, 2], &[0, 0, 0, 0]);
    assert_eq!(put_along_axis(&mut e, &arr::<i64>(&[1, 2], &[1, 1]), &[7], -2), Ok(()));
    assert_eq!(e.data, vec![0, 0, 7, 7]);
}

#[test]
fn counting() {
    let c = count_nonzero(&arr(&[3], &[true, false, true]));
    assert_eq!(c.shape, Vec::<usize>::new());
    assert_eq!(c.data, vec![2]);
    let b = bincount(&arr::<i64>(&[4], &[0, 1, 1, 3])).ok().unwrap();
    assert_eq!(b.data, vec![1, 2, 0, 1]);
    let empty = bincount(&arr::<i64>(&[0], &[])).ok().unwrap();
    assert_eq!(empty.shape, vec![0]);
    assert!(empty.data.is_empty());
    assert_eq!(bincount(&arr::<i64>(&[3], &[2, -1, 0])), Err(ArrayError::NegativeValues));
    assert_eq!(bincount(&arr::<i64>(&[2], &[-1, -5])), Err(ArrayError::NegativeValues));
}

#[test]
fn flipping_twice_gives_the_array_back() {
    let a = range(&[2, 3, 2]);
    assert_eq!(flip(&flip(&a, None), None), a);
    assert_eq!(flip(&flip(&a, Some(-2)), Some(-2)), a);
    assert_eq!(flip(&a, None).data, (0..12).rev().collect::<Vec<i64>>());
}
