use rumpy::nd::{ArrayError, NdArray};
use rumpy::text_arrays::concatenate_strings;

fn strs(shape: &[usize], data: &[&str]) -> NdArray<String> {
    NdArray { shape: shape.to_vec(), data: data.iter().map(|s| s.to_string()).collect() }
}

#[test]
fn string_arrays_join_along_an_axis() {
    let a = strs(&[2], &["a", "bb"]);
    let b = strs(&[1], &["ccc"]);
    assert_eq!(concatenate_strings(&[a, b], 0).unwrap(), strs(&[3], &["a", "bb", "ccc"]));
    let m = strs(&[2, 2], &["a", "b", "c", "d"]);
    let col = strs(&[2, 1], &["e", "f"]);
    assert_eq!(
        concatenate_strings(&[m.clone(), col.clone()], 1).unwrap(),
        strs(&[2, 3], &["a", "b", "e", "c", "d", "f"])
    );
    assert_eq!(
        concatenate_strings(&[m.clone(), strs(&[1, 2], &["x", "y"])], 0).unwrap(),
        strs(&[3, 2], &["a", "b", "c", "d", "x", "y"])
    );
}

#[test]
fn string_arrays_refused() {
    assert_eq!(concatenate_strings(&[], 0), Err(ArrayError::NoArrays));
    let a = strs(&[2], &["a", "b"]);
    assert_eq!(concatenate_strings(&[a.clone()], 1), Err(ArrayError::AxisOutOfBounds));
    let m = strs(&[2, 2], &["a", "b", "c", "d"]);
    let col = strs(&[2, 1], &["e", "f"]);
    assert_eq!(concatenate_strings(&[m, col], 0), Err(ArrayError::IncompatibleShapes));
}
