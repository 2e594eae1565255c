use rumpy::dtype::DType;
use rumpy::linalg::{normalize_axis, AxisError, QrMode};
use rumpy::nd::NdArray;
use rumpy::npy::RawArray;
use rumpy::ops::{gcd_i64, int_pow_i64};
use rumpy::raw::{conj, empty_with_shape, imag_part, real_part, tri};
use rumpy::reduce::{arg_extremum, unique, unique_counts, unique_index, unique_inverse, ReduceError};

#[test]
fn euclid() {
    assert_eq!(gcd_i64(12, 18), 6);
    assert_eq!(gcd_i64(0, 5), 5);
    assert_eq!(gcd_i64(7, 0), 7);
    assert_eq!(gcd_i64(17, 5), 1);
    assert_eq!(gcd_i64(-4, 6), 2);
    assert_eq!(gcd_i64(i64::MAX, 3), 1);
}

#[test]
fn wrapping_powers() {
    assert_eq!(int_pow_i64(2, 10), 1024);
    assert_eq!(int_pow_i64(-2, 3), -8);
    assert_eq!(int_pow_i64(3, -1), 0);
    assert_eq!(int_pow_i64(5, 0), 1);
    assert_eq!(int_pow_i64(2, 63), i64::MIN);
    assert_eq!(int_pow_i64(2, 64), 0);
    assert_eq!(int_pow_i64(3, 41), 3i64.wrapping_pow(41));
    assert_eq!(int_pow_i64(2, (1i64 << 32) + 2), 4);
}

fn c64(values: &[(f32, f32)]) -> RawArray {
    let mut data = Vec::new();
    for (re, im) in values {
        data.extend_from_slice(&re.to_le_bytes());
        data.extend_from_slice(&im.to_le_bytes());
    }
    RawArray { dtype: DType::C64, shape: vec![values.len()], data }
}

fn f32s(a: &RawArray) -> Vec<f32> {
    a.data.chunks(4).map(|c| f32::from_le_bytes([c[0], c[1], c[2], c[3]])).collect()
}

#[test]
fn complex_parts() {
    let a = c64(&[(1.5, -2.0), (0.0, 3.25)]);
    let re = real_part(&a);
    assert_eq!(re.dtype, DType::F32);
    assert_eq!(f32s(&re), vec![1.5, 0.0]);
    let im = imag_part(&a);
    assert_eq!(im.dtype, DType::F32);
    assert_eq!(f32s(&im), vec![-2.0, 3.25]);
    let cj = conj(&a);
    assert_eq!(cj.data, c64(&[(1.5, 2.0), (0.0, -3.25)]).data);
    assert_eq!(conj(&cj), a);
    let i = RawArray { dtype: DType::I16, shape: vec![2], data: vec![1, 0, 2, 0] };
    assert_eq!(real_part(&i), i);
    assert_eq!(conj(&i), i);
    assert_eq!(imag_part(&i).data, vec![0, 0, 0, 0]);
    let mut d = Vec::new();
    for v in [1.0f64, -1.0, 2.0, 0.5] {
        d.extend_from_slice(&v.to_le_bytes());
    }
    let z = RawArray { dtype: DType::C128, shape: vec![2], data: d };
    let zc = conj(&z);
    assert_eq!(f64::from_le_bytes(zc.data[8..16].try_into().unwrap()), 1.0);
    assert_eq!(f64::from_le_bytes(zc.data[24..32].try_into().unwrap()), -0.5);
    assert_eq!(imag_part(&z).dtype, DType::F64);
}

#[test]
fn constructors() {
    let z = empty_with_shape(DType::F32, &[2, 3]);
    assert_eq!(z.shape, vec![2, 3]);
    assert_eq!(z.data, vec![0u8; 24]);
    let t = tri(2, 3, 1, DType::Bool);
    assert_eq!(t.data, vec![1, 1, 0, 1, 1, 1]);
    let t = tri(3, 3, 0, DType::I64);
    let vals: Vec<i64> = t.data.chunks(8).map(|c| i64::from_le_bytes(c.try_into().unwrap())).collect();
    assert_eq!(vals, vec![1, 0, 0, 1, 1, 0, 1, 1, 1]);
    let f = tri(1, 2, 0, DType::F64);
    assert_eq!(f64::from_le_bytes(f.data[0..8].try_into().unwrap()), 1.0);
    assert_eq!(f64::from_le_bytes(f.data[8..16].try_into().unwrap()), 0.0);
    let h = tri(1, 1, 0, DType::F16);
    assert_eq!(h.data, vec![0x00, 0x3c]);
    let c = tri(1, 1, 0, DType::C64);
    assert_eq!(f32::from_le_bytes(c.data[0..4].try_into().unwrap()), 1.0);
    assert_eq!(f32::from_le_bytes(c.data[4..8].try_into().unwrap()), 0.0);
}

#[test]
fn qr_modes_and_axes() {
    assert_eq!(QrMode::parse("reduced"), Some(QrMode::Reduced));
    assert_eq!(QrMode::parse("complete"), Some(QrMode::Complete));
    assert_eq!(QrMode::parse("r"), Some(QrMode::R));
    assert_eq!(QrMode::parse("raw"), None);
    assert_eq!(normalize_axis(-1, 3), Ok(2));
    assert_eq!(normalize_axis(1, 3), Ok(1));
    assert_eq!(normalize_axis(3, 3), Err(AxisError { axis: 3, ndim: 3 }));
    assert_eq!(normalize_axis(-4, 3), Err(AxisError { axis: -4, ndim: 3 }));
}

#[test]
fn extremum_positions() {
    let a = NdArray { shape: vec![5], data: vec![3i128, 7, 7, -2, -2] };
    assert_eq!(arg_extremum(&a, true), Ok(1));
    assert_eq!(arg_extremum(&a, false), Ok(3));
    let e = NdArray::<i128> { shape: vec![0], data: vec![] };
    assert_eq!(arg_extremum(&e, true), Err(ReduceError::Empty));
}

#[test]
fn unique_values() {
    let a = NdArray { shape: vec![2, 2], data: vec![3i128, 1, 3, 2] };
    let u = unique(&a);
    assert_eq!(u, vec![1, 2, 3]);
    assert_eq!(unique_index(&a.data, &u), vec![1, 3, 0]);
    assert_eq!(unique_inverse(&a.data, &u), vec![2, 0, 2, 1]);
    assert_eq!(unique_counts(&a.data, &u), vec![1, 1, 2]);
    assert!(unique(&NdArray::<i128> { shape: vec![0], data: vec![] }).is_empty());
}
