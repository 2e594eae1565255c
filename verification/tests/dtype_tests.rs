use rumpy::dtype::DType;
use rumpy::dtype_info::{
    can_cast_dtype, iinfo_max, iinfo_min, min_scalar_type_int, promote_types, safe_cast, InfoError, PyDType,
    PyFinfo, PyIinfo,
};
use rumpy::promote::{promote, promote_many};
use rumpy::reduce::{acc_dtype, Reduce};

#[test]
fn promote_mixed_sign_integers() {
    assert_eq!(promote(DType::I8, DType::U8), DType::I16);
    assert_eq!(promote(DType::U8, DType::I8), DType::I16);
    assert_eq!(promote(DType::I32, DType::U32), DType::I64);
    assert_eq!(promote(DType::I64, DType::U64), DType::F64);
}

#[test]
fn promote_floats_and_complex() {
    assert_eq!(promote(DType::I32, DType::F32), DType::F64);
    assert_eq!(promote(DType::I8, DType::F16), DType::F16);
    assert_eq!(promote(DType::I16, DType::F16), DType::F32);
    assert_eq!(promote(DType::U16, DType::F16), DType::F32);
    assert_eq!(promote(DType::U8, DType::F16), DType::F16);
    assert_eq!(promote(DType::C64, DType::U16), DType::C64);
    assert_eq!(promote(DType::I32, DType::F16), DType::F64);
    assert_eq!(promote(DType::C64, DType::F64), DType::C128);
    assert_eq!(promote(DType::C64, DType::F32), DType::C64);
    assert_eq!(promote(DType::C64, DType::I64), DType::C128);
    assert_eq!(promote(DType::I32, DType::C64), DType::C128);
    assert_eq!(promote(DType::C64, DType::I16), DType::C64);
    assert_eq!(promote(DType::C64, DType::C128), DType::C128);
}

#[test]
fn promote_bool_is_identity_and_commutes() {
    let all = [
        DType::Bool, DType::I8, DType::I16, DType::I32, DType::I64, DType::U8, DType::U16, DType::U32,
        DType::U64, DType::F16, DType::F32, DType::F64, DType::C64, DType::C128,
    ];
    for &a in all.iter() {
        assert_eq!(promote(DType::Bool, a), a);
        assert_eq!(promote(a, a), a);
        for &b in all.iter() {
            assert_eq!(promote(a, b), promote(b, a));
        }
    }
}

#[test]
fn promote_is_not_associative() {
    let left = promote(promote(DType::I8, DType::U16), DType::F16);
    let right = promote(DType::I8, promote(DType::U16, DType::F16));
    assert_eq!(left, DType::F64);
    assert_eq!(right, DType::F32);
}

#[test]
fn promote_many_folds_left() {
    assert_eq!(promote_many(&[]), DType::F64);
    assert_eq!(promote_many(&[DType::U8]), DType::U8);
    assert_eq!(promote_many(&[DType::U8, DType::I8, DType::F32]), DType::F32);
    assert_eq!(promote_many(&[DType::Str(3), DType::Str(5)]), DType::Str(5));
}

#[test]
fn promote_types_names_the_result() {
    assert_eq!(promote_types(DType::I8, DType::U8), "int16");
    assert_eq!(promote_types(DType::F32, DType::I64), "float64");
}

#[test]
fn casting_rules() {
    assert!(safe_cast(DType::I8, DType::I16));
    assert!(!safe_cast(DType::I16, DType::I8));
    assert!(safe_cast(DType::U8, DType::I16));
    assert!(can_cast_dtype(DType::I8, DType::I16, "safe"));
    assert!(!can_cast_dtype(DType::I16, DType::I8, "safe"));
    assert!(can_cast_dtype(DType::I16, DType::I8, "unsafe"));
    assert!(can_cast_dtype(DType::F64, DType::F32, "same_kind"));
    assert!(!can_cast_dtype(DType::I8, DType::I16, "no"));
    assert!(can_cast_dtype(DType::I8, DType::I8, "no"));
}

#[test]
fn min_scalar_type_of_integers() {
    assert_eq!(min_scalar_type_int(0), DType::U8);
    assert_eq!(min_scalar_type_int(255), DType::U8);
    assert_eq!(min_scalar_type_int(256), DType::U16);
    assert_eq!(min_scalar_type_int(-1), DType::I8);
    assert_eq!(min_scalar_type_int(-129), DType::I16);
    assert_eq!(min_scalar_type_int(1 << 40), DType::U64);
}

#[test]
fn dtype_attributes() {
    let d = PyDType::from_dtype(DType::I32);
    assert_eq!(d.itemsize(), 4);
    assert_eq!(d.name(), "int32");
    assert_eq!(d.char(), "i");
    assert_eq!(d.kind(), "i");
    assert_eq!(d.num(), 5);
    assert_eq!(d.alignment(), 4);
    assert!(d.isnative());
    assert!(!d.hasobject());
    assert_eq!(d.ndim(), 0);
    let s = d.str();
    assert!(s == "<i4" || s == ">i4");
    let b = PyDType::from_dtype(DType::Bool);
    assert_eq!(b.str(), "|?");
    assert_eq!(b.byteorder(), "|");
    assert_eq!(PyDType::from_dtype(DType::C128).name(), "complex128");
    assert_eq!(PyDType::from_dtype(DType::Str(3)).itemsize(), 12);
}

#[test]
fn integer_and_float_info() {
    assert_eq!(iinfo_min(DType::I8), -128);
    assert_eq!(iinfo_max(DType::U16), 65535);
    let ii = PyIinfo::new(DType::I64).ok().unwrap();
    assert_eq!(ii.min(), i64::MIN);
    assert_eq!(ii.max(), i64::MAX);
    assert_eq!(ii.bits(), 64);
    assert!(matches!(PyIinfo::new(DType::F32), Err(InfoError::NotInteger(DType::F32))));
    let fi = PyFinfo::new(DType::F64).ok().unwrap();
    assert_eq!(fi.bits(), 64);
    assert_eq!(fi.precision(), 15);
    assert!(PyFinfo::new(DType::I8).is_err());
}

#[test]
fn reduction_dtypes() {
    assert_eq!(acc_dtype(DType::I8, Reduce::Sum), DType::I64);
    assert_eq!(acc_dtype(DType::Bool, Reduce::Prod), DType::I64);
    assert_eq!(acc_dtype(DType::U16, Reduce::Sum), DType::U64);
    assert_eq!(acc_dtype(DType::F32, Reduce::Sum), DType::F32);
    assert_eq!(acc_dtype(DType::I32, Reduce::Mean), DType::F64);
    assert_eq!(acc_dtype(DType::C64, Reduce::Var(1)), DType::C64);
    assert_eq!(acc_dtype(DType::U8, Reduce::Max), DType::U8);
}
