use rumpy::crc32::crc32_ieee;
use rumpy::dtype::DType;
use rumpy::npy::{
    descr_of, get_bool_value, get_str_value, get_tuple_value, load_from_bytes, parse_descr, parse_header, read_from,
    save_to_bytes, write_to, FormatError, HeaderKey, LoadError, RawArray, ReadFailure, WriteError,
};
use rumpy::npz;
use rumpy::npz::{NpzError, NpzFormatError};
use rumpy::textio::{read_raw, write_raw, RawReadError};

fn i32_array(shape: Vec<usize>, values: &[i32]) -> RawArray {
    let mut data = Vec::new();
    for v in values {
        data.extend_from_slice(&v.to_le_bytes());
    }
    RawArray { dtype: DType::I32, shape, data }
}

#[test]
fn crc32_check_value() {
    assert_eq!(crc32_ieee(b"123456789"), 0xCBF4_3926);
    assert_eq!(crc32_ieee(b""), 0);
    assert_eq!(crc32_ieee(b"a"), 0xE8B7_BE43);
}

#[test]
fn descr_strings() {
    assert_eq!(descr_of(DType::I32).unwrap(), b"<i4".to_vec());
    assert_eq!(descr_of(DType::Bool).unwrap(), b"|b1".to_vec());
    assert_eq!(descr_of(DType::C128).unwrap(), b"<c16".to_vec());
    assert!(descr_of(DType::Object).is_none());
    assert_eq!(parse_descr(b"<f8"), Ok(DType::F64));
    assert_eq!(parse_descr(b"<u2"), Ok(DType::U16));
    assert_eq!(parse_descr(b">f8"), Err(LoadError::Format(FormatError::UnknownDescr)));
}

#[test]
fn npy_image_layout() {
    let a = i32_array(vec![2, 3], &[0, 1, 2, 3, 4, 5]);
    let bytes = save_to_bytes(&a);
    assert_eq!(&bytes[0..8], b"\x93NUMPY\x01\x00");
    let hl = u16::from_le_bytes([bytes[8], bytes[9]]) as usize;
    assert_eq!((10 + hl) % 64, 0);
    let header = std::str::from_utf8(&bytes[10..10 + hl]).unwrap();
    assert!(header.starts_with("{'descr': '<i4', 'fortran_order': False, 'shape': (2, 3), }"));
    assert!(header.ends_with('\n'));
    assert_eq!(bytes.len(), 10 + hl + 24);
}

#[test]
fn npy_round_trip() {
    let a = i32_array(vec![2, 3], &[0, -1, 2, 3, 4, 5]);
    let bytes = save_to_bytes(&a);
    let b = read_from(&bytes).ok().unwrap();
    assert_eq!(b.dtype, DType::I32);
    assert_eq!(b.shape, vec![2, 3]);
    assert_eq!(b.data, a.data);
    let c = load_from_bytes(&bytes).ok().unwrap();
    assert_eq!(c.data, a.data);
}

#[test]
fn npy_round_trip_scalar_and_vector() {
    let s = i32_array(vec![], &[42]);
    let b = read_from(&save_to_bytes(&s)).ok().unwrap();
    assert_eq!(b.shape, Vec::<usize>::new());
    assert_eq!(b.data, s.data);
    let v = i32_array(vec![3], &[7, 8, 9]);
    let bytes = save_to_bytes(&v);
    let text = String::from_utf8_lossy(&bytes);
    assert!(text.contains("'shape': (3,)"));
    assert_eq!(read_from(&bytes).ok().unwrap().shape, vec![3]);
}

#[test]
fn npy_bool_bytes_are_normalized() {
    let a = RawArray { dtype: DType::Bool, shape: vec![3], data: vec![0, 1, 1] };
    let mut bytes = save_to_bytes(&a);
    let n = bytes.len();
    bytes[n - 1] = 7;
    let b = read_from(&bytes).ok().unwrap();
    assert_eq!(b.data, vec![0, 1, 1]);
}

#[test]
fn npy_write_refuses_non_numeric() {
    let a = RawArray { dtype: DType::Object, shape: vec![1], data: vec![0; 8] };
    let mut w = vec![9u8];
    assert_eq!(write_to(&mut w, &a), Err(WriteError::UnsupportedDtype(DType::Object)));
    assert_eq!(w, vec![9u8]);
    assert!(save_to_bytes(&a).is_empty());
}

#[test]
fn npy_read_errors() {
    assert_eq!(read_from(b"\x93NUM"), Err(LoadError::Io(ReadFailure::UnexpectedEof)));
    assert_eq!(read_from(b"NOTNPY\x01\x00"), Err(LoadError::Format(FormatError::BadMagic)));
    assert_eq!(
        read_from(b"\x93NUMPY\x04\x00\x00\x00"),
        Err(LoadError::Format(FormatError::UnsupportedVersion(4, 0)))
    );
    let a = i32_array(vec![2], &[1, 2]);
    let bytes = save_to_bytes(&a);
    assert_eq!(read_from(&bytes[..bytes.len() - 1]), Err(LoadError::Io(ReadFailure::UnexpectedEof)));
    let mut fortran = bytes.clone();
    let at = fortran.windows(5).position(|w| w == b"False").unwrap();
    fortran[at..at + 5].copy_from_slice(b"True ");
    assert_eq!(read_from(&fortran).err(), Some(LoadError::Format(FormatError::FortranOrder)));
}

#[test]
fn header_values() {
    let h = b"{'descr': '<f8', 'fortran_order': False, 'shape': (4, 5), }";
    assert_eq!(get_str_value(h, HeaderKey::Descr), Ok(b"<f8".to_vec()));
    assert_eq!(get_bool_value(h, HeaderKey::FortranOrder), Ok(false));
    assert_eq!(get_tuple_value(h, HeaderKey::Shape), Ok(vec![4, 5]));
    let (d, f, s) = parse_header(h).ok().unwrap();
    assert_eq!(d, b"<f8".to_vec());
    assert!(!f);
    assert_eq!(s, vec![4, 5]);
    assert_eq!(get_str_value(b"{}", HeaderKey::Descr), Err(FormatError::MissingKey(HeaderKey::Descr)));
    assert_eq!(get_tuple_value(b"{'shape': (1, x)}", HeaderKey::Shape), Err(FormatError::BadShapeDim));
    assert_eq!(get_tuple_value(b"{'shape': ()}", HeaderKey::Shape), Ok(vec![]));
}

#[test]
fn npz_round_trip() {
    let a = i32_array(vec![2], &[1, 2]);
    let b = RawArray { dtype: DType::U8, shape: vec![3], data: vec![7, 8, 9] };
    let named = vec![("first".to_string(), a), ("zweite_größe".to_string(), b)];
    let mut w = Vec::new();
    npz::write_to(&mut w, &named);
    assert_eq!(&w[0..4], &[0x50, 0x4b, 0x03, 0x04]);
    let n = w.len();
    assert_eq!(&w[n - 22..n - 18], &[0x50, 0x4b, 0x05, 0x06]);
    let back = npz::read_from(&w).ok().unwrap();
    assert_eq!(back.len(), 2);
    assert_eq!(back[0].0, "first");
    assert_eq!(back[0].1.data, named[0].1.data);
    assert_eq!(back[1].0, "zweite_größe");
    assert_eq!(back[1].1.shape, vec![3]);
    assert_eq!(back[1].1.data, vec![7, 8, 9]);
}

#[test]
fn npz_member_names_lose_npy_suffix() {
    let a = i32_array(vec![1], &[5]);
    let named = vec![("x.npy".to_string(), a)];
    let mut w = Vec::new();
    npz::write_to(&mut w, &named);
    let text = String::from_utf8_lossy(&w);
    assert!(text.contains("x.npy.npy"));
    let back = npz::read_from(&w).ok().unwrap();
    assert_eq!(back[0].0, "x");
}

#[test]
fn npz_member_crc_is_stored() {
    let a = i32_array(vec![1], &[5]);
    let payload = save_to_bytes(&a);
    let named = vec![("k".to_string(), a)];
    let mut w = Vec::new();
    npz::write_to(&mut w, &named);
    let crc = u32::from_le_bytes([w[14], w[15], w[16], w[17]]);
    assert_eq!(crc, crc32_ieee(&payload));
    let size = u32::from_le_bytes([w[18], w[19], w[20], w[21]]) as usize;
    assert_eq!(size, payload.len());
}

#[test]
fn npz_read_errors() {
    assert_eq!(npz::read_from(&[]).err(), Some(NpzError::Format(NpzFormatError::NoEndOfCentralDirectory)));
    let a = i32_array(vec![1], &[5]);
    let named = vec![("k".to_string(), a)];
    let mut w = Vec::new();
    npz::write_to(&mut w, &named);
    let n = w.len();
    let cd = u32::from_le_bytes([w[n - 6], w[n - 5], w[n - 4], w[n - 3]]) as usize;
    let mut compressed = w.clone();
    compressed[cd + 10] = 8;
    assert_eq!(npz::read_from(&compressed).err(), Some(NpzError::Compression));
    let mut bad_cd = w.clone();
    bad_cd[cd] = 0;
    assert_eq!(
        npz::read_from(&bad_cd).err(),
        Some(NpzError::Format(NpzFormatError::BadCentralDirectoryHeader))
    );
    let mut bad_local = w.clone();
    bad_local[0] = 0;
    assert_eq!(npz::read_from(&bad_local).err(), Some(NpzError::Format(NpzFormatError::BadLocalFileHeader)));
    let mut bad_name = w.clone();
    bad_name[cd + 46] = 0xff;
    assert_eq!(npz::read_from(&bad_name).err(), Some(NpzError::Format(NpzFormatError::NonUtf8Name)));
    let mut bad_inner = w.clone();
    bad_inner[30 + 5] = b'X';
    assert_eq!(
        npz::read_from(&bad_inner).err(),
        Some(NpzError::Format(NpzFormatError::InnerNpy(LoadError::Format(FormatError::BadMagic))))
    );
}

#[test]
fn raw_round_trip() {
    let a = i32_array(vec![2, 2], &[1, 2, 3, 4]);
    let mut w = Vec::new();
    assert_eq!(write_raw(&mut w, &a), Ok(()));
    assert_eq!(w, a.data);
    let all = read_raw(&w, DType::I32, -1).ok().unwrap();
    assert_eq!(all.shape, vec![4]);
    assert_eq!(all.data, a.data);
    let two = read_raw(&w, DType::I32, 2).ok().unwrap();
    assert_eq!(two.data, w[0..8].to_vec());
    let odd = read_raw(&w[0..7], DType::I32, -1).ok().unwrap();
    assert_eq!(odd.shape, vec![1]);
    assert_eq!(read_raw(&w, DType::Object, -1).err(), Some(RawReadError::UnsupportedDtype(DType::Object)));
}

#[test]
fn npy_header_too_large_to_count() {
    let mut text = b"{'descr': '<i4', 'fortran_order': False, 'shape': (4294967296, 4294967296, 4294967296), }".to_vec();
    while (10 + text.len() + 1) % 64 != 0 {
        text.push(b' ');
    }
    text.push(b'\n');
    let mut bytes = b"\x93NUMPY\x01\x00".to_vec();
    bytes.extend_from_slice(&(text.len() as u16).to_le_bytes());
    bytes.extend_from_slice(&text);
    assert_eq!(read_from(&bytes), Err(LoadError::Format(FormatError::TooLarge)));
    assert_eq!(load_from_bytes(&bytes), Err(LoadError::Format(FormatError::TooLarge)));
}

#[test]
fn npz_offsets_past_the_end() {
    let a = i32_array(vec![1], &[5]);
    let named = vec![("k".to_string(), a)];
    let mut w = Vec::new();
    npz::write_to(&mut w, &named);
    let n = w.len();
    let mut past = w.clone();
    past[n - 6..n - 2].copy_from_slice(&(n as u32 + 100).to_le_bytes());
    assert_eq!(npz::read_from(&past).err(), Some(NpzError::Format(NpzFormatError::Unreadable)));
}
