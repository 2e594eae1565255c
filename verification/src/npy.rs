//! The numpy `.npy` format, version 1.0 (written) and 1.0 / 2.0 / 3.0 (read).
//!
//! ```text
//!   bytes  0..6      "\x93NUMPY"          magic
//!   bytes  6..8      \x01\x00             version 1.0 (major, minor)
//!   bytes  8..10     header length (LE u16; LE u32 for versions 2 and 3)
//!   bytes  10..      ASCII header (Python dict literal), padded with spaces,
//!                    last byte '\n'; magic + version + length + header is a
//!                    multiple of 64 bytes
//!   bytes ..         raw little-endian element data, C order
//! ```
//!
//! An array is held as its dtype, its shape and its raw little-endian element
//! bytes (`RawArray`); booleans are stored as the bytes 0 and 1.
use vstd::prelude::*;

use crate::dtype::DType;
use crate::scan::{find, find_from, find_bytes_from, lemma_find_from, parse_usize, parse_usize_range, split, trim, trim_range, matches_at};
use crate::text::{decimal, decimal_bytes, extend_bytes};

verus! {

/// Number of elements of an array of the given shape (1 for a scalar).
pub open spec fn shape_product(shape: Seq<usize>) -> nat
    decreases shape.len(),
{
    if shape.len() == 0 {
        1
    } else {
        shape_product(shape.drop_last()) * (shape.last() as nat)
    }
}

/// An n-dimensional array of a numeric dtype held as raw little-endian bytes.
#[derive(Clone, Debug, PartialEq, Eq)]
pub struct RawArray {
    pub dtype: DType,
    pub shape: Vec<usize>,
    pub data: Vec<u8>,
}

/// The mathematical content of a `RawArray`.
pub struct ArrayModel {
    pub dtype: DType,
    pub shape: Seq<usize>,
    pub data: Seq<u8>,
}

impl View for RawArray {
    type V = ArrayModel;

    open spec fn view(&self) -> ArrayModel {
        ArrayModel { dtype: self.dtype, shape: self.shape@, data: self.data@ }
    }
}

/// A well-formed array: numeric dtype, one element's bytes per cell, and
/// booleans stored as 0 or 1.
pub open spec fn array_wf(a: ArrayModel) -> bool {
    &&& a.dtype.spec_is_numeric()
    &&& a.data.len() == shape_product(a.shape) * a.dtype.spec_itemsize()
    &&& a.dtype == DType::Bool ==> forall|i: int| 0 <= i < a.data.len() ==> #[trigger] a.data[i] <= 1
}

/// Failure to read enough bytes.
#[derive(Clone, Copy, Debug, PartialEq, Eq, Structural)]
pub enum ReadFailure {
    UnexpectedEof,
}

/// The header keys the reader looks up.
#[derive(Clone, Copy, Debug, PartialEq, Eq, Structural)]
pub enum HeaderKey {
    Descr,
    FortranOrder,
    Shape,
}

/// What is wrong with a malformed `.npy` file.
#[derive(Clone, Copy, Debug, PartialEq, Eq, Structural)]
pub enum FormatError {
    BadMagic,
    UnsupportedVersion(u8, u8),
    HeaderNotUtf8,
    MissingKey(HeaderKey),
    /// No `:` after the `'descr'` key.
    BadHeader,
    /// No opening quote of the descr value.
    DescrQuote,
    /// No closing quote of the descr value.
    DescrEndQuote,
    ShapeOpenMissing,
    ShapeCloseMissing,
    /// A shape entry that is not a `usize`.
    BadShapeDim,
    /// `fortran_order` is `True`.
    FortranOrder,
    /// The descr names no supported dtype.
    UnknownDescr,
    /// The shape names more elements, or more bytes, than a `usize` counts.
    TooLarge,
}

/// Why an `.npy` image could not be loaded.
#[derive(Clone, Copy, Debug, PartialEq, Eq, Structural)]
pub enum LoadError {
    Io(ReadFailure),
    Format(FormatError),
}

/// Why an array could not be written.
#[derive(Clone, Copy, Debug, PartialEq, Eq, Structural)]
pub enum WriteError {
    /// Only the fourteen numeric dtypes have an `.npy` v1 descr.
    UnsupportedDtype(DType),
}

// ---------------------------------------------------------------------
// Fixed byte strings of the format
// ---------------------------------------------------------------------

/// `"\x93NUMPY"`.
pub open spec fn magic() -> Seq<u8> {
    seq![147u8, 78, 85, 77, 80, 89]
}

/// `{'descr': '`
pub open spec fn header_open() -> Seq<u8> {
    seq![123u8, 39, 100, 101, 115, 99, 114, 39, 58, 32, 39]
}

/// `', 'fortran_order': False, 'shape': `
pub open spec fn header_middle() -> Seq<u8> {
    seq![39u8, 44, 32, 39, 102, 111, 114, 116, 114, 97, 110, 95, 111, 114, 100, 101, 114, 39, 58, 32, 70, 97, 108, 115, 101, 44, 32, 39, 115, 104, 97, 112, 101, 39, 58, 32]
}

/// `, }`
pub open spec fn header_close() -> Seq<u8> {
    seq![44u8, 32, 125]
}

/// The quoted key as it appears in the header: `'descr'`, ...
pub open spec fn key_needle(k: HeaderKey) -> Seq<u8> {
    match k {
        HeaderKey::Descr => seq![39u8, 100, 101, 115, 99, 114, 39],
        HeaderKey::FortranOrder => seq![39u8, 102, 111, 114, 116, 114, 97, 110, 95, 111, 114, 100, 101, 114, 39],
        HeaderKey::Shape => seq![39u8, 115, 104, 97, 112, 101, 39],
    }
}

/// `True`
pub open spec fn true_word() -> Seq<u8> {
    seq![84u8, 114, 117, 101]
}

pub open spec fn quote() -> Seq<u8> {
    seq![39u8]
}

pub open spec fn colon() -> Seq<u8> {
    seq![58u8]
}

pub open spec fn comma() -> Seq<u8> {
    seq![44u8]
}

pub open spec fn open_paren() -> Seq<u8> {
    seq![40u8]
}

pub open spec fn close_paren() -> Seq<u8> {
    seq![41u8]
}

/// The `.npy` v1 type string of a numeric dtype (`'<f8'`, `'|b1'`, ...).
pub open spec fn spec_descr(d: DType) -> Option<Seq<u8>> {
    match d {
        DType::Bool => Some(seq![124u8, 98, 49]),
        DType::I8 => Some(seq![124u8, 105, 49]),
        DType::I16 => Some(seq![60u8, 105, 50]),
        DType::I32 => Some(seq![60u8, 105, 52]),
        DType::I64 => Some(seq![60u8, 105, 56]),
        DType::U8 => Some(seq![124u8, 117, 49]),
        DType::U16 => Some(seq![60u8, 117, 50]),
        DType::U32 => Some(seq![60u8, 117, 52]),
        DType::U64 => Some(seq![60u8, 117, 56]),
        DType::F16 => Some(seq![60u8, 102, 50]),
        DType::F32 => Some(seq![60u8, 102, 52]),
        DType::F64 => Some(seq![60u8, 102, 56]),
        DType::C64 => Some(seq![60u8, 99, 56]),
        DType::C128 => Some(seq![60u8, 99, 49, 54]),
        _ => None,
    }
}

/// The dtype named by a type string: the inverse of `spec_descr`.
pub open spec fn spec_parse_descr(s: Seq<u8>) -> Option<DType> {
    if s == seq![124u8, 98, 49] { Some(DType::Bool) }
    else if s == seq![124u8, 105, 49] { Some(DType::I8) }
    else if s == seq![60u8, 105, 50] { Some(DType::I16) }
    else if s == seq![60u8, 105, 52] { Some(DType::I32) }
    else if s == seq![60u8, 105, 56] { Some(DType::I64) }
    else if s == seq![124u8, 117, 49] { Some(DType::U8) }
    else if s == seq![60u8, 117, 50] { Some(DType::U16) }
    else if s == seq![60u8, 117, 52] { Some(DType::U32) }
    else if s == seq![60u8, 117, 56] { Some(DType::U64) }
    else if s == seq![60u8, 102, 50] { Some(DType::F16) }
    else if s == seq![60u8, 102, 52] { Some(DType::F32) }
    else if s == seq![60u8, 102, 56] { Some(DType::F64) }
    else if s == seq![60u8, 99, 56] { Some(DType::C64) }
    else if s == seq![60u8, 99, 49, 54] { Some(DType::C128) }
    else { None }
}

fn magic_bytes() -> (r: Vec<u8>)
    ensures
        r@ == magic(),
{
    let r = vec![147u8, 78, 85, 77, 80, 89];
    assert(r@ =~= magic());
    r
}

fn true_bytes() -> (r: Vec<u8>)
    ensures
        r@ == true_word(),
{
    let r = vec![84u8, 114, 117, 101];
    assert(r@ =~= true_word());
    r
}

fn key_bytes(k: HeaderKey) -> (r: Vec<u8>)
    ensures
        r@ == key_needle(k),
{
    let r = match k {
        HeaderKey::Descr => vec![39u8, 100, 101, 115, 99, 114, 39],
        HeaderKey::FortranOrder => vec![39u8, 102, 111, 114, 116, 114, 97, 110, 95, 111, 114, 100, 101, 114, 39],
        HeaderKey::Shape => vec![39u8, 115, 104, 97, 112, 101, 39],
    };
    assert(r@ =~= key_needle(k));
    r
}

/// `descr_of`: the `.npy` v1 type string of a dtype, if it has one.
pub fn descr_of(d: DType) -> (r: Option<Vec<u8>>)
    ensures
        match r {
            Some(v) => spec_descr(d) == Some(v@),
            None => spec_descr(d) is None,
        },
{
    let v = match d {
        DType::Bool => vec![124u8, 98, 49],
        DType::I8 => vec![124u8, 105, 49],
        DType::I16 => vec![60u8, 105, 50],
        DType::I32 => vec![60u8, 105, 52],
        DType::I64 => vec![60u8, 105, 56],
        DType::U8 => vec![124u8, 117, 49],
        DType::U16 => vec![60u8, 117, 50],
        DType::U32 => vec![60u8, 117, 52],
        DType::U64 => vec![60u8, 117, 56],
        DType::F16 => vec![60u8, 102, 50],
        DType::F32 => vec![60u8, 102, 52],
        DType::F64 => vec![60u8, 102, 56],
        DType::C64 => vec![60u8, 99, 56],
        DType::C128 => vec![60u8, 99, 49, 54],
        _ => return None,
    };
    assert(spec_descr(d) == Some(v@)) by {
        assert(spec_descr(d).unwrap() =~= v@);
    }
    Some(v)
}

fn bytes_eq(a: &[u8], b: &[u8]) -> (r: bool)
    ensures
        r == (a@ == b@),
{
    if a.len() != b.len() {
        return false;
    }
    let mut i: usize = 0;
    while i < a.len()
        invariant
            a.len() == b.len(),
            i <= a.len(),
            forall|k: int| 0 <= k < i ==> a@[k] == b@[k],
        decreases a.len() - i,
    {
        if a[i] != b[i] {
            return false;
        }
        i = i + 1;
    }
    assert(a@ =~= b@);
    true
}

/// `parse_descr`: the dtype named by a type string.
pub fn parse_descr(s: &[u8]) -> (r: Result<DType, LoadError>)
    ensures
        match spec_parse_descr(s@) {
            Some(d) => r == Ok::<DType, LoadError>(d),
            None => r == Err::<DType, LoadError>(LoadError::Format(FormatError::UnknownDescr)),
        },
{
    let names: [DType; 14] = [
        DType::Bool, DType::I8, DType::I16, DType::I32, DType::I64, DType::U8, DType::U16,
        DType::U32, DType::U64, DType::F16, DType::F32, DType::F64, DType::C64, DType::C128,
    ];
    let mut i: usize = 0;
    while i < 14
        invariant
            i <= 14,
            names@ == seq![
                DType::Bool, DType::I8, DType::I16, DType::I32, DType::I64, DType::U8, DType::U16,
                DType::U32, DType::U64, DType::F16, DType::F32, DType::F64, DType::C64, DType::C128,
            ],
            forall|k: int| 0 <= k < i ==> spec_descr(#[trigger] names@[k]) != Some(s@),
        decreases 14 - i,
    {
        let d = names[i];
        match descr_of(d) {
            Some(v) => {
                if bytes_eq(v.as_slice(), s) {
                    return Ok(d);
                }
            },
            None => {},
        }
        i = i + 1;
    }
    assert(spec_parse_descr(s@) is None) by {
        assert(spec_descr(names@[0]) != Some(s@));
        assert(spec_descr(names@[1]) != Some(s@));
        assert(spec_descr(names@[2]) != Some(s@));
        assert(spec_descr(names@[3]) != Some(s@));
        assert(spec_descr(names@[4]) != Some(s@));
        assert(spec_descr(names@[5]) != Some(s@));
        assert(spec_descr(names@[6]) != Some(s@));
        assert(spec_descr(names@[7]) != Some(s@));
        assert(spec_descr(names@[8]) != Some(s@));
        assert(spec_descr(names@[9]) != Some(s@));
        assert(spec_descr(names@[10]) != Some(s@));
        assert(spec_descr(names@[11]) != Some(s@));
        assert(spec_descr(names@[12]) != Some(s@));
        assert(spec_descr(names@[13]) != Some(s@));
    }
    Err(LoadError::Format(FormatError::UnknownDescr))
}

// ---------------------------------------------------------------------
// Header parsing
// ---------------------------------------------------------------------

/// The value of a quoted-string key: after the key, a `:`, then the text
/// between the next two quotes.
pub open spec fn spec_get_str_value(s: Seq<u8>, k: HeaderKey) -> Result<Seq<u8>, FormatError> {
    let needle = key_needle(k);
    match find(s, needle) {
        None => Err(FormatError::MissingKey(k)),
        Some(i) => {
            let rest = s.skip(i + needle.len());
            match find(rest, colon()) {
                None => Err(FormatError::BadHeader),
                Some(c) => {
                    let rest2 = rest.skip(c + 1);
                    match find(rest2, quote()) {
                        None => Err(FormatError::DescrQuote),
                        Some(q) => {
                            let after = rest2.skip(q + 1);
                            match find(after, quote()) {
                                None => Err(FormatError::DescrEndQuote),
                                Some(e) => Ok(after.take(e)),
                            }
                        },
                    }
                },
            }
        },
    }
}

/// The value of a boolean key: `True` occurs after the key and before the
/// next comma.
pub open spec fn spec_get_bool_value(s: Seq<u8>, k: HeaderKey) -> Result<bool, FormatError> {
    let needle = key_needle(k);
    match find(s, needle) {
        None => Err(FormatError::MissingKey(k)),
        Some(i) => {
            let after = s.skip(i + needle.len());
            Ok(
                match find(after, true_word()) {
                    Some(t) => t < (match find(after, comma()) {
                        Some(c) => c,
                        None => after.len() as int,
                    }),
                    None => false,
                },
            )
        },
    }
}

/// One comma-separated entry of a shape tuple folded into the dims read so
/// far: blank entries are skipped, others must parse as `usize`.
pub open spec fn dims_step(v: Seq<usize>, part: Seq<u8>) -> Option<Seq<usize>> {
    let t = trim(part);
    if t.len() == 0 {
        Some(v)
    } else {
        match parse_usize(t) {
            None => None,
            Some(n) => Some(v.push(n as usize)),
        }
    }
}

/// The dims named by the comma-separated entries of a shape tuple.
pub open spec fn parse_dims(parts: Seq<Seq<u8>>) -> Option<Seq<usize>>
    decreases parts.len(),
{
    if parts.len() == 0 {
        Some(Seq::<usize>::empty())
    } else {
        match parse_dims(parts.drop_last()) {
            None => None,
            Some(v) => dims_step(v, parts.last()),
        }
    }
}

/// The value of a tuple key: the entries between the first `(` after the
/// key and the next `)`.
pub open spec fn spec_get_tuple_value(s: Seq<u8>, k: HeaderKey) -> Result<Seq<usize>, FormatError> {
    let needle = key_needle(k);
    match find(s, needle) {
        None => Err(FormatError::MissingKey(k)),
        Some(i) => {
            let rest = s.skip(i + needle.len());
            match find(rest, open_paren()) {
                None => Err(FormatError::ShapeOpenMissing),
                Some(open) => match find(rest.skip(open), close_paren()) {
                    None => Err(FormatError::ShapeCloseMissing),
                    Some(close) => match parse_dims(split(rest.subrange(open + 1, open + close), 44u8)) {
                        None => Err(FormatError::BadShapeDim),
                        Some(v) => Ok(v),
                    },
                },
            }
        },
    }
}

/// The three header values: descr, fortran order and shape.
pub open spec fn spec_parse_header(s: Seq<u8>) -> Result<(Seq<u8>, bool, Seq<usize>), FormatError> {
    match spec_get_str_value(s, HeaderKey::Descr) {
        Err(e) => Err(e),
        Ok(descr) => match spec_get_bool_value(s, HeaderKey::FortranOrder) {
            Err(e) => Err(e),
            Ok(fortran) => match spec_get_tuple_value(s, HeaderKey::Shape) {
                Err(e) => Err(e),
                Ok(shape) => Ok((descr, fortran, shape)),
            },
        },
    }
}

/// Position of the first occurrence of `pat` at or after `start` in `s`,
/// through `find_bytes_from`, with the search over the suffix restated.
fn find_in(s: &[u8], pat: &[u8], start: usize) -> (r: Option<usize>)
    requires
        start <= s.len(),
    ensures
        match r {
            Some(p) => start <= p && p + pat.len() <= s.len() && matches_at(s@, pat@, p as int)
                && find(s@.skip(start as int), pat@) == Some(p - start),
            None => find(s@.skip(start as int), pat@) is None,
        },
{
    proof {
        crate::scan::lemma_find_skip(s@, pat@, start as int, 0);
        lemma_find_from(s@, pat@, start as int);
    }
    find_bytes_from(s, pat, start)
}

/// `get_str_value`.
pub fn get_str_value(s: &[u8], k: HeaderKey) -> (r: Result<Vec<u8>, FormatError>)
    ensures
        match r {
            Ok(v) => spec_get_str_value(s@, k) == Ok::<Seq<u8>, FormatError>(v@),
            Err(e) => spec_get_str_value(s@, k) == Err::<Seq<u8>, FormatError>(e),
        },
{
    let needle = key_bytes(k);
    assert(s@.skip(0) =~= s@);
    let i = match find_in(s, needle.as_slice(), 0) {
        None => {
            return Err(FormatError::MissingKey(k));
        },
        Some(i) => i,
    };
    proof {
        lemma_find_from(s@, needle@, 0);
    }
    let base = i + needle.len();
    let ghost rest = s@.skip(base as int);
    let c = match find_in(s, one_byte(58u8).as_slice(), base) {
        None => {
            assert(seq![58u8] =~= colon());
            return Err(FormatError::BadHeader);
        },
        Some(c) => c,
    };
    assert(seq![58u8] =~= colon());
    let ghost rest2 = rest.skip(c - base + 1);
    assert(rest2 =~= s@.skip(c + 1));
    let q = match find_in(s, one_byte(39u8).as_slice(), c + 1) {
        None => {
            assert(seq![39u8] =~= quote());
            return Err(FormatError::DescrQuote);
        },
        Some(q) => q,
    };
    assert(seq![39u8] =~= quote());
    proof {
        lemma_find_from(s@.skip(c + 1), quote(), 0);
    }
    let ghost after = rest2.skip(q - (c + 1) + 1);
    assert(after =~= s@.skip(q + 1));
    let e = match find_in(s, one_byte(39u8).as_slice(), q + 1) {
        None => {
            return Err(FormatError::DescrEndQuote);
        },
        Some(e) => e,
    };
    proof {
        lemma_find_from(s@.skip(q + 1), quote(), 0);
    }
    let mut out: Vec<u8> = Vec::new();
    extend_bytes(&mut out, slice_range(s, q + 1, e));
    assert(out@ =~= after.take(e - (q + 1)));
    Ok(out)
}

/// The one-byte string `b`.
fn one_byte(b: u8) -> (r: Vec<u8>)
    ensures
        r@ == seq![b],
{
    let r = vec![b];
    assert(r@ =~= seq![b]);
    r
}

/// `s[lo..hi]`.
pub(crate) fn slice_range(s: &[u8], lo: usize, hi: usize) -> (r: &[u8])
    requires
        lo <= hi <= s.len(),
    ensures
        r@ == s@.subrange(lo as int, hi as int),
{
    vstd::slice::slice_subrange(s, lo, hi)
}

/// `get_bool_value`.
pub fn get_bool_value(s: &[u8], k: HeaderKey) -> (r: Result<bool, FormatError>)
    ensures
        match r {
            Ok(v) => spec_get_bool_value(s@, k) == Ok::<bool, FormatError>(v),
            Err(e) => spec_get_bool_value(s@, k) == Err::<bool, FormatError>(e),
        },
{
    let needle = key_bytes(k);
    assert(s@.skip(0) =~= s@);
    let i = match find_in(s, needle.as_slice(), 0) {
        None => return Err(FormatError::MissingKey(k)),
        Some(i) => i,
    };
    proof {
        lemma_find_from(s@, needle@, 0);
    }
    let base = i + needle.len();
    let ghost after = s@.skip(base as int);
    let tw = true_bytes();
    let t = find_in(s, tw.as_slice(), base);
    assert(seq![84u8, 114, 117, 101] =~= true_word());
    let c = find_in(s, one_byte(44u8).as_slice(), base);
    assert(seq![44u8] =~= comma());
    match t {
        Some(tp) => {
            let limit = match c {
                Some(cp) => cp - base,
                None => s.len() - base,
            };
            Ok(tp - base < limit)
        },
        None => Ok(false),
    }
}

/// One step of the shape-entry fold on `s[lo..hi]`.
fn dims_step_exec(s: &[u8], lo: usize, hi: usize, out: &mut Vec<usize>) -> (ok: bool)
    requires
        lo <= hi <= s.len(),
    ensures
        ok ==> dims_step(old(out)@, s@.subrange(lo as int, hi as int)) == Some(final(out)@),
        !ok ==> dims_step(old(out)@, s@.subrange(lo as int, hi as int)) is None,
{
    let (a, b) = trim_range(s, lo, hi);
    if a == b {
        return true;
    }
    match parse_usize_range(s, a, b) {
        None => false,
        Some(n) => {
            out.push(n);
            true
        },
    }
}

/// The dims of the shape entries in `s[lo..hi]`.
fn parse_dims_range(s: &[u8], lo: usize, hi: usize) -> (r: Option<Vec<usize>>)
    requires
        lo <= hi <= s.len(),
    ensures
        match r {
            Some(v) => parse_dims(split(s@.subrange(lo as int, hi as int), 44u8)) == Some(v@),
            None => parse_dims(split(s@.subrange(lo as int, hi as int), 44u8)) is None,
        },
{
    let mut out: Vec<usize> = Vec::new();
    let mut failed = false;
    let mut part_start = lo;
    let mut i = lo;
    proof {
        assert(s@.subrange(lo as int, lo as int) =~= Seq::<u8>::empty());
        assert(split(Seq::<u8>::empty(), 44u8).drop_last() =~= Seq::<Seq<u8>>::empty());
    }
    while i < hi
        invariant
            lo <= part_start <= i <= hi <= s.len(),
            split(s@.subrange(lo as int, i as int), 44u8).last() == s@.subrange(part_start as int, i as int),
            split(s@.subrange(lo as int, i as int), 44u8).len() >= 1,
            failed ==> parse_dims(split(s@.subrange(lo as int, i as int), 44u8).drop_last()) is None,
            !failed ==> parse_dims(split(s@.subrange(lo as int, i as int), 44u8).drop_last()) == Some(out@),
        decreases hi - i,
    {
        let ghost x = s@.subrange(lo as int, i as int);
        let ghost y = s@.subrange(lo as int, i + 1);
        assert(y.drop_last() =~= x);
        assert(y.last() == s@[i as int]);
        if s[i] == 44 {
            assert(split(y, 44u8) == split(x, 44u8).push(Seq::<u8>::empty()));
            assert(split(y, 44u8).drop_last() =~= split(x, 44u8));
            assert(split(x, 44u8).drop_last().push(split(x, 44u8).last()) =~= split(x, 44u8));
            if !failed {
                let ok = dims_step_exec(s, part_start, i, &mut out);
                if !ok {
                    failed = true;
                }
            }
            part_start = i + 1;
            assert(s@.subrange(part_start as int, i + 1) =~= Seq::<u8>::empty());
        } else {
            let ghost sx = split(x, 44u8);
            assert(split(y, 44u8) == sx.update(sx.len() - 1, sx.last().push(s@[i as int])));
            assert(split(y, 44u8).drop_last() =~= sx.drop_last());
            assert(s@.subrange(part_start as int, i + 1) =~= s@.subrange(part_start as int, i as int).push(s@[i as int]));
        }
        i = i + 1;
    }
    let ghost full = split(s@.subrange(lo as int, hi as int), 44u8);
    assert(full.drop_last().push(full.last()) =~= full);
    if failed {
        return None;
    }
    let ok = dims_step_exec(s, part_start, hi, &mut out);
    if ok {
        Some(out)
    } else {
        None
    }
}

/// `get_tuple_value`.
pub fn get_tuple_value(s: &[u8], k: HeaderKey) -> (r: Result<Vec<usize>, FormatError>)
    ensures
        match r {
            Ok(v) => spec_get_tuple_value(s@, k) == Ok::<Seq<usize>, FormatError>(v@),
            Err(e) => spec_get_tuple_value(s@, k) == Err::<Seq<usize>, FormatError>(e),
        },
{
    let needle = key_bytes(k);
    assert(s@.skip(0) =~= s@);
    let i = match find_in(s, needle.as_slice(), 0) {
        None => return Err(FormatError::MissingKey(k)),
        Some(i) => i,
    };
    proof {
        lemma_find_from(s@, needle@, 0);
    }
    let base = i + needle.len();
    let ghost rest = s@.skip(base as int);
    assert(seq![40u8] =~= open_paren());
    assert(seq![41u8] =~= close_paren());
    let open = match find_in(s, one_byte(40u8).as_slice(), base) {
        None => return Err(FormatError::ShapeOpenMissing),
        Some(o) => o,
    };
    proof {
        lemma_find_from(rest, open_paren(), 0);
    }
    assert(rest.skip(open - base) =~= s@.skip(open as int));
    let close = match find_in(s, one_byte(41u8).as_slice(), open) {
        None => return Err(FormatError::ShapeCloseMissing),
        Some(c) => c,
    };
    proof {
        lemma_find_from(s@.skip(open as int), close_paren(), 0);
        assert(s@.subrange(open as int, open + 1)[0] == 40u8);
        assert(s@.subrange(close as int, close + 1)[0] == 41u8);
    }
    assert(open < close);
    assert(rest.subrange(open - base + 1, open - base + (close - open)) =~= s@.subrange(open + 1, close as int));
    match parse_dims_range(s, open + 1, close) {
        None => Err(FormatError::BadShapeDim),
        Some(v) => Ok(v),
    }
}

/// `parse_header`: descr, fortran order and shape of a header.
pub fn parse_header(s: &[u8]) -> (r: Result<(Vec<u8>, bool, Vec<usize>), FormatError>)
    ensures
        match r {
            Ok((d, f, sh)) => spec_parse_header(s@) == Ok::<(Seq<u8>, bool, Seq<usize>), FormatError>((d@, f, sh@)),
            Err(e) => spec_parse_header(s@) == Err::<(Seq<u8>, bool, Seq<usize>), FormatError>(e),
        },
{
    let descr = match get_str_value(s, HeaderKey::Descr) {
        Err(e) => return Err(e),
        Ok(d) => d,
    };
    let fortran = match get_bool_value(s, HeaderKey::FortranOrder) {
        Err(e) => return Err(e),
        Ok(f) => f,
    };
    let shape = match get_tuple_value(s, HeaderKey::Shape) {
        Err(e) => return Err(e),
        Ok(sh) => sh,
    };
    Ok((descr, fortran, shape))
}

// ---------------------------------------------------------------------
// Writing
// ---------------------------------------------------------------------

/// The dims joined by `", "`.
pub open spec fn join_dims(shape: Seq<usize>) -> Seq<u8>
    decreases shape.len(),
{
    if shape.len() == 0 {
        Seq::<u8>::empty()
    } else if shape.len() == 1 {
        decimal(shape[0] as nat)
    } else {
        join_dims(shape.drop_last()) + seq![44u8, 32u8] + decimal(shape.last() as nat)
    }
}

/// Python tuple literal of a shape: `()`, `(3,)`, `(2, 3)`.
pub open spec fn shape_string(shape: Seq<usize>) -> Seq<u8> {
    if shape.len() == 0 {
        seq![40u8, 41u8]
    } else if shape.len() == 1 {
        seq![40u8] + decimal(shape[0] as nat) + seq![44u8, 41u8]
    } else {
        seq![40u8] + join_dims(shape) + seq![41u8]
    }
}

/// The header dict literal of an array with the given type string.
pub open spec fn header_body(descr: Seq<u8>, shape: Seq<usize>) -> Seq<u8> {
    header_open() + descr + header_middle() + shape_string(shape) + header_close()
}

/// Spaces that bring magic + version + length + header + newline to a
/// multiple of 64 bytes.
pub open spec fn pad_len(body_len: nat) -> nat {
    ((64 - ((10 + body_len + 1) % 64)) % 64) as nat
}

/// The full header: dict literal, padding spaces and a newline.
pub open spec fn header_block(descr: Seq<u8>, shape: Seq<usize>) -> Seq<u8> {
    let body = header_body(descr, shape);
    body + Seq::new(pad_len(body.len()), |i: int| 32u8) + seq![10u8]
}

/// Little-endian `u16` encoding of `n` modulo 2^16.
pub open spec fn le16(n: nat) -> Seq<u8> {
    seq![(n % 256) as u8, ((n / 256) % 256) as u8]
}

/// The `.npy` v1 image of an array of a numeric dtype.
pub open spec fn spec_npy_bytes(a: ArrayModel) -> Seq<u8> {
    let block = header_block(spec_descr(a.dtype).unwrap(), a.shape);
    magic() + seq![1u8, 0u8] + le16(block.len()) + block + a.data
}

/// `shape_string`.
fn shape_string_bytes(shape: &[usize]) -> (r: Vec<u8>)
    ensures
        r@ == shape_string(shape@),
{
    let mut out: Vec<u8> = Vec::new();
    out.push(40u8);
    if shape.len() == 0 {
        out.push(41u8);
        assert(out@ =~= shape_string(shape@));
        return out;
    }
    if shape.len() == 1 {
        let d = decimal_bytes(shape[0] as u64);
        extend_bytes(&mut out, d.as_slice());
        out.push(44u8);
        out.push(41u8);
        assert(out@ =~= shape_string(shape@));
        return out;
    }
    let mut i: usize = 0;
    while i < shape.len()
        invariant
            1 < shape.len(),
            i <= shape.len(),
            out@ == seq![40u8] + join_dims(shape@.take(i as int)),
        decreases shape.len() - i,
    {
        let ghost prev = shape@.take(i as int);
        let ghost next = shape@.take(i + 1);
        assert(next.drop_last() =~= prev);
        if i > 0 {
            out.push(44u8);
            out.push(32u8);
        }
        let d = decimal_bytes(shape[i] as u64);
        extend_bytes(&mut out, d.as_slice());
        proof {
            if i == 0 {
                assert(prev =~= Seq::<usize>::empty());
                assert(out@ =~= seq![40u8] + join_dims(next));
            } else {
                assert(out@ =~= seq![40u8] + join_dims(next));
            }
        }
        i = i + 1;
    }
    out.push(41u8);
    assert(shape@.take(shape.len() as int) =~= shape@);
    assert(out@ =~= shape_string(shape@));
    out
}

fn header_open_bytes() -> (r: Vec<u8>)
    ensures
        r@ == header_open(),
{
    let r = vec![123u8, 39, 100, 101, 115, 99, 114, 39, 58, 32, 39];
    assert(r@ =~= header_open());
    r
}

fn header_middle_bytes() -> (r: Vec<u8>)
    ensures
        r@ == header_middle(),
{
    let r = vec![39u8, 44, 32, 39, 102, 111, 114, 116, 114, 97, 110, 95, 111, 114, 100, 101, 114, 39, 58, 32, 70, 97, 108, 115, 101, 44, 32, 39, 115, 104, 97, 112, 101, 39, 58, 32];
    assert(r@ =~= header_middle());
    r
}

fn header_close_bytes() -> (r: Vec<u8>)
    ensures
        r@ == header_close(),
{
    let r = vec![44u8, 32, 125];
    assert(r@ =~= header_close());
    r
}

/// `header_block`: dict literal, padding and newline.
fn header_block_bytes(descr: &[u8], shape: &[usize]) -> (r: Vec<u8>)
    requires
        header_block(descr@, shape@).len() <= usize::MAX,
    ensures
        r@ == header_block(descr@, shape@),
{
    let mut body: Vec<u8> = header_open_bytes();
    extend_bytes(&mut body, descr);
    let mid = header_middle_bytes();
    extend_bytes(&mut body, mid.as_slice());
    let sh = shape_string_bytes(shape);
    extend_bytes(&mut body, sh.as_slice());
    let close = header_close_bytes();
    extend_bytes(&mut body, close.as_slice());
    assert(body@ =~= header_body(descr@, shape@));
    let raw_len = body.len() + 1;
    let t = (raw_len % 64 + 10) % 64;
    assert(t == (10 + raw_len) % 64) by (nonlinear_arith)
        requires
            t == (raw_len % 64 + 10) % 64,
    ;
    let pad = (64 - t) % 64;
    let ghost before_pad = body@;
    let mut k: usize = 0;
    while k < pad
        invariant
            k <= pad,
            pad == pad_len(before_pad.len()),
            before_pad.len() + pad + 1 <= usize::MAX,
            body@ == before_pad + Seq::new(k as nat, |i: int| 32u8),
        decreases pad - k,
    {
        body.push(32u8);
        k = k + 1;
        assert(body@ =~= before_pad + Seq::new(k as nat, |i: int| 32u8));
    }
    body.push(10u8);
    assert(body@ =~= header_block(descr@, shape@));
    body
}

/// `write_to`: appends the `.npy` image of `arr` to `w`. Dtypes without a
/// v1 type string are refused and nothing is written.
#[verifier::rlimit(40)]
pub fn write_to(w: &mut Vec<u8>, arr: &RawArray) -> (r: Result<(), WriteError>)
    requires
        spec_descr(arr.dtype) is Some ==> old(w)@.len() + spec_npy_bytes(arr@).len() <= usize::MAX,
    ensures
        spec_descr(arr.dtype) is Some ==> r is Ok && final(w)@ == old(w)@ + spec_npy_bytes(arr@),
        spec_descr(arr.dtype) is None ==> r == Err::<(), WriteError>(WriteError::UnsupportedDtype(arr.dtype)) && final(w)@ == old(w)@,
{
    let descr = match descr_of(arr.dtype) {
        None => return Err(WriteError::UnsupportedDtype(arr.dtype)),
        Some(d) => d,
    };
    let block = header_block_bytes(descr.as_slice(), arr.shape.as_slice());
    let header_len = block.len();
    let ghost start = w@;
    let m = magic_bytes();
    extend_bytes(w, m.as_slice());
    w.push(1u8);
    w.push(0u8);
    let hl16: u16 = (header_len % 65536) as u16;
    let lo = (hl16 % 256) as u8;
    let hi = (hl16 / 256) as u8;
    w.push(lo);
    w.push(hi);
    let ghost prefix = w@;
    proof {
        assert(le16(block@.len()) =~= seq![lo, hi]);
        assert(prefix =~= start + (magic() + seq![1u8, 0u8] + le16(block@.len())));
    }
    extend_bytes(w, block.as_slice());
    extend_bytes(w, arr.data.as_slice());
    proof {
        let head = magic() + seq![1u8, 0u8] + le16(block@.len());
        assert(w@ =~= start + (head + block@ + arr.data@));
        assert(spec_npy_bytes(arr@) == head + block@ + arr.data@);
    }
    Ok(())
}

/// `save_to_bytes`: the `.npy` image of `arr`, or no bytes when its dtype
/// has no v1 type string.
pub fn save_to_bytes(arr: &RawArray) -> (r: Vec<u8>)
    requires
        spec_descr(arr.dtype) is Some ==> spec_npy_bytes(arr@).len() <= usize::MAX,
    ensures
        spec_descr(arr.dtype) is Some ==> r@ == spec_npy_bytes(arr@),
        spec_descr(arr.dtype) is None ==> r@.len() == 0,
{
    let mut buf: Vec<u8> = Vec::new();
    let _ = write_to(&mut buf, arr);
    assert(Seq::<u8>::empty() + spec_npy_bytes(arr@) =~= spec_npy_bytes(arr@));
    buf
}

// ---------------------------------------------------------------------
// Reading
// ---------------------------------------------------------------------

/// Little-endian value of `b[i..i + n]`.
pub open spec fn le_value(b: Seq<u8>, i: int, n: nat) -> nat
    decreases n,
{
    if n == 0 {
        0
    } else {
        b[i] as nat + 256 * le_value(b, i + 1, (n - 1) as nat)
    }
}

/// Header of an `.npy` image: its dtype, shape and the offset where the
/// element data starts, or the first error the reader meets.
#[verifier::opaque]
pub open spec fn spec_npy_header(b: Seq<u8>) -> Result<(DType, Seq<usize>, nat), LoadError> {
    if b.len() < 6 {
        Err(LoadError::Io(ReadFailure::UnexpectedEof))
    } else if b.take(6) != magic() {
        Err(LoadError::Format(FormatError::BadMagic))
    } else if b.len() < 8 {
        Err(LoadError::Io(ReadFailure::UnexpectedEof))
    } else if !(b[7] == 0 && (b[6] == 1 || b[6] == 2 || b[6] == 3)) {
        Err(LoadError::Format(FormatError::UnsupportedVersion(b[6], b[7])))
    } else {
        let len_size: nat = if b[6] == 1 { 2 } else { 4 };
        if b.len() < 8 + len_size {
            Err(LoadError::Io(ReadFailure::UnexpectedEof))
        } else {
            let hl = le_value(b, 8, len_size);
            let hs = 8 + len_size;
            if b.len() < hs + hl {
                Err(LoadError::Io(ReadFailure::UnexpectedEof))
            } else {
                let header = b.subrange(hs as int, (hs + hl) as int);
                if !vstd::utf8::valid_utf8(header) {
                    Err(LoadError::Format(FormatError::HeaderNotUtf8))
                } else {
                    match spec_parse_header(header) {
                        Err(e) => Err(LoadError::Format(e)),
                        Ok((descr, fortran, shape)) => {
                            if fortran {
                                Err(LoadError::Format(FormatError::FortranOrder))
                            } else {
                                match spec_parse_descr(descr) {
                                    None => Err(LoadError::Format(FormatError::UnknownDescr)),
                                    Some(d) => Ok((d, shape, hs + hl)),
                                }
                            }
                        },
                    }
                }
            }
        }
    }
}

/// Booleans are read as "byte is non-zero".
pub open spec fn normalize(d: DType, data: Seq<u8>) -> Seq<u8> {
    if d == DType::Bool {
        data.map_values(|x: u8| if x != 0 { 1u8 } else { 0u8 })
    } else {
        data
    }
}

/// The array held by an `.npy` image, or the first error the reader meets.
/// Bytes after the element data are ignored.
#[verifier::opaque]
pub open spec fn spec_read_npy(b: Seq<u8>) -> Result<ArrayModel, LoadError> {
    match spec_npy_header(b) {
        Err(e) => Err(e),
        Ok((d, shape, start)) => {
            let n = shape_product(shape) * d.spec_itemsize();
            if b.len() < start + n {
                Err(LoadError::Io(ReadFailure::UnexpectedEof))
            } else {
                Ok(ArrayModel { dtype: d, shape, data: normalize(d, b.subrange(start as int, (start + n) as int)) })
            }
        },
    }
}

/// Every partial product of the shape, and the byte count of the elements,
/// fit in `usize` (the reader's element count would overflow otherwise).
pub open spec fn counts_fit(d: DType, shape: Seq<usize>) -> bool {
    &&& forall|k: int| 0 <= k <= shape.len() ==> #[trigger] shape_product(shape.take(k)) <= usize::MAX
    &&& shape_product(shape) * d.spec_itemsize() <= usize::MAX
}

/// The image's header, if it parses, names a shape whose counts fit.
pub open spec fn npy_counts_fit(b: Seq<u8>) -> bool {
    spec_npy_header(b) matches Ok((d, shape, _)) ==> counts_fit(d, shape)
}

/// Whether the counts of a dtype and shape fit (`counts_fit`), computed.
pub fn counts_fit_exec(d: DType, shape: &[usize]) -> (r: bool)
    requires
        d.spec_itemsize() <= usize::MAX,
    ensures
        r == counts_fit(d, shape@),
{
    let mut acc: usize = 1;
    let mut k: usize = 0;
    assert(shape@.take(0) =~= Seq::<usize>::empty());
    while k < shape.len()
        invariant
            k <= shape@.len(),
            acc == shape_product(shape@.take(k as int)),
            forall|j: int| 0 <= j <= k ==> #[trigger] shape_product(shape@.take(j)) <= usize::MAX,
        decreases shape.len() - k,
    {
        assert(shape@.take(k + 1).drop_last() =~= shape@.take(k as int));
        match acc.checked_mul(shape[k]) {
            None => {
                assert(shape_product(shape@.take(k + 1)) > usize::MAX);
                return false;
            },
            Some(v) => {
                acc = v;
            },
        }
        k = k + 1;
    }
    assert(shape@.take(shape.len() as int) =~= shape@);
    match acc.checked_mul(d.itemsize()) {
        None => false,
        Some(_) => true,
    }
}

/// Whether an image's header, if it parses, names counts that fit
/// (`npy_counts_fit`), computed.
pub fn npy_counts_fit_exec(b: &[u8]) -> (r: bool)
    ensures
        r == npy_counts_fit(b@),
{
    reveal(spec_npy_header);
    match read_header(b) {
        Err(_) => true,
        Ok((d, shape, _)) => counts_fit_exec(d, shape.as_slice()),
    }
}

/// `std::str::from_utf8(bytes).is_ok()`: whether `bytes` is well-formed
/// UTF-8. The standard library's definition of UTF-8 validity (no overlong
/// encodings, no surrogates, scalars up to U+10FFFF) is vstd's `valid_utf8`.
#[verifier::external_body]
pub(crate) fn utf8_valid(bytes: &[u8]) -> (r: bool)
    ensures
        r == vstd::utf8::valid_utf8(bytes@),
{
    std::str::from_utf8(bytes).is_ok()
}

fn read_header(b: &[u8]) -> (r: Result<(DType, Vec<usize>, usize), LoadError>)
    ensures
        match r {
            Ok((d, shape, start)) => spec_npy_header(b@) == Ok::<(DType, Seq<usize>, nat), LoadError>((d, shape@, start as nat)),
            Err(e) => spec_npy_header(b@) == Err::<(DType, Seq<usize>, nat), LoadError>(e),
        },
{
    reveal(spec_npy_header);
    if b.len() < 6 {
        return Err(LoadError::Io(ReadFailure::UnexpectedEof));
    }
    let m = magic_bytes();
    if !bytes_eq(slice_range(b, 0, 6), m.as_slice()) {
        return Err(LoadError::Format(FormatError::BadMagic));
    }
    assert(b@.subrange(0, 6) =~= b@.take(6));
    if b.len() < 8 {
        return Err(LoadError::Io(ReadFailure::UnexpectedEof));
    }
    let major = b[6];
    let minor = b[7];
    if !(minor == 0 && (major == 1 || major == 2 || major == 3)) {
        return Err(LoadError::Format(FormatError::UnsupportedVersion(major, minor)));
    }
    let len_size: usize = if major == 1 { 2 } else { 4 };
    if b.len() < 8 + len_size {
        return Err(LoadError::Io(ReadFailure::UnexpectedEof));
    }
    let hl: usize = if major == 1 {
        proof {
            reveal_with_fuel(le_value, 3);
        }
        (b[8] as usize) + 256 * (b[9] as usize)
    } else {
        proof {
            reveal_with_fuel(le_value, 5);
        }
        (b[8] as usize) + 256 * ((b[9] as usize) + 256 * ((b[10] as usize) + 256 * (b[11] as usize)))
    };
    assert(hl == le_value(b@, 8, len_size as nat));
    let hs = 8 + len_size;
    if b.len() - hs < hl {
        return Err(LoadError::Io(ReadFailure::UnexpectedEof));
    }
    let header = slice_range(b, hs, hs + hl);
    if !utf8_valid(header) {
        return Err(LoadError::Format(FormatError::HeaderNotUtf8));
    }
    let (descr, fortran, shape) = match parse_header(header) {
        Err(e) => return Err(LoadError::Format(e)),
        Ok(t) => t,
    };
    if fortran {
        return Err(LoadError::Format(FormatError::FortranOrder));
    }
    let d = match parse_descr(descr.as_slice()) {
        Err(e) => return Err(e),
        Ok(d) => d,
    };
    Ok((d, shape, hs + hl))
}

/// Number of elements of a shape whose partial products fit.
pub(crate) fn element_count(shape: &[usize]) -> (r: usize)
    requires
        forall|k: int| 0 <= k <= shape@.len() ==> #[trigger] shape_product(shape@.take(k)) <= usize::MAX,
    ensures
        r == shape_product(shape@),
{
    let mut acc: usize = 1;
    let mut i: usize = 0;
    assert(shape@.take(0) =~= Seq::<usize>::empty());
    while i < shape.len()
        invariant
            i <= shape.len(),
            acc == shape_product(shape@.take(i as int)),
            forall|k: int| 0 <= k <= shape@.len() ==> #[trigger] shape_product(shape@.take(k)) <= usize::MAX,
        decreases shape.len() - i,
    {
        assert(shape@.take(i + 1).drop_last() =~= shape@.take(i as int));
        assert(shape_product(shape@.take(i + 1)) <= usize::MAX);
        acc = acc * shape[i];
        i = i + 1;
    }
    assert(shape@.take(shape.len() as int) =~= shape@);
    acc
}

/// A header that reads as an array whose counts fit is a header whose
/// counts fit.
pub proof fn lemma_read_npy_counts(b: Seq<u8>, a: ArrayModel)
    requires
        spec_read_npy(b) == Ok::<ArrayModel, LoadError>(a),
        counts_fit(a.dtype, a.shape),
    ensures
        npy_counts_fit(b),
{
    reveal(spec_read_npy);
}

/// `read_from` (`load_from_bytes`): the array held by an in-memory `.npy`
/// image.
pub fn read_from(b: &[u8]) -> (r: Result<RawArray, LoadError>)
    ensures
        match r {
            Ok(a) => spec_read_npy(b@) == Ok::<ArrayModel, LoadError>(a@),
            Err(e) => if npy_counts_fit(b@) {
                spec_read_npy(b@) == Err::<ArrayModel, LoadError>(e)
            } else {
                e == LoadError::Format(FormatError::TooLarge)
            },
        },
{
    reveal(spec_read_npy);
    reveal(spec_npy_header);
    let (d, shape, start) = match read_header(b) {
        Err(e) => return Err(e),
        Ok(t) => t,
    };
    if !counts_fit_exec(d, shape.as_slice()) {
        return Err(LoadError::Format(FormatError::TooLarge));
    }
    let count = element_count(shape.as_slice());
    let n = count * d.itemsize();
    if b.len() - start < n {
        return Err(LoadError::Io(ReadFailure::UnexpectedEof));
    }
    let mut data: Vec<u8> = Vec::new();
    let is_bool = d == DType::Bool;
    let mut i: usize = 0;
    while i < n
        invariant
            i <= n,
            start + n <= b.len(),
            is_bool == (d == DType::Bool),
            data@ == normalize(d, b@.subrange(start as int, start + i)),
        decreases n - i,
    {
        let x = b[start + i];
        let v = if is_bool { if x != 0 { 1u8 } else { 0u8 } } else { x };
        data.push(v);
        i = i + 1;
        assert(data@ =~= normalize(d, b@.subrange(start as int, start + i)));
    }
    Ok(RawArray { dtype: d, shape, data })
}

/// `load_from_bytes`: the array held by an in-memory `.npy` image.
pub fn load_from_bytes(buf: &[u8]) -> (r: Result<RawArray, LoadError>)
    ensures
        match r {
            Ok(a) => spec_read_npy(buf@) == Ok::<ArrayModel, LoadError>(a@),
            Err(e) => if npy_counts_fit(buf@) {
                spec_read_npy(buf@) == Err::<ArrayModel, LoadError>(e)
            } else {
                e == LoadError::Format(FormatError::TooLarge)
            },
        },
{
    read_from(buf)
}

} // verus!
