//! The attributes of `np.dtype`, `np.iinfo` and `np.finfo` objects, and
//! numpy's casting rules (`np.can_cast`, `np.min_scalar_type`).
use vstd::prelude::*;

use crate::dtype::DType;
use crate::promote::{lemma_promote_integer_widths, promote, spec_promote};
use crate::text::{ascii_chars, decimal, decimal_bytes, lemma_decimal_digits, string_from_ascii};

verus! {

/// Equality of two string slices.
pub fn str_eq(a: &str, b: &str) -> (r: bool)
    ensures
        r == (a@ == b@),
{
    let x = String::from_str(a);
    let y = String::from_str(b);
    x == y
}

/// A dtype object (`np.dtype(...)`).
pub struct PyDType {
    pub inner: DType,
}

/// numpy's single-character type code (`dtype.char`); non-numeric dtypes
/// use their kind letter.
pub open spec fn spec_char(d: DType) -> char {
    match d {
        DType::Bool => '?',
        DType::I8 => 'b',
        DType::I16 => 'h',
        DType::I32 => 'i',
        DType::I64 => 'l',
        DType::U8 => 'B',
        DType::U16 => 'H',
        DType::U32 => 'I',
        DType::U64 => 'L',
        DType::F16 => 'e',
        DType::F32 => 'f',
        DType::F64 => 'd',
        DType::C64 => 'F',
        DType::C128 => 'D',
        _ => d.spec_kind(),
    }
}

/// numpy's internal type number (`dtype.num`) of a numeric dtype.
pub open spec fn spec_num(d: DType) -> i64 {
    match d {
        DType::Bool => 0,
        DType::I8 => 1,
        DType::U8 => 2,
        DType::I16 => 3,
        DType::U16 => 4,
        DType::I32 => 5,
        DType::U32 => 6,
        DType::I64 => 7,
        DType::U64 => 8,
        DType::F16 => 23,
        DType::F32 => 11,
        DType::F64 => 12,
        DType::C64 => 14,
        DType::C128 => 15,
        _ => 0,
    }
}

/// The type-code part of `dtype.str` for the dtypes that have a fixed one.
pub open spec fn spec_str_body(d: DType) -> Seq<char> {
    match d {
        DType::Bool => "?"@,
        DType::I8 => "i1"@,
        DType::I16 => "i2"@,
        DType::I32 => "i4"@,
        DType::I64 => "i8"@,
        DType::U8 => "u1"@,
        DType::U16 => "u2"@,
        DType::U32 => "u4"@,
        DType::U64 => "u8"@,
        DType::F16 => "f2"@,
        DType::F32 => "f4"@,
        DType::F64 => "f8"@,
        DType::C64 => "c8"@,
        DType::C128 => "c16"@,
        DType::Datetime64(u) => "M8["@ + ascii_chars(u.spec_code()) + "]"@,
        DType::Timedelta64(u) => "m8["@ + ascii_chars(u.spec_code()) + "]"@,
        _ => seq![d.spec_kind()] + ascii_chars(decimal(d.spec_itemsize())),
    }
}

/// One byte wide (or bool): no byte order applies.
pub open spec fn spec_no_byteorder(d: DType) -> bool {
    d == DType::Bool || d.spec_itemsize() == 1
}

/// The first byte of the native encoding of the 16-bit integer 1; it is 1
/// exactly on little-endian targets. Nothing is stated: the value is a
/// property of the machine.
#[verifier::external_body]
pub(crate) fn native_low_byte_of_one() -> u8 {
    1u16.to_ne_bytes()[0]
}

/// `std`'s default hasher applied to a dtype. Nothing is stated: the value
/// depends on the standard library's hashing algorithm.
#[verifier::external_body]
fn default_hash(d: &DType) -> u64 {
    std::hash::BuildHasher::hash_one(&std::hash::BuildHasherDefault::<std::collections::hash_map::DefaultHasher>::default(), d)
}

fn char_string(c: char) -> (s: String)
    requires
        (c as u32) < 128,
    ensures
        s@ == seq![c],
{
    let v: Vec<u8> = vec![c as u8];
    proof {
        assert(ascii_chars(v@) =~= seq![c]);
    }
    string_from_ascii(v)
}

impl PyDType {
    pub fn from_dtype(d: DType) -> (r: Self)
        ensures
            r.inner == d,
    {
        PyDType { inner: d }
    }

    /// `dtype.kind` as a one-character string.
    pub fn kind(&self) -> (s: String)
        ensures
            s@ == seq![self.inner.spec_kind()],
    {
        char_string(self.inner.kind())
    }

    pub fn itemsize(&self) -> (r: usize)
        requires
            self.inner.spec_itemsize() <= usize::MAX,
        ensures
            r == self.inner.spec_itemsize(),
    {
        self.inner.itemsize()
    }

    pub fn name(&self) -> (s: String)
        ensures
            s@ == self.inner.spec_name(),
    {
        self.inner.name()
    }

    /// `dtype.char`.
    pub fn char(&self) -> (s: String)
        ensures
            s@ == seq![spec_char(self.inner)],
    {
        let c = match self.inner {
            DType::Bool => '?',
            DType::I8 => 'b',
            DType::I16 => 'h',
            DType::I32 => 'i',
            DType::I64 => 'l',
            DType::U8 => 'B',
            DType::U16 => 'H',
            DType::U32 => 'I',
            DType::U64 => 'L',
            DType::F16 => 'e',
            DType::F32 => 'f',
            DType::F64 => 'd',
            DType::C64 => 'F',
            DType::C128 => 'D',
            _ => self.inner.kind(),
        };
        char_string(c)
    }

    /// `dtype.num`: numpy's type number for numeric dtypes; for the others a
    /// hash of the dtype, of which nothing is stated.
    pub fn num(&self) -> (r: i64)
        ensures
            self.inner.spec_is_numeric() ==> r == spec_num(self.inner),
    {
        match self.inner {
            DType::Bool => 0,
            DType::I8 => 1,
            DType::U8 => 2,
            DType::I16 => 3,
            DType::U16 => 4,
            DType::I32 => 5,
            DType::U32 => 6,
            DType::I64 => 7,
            DType::U64 => 8,
            DType::F16 => 23,
            DType::F32 => 11,
            DType::F64 => 12,
            DType::C64 => 14,
            DType::C128 => 15,
            _ => default_hash(&self.inner) as i64,
        }
    }

    /// `dtype.byteorder`: `"|"` for one-byte dtypes, native `"="` otherwise.
    pub fn byteorder(&self) -> (s: String)
        ensures
            s@ == (if spec_no_byteorder(self.inner) { "|"@ } else { "="@ }),
    {
        if self.inner == DType::Bool || self.one_byte() {
            String::from_str("|")
        } else {
            String::from_str("=")
        }
    }

    fn one_byte(&self) -> (r: bool)
        ensures
            r == (self.inner.spec_itemsize() == 1),
    {
        match self.inner {
            DType::Bool | DType::I8 | DType::U8 => true,
            DType::Str(_) => false,
            DType::Bytes(n) => n == 1,
            DType::Void(n) => n == 1,
            _ => false,
        }
    }

    /// `dtype.str`: byte-order prefix followed by the type code and width.
    /// The prefix of a multi-byte dtype is `"<"` on little-endian machines and
    /// `">"` on big-endian ones.
    pub fn str(&self) -> (s: String)
        ensures
            spec_no_byteorder(self.inner) ==> s@ == "|"@ + spec_str_body(self.inner),
            !spec_no_byteorder(self.inner) ==> (s@ == "<"@ + spec_str_body(self.inner) || s@ == ">"@ + spec_str_body(self.inner)),
    {
        let mut s = if self.inner == DType::Bool || self.one_byte() {
            String::from_str("|")
        } else if native_low_byte_of_one() == 1 {
            String::from_str("<")
        } else {
            String::from_str(">")
        };
        let body = self.str_body();
        s.append(body.as_str());
        s
    }

    fn str_body(&self) -> (s: String)
        ensures
            s@ == spec_str_body(self.inner),
    {
        match self.inner {
            DType::Bool => String::from_str("?"),
            DType::I8 => String::from_str("i1"),
            DType::I16 => String::from_str("i2"),
            DType::I32 => String::from_str("i4"),
            DType::I64 => String::from_str("i8"),
            DType::U8 => String::from_str("u1"),
            DType::U16 => String::from_str("u2"),
            DType::U32 => String::from_str("u4"),
            DType::U64 => String::from_str("u8"),
            DType::F16 => String::from_str("f2"),
            DType::F32 => String::from_str("f4"),
            DType::F64 => String::from_str("f8"),
            DType::C64 => String::from_str("c8"),
            DType::C128 => String::from_str("c16"),
            DType::Datetime64(u) => {
                let mut s = String::from_str("M8[");
                let code = string_from_ascii(u.code_bytes());
                s.append(code.as_str());
                s.append("]");
                s
            },
            DType::Timedelta64(u) => {
                let mut s = String::from_str("m8[");
                let code = string_from_ascii(u.code_bytes());
                s.append(code.as_str());
                s.append("]");
                s
            },
            _ => {
                let mut s = char_string(self.inner.kind());
                let width: u64 = match self.inner {
                    DType::Str(n) => 4 * (n as u64),
                    DType::Bytes(n) => n as u64,
                    DType::Void(n) => n as u64,
                    _ => 8,
                };
                let digits = decimal_bytes(width);
                proof {
                    lemma_decimal_digits(width as nat);
                }
                let tail = string_from_ascii(digits);
                s.append(tail.as_str());
                s
            },
        }
    }

    /// `dtype.alignment` (the element size).
    pub fn alignment(&self) -> (r: usize)
        requires
            self.inner.spec_itemsize() <= usize::MAX,
        ensures
            r == self.inner.spec_itemsize(),
    {
        self.inner.itemsize()
    }

    /// `dtype.isnative`: data is always held in native byte order.
    pub fn isnative(&self) -> (r: bool)
        ensures
            r,
    {
        true
    }

    /// `dtype.hasobject`.
    pub fn hasobject(&self) -> (r: bool)
        ensures
            !r,
    {
        false
    }

    /// `dtype.ndim`: dtypes here have no sub-array shape.
    pub fn ndim(&self) -> (r: usize)
        ensures
            r == 0,
    {
        0
    }

    /// `str(dtype)`: the dtype's name.
    pub fn str_magic(&self) -> (s: String)
        ensures
            s@ == self.inner.spec_name(),
    {
        self.inner.name()
    }
}

/// Why an `iinfo` / `finfo` object could not be built.
#[derive(Clone, Copy, Debug, PartialEq, Eq, Structural)]
pub enum InfoError {
    /// `iinfo` of a dtype that is not a (non-bool) integer.
    NotInteger(DType),
    /// `finfo` of a dtype that is not a float or complex dtype.
    NotInexact(DType),
}

/// Machine limits of an integer dtype (`np.iinfo`).
pub struct PyIinfo {
    pub dtype: DType,
}

/// Smallest value of an integer dtype (0 for unsigned and bool).
pub open spec fn spec_iinfo_min(d: DType) -> int {
    match d {
        DType::I8 => -128,
        DType::I16 => -32768,
        DType::I32 => -2147483648,
        DType::I64 => i64::MIN as int,
        _ => 0,
    }
}

/// Largest value of an integer dtype; `uint64`'s is clamped to `i64::MAX as int`.
pub open spec fn spec_iinfo_max(d: DType) -> int {
    match d {
        DType::I8 => 127,
        DType::I16 => 32767,
        DType::I32 => 2147483647,
        DType::I64 => i64::MAX as int,
        DType::U8 => 255,
        DType::U16 => 65535,
        DType::U32 => 4294967295,
        DType::U64 => i64::MAX as int,
        DType::Bool => 1,
        _ => 0,
    }
}

pub fn iinfo_min(d: DType) -> (r: i64)
    ensures
        r == spec_iinfo_min(d),
{
    match d {
        DType::I8 => -128,
        DType::I16 => -32768,
        DType::I32 => -2147483648,
        DType::I64 => i64::MIN,
        _ => 0,
    }
}

pub fn iinfo_max(d: DType) -> (r: i64)
    ensures
        r == spec_iinfo_max(d),
{
    match d {
        DType::I8 => 127,
        DType::I16 => 32767,
        DType::I32 => 2147483647,
        DType::I64 => i64::MAX,
        DType::U8 => 255,
        DType::U16 => 65535,
        DType::U32 => 4294967295,
        DType::U64 => i64::MAX,
        DType::Bool => 1,
        _ => 0,
    }
}

impl PyIinfo {
    /// `np.iinfo(dtype)`: only the signed and unsigned integer dtypes.
    pub fn new(dtype: DType) -> (r: Result<PyIinfo, InfoError>)
        ensures
            (dtype.spec_is_integer() && dtype != DType::Bool) ==> r == Ok::<PyIinfo, InfoError>(PyIinfo { dtype }),
            !(dtype.spec_is_integer() && dtype != DType::Bool) ==> r == Err::<PyIinfo, InfoError>(InfoError::NotInteger(dtype)),
    {
        if !dtype.is_integer() || dtype == DType::Bool {
            Err(InfoError::NotInteger(dtype))
        } else {
            Ok(PyIinfo { dtype })
        }
    }

    pub fn min(&self) -> (r: i64)
        ensures
            r == spec_iinfo_min(self.dtype),
    {
        iinfo_min(self.dtype)
    }

    pub fn max(&self) -> (r: i64)
        ensures
            r == spec_iinfo_max(self.dtype),
    {
        iinfo_max(self.dtype)
    }

    /// Width in bits.
    pub fn bits(&self) -> (r: u32)
        requires
            8 * self.dtype.spec_itemsize() <= u32::MAX,
        ensures
            r == 8 * self.dtype.spec_itemsize(),
    {
        (self.dtype.itemsize() as u32) * 8
    }
}

/// Machine limits of a floating dtype (`np.finfo`); the float-valued limits
/// (`eps`, `min`, `max`, `tiny`) are not part of this library.
pub struct PyFinfo {
    pub dtype: DType,
}

impl PyFinfo {
    /// `np.finfo(dtype)`: only float and complex dtypes.
    pub fn new(dtype: DType) -> (r: Result<PyFinfo, InfoError>)
        ensures
            (dtype.spec_is_float() || dtype.spec_is_complex()) ==> r == Ok::<PyFinfo, InfoError>(PyFinfo { dtype }),
            !(dtype.spec_is_float() || dtype.spec_is_complex()) ==> r == Err::<PyFinfo, InfoError>(InfoError::NotInexact(dtype)),
    {
        if !(dtype.is_float() || dtype.is_complex()) {
            Err(InfoError::NotInexact(dtype))
        } else {
            Ok(PyFinfo { dtype })
        }
    }

    /// Width in bits.
    pub fn bits(&self) -> (r: u32)
        requires
            8 * self.dtype.spec_itemsize() <= u32::MAX,
        ensures
            r == 8 * self.dtype.spec_itemsize(),
    {
        (self.dtype.itemsize() as u32) * 8
    }

    /// Number of reliable decimal digits.
    pub fn precision(&self) -> (r: i64)
        ensures
            r == (if self.dtype == DType::F16 { 3i64 } else if self.dtype == DType::F32 || self.dtype == DType::C64 { 6i64 } else { 15i64 }),
    {
        match self.dtype {
            DType::F16 => 3,
            DType::F32 | DType::C64 => 6,
            _ => 15,
        }
    }
}

/// `from` can be cast to `to` without loss: `to` absorbs `from` under
/// promotion.
pub open spec fn spec_safe_cast(from: DType, to: DType) -> bool {
    from == to || spec_promote(from, to) == to
}

/// Safe casts between integer dtypes, stated through their signs and item
/// sizes: to an integer of the same sign at least as wide; from unsigned to
/// a strictly wider signed one; never from signed to unsigned.
pub proof fn lemma_safe_cast_integers(from: DType, to: DType)
    requires
        from.spec_is_signed_int() || from.spec_is_unsigned_int(),
        to.spec_is_signed_int() || to.spec_is_unsigned_int(),
    ensures
        from.spec_is_signed_int() == to.spec_is_signed_int() ==> (spec_safe_cast(from, to) <==> from.spec_itemsize()
            <= to.spec_itemsize()),
        from.spec_is_unsigned_int() && to.spec_is_signed_int() ==> (spec_safe_cast(from, to) <==> from.spec_itemsize()
            < to.spec_itemsize()),
        from.spec_is_signed_int() && to.spec_is_unsigned_int() ==> !spec_safe_cast(from, to),
{
    lemma_promote_integer_widths(from, to);
    match from {
        DType::I8 => {},
        DType::I16 => {},
        DType::I32 => {},
        DType::I64 => {},
        DType::U8 => {},
        DType::U16 => {},
        DType::U32 => {},
        _ => {},
    }
}

pub fn safe_cast(from: DType, to: DType) -> (r: bool)
    ensures
        r == spec_safe_cast(from, to),
{
    if from == to {
        return true;
    }
    promote(from, to) == to
}

/// The kind letter of a numeric dtype.
pub open spec fn is_numeric_kind(k: char) -> bool {
    k == 'b' || k == 'i' || k == 'u' || k == 'f' || k == 'c'
}

/// numpy's casting rules, selected by `casting`: `"no"`, `"equiv"`,
/// `"unsafe"`, `"same_kind"`, anything else is `"safe"`.
pub open spec fn spec_can_cast(from: DType, to: DType, casting: Seq<char>) -> bool {
    if from == to {
        true
    } else if casting == "no"@ || casting == "equiv"@ {
        false
    } else if casting == "unsafe"@ {
        true
    } else if casting == "same_kind"@ {
        from.spec_kind() == to.spec_kind()
            || (is_numeric_kind(from.spec_kind()) && is_numeric_kind(to.spec_kind()))
            || spec_safe_cast(from, to)
    } else {
        spec_safe_cast(from, to)
    }
}

/// `np.can_cast(from, to, casting)`.
pub fn can_cast_dtype(from: DType, to: DType, casting: &str) -> (r: bool)
    ensures
        r == spec_can_cast(from, to, casting@),
{
    if from == to {
        return true;
    }
    if str_eq(casting, "no") || str_eq(casting, "equiv") {
        false
    } else if str_eq(casting, "unsafe") {
        true
    } else if str_eq(casting, "same_kind") {
        let fk = from.kind();
        let tk = to.kind();
        if fk == tk {
            return true;
        }
        let numeric_from = fk == 'b' || fk == 'i' || fk == 'u' || fk == 'f' || fk == 'c';
        let numeric_to = tk == 'b' || tk == 'i' || tk == 'u' || tk == 'f' || tk == 'c';
        (numeric_from && numeric_to) || safe_cast(from, to)
    } else {
        safe_cast(from, to)
    }
}

/// `np.min_scalar_type` of a Python integer: the smallest unsigned dtype
/// holding a non-negative value, the smallest signed dtype otherwise.
pub open spec fn spec_min_scalar_type_int(v: int) -> DType {
    if v >= 0 {
        if v <= 255 { DType::U8 } else if v <= 65535 { DType::U16 } else if v <= 4294967295 { DType::U32 } else { DType::U64 }
    } else if v >= -128 {
        DType::I8
    } else if v >= -32768 {
        DType::I16
    } else if v >= -2147483648 {
        DType::I32
    } else {
        DType::I64
    }
}

pub fn min_scalar_type_int(v: i128) -> (r: DType)
    ensures
        r == spec_min_scalar_type_int(v as int),
{
    if v >= 0 {
        if v <= 255 { DType::U8 } else if v <= 65535 { DType::U16 } else if v <= 4294967295 { DType::U32 } else { DType::U64 }
    } else if v >= -128 {
        DType::I8
    } else if v >= -32768 {
        DType::I16
    } else if v >= -2147483648 {
        DType::I32
    } else {
        DType::I64
    }
}

/// `np.promote_types(a, b)`: the name of the promoted dtype.
pub fn promote_types(a: DType, b: DType) -> (s: String)
    ensures
        s@ == spec_promote(a, b).spec_name(),
{
    promote(a, b).name()
}

/// Every operand can be safely cast to the promoted dtype.
pub proof fn lemma_operands_safe_cast_to_promoted(a: DType, b: DType)
    ensures
        spec_safe_cast(a, spec_promote(a, b)),
        spec_safe_cast(b, spec_promote(a, b)),
{
    crate::promote::lemma_promote_absorbs(a, b);
}

} // verus!
