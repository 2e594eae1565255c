//! The numpy dtype set: booleans, fixed-width integers, floats, complex
//! numbers, and the non-numeric object / string / bytes / time / void kinds.
use vstd::prelude::*;

use crate::text::{ascii_chars, decimal, decimal_bytes, lemma_decimal_digits, string_from_ascii};

verus! {

/// Time unit of `datetime64` / `timedelta64` dtypes.
#[derive(Clone, Copy, Debug, PartialEq, Eq, Hash, Structural)]
pub enum DateUnit {
    Year,
    Month,
    Week,
    Day,
    Hour,
    Minute,
    Second,
    Millisecond,
    Microsecond,
    Nanosecond,
    Picosecond,
    Femtosecond,
    Attosecond,
    Generic,
}

impl DateUnit {
    /// numpy's unit code, as written between the brackets of `M8[..]`.
    pub open spec fn spec_code(self) -> Seq<u8> {
        match self {
            DateUnit::Year => seq![89u8],
            DateUnit::Month => seq![77u8],
            DateUnit::Week => seq![87u8],
            DateUnit::Day => seq![68u8],
            DateUnit::Hour => seq![104u8],
            DateUnit::Minute => seq![109u8],
            DateUnit::Second => seq![115u8],
            DateUnit::Millisecond => seq![109u8, 115u8],
            DateUnit::Microsecond => seq![117u8, 115u8],
            DateUnit::Nanosecond => seq![110u8, 115u8],
            DateUnit::Picosecond => seq![112u8, 115u8],
            DateUnit::Femtosecond => seq![102u8, 115u8],
            DateUnit::Attosecond => seq![97u8, 115u8],
            DateUnit::Generic => seq![103u8, 101u8, 110u8, 101u8, 114u8, 105u8, 99u8],
        }
    }

    /// The unit code as ASCII bytes (`"ns"`, `"D"`, `"generic"`, ...).
    pub fn code_bytes(self) -> (r: Vec<u8>)
        ensures
            r@ == self.spec_code(),
    {
        match self {
            DateUnit::Year => vec![89u8],
            DateUnit::Month => vec![77u8],
            DateUnit::Week => vec![87u8],
            DateUnit::Day => vec![68u8],
            DateUnit::Hour => vec![104u8],
            DateUnit::Minute => vec![109u8],
            DateUnit::Second => vec![115u8],
            DateUnit::Millisecond => vec![109u8, 115u8],
            DateUnit::Microsecond => vec![117u8, 115u8],
            DateUnit::Nanosecond => vec![110u8, 115u8],
            DateUnit::Picosecond => vec![112u8, 115u8],
            DateUnit::Femtosecond => vec![102u8, 115u8],
            DateUnit::Attosecond => vec![97u8, 115u8],
            DateUnit::Generic => vec![103u8, 101u8, 110u8, 101u8, 114u8, 105u8, 99u8],
        }
    }
}

/// An array element type.
#[derive(Clone, Copy, Debug, PartialEq, Eq, Hash, Structural)]
pub enum DType {
    Bool,
    I8,
    I16,
    I32,
    I64,
    U8,
    U16,
    U32,
    U64,
    F16,
    F32,
    F64,
    C64,
    C128,
    Object,
    /// Fixed-width unicode string of the given number of characters.
    Str(u32),
    /// Fixed-width byte string of the given number of bytes.
    Bytes(u32),
    Datetime64(DateUnit),
    Timedelta64(DateUnit),
    /// Opaque record of the given number of bytes.
    Void(u32),
}

impl DType {
    pub open spec fn spec_is_signed_int(self) -> bool {
        self is I8 || self is I16 || self is I32 || self is I64
    }

    pub open spec fn spec_is_unsigned_int(self) -> bool {
        self is U8 || self is U16 || self is U32 || self is U64
    }

    /// Booleans count as integers (numpy's `issubdtype(bool, integer)` is
    /// false, but every integer rule here — division to float, `iinfo` — is
    /// shared by booleans).
    pub open spec fn spec_is_integer(self) -> bool {
        self is Bool || self.spec_is_signed_int() || self.spec_is_unsigned_int()
    }

    pub open spec fn spec_is_float(self) -> bool {
        self is F16 || self is F32 || self is F64
    }

    pub open spec fn spec_is_complex(self) -> bool {
        self is C64 || self is C128
    }

    /// The fourteen fixed-width numeric dtypes.
    pub open spec fn spec_is_numeric(self) -> bool {
        self.spec_is_integer() || self.spec_is_float() || self.spec_is_complex()
    }

    pub fn is_integer(&self) -> (r: bool)
        ensures
            r == self.spec_is_integer(),
    {
        matches!(self, DType::Bool | DType::I8 | DType::I16 | DType::I32 | DType::I64 | DType::U8 | DType::U16 | DType::U32 | DType::U64)
    }

    pub fn is_float(&self) -> (r: bool)
        ensures
            r == self.spec_is_float(),
    {
        matches!(self, DType::F16 | DType::F32 | DType::F64)
    }

    pub fn is_complex(&self) -> (r: bool)
        ensures
            r == self.spec_is_complex(),
    {
        matches!(self, DType::C64 | DType::C128)
    }

    pub fn is_numeric(&self) -> (r: bool)
        ensures
            r == self.spec_is_numeric(),
    {
        self.is_integer() || self.is_float() || self.is_complex()
    }

    /// Size in bytes of one element.
    pub open spec fn spec_itemsize(self) -> nat {
        match self {
            DType::Bool | DType::I8 | DType::U8 => 1,
            DType::I16 | DType::U16 | DType::F16 => 2,
            DType::I32 | DType::U32 | DType::F32 => 4,
            DType::I64 | DType::U64 | DType::F64 | DType::C64 => 8,
            DType::C128 => 16,
            DType::Object => 8,
            DType::Str(n) => (4 * n) as nat,
            DType::Bytes(n) => n as nat,
            DType::Datetime64(_) | DType::Timedelta64(_) => 8,
            DType::Void(n) => n as nat,
        }
    }

    pub fn itemsize(&self) -> (r: usize)
        requires
            self.spec_itemsize() <= usize::MAX,
        ensures
            r == self.spec_itemsize(),
    {
        match self {
            DType::Bool | DType::I8 | DType::U8 => 1,
            DType::I16 | DType::U16 | DType::F16 => 2,
            DType::I32 | DType::U32 | DType::F32 => 4,
            DType::I64 | DType::U64 | DType::F64 | DType::C64 => 8,
            DType::C128 => 16,
            DType::Object => 8,
            DType::Str(n) => 4 * (*n as usize),
            DType::Bytes(n) => *n as usize,
            DType::Datetime64(_) | DType::Timedelta64(_) => 8,
            DType::Void(n) => *n as usize,
        }
    }

    /// numpy's one-letter kind code.
    pub open spec fn spec_kind(self) -> char {
        match self {
            DType::Bool => 'b',
            DType::I8 | DType::I16 | DType::I32 | DType::I64 => 'i',
            DType::U8 | DType::U16 | DType::U32 | DType::U64 => 'u',
            DType::F16 | DType::F32 | DType::F64 => 'f',
            DType::C64 | DType::C128 => 'c',
            DType::Object => 'O',
            DType::Str(_) => 'U',
            DType::Bytes(_) => 'S',
            DType::Datetime64(_) => 'M',
            DType::Timedelta64(_) => 'm',
            DType::Void(_) => 'V',
        }
    }

    pub fn kind(&self) -> (r: char)
        ensures
            r == self.spec_kind(),
    {
        match self {
            DType::Bool => 'b',
            DType::I8 | DType::I16 | DType::I32 | DType::I64 => 'i',
            DType::U8 | DType::U16 | DType::U32 | DType::U64 => 'u',
            DType::F16 | DType::F32 | DType::F64 => 'f',
            DType::C64 | DType::C128 => 'c',
            DType::Object => 'O',
            DType::Str(_) => 'U',
            DType::Bytes(_) => 'S',
            DType::Datetime64(_) => 'M',
            DType::Timedelta64(_) => 'm',
            DType::Void(_) => 'V',
        }
    }

    /// numpy's `dtype.name`: `"int8"`, `"float64"`, `"str320"` (width in
    /// bits), `"bytes40"`, `"datetime64[ns]"`, `"void64"`.
    pub open spec fn spec_name(self) -> Seq<char> {
        match self {
            DType::Bool => "bool"@,
            DType::I8 => "int8"@,
            DType::I16 => "int16"@,
            DType::I32 => "int32"@,
            DType::I64 => "int64"@,
            DType::U8 => "uint8"@,
            DType::U16 => "uint16"@,
            DType::U32 => "uint32"@,
            DType::U64 => "uint64"@,
            DType::F16 => "float16"@,
            DType::F32 => "float32"@,
            DType::F64 => "float64"@,
            DType::C64 => "complex64"@,
            DType::C128 => "complex128"@,
            DType::Object => "object"@,
            DType::Str(n) => "str"@ + ascii_chars(decimal((32 * n) as nat)),
            DType::Bytes(n) => "bytes"@ + ascii_chars(decimal((8 * n) as nat)),
            DType::Datetime64(u) => "datetime64["@ + ascii_chars(u.spec_code()) + "]"@,
            DType::Timedelta64(u) => "timedelta64["@ + ascii_chars(u.spec_code()) + "]"@,
            DType::Void(n) => "void"@ + ascii_chars(decimal((8 * n) as nat)),
        }
    }

    pub fn name(&self) -> (s: String)
        ensures
            s@ == self.spec_name(),
    {
        match self {
            DType::Bool => String::from_str("bool"),
            DType::I8 => String::from_str("int8"),
            DType::I16 => String::from_str("int16"),
            DType::I32 => String::from_str("int32"),
            DType::I64 => String::from_str("int64"),
            DType::U8 => String::from_str("uint8"),
            DType::U16 => String::from_str("uint16"),
            DType::U32 => String::from_str("uint32"),
            DType::U64 => String::from_str("uint64"),
            DType::F16 => String::from_str("float16"),
            DType::F32 => String::from_str("float32"),
            DType::F64 => String::from_str("float64"),
            DType::C64 => String::from_str("complex64"),
            DType::C128 => String::from_str("complex128"),
            DType::Object => String::from_str("object"),
            DType::Str(n) => with_number("str", 32 * (*n as u64)),
            DType::Bytes(n) => with_number("bytes", 8 * (*n as u64)),
            DType::Datetime64(u) => with_unit("datetime64[", *u),
            DType::Timedelta64(u) => with_unit("timedelta64[", *u),
            DType::Void(n) => with_number("void", 8 * (*n as u64)),
        }
    }
}

/// `prefix` followed by the decimal rendering of `n`.
fn with_number(prefix: &str, n: u64) -> (s: String)
    ensures
        s@ == prefix@ + ascii_chars(decimal(n as nat)),
{
    let digits = decimal_bytes(n);
    proof {
        lemma_decimal_digits(n as nat);
    }
    let tail = string_from_ascii(digits);
    let mut s = String::from_str(prefix);
    s.append(tail.as_str());
    s
}

/// `prefix`, the unit code, and a closing bracket.
fn with_unit(prefix: &str, u: DateUnit) -> (s: String)
    ensures
        s@ == prefix@ + ascii_chars(u.spec_code()) + "]"@,
{
    let code = u.code_bytes();
    let tail = string_from_ascii(code);
    let mut s = String::from_str(prefix);
    s.append(tail.as_str());
    s.append("]");
    s
}

} // verus!
