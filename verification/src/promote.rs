//! numpy type promotion (`numpy.result_type`).
//!
//!   * Same dtype gives that dtype.
//!   * Strings (and bytes) widen to the wider operand; any other mix with a
//!     string, bytes or object operand gives `object`.
//!   * Any complex operand gives the complex dtype whose components cover
//!     the other operand: complex64 unless a component of 64 bits is needed
//!     (complex128, float64, or an integer of 32 or 64 bits).
//!   * Int and float give a float (small ints are absorbed by any float,
//!     32/64-bit ints force float64).
//!   * Mixed signed/unsigned ints give the smallest signed int one bit wider
//!     than the unsigned operand; `uint64` with any signed int gives float64.
//!   * Bool acts as an unsigned 1-bit integer.
use vstd::prelude::*;

use crate::dtype::DType;

verus! {

/// (signed, bits) of an integer dtype; bool is an unsigned 1-bit integer.
/// Other dtypes map to (false, 0).
pub open spec fn spec_int_class(d: DType) -> (bool, nat) {
    match d {
        DType::Bool => (false, 1),
        DType::I8 => (true, 8),
        DType::I16 => (true, 16),
        DType::I32 => (true, 32),
        DType::I64 => (true, 64),
        DType::U8 => (false, 8),
        DType::U16 => (false, 16),
        DType::U32 => (false, 32),
        DType::U64 => (false, 64),
        _ => (false, 0),
    }
}

/// Smallest integer dtype of the given signedness with at least `bits` bits
/// (at least 8, at most 64).
pub open spec fn spec_int_dtype(signed: bool, bits: nat) -> DType {
    if signed {
        if bits <= 8 { DType::I8 } else if bits <= 16 { DType::I16 } else if bits <= 32 { DType::I32 } else { DType::I64 }
    } else {
        if bits <= 8 { DType::U8 } else if bits <= 16 { DType::U16 } else if bits <= 32 { DType::U32 } else { DType::U64 }
    }
}

/// Byte width of the components of a complex dtype, 0 otherwise.
pub open spec fn spec_complex_real_width(d: DType) -> nat {
    match d {
        DType::C64 => 4,
        DType::C128 => 8,
        _ => 0,
    }
}

/// Float width needed to absorb `d` when it meets a float: booleans and
/// 8-bit ints fit half precision, 16-bit ints need float32 (float16 cannot
/// hold every 16-bit integer), 32/64-bit ints need float64.
pub open spec fn spec_effective_float_width(d: DType) -> nat {
    match d {
        DType::Bool | DType::U8 | DType::I8 => 2,
        DType::U16 | DType::I16 => 4,
        DType::F16 => 2,
        DType::F32 => 4,
        _ => 8,
    }
}

/// Component width a complex result needs to absorb `d`: a complex
/// operand its own component width, any other operand the float width it
/// needs.
pub open spec fn spec_complex_need(d: DType) -> nat {
    if d.spec_is_complex() {
        spec_complex_real_width(d)
    } else {
        spec_effective_float_width(d)
    }
}

pub open spec fn max_nat(a: nat, b: nat) -> nat {
    if a >= b { a } else { b }
}

pub open spec fn is_text_or_object(d: DType) -> bool {
    d is Str || d is Bytes || d is Object
}

/// `numpy.result_type(a, b)`.
pub open spec fn spec_promote(a: DType, b: DType) -> DType {
    if a == b {
        a
    } else if a is Str && b is Str {
        DType::Str(if a->Str_0 >= b->Str_0 { a->Str_0 } else { b->Str_0 })
    } else if a is Bytes && b is Bytes {
        DType::Bytes(if a->Bytes_0 >= b->Bytes_0 { a->Bytes_0 } else { b->Bytes_0 })
    } else if is_text_or_object(a) || is_text_or_object(b) {
        DType::Object
    } else if a.spec_is_complex() || b.spec_is_complex() {
        let fw = max_nat(spec_complex_need(a), spec_complex_need(b));
        if fw == 2 || fw == 4 { DType::C64 } else { DType::C128 }
    } else if a.spec_is_float() || b.spec_is_float() {
        let w = max_nat(spec_effective_float_width(a), spec_effective_float_width(b));
        if w == 2 { DType::F16 } else if w == 4 { DType::F32 } else { DType::F64 }
    } else {
        let (a_sign, a_bits) = spec_int_class(a);
        let (b_sign, b_bits) = spec_int_class(b);
        if a_sign == b_sign {
            spec_int_dtype(a_sign, max_nat(a_bits, b_bits))
        } else {
            let (signed_bits, unsigned_bits) = if a_sign { (a_bits, b_bits) } else { (b_bits, a_bits) };
            if unsigned_bits >= 64 {
                DType::F64
            } else {
                spec_int_dtype(true, max_nat(signed_bits, unsigned_bits + 1))
            }
        }
    }
}

/// `numpy.result_type` folded left over a list; float64 for an empty list.
pub open spec fn spec_promote_many(types: Seq<DType>) -> DType
    decreases types.len(),
{
    if types.len() == 0 {
        DType::F64
    } else if types.len() == 1 {
        types[0]
    } else {
        spec_promote(spec_promote_many(types.drop_last()), types.last())
    }
}

fn int_class(d: DType) -> (r: (bool, u32))
    ensures
        r.0 == spec_int_class(d).0,
        r.1 as nat == spec_int_class(d).1,
{
    match d {
        DType::Bool => (false, 1),
        DType::I8 => (true, 8),
        DType::I16 => (true, 16),
        DType::I32 => (true, 32),
        DType::I64 => (true, 64),
        DType::U8 => (false, 8),
        DType::U16 => (false, 16),
        DType::U32 => (false, 32),
        DType::U64 => (false, 64),
        _ => (false, 0),
    }
}

fn int_dtype(signed: bool, bits: u32) -> (r: DType)
    ensures
        r == spec_int_dtype(signed, bits as nat),
{
    let bits = if bits < 8 { 8 } else { bits };
    if signed {
        if bits <= 8 { DType::I8 } else if bits <= 16 { DType::I16 } else if bits <= 32 { DType::I32 } else { DType::I64 }
    } else {
        if bits <= 8 { DType::U8 } else if bits <= 16 { DType::U16 } else if bits <= 32 { DType::U32 } else { DType::U64 }
    }
}

fn complex_real_width(d: DType) -> (r: u32)
    ensures
        r as nat == spec_complex_real_width(d),
{
    match d {
        DType::C64 => 4,
        DType::C128 => 8,
        _ => 0,
    }
}

fn effective_float_width(d: DType) -> (r: u32)
    ensures
        r as nat == spec_effective_float_width(d),
{
    match d {
        DType::Bool | DType::U8 | DType::I8 => 2,
        DType::U16 | DType::I16 => 4,
        DType::U32 | DType::I32 | DType::U64 | DType::I64 => 8,
        DType::F16 => 2,
        DType::F32 => 4,
        DType::F64 => 8,
        _ => 8,
    }
}

fn max_u32(a: u32, b: u32) -> (r: u32)
    ensures
        r as nat == max_nat(a as nat, b as nat),
{
    if a >= b { a } else { b }
}

/// `numpy.result_type(a, b)`.
pub fn promote(a: DType, b: DType) -> (r: DType)
    ensures
        r == spec_promote(a, b),
{
    if a == b {
        return a;
    }
    match (a, b) {
        (DType::Str(x), DType::Str(y)) => return DType::Str(if x >= y { x } else { y }),
        (DType::Bytes(x), DType::Bytes(y)) => return DType::Bytes(if x >= y { x } else { y }),
        _ => {},
    }
    if matches!(a, DType::Str(_) | DType::Bytes(_) | DType::Object) || matches!(b, DType::Str(_) | DType::Bytes(_) | DType::Object) {
        return DType::Object;
    }
    if a.is_complex() || b.is_complex() {
        let need_a = if a.is_complex() { complex_real_width(a) } else { effective_float_width(a) };
        let need_b = if b.is_complex() { complex_real_width(b) } else { effective_float_width(b) };
        let fw = max_u32(need_a, need_b);
        return if fw == 2 || fw == 4 { DType::C64 } else { DType::C128 };
    }
    if a.is_float() || b.is_float() {
        let w = max_u32(effective_float_width(a), effective_float_width(b));
        return if w == 2 { DType::F16 } else if w == 4 { DType::F32 } else { DType::F64 };
    }
    let (a_sign, a_bits) = int_class(a);
    let (b_sign, b_bits) = int_class(b);
    if a_sign == b_sign {
        return int_dtype(a_sign, max_u32(a_bits, b_bits));
    }
    let (signed_bits, unsigned_bits) = if a_sign { (a_bits, b_bits) } else { (b_bits, a_bits) };
    if unsigned_bits >= 64 {
        return DType::F64;
    }
    int_dtype(true, max_u32(signed_bits, unsigned_bits + 1))
}

/// `numpy.result_type` over a list of dtypes (left fold); float64 when the
/// list is empty.
pub fn promote_many(types: &[DType]) -> (r: DType)
    ensures
        r == spec_promote_many(types@),
{
    if types.len() == 0 {
        return DType::F64;
    }
    let mut acc = types[0];
    let mut i: usize = 1;
    while i < types.len()
        invariant
            1 <= i <= types.len(),
            acc == spec_promote_many(types@.subrange(0, i as int)),
        decreases types.len() - i,
    {
        let ghost prefix = types@.subrange(0, i as int + 1);
        assert(prefix.drop_last() =~= types@.subrange(0, i as int));
        acc = promote(acc, types[i]);
        i = i + 1;
    }
    assert(types@.subrange(0, types.len() as int) =~= types@);
    acc
}

/// Promotion is symmetric: `result_type(a, b) == result_type(b, a)`.
pub proof fn lemma_promote_commutative(a: DType, b: DType)
    ensures
        spec_promote(a, b) == spec_promote(b, a),
{
}

/// Promoting a dtype with itself gives it back.
pub proof fn lemma_promote_idempotent(a: DType)
    ensures
        spec_promote(a, a) == a,
{
}

/// Bool is the neutral element of promotion among the numeric dtypes.
pub proof fn lemma_promote_bool_identity(a: DType)
    requires
        a.spec_is_numeric(),
    ensures
        spec_promote(DType::Bool, a) == a,
        spec_promote(a, DType::Bool) == a,
{
}

/// The promoted dtype absorbs each operand: promoting an operand with the
/// result gives the result again.
pub proof fn lemma_promote_absorbs(a: DType, b: DType)
    ensures
        spec_promote(a, spec_promote(a, b)) == spec_promote(a, b),
        spec_promote(b, spec_promote(a, b)) == spec_promote(a, b),
{
}

/// Promotion of integer dtypes, stated through their signs and item sizes:
/// a boolean gives way to any integer; two integers of one sign give the
/// wider of the two; a signed and an unsigned one give the signed integer
/// twice as wide as the unsigned one, or as wide as the signed one if that
/// is wider, and float64 when the unsigned one is 64 bits wide.
pub proof fn lemma_promote_integer_widths(a: DType, b: DType)
    requires
        a.spec_is_integer(),
        b.spec_is_integer(),
    ensures
        a == DType::Bool ==> spec_promote(a, b) == b,
        b == DType::Bool ==> spec_promote(a, b) == a,
        a != DType::Bool && b != DType::Bool && a.spec_is_signed_int() == b.spec_is_signed_int() ==> spec_promote(a, b)
            == (if a.spec_itemsize() >= b.spec_itemsize() { a } else { b }),
        a.spec_is_signed_int() && b.spec_is_unsigned_int() ==> {
            let t = spec_promote(a, b);
            if b.spec_itemsize() == 8 {
                t == DType::F64
            } else {
                t.spec_is_signed_int() && t.spec_itemsize() == if a.spec_itemsize() >= 2 * b.spec_itemsize() {
                    a.spec_itemsize()
                } else {
                    2 * b.spec_itemsize()
                }
            }
        },
        a.spec_is_unsigned_int() && b.spec_is_signed_int() ==> spec_promote(a, b) == spec_promote(b, a),
{
    match a {
        DType::Bool => {},
        DType::I8 => {},
        DType::I16 => {},
        DType::I32 => {},
        DType::I64 => {},
        DType::U8 => {},
        DType::U16 => {},
        DType::U32 => {},
        _ => {},
    }
}

/// A narrower integer that casts safely to a wider one of the same sign
/// promotes with it to the wider one, in either order.
pub proof fn lemma_promote_to_wider(a: DType, b: DType)
    requires
        a.spec_is_integer(),
        b.spec_is_integer(),
        a != DType::Bool,
        b != DType::Bool,
        a.spec_is_signed_int() == b.spec_is_signed_int(),
        a.spec_itemsize() <= b.spec_itemsize(),
    ensures
        spec_promote(a, b) == b,
        spec_promote(b, a) == b,
{
    lemma_promote_integer_widths(a, b);
    lemma_promote_integer_widths(b, a);
    if a.spec_itemsize() == b.spec_itemsize() {
        assert(a == b) by {
            match a {
                DType::I8 => {},
                DType::I16 => {},
                DType::I32 => {},
                DType::I64 => {},
                DType::U8 => {},
                DType::U16 => {},
                DType::U32 => {},
                _ => {},
            }
        }
    }
}

/// Promotion with floats, stated through item sizes: two floats give the
/// wider; an integer and a float give the float wide enough for both,
/// where booleans and 8-bit integers fit half precision, 16-bit integers
/// need 4 bytes and wider integers 8; a complex operand gives the complex
/// dtype whose parts are that wide.
pub proof fn lemma_promote_float_widths(a: DType, b: DType)
    requires
        a.spec_is_integer() || a.spec_is_float(),
        b.spec_is_float(),
    ensures
        ({
            let need = if a.spec_is_float() {
                a.spec_itemsize()
            } else if a.spec_itemsize() == 1 {
                2
            } else if a.spec_itemsize() == 2 {
                4
            } else {
                8
            };
            let w = if need >= b.spec_itemsize() { need } else { b.spec_itemsize() };
            &&& spec_promote(a, b).spec_is_float()
            &&& spec_promote(a, b).spec_itemsize() == w
            &&& spec_promote(a, b) == spec_promote(b, a)
        }),
{
    match a {
        DType::Bool => {},
        DType::I8 => {},
        DType::I16 => {},
        DType::I32 => {},
        DType::I64 => {},
        DType::U8 => {},
        DType::U16 => {},
        DType::U32 => {},
        DType::U64 => {},
        DType::F16 => {},
        DType::F32 => {},
        _ => {},
    }
}

/// Promotion with a complex operand: the complex dtype whose parts are as
/// wide as the other operand needs (a float its own size, an integer as in
/// `lemma_promote_float_widths`, a complex its parts' size).
pub proof fn lemma_promote_complex_widths(a: DType, b: DType)
    requires
        a.spec_is_integer() || a.spec_is_float() || a.spec_is_complex(),
        b.spec_is_complex(),
    ensures
        ({
            let need = if a.spec_is_complex() {
                a.spec_itemsize() / 2
            } else if a.spec_is_float() {
                a.spec_itemsize()
            } else if a.spec_itemsize() == 1 {
                2
            } else if a.spec_itemsize() == 2 {
                4
            } else {
                8
            };
            let part = b.spec_itemsize() / 2;
            let w = if need >= part { need } else { part };
            &&& spec_promote(a, b).spec_is_complex()
            &&& spec_promote(a, b).spec_itemsize() == (if w <= 4 { 8nat } else { 16nat })
            &&& spec_promote(a, b) == spec_promote(b, a)
        }),
{
    match a {
        DType::Bool => {},
        DType::I8 => {},
        DType::I16 => {},
        DType::I32 => {},
        DType::I64 => {},
        DType::U8 => {},
        DType::U16 => {},
        DType::U32 => {},
        DType::U64 => {},
        DType::F16 => {},
        DType::F32 => {},
        DType::F64 => {},
        DType::C64 => {},
        _ => {},
    }
}

/// Promotion of text dtypes: two strings give the string as long as the
/// longer, two byte strings likewise, and text meeting any other dtype (or
/// the other kind of text), or an object, gives an object.
pub proof fn lemma_promote_text(a: DType, b: DType)
    ensures
        a is Str && b is Str ==> spec_promote(a, b) == DType::Str(
            if a->Str_0 >= b->Str_0 { a->Str_0 } else { b->Str_0 },
        ),
        a is Bytes && b is Bytes ==> spec_promote(a, b) == DType::Bytes(
            if a->Bytes_0 >= b->Bytes_0 { a->Bytes_0 } else { b->Bytes_0 },
        ),
        a != b && (a is Object || b is Object || ((a is Str || a is Bytes || b is Str || b is Bytes) && !(a is Str
            && b is Str) && !(a is Bytes && b is Bytes))) ==> spec_promote(a, b) == DType::Object,
{
}

} // verus!
