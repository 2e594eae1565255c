//! Arithmetic at the width of each integer dtype (`int8` ... `uint64`):
//! elements are held as `i128` values within the dtype's range, sums,
//! differences, products and negations wrap around modulo 2^bits as
//! numpy's fixed-width integers do, floor division rounds toward minus
//! infinity and the remainder takes the divisor's sign; powers are taken
//! modulo 2^bits too.
use vstd::prelude::*;

use crate::arith::{floor_div, floor_mod, ArithOp};
use crate::broadcast::{lemma_operands_broadcast, read_broadcast};
use crate::dtype::DType;
use crate::nd::{
    broadcast_shape, broadcast_source, nd_wf, partial_products_fit, spec_broadcast_shape, ArrayError, NdArray, NdModel,
};
use crate::npy::{element_count, shape_product};
use crate::ops::{int_pow_i64, lemma_crop_mod, modulus64};
use crate::tiling::broadcasts_to;

verus! {

/// The eight fixed-width integer dtypes.
pub open spec fn fixed_int(d: DType) -> bool {
    d.spec_is_signed_int() || d.spec_is_unsigned_int()
}

/// 2^bits of an integer dtype.
pub open spec fn modulus(d: DType) -> int {
    match d {
        DType::I8 | DType::U8 => 0x100,
        DType::I16 | DType::U16 => 0x1_0000,
        DType::I32 | DType::U32 => 0x1_0000_0000,
        _ => 0x1_0000_0000_0000_0000,
    }
}

/// The smallest value of an integer dtype.
pub open spec fn lo(d: DType) -> int {
    if d.spec_is_signed_int() { -(modulus(d) / 2) } else { 0 }
}

/// The largest value of an integer dtype.
pub open spec fn hi(d: DType) -> int {
    lo(d) + modulus(d) - 1
}

/// `x` taken modulo 2^bits into the range of `d`: what a fixed-width
/// result of the exact value `x` holds.
pub open spec fn wrap(d: DType, x: int) -> int {
    let r = x % modulus(d);
    if r > hi(d) { r - modulus(d) } else { r }
}

/// Every element lies in the range of `d`.
pub open spec fn in_range(d: DType, s: Seq<i128>) -> bool {
    forall|i: int| 0 <= i < s.len() ==> lo(d) <= #[trigger] s[i] <= hi(d)
}

/// The value of `a op b` at the width of `d`.
pub open spec fn value_at(d: DType, op: ArithOp, a: int, b: int) -> int {
    match op {
        ArithOp::Add => wrap(d, a + b),
        ArithOp::Sub => wrap(d, a - b),
        ArithOp::Mul => wrap(d, a * b),
        ArithOp::FloorDivide => floor_div(a, b),
        ArithOp::Remainder => floor_mod(a, b),
    }
}

/// `a op b` is defined at the width of `d`: division and remainder need a
/// non-zero divisor and no `min / -1`.
pub open spec fn defined_at(d: DType, op: ArithOp, a: int, b: int) -> bool {
    (op == ArithOp::FloorDivide || op == ArithOp::Remainder) ==> (b != 0 && !(a == lo(d) && b == -1))
}

/// The operation on two arrays of dtype `d` broadcast together.
pub open spec fn spec_arith_at(d: DType, a: NdModel<i128>, b: NdModel<i128>, op: ArithOp) -> Result<NdModel<i128>, ArrayError> {
    match spec_broadcast_shape(a.shape, b.shape) {
        None => Err(ArrayError::IncompatibleShapes),
        Some(out) => Ok(NdModel {
            shape: out,
            data: Seq::new(shape_product(out), |f: int| value_at(
                d,
                op,
                a.data[broadcast_source(a.shape, out, f)] as int,
                b.data[broadcast_source(b.shape, out, f)] as int,
            ) as i128),
        }),
    }
}

/// The operation is defined on every pair it meets.
pub open spec fn pairs_defined_at(d: DType, a: NdModel<i128>, b: NdModel<i128>, op: ArithOp) -> bool {
    forall|out: Seq<usize>, f: int|
        spec_broadcast_shape(a.shape, b.shape) == Some(out) && 0 <= f < shape_product(out) ==> #[trigger] defined_at(
            d,
            op,
            a.data[broadcast_source(a.shape, out, f)] as int,
            b.data[broadcast_source(b.shape, out, f)] as int,
        )
}

/// `2^bits` as an `i128`.
fn modulus_exec(d: DType) -> (r: i128)
    ensures
        r == modulus(d),
{
    match d {
        DType::I8 | DType::U8 => 0x100,
        DType::I16 | DType::U16 => 0x1_0000,
        DType::I32 | DType::U32 => 0x1_0000_0000,
        _ => 0x1_0000_0000_0000_0000,
    }
}

/// `wrap`, computed.
fn wrap_exec(d: DType, x: i128) -> (r: i128)
    requires
        x > i128::MIN,
    ensures
        r == wrap(d, x as int),
{
    let m = modulus_exec(d);
    let r = x.checked_rem_euclid(m).unwrap();
    let top: i128 = if d.is_integer() && matches!(d, DType::I8 | DType::I16 | DType::I32 | DType::I64) { m / 2 - 1 } else { m - 1 };
    assert(top == hi(d));
    if r > top { r - m } else { r }
}

/// Wrapped values lie in the range.
pub(crate) proof fn lemma_wrap_range(d: DType, x: int)
    ensures
        lo(d) <= wrap(d, x) <= hi(d),
{
    vstd::arithmetic::div_mod::lemma_mod_bound(x, modulus(d));
}

/// Multiplying by a divisor of at most `-2` at least doubles the magnitude.
proof fn lemma_times_neg(b: int, x: int)
    by (nonlinear_arith)
    requires
        b <= -2,
    ensures
        x >= 0 ==> b * x <= -2 * x,
        x <= 0 ==> b * x >= -2 * x,
        b == -1 ==> b * x == -x,
{
}

/// Multiplying by a positive divisor does not shrink the magnitude.
proof fn lemma_times_pos(b: int, x: int)
    by (nonlinear_arith)
    requires
        b >= 1,
    ensures
        x >= 0 ==> b * x >= x,
        x <= 0 ==> b * x <= x,
        b * (x + 1) == b * x + b,
{
}

/// Floor division and its remainder stay in the range where defined.
proof fn lemma_floor_range(d: DType, a: int, b: int)
    requires
        fixed_int(d),
        lo(d) <= a <= hi(d),
        lo(d) <= b <= hi(d),
        b != 0,
        !(a == lo(d) && b == -1),
    ensures
        lo(d) <= floor_div(a, b) <= hi(d),
        lo(d) <= floor_mod(a, b) <= hi(d),
{
    let lo_d = lo(d);
    let hi_d = hi(d);
    let q = a / b;
    let r = a % b;
    vstd::arithmetic::div_mod::lemma_fundamental_div_mod(a, b);
    let ab = if b < 0 { -b } else { b };
    vstd::arithmetic::div_mod::lemma_mod_bound(a, ab);
    assert(r == a % ab) by {
        vstd::arithmetic::div_mod::lemma_fundamental_div_mod(a, ab);
        if b < 0 {
            assert(a == ab * (-q) + r) by (nonlinear_arith)
                requires
                    a == b * q + r,
                    ab == -b,
            ;
            vstd::arithmetic::div_mod::lemma_fundamental_div_mod_converse(a, ab, -q, r);
        }
    }
    if b > 0 {
        lemma_times_pos(b, q);
        lemma_times_pos(b, q + 1);
        assert(lo_d <= q <= hi_d);
    } else {
        assert(d.spec_is_signed_int());
        assert(hi_d == -lo_d - 1);
        assert(lo_d <= -128);
        if b == -1 {
            assert(r == 0);
            assert(b * q == -q) by (nonlinear_arith)
                requires
                    b == -1,
            ;
            assert(q == -a);
        } else {
            lemma_times_neg(b, q);
            lemma_times_neg(b, q - 1);
            assert(b * (q - 1) == b * q - b) by (nonlinear_arith);
            if r == 0 {
                assert(lo_d < q <= hi_d);
            } else {
                assert(lo_d <= q - 1 && q <= hi_d);
            }
        }
    }
}

/// One element of the operation.
pub(crate) fn value_exec(d: DType, op: ArithOp, a: i128, b: i128) -> (r: i128)
    requires
        fixed_int(d),
        lo(d) <= a <= hi(d),
        lo(d) <= b <= hi(d),
        defined_at(d, op, a as int, b as int),
    ensures
        r == value_at(d, op, a as int, b as int),
        lo(d) <= r <= hi(d),
{
    match op {
        ArithOp::Add => {
            proof {
                lemma_wrap_range(d, a + b);
            }
            wrap_exec(d, a + b)
        },
        ArithOp::Sub => {
            proof {
                lemma_wrap_range(d, a - b);
            }
            wrap_exec(d, a - b)
        },
        ArithOp::Mul => {
            let m = modulus_exec(d);
            let ra = a.checked_rem_euclid(m).unwrap();
            let rb = b.checked_rem_euclid(m).unwrap();
            proof {
                vstd::arithmetic::div_mod::lemma_mod_bound(a as int, m as int);
                vstd::arithmetic::div_mod::lemma_mod_bound(b as int, m as int);
            }
            let ua = ra as u128;
            let ub = rb as u128;
            assert(ua * ub < 0x1_0000_0000_0000_0000_0000_0000_0000_0000) by (nonlinear_arith)
                requires
                    ua < 0x1_0000_0000_0000_0000,
                    ub < 0x1_0000_0000_0000_0000,
            ;
            let p = (ua * ub) % (m as u128);
            proof {
                vstd::arithmetic::div_mod::lemma_mul_mod_noop(a as int, b as int, m as int);
                vstd::arithmetic::div_mod::lemma_mod_bound((ua * ub) as int, m as int);
                vstd::arithmetic::div_mod::lemma_mod_twice(a as int * b as int, m as int);
                lemma_wrap_range(d, a * b);
            }
            let pi = p as i128;
            let top: i128 = if matches!(d, DType::I8 | DType::I16 | DType::I32 | DType::I64) { m / 2 - 1 } else { m - 1 };
            assert(top == hi(d));
            assert(pi as int == (a as int * b as int) % (m as int));
            if pi > top { pi - m } else { pi }
        },
        ArithOp::FloorDivide => {
            proof {
                lemma_floor_range(d, a as int, b as int);
            }
            let q = a.checked_div_euclid(b).unwrap();
            let r = a.checked_rem_euclid(b).unwrap();
            if b < 0 && r != 0 { q - 1 } else { q }
        },
        ArithOp::Remainder => {
            proof {
                lemma_floor_range(d, a as int, b as int);
                let ab = if b < 0 { -(b as int) } else { b as int };
                vstd::arithmetic::div_mod::lemma_mod_bound(a as int, ab);
            }
            let r = a.checked_rem_euclid(b).unwrap();
            if b < 0 && r != 0 { r + b } else { r }
        },
    }
}

/// `add`, `subtract`, `multiply`, `floor_divide` or `remainder` of two
/// arrays of the integer dtype `d`, element by element over their broadcast
/// shape.
pub fn arith_at(d: DType, a: &NdArray<i128>, b: &NdArray<i128>, op: ArithOp) -> (r: Result<NdArray<i128>, ArrayError>)
    requires
        fixed_int(d),
        nd_wf(a@),
        nd_wf(b@),
        in_range(d, a.data@),
        in_range(d, b.data@),
        pairs_defined_at(d, a@, b@, op),
        spec_broadcast_shape(a.shape@, b.shape@) matches Some(out) ==> partial_products_fit(out),
    ensures
        match r {
            Ok(v) => spec_arith_at(d, a@, b@, op) == Ok::<NdModel<i128>, ArrayError>(v@) && nd_wf(v@) && in_range(
                d,
                v.data@,
            ),
            Err(e) => spec_arith_at(d, a@, b@, op) == Err::<NdModel<i128>, ArrayError>(e),
        },
{
    let out = match broadcast_shape(a.shape.as_slice(), b.shape.as_slice()) {
        None => return Err(ArrayError::IncompatibleShapes),
        Some(s) => s,
    };
    proof {
        lemma_operands_broadcast(a.shape@, b.shape@);
    }
    let n = element_count(out.as_slice());
    let mut data: Vec<i128> = Vec::new();
    let mut f: usize = 0;
    while f < n
        invariant
            f <= n,
            n == shape_product(out@),
            fixed_int(d),
            nd_wf(a@),
            nd_wf(b@),
            in_range(d, a.data@),
            in_range(d, b.data@),
            spec_broadcast_shape(a.shape@, b.shape@) == Some(out@),
            pairs_defined_at(d, a@, b@, op),
            broadcasts_to(a.shape@, out@),
            broadcasts_to(b.shape@, out@),
            data@.len() == f,
            in_range(d, data@),
            forall|g: int| 0 <= g < f ==> #[trigger] data@[g] == value_at(
                d,
                op,
                a.data@[broadcast_source(a.shape@, out@, g)] as int,
                b.data@[broadcast_source(b.shape@, out@, g)] as int,
            ) as i128,
        decreases n - f,
    {
        let x = read_broadcast(a, out.as_slice(), f);
        let y = read_broadcast(b, out.as_slice(), f);
        proof {
            crate::broadcast::lemma_source_in_data(a@, out@, f as int);
            crate::broadcast::lemma_source_in_data(b@, out@, f as int);
        }
        assert(pairs_defined_at(d, a@, b@, op));
        assert(spec_broadcast_shape(a@.shape, b@.shape) == Some(out@));
        assert((f as int) < shape_product(out@));
        assert(defined_at(
            d,
            op,
            a@.data[broadcast_source(a@.shape, out@, f as int)] as int,
            b@.data[broadcast_source(b@.shape, out@, f as int)] as int,
        ));
        let v = value_exec(d, op, x, y);
        data.push(v);
        f = f + 1;
    }
    let r = NdArray { shape: out, data };
    assert(r@.data =~= spec_arith_at(d, a@, b@, op)->Ok_0.data);
    Ok(r)
}

/// `a ** b` at the width of `d` for a non-negative exponent: the power with
/// the exponent taken modulo 2^32, wrapped into the range of `d`.
pub open spec fn pow_value_at(d: DType, a: int, b: int) -> int {
    wrap(d, vstd::arithmetic::power::pow(a, (b % 0x1_0000_0000) as nat))
}

/// Some element of `b` read over the broadcast shape `out` is negative.
pub open spec fn negative_exponent(b: NdModel<i128>, out: Seq<usize>) -> bool {
    exists|f: int| 0 <= f < shape_product(out) && #[trigger] b.data[broadcast_source(b.shape, out, f)] < 0
}

/// `power` on two arrays of dtype `d` broadcast together; integers to
/// negative powers are refused.
pub open spec fn spec_power_at(d: DType, a: NdModel<i128>, b: NdModel<i128>) -> Result<NdModel<i128>, ArrayError> {
    match spec_broadcast_shape(a.shape, b.shape) {
        None => Err(ArrayError::IncompatibleShapes),
        Some(out) => if negative_exponent(b, out) {
            Err(ArrayError::NegativeExponent)
        } else {
            Ok(NdModel {
                shape: out,
                data: Seq::new(shape_product(out), |f: int| pow_value_at(
                    d,
                    a.data[broadcast_source(a.shape, out, f)] as int,
                    b.data[broadcast_source(b.shape, out, f)] as int,
                ) as i128),
            })
        },
    }
}

/// Values equal modulo 2^64 wrap to the same value at every width.
proof fn lemma_wrap_congruent(d: DType, x: int, y: int)
    requires
        x % modulus64() == y % modulus64(),
    ensures
        wrap(d, x) == wrap(d, y),
{
    let m = modulus(d);
    let k = modulus64() / m;
    assert(m * k == modulus64());
    vstd::arithmetic::div_mod::lemma_mod_mod(x, m, k);
    vstd::arithmetic::div_mod::lemma_mod_mod(y, m, k);
}

/// One power at the width of `d`.
fn pow_exec(d: DType, a: i128, b: i128) -> (r: i128)
    requires
        fixed_int(d),
        lo(d) <= a <= hi(d),
        0 <= b <= hi(d),
    ensures
        r == pow_value_at(d, a as int, b as int),
        lo(d) <= r <= hi(d),
{
    let e: i128 = b % 0x1_0000_0000;
    let base: i128 = if a > 0x7fff_ffff_ffff_ffff { a - 0x1_0000_0000_0000_0000 } else { a };
    let p = int_pow_i64(base as i64, e as i64);
    proof {
        let big = modulus64();
        let ghost en = e as nat;
        assert(e % 0x1_0000_0000 == e) by {
            vstd::arithmetic::div_mod::lemma_mod_bound(b as int, 0x1_0000_0000);
            vstd::arithmetic::div_mod::lemma_small_mod(e as nat, 0x1_0000_0000);
        }
        lemma_crop_mod(vstd::arithmetic::power::pow(base as int, en));
        assert((base as int) % big == (a as int) % big) by {
            if a > 0x7fff_ffff_ffff_ffff {
                vstd::arithmetic::div_mod::lemma_fundamental_div_mod_converse(base as int, big, -1, a as int);
                vstd::arithmetic::div_mod::lemma_fundamental_div_mod_converse(a as int, big, 0, a as int);
            }
        }
        vstd::arithmetic::power::lemma_pow_mod_noop(base as int, en, big);
        vstd::arithmetic::power::lemma_pow_mod_noop(a as int, en, big);
        lemma_wrap_congruent(d, p as int, vstd::arithmetic::power::pow(a as int, en));
        lemma_wrap_range(d, p as int);
    }
    wrap_exec(d, p as i128)
}

/// `power(a, b)` of two arrays of the integer dtype `d`, element by element
/// over their broadcast shape.
pub fn power_at(d: DType, a: &NdArray<i128>, b: &NdArray<i128>) -> (r: Result<NdArray<i128>, ArrayError>)
    requires
        fixed_int(d),
        nd_wf(a@),
        nd_wf(b@),
        in_range(d, a.data@),
        in_range(d, b.data@),
        spec_broadcast_shape(a.shape@, b.shape@) matches Some(out) ==> partial_products_fit(out),
    ensures
        match r {
            Ok(v) => spec_power_at(d, a@, b@) == Ok::<NdModel<i128>, ArrayError>(v@) && nd_wf(v@) && in_range(
                d,
                v.data@,
            ),
            Err(e) => spec_power_at(d, a@, b@) == Err::<NdModel<i128>, ArrayError>(e),
        },
{
    let out = match broadcast_shape(a.shape.as_slice(), b.shape.as_slice()) {
        None => return Err(ArrayError::IncompatibleShapes),
        Some(s) => s,
    };
    proof {
        lemma_operands_broadcast(a.shape@, b.shape@);
    }
    let n = element_count(out.as_slice());
    let mut data: Vec<i128> = Vec::new();
    let mut f: usize = 0;
    while f < n
        invariant
            f <= n,
            n == shape_product(out@),
            fixed_int(d),
            nd_wf(a@),
            nd_wf(b@),
            in_range(d, a.data@),
            in_range(d, b.data@),
            spec_broadcast_shape(a.shape@, b.shape@) == Some(out@),
            broadcasts_to(a.shape@, out@),
            broadcasts_to(b.shape@, out@),
            data@.len() == f,
            in_range(d, data@),
            forall|g: int| 0 <= g < f ==> #[trigger] b.data@[broadcast_source(b.shape@, out@, g)] >= 0,
            forall|g: int| 0 <= g < f ==> #[trigger] data@[g] == pow_value_at(
                d,
                a.data@[broadcast_source(a.shape@, out@, g)] as int,
                b.data@[broadcast_source(b.shape@, out@, g)] as int,
            ) as i128,
        decreases n - f,
    {
        let x = read_broadcast(a, out.as_slice(), f);
        let y = read_broadcast(b, out.as_slice(), f);
        proof {
            crate::broadcast::lemma_source_in_data(a@, out@, f as int);
            crate::broadcast::lemma_source_in_data(b@, out@, f as int);
        }
        if y < 0 {
            return Err(ArrayError::NegativeExponent);
        }
        let v = pow_exec(d, x, y);
        data.push(v);
        f = f + 1;
    }
    assert(!negative_exponent(b@, out@));
    let r = NdArray { shape: out, data };
    assert(r@.data =~= spec_power_at(d, a@, b@)->Ok_0.data);
    Ok(r)
}

/// `negative(a)` at the width of `d`: each element negated, wrapping
/// around (the smallest signed value stays; unsigned values go to
/// `2^bits - x`).
pub fn negate_at(d: DType, a: &NdArray<i128>) -> (r: NdArray<i128>)
    requires
        fixed_int(d),
        in_range(d, a.data@),
    ensures
        r@.shape == a@.shape,
        r@.data == Seq::new(a@.data.len(), |i: int| wrap(d, -(a@.data[i] as int)) as i128),
        in_range(d, r.data@),
{
    let n = a.data.len();
    let mut data: Vec<i128> = Vec::new();
    let mut i: usize = 0;
    while i < n
        invariant
            i <= n,
            n == a.data@.len(),
            fixed_int(d),
            in_range(d, a.data@),
            data@.len() == i,
            in_range(d, data@),
            forall|k: int| 0 <= k < i ==> #[trigger] data@[k] == wrap(d, -(a.data@[k] as int)) as i128,
        decreases n - i,
    {
        let x = a.data[i];
        proof {
            lemma_wrap_range(d, -(x as int));
        }
        data.push(wrap_exec(d, -x));
        i = i + 1;
    }
    let r = NdArray { shape: crate::nd::copy_vec(a.shape.as_slice()), data };
    assert(r@.data =~= Seq::new(a@.data.len(), |i: int| wrap(d, -(a@.data[i] as int)) as i128));
    r
}

/// A value already in the range of `d` is left as it is by wrapping.
pub proof fn lemma_wrap_in_range(d: DType, x: int)
    requires
        lo(d) <= x <= hi(d),
    ensures
        wrap(d, x) == x,
{
    let m = modulus(d);
    if x >= 0 {
        vstd::arithmetic::div_mod::lemma_small_mod(x as nat, m as nat);
    } else {
        vstd::arithmetic::div_mod::lemma_fundamental_div_mod_converse(x, m, -1, x + m);
    }
}

/// `a.astype(to)` between integer dtypes: each element taken modulo
/// 2^bits into the range of `to`.
pub fn cast_at(to: DType, a: &NdArray<i128>) -> (r: NdArray<i128>)
    requires
        fixed_int(to),
        in_range(DType::U64, a.data@) || in_range(DType::I64, a.data@),
    ensures
        r@.shape == a@.shape,
        r@.data == Seq::new(a@.data.len(), |i: int| wrap(to, a@.data[i] as int) as i128),
        in_range(to, r.data@),
{
    let n = a.data.len();
    let mut data: Vec<i128> = Vec::new();
    let mut i: usize = 0;
    while i < n
        invariant
            i <= n,
            n == a.data@.len(),
            fixed_int(to),
            in_range(DType::U64, a.data@) || in_range(DType::I64, a.data@),
            data@.len() == i,
            in_range(to, data@),
            forall|k: int| 0 <= k < i ==> #[trigger] data@[k] == wrap(to, a.data@[k] as int) as i128,
        decreases n - i,
    {
        let x = a.data[i];
        proof {
            lemma_wrap_range(to, x as int);
        }
        data.push(wrap_exec(to, x));
        i = i + 1;
    }
    let r = NdArray { shape: crate::nd::copy_vec(a.shape.as_slice()), data };
    assert(r@.data =~= Seq::new(a@.data.len(), |i: int| wrap(to, a@.data[i] as int) as i128));
    r
}

/// Casting to a dtype that holds every value of the array and back gives
/// the array again.
pub proof fn lemma_cast_round_trip(from: DType, to: DType, x: int)
    requires
        fixed_int(from),
        fixed_int(to),
        lo(from) <= x <= hi(from),
        lo(to) <= lo(from),
        hi(from) <= hi(to),
    ensures
        wrap(from, wrap(to, x)) == x,
{
    lemma_wrap_in_range(to, x);
    lemma_wrap_in_range(from, x);
}

} // verus!
