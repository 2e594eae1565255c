//! Element-by-element arithmetic on broadcast integer and boolean arrays:
//! wrapping `+ - *` (numpy's two's-complement overflow), floor division
//! and its remainder, negation and absolute value.
use vstd::prelude::*;

use crate::broadcast::{lemma_operands_broadcast, no_min};
use crate::nd::{
    broadcast_shape, broadcast_source, nd_wf, partial_products_fit,
    spec_broadcast_shape, ArrayError, NdArray, NdModel,
};
use crate::npy::{element_count, shape_product};
use crate::fold::{is_int_reduce, keep_dims, multi_fits, reduce_multi_i64, reduce_steps, spec_reduce_i64, spec_reduce_multi_i64};
use crate::reduce::{Reduce, ReduceError};
use crate::tiling::broadcasts_to;

verus! {

/// A binary arithmetic operation.
#[derive(Clone, Copy, Debug, PartialEq, Eq, Structural)]
pub enum ArithOp {
    Add,
    Sub,
    Mul,
    /// Floor division: the quotient rounded toward minus infinity.
    FloorDivide,
    /// The remainder of floor division: zero or of the divisor's sign.
    Remainder,
}

/// `a / b` rounded toward minus infinity (`b != 0`).
pub open spec fn floor_div(a: int, b: int) -> int {
    if b > 0 || a % b == 0 { a / b } else { a / b - 1 }
}

/// What floor division leaves: `a - b * floor_div(a, b)`, zero or of the
/// sign of `b` and smaller than `b` in magnitude.
pub open spec fn floor_mod(a: int, b: int) -> int {
    if b > 0 || a % b == 0 { a % b } else { a % b + b }
}

/// The value of `a op b` on `i64`: sums, differences and products wrap
/// around; division rounds toward minus infinity and the remainder takes
/// the divisor's sign.
pub open spec fn arith_value(op: ArithOp, a: i64, b: i64) -> i64 {
    match op {
        ArithOp::Add => vstd::wrapping::i64_specs::wrapping_add(a, b),
        ArithOp::Sub => vstd::wrapping::i64_specs::wrapping_sub(a, b),
        ArithOp::Mul => vstd::wrapping::i64_specs::wrapping_mul(a, b),
        ArithOp::FloorDivide => floor_div(a as int, b as int) as i64,
        ArithOp::Remainder => floor_mod(a as int, b as int) as i64,
    }
}

/// `a op b` is defined: division and remainder need a non-zero divisor and
/// no `i64::MIN / -1`.
pub open spec fn arith_defined(op: ArithOp, a: i64, b: i64) -> bool {
    (op == ArithOp::FloorDivide || op == ArithOp::Remainder) ==> (b != 0 && !(a == i64::MIN && b == -1))
}

/// The operation on two arrays broadcast together.
pub open spec fn spec_arith(a: NdModel<i64>, b: NdModel<i64>, op: ArithOp) -> Result<NdModel<i64>, ArrayError> {
    match spec_broadcast_shape(a.shape, b.shape) {
        None => Err(ArrayError::IncompatibleShapes),
        Some(out) => Ok(NdModel {
            shape: out,
            data: Seq::new(shape_product(out), |f: int| arith_value(
                op,
                a.data[broadcast_source(a.shape, out, f)],
                b.data[broadcast_source(b.shape, out, f)],
            )),
        }),
    }
}

/// Every pair of elements the operation meets is one it is defined on.
pub open spec fn arith_inputs_defined(a: NdModel<i64>, b: NdModel<i64>, op: ArithOp) -> bool {
    spec_broadcast_shape(a.shape, b.shape) is Some ==> pairs_defined(a, b, spec_broadcast_shape(a.shape, b.shape)->Some_0, op)
}

/// The operation is defined on every pair it meets over shape `out`.
pub open spec fn pairs_defined(a: NdModel<i64>, b: NdModel<i64>, out: Seq<usize>, op: ArithOp) -> bool {
    forall|f: int| 0 <= f < shape_product(out) ==> #[trigger] arith_defined(
        op,
        a.data[broadcast_source(a.shape, out, f)],
        b.data[broadcast_source(b.shape, out, f)],
    )
}

fn arith_exec(op: ArithOp, a: i64, b: i64) -> (r: i64)
    requires
        arith_defined(op, a, b),
    ensures
        r == arith_value(op, a, b),
{
    match op {
        ArithOp::Add => a.wrapping_add(b),
        ArithOp::Sub => a.wrapping_sub(b),
        ArithOp::Mul => a.wrapping_mul(b),
        _ => {
            proof {
                lemma_euclid_div_fits(a, b);
                lemma_euclid_mod_abs(a as int, b as int);
                lemma_floor_div_fits(a, b);
            }
            let q = a.checked_div_euclid(b).unwrap();
            let r = a.checked_rem_euclid(b).unwrap();
            if op == ArithOp::FloorDivide {
                if b < 0 && r != 0 { q - 1 } else { q }
            } else {
                if b < 0 && r != 0 { r + b } else { r }
            }
        },
    }
}

/// Euclidean division of `i64`s fits, but for `i64::MIN / -1`.
proof fn lemma_euclid_div_fits(a: i64, b: i64)
    requires
        b != 0,
        !(a == i64::MIN && b == -1),
    ensures
        i64::MIN <= a as int / b as int <= i64::MAX,
{
    let x = a as int;
    let y = b as int;
    let q = x / y;
    let r = x % y;
    vstd::arithmetic::div_mod::lemma_fundamental_div_mod(x, y);
    lemma_euclid_mod_abs(x, y);
    if y > 0 {
        assert(0 <= r < y);
        assert(i64::MIN <= q <= i64::MAX) by (nonlinear_arith)
            requires
                x == y * q + r,
                0 <= r < y,
                y >= 1,
                i64::MIN <= x <= i64::MAX,
        ;
    } else {
        assert(0 <= r < -y);
        if y == -1 {
            assert(x == -q + r);
            assert(r == 0);
            assert(q == -x);
        } else {
            assert(i64::MIN <= q <= i64::MAX) by (nonlinear_arith)
                requires
                    x == y * q + r,
                    0 <= r < -y,
                    y <= -2,
                    i64::MIN <= x <= i64::MAX,
            ;
        }
    }
}

/// Floor division of `i64`s fits, but for `i64::MIN / -1`.
proof fn lemma_floor_div_fits(a: i64, b: i64)
    requires
        b != 0,
        !(a == i64::MIN && b == -1),
    ensures
        i64::MIN <= floor_div(a as int, b as int) <= i64::MAX,
{
    let x = a as int;
    let y = b as int;
    let q = x / y;
    let r = x % y;
    vstd::arithmetic::div_mod::lemma_fundamental_div_mod(x, y);
    lemma_euclid_mod_abs(x, y);
    lemma_euclid_div_fits(a, b);
    if y < 0 && r != 0 {
        assert(y <= -2);
        assert(i64::MIN <= q - 1) by (nonlinear_arith)
            requires
                x == y * q + r,
                0 < r < -y,
                y <= -2,
                i64::MIN <= x <= i64::MAX,
        ;
    }
}

/// The Euclidean remainder lies in `0..|b|`.
proof fn lemma_euclid_mod_abs(x: int, y: int)
    requires
        y != 0,
    ensures
        0 <= x % y < (if y < 0 { -y } else { y }),
{
    vstd::arithmetic::div_mod::lemma_fundamental_div_mod(x, y);
}

/// `add`, `subtract`, `multiply`, `floor_divide` or `remainder` of two
/// `i64` arrays, element by element over their broadcast shape.
pub fn arith(a: &NdArray<i64>, b: &NdArray<i64>, op: ArithOp) -> (r: Result<NdArray<i64>, ArrayError>)
    requires
        nd_wf(a@),
        nd_wf(b@),
        arith_inputs_defined(a@, b@, op),
        spec_broadcast_shape(a.shape@, b.shape@) matches Some(out) ==> partial_products_fit(out),
    ensures
        match r {
            Ok(v) => spec_arith(a@, b@, op) == Ok::<NdModel<i64>, ArrayError>(v@) && nd_wf(v@),
            Err(e) => spec_arith(a@, b@, op) == Err::<NdModel<i64>, ArrayError>(e),
        },
{
    let out = match broadcast_shape(a.shape.as_slice(), b.shape.as_slice()) {
        None => return Err(ArrayError::IncompatibleShapes),
        Some(s) => s,
    };
    proof {
        lemma_operands_broadcast(a.shape@, b.shape@);
    }
    let n = element_count(out.as_slice());
    let mut data: Vec<i64> = Vec::new();
    let mut f: usize = 0;
    while f < n
        invariant
            f <= n,
            n == shape_product(out@),
            nd_wf(a@),
            nd_wf(b@),
            pairs_defined(a@, b@, out@, op),
            broadcasts_to(a.shape@, out@),
            broadcasts_to(b.shape@, out@),
            data@.len() == f,
            forall|g: int| 0 <= g < f ==> #[trigger] data@[g] == arith_value(
                op,
                a.data@[broadcast_source(a.shape@, out@, g)],
                b.data@[broadcast_source(b.shape@, out@, g)],
            ),
        decreases n - f,
    {
        let x = crate::broadcast::read_broadcast(a, out.as_slice(), f);
        let y = crate::broadcast::read_broadcast(b, out.as_slice(), f);
        assert(arith_defined(
            op,
            a.data@[broadcast_source(a.shape@, out@, f as int)],
            b.data@[broadcast_source(b.shape@, out@, f as int)],
        ));
        data.push(arith_exec(op, x, y));
        f = f + 1;
    }
    let r = NdArray { shape: out, data };
    assert(r@.data =~= spec_arith(a@, b@, op)->Ok_0.data);
    Ok(r)
}

/// `divmod(a, b)`: the pair (`floor_divide(a, b)`, `remainder(a, b)`).
pub fn divmod(a: &NdArray<i64>, b: &NdArray<i64>) -> (r: Result<(NdArray<i64>, NdArray<i64>), ArrayError>)
    requires
        nd_wf(a@),
        nd_wf(b@),
        arith_inputs_defined(a@, b@, ArithOp::FloorDivide),
        spec_broadcast_shape(a.shape@, b.shape@) matches Some(out) ==> partial_products_fit(out),
    ensures
        match r {
            Ok((q, m)) => spec_arith(a@, b@, ArithOp::FloorDivide) == Ok::<NdModel<i64>, ArrayError>(q@)
                && spec_arith(a@, b@, ArithOp::Remainder) == Ok::<NdModel<i64>, ArrayError>(m@),
            Err(e) => spec_arith(a@, b@, ArithOp::FloorDivide) == Err::<NdModel<i64>, ArrayError>(e),
        },
{
    proof {
        if spec_broadcast_shape(a.shape@, b.shape@) is Some {
            let out = spec_broadcast_shape(a.shape@, b.shape@)->Some_0;
            assert forall|f: int| 0 <= f < shape_product(out) implies #[trigger] arith_defined(
                ArithOp::Remainder,
                a@.data[broadcast_source(a.shape@, out, f)],
                b@.data[broadcast_source(b.shape@, out, f)],
            ) by {
                assert(arith_defined(
                    ArithOp::FloorDivide,
                    a@.data[broadcast_source(a.shape@, out, f)],
                    b@.data[broadcast_source(b.shape@, out, f)],
                ));
            }
        }
    }
    let q = arith(a, b, ArithOp::FloorDivide)?;
    let m = match arith(a, b, ArithOp::Remainder) {
        Ok(m) => m,
        Err(e) => return Err(e),
    };
    Ok((q, m))
}

/// The value of a boolean operation: `+` is or, `-` exclusive or, `*`
/// and.
pub open spec fn bool_value(op: ArithOp, a: bool, b: bool) -> bool {
    match op {
        ArithOp::Add => a || b,
        ArithOp::Sub => a != b,
        _ => a && b,
    }
}

/// The boolean operation on two arrays broadcast together.
pub open spec fn spec_arith_bool(a: NdModel<bool>, b: NdModel<bool>, op: ArithOp) -> Result<NdModel<bool>, ArrayError> {
    match spec_broadcast_shape(a.shape, b.shape) {
        None => Err(ArrayError::IncompatibleShapes),
        Some(out) => Ok(NdModel {
            shape: out,
            data: Seq::new(shape_product(out), |f: int| bool_value(
                op,
                a.data[broadcast_source(a.shape, out, f)],
                b.data[broadcast_source(b.shape, out, f)],
            )),
        }),
    }
}

/// `add` (or), `subtract` (exclusive or) or `multiply` (and) of two
/// boolean arrays over their broadcast shape.
pub fn arith_bool(a: &NdArray<bool>, b: &NdArray<bool>, op: ArithOp) -> (r: Result<NdArray<bool>, ArrayError>)
    requires
        nd_wf(a@),
        nd_wf(b@),
        op == ArithOp::Add || op == ArithOp::Sub || op == ArithOp::Mul,
        spec_broadcast_shape(a.shape@, b.shape@) matches Some(out) ==> partial_products_fit(out),
    ensures
        match r {
            Ok(v) => spec_arith_bool(a@, b@, op) == Ok::<NdModel<bool>, ArrayError>(v@) && nd_wf(v@),
            Err(e) => spec_arith_bool(a@, b@, op) == Err::<NdModel<bool>, ArrayError>(e),
        },
{
    let out = match broadcast_shape(a.shape.as_slice(), b.shape.as_slice()) {
        None => return Err(ArrayError::IncompatibleShapes),
        Some(s) => s,
    };
    proof {
        lemma_operands_broadcast(a.shape@, b.shape@);
    }
    let n = element_count(out.as_slice());
    let mut data: Vec<bool> = Vec::new();
    let mut f: usize = 0;
    while f < n
        invariant
            f <= n,
            n == shape_product(out@),
            nd_wf(a@),
            nd_wf(b@),
            broadcasts_to(a.shape@, out@),
            broadcasts_to(b.shape@, out@),
            data@.len() == f,
            forall|g: int| 0 <= g < f ==> #[trigger] data@[g] == bool_value(
                op,
                a.data@[broadcast_source(a.shape@, out@, g)],
                b.data@[broadcast_source(b.shape@, out@, g)],
            ),
        decreases n - f,
    {
        let x = crate::broadcast::read_broadcast(a, out.as_slice(), f);
        let y = crate::broadcast::read_broadcast(b, out.as_slice(), f);
        let v = match op {
            ArithOp::Add => x || y,
            ArithOp::Sub => x != y,
            _ => x && y,
        };
        data.push(v);
        f = f + 1;
    }
    let r = NdArray { shape: out, data };
    assert(r@.data =~= spec_arith_bool(a@, b@, op)->Ok_0.data);
    Ok(r)
}

/// `|x|` with `i64::MIN` kept as it is (`wrapping_abs`).
pub open spec fn wrapping_abs(x: i64) -> i64 {
    if x == i64::MIN { x } else if x < 0 { (-x) as i64 } else { x }
}

/// `negative(a)`: each element negated, wrapping around as numpy's `int64`
/// does (`i64::MIN` stays `i64::MIN`).
pub fn negate(a: &NdArray<i64>) -> (r: NdArray<i64>)
    ensures
        r@.shape == a@.shape,
        r@.data == Seq::new(a.data@.len(), |i: int| vstd::wrapping::i64_specs::wrapping_sub(0, a.data@[i])),
{
    let n = a.data.len();
    let mut data: Vec<i64> = Vec::new();
    let mut i: usize = 0;
    while i < n
        invariant
            i <= n,
            n == a.data@.len(),
            data@.len() == i,
            forall|k: int| 0 <= k < i ==> #[trigger] data@[k] == vstd::wrapping::i64_specs::wrapping_sub(0, a.data@[k]),
        decreases n - i,
    {
        let v = a.data[i];
        data.push(0i64.wrapping_sub(v));
        i = i + 1;
    }
    let r = NdArray { shape: crate::nd::copy_vec(a.shape.as_slice()), data };
    assert(r@.data =~= Seq::new(a.data@.len(), |i: int| vstd::wrapping::i64_specs::wrapping_sub(0, a.data@[i])));
    r
}

/// `absolute(a)`: each element's magnitude (`i64::MIN` stays, as numpy's
/// wrapping absolute value gives it).
pub fn absolute(a: &NdArray<i64>) -> (r: NdArray<i64>)
    ensures
        r@.shape == a@.shape,
        r@.data == Seq::new(a.data@.len(), |i: int| wrapping_abs(a.data@[i])),
{
    let n = a.data.len();
    let mut data: Vec<i64> = Vec::new();
    let mut i: usize = 0;
    while i < n
        invariant
            i <= n,
            n == a.data@.len(),
            data@.len() == i,
            forall|k: int| 0 <= k < i ==> #[trigger] data@[k] == wrapping_abs(a.data@[k]),
        decreases n - i,
    {
        let v = a.data[i];
        let m = if v == i64::MIN { v } else if v < 0 { -v } else { v };
        data.push(m);
        i = i + 1;
    }
    let r = NdArray { shape: crate::nd::copy_vec(a.shape.as_slice()), data };
    assert(r@.data =~= Seq::new(a.data@.len(), |i: int| wrapping_abs(a.data@[i])));
    r
}

/// Floor division and remainder fit together: `a == b * (a // b) + a % b`,
/// with the remainder zero or of the divisor's sign and smaller than it in
/// magnitude.
pub proof fn lemma_divmod_identity(a: i64, b: i64)
    requires
        arith_defined(ArithOp::FloorDivide, a, b),
    ensures
        a as int == (b as int) * (arith_value(ArithOp::FloorDivide, a, b) as int) + arith_value(ArithOp::Remainder, a, b) as int,
        b > 0 ==> 0 <= arith_value(ArithOp::Remainder, a, b) < b,
        b < 0 ==> b < arith_value(ArithOp::Remainder, a, b) <= 0,
{
    lemma_euclid_div_fits(a, b);
    lemma_floor_div_fits(a, b);
    lemma_euclid_mod_abs(a as int, b as int);
    vstd::arithmetic::div_mod::lemma_fundamental_div_mod(a as int, b as int);
    let x = a as int;
    let y = b as int;
    let q = x / y;
    if y < 0 && x % y != 0 {
        assert(y * (q - 1) + (x % y + y) == y * q + x % y) by (nonlinear_arith);
    }
}

/// Subtracting what was added gives back the first operand, overflow or
/// not.
pub proof fn lemma_add_sub_inverse(a: i64, b: i64)
    ensures
        arith_value(ArithOp::Sub, arith_value(ArithOp::Add, a, b), b) == a,
{
}

// ---------------------------------------------------------------------
// ptp
// ---------------------------------------------------------------------

/// Why `ptp` refuses its input.
#[derive(Clone, Copy, Debug, PartialEq, Eq, Structural)]
pub enum PtpError {
    /// The maximum or the minimum refused the input.
    Reduce(ReduceError),
    /// The maximum and the minimum do not broadcast together.
    Shape(ArrayError),
}

/// `ptp` on models: the (wrapping) difference of the maximum and the
/// minimum over the same axes.
pub open spec fn spec_ptp(a: NdModel<i64>, axes: Option<Seq<isize>>, keepdims: bool) -> Result<NdModel<i64>, PtpError> {
    match spec_reduce_multi_i64(a, axes, keepdims, Reduce::Max) {
        Err(e) => Err(PtpError::Reduce(e)),
        Ok(mx) => match spec_reduce_multi_i64(a, axes, keepdims, Reduce::Min) {
            Err(e) => Err(PtpError::Reduce(e)),
            Ok(mn) => match spec_arith(mx, mn, ArithOp::Sub) {
                Err(e) => Err(PtpError::Shape(e)),
                Ok(d) => Ok(d),
            },
        },
    }
}

/// Two reductions without identity over the same axes of same-shaped
/// arrays reach the same shape.
proof fn lemma_steps_same_shape(a1: NdModel<i64>, a2: NdModel<i64>, axes: Seq<isize>)
    requires
        a1.shape == a2.shape,
        a1.data.len() == a2.data.len(),
    ensures
        (reduce_steps(a1, axes, Reduce::Max) is Ok) == (reduce_steps(a2, axes, Reduce::Min) is Ok),
        reduce_steps(a1, axes, Reduce::Max) is Ok ==> reduce_steps(a1, axes, Reduce::Max)->Ok_0.shape == reduce_steps(a2, axes, Reduce::Min)->Ok_0.shape
            && reduce_steps(a1, axes, Reduce::Max)->Ok_0.data.len() == reduce_steps(a2, axes, Reduce::Min)->Ok_0.data.len(),
    decreases axes.len(),
{
    if axes.len() > 0 {
        let r1 = spec_reduce_i64(a1, Some(axes[0]), Reduce::Max);
        let r2 = spec_reduce_i64(a2, Some(axes[0]), Reduce::Min);
        if r1 is Ok && r2 is Ok {
            lemma_steps_same_shape(r1->Ok_0, r2->Ok_0, axes.drop_first());
        }
    }
}

/// `a.ptp(axis, keepdims)` of an `i64` array: maximum minus minimum.
pub fn ptp(a: &NdArray<i64>, axes: Option<&[isize]>, keepdims: bool) -> (r: Result<NdArray<i64>, PtpError>)
    requires
        nd_wf(a@),
        a.shape@.len() <= isize::MAX,
        crate::nd::partial_products_fit(a.shape@),
        multi_fits(a@, match axes { Some(x) => Some(x@), None => None }, Reduce::Max),
        multi_fits(a@, match axes { Some(x) => Some(x@), None => None }, Reduce::Min),
        spec_reduce_multi_i64(a@, match axes { Some(x) => Some(x@), None => None }, keepdims, Reduce::Max) matches Ok(m)
            ==> (nd_wf(m) && partial_products_fit(m.shape)),
        spec_reduce_multi_i64(a@, match axes { Some(x) => Some(x@), None => None }, keepdims, Reduce::Min) matches Ok(m)
            ==> (nd_wf(m) && partial_products_fit(m.shape)),
    ensures
        match r {
            Ok(v) => spec_ptp(a@, match axes { Some(x) => Some(x@), None => None }, keepdims) == Ok::<NdModel<i64>, PtpError>(v@),
            Err(e) => spec_ptp(a@, match axes { Some(x) => Some(x@), None => None }, keepdims) == Err::<NdModel<i64>, PtpError>(e),
        },
{
    let mx = match reduce_multi_i64(a, axes, keepdims, Reduce::Max) {
        Err(e) => return Err(PtpError::Reduce(e)),
        Ok(m) => m,
    };
    let mn = match reduce_multi_i64(a, axes, keepdims, Reduce::Min) {
        Err(e) => return Err(PtpError::Reduce(e)),
        Ok(m) => m,
    };
    proof {
        let ao = match axes { Some(x) => Some(x@), None => None };
        match ao {
            Some(list) => {
                if crate::fold::multi_axes(list, a.shape@.len() as int) is Ok {
                    let norm = crate::fold::multi_axes(list, a.shape@.len() as int)->Ok_0;
                    lemma_steps_same_shape(a@, a@, crate::sorting::sorted_isize(norm).reverse());
                }
            },
            None => {},
        }
        assert(mx@.shape == mn@.shape);
        crate::nd::lemma_broadcast_self(mx@.shape);
    }
    match arith(&mx, &mn, ArithOp::Sub) {
        Err(e) => Err(PtpError::Shape(e)),
        Ok(d) => Ok(d),
    }
}

} // verus!
