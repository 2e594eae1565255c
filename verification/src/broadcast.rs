//! Several arrays broadcast together: `broadcast_arrays` and the
//! three-operand `where`.
use vstd::prelude::*;

use crate::index::{lemma_flat_bound, lemma_unflat_flat, unflat_index};
use crate::nd::{
    broadcast_index_exec, broadcast_shape, broadcast_source, flat_exec, lemma_broadcast_commutative,
    lemma_broadcast_index_in_bounds, lemma_operand_dims, nd_wf, partial_products_fit, spec_broadcast_shape,
    unflat_exec, ArrayError, NdArray, NdModel,
};
use crate::npy::{element_count, shape_product};
use crate::ops::{abs, divides, gcd_i64, gcd_of, lemma_gcd_of_nonneg};
use crate::tiling::{broadcast_to, broadcasts_to, spec_broadcast_to};

verus! {

/// The shapes of some arrays.
pub open spec fn shapes_of<T>(arrs: Seq<NdArray<T>>) -> Seq<Seq<usize>> {
    Seq::new(arrs.len(), |i: int| arrs[i]@.shape)
}

/// The shape that a non-empty list of shapes broadcasts to, taken left to
/// right, if they do.
pub open spec fn common_shape(shapes: Seq<Seq<usize>>) -> Option<Seq<usize>>
    decreases shapes.len(),
{
    if shapes.len() <= 1 {
        if shapes.len() == 1 { Some(shapes[0]) } else { Some(Seq::empty()) }
    } else {
        match common_shape(shapes.drop_last()) {
            None => None,
            Some(c) => spec_broadcast_shape(c, shapes.last()),
        }
    }
}

/// Broadcasting to a shape that broadcasts further reaches the further
/// shape.
pub proof fn lemma_broadcasts_to_trans(s: Seq<usize>, t: Seq<usize>, u: Seq<usize>)
    requires
        broadcasts_to(s, t),
        broadcasts_to(t, u),
    ensures
        broadcasts_to(s, u),
{
    assert forall|i: int| 0 <= i < s.len() && s[i] != 1 implies #[trigger] s[i] == u[i + u.len() - s.len()] by {
        let j = i + t.len() - s.len();
        assert(t[j] == s[i]);
    }
}

/// Both operands of a broadcast broadcast to its result.
pub proof fn lemma_operands_broadcast(a: Seq<usize>, b: Seq<usize>)
    requires
        spec_broadcast_shape(a, b) is Some,
    ensures
        broadcasts_to(a, spec_broadcast_shape(a, b)->Some_0),
        broadcasts_to(b, spec_broadcast_shape(a, b)->Some_0),
{
    let out = spec_broadcast_shape(a, b)->Some_0;
    lemma_operand_dims(a, b, out);
    lemma_broadcast_commutative(a, b);
    lemma_operand_dims(b, a, out);
}

/// Every shape of the list broadcasts to the common shape.
pub proof fn lemma_common_shape(shapes: Seq<Seq<usize>>, k: int)
    requires
        shapes.len() > 0,
        common_shape(shapes) is Some,
        0 <= k < shapes.len(),
    ensures
        broadcasts_to(shapes[k], common_shape(shapes)->Some_0),
    decreases shapes.len(),
{
    if shapes.len() == 1 {
        assert(broadcasts_to(shapes[0], shapes[0]));
    } else {
        let d = shapes.drop_last();
        let c = common_shape(d)->Some_0;
        lemma_operands_broadcast(c, shapes.last());
        if k < shapes.len() - 1 {
            lemma_common_shape(d, k);
            lemma_broadcasts_to_trans(shapes[k], c, common_shape(shapes)->Some_0);
        }
    }
}

/// `broadcast_arrays` on models: each array broadcast to the common shape;
/// an error when the shapes do not broadcast together.
pub open spec fn spec_broadcast_arrays<T>(arrs: Seq<NdArray<T>>) -> Result<Seq<NdModel<T>>, ArrayError> {
    if arrs.len() == 0 {
        Ok(Seq::empty())
    } else {
        match common_shape(shapes_of(arrs)) {
            None => Err(ArrayError::IncompatibleShapes),
            Some(c) => Ok(Seq::new(arrs.len(), |i: int| spec_broadcast_to(arrs[i]@, c)->Ok_0)),
        }
    }
}

/// The models of a vector of arrays.
pub open spec fn array_models<T>(v: Seq<NdArray<T>>) -> Seq<NdModel<T>> {
    Seq::new(v.len(), |i: int| v[i]@)
}

/// `broadcast_arrays(*arrays)`: all the arrays broadcast to their common
/// shape.
pub fn broadcast_arrays<T: Copy>(arrays: &[NdArray<T>]) -> (r: Result<Vec<NdArray<T>>, ArrayError>)
    requires
        forall|i: int| 0 <= i < arrays@.len() ==> nd_wf(#[trigger] arrays@[i]@),
        arrays@.len() > 0 && common_shape(shapes_of(arrays@)) is Some ==> partial_products_fit(
            common_shape(shapes_of(arrays@))->Some_0,
        ),
    ensures
        match r {
            Ok(v) => spec_broadcast_arrays(arrays@) == Ok::<Seq<NdModel<T>>, ArrayError>(array_models(v@)),
            Err(e) => spec_broadcast_arrays(arrays@) == Err::<Seq<NdModel<T>>, ArrayError>(e),
        },
{
    let ghost shapes = shapes_of(arrays@);
    let n = arrays.len();
    if n == 0 {
        let v: Vec<NdArray<T>> = Vec::new();
        assert(array_models(v@) =~= Seq::<NdModel<T>>::empty());
        return Ok(v);
    }
    let mut common = crate::nd::copy_vec(arrays[0].shape.as_slice());
    let mut k: usize = 1;
    assert(shapes.take(1) =~= seq![shapes[0]]);
    while k < n
        invariant
            1 <= k <= n,
            n == arrays@.len(),
            shapes == shapes_of(arrays@),
            common_shape(shapes.take(k as int)) == Some(common@),
        decreases n - k,
    {
        assert(shapes.take(k + 1).drop_last() =~= shapes.take(k as int));
        assert(shapes.take(k + 1).last() == arrays@[k as int]@.shape);
        match broadcast_shape(common.as_slice(), arrays[k].shape.as_slice()) {
            None => {
                proof {
                    lemma_common_none_extends(shapes, (k + 1) as int);
                }
                return Err(ArrayError::IncompatibleShapes);
            },
            Some(c) => {
                common = c;
            },
        }
        k = k + 1;
    }
    assert(shapes.take(n as int) =~= shapes);
    let mut out: Vec<NdArray<T>> = Vec::new();
    let mut i: usize = 0;
    while i < n
        invariant
            i <= n,
            n == arrays@.len(),
            shapes == shapes_of(arrays@),
            forall|j: int| 0 <= j < arrays@.len() ==> nd_wf(#[trigger] arrays@[j]@),
            common_shape(shapes) == Some(common@),
            partial_products_fit(common@),
            out@.len() == i,
            forall|j: int| 0 <= j < i ==> (#[trigger] out@[j])@ == spec_broadcast_to(arrays@[j]@, common@)->Ok_0,
        decreases n - i,
    {
        proof {
            lemma_common_shape(shapes, i as int);
        }
        assert(nd_wf(arrays@[i as int]@));
        match broadcast_to(&arrays[i], common.as_slice()) {
            Ok(b) => {
                out.push(b);
            },
            Err(_) => {
                assert(false);
                return Err(ArrayError::IncompatibleShapes);
            },
        }
        i = i + 1;
    }
    assert(array_models(out@) =~= spec_broadcast_arrays(arrays@)->Ok_0);
    Ok(out)
}

/// Once a prefix of the shapes fails to broadcast, so does every longer
/// prefix.
proof fn lemma_common_none_extends(shapes: Seq<Seq<usize>>, k: int)
    requires
        1 <= k <= shapes.len(),
        common_shape(shapes.take(k)) is None,
    ensures
        common_shape(shapes) is None,
    decreases shapes.len() - k,
{
    if k < shapes.len() {
        assert(shapes.take(k + 1).drop_last() =~= shapes.take(k));
        lemma_common_none_extends(shapes, k + 1);
    } else {
        assert(shapes.take(k) =~= shapes);
    }
}

/// `where` on models: over the shape the condition and the two operands
/// broadcast to, the element of `x` where the condition holds and of `y`
/// elsewhere.
pub open spec fn spec_where<T>(c: NdModel<bool>, x: NdModel<T>, y: NdModel<T>) -> Result<NdModel<T>, ArrayError> {
    match spec_broadcast_shape(c.shape, x.shape) {
        None => Err(ArrayError::IncompatibleShapes),
        Some(cx) => match spec_broadcast_shape(cx, y.shape) {
            None => Err(ArrayError::IncompatibleShapes),
            Some(out) => Ok(NdModel {
                shape: out,
                data: Seq::new(shape_product(out), |f: int| if c.data[broadcast_source(c.shape, out, f)] {
                    x.data[broadcast_source(x.shape, out, f)]
                } else {
                    y.data[broadcast_source(y.shape, out, f)]
                }),
            }),
        },
    }
}

/// The element of an operand read at flat position `f` of a shape it
/// broadcasts to.
pub(crate) fn read_broadcast<T: Copy>(a: &NdArray<T>, out: &[usize], f: usize) -> (v: T)
    requires
        nd_wf(a@),
        broadcasts_to(a.shape@, out@),
        f < shape_product(out@),
    ensures
        v == a.data@[broadcast_source(a.shape@, out@, f as int)],
{
    let na = a.data.len();
    let u = unflat_exec(out, f);
    proof {
        lemma_unflat_flat(out@, f as int);
    }
    let ia = broadcast_index_exec(a.shape.as_slice(), u.as_slice());
    proof {
        lemma_broadcast_index_in_bounds(a.shape@, out@, u@);
        lemma_flat_bound(a.shape@, ia@);
    }
    let fa = flat_exec(a.shape.as_slice(), ia.as_slice());
    a.data[fa]
}

/// `where(condition, x, y)`: elements of `x` where the condition holds and
/// of `y` elsewhere, all three broadcast together.
pub fn where_select<T: Copy>(c: &NdArray<bool>, x: &NdArray<T>, y: &NdArray<T>) -> (r: Result<NdArray<T>, ArrayError>)
    requires
        nd_wf(c@),
        nd_wf(x@),
        nd_wf(y@),
        spec_where(c@, x@, y@) matches Ok(m) ==> partial_products_fit(m.shape),
    ensures
        match r {
            Ok(v) => spec_where(c@, x@, y@) == Ok::<NdModel<T>, ArrayError>(v@) && nd_wf(v@),
            Err(e) => spec_where(c@, x@, y@) == Err::<NdModel<T>, ArrayError>(e),
        },
{
    let cx = match broadcast_shape(c.shape.as_slice(), x.shape.as_slice()) {
        None => return Err(ArrayError::IncompatibleShapes),
        Some(s) => s,
    };
    let out = match broadcast_shape(cx.as_slice(), y.shape.as_slice()) {
        None => return Err(ArrayError::IncompatibleShapes),
        Some(s) => s,
    };
    proof {
        lemma_operands_broadcast(c.shape@, x.shape@);
        lemma_operands_broadcast(cx@, y.shape@);
        lemma_broadcasts_to_trans(c.shape@, cx@, out@);
        lemma_broadcasts_to_trans(x.shape@, cx@, out@);
    }
    let n = element_count(out.as_slice());
    let mut data: Vec<T> = Vec::new();
    let mut f: usize = 0;
    while f < n
        invariant
            f <= n,
            n == shape_product(out@),
            nd_wf(c@),
            nd_wf(x@),
            nd_wf(y@),
            broadcasts_to(c.shape@, out@),
            broadcasts_to(x.shape@, out@),
            broadcasts_to(y.shape@, out@),
            data@.len() == f,
            forall|g: int| 0 <= g < f ==> #[trigger] data@[g] == if c.data@[broadcast_source(c.shape@, out@, g)] {
                x.data@[broadcast_source(x.shape@, out@, g)]
            } else {
                y.data@[broadcast_source(y.shape@, out@, g)]
            },
        decreases n - f,
    {
        let cond = read_broadcast(c, out.as_slice(), f);
        let v = if cond { read_broadcast(x, out.as_slice(), f) } else { read_broadcast(y, out.as_slice(), f) };
        data.push(v);
        f = f + 1;
    }
    let r = NdArray { shape: out, data };
    assert(r@.data =~= spec_where(c@, x@, y@)->Ok_0.data);
    Ok(r)
}

// ---------------------------------------------------------------------
// gcd and lcm of integer arrays
// ---------------------------------------------------------------------

/// An integer operation taken element by element.
#[derive(Clone, Copy, Debug, PartialEq, Eq, Structural)]
pub enum IntOp {
    /// The greatest common divisor of the magnitudes.
    Gcd,
    /// The least common multiple of the magnitudes, saturating at
    /// `i64::MAX`.
    Lcm,
    /// `a` shifted left by `b` bits, the count taken modulo 64 after
    /// truncation to `u32`, bits shifted out dropped.
    LeftShift,
    /// `a` shifted right (arithmetically) by `b` bits, the count taken
    /// modulo 64 after truncation to `u32`.
    RightShift,
    /// Bitwise and of the two's-complement bits.
    BitAnd,
    /// Bitwise or of the two's-complement bits.
    BitOr,
    /// Bitwise exclusive or of the two's-complement bits.
    BitXor,
}

/// The operation reads the magnitudes of its operands, which
/// `i64::MIN` has none of in `i64`.
pub open spec fn takes_magnitudes(op: IntOp) -> bool {
    op is Gcd || op is Lcm
}

/// The greatest common divisor of `|a|` and `|b|`.
pub open spec fn gcd_abs(a: int, b: int) -> int {
    gcd_of(abs(a), abs(b))
}

/// The value of an integer operation: for `Lcm`, 0 when either operand is
/// 0, else `|a| / gcd(|a|, |b|) * |b|`, saturated at `i64::MAX`.
pub open spec fn int_op_value(op: IntOp, a: int, b: int) -> int {
    match op {
        IntOp::Gcd => gcd_abs(a, b),
        IntOp::Lcm => if a == 0 || b == 0 {
            0
        } else {
            let m = (abs(a) / gcd_abs(a, b)) * abs(b);
            if m > i64::MAX { i64::MAX as int } else { m }
        },
        IntOp::LeftShift => (a as i64).wrapping_shl((b as i64) as u32) as int,
        IntOp::RightShift => (a as i64).wrapping_shr((b as i64) as u32) as int,
        IntOp::BitAnd => ((a as i64) & (b as i64)) as int,
        IntOp::BitOr => ((a as i64) | (b as i64)) as int,
        IntOp::BitXor => ((a as i64) ^ (b as i64)) as int,
    }
}

/// The operation on two arrays broadcast together.
pub open spec fn spec_int_op(a: NdModel<i64>, b: NdModel<i64>, op: IntOp) -> Result<NdModel<i64>, ArrayError> {
    match spec_broadcast_shape(a.shape, b.shape) {
        None => Err(ArrayError::IncompatibleShapes),
        Some(out) => Ok(NdModel {
            shape: out,
            data: Seq::new(shape_product(out), |f: int| int_op_value(
                op,
                a.data[broadcast_source(a.shape, out, f)] as int,
                b.data[broadcast_source(b.shape, out, f)] as int,
            ) as i64),
        }),
    }
}

/// No element is `i64::MIN` (whose magnitude does not fit).
pub open spec fn no_min(s: Seq<i64>) -> bool {
    forall|i: int| 0 <= i < s.len() ==> #[trigger] s[i] != i64::MIN
}

/// The operation on two values.
fn int_op_exec(op: IntOp, a: i64, b: i64) -> (r: i64)
    requires
        takes_magnitudes(op) ==> a != i64::MIN && b != i64::MIN,
    ensures
        r == int_op_value(op, a as int, b as int),
{
    match op {
        IntOp::LeftShift => a.wrapping_shl(b as u32),
        IntOp::RightShift => a.wrapping_shr(b as u32),
        IntOp::BitAnd => a & b,
        IntOp::BitOr => a | b,
        IntOp::BitXor => a ^ b,
        _ => {
            let x: i64 = if a < 0 { -a } else { a };
            let y: i64 = if b < 0 { -b } else { b };
            proof {
                lemma_gcd_of_nonneg(x as int, y as int);
            }
            let g = gcd_i64(x, y);
            if op == IntOp::Gcd {
                g
            } else if a == 0 || b == 0 {
                0
            } else {
                assert(g > 0) by {
                    if g == 0 {
                        assert(divides(g as int, x as int));
                    }
                }
                let q = x / g;
                // both factors are non-negative: an overflow saturates at the top
                match q.checked_mul(y) {
                    Some(m) => m,
                    None => i64::MAX,
                }
            }
        },
    }
}

/// An integer operation (`IntOp`) on two `i64` arrays,
/// element by element over their broadcast shape.
pub fn int_op(a: &NdArray<i64>, b: &NdArray<i64>, op: IntOp) -> (r: Result<NdArray<i64>, ArrayError>)
    requires
        nd_wf(a@),
        nd_wf(b@),
        takes_magnitudes(op) ==> no_min(a.data@),
        takes_magnitudes(op) ==> no_min(b.data@),
        spec_broadcast_shape(a.shape@, b.shape@) matches Some(out) ==> partial_products_fit(out),
    ensures
        match r {
            Ok(v) => spec_int_op(a@, b@, op) == Ok::<NdModel<i64>, ArrayError>(v@) && nd_wf(v@),
            Err(e) => spec_int_op(a@, b@, op) == Err::<NdModel<i64>, ArrayError>(e),
        },
{
    let out = match broadcast_shape(a.shape.as_slice(), b.shape.as_slice()) {
        None => return Err(ArrayError::IncompatibleShapes),
        Some(s) => s,
    };
    proof {
        lemma_operands_broadcast(a.shape@, b.shape@);
    }
    let n = element_count(out.as_slice());
    let mut data: Vec<i64> = Vec::new();
    let mut f: usize = 0;
    while f < n
        invariant
            f <= n,
            n == shape_product(out@),
            nd_wf(a@),
            nd_wf(b@),
            takes_magnitudes(op) ==> no_min(a.data@),
            takes_magnitudes(op) ==> no_min(b.data@),
            broadcasts_to(a.shape@, out@),
            broadcasts_to(b.shape@, out@),
            data@.len() == f,
            forall|g: int| 0 <= g < f ==> #[trigger] data@[g] == int_op_value(
                op,
                a.data@[broadcast_source(a.shape@, out@, g)] as int,
                b.data@[broadcast_source(b.shape@, out@, g)] as int,
            ) as i64,
        decreases n - f,
    {
        let x = read_broadcast(a, out.as_slice(), f);
        let y = read_broadcast(b, out.as_slice(), f);
        proof {
            lemma_source_in_data(a@, out@, f as int);
            lemma_source_in_data(b@, out@, f as int);
        }
        data.push(int_op_exec(op, x, y));
        f = f + 1;
    }
    let r = NdArray { shape: out, data };
    assert(r@.data =~= spec_int_op(a@, b@, op)->Ok_0.data);
    Ok(r)
}

/// `gcd(a, b)`: the greatest common divisor of the magnitudes, element by
/// element.
pub fn gcd(a: &NdArray<i64>, b: &NdArray<i64>) -> (r: Result<NdArray<i64>, ArrayError>)
    requires
        nd_wf(a@),
        nd_wf(b@),
        no_min(a.data@),
        no_min(b.data@),
        spec_broadcast_shape(a.shape@, b.shape@) matches Some(out) ==> partial_products_fit(out),
    ensures
        match r {
            Ok(v) => spec_int_op(a@, b@, IntOp::Gcd) == Ok::<NdModel<i64>, ArrayError>(v@) && nd_wf(v@),
            Err(e) => spec_int_op(a@, b@, IntOp::Gcd) == Err::<NdModel<i64>, ArrayError>(e),
        },
{
    int_op(a, b, IntOp::Gcd)
}

/// `lcm(a, b)`: the least common multiple of the magnitudes (saturating),
/// element by element.
pub fn lcm(a: &NdArray<i64>, b: &NdArray<i64>) -> (r: Result<NdArray<i64>, ArrayError>)
    requires
        nd_wf(a@),
        nd_wf(b@),
        no_min(a.data@),
        no_min(b.data@),
        spec_broadcast_shape(a.shape@, b.shape@) matches Some(out) ==> partial_products_fit(out),
    ensures
        match r {
            Ok(v) => spec_int_op(a@, b@, IntOp::Lcm) == Ok::<NdModel<i64>, ArrayError>(v@) && nd_wf(v@),
            Err(e) => spec_int_op(a@, b@, IntOp::Lcm) == Err::<NdModel<i64>, ArrayError>(e),
        },
{
    int_op(a, b, IntOp::Lcm)
}

/// `left_shift(a, b)`: each element of `a` shifted left by the matching
/// element of `b`, over the broadcast shape.
pub fn left_shift(a: &NdArray<i64>, b: &NdArray<i64>) -> (r: Result<NdArray<i64>, ArrayError>)
    requires
        nd_wf(a@),
        nd_wf(b@),
        spec_broadcast_shape(a.shape@, b.shape@) matches Some(out) ==> partial_products_fit(out),
    ensures
        match r {
            Ok(v) => spec_int_op(a@, b@, IntOp::LeftShift) == Ok::<NdModel<i64>, ArrayError>(v@) && nd_wf(v@),
            Err(e) => spec_int_op(a@, b@, IntOp::LeftShift) == Err::<NdModel<i64>, ArrayError>(e),
        },
{
    int_op(a, b, IntOp::LeftShift)
}

/// `right_shift(a, b)`: each element of `a` shifted right (keeping its
/// sign) by the matching element of `b`, over the broadcast shape.
pub fn right_shift(a: &NdArray<i64>, b: &NdArray<i64>) -> (r: Result<NdArray<i64>, ArrayError>)
    requires
        nd_wf(a@),
        nd_wf(b@),
        spec_broadcast_shape(a.shape@, b.shape@) matches Some(out) ==> partial_products_fit(out),
    ensures
        match r {
            Ok(v) => spec_int_op(a@, b@, IntOp::RightShift) == Ok::<NdModel<i64>, ArrayError>(v@) && nd_wf(v@),
            Err(e) => spec_int_op(a@, b@, IntOp::RightShift) == Err::<NdModel<i64>, ArrayError>(e),
        },
{
    int_op(a, b, IntOp::RightShift)
}

/// `bitwise_and(a, b)`: the bitwise and of the elements of `a` and `b`, over the broadcast
/// shape.
pub fn bitwise_and(a: &NdArray<i64>, b: &NdArray<i64>) -> (r: Result<NdArray<i64>, ArrayError>)
    requires
        nd_wf(a@),
        nd_wf(b@),
        spec_broadcast_shape(a.shape@, b.shape@) matches Some(out) ==> partial_products_fit(out),
    ensures
        match r {
            Ok(v) => spec_int_op(a@, b@, IntOp::BitAnd) == Ok::<NdModel<i64>, ArrayError>(v@) && nd_wf(v@),
            Err(e) => spec_int_op(a@, b@, IntOp::BitAnd) == Err::<NdModel<i64>, ArrayError>(e),
        },
{
    int_op(a, b, IntOp::BitAnd)
}

/// `bitwise_or(a, b)`: the bitwise or of the elements of `a` and `b`, over the broadcast
/// shape.
pub fn bitwise_or(a: &NdArray<i64>, b: &NdArray<i64>) -> (r: Result<NdArray<i64>, ArrayError>)
    requires
        nd_wf(a@),
        nd_wf(b@),
        spec_broadcast_shape(a.shape@, b.shape@) matches Some(out) ==> partial_products_fit(out),
    ensures
        match r {
            Ok(v) => spec_int_op(a@, b@, IntOp::BitOr) == Ok::<NdModel<i64>, ArrayError>(v@) && nd_wf(v@),
            Err(e) => spec_int_op(a@, b@, IntOp::BitOr) == Err::<NdModel<i64>, ArrayError>(e),
        },
{
    int_op(a, b, IntOp::BitOr)
}

/// `bitwise_xor(a, b)`: the bitwise exclusive or of the elements of `a` and `b`, over the broadcast
/// shape.
pub fn bitwise_xor(a: &NdArray<i64>, b: &NdArray<i64>) -> (r: Result<NdArray<i64>, ArrayError>)
    requires
        nd_wf(a@),
        nd_wf(b@),
        spec_broadcast_shape(a.shape@, b.shape@) matches Some(out) ==> partial_products_fit(out),
    ensures
        match r {
            Ok(v) => spec_int_op(a@, b@, IntOp::BitXor) == Ok::<NdModel<i64>, ArrayError>(v@) && nd_wf(v@),
            Err(e) => spec_int_op(a@, b@, IntOp::BitXor) == Err::<NdModel<i64>, ArrayError>(e),
        },
{
    int_op(a, b, IntOp::BitXor)
}

/// `invert(a)` (`bitwise_not`): each element with every bit flipped,
/// which in two's complement is `-1 - x`.
pub fn invert(a: &NdArray<i64>) -> (r: NdArray<i64>)
    ensures
        r@.shape == a@.shape,
        r@.data == Seq::new(a@.data.len(), |i: int| (-1 - a@.data[i]) as i64),
{
    let n = a.data.len();
    let mut data: Vec<i64> = Vec::new();
    let mut i: usize = 0;
    while i < n
        invariant
            i <= n,
            n == a.data@.len(),
            data@.len() == i,
            forall|j: int| 0 <= j < i ==> #[trigger] data@[j] == -1 - a.data@[j],
        decreases n - i,
    {
        let x: i64 = a.data[i];
        data.push(-1 - x);
        i = i + 1;
    }
    let r = NdArray { shape: crate::nd::copy_vec(a.shape.as_slice()), data };
    assert(r@.data =~= Seq::new(a@.data.len(), |i: int| (-1 - a@.data[i]) as i64));
    r
}

/// Flipping every bit of a two's-complement `i64` gives `-1 - x`.
pub proof fn lemma_invert_flips_bits(x: i64)
    ensures
        !x == -1 - x,
{
    assert(!x == -1 - x) by (bit_vector);
}

/// The element an operand's broadcast source reads lies in its data.
pub(crate) proof fn lemma_source_in_data<T>(a: NdModel<T>, out: Seq<usize>, f: int)
    requires
        nd_wf(a),
        broadcasts_to(a.shape, out),
        0 <= f < shape_product(out),
    ensures
        0 <= broadcast_source(a.shape, out, f) < a.data.len(),
{
    lemma_unflat_flat(out, f);
    lemma_broadcast_index_in_bounds(a.shape, out, unflat_index(out, f));
    lemma_flat_bound(a.shape, crate::nd::broadcast_index(a.shape, unflat_index(out, f)));
}

/// Where it does not saturate, the `lcm` of two non-zero values is a
/// common multiple of both magnitudes.
pub proof fn lemma_lcm_common_multiple(a: i64, b: i64)
    requires
        a != i64::MIN,
        b != i64::MIN,
        a != 0,
        b != 0,
        (abs(a as int) / gcd_abs(a as int, b as int)) * abs(b as int) <= i64::MAX,
    ensures
        divides(abs(a as int), int_op_value(IntOp::Lcm, a as int, b as int)),
        divides(abs(b as int), int_op_value(IntOp::Lcm, a as int, b as int)),
{
    let x = abs(a as int);
    let y = abs(b as int);
    lemma_gcd_of_nonneg(x, y);
    let g = gcd_abs(a as int, b as int);
    assert(g > 0) by {
        if g == 0 {
            assert(divides(g, x));
        }
    }
    let q = x / g;
    let r = y / g;
    vstd::arithmetic::div_mod::lemma_fundamental_div_mod(x, g);
    vstd::arithmetic::div_mod::lemma_fundamental_div_mod(y, g);
    assert(x == g * q);
    assert(y == g * r);
    let m = q * y;
    assert(m == x * r) by (nonlinear_arith)
        requires
            x == g * q,
            y == g * r,
            m == q * y,
    ;
    vstd::arithmetic::div_mod::lemma_mod_multiples_basic(r, x);
    vstd::arithmetic::div_mod::lemma_mod_multiples_basic(q, y);
    assert(x * r == r * x) by (nonlinear_arith);
    assert(q * y == m);
}

// ---------------------------------------------------------------------
// array_equiv
// ---------------------------------------------------------------------

/// `array_equiv` on models: the shapes broadcast together and the
/// broadcast arrays agree everywhere.
pub open spec fn spec_array_equiv(a: NdModel<i64>, b: NdModel<i64>) -> bool {
    &&& spec_broadcast_shape(a.shape, b.shape) is Some
    &&& agree_everywhere(a, b, spec_broadcast_shape(a.shape, b.shape)->Some_0)
}

/// The broadcast arrays agree at every position of shape `out`.
pub open spec fn agree_everywhere(a: NdModel<i64>, b: NdModel<i64>, out: Seq<usize>) -> bool {
    forall|f: int| 0 <= f < shape_product(out) ==> #[trigger] agree_at(a, b, out, f)
}

/// The broadcast arrays agree at position `f` of shape `out`.
pub open spec fn agree_at(a: NdModel<i64>, b: NdModel<i64>, out: Seq<usize>, f: int) -> bool {
    a.data[broadcast_source(a.shape, out, f)] == b.data[broadcast_source(b.shape, out, f)]
}

proof fn lemma_not_equiv(a: NdModel<i64>, b: NdModel<i64>, out: Seq<usize>, f: int)
    requires
        spec_broadcast_shape(a.shape, b.shape) == Some(out),
        0 <= f < shape_product(out),
        !agree_at(a, b, out, f),
    ensures
        !spec_array_equiv(a, b),
{
}

/// `array_equiv(a, b)`: whether the arrays are equal once broadcast
/// together (false when they do not broadcast).
pub fn array_equiv(a: &NdArray<i64>, b: &NdArray<i64>) -> (r: bool)
    requires
        nd_wf(a@),
        nd_wf(b@),
        spec_broadcast_shape(a.shape@, b.shape@) matches Some(out) ==> partial_products_fit(out),
    ensures
        r == spec_array_equiv(a@, b@),
{
    let out = match broadcast_shape(a.shape.as_slice(), b.shape.as_slice()) {
        None => return false,
        Some(s) => s,
    };
    proof {
        lemma_operands_broadcast(a.shape@, b.shape@);
    }
    let n = element_count(out.as_slice());
    let mut f: usize = 0;
    while f < n
        invariant
            f <= n,
            n == shape_product(out@),
            nd_wf(a@),
            nd_wf(b@),
            spec_broadcast_shape(a.shape@, b.shape@) == Some(out@),
            broadcasts_to(a.shape@, out@),
            broadcasts_to(b.shape@, out@),
            forall|g: int| 0 <= g < f ==> #[trigger] agree_at(a@, b@, out@, g),
        decreases n - f,
    {
        let x = read_broadcast(a, out.as_slice(), f);
        let y = read_broadcast(b, out.as_slice(), f);
        if x != y {
            assert(!agree_at(a@, b@, out@, f as int));
            proof {
                lemma_not_equiv(a@, b@, out@, f as int);
            }
            return false;
        }
        f = f + 1;
    }
    true
}

} // verus!
