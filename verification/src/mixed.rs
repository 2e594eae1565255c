//! Integer operations on operands of different integer dtypes: the dtypes
//! are promoted as `numpy.result_type` does, and each operand is cast to the
//! promoted dtype before the operation. Elements are held as exact `i128`
//! values, and a promoted integer dtype holds every value of both operands,
//! so the cast leaves each element as it is.
use vstd::prelude::*;

use crate::arith::ArithOp;
use crate::broadcast::{lemma_operands_broadcast, read_broadcast};
use crate::dtype::DType;
use crate::nd::{
    broadcast_shape, broadcast_source, models, nd_wf, partial_products_fit, spec_broadcast_shape, spec_concatenate,
    ArrayError, NdArray, NdModel,
};
use crate::npy::{element_count, shape_product};
use crate::promote::{promote, promote_many, spec_promote, spec_promote_many};
use crate::tiling::broadcasts_to;
use crate::nd::lemma_product_small;
use crate::widths::{
    arith_at, cast_at, fixed_int, hi, in_range, lemma_wrap_in_range, lemma_wrap_range, lo, modulus, pairs_defined_at,
    power_at, spec_arith_at, spec_power_at, value_exec, wrap,
};

verus! {

/// The promoted dtype of two integer dtypes is an integer dtype, or float64
/// (for a 64-bit unsigned operand meeting a signed one); an integer result
/// holds every value of both operands.
pub proof fn lemma_promote_ints(x: DType, y: DType)
    requires
        fixed_int(x),
        fixed_int(y),
    ensures
        fixed_int(spec_promote(x, y)) || spec_promote(x, y) == DType::F64,
        fixed_int(spec_promote(x, y)) ==> {
            let t = spec_promote(x, y);
            lo(t) <= lo(x) && hi(x) <= hi(t) && lo(t) <= lo(y) && hi(y) <= hi(t)
        },
{
    match x {
        DType::I8 => {},
        DType::I16 => {},
        DType::I32 => {},
        DType::I64 => {},
        DType::U8 => {},
        DType::U16 => {},
        DType::U32 => {},
        _ => {},
    }
}

/// Why an operation on integer dtypes gave no array.
#[derive(Clone, Copy, Debug, PartialEq, Eq, Structural)]
pub enum MixedError {
    /// The dtypes promote to this dtype, which is not an integer dtype.
    NotInteger(DType),
    /// The operation refused the operands.
    Array(ArrayError),
}

/// Left-folded promotion of integer dtypes: an integer dtype that holds
/// every value of each of them, or float64.
pub proof fn lemma_promote_many_ints(ts: Seq<DType>)
    requires
        ts.len() > 0,
        forall|i: int| 0 <= i < ts.len() ==> fixed_int(#[trigger] ts[i]),
    ensures
        fixed_int(spec_promote_many(ts)) || spec_promote_many(ts) == DType::F64,
        fixed_int(spec_promote_many(ts)) ==> forall|i: int|
            0 <= i < ts.len() ==> lo(spec_promote_many(ts)) <= lo(#[trigger] ts[i]) && hi(ts[i]) <= hi(
                spec_promote_many(ts),
            ),
    decreases ts.len(),
{
    if ts.len() > 1 {
        let init = ts.drop_last();
        assert forall|i: int| 0 <= i < init.len() implies fixed_int(#[trigger] init[i]) by {
            assert(init[i] == ts[i]);
        }
        lemma_promote_many_ints(init);
        let p = spec_promote_many(init);
        if fixed_int(p) {
            lemma_promote_ints(p, ts.last());
            let t = spec_promote_many(ts);
            if fixed_int(t) {
                assert forall|i: int| 0 <= i < ts.len() implies lo(t) <= lo(#[trigger] ts[i]) && hi(ts[i]) <= hi(t) by {
                    if i < ts.len() - 1 {
                        assert(init[i] == ts[i]);
                    }
                }
            }
        }
    }
}

/// Values of an integer dtype lie within the range of `int64` or of
/// `uint64`.
proof fn lemma_in_wide_range(d: DType, s: Seq<i128>)
    requires
        fixed_int(d),
        in_range(d, s),
    ensures
        in_range(DType::U64, s) || in_range(DType::I64, s),
{
    if d.spec_is_signed_int() {
        assert forall|i: int| 0 <= i < s.len() implies lo(DType::I64) <= #[trigger] s[i] <= hi(DType::I64) by {
            assert(lo(d) <= s[i] <= hi(d));
        }
    } else {
        assert forall|i: int| 0 <= i < s.len() implies lo(DType::U64) <= #[trigger] s[i] <= hi(DType::U64) by {
            assert(lo(d) <= s[i] <= hi(d));
        }
    }
}

/// `a.astype(t)` for a dtype `t` that holds every value of `d`: the cast
/// leaves each element as it is.
fn cast_widening(d: DType, t: DType, a: &NdArray<i128>) -> (r: NdArray<i128>)
    requires
        fixed_int(d),
        fixed_int(t),
        lo(t) <= lo(d),
        hi(d) <= hi(t),
        in_range(d, a.data@),
    ensures
        r@ == a@,
        in_range(t, r.data@),
{
    proof {
        lemma_in_wide_range(d, a.data@);
    }
    let r = cast_at(t, a);
    assert forall|i: int| 0 <= i < a.data@.len() implies r.data@[i] == a.data@[i] by {
        assert(lo(d) <= a.data@[i] <= hi(d));
        lemma_wrap_in_range(t, a.data@[i] as int);
    }
    assert(r.data@ =~= a.data@);
    r
}

/// `add`, `subtract`, `multiply`, `floor_divide` or `remainder` of arrays
/// of integer dtypes `da` and `db`: both are cast to the promoted dtype and
/// combined at its width; refused when the dtypes promote to float64.
pub fn binary_op(da: DType, a: &NdArray<i128>, db: DType, b: &NdArray<i128>, op: ArithOp) -> (r: Result<
    (DType, NdArray<i128>),
    MixedError,
>)
    requires
        fixed_int(da),
        fixed_int(db),
        nd_wf(a@),
        nd_wf(b@),
        in_range(da, a.data@),
        in_range(db, b.data@),
        fixed_int(spec_promote(da, db)) ==> pairs_defined_at(spec_promote(da, db), a@, b@, op),
        spec_broadcast_shape(a.shape@, b.shape@) matches Some(out) ==> partial_products_fit(out),
    ensures
        match r {
            Ok((t, v)) => t == spec_promote(da, db) && fixed_int(t) && spec_arith_at(t, a@, b@, op) == Ok::<
                NdModel<i128>,
                ArrayError,
            >(v@) && nd_wf(v@) && in_range(t, v.data@),
            Err(MixedError::NotInteger(t)) => t == spec_promote(da, db) && !fixed_int(t),
            Err(MixedError::Array(e)) => fixed_int(spec_promote(da, db)) && spec_arith_at(
                spec_promote(da, db),
                a@,
                b@,
                op,
            ) == Err::<NdModel<i128>, ArrayError>(e),
        },
{
    let t = promote(da, db);
    proof {
        lemma_promote_ints(da, db);
    }
    if !t.is_integer() || t == DType::Bool {
        return Err(MixedError::NotInteger(t));
    }
    let ca = cast_widening(da, t, a);
    let cb = cast_widening(db, t, b);
    match arith_at(t, &ca, &cb, op) {
        Ok(v) => Ok((t, v)),
        Err(e) => Err(MixedError::Array(e)),
    }
}

/// `power` of arrays of integer dtypes `da` and `db`, at the width of the
/// promoted dtype; refused when the dtypes promote to float64.
pub fn power(da: DType, a: &NdArray<i128>, db: DType, b: &NdArray<i128>) -> (r: Result<(DType, NdArray<i128>), MixedError>)
    requires
        fixed_int(da),
        fixed_int(db),
        nd_wf(a@),
        nd_wf(b@),
        in_range(da, a.data@),
        in_range(db, b.data@),
        spec_broadcast_shape(a.shape@, b.shape@) matches Some(out) ==> partial_products_fit(out),
    ensures
        match r {
            Ok((t, v)) => t == spec_promote(da, db) && fixed_int(t) && spec_power_at(t, a@, b@) == Ok::<
                NdModel<i128>,
                ArrayError,
            >(v@) && nd_wf(v@) && in_range(t, v.data@),
            Err(MixedError::NotInteger(t)) => t == spec_promote(da, db) && !fixed_int(t),
            Err(MixedError::Array(e)) => fixed_int(spec_promote(da, db)) && spec_power_at(
                spec_promote(da, db),
                a@,
                b@,
            ) == Err::<NdModel<i128>, ArrayError>(e),
        },
{
    let t = promote(da, db);
    proof {
        lemma_promote_ints(da, db);
    }
    if !t.is_integer() || t == DType::Bool {
        return Err(MixedError::NotInteger(t));
    }
    let ca = cast_widening(da, t, a);
    let cb = cast_widening(db, t, b);
    match power_at(t, &ca, &cb) {
        Ok(v) => Ok((t, v)),
        Err(e) => Err(MixedError::Array(e)),
    }
}

/// The larger (`take_max`) or the smaller of two values.
pub open spec fn pick(take_max: bool, x: i128, y: i128) -> i128 {
    if take_max {
        if x >= y { x } else { y }
    } else {
        if x <= y { x } else { y }
    }
}

/// `maximum` or `minimum` of two arrays broadcast together, element by
/// element.
pub open spec fn spec_extreme(a: NdModel<i128>, b: NdModel<i128>, take_max: bool) -> Result<NdModel<i128>, ArrayError> {
    match spec_broadcast_shape(a.shape, b.shape) {
        None => Err(ArrayError::IncompatibleShapes),
        Some(out) => Ok(NdModel {
            shape: out,
            data: Seq::new(shape_product(out), |f: int| pick(
                take_max,
                a.data[broadcast_source(a.shape, out, f)],
                b.data[broadcast_source(b.shape, out, f)],
            )),
        }),
    }
}

fn extreme(t: DType, a: &NdArray<i128>, b: &NdArray<i128>, take_max: bool) -> (r: Result<NdArray<i128>, ArrayError>)
    requires
        nd_wf(a@),
        nd_wf(b@),
        in_range(t, a.data@),
        in_range(t, b.data@),
        spec_broadcast_shape(a.shape@, b.shape@) matches Some(out) ==> partial_products_fit(out),
    ensures
        match r {
            Ok(v) => spec_extreme(a@, b@, take_max) == Ok::<NdModel<i128>, ArrayError>(v@) && nd_wf(v@) && in_range(
                t,
                v.data@,
            ),
            Err(e) => spec_extreme(a@, b@, take_max) == Err::<NdModel<i128>, ArrayError>(e),
        },
{
    let out = match broadcast_shape(a.shape.as_slice(), b.shape.as_slice()) {
        None => return Err(ArrayError::IncompatibleShapes),
        Some(s) => s,
    };
    proof {
        lemma_operands_broadcast(a.shape@, b.shape@);
    }
    let n = element_count(out.as_slice());
    let mut data: Vec<i128> = Vec::new();
    let mut f: usize = 0;
    while f < n
        invariant
            f <= n,
            n == shape_product(out@),
            nd_wf(a@),
            nd_wf(b@),
            in_range(t, a.data@),
            in_range(t, b.data@),
            spec_broadcast_shape(a.shape@, b.shape@) == Some(out@),
            broadcasts_to(a.shape@, out@),
            broadcasts_to(b.shape@, out@),
            data@.len() == f,
            in_range(t, data@),
            forall|g: int| 0 <= g < f ==> #[trigger] data@[g] == pick(
                take_max,
                a.data@[broadcast_source(a.shape@, out@, g)],
                b.data@[broadcast_source(b.shape@, out@, g)],
            ),
        decreases n - f,
    {
        let x = read_broadcast(a, out.as_slice(), f);
        let y = read_broadcast(b, out.as_slice(), f);
        proof {
            crate::broadcast::lemma_source_in_data(a@, out@, f as int);
            crate::broadcast::lemma_source_in_data(b@, out@, f as int);
        }
        let v = if take_max {
            if x >= y { x } else { y }
        } else {
            if x <= y { x } else { y }
        };
        data.push(v);
        f = f + 1;
    }
    let r = NdArray { shape: out, data };
    assert(r@.data =~= spec_extreme(a@, b@, take_max)->Ok_0.data);
    Ok(r)
}

/// `maximum` (`take_max`) or `minimum` of arrays of integer dtypes `da` and
/// `db`, compared exactly after both are cast to the promoted dtype.
fn extreme_mixed(da: DType, a: &NdArray<i128>, db: DType, b: &NdArray<i128>, take_max: bool) -> (r: Result<
    (DType, NdArray<i128>),
    MixedError,
>)
    requires
        fixed_int(da),
        fixed_int(db),
        nd_wf(a@),
        nd_wf(b@),
        in_range(da, a.data@),
        in_range(db, b.data@),
        spec_broadcast_shape(a.shape@, b.shape@) matches Some(out) ==> partial_products_fit(out),
    ensures
        match r {
            Ok((t, v)) => t == spec_promote(da, db) && fixed_int(t) && spec_extreme(a@, b@, take_max) == Ok::<
                NdModel<i128>,
                ArrayError,
            >(v@) && nd_wf(v@) && in_range(t, v.data@),
            Err(MixedError::NotInteger(t)) => t == spec_promote(da, db) && !fixed_int(t),
            Err(MixedError::Array(e)) => fixed_int(spec_promote(da, db)) && spec_extreme(a@, b@, take_max) == Err::<
                NdModel<i128>,
                ArrayError,
            >(e),
        },
{
    let t = promote(da, db);
    proof {
        lemma_promote_ints(da, db);
    }
    if !t.is_integer() || t == DType::Bool {
        return Err(MixedError::NotInteger(t));
    }
    let ca = cast_widening(da, t, a);
    let cb = cast_widening(db, t, b);
    match extreme(t, &ca, &cb, take_max) {
        Ok(v) => Ok((t, v)),
        Err(e) => Err(MixedError::Array(e)),
    }
}

/// `numpy.maximum` of arrays of integer dtypes `da` and `db`.
pub fn elem_max(da: DType, a: &NdArray<i128>, db: DType, b: &NdArray<i128>) -> (r: Result<(DType, NdArray<i128>), MixedError>)
    requires
        fixed_int(da),
        fixed_int(db),
        nd_wf(a@),
        nd_wf(b@),
        in_range(da, a.data@),
        in_range(db, b.data@),
        spec_broadcast_shape(a.shape@, b.shape@) matches Some(out) ==> partial_products_fit(out),
    ensures
        match r {
            Ok((t, v)) => t == spec_promote(da, db) && fixed_int(t) && spec_extreme(a@, b@, true) == Ok::<
                NdModel<i128>,
                ArrayError,
            >(v@) && nd_wf(v@) && in_range(t, v.data@),
            Err(MixedError::NotInteger(t)) => t == spec_promote(da, db) && !fixed_int(t),
            Err(MixedError::Array(e)) => fixed_int(spec_promote(da, db)) && spec_extreme(a@, b@, true) == Err::<
                NdModel<i128>,
                ArrayError,
            >(e),
        },
{
    extreme_mixed(da, a, db, b, true)
}

/// `numpy.minimum` of arrays of integer dtypes `da` and `db`.
pub fn elem_min(da: DType, a: &NdArray<i128>, db: DType, b: &NdArray<i128>) -> (r: Result<(DType, NdArray<i128>), MixedError>)
    requires
        fixed_int(da),
        fixed_int(db),
        nd_wf(a@),
        nd_wf(b@),
        in_range(da, a.data@),
        in_range(db, b.data@),
        spec_broadcast_shape(a.shape@, b.shape@) matches Some(out) ==> partial_products_fit(out),
    ensures
        match r {
            Ok((t, v)) => t == spec_promote(da, db) && fixed_int(t) && spec_extreme(a@, b@, false) == Ok::<
                NdModel<i128>,
                ArrayError,
            >(v@) && nd_wf(v@) && in_range(t, v.data@),
            Err(MixedError::NotInteger(t)) => t == spec_promote(da, db) && !fixed_int(t),
            Err(MixedError::Array(e)) => fixed_int(spec_promote(da, db)) && spec_extreme(a@, b@, false) == Err::<
                NdModel<i128>,
                ArrayError,
            >(e),
        },
{
    extreme_mixed(da, a, db, b, false)
}

/// `concatenate` of arrays of integer dtypes: the dtypes promoted left to
/// right, each array cast to the promoted dtype, then joined along `axis`;
/// refused when no array is given or the dtypes promote to float64.
pub fn concatenate(dtypes: &[DType], arrays: &[NdArray<i128>], axis: usize) -> (r: Result<(DType, NdArray<i128>), MixedError>)
    requires
        dtypes@.len() == arrays@.len(),
        forall|i: int| 0 <= i < dtypes@.len() ==> fixed_int(#[trigger] dtypes@[i]),
        forall|i: int| 0 <= i < arrays@.len() ==> in_range(dtypes@[i], #[trigger] arrays@[i].data@),
        forall|i: int| 0 <= i < arrays@.len() ==> nd_wf(#[trigger] arrays@[i]@),
        arrays@.len() > 0 ==> partial_products_fit(arrays@[0].shape@),
        arrays@.len() > 0 && axis < arrays@[0].shape@.len() ==> partial_products_fit(arrays@[0].shape@.skip(axis + 1)),
        spec_concatenate(models(arrays@), axis as int) matches Ok(m) ==> (partial_products_fit(m.shape)
            && crate::nd::axis_sum(models(arrays@), axis as int, arrays@.len()) <= usize::MAX),
    ensures
        match r {
            Ok((t, v)) => arrays@.len() > 0 && t == spec_promote_many(dtypes@) && fixed_int(t) && spec_concatenate(
                models(arrays@),
                axis as int,
            ) == Ok::<NdModel<i128>, ArrayError>(v@) && nd_wf(v@),
            Err(MixedError::NotInteger(t)) => arrays@.len() > 0 && t == spec_promote_many(dtypes@) && !fixed_int(t),
            Err(MixedError::Array(e)) => (arrays@.len() == 0 || fixed_int(spec_promote_many(dtypes@)))
                && spec_concatenate(models(arrays@), axis as int) == Err::<NdModel<i128>, ArrayError>(e),
        },
{
    let count = arrays.len();
    if count == 0 {
        return Err(MixedError::Array(ArrayError::NoArrays));
    }
    let t = promote_many(dtypes);
    proof {
        lemma_promote_many_ints(dtypes@);
    }
    if !t.is_integer() || t == DType::Bool {
        return Err(MixedError::NotInteger(t));
    }
    let mut cast: Vec<NdArray<i128>> = Vec::new();
    let mut i: usize = 0;
    while i < count
        invariant
            i <= count,
            count == arrays@.len(),
            dtypes@.len() == count,
            fixed_int(t),
            t == spec_promote_many(dtypes@),
            forall|j: int| 0 <= j < count ==> fixed_int(#[trigger] dtypes@[j]),
            forall|j: int| 0 <= j < count ==> in_range(dtypes@[j], #[trigger] arrays@[j].data@),
            forall|j: int| 0 <= j < count ==> lo(t) <= lo(#[trigger] dtypes@[j]) && hi(dtypes@[j]) <= hi(t),
            cast@.len() == i,
            forall|j: int| 0 <= j < i ==> #[trigger] cast@[j]@ == arrays@[j]@,
        decreases count - i,
    {
        let c = cast_widening(dtypes[i], t, &arrays[i]);
        cast.push(c);
        i = i + 1;
    }
    assert(models(cast@) =~= models(arrays@));
    assert(cast@[0]@ == arrays@[0]@);
    assert forall|j: int| 0 <= j < cast@.len() implies nd_wf(#[trigger] cast@[j]@) by {
        assert(cast@[j]@ == arrays@[j]@);
    }
    match crate::nd::concatenate(cast.as_slice(), axis) {
        Ok(v) => Ok((t, v)),
        Err(e) => Err(MixedError::Array(e)),
    }
}

/// `sum_{p < k} a[ao + p * ast] * b[bo + p * bst]`, exactly.
pub open spec fn strided_sum(a: Seq<i128>, b: Seq<i128>, ao: int, ast: int, bo: int, bst: int, k: nat) -> int
    decreases k,
{
    if k == 0 {
        0
    } else {
        strided_sum(a, b, ao, ast, bo, bst, (k - 1) as nat) + a[ao + (k - 1) * ast] * b[bo + (k - 1) * bst]
    }
}

/// `dot` at the width of the integer dtype `t`: a 0-d sum of products for
/// two vectors, the matrix product for two matrices, and the matrix-vector
/// and vector-matrix products; every sum wraps to the width of `t`. The
/// inner extents must agree, and other ranks are refused.
pub open spec fn spec_dot_at(t: DType, a: NdModel<i128>, b: NdModel<i128>) -> Result<NdModel<i128>, ArrayError> {
    let ra = a.shape.len();
    let rb = b.shape.len();
    if ra == 1 && rb == 1 {
        if a.shape[0] != b.shape[0] {
            Err(ArrayError::IncompatibleShapes)
        } else {
            Ok(NdModel {
                shape: Seq::empty(),
                data: seq![wrap(t, strided_sum(a.data, b.data, 0, 1, 0, 1, a.shape[0] as nat)) as i128],
            })
        }
    } else if ra == 2 && rb == 2 {
        let m = a.shape[0] as int;
        let k = a.shape[1] as int;
        let n = b.shape[1] as int;
        if a.shape[1] != b.shape[0] {
            Err(ArrayError::IncompatibleShapes)
        } else {
            Ok(NdModel {
                shape: seq![a.shape[0], b.shape[1]],
                data: Seq::new((m * n) as nat, |f: int| wrap(
                    t,
                    strided_sum(a.data, b.data, (f / n) * k, 1, f % n, n, k as nat),
                ) as i128),
            })
        }
    } else if ra == 2 && rb == 1 {
        let n = a.shape[1] as int;
        if a.shape[1] != b.shape[0] {
            Err(ArrayError::IncompatibleShapes)
        } else {
            Ok(NdModel {
                shape: seq![a.shape[0]],
                data: Seq::new(a.shape[0] as nat, |i: int| wrap(t, strided_sum(a.data, b.data, i * n, 1, 0, 1, n as nat))
                    as i128),
            })
        }
    } else if ra == 1 && rb == 2 {
        let k = a.shape[0] as int;
        let n = b.shape[1] as int;
        if a.shape[0] != b.shape[0] {
            Err(ArrayError::IncompatibleShapes)
        } else {
            Ok(NdModel {
                shape: seq![b.shape[1]],
                data: Seq::new(b.shape[1] as nat, |j: int| wrap(t, strided_sum(a.data, b.data, 0, 1, j, n, k as nat))
                    as i128),
            })
        }
    } else {
        Err(ArrayError::NotVectorOrMatrix)
    }
}

/// Wrapping the parts of a sum first wraps to the same value.
proof fn lemma_wrap_add(d: DType, s: int, u: int)
    ensures
        wrap(d, wrap(d, s) + wrap(d, u)) == wrap(d, s + u),
{
    let m = modulus(d);
    lemma_wrap_mod(d, s);
    lemma_wrap_mod(d, u);
    vstd::arithmetic::div_mod::lemma_add_mod_noop(wrap(d, s), wrap(d, u), m);
    vstd::arithmetic::div_mod::lemma_add_mod_noop(s, u, m);
}

/// A wrapped value is congruent to the value modulo 2^bits.
proof fn lemma_wrap_mod(d: DType, x: int)
    ensures
        wrap(d, x) % modulus(d) == x % modulus(d),
{
    let m = modulus(d);
    let r = x % m;
    vstd::arithmetic::div_mod::lemma_mod_bound(x, m);
    vstd::arithmetic::div_mod::lemma_small_mod(r as nat, m as nat);
    if r > hi(d) {
        vstd::arithmetic::div_mod::lemma_fundamental_div_mod_converse(r - m, m, -1, r);
    }
}

/// The sum of `k` strided products at the width of `t`.
fn strided_dot(t: DType, a: &[i128], b: &[i128], ao: usize, ast: usize, bo: usize, bst: usize, k: usize) -> (r: i128)
    requires
        fixed_int(t),
        in_range(t, a@),
        in_range(t, b@),
        k > 0 ==> ao + (k - 1) * ast < a@.len(),
        k > 0 ==> bo + (k - 1) * bst < b@.len(),
    ensures
        r == wrap(t, strided_sum(a@, b@, ao as int, ast as int, bo as int, bst as int, k as nat)),
        lo(t) <= r <= hi(t),
{
    let mut acc: i128 = 0;
    proof {
        lemma_wrap_in_range(t, 0);
    }
    let la = a.len();
    let lb = b.len();
    let mut p: usize = 0;
    while p < k
        invariant
            p <= k,
            la == a@.len(),
            lb == b@.len(),
            fixed_int(t),
            in_range(t, a@),
            in_range(t, b@),
            k > 0 ==> ao + (k - 1) * ast < a@.len(),
            k > 0 ==> bo + (k - 1) * bst < b@.len(),
            acc == wrap(t, strided_sum(a@, b@, ao as int, ast as int, bo as int, bst as int, p as nat)),
            lo(t) <= acc <= hi(t),
        decreases k - p,
    {
        assert(p * ast <= (k - 1) * ast && p * bst <= (k - 1) * bst) by (nonlinear_arith)
            requires
                p < k,
        ;
        let ia = ao + p * ast;
        let ib = bo + p * bst;
        let x = a[ia];
        let y = b[ib];
        assert(lo(t) <= x <= hi(t) && lo(t) <= y <= hi(t));
        let prod = value_exec(t, ArithOp::Mul, x, y);
        let next = value_exec(t, ArithOp::Add, acc, prod);
        proof {
            let s = strided_sum(a@, b@, ao as int, ast as int, bo as int, bst as int, p as nat);
            lemma_wrap_add(t, s, x * y);
            assert(strided_sum(a@, b@, ao as int, ast as int, bo as int, bst as int, (p + 1) as nat) == s + x * y);
        }
        acc = next;
        p = p + 1;
    }
    acc
}

/// `dot` of two arrays of the integer dtype `t`.
fn dot_at(t: DType, a: &NdArray<i128>, b: &NdArray<i128>) -> (r: Result<NdArray<i128>, ArrayError>)
    requires
        fixed_int(t),
        nd_wf(a@),
        nd_wf(b@),
        in_range(t, a.data@),
        in_range(t, b.data@),
        a.shape@.len() == 2 && b.shape@.len() == 2 ==> a.shape@[0] * b.shape@[1] <= usize::MAX,
    ensures
        match r {
            Ok(v) => spec_dot_at(t, a@, b@) == Ok::<NdModel<i128>, ArrayError>(v@) && nd_wf(v@),
            Err(e) => spec_dot_at(t, a@, b@) == Err::<NdModel<i128>, ArrayError>(e),
        },
{
    let ra = a.shape.len();
    let rb = b.shape.len();
    if ra == 1 && rb == 1 {
        let k = a.shape[0];
        if k != b.shape[0] {
            return Err(ArrayError::IncompatibleShapes);
        }
        proof {
            lemma_product_small(k, 0, 0);
            assert(a.shape@ =~= seq![k]);
            assert(b.shape@ =~= seq![k]);
        }
        let v = strided_dot(t, a.data.as_slice(), b.data.as_slice(), 0, 1, 0, 1, k);
        let r = NdArray { shape: Vec::new(), data: vec![v] };
        assert(r@.shape =~= Seq::<usize>::empty());
        assert(r@.data =~= spec_dot_at(t, a@, b@)->Ok_0.data);
        return Ok(r);
    } else if ra == 2 && rb == 2 {
        let m = a.shape[0];
        let k = a.shape[1];
        let n = b.shape[1];
        if k != b.shape[0] {
            return Err(ArrayError::IncompatibleShapes);
        }
        proof {
            lemma_product_small(m, k, 0);
            lemma_product_small(k, n, 0);
            lemma_product_small(m, n, 0);
            assert(a.shape@ =~= seq![m, k]);
            assert(b.shape@ =~= seq![k, n]);
        }
        let total = m * n;
        let la = a.data.len();
        let mut data: Vec<i128> = Vec::new();
        let mut f: usize = 0;
        while f < total
            invariant
                f <= total,
                la == a.data@.len(),
                total == m * n,
                a.data@.len() == m * k,
                b.data@.len() == k * n,
                fixed_int(t),
                in_range(t, a.data@),
                in_range(t, b.data@),
                data@.len() == f,
                forall|g: int| 0 <= g < f ==> #[trigger] data@[g] == wrap(
                    t,
                    strided_sum(a.data@, b.data@, (g / n as int) * k, 1, g % n as int, n as int, k as nat),
                ) as i128,
            decreases total - f,
        {
            let i = f / n;
            let j = f % n;
            proof {
                assert(n > 0) by (nonlinear_arith)
                    requires
                        f < m * n,
                ;
                vstd::arithmetic::div_mod::lemma_fundamental_div_mod(f as int, n as int);
                vstd::arithmetic::div_mod::lemma_mod_bound(f as int, n as int);
                assert(i < m) by (nonlinear_arith)
                    requires
                        f == n * i + j,
                        0 <= j,
                        f < m * n,
                        n > 0,
                ;
                assert(k > 0 ==> i * k + (k - 1) * 1 < m * k) by (nonlinear_arith)
                    requires
                        i < m,
                ;
                assert(k > 0 ==> j + (k - 1) * n < k * n) by (nonlinear_arith)
                    requires
                        j < n,
                ;
                assert(i * k <= usize::MAX) by (nonlinear_arith)
                    requires
                        i < m,
                        m * k == la,
                        la <= usize::MAX,
                ;
            }
            let v = strided_dot(t, a.data.as_slice(), b.data.as_slice(), i * k, 1, j, n, k);
            data.push(v);
            f = f + 1;
        }
        let r = NdArray { shape: vec![m, n], data };
        assert(r@.shape =~= seq![m, n]);
        assert(r@.data =~= spec_dot_at(t, a@, b@)->Ok_0.data);
        return Ok(r);
    } else if ra == 2 && rb == 1 {
        let m = a.shape[0];
        let n = a.shape[1];
        if n != b.shape[0] {
            return Err(ArrayError::IncompatibleShapes);
        }
        proof {
            lemma_product_small(m, n, 0);
            lemma_product_small(n, 0, 0);
            assert(a.shape@ =~= seq![m, n]);
            assert(b.shape@ =~= seq![n]);
        }
        let la = a.data.len();
        let mut data: Vec<i128> = Vec::new();
        let mut i: usize = 0;
        while i < m
            invariant
                i <= m,
                la == a.data@.len(),
                a.data@.len() == m * n,
                b.data@.len() == n,
                fixed_int(t),
                in_range(t, a.data@),
                in_range(t, b.data@),
                data@.len() == i,
                forall|g: int| 0 <= g < i ==> #[trigger] data@[g] == wrap(
                    t,
                    strided_sum(a.data@, b.data@, g * n, 1, 0, 1, n as nat),
                ) as i128,
            decreases m - i,
        {
            proof {
                assert(n > 0 ==> i * n + (n - 1) * 1 < m * n) by (nonlinear_arith)
                    requires
                        i < m,
                ;
                assert(i * n <= m * n) by (nonlinear_arith)
                    requires
                        i < m,
                ;
            }
            let v = strided_dot(t, a.data.as_slice(), b.data.as_slice(), i * n, 1, 0, 1, n);
            data.push(v);
            i = i + 1;
        }
        let r = NdArray { shape: vec![m], data };
        assert(r@.shape =~= seq![m]);
        assert(r@.data =~= spec_dot_at(t, a@, b@)->Ok_0.data);
        return Ok(r);
    } else if ra == 1 && rb == 2 {
        let k = a.shape[0];
        let n = b.shape[1];
        if k != b.shape[0] {
            return Err(ArrayError::IncompatibleShapes);
        }
        proof {
            lemma_product_small(k, n, 0);
            lemma_product_small(n, 0, 0);
            assert(a.shape@ =~= seq![k]);
            assert(b.shape@ =~= seq![k, n]);
        }
        let mut data: Vec<i128> = Vec::new();
        let mut j: usize = 0;
        while j < n
            invariant
                j <= n,
                a.data@.len() == k,
                b.data@.len() == k * n,
                fixed_int(t),
                in_range(t, a.data@),
                in_range(t, b.data@),
                data@.len() == j,
                forall|g: int| 0 <= g < j ==> #[trigger] data@[g] == wrap(
                    t,
                    strided_sum(a.data@, b.data@, 0, 1, g, n as int, k as nat),
                ) as i128,
            decreases n - j,
        {
            proof {
                assert(k > 0 ==> j + (k - 1) * n < k * n) by (nonlinear_arith)
                    requires
                        j < n,
                ;
            }
            let v = strided_dot(t, a.data.as_slice(), b.data.as_slice(), 0, 1, j, n, k);
            data.push(v);
            j = j + 1;
        }
        let r = NdArray { shape: vec![n], data };
        assert(r@.shape =~= seq![n]);
        assert(r@.data =~= spec_dot_at(t, a@, b@)->Ok_0.data);
        return Ok(r);
    }
    Err(ArrayError::NotVectorOrMatrix)
}

/// `numpy.dot` of arrays of integer dtypes `da` and `db`: both are cast to
/// the promoted dtype, and the products are summed at its width.
pub fn dot(da: DType, a: &NdArray<i128>, db: DType, b: &NdArray<i128>) -> (r: Result<(DType, NdArray<i128>), MixedError>)
    requires
        fixed_int(da),
        fixed_int(db),
        nd_wf(a@),
        nd_wf(b@),
        in_range(da, a.data@),
        in_range(db, b.data@),
        a.shape@.len() == 2 && b.shape@.len() == 2 ==> a.shape@[0] * b.shape@[1] <= usize::MAX,
    ensures
        match r {
            Ok((t, v)) => t == spec_promote(da, db) && fixed_int(t) && spec_dot_at(t, a@, b@) == Ok::<
                NdModel<i128>,
                ArrayError,
            >(v@) && nd_wf(v@),
            Err(MixedError::NotInteger(t)) => t == spec_promote(da, db) && !fixed_int(t),
            Err(MixedError::Array(e)) => fixed_int(spec_promote(da, db)) && spec_dot_at(spec_promote(da, db), a@, b@)
                == Err::<NdModel<i128>, ArrayError>(e),
        },
{
    let t = promote(da, db);
    proof {
        lemma_promote_ints(da, db);
    }
    if !t.is_integer() || t == DType::Bool {
        return Err(MixedError::NotInteger(t));
    }
    let ca = cast_widening(da, t, a);
    let cb = cast_widening(db, t, b);
    match dot_at(t, &ca, &cb) {
        Ok(v) => Ok((t, v)),
        Err(e) => Err(MixedError::Array(e)),
    }
}

} // verus!
