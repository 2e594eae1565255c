//! Operations that run along one axis of an `i64` array, lane by lane:
//! running sums and products (`cumsum`, `cumprod`), first differences
//! (`diff`), and sorting (`sort`, `argsort`). Sums, products and
//! differences wrap around as numpy's `int64` arithmetic does.
//!
//! An array of shape `(..., dim, ...)` split at an axis is `outer` blocks
//! of `dim * inner` elements; position `p` lies in block `p / (dim *
//! inner)`, at step `(p % (dim * inner)) / inner` along the axis, in lane
//! `p % inner` of its block.
use vstd::prelude::*;

use crate::axes::{distinct_sources, lemma_distinct_len, lemma_move_order_permutation, moveaxis, move_order, spec_moveaxis, MoveAxisError};
use crate::fold::{skip_exec, take_exec};
use crate::logic::{normalize_axes, normalize_list};
use crate::linalg::{normalize_axis, spec_normalize_axis, AxisError};
use crate::nd::{inner_count, lemma_product_around_axis, nd_wf, outer_count, partial_products_fit, NdArray, NdModel};
use crate::npy::{element_count, shape_product};
use crate::random::range_seq;
use crate::ravel::strides_fit;
use crate::sorting::{key_views, lemma_lex_order_total_pub, lex_order, lexsort, sort_i64, sorted_i64};

verus! {

/// The block of position `p`.
pub open spec fn p_outer(p: int, dim: int, inner: int) -> int {
    p / (dim * inner)
}

/// The step along the axis of position `p`.
pub open spec fn p_along(p: int, dim: int, inner: int) -> int {
    (p % (dim * inner)) / inner
}

/// The lane of position `p` within its block.
pub open spec fn p_inner(p: int, inner: int) -> int {
    p % inner
}

/// The lane of block `o` at offset `i`: the `dim` elements `o * dim *
/// inner + q * inner + i`.
pub open spec fn lane_at(data: Seq<i64>, dim: int, inner: int, o: int, i: int) -> Seq<i64> {
    Seq::new(dim as nat, |q: int| data[o * (dim * inner) + q * inner + i])
}

/// The lane through position `p`.
pub open spec fn lane_of(data: Seq<i64>, dim: int, inner: int, p: int) -> Seq<i64> {
    lane_at(data, dim, inner, p_outer(p, dim, inner), p_inner(p, inner))
}

/// Position `o * dim * inner + j * inner + i` splits back into `o`, `j`
/// and `i`.
pub proof fn lemma_position(p: int, o: int, j: int, i: int, dim: int, inner: int)
    requires
        o >= 0,
        0 <= j < dim,
        0 <= i < inner,
        p == o * (dim * inner) + j * inner + i,
    ensures
        p_outer(p, dim, inner) == o,
        p_along(p, dim, inner) == j,
        p_inner(p, inner) == i,
{
    let r = j * inner + i;
    assert(0 <= r < dim * inner) by (nonlinear_arith)
        requires
            0 <= j < dim,
            0 <= i < inner,
            r == j * inner + i,
    ;
    vstd::arithmetic::div_mod::lemma_fundamental_div_mod_converse(p, dim * inner, o, r);
    vstd::arithmetic::div_mod::lemma_fundamental_div_mod_converse(r, inner, j, i);
    assert(p == (o * dim + j) * inner + i) by (nonlinear_arith)
        requires
            p == o * (dim * inner) + j * inner + i,
    ;
    vstd::arithmetic::div_mod::lemma_fundamental_div_mod_converse(p, inner, o * dim + j, i);
}

/// Walking positions in order: the counters after position `(o, j, i)`,
/// and the bounds of the positions met.
pub proof fn lemma_advance(o: int, j: int, i: int, outer: int, dim: int, inner: int)
    requires
        0 <= o < outer,
        0 <= j < dim,
        0 <= i < inner,
    ensures
        o * (dim * inner) + j * inner + i < outer * (dim * inner),
        i + 1 == inner && j + 1 < dim ==> o * (dim * inner) + j * inner + i + 1 == o * (dim * inner) + (j + 1)
            * inner,
        i + 1 == inner && j + 1 == dim ==> o * (dim * inner) + j * inner + i + 1 == (o + 1) * (dim * inner),
        dim * inner > 0,
{
    assert(o * (dim * inner) + j * inner + i < outer * (dim * inner)) by (nonlinear_arith)
        requires
            0 <= o < outer,
            0 <= j < dim,
            0 <= i < inner,
    ;
    assert(dim * inner > 0) by (nonlinear_arith)
        requires
            0 <= j < dim,
            0 <= i < inner,
    ;
    assert(i + 1 == inner && j + 1 < dim ==> o * (dim * inner) + j * inner + i + 1 == o * (dim * inner) + (j + 1)
        * inner) by (nonlinear_arith);
    assert(i + 1 == inner && j + 1 == dim ==> o * (dim * inner) + j * inner + i + 1 == (o + 1) * (dim * inner))
        by (nonlinear_arith);
}

/// Past the last block: a position `(o + 1) * dim * inner` before the end
/// lies in a block that exists.
proof fn lemma_next_block(o: int, outer: int, block: int)
    requires
        0 <= o,
        block > 0,
        (o + 1) * block < outer * block,
    ensures
        o + 1 < outer,
{
    assert(o + 1 < outer) by (nonlinear_arith)
        requires
            block > 0,
            (o + 1) * block < outer * block,
    ;
}

/// The outer count, the length and the inner count of an axis.
pub(crate) fn axis_layout(shape: &[usize], ax: usize) -> (r: (usize, usize, usize))
    requires
        ax < shape@.len(),
        partial_products_fit(shape@),
        strides_fit(shape@),
    ensures
        r.0 == outer_count(shape@, ax as int),
        r.1 == shape@[ax as int],
        r.2 == inner_count(shape@, ax as int),
        shape_product(shape@) == r.0 * (r.1 * r.2),
        r.1 * r.2 <= usize::MAX,
{
    proof {
        lemma_product_around_axis(shape@, ax as int);
        assert forall|j: int| 0 <= j <= shape@.take(ax as int).len() implies #[trigger] shape_product(
            shape@.take(ax as int).take(j),
        ) <= usize::MAX by {
            assert(shape@.take(ax as int).take(j) =~= shape@.take(j));
        }
        assert(partial_products_fit(shape@.skip(ax + 1)));
        let tail = shape@.skip(ax as int);
        if ax == 0 {
            assert(tail =~= shape@);
        } else {
            assert(partial_products_fit(shape@.skip((ax - 1) + 1)));
        }
        assert(partial_products_fit(tail));
        assert(tail.take(tail.len() as int) =~= tail);
        assert(shape_product(tail.take(tail.len() as int)) <= usize::MAX);
        crate::index::lemma_product_front(tail);
        assert(tail.drop_first() =~= shape@.skip(ax + 1));
    }
    let len = shape.len();
    let outer = element_count(take_exec(shape, ax).as_slice());
    let inner = element_count(skip_exec(shape, ax + 1).as_slice());
    (outer, shape[ax], inner)
}

// ---------------------------------------------------------------------
// cumsum / cumprod
// ---------------------------------------------------------------------

/// A running operation.
#[derive(Clone, Copy, Debug, PartialEq, Eq, Structural)]
pub enum Accumulate {
    /// Running sums (`cumsum`).
    Sum,
    /// Running products (`cumprod`).
    Prod,
}

/// The wrapping sum (product) of a sequence, from 0 (1).
pub open spec fn acc_fold(op: Accumulate, s: Seq<i64>) -> i64
    decreases s.len(),
{
    if s.len() == 0 {
        match op {
            Accumulate::Sum => 0,
            Accumulate::Prod => 1,
        }
    } else {
        let prev = acc_fold(op, s.drop_last());
        match op {
            Accumulate::Sum => vstd::wrapping::i64_specs::wrapping_add(prev, s.last()),
            Accumulate::Prod => vstd::wrapping::i64_specs::wrapping_mul(prev, s.last()),
        }
    }
}

/// The running values of a sequence: position `k` holds the fold of the
/// first `k + 1` elements.
pub open spec fn running(op: Accumulate, s: Seq<i64>) -> Seq<i64> {
    Seq::new(s.len(), |k: int| acc_fold(op, s.take(k + 1)))
}

/// `cumsum` / `cumprod` on models: without an axis, the running values of
/// the flattened array; with one, each element replaced by the running
/// value of its lane up to it.
pub open spec fn spec_cumulative(a: NdModel<i64>, axis: Option<isize>, op: Accumulate) -> Result<NdModel<i64>, AxisError> {
    match axis {
        None => Ok(NdModel { shape: seq![a.data.len() as usize], data: running(op, a.data) }),
        Some(k) => match spec_normalize_axis(k as int, a.shape.len() as int) {
            None => Err(AxisError { axis: k, ndim: a.shape.len() as usize }),
            Some(ax) => {
                let dim = a.shape[ax] as int;
                let inner = inner_count(a.shape, ax) as int;
                Ok(NdModel {
                    shape: a.shape,
                    data: Seq::new(a.data.len(), |p: int| acc_fold(
                        op,
                        lane_of(a.data, dim, inner, p).take(p_along(p, dim, inner) + 1),
                    )),
                })
            },
        },
    }
}

/// One step of the running operation.
fn acc_step(op: Accumulate, acc: i64, x: i64) -> (r: i64)
    ensures
        r == (match op {
            Accumulate::Sum => vstd::wrapping::i64_specs::wrapping_add(acc, x),
            Accumulate::Prod => vstd::wrapping::i64_specs::wrapping_mul(acc, x),
        }),
{
    match op {
        Accumulate::Sum => acc.wrapping_add(x),
        Accumulate::Prod => acc.wrapping_mul(x),
    }
}

/// `cumsum(a, axis)` (`Accumulate::Sum`) or `cumprod(a, axis)`
/// (`Accumulate::Prod`) of an `i64` array.
pub fn cumulative(a: &NdArray<i64>, axis: Option<isize>, op: Accumulate) -> (r: Result<NdArray<i64>, AxisError>)
    requires
        nd_wf(a@),
        a.shape@.len() <= isize::MAX,
        partial_products_fit(a.shape@),
        strides_fit(a.shape@),
    ensures
        match r {
            Ok(b) => spec_cumulative(a@, axis, op) == Ok::<NdModel<i64>, AxisError>(b@) && nd_wf(b@),
            Err(e) => spec_cumulative(a@, axis, op) == Err::<NdModel<i64>, AxisError>(e),
        },
{
    let n = a.data.len();
    let init: i64 = match op {
        Accumulate::Sum => 0,
        Accumulate::Prod => 1,
    };
    assert(init == acc_fold(op, Seq::<i64>::empty()));
    match axis {
        None => {
            let mut data: Vec<i64> = Vec::new();
            let mut acc = init;
            let mut p: usize = 0;
            assert(a.data@.take(0) =~= Seq::<i64>::empty());
            while p < n
                invariant
                    p <= n,
                    n == a.data@.len(),
                    acc == acc_fold(op, a.data@.take(p as int)),
                    data@.len() == p,
                    forall|q: int| 0 <= q < p ==> #[trigger] data@[q] == acc_fold(op, a.data@.take(q + 1)),
                decreases n - p,
            {
                assert(a.data@.take(p + 1).drop_last() =~= a.data@.take(p as int));
                acc = acc_step(op, acc, a.data[p]);
                data.push(acc);
                p = p + 1;
            }
            let r = NdArray { shape: vec![n], data };
            assert(r@.shape =~= seq![n]);
            assert(r@.shape.drop_last() =~= Seq::<usize>::empty());
            assert(shape_product(Seq::<usize>::empty()) == 1);
            assert(nd_wf(r@));
            assert(r@.shape == seq![a@.data.len() as usize]);
            assert(r@.data == running(op, a@.data));
            assert(r@ == NdModel { shape: seq![a@.data.len() as usize], data: running(op, a@.data) });
            assert(spec_cumulative(a@, axis, op) == Ok::<NdModel<i64>, AxisError>(r@));
            assert(r@.data =~= running(op, a.data@));
            Ok(r)
        },
        Some(k) => {
            let ax = match normalize_axis(k, a.shape.len()) {
                Ok(x) => x,
                Err(e) => return Err(e),
            };
            let (outer, dim, inner) = axis_layout(a.shape.as_slice(), ax);
            let ghost d = dim as int;
            let ghost w = inner as int;
            assert(n > 0 ==> outer > 0 && dim > 0 && inner > 0) by (nonlinear_arith)
                requires
                    n == outer * (dim * inner),
            ;
            let mut data: Vec<i64> = Vec::new();
            let mut p: usize = 0;
            let mut o: usize = 0;
            let mut j: usize = 0;
            let mut i: usize = 0;
            while p < n
                invariant
                    p <= n,
                    n == a.data@.len(),
                    n == outer * (dim * inner),
                    d == dim,
                    w == inner,
                    init == acc_fold(op, Seq::<i64>::empty()),
                    p < n ==> (o < outer && j < dim && i < inner && p == o * (dim * inner) + j * inner + i),
                    data@.len() == p,
                    forall|q: int| 0 <= q < p ==> #[trigger] data@[q] == acc_fold(
                        op,
                        lane_of(a.data@, d, w, q).take(p_along(q, d, w) + 1),
                    ),
                decreases n - p,
            {
                proof {
                    lemma_position(p as int, o as int, j as int, i as int, d, w);
                    lemma_advance(o as int, j as int, i as int, outer as int, d, w);
                }
                let ghost lane = lane_of(a.data@, d, w, p as int);
                assert(lane.take(j + 1).drop_last() =~= lane.take(j as int));
                assert(lane[j as int] == a.data@[p as int]);
                let x = a.data[p];
                let v = if j == 0 {
                    assert(lane.take(0) =~= Seq::<i64>::empty());
                    assert(acc_fold(op, lane.take(0)) == init);
                    acc_step(op, init, x)
                } else {
                    proof {
                        assert(p - inner == o * (d * w) + (j - 1) * w + i && p >= inner) by (nonlinear_arith)
                            requires
                                p == o * (d * w) + j * w + i,
                                w == inner,
                                j >= 1,
                                o >= 0,
                                i >= 0,
                                d >= 0,
                                w >= 0,
                        ;
                        lemma_position(p - inner, o as int, j - 1, i as int, d, w);
                        assert(lane_of(a.data@, d, w, p - inner) == lane);
                    }
                    acc_step(op, data[p - inner], x)
                };
                assert(v == acc_fold(op, lane.take(j + 1)));
                data.push(v);
                p = p + 1;
                if i + 1 < inner {
                    i = i + 1;
                } else {
                    i = 0;
                    if j + 1 < dim {
                        j = j + 1;
                    } else {
                        j = 0;
                        proof {
                            if p < n {
                                lemma_next_block(o as int, outer as int, d * w);
                            }
                        }
                        o = o + 1;
                    }
                }
            }
            let r = NdArray { shape: crate::nd::copy_vec(a.shape.as_slice()), data };
            assert(r@.data =~= spec_cumulative(a@, axis, op)->Ok_0.data);
            Ok(r)
        },
    }
}

/// `cumsum(a, axis)`: running sums, wrapping around on overflow.
pub fn cumsum(a: &NdArray<i64>, axis: Option<isize>) -> (r: Result<NdArray<i64>, AxisError>)
    requires
        nd_wf(a@),
        a.shape@.len() <= isize::MAX,
        partial_products_fit(a.shape@),
        strides_fit(a.shape@),
    ensures
        match r {
            Ok(b) => spec_cumulative(a@, axis, Accumulate::Sum) == Ok::<NdModel<i64>, AxisError>(b@) && nd_wf(b@),
            Err(e) => spec_cumulative(a@, axis, Accumulate::Sum) == Err::<NdModel<i64>, AxisError>(e),
        },
{
    cumulative(a, axis, Accumulate::Sum)
}

/// `cumprod(a, axis)`: running products, wrapping around on overflow.
pub fn cumprod(a: &NdArray<i64>, axis: Option<isize>) -> (r: Result<NdArray<i64>, AxisError>)
    requires
        nd_wf(a@),
        a.shape@.len() <= isize::MAX,
        partial_products_fit(a.shape@),
        strides_fit(a.shape@),
    ensures
        match r {
            Ok(b) => spec_cumulative(a@, axis, Accumulate::Prod) == Ok::<NdModel<i64>, AxisError>(b@) && nd_wf(b@),
            Err(e) => spec_cumulative(a@, axis, Accumulate::Prod) == Err::<NdModel<i64>, AxisError>(e),
        },
{
    cumulative(a, axis, Accumulate::Prod)
}

// ---------------------------------------------------------------------
// diff
// ---------------------------------------------------------------------

/// `diff` on models: along the axis, each element but the last replaced by
/// the next one minus it (wrapping around); the axis one shorter, an empty
/// axis staying empty.
pub open spec fn spec_diff(a: NdModel<i64>, axis: isize) -> Result<NdModel<i64>, AxisError> {
    match spec_normalize_axis(axis as int, a.shape.len() as int) {
        None => Err(AxisError { axis, ndim: a.shape.len() as usize }),
        Some(ax) => {
            let dim = a.shape[ax] as int;
            let inner = inner_count(a.shape, ax) as int;
            let m = if dim > 0 { dim - 1 } else { 0 };
            Ok(NdModel {
                shape: a.shape.update(ax, m as usize),
                data: Seq::new((outer_count(a.shape, ax) * (m * inner)) as nat, |q: int| {
                    let lane = lane_at(a.data, dim, inner, p_outer(q, m, inner), p_inner(q, inner));
                    let j = p_along(q, m, inner);
                    vstd::wrapping::i64_specs::wrapping_sub(lane[j + 1], lane[j])
                }),
            })
        },
    }
}

/// `diff(a, axis)`: the first differences along an axis.
pub fn diff(a: &NdArray<i64>, axis: isize) -> (r: Result<NdArray<i64>, AxisError>)
    requires
        nd_wf(a@),
        a.shape@.len() <= isize::MAX,
        partial_products_fit(a.shape@),
        strides_fit(a.shape@),
    ensures
        match r {
            Ok(b) => spec_diff(a@, axis) == Ok::<NdModel<i64>, AxisError>(b@) && nd_wf(b@),
            Err(e) => spec_diff(a@, axis) == Err::<NdModel<i64>, AxisError>(e),
        },
{
    let n = a.data.len();
    let ax = match normalize_axis(axis, a.shape.len()) {
        Ok(x) => x,
        Err(e) => return Err(e),
    };
    let (outer, dim, inner) = axis_layout(a.shape.as_slice(), ax);
    let m: usize = if dim > 0 { dim - 1 } else { 0 };
    assert(m * inner <= dim * inner) by (nonlinear_arith)
        requires
            m <= dim,
            inner >= 0,
    ;
    assert(outer * (m * inner) <= outer * (dim * inner)) by (nonlinear_arith)
        requires
            m <= dim,
            outer >= 0,
            inner >= 0,
    ;
    let total = outer * (m * inner);
    assert(total > 0 ==> outer > 0 && m > 0 && inner > 0) by (nonlinear_arith)
        requires
            total == outer * (m * inner),
    ;
    let ghost d = dim as int;
    let ghost w = inner as int;
    let ghost mm = m as int;
    let mut data: Vec<i64> = Vec::new();
    let mut q: usize = 0;
    let mut p0: usize = 0;
    let mut o: usize = 0;
    let mut j: usize = 0;
    let mut i: usize = 0;
    while q < total
        invariant
            q <= total,
            n == a.data@.len(),
            n == outer * (dim * inner),
            total == outer * (m * inner),
            d == dim,
            w == inner,
            mm == m,
            m == (if dim > 0 { dim - 1 } else { 0 }),
            q < total ==> (o < outer && j < m && i < inner && q == o * (m * inner) + j * inner + i && p0 == o * (
            dim * inner) + j * inner + i),
            data@.len() == q,
            forall|t: int| 0 <= t < q ==> #[trigger] data@[t] == ({
                let lane = lane_at(a.data@, d, w, p_outer(t, mm, w), p_inner(t, w));
                let jj = p_along(t, mm, w);
                vstd::wrapping::i64_specs::wrapping_sub(lane[jj + 1], lane[jj])
            }),
        decreases total - q,
    {
        proof {
            lemma_position(q as int, o as int, j as int, i as int, mm, w);
            lemma_advance(o as int, j + 1, i as int, outer as int, d, w);
            lemma_advance(o as int, j as int, i as int, outer as int, mm, w);
            assert(o * (d * w) + (j + 1) * w + i == p0 + inner) by (nonlinear_arith)
                requires
                    p0 == o * (d * w) + j * w + i,
                    w == inner,
            ;
        }
        let x0 = a.data[p0];
        let x1 = a.data[p0 + inner];
        data.push(x1.wrapping_sub(x0));
        q = q + 1;
        if i + 1 < inner {
            i = i + 1;
            p0 = p0 + 1;
        } else {
            i = 0;
            if j + 1 < m {
                j = j + 1;
                p0 = p0 + 1;
            } else {
                j = 0;
                proof {
                    if q < total {
                        lemma_next_block(o as int, outer as int, mm * w);
                        lemma_advance(o + 1, 0, 0, outer as int, d, w);
                    }
                    assert(o * (d * w) + (mm - 1) * w + (w - 1) + 1 + w == (o + 1) * (d * w)) by (nonlinear_arith)
                        requires
                            mm == d - 1,
                            w >= 1,
                    ;
                }
                if q < total {
                    p0 = p0 + 1 + inner;
                }
                o = o + 1;
            }
        }
    }
    let mut shape = crate::nd::copy_vec(a.shape.as_slice());
    shape.set(ax, m);
    proof {
        let s2 = shape@;
        assert(s2 == a.shape@.update(ax as int, m));
        lemma_product_around_axis(s2, ax as int);
        assert(s2.take(ax as int) =~= a.shape@.take(ax as int));
        assert(s2.skip(ax + 1) =~= a.shape@.skip(ax + 1));
    }
    let r = NdArray { shape, data };
    assert(r@.data =~= spec_diff(a@, axis)->Ok_0.data);
    Ok(r)
}

// ---------------------------------------------------------------------
// sort / argsort
// ---------------------------------------------------------------------

/// Every position before `outer * dim * inner` splits into a block, a step
/// and a lane that exist.
pub proof fn lemma_split(p: int, outer: int, dim: int, inner: int)
    requires
        dim >= 0,
        inner >= 0,
        0 <= p < outer * (dim * inner),
    ensures
        0 <= p_outer(p, dim, inner) < outer,
        0 <= p_along(p, dim, inner) < dim,
        0 <= p_inner(p, inner) < inner,
        p == p_outer(p, dim, inner) * (dim * inner) + p_along(p, dim, inner) * inner + p_inner(p, inner),
{
    let b = dim * inner;
    assert(b > 0 && inner > 0) by (nonlinear_arith)
        requires
            dim >= 0,
            inner >= 0,
            0 <= p < outer * (dim * inner),
            b == dim * inner,
    ;
    vstd::arithmetic::div_mod::lemma_fundamental_div_mod(p, b);
    vstd::arithmetic::div_mod::lemma_mod_bound(p, b);
    let o = p / b;
    let r = p % b;
    assert(0 <= o < outer) by (nonlinear_arith)
        requires
            p == b * o + r,
            0 <= r < b,
            0 <= p < outer * b,
    ;
    vstd::arithmetic::div_mod::lemma_fundamental_div_mod(r, inner);
    vstd::arithmetic::div_mod::lemma_mod_bound(r, inner);
    let j = r / inner;
    let i = r % inner;
    assert(0 <= j < dim) by (nonlinear_arith)
        requires
            r == inner * j + i,
            0 <= i < inner,
            0 <= r < dim * inner,
    ;
    assert(p == (o * dim + j) * inner + i) by (nonlinear_arith)
        requires
            p == b * o + r,
            b == dim * inner,
            r == inner * j + i,
    ;
    vstd::arithmetic::div_mod::lemma_fundamental_div_mod_converse(p, inner, o * dim + j, i);
    assert(p == o * (dim * inner) + j * inner + i) by (nonlinear_arith)
        requires
            p == (o * dim + j) * inner + i,
    ;
}

/// The lane of block `o` at offset `i`, computed from its first position.
fn gather_lane(data: &[i64], base: usize, inner: usize, dim: usize) -> (r: Vec<i64>)
    requires
        forall|q: int| 0 <= q < dim ==> #[trigger] (base + q * inner) < data@.len(),
    ensures
        r@ == Seq::new(dim as nat, |q: int| data@[base + q * inner]),
{
    let len = data.len();
    let mut r: Vec<i64> = Vec::new();
    let mut q: usize = 0;
    while q < dim
        invariant
            q <= dim,
            len == data@.len(),
            forall|t: int| 0 <= t < dim ==> #[trigger] (base + t * inner) < data@.len(),
            r@.len() == q,
            forall|t: int| 0 <= t < q ==> #[trigger] r@[t] == data@[base + t * inner],
        decreases dim - q,
    {
        let ghost qq = q as int;
        assert(base + qq * inner < data@.len());
        let pos = base + q * inner;
        r.push(data[pos]);
        q = q + 1;
    }
    r
}

/// The lanes of an array along an axis, each passed through `sort_i64`
/// (`sorting`) or through `lexsort` on its own (`!sorting`), in the order
/// of their blocks and offsets.
fn lane_results(a: &NdArray<i64>, outer: usize, dim: usize, inner: usize, sorting: bool) -> (r: Vec<Vec<i64>>)
    requires
        a.data@.len() == outer * (dim * inner),
        dim * inner <= usize::MAX,
        outer * inner <= usize::MAX,
        outer * inner > 0 ==> dim <= i64::MAX,
    ensures
        r@.len() == outer * inner,
        forall|g: int| 0 <= g < outer * inner ==> (#[trigger] r@[g])@.len() == dim,
        forall|g: int| 0 <= g < outer * inner ==> (#[trigger] r@[g])@ == (if sorting {
            sorted_i64(lane_at(a.data@, dim as int, inner as int, g / (inner as int), g % (inner as int)))
        } else {
            argsorted(lane_at(a.data@, dim as int, inner as int, g / (inner as int), g % (inner as int)))
        }),
{
    let len = a.data.len();
    let total = outer * inner;
    let ghost d = dim as int;
    let ghost w = inner as int;
    let mut r: Vec<Vec<i64>> = Vec::new();
    let mut g: usize = 0;
    while g < total
        invariant
            g <= total,
            total == outer * inner,
            len == a.data@.len(),
            a.data@.len() == outer * (dim * inner),
            dim * inner <= usize::MAX,
            total > 0 ==> dim <= i64::MAX,
            d == dim,
            w == inner,
            r@.len() == g,
            forall|h: int| 0 <= h < g ==> (#[trigger] r@[h])@.len() == dim,
            forall|h: int| 0 <= h < g ==> (#[trigger] r@[h])@ == (if sorting {
                sorted_i64(lane_at(a.data@, d, w, h / w, h % w))
            } else {
                argsorted(lane_at(a.data@, d, w, h / w, h % w))
            }),
        decreases total - g,
    {
        assert(inner > 0) by (nonlinear_arith)
            requires
                g < outer * inner,
                outer >= 0,
                inner >= 0,
        ;
        let o = g / inner;
        let i = g % inner;
        assert(0 <= o < outer && 0 <= i < inner) by (nonlinear_arith)
            requires
                inner > 0,
                o == g / inner,
                i == g % inner,
                g < outer * inner,
        ;
        assert(o * (dim * inner) + i <= usize::MAX) by (nonlinear_arith)
            requires
                0 <= o < outer,
                0 <= i < inner,
                a.data@.len() == outer * (dim * inner),
                a.data@.len() <= usize::MAX,
        ;
        let base = o * (dim * inner) + i;
        assert forall|q: int| 0 <= q < dim implies #[trigger] (base + q * inner) < a.data@.len() by {
            lemma_advance(o as int, q, i as int, outer as int, d, w);
        }
        let lane = gather_lane(a.data.as_slice(), base, inner, dim);
        assert(lane@ =~= lane_at(a.data@, d, w, (g as int) / w, (g as int) % w));
        let res = if sorting {
            sort_i64(lane.as_slice())
        } else {
            let keys: Vec<Vec<i64>> = vec![lane];
            assert(key_views(keys@) =~= seq![keys@[0]@]);
            match lexsort(keys.as_slice()) {
                Ok(idx) => idx.data,
                Err(_) => {
                    assert(false);
                    Vec::new()
                },
            }
        };
        proof {
            if !sorting {
                lemma_argsorted_len(lane@);
            }
        }
        r.push(res);
        g = g + 1;
    }
    r
}

/// Lays the results of the lanes out as an array: position `p` takes the
/// step of `p` along the axis from the result of its lane.
fn spread_lanes(lanes: &Vec<Vec<i64>>, outer: usize, dim: usize, inner: usize) -> (r: Vec<i64>)
    requires
        outer * (dim * inner) <= usize::MAX,
        dim * inner <= usize::MAX,
        outer * inner <= usize::MAX,
        lanes@.len() == outer * inner,
        forall|g: int| 0 <= g < outer * inner ==> (#[trigger] lanes@[g])@.len() == dim,
    ensures
        r@.len() == outer * (dim * inner),
        forall|p: int| 0 <= p < outer * (dim * inner) ==> #[trigger] r@[p] == lanes@[p_outer(p, dim as int, inner as int)
            * inner + p_inner(p, inner as int)]@[p_along(p, dim as int, inner as int)],
{
    let n = outer * (dim * inner);
    assert(n > 0 ==> outer > 0 && dim > 0 && inner > 0) by (nonlinear_arith)
        requires
            n == outer * (dim * inner),
    ;
    let ghost d = dim as int;
    let ghost w = inner as int;
    let mut r: Vec<i64> = Vec::new();
    let mut p: usize = 0;
    let mut o: usize = 0;
    let mut j: usize = 0;
    let mut i: usize = 0;
    while p < n
        invariant
            p <= n,
            n == outer * (dim * inner),
            d == dim,
            w == inner,
            outer * inner <= usize::MAX,
            lanes@.len() == outer * inner,
            forall|g: int| 0 <= g < outer * inner ==> (#[trigger] lanes@[g])@.len() == dim,
            p < n ==> (o < outer && j < dim && i < inner && p == o * (dim * inner) + j * inner + i),
            r@.len() == p,
            forall|q: int| 0 <= q < p ==> #[trigger] r@[q] == lanes@[p_outer(q, d, w) * w + p_inner(q, w)]@[p_along(
                q,
                d,
                w,
            )],
        decreases n - p,
    {
        proof {
            lemma_position(p as int, o as int, j as int, i as int, d, w);
            lemma_advance(o as int, j as int, i as int, outer as int, d, w);
        }
        assert(o * inner + i < outer * inner) by (nonlinear_arith)
            requires
                o < outer,
                i < inner,
        ;
        let g = o * inner + i;
        r.push(lanes[g][j]);
        p = p + 1;
        if i + 1 < inner {
            i = i + 1;
        } else {
            i = 0;
            if j + 1 < dim {
                j = j + 1;
            } else {
                j = 0;
                proof {
                    if p < n {
                        lemma_next_block(o as int, outer as int, d * w);
                    }
                }
                o = o + 1;
            }
        }
    }
    r
}

/// The positions of a sequence in ascending order of their values, equal
/// values in order of position (`lexsort` with the sequence as its one
/// key).
pub open spec fn argsorted(s: Seq<i64>) -> Seq<i64> {
    range_seq(s.len()).sort_by(lex_order(seq![s]))
}

/// `argsorted` keeps the length.
pub proof fn lemma_argsorted_len(s: Seq<i64>)
    ensures
        argsorted(s).len() == s.len(),
{
    let keys = seq![s];
    lemma_lex_order_total_pub(keys);
    range_seq(s.len()).lemma_sort_by_ensures(lex_order(keys));
    vstd::seq_lib::to_multiset_len(range_seq(s.len()));
    vstd::seq_lib::to_multiset_len(argsorted(s));
}

/// Sorting keeps the length.
pub proof fn lemma_sorted_len(s: Seq<i64>)
    ensures
        sorted_i64(s).len() == s.len(),
{
    crate::sorting::lemma_i64_le_total();
    s.lemma_sort_by_ensures(crate::sorting::i64_le());
    vstd::seq_lib::to_multiset_len(s);
    vstd::seq_lib::to_multiset_len(sorted_i64(s));
}

/// `sort` (`sorting`) or `argsort` on models: without an axis the result
/// for the flattened elements; with one, the result for each lane along
/// it, laid out along the same lane.
pub open spec fn spec_sort_axis(a: NdModel<i64>, axis: Option<isize>, sorting: bool) -> Result<NdModel<i64>, AxisError> {
    match axis {
        None => Ok(NdModel {
            shape: seq![a.data.len() as usize],
            data: if sorting { sorted_i64(a.data) } else { argsorted(a.data) },
        }),
        Some(k) => match spec_normalize_axis(k as int, a.shape.len() as int) {
            None => Err(AxisError { axis: k, ndim: a.shape.len() as usize }),
            Some(ax) => {
                let dim = a.shape[ax] as int;
                let inner = inner_count(a.shape, ax) as int;
                Ok(NdModel {
                    shape: a.shape,
                    data: Seq::new(a.data.len(), |p: int| if sorting {
                        sorted_i64(lane_of(a.data, dim, inner, p))[p_along(p, dim, inner)]
                    } else {
                        argsorted(lane_of(a.data, dim, inner, p))[p_along(p, dim, inner)]
                    }),
                })
            },
        },
    }
}

/// `sort(a, axis)` (`sorting`) or `argsort(a, axis)` of an `i64` array.
pub fn sort_axis(a: &NdArray<i64>, axis: Option<isize>, sorting: bool) -> (r: Result<NdArray<i64>, AxisError>)
    requires
        nd_wf(a@),
        a.data@.len() <= i64::MAX,
        a.shape@.len() <= isize::MAX,
        partial_products_fit(a.shape@),
        strides_fit(a.shape@),
    ensures
        match r {
            Ok(b) => spec_sort_axis(a@, axis, sorting) == Ok::<NdModel<i64>, AxisError>(b@) && nd_wf(b@),
            Err(e) => spec_sort_axis(a@, axis, sorting) == Err::<NdModel<i64>, AxisError>(e),
        },
{
    let n = a.data.len();
    let ghost mut gax: int = 0;
    let (shape, outer, dim, inner) = match axis {
        None => {
            assert(n == 1 * (n * 1) && n * 1 <= usize::MAX) by (nonlinear_arith)
                requires
                    n <= usize::MAX,
            ;
            (vec![n], 1usize, n, 1usize)
        },
        Some(k) => {
            let ax = match normalize_axis(k, a.shape.len()) {
                Ok(x) => x,
                Err(e) => return Err(e),
            };
            proof {
                gax = ax as int;
            }
            let (outer, dim, inner) = axis_layout(a.shape.as_slice(), ax);
            (crate::nd::copy_vec(a.shape.as_slice()), outer, dim, inner)
        },
    };
    let ghost d = dim as int;
    let ghost w = inner as int;
    if n == 0 && axis.is_some() {
        let r = NdArray { shape, data: Vec::new() };
        assert(r@.data =~= spec_sort_axis(a@, axis, sorting)->Ok_0.data);
        return Ok(r);
    }
    assert(outer * inner > 0 ==> dim <= n) by (nonlinear_arith)
        requires
            n == outer * (dim * inner),
            outer >= 0,
            dim >= 0,
            inner >= 0,
    ;
    assert(outer * inner <= usize::MAX) by (nonlinear_arith)
        requires
            n == outer * (dim * inner),
            n > 0 || (outer == 1 && inner == 1),
            n <= usize::MAX,
            outer >= 0,
            dim >= 0,
            inner >= 0,
    ;
    let lanes = lane_results(a, outer, dim, inner, sorting);
    let data = spread_lanes(&lanes, outer, dim, inner);
    assert forall|p: int| 0 <= p < n implies #[trigger] data@[p] == (if sorting {
        sorted_i64(lane_of(a.data@, d, w, p))[p_along(p, d, w)]
    } else {
        argsorted(lane_of(a.data@, d, w, p))[p_along(p, d, w)]
    }) by {
        lemma_split(p, outer as int, d, w);
        let g = p_outer(p, d, w) * w + p_inner(p, w);
        vstd::arithmetic::div_mod::lemma_fundamental_div_mod_converse(g, w, p_outer(p, d, w), p_inner(p, w));
        assert(0 <= g < outer * inner) by (nonlinear_arith)
            requires
                g == p_outer(p, d, w) * w + p_inner(p, w),
                0 <= p_outer(p, d, w) < outer,
                0 <= p_inner(p, w) < w,
                w == inner,
        ;
    }
    let r = NdArray { shape, data };
    proof {
        if axis is None {
            assert(r@.shape =~= seq![n]);
            assert(r@.shape.drop_last() =~= Seq::<usize>::empty());
            assert(shape_product(Seq::<usize>::empty()) == 1);
            assert forall|p: int| 0 <= p < n implies lane_of(a.data@, d, w, p) == a.data@ && p_along(p, d, w) == p by {
                lemma_position(p, 0, p, 0, d, w);
                assert(lane_of(a.data@, d, w, p) =~= a.data@);
            }
            lemma_sorted_len(a.data@);
            lemma_argsorted_len(a.data@);
        } else {
            assert(spec_normalize_axis(axis->Some_0 as int, a.shape@.len() as int) == Some(gax));
            assert(d == a.shape@[gax] && w == inner_count(a.shape@, gax));
        }
    }
    assert(r@.data =~= spec_sort_axis(a@, axis, sorting)->Ok_0.data);
    Ok(r)
}

/// `sort(a, axis)`: each lane along the axis in ascending order; without an
/// axis, the flattened elements in ascending order.
pub fn sort(a: &NdArray<i64>, axis: Option<isize>) -> (r: Result<NdArray<i64>, AxisError>)
    requires
        nd_wf(a@),
        a.data@.len() <= i64::MAX,
        a.shape@.len() <= isize::MAX,
        partial_products_fit(a.shape@),
        strides_fit(a.shape@),
    ensures
        match r {
            Ok(b) => spec_sort_axis(a@, axis, true) == Ok::<NdModel<i64>, AxisError>(b@) && nd_wf(b@),
            Err(e) => spec_sort_axis(a@, axis, true) == Err::<NdModel<i64>, AxisError>(e),
        },
{
    sort_axis(a, axis, true)
}

/// `argsort(a, axis)`: for each lane along the axis, the positions of its
/// elements in ascending order of value (equal values in order of
/// position); without an axis, the same for the flattened elements.
pub fn argsort(a: &NdArray<i64>, axis: Option<isize>) -> (r: Result<NdArray<i64>, AxisError>)
    requires
        nd_wf(a@),
        a.data@.len() <= i64::MAX,
        a.shape@.len() <= isize::MAX,
        partial_products_fit(a.shape@),
        strides_fit(a.shape@),
    ensures
        match r {
            Ok(b) => spec_sort_axis(a@, axis, false) == Ok::<NdModel<i64>, AxisError>(b@) && nd_wf(b@),
            Err(e) => spec_sort_axis(a@, axis, false) == Err::<NdModel<i64>, AxisError>(e),
        },
{
    sort_axis(a, axis, false)
}

/// `partition(a, kth)`: every lane along the last axis sorted, which puts
/// each `kth` element where it belongs for any `kth`.
pub fn partition(a: &NdArray<i64>) -> (r: Result<NdArray<i64>, AxisError>)
    requires
        nd_wf(a@),
        a.data@.len() <= i64::MAX,
        a.shape@.len() <= isize::MAX,
        partial_products_fit(a.shape@),
        strides_fit(a.shape@),
    ensures
        match r {
            Ok(b) => spec_sort_axis(a@, Some(-1isize), true) == Ok::<NdModel<i64>, AxisError>(b@) && nd_wf(b@),
            Err(e) => spec_sort_axis(a@, Some(-1isize), true) == Err::<NdModel<i64>, AxisError>(e),
        },
{
    sort_axis(a, Some(-1isize), true)
}

/// `argpartition(a, kth)`: the `argsort` of every lane along the last axis,
/// which orders each `kth` position correctly for any `kth`.
pub fn argpartition(a: &NdArray<i64>) -> (r: Result<NdArray<i64>, AxisError>)
    requires
        nd_wf(a@),
        a.data@.len() <= i64::MAX,
        a.shape@.len() <= isize::MAX,
        partial_products_fit(a.shape@),
        strides_fit(a.shape@),
    ensures
        match r {
            Ok(b) => spec_sort_axis(a@, Some(-1isize), false) == Ok::<NdModel<i64>, AxisError>(b@) && nd_wf(b@),
            Err(e) => spec_sort_axis(a@, Some(-1isize), false) == Err::<NdModel<i64>, AxisError>(e),
        },
{
    sort_axis(a, Some(-1isize), false)
}

/// `a.sort(axis)`: sorts every lane along the axis in place; an array
/// refused leaves the array as it was.
pub fn sort_in_place(a: &mut NdArray<i64>, axis: isize) -> (r: Result<(), AxisError>)
    requires
        nd_wf(old(a)@),
        old(a).data@.len() <= i64::MAX,
        old(a).shape@.len() <= isize::MAX,
        partial_products_fit(old(a).shape@),
        strides_fit(old(a).shape@),
    ensures
        match r {
            Ok(_) => spec_sort_axis(old(a)@, Some(axis), true) == Ok::<NdModel<i64>, AxisError>(final(a)@),
            Err(e) => spec_sort_axis(old(a)@, Some(axis), true) == Err::<NdModel<i64>, AxisError>(e) && final(a)@
                == old(a)@,
        },
{
    match sort_axis(a, Some(axis), true) {
        Ok(b) => {
            *a = b;
            Ok(())
        },
        Err(e) => Err(e),
    }
}

// ---------------------------------------------------------------------
// laws
// ---------------------------------------------------------------------

/// Subtracting what was added gives it back, in wrapping arithmetic.
pub proof fn lemma_wrapping_add_sub(c: i64, x: i64)
    ensures
        vstd::wrapping::i64_specs::wrapping_sub(vstd::wrapping::i64_specs::wrapping_add(c, x), c) == x,
{
}

/// `diff` of a 1-D array: the differences of neighbours.
proof fn lemma_diff_1d(c: NdModel<i64>)
    requires
        c.shape.len() == 1,
        c.data.len() == c.shape[0],
    ensures
        spec_diff(c, 0) is Ok,
        spec_diff(c, 0)->Ok_0.shape == seq![(if c.shape[0] > 0 { c.shape[0] - 1 } else { 0 }) as usize],
        spec_diff(c, 0)->Ok_0.data.len() == (if c.shape[0] > 0 { c.shape[0] - 1 } else { 0 }),
        forall|q: int| 0 <= q < c.shape[0] - 1 ==> #[trigger] spec_diff(c, 0)->Ok_0.data[q]
            == vstd::wrapping::i64_specs::wrapping_sub(c.data[q + 1], c.data[q]),
{
    let n = c.shape[0] as int;
    let m = if n > 0 { n - 1 } else { 0 };
    assert(spec_normalize_axis(0, 1) == Some(0int));
    assert(c.shape.skip(1) =~= Seq::<usize>::empty());
    assert(c.shape.take(0) =~= Seq::<usize>::empty());
    assert(inner_count(c.shape, 0) == 1);
    assert(outer_count(c.shape, 0) == 1);
    assert(c.shape.update(0, m as usize) =~= seq![m as usize]);
    let d = spec_diff(c, 0)->Ok_0;
    assert(d.data.len() == m) by (nonlinear_arith)
        requires
            d.data.len() == outer_count(c.shape, 0) * (m * inner_count(c.shape, 0)),
            outer_count(c.shape, 0) == 1,
            inner_count(c.shape, 0) == 1,
    ;
    assert forall|q: int| 0 <= q < n - 1 implies #[trigger] d.data[q] == vstd::wrapping::i64_specs::wrapping_sub(
        c.data[q + 1],
        c.data[q],
    ) by {
        lemma_position(q, 0, q, 0, m, 1);
        let lane = lane_at(c.data, n, 1, 0, 0);
        assert(lane[q + 1] == c.data[q + 1]);
        assert(lane[q] == c.data[q]);
    }
}

/// `diff` undoes `cumsum`: the first differences of the running sums of
/// the flattened array are its elements after the first.
pub proof fn lemma_diff_undoes_cumsum(a: NdModel<i64>)
    requires
        a.data.len() <= usize::MAX,
    ensures
        spec_cumulative(a, None, Accumulate::Sum) is Ok,
        spec_diff(spec_cumulative(a, None, Accumulate::Sum)->Ok_0, 0) == Ok::<NdModel<i64>, AxisError>(
            NdModel {
                shape: seq![(if a.data.len() > 0 { a.data.len() - 1 } else { 0 }) as usize],
                data: Seq::new(
                    (if a.data.len() > 0 { a.data.len() - 1 } else { 0 }) as nat,
                    |q: int| a.data[q + 1],
                ),
            },
        ),
{
    let n = a.data.len() as int;
    let c = spec_cumulative(a, None, Accumulate::Sum)->Ok_0;
    let m = if n > 0 { n - 1 } else { 0 };
    lemma_diff_1d(c);
    let d = spec_diff(c, 0)->Ok_0;
    assert forall|q: int| 0 <= q < m implies #[trigger] d.data[q] == a.data[q + 1] by {
        assert(a.data.take(q + 2).drop_last() =~= a.data.take(q + 1));
        assert(a.data.take(q + 2).last() == a.data[q + 1]);
        assert(c.data[q + 1] == acc_fold(Accumulate::Sum, a.data.take(q + 2)));
        assert(c.data[q] == acc_fold(Accumulate::Sum, a.data.take(q + 1)));
        lemma_wrapping_add_sub(acc_fold(Accumulate::Sum, a.data.take(q + 1)), a.data[q + 1]);
    }
    assert(d.data =~= Seq::new(m as nat, |q: int| a.data[q + 1]));
}

/// `argsort` gives a reordering of the positions, and the elements at those
/// positions are the elements in ascending order: `a[argsort(a)] ==
/// sort(a)`.
pub proof fn lemma_argsort_sorts(s: Seq<i64>)
    requires
        s.len() <= i64::MAX,
    ensures
        argsorted(s).to_multiset() == range_seq(s.len()).to_multiset(),
        Seq::new(s.len(), |k: int| s[argsorted(s)[k] as int]) == sorted_i64(s),
{
    let keys = seq![s];
    let le = lex_order(keys);
    let idx = argsorted(s);
    lemma_lex_order_total_pub(keys);
    range_seq(s.len()).lemma_sort_by_ensures(le);
    lemma_argsorted_len(s);
    let f = |k: i64| s[k as int];
    let t = Seq::new(s.len(), |k: int| s[idx[k] as int]);
    crate::sorting::lemma_map_values_same_elements(idx, range_seq(s.len()), f);
    assert(idx.map_values(f) =~= t);
    assert(range_seq(s.len()).map_values(f) =~= s);
    assert(vstd::relations::sorted_by(t, crate::sorting::i64_le())) by {
        assert forall|i: int, j: int| 0 <= i < j < t.len() implies (crate::sorting::i64_le())(t[i], t[j]) by {
            assert(le(idx[i], idx[j]));
        }
    }
    crate::sorting::lemma_i64_le_total();
    s.lemma_sort_by_ensures(crate::sorting::i64_le());
    vstd::seq_lib::lemma_sorted_unique(t, sorted_i64(s), crate::sorting::i64_le());
}

/// Lane `k` along an axis of `dim` entries with `inner` entries after it:
/// block `k / inner`, offset `k % inner`, the `dim` entries along the axis.
pub open spec fn lane_k<T>(data: Seq<T>, dim: int, inner: int, k: int) -> Seq<T> {
    Seq::new(dim as nat, |q: int| data[(k / inner) * (dim * inner) + q * inner + k % inner])
}

/// The lanes of `a` along `axis`, with the shape left when the axis is
/// taken out: lane `k` is the one whose reduction lands at position `k` of
/// that shape (row-major), so a function applied to each lane in order
/// gives the reduced array's elements in order.
pub fn lanes_along<T: Copy>(a: &NdArray<T>, axis: isize) -> (r: Result<(Vec<usize>, Vec<Vec<T>>), AxisError>)
    requires
        nd_wf(a@),
        a.shape@.len() <= isize::MAX,
        partial_products_fit(a.shape@),
        strides_fit(a.shape@),
    ensures
        match r {
            Ok((sh, ls)) => spec_normalize_axis(axis as int, a.shape@.len() as int) matches Some(ax) && sh@
                == a.shape@.remove(ax) && ls@.len() == outer_count(a.shape@, ax) * inner_count(a.shape@, ax)
                && forall|k: int| 0 <= k < ls@.len() ==> #[trigger] ls@[k]@ == lane_k(
                    a.data@,
                    a.shape@[ax] as int,
                    inner_count(a.shape@, ax) as int,
                    k,
                ),
            Err(e) => spec_normalize_axis(axis as int, a.shape@.len() as int) is None && e == (AxisError {
                axis,
                ndim: a.shape.len(),
            }),
        },
{
    let ax = match normalize_axis(axis, a.shape.len()) {
        Ok(x) => x,
        Err(e) => return Err(e),
    };
    let (outer, dim, inner) = axis_layout(a.shape.as_slice(), ax);
    let ghost d = dim as int;
    let ghost w = inner as int;
    let mut sh: Vec<usize> = Vec::new();
    let mut j: usize = 0;
    while j < a.shape.len()
        invariant
            j <= a.shape@.len(),
            ax < a.shape@.len(),
            j <= ax ==> sh@ == a.shape@.take(j as int),
            j > ax ==> sh@ == a.shape@.take(j as int).remove(ax as int),
        decreases a.shape@.len() - j,
    {
        if j != ax {
            sh.push(a.shape[j]);
        }
        j = j + 1;
        if j <= ax {
            assert(sh@ =~= a.shape@.take(j as int));
        } else if j == ax + 1 {
            assert(sh@ =~= a.shape@.take(j as int).remove(ax as int));
        } else {
            assert(sh@ =~= a.shape@.take(j as int).remove(ax as int));
        }
    }
    assert(a.shape@.take(j as int) =~= a.shape@);
    let total = a.data.len();
    let mut ls: Vec<Vec<T>> = Vec::new();
    let mut o: usize = 0;
    while o < outer
        invariant
            o <= outer,
            nd_wf(a@),
            a.data@.len() == outer * (dim * inner),
            total == a.data@.len(),
            dim * inner <= usize::MAX,
            d == dim,
            w == inner,
            ls@.len() == o * inner,
            forall|k: int| 0 <= k < ls@.len() ==> #[trigger] ls@[k]@ == lane_k(a.data@, d, w, k),
        decreases outer - o,
    {
        let mut i: usize = 0;
        while i < inner
            invariant
                o < outer,
                i <= inner,
                nd_wf(a@),
                a.data@.len() == outer * (dim * inner),
                total == a.data@.len(),
                dim * inner <= usize::MAX,
                d == dim,
                w == inner,
                ls@.len() == o * inner + i,
                forall|k: int| 0 <= k < ls@.len() ==> #[trigger] ls@[k]@ == lane_k(a.data@, d, w, k),
            decreases inner - i,
        {
            let ghost k = (o * inner + i) as int;
            proof {
                vstd::arithmetic::div_mod::lemma_fundamental_div_mod_converse(k, w, o as int, i as int);
            }
            let mut lane: Vec<T> = Vec::new();
            let mut q: usize = 0;
            while q < dim
                invariant
                    o < outer,
                    i < inner,
                    q <= dim,
                    a.data@.len() == outer * (dim * inner),
                    total == a.data@.len(),
                    dim * inner <= usize::MAX,
                    d == dim,
                    w == inner,
                    k == o * inner + i,
                    k / w == o,
                    k % w == i,
                    lane@.len() == q,
                    forall|t: int| 0 <= t < q ==> #[trigger] lane@[t] == a.data@[(k / w) * (d * w) + t * w + k % w],
                decreases dim - q,
            {
                proof {
                    lemma_advance(o as int, q as int, i as int, outer as int, dim as int, inner as int);
                    assert(q * inner >= 0 && o * (dim * inner) >= 0) by (nonlinear_arith)
                        requires
                            q >= 0,
                            inner >= 0,
                            o >= 0,
                            dim * inner >= 0,
                    ;
                }
                let p = o * (dim * inner) + q * inner + i;
                lane.push(a.data[p]);
                q = q + 1;
            }
            assert(lane@ =~= lane_k(a.data@, d, w, k));
            ls.push(lane);
            i = i + 1;
            assert(ls@.len() == o * inner + i) by (nonlinear_arith)
                requires
                    ls@.len() == k + 1,
                    k == o * inner + (i - 1),
            ;
        }
        o = o + 1;
        assert(ls@.len() == o * inner) by (nonlinear_arith)
            requires
                ls@.len() == (o - 1) * inner + inner,
        ;
    }
    Ok((sh, ls))
}

/// The axes listed, or every axis in order when none are.
pub open spec fn axes_or_all(axes: Option<Seq<isize>>, nd: nat) -> Seq<isize> {
    match axes {
        None => Seq::new(nd, |i: int| i as isize),
        Some(l) => l,
    }
}

/// The last `k` of `nd` positions, in order.
pub open spec fn tail_positions(nd: int, k: int) -> Seq<isize> {
    Seq::new(k as nat, |i: int| (nd - k + i) as isize)
}

/// The shape with the listed axes set to 1.
pub open spec fn ones_on(s: Seq<usize>, norm: Seq<int>) -> Seq<usize> {
    Seq::new(s.len(), |i: int| if norm.contains(i) { 1usize } else { s[i] })
}

/// The lanes for a reduction over several axes (every axis when none are
/// listed): the listed axes are moved to the end, in the order listed, and
/// each run of `L` consecutive elements of the result, `L` the product of
/// their extents, is one lane. Lane `j` is the one whose reduction lands
/// at position `j` of the shape left, given with the listed axes taken out,
/// or set to 1 with `keepdims`.
pub fn lanes_over_axes<T: Copy>(a: &NdArray<T>, axes: Option<&[isize]>, keepdims: bool) -> (r: Result<
    (Vec<usize>, Vec<Vec<T>>),
    MoveAxisError,
>)
    requires
        nd_wf(a@),
        a.shape@.len() <= isize::MAX,
        distinct_sources(
            axes_or_all(match axes { Some(x) => Some(x@), None => None }, a.shape@.len()),
            a.shape@.len() as int,
        ),
        spec_moveaxis(
            a@,
            axes_or_all(match axes { Some(x) => Some(x@), None => None }, a.shape@.len()),
            tail_positions(
                a.shape@.len() as int,
                axes_or_all(match axes { Some(x) => Some(x@), None => None }, a.shape@.len()).len() as int,
            ),
        ) matches Ok(b) ==> partial_products_fit(b.shape),
    ensures
        ({
            let nd = a.shape@.len();
            let list = axes_or_all(match axes { Some(x) => Some(x@), None => None }, nd);
            let k = list.len() as int;
            let moved = spec_moveaxis(a@, list, tail_positions(nd as int, k));
            match r {
                Ok((sh, ls)) => moved matches Ok(b) && {
                    let cut = nd - k;
                    let width = shape_product(b.shape.skip(cut)) as int;
                    &&& 0 <= cut
                    &&& b.shape.len() == nd
                    &&& ls@.len() == shape_product(b.shape.take(cut))
                    &&& forall|j: int| 0 <= j < ls@.len() ==> #[trigger] ls@[j]@ == b.data.subrange(
                        j * width,
                        (j + 1) * width,
                    )
                    &&& sh@ == (if keepdims {
                        ones_on(a.shape@, normalize_axes(list, nd as int)->Ok_0)
                    } else {
                        b.shape.take(cut)
                    })
                },
                Err(e) => moved == Err::<NdModel<T>, MoveAxisError>(e),
            }
        }),
{
    let nd = a.shape.len();
    let ghost axv = match axes { Some(x) => Some(x@), None => None };
    let mut list: Vec<isize> = Vec::new();
    match axes {
        None => {
            let mut i: usize = 0;
            while i < nd
                invariant
                    i <= nd,
                    nd <= isize::MAX,
                    list@ == Seq::new(i as nat, |q: int| q as isize),
                decreases nd - i,
            {
                list.push(i as isize);
                i = i + 1;
                assert(list@ =~= Seq::new(i as nat, |q: int| q as isize));
            }
        },
        Some(x) => {
            let mut i: usize = 0;
            while i < x.len()
                invariant
                    i <= x@.len(),
                    list@ == x@.take(i as int),
                decreases x@.len() - i,
            {
                list.push(x[i]);
                i = i + 1;
                assert(list@ =~= x@.take(i as int));
            }
            assert(x@.take(x@.len() as int) =~= x@);
        },
    }
    assert(list@ == axes_or_all(axv, nd as nat));
    let k = list.len();
    let norm = match normalize_list(list.as_slice(), nd) {
        Err(e) => return Err(MoveAxisError::Axis(e)),
        Ok(v) => v,
    };
    let ghost src = normalize_axes(list@, nd as int)->Ok_0;
    proof {
        crate::axes::lemma_normalized_in_range(list@, nd as int);
        assert forall|i: int, j: int| 0 <= i < j < src.len() implies src[i] != src[j] by {}
        lemma_distinct_len(src, nd as int);
    }
    let cut = nd - k;
    let mut dest: Vec<isize> = Vec::new();
    let mut i: usize = 0;
    while i < k
        invariant
            i <= k,
            k <= nd,
            cut == nd - k,
            nd <= isize::MAX,
            dest@ == tail_positions(nd as int, k as int).take(i as int),
        decreases k - i,
    {
        dest.push((cut + i) as isize);
        i = i + 1;
        assert(dest@ =~= tail_positions(nd as int, k as int).take(i as int));
    }
    assert(tail_positions(nd as int, k as int).take(k as int) =~= tail_positions(nd as int, k as int));
    let b = match moveaxis(a, list.as_slice(), dest.as_slice()) {
        Err(e) => return Err(e),
        Ok(b) => b,
    };
    proof {
        let dst = normalize_axes(dest@, nd as int)->Ok_0;
        crate::axes::lemma_normalized_in_range(dest@, nd as int);
        lemma_move_order_permutation(nd as nat, src, dst);
        crate::index::lemma_product_split(b.shape@, cut as int);
    }
    assert(b.shape@.len() == nd);
    let head = take_exec(b.shape.as_slice(), cut);
    assert forall|q: int| 0 <= q <= head@.len() implies #[trigger] shape_product(head@.take(q)) <= usize::MAX by {
        assert(head@.take(q) =~= b.shape@.take(q));
    }
    let outer = element_count(head.as_slice());
    let total = b.data.len();
    let ghost w = shape_product(b.shape@.skip(cut as int)) as int;
    let width: usize = if outer == 0 { 0 } else { total / outer };
    proof {
        if outer > 0 {
            vstd::arithmetic::div_mod::lemma_div_multiples_vanish(w, outer as int);
            assert(total == outer * w);
            assert((outer * w) / (outer as int) == w) by (nonlinear_arith)
                requires
                    outer > 0,
            ;
        }
    }
    let mut ls: Vec<Vec<T>> = Vec::new();
    let mut j: usize = 0;
    while j < outer
        invariant
            j <= outer,
            outer > 0 ==> width == w,
            total == b.data@.len(),
            total == outer * w,
            w >= 0,
            ls@.len() == j,
            forall|q: int| 0 <= q < j ==> #[trigger] ls@[q]@ == b.data@.subrange(q * w, (q + 1) * w),
        decreases outer - j,
    {
        assert((j + 1) * w <= outer * w && j * w <= (j + 1) * w) by (nonlinear_arith)
            requires
                j < outer,
                w >= 0,
        ;
        let start = j * width;
        assert(start + width == (j + 1) * w) by (nonlinear_arith)
            requires
                start == j * w,
                width == w,
        ;
        let mut lane: Vec<T> = Vec::new();
        let mut p: usize = 0;
        while p < width
            invariant
                p <= width,
                width == w,
                j < outer,
                start == j * w,
                start + width <= total,
                total == b.data@.len(),
                lane@ == b.data@.subrange(start as int, start + p),
            decreases width - p,
        {
            lane.push(b.data[start + p]);
            p = p + 1;
            assert(lane@ =~= b.data@.subrange(start as int, start + p));
        }
        ls.push(lane);
        j = j + 1;
    }
    let sh: Vec<usize> = if keepdims {
        let mut out: Vec<usize> = Vec::new();
        let mut d: usize = 0;
        while d < nd
            invariant
                d <= nd,
                nd == a.shape@.len(),
                norm@.len() == src.len(),
                forall|q: int| 0 <= q < norm@.len() ==> norm@[q] as int == #[trigger] src[q],
                out@ == ones_on(a.shape@, src).take(d as int),
            decreases nd - d,
        {
            let mut hit = false;
            let mut q: usize = 0;
            while q < norm.len()
                invariant
                    q <= norm@.len(),
                    hit == exists|t: int| 0 <= t < q && norm@[t] == d,
                decreases norm@.len() - q,
            {
                if norm[q] == d {
                    hit = true;
                }
                q = q + 1;
            }
            proof {
                if hit {
                    let t = choose|t: int| 0 <= t < norm@.len() && norm@[t] == d;
                    assert(src[t] == d as int);
                    assert(src.contains(d as int));
                } else {
                    if src.contains(d as int) {
                        let t = choose|t: int| 0 <= t < src.len() && src[t] == d as int;
                        assert(norm@[t] == d);
                    }
                }
            }
            out.push(if hit { 1 } else { a.shape[d] });
            d = d + 1;
            assert(out@ =~= ones_on(a.shape@, src).take(d as int));
        }
        assert(out@ =~= ones_on(a.shape@, src));
        out
    } else {
        head
    };
    Ok((sh, ls))
}

} // verus!
