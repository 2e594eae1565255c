//! Integer reductions (`sum`, `prod`, `min`, `max`) of `i64` arrays, over
//! the whole array, along one axis, or along several axes with `keepdims`.
use vstd::prelude::*;

use crate::nd::{inner_count, lemma_product_around_axis, nd_wf, outer_count, partial_products_fit, NdArray, NdModel};
use crate::npy::{element_count, shape_product};
use crate::reduce::{Reduce, ReduceError};
use crate::sorting::{sort_isize, sorted_isize};

verus! {

/// The reductions computed on integers.
pub open spec fn is_int_reduce(op: Reduce) -> bool {
    op == Reduce::Sum || op == Reduce::Prod || op == Reduce::Min || op == Reduce::Max
}

/// The reductions without an identity element.
pub open spec fn is_extremum(op: Reduce) -> bool {
    op == Reduce::Min || op == Reduce::Max
}

/// One step of a reduction.
pub open spec fn fold_step(op: Reduce, acc: int, x: int) -> int {
    match op {
        Reduce::Sum => acc + x,
        Reduce::Prod => acc * x,
        Reduce::Min => if x < acc { x } else { acc },
        _ => if x > acc { x } else { acc },
    }
}

/// The reduction of a sequence: a sum from 0, a product from 1, a minimum
/// or maximum from the first element.
pub open spec fn fold_seq(op: Reduce, s: Seq<i64>) -> int
    decreases s.len(),
{
    if s.len() == 0 {
        if op == Reduce::Prod { 1 } else { 0 }
    } else if s.len() == 1 && is_extremum(op) {
        s[0] as int
    } else {
        fold_step(op, fold_seq(op, s.drop_last()), s.last() as int)
    }
}

/// Every running value of the reduction fits in `i64`.
pub open spec fn fold_fits(op: Reduce, s: Seq<i64>) -> bool {
    forall|k: int| 0 <= k <= s.len() ==> i64::MIN <= #[trigger] fold_seq(op, s.take(k)) <= i64::MAX
}

/// Position `k` of a strided run.
pub open spec fn strided_pos(base: int, stride: int, k: int) -> int {
    base + k * stride
}

/// The elements `base`, `base + stride`, ... (`count` of them).
pub open spec fn strided(data: Seq<i64>, base: int, stride: int, count: nat) -> Seq<i64> {
    Seq::new(count, |k: int| data[strided_pos(base, stride, k)])
}

/// The reduction of a strided run of elements.
fn fold_strided(data: &[i64], base: usize, stride: usize, count: usize, op: Reduce) -> (r: i64)
    requires
        is_int_reduce(op),
        is_extremum(op) ==> count > 0,
        forall|k: int| 0 <= k < count ==> 0 <= #[trigger] strided_pos(base as int, stride as int, k) < data@.len(),
        fold_fits(op, strided(data@, base as int, stride as int, count as nat)),
    ensures
        r == fold_seq(op, strided(data@, base as int, stride as int, count as nat)),
{
    let ghost s = strided(data@, base as int, stride as int, count as nat);
    let mut acc: i64 = if op == Reduce::Prod { 1 } else { 0 };
    let mut k: usize = 0;
    let mut pos: usize = base;
    assert(s.take(0) =~= Seq::<i64>::empty());
    while k < count
        invariant
            k <= count,
            is_int_reduce(op),
            is_extremum(op) ==> count > 0,
            s == strided(data@, base as int, stride as int, count as nat),
            forall|q: int| 0 <= q < count ==> 0 <= #[trigger] strided_pos(base as int, stride as int, q) < data@.len(),
            fold_fits(op, s),
            k < count ==> pos == base + k * stride,
            acc == fold_seq(op, s.take(k as int)),
        decreases count - k,
    {
        let x = data[pos];
        assert(s.take(k + 1).drop_last() =~= s.take(k as int));
        assert(s.take(k + 1).last() == x);
        assert(i64::MIN <= fold_seq(op, s.take(k + 1)) <= i64::MAX);
        if k == 0 && (op == Reduce::Min || op == Reduce::Max) {
            acc = x;
        } else {
            acc = match op {
                Reduce::Sum => acc + x,
                Reduce::Prod => acc * x,
                Reduce::Min => if x < acc { x } else { acc },
                _ => if x > acc { x } else { acc },
            };
        }
        if k + 1 < count {
            assert(strided_pos(base as int, stride as int, k + 1) < data@.len());
            assert(base + (k + 1) * stride == pos + stride) by (nonlinear_arith)
                requires
                    pos == base + k * stride,
            ;
            pos = pos + stride;
        }
        k = k + 1;
    }
    assert(s.take(count as int) =~= s);
    acc
}

/// The run of elements that output position `g` of a reduction along `ax`
/// reduces.
pub open spec fn lane(a: NdModel<i64>, ax: int, g: int) -> Seq<i64> {
    let inner = inner_count(a.shape, ax) as int;
    let dim = a.shape[ax] as int;
    strided(a.data, (g / inner) * (dim * inner) + g % inner, inner, dim as nat)
}

/// `reduce` of an `i64` array on models: a minimum or maximum of an empty
/// array is refused; without an axis the reduction of all elements as a
/// 0-d array; with one, the reduction of each lane along it, the axis
/// removed from the shape.
pub open spec fn spec_reduce_i64(a: NdModel<i64>, axis: Option<isize>, op: Reduce) -> Result<NdModel<i64>, ReduceError> {
    let nd = a.shape.len() as int;
    if a.data.len() == 0 && is_extremum(op) {
        Err(ReduceError::Empty)
    } else {
        match axis {
            None => Ok(NdModel { shape: Seq::empty(), data: seq![fold_seq(op, a.data) as i64] }),
            Some(k) => {
                let ax = if k < 0 { k + nd } else { k as int };
                if ax < 0 || ax >= nd {
                    Err(ReduceError::AxisOutOfRange(ax as isize))
                } else {
                    Ok(NdModel {
                        shape: a.shape.remove(ax),
                        data: Seq::new(
                            outer_count(a.shape, ax) * inner_count(a.shape, ax),
                            |g: int| fold_seq(op, lane(a, ax, g)) as i64,
                        ),
                    })
                }
            },
        }
    }
}

/// The running values of `reduce` fit in `i64`.
pub open spec fn reduce_fits(a: NdModel<i64>, axis: Option<isize>, op: Reduce) -> bool {
    let nd = a.shape.len() as int;
    match axis {
        None => fold_fits(op, a.data),
        Some(k) => {
            let ax = if k < 0 { k + nd } else { k as int };
            0 <= ax < nd ==> lanes_fit(a, ax, op)
        },
    }
}

/// Every lane along `ax` reduces within `i64`.
pub open spec fn lanes_fit(a: NdModel<i64>, ax: int, op: Reduce) -> bool {
    forall|g: int| 0 <= g < outer_count(a.shape, ax) * inner_count(a.shape, ax) ==> #[trigger] fold_fits(op, lane(a, ax, g))
}

/// The counts `reduce` along an axis computes fit in `usize`.
pub open spec fn reduce_counts_fit(a: NdModel<i64>, axis: Option<isize>) -> bool {
    let nd = a.shape.len() as int;
    match axis {
        None => true,
        Some(k) => {
            let ax = if k < 0 { k + nd } else { k as int };
            0 <= ax < nd ==> partial_products_fit(a.shape.skip(ax + 1)) && outer_count(a.shape, ax) * inner_count(a.shape, ax) <= usize::MAX
        },
    }
}

/// Removing an axis leaves the outer times the inner count of cells.
proof fn lemma_remove_axis_product(s: Seq<usize>, ax: int)
    requires
        0 <= ax < s.len(),
    ensures
        shape_product(s.remove(ax)) == outer_count(s, ax) * inner_count(s, ax),
{
    let r = s.remove(ax);
    crate::index::lemma_product_split(r, ax);
    assert(r.take(ax) =~= s.take(ax));
    assert(r.skip(ax) =~= s.skip(ax + 1));
}

/// The positions of a lane lie in the array.
proof fn lemma_lane_in_bounds(outer: int, dim: int, inner: int, g: int, k: int)
    requires
        0 <= g < outer * inner,
        0 <= k < dim,
        inner > 0,
        outer >= 0,
    ensures
        0 <= (g / inner) * (dim * inner) + g % inner + k * inner < outer * (dim * inner),
{
    let o = g / inner;
    let i = g % inner;
    assert(0 <= i < inner) by (nonlinear_arith)
        requires
            inner > 0,
            i == g % inner,
    ;
    assert(0 <= o < outer) by (nonlinear_arith)
        requires
            inner > 0,
            0 <= g < outer * inner,
            o == g / inner,
    ;
    assert(0 <= o * (dim * inner) + i + k * inner < outer * (dim * inner)) by (nonlinear_arith)
        requires
            0 <= o < outer,
            0 <= i < inner,
            0 <= k < dim,
    ;
}

/// `reduce(a, axis, op)` of an `i64` array for the integer reductions
/// `Sum`, `Prod`, `Min` and `Max`.
pub fn reduce_i64(a: &NdArray<i64>, axis: Option<isize>, op: Reduce) -> (r: Result<NdArray<i64>, ReduceError>)
    requires
        nd_wf(a@),
        is_int_reduce(op),
        a.shape@.len() <= isize::MAX,
        partial_products_fit(a.shape@),
        reduce_counts_fit(a@, axis),
        reduce_fits(a@, axis, op),
    ensures
        match r {
            Ok(b) => spec_reduce_i64(a@, axis, op) == Ok::<NdModel<i64>, ReduceError>(b@) && nd_wf(b@),
            Err(e) => spec_reduce_i64(a@, axis, op) == Err::<NdModel<i64>, ReduceError>(e),
        },
{
    let n = a.data.len();
    if n == 0 && (op == Reduce::Min || op == Reduce::Max) {
        return Err(ReduceError::Empty);
    }
    let nd = a.shape.len();
    match axis {
        None => {
            proof {
                assert forall|k: int| 0 <= k < n implies 0 <= #[trigger] strided_pos(0, 1, k) < a.data@.len() by {}
                assert(strided(a.data@, 0, 1, n as nat) =~= a.data@);
            }
            let v = fold_strided(a.data.as_slice(), 0, 1, n, op);
            let r = NdArray { shape: Vec::new(), data: vec![v] };
            assert(r@.shape =~= Seq::<usize>::empty());
            assert(r@.data =~= seq![v]);
            Ok(r)
        },
        Some(k) => {
            let nd_i = nd as isize;
            let ax_i: isize = if k < 0 { k + nd_i } else { k };
            if ax_i < 0 || ax_i >= nd_i {
                return Err(ReduceError::AxisOutOfRange(ax_i));
            }
            let ax = ax_i as usize;
            proof {
                lemma_product_around_axis(a.shape@, ax as int);
                lemma_remove_axis_product(a.shape@, ax as int);
                crate::index::lemma_product_split(a.shape@, ax as int);
                assert forall|j: int| 0 <= j <= a.shape@.take(ax as int).len() implies #[trigger] shape_product(a.shape@.take(ax as int).take(j)) <= usize::MAX by {
                    assert(a.shape@.take(ax as int).take(j) =~= a.shape@.take(j));
                }
            }
            let outer = element_count(take_exec(a.shape.as_slice(), ax).as_slice());
            let inner = element_count(skip_exec(a.shape.as_slice(), ax + 1).as_slice());
            let dim = a.shape[ax];
            let mut data: Vec<i64> = Vec::new();
            let mut g: usize = 0;
            let total = outer * inner;
            while g < total
                invariant
                    g <= total,
                    nd_wf(a@),
                    n == a.data@.len(),
                    is_int_reduce(op),
                    is_extremum(op) ==> n > 0,
                    0 <= ax < a.shape@.len(),
                    outer == outer_count(a.shape@, ax as int),
                    inner == inner_count(a.shape@, ax as int),
                    dim == a.shape@[ax as int],
                    total == outer * inner,
                    n == outer * (dim * inner),
                    lanes_fit(a@, ax as int, op),
                    data@.len() == g,
                    forall|q: int| 0 <= q < g ==> #[trigger] data@[q] == fold_seq(op, lane(a@, ax as int, q)) as i64,
                decreases total - g,
            {
                assert(inner > 0) by (nonlinear_arith)
                    requires
                        g < outer * inner,
                        outer >= 0,
                        inner >= 0,
                ;
                assert(dim > 0 || !is_extremum(op)) by (nonlinear_arith)
                    requires
                        n == outer * (dim * inner),
                        is_extremum(op) ==> n > 0,
                ;
                let o = g / inner;
                let i = g % inner;
                assert forall|q: int| 0 <= q < dim implies 0 <= #[trigger] strided_pos((o * (dim * inner) + i) as int, inner as int, q) < a.data@.len() by {
                    lemma_lane_in_bounds(outer as int, dim as int, inner as int, g as int, q);
                }
                assert(dim * inner <= n) by (nonlinear_arith)
                    requires
                        n == outer * (dim * inner),
                        g < outer * inner,
                        outer >= 0,
                        dim >= 0,
                        inner >= 0,
                ;
                assert(i < inner) by (nonlinear_arith)
                    requires
                        inner > 0,
                        i == g % inner,
                ;
                assert(o * (dim * inner) + i <= usize::MAX) by {
                    if dim > 0 {
                        lemma_lane_in_bounds(outer as int, dim as int, inner as int, g as int, 0);
                    } else {
                        assert(o * (dim * inner) == 0) by (nonlinear_arith)
                            requires
                                dim == 0,
                        ;
                    }
                }
                let di = dim * inner;
                let base = o * di + i;
                assert(fold_fits(op, lane(a@, ax as int, g as int)));
                let v = fold_strided(a.data.as_slice(), base, inner, dim, op);
                data.push(v);
                g = g + 1;
            }
            let shape = remove_exec(a.shape.as_slice(), ax);
            let r = NdArray { shape, data };
            assert(r@.data =~= spec_reduce_i64(a@, axis, op)->Ok_0.data);
            Ok(r)
        },
    }
}

/// The first `k` dimensions, computed.
pub(crate) fn take_exec(s: &[usize], k: usize) -> (r: Vec<usize>)
    requires
        k <= s@.len(),
    ensures
        r@ == s@.take(k as int),
{
    let mut r: Vec<usize> = Vec::new();
    let mut i: usize = 0;
    while i < k
        invariant
            i <= k <= s@.len(),
            r@ == s@.take(i as int),
        decreases k - i,
    {
        r.push(s[i]);
        i = i + 1;
        assert(r@ =~= s@.take(i as int));
    }
    r
}

/// The dimensions from `k` on, computed.
pub(crate) fn skip_exec(s: &[usize], k: usize) -> (r: Vec<usize>)
    requires
        k <= s@.len(),
    ensures
        r@ == s@.skip(k as int),
{
    let mut r: Vec<usize> = Vec::new();
    let mut i: usize = k;
    while i < s.len()
        invariant
            k <= i <= s@.len(),
            r@ == s@.subrange(k as int, i as int),
        decreases s@.len() - i,
    {
        r.push(s[i]);
        i = i + 1;
        assert(r@ =~= s@.subrange(k as int, i as int));
    }
    r
}

/// The shape without axis `ax`, computed.
fn remove_exec(s: &[usize], ax: usize) -> (r: Vec<usize>)
    requires
        ax < s@.len(),
    ensures
        r@ == s@.remove(ax as int),
{
    let mut r: Vec<usize> = Vec::new();
    let mut i: usize = 0;
    while i < s.len()
        invariant
            i <= s@.len(),
            ax < s@.len(),
            r@ == (if i <= ax { s@.take(i as int) } else { s@.take(ax as int) + s@.subrange(ax + 1, i as int) }),
        decreases s@.len() - i,
    {
        if i != ax {
            r.push(s[i]);
        }
        i = i + 1;
        assert(r@ =~= (if i <= ax { s@.take(i as int) } else { s@.take(ax as int) + s@.subrange(ax + 1, i as int) }));
    }
    assert(r@ =~= s@.remove(ax as int));
    r
}

// ---------------------------------------------------------------------
// several axes
// ---------------------------------------------------------------------

/// The listed axes counted from the front, or an error for the first one
/// outside the array or already listed.
pub open spec fn multi_axes(axes: Seq<isize>, nd: int) -> Result<Seq<isize>, ReduceError>
    decreases axes.len(),
{
    if axes.len() == 0 {
        Ok(Seq::empty())
    } else {
        match multi_axes(axes.drop_last(), nd) {
            Err(e) => Err(e),
            Ok(p) => {
                let ax = axes.last();
                let na = if ax < 0 { ax + nd } else { ax as int };
                if na < 0 || na >= nd {
                    Err(ReduceError::AxisOutOfBounds(ax))
                } else if p.contains(na as isize) {
                    Err(ReduceError::DuplicateAxis(ax))
                } else {
                    Ok(p.push(na as isize))
                }
            },
        }
    }
}

/// Reducing along each axis of a list in turn.
pub open spec fn reduce_steps(a: NdModel<i64>, axes: Seq<isize>, op: Reduce) -> Result<NdModel<i64>, ReduceError>
    decreases axes.len(),
{
    if axes.len() == 0 {
        Ok(a)
    } else {
        match spec_reduce_i64(a, Some(axes[0]), op) {
            Err(e) => Err(e),
            Ok(b) => reduce_steps(b, axes.drop_first(), op),
        }
    }
}

/// Every step of `reduce_steps` runs within the machine's limits.
pub open spec fn steps_fit(a: NdModel<i64>, axes: Seq<isize>, op: Reduce) -> bool
    decreases axes.len(),
{
    axes.len() == 0 || {
        &&& partial_products_fit(a.shape)
        &&& reduce_counts_fit(a, Some(axes[0]))
        &&& reduce_fits(a, Some(axes[0]), op)
        &&& match spec_reduce_i64(a, Some(axes[0]), op) {
            Ok(b) => steps_fit(b, axes.drop_first(), op),
            Err(_) => true,
        }
    }
}

/// The shape with the listed axes set to 1.
pub open spec fn ones_at(s: Seq<usize>, axes: Seq<isize>) -> Seq<usize> {
    Seq::new(s.len(), |i: int| if axes.contains(i as isize) { 1usize } else { s[i] })
}

/// A reduced array given the `keepdims` shape, when it has as many cells.
pub open spec fn keep_dims(r: NdModel<i64>, ks: Seq<usize>, keepdims: bool) -> Result<NdModel<i64>, ReduceError> {
    if !keepdims {
        Ok(r)
    } else if r.data.len() == shape_product(ks) {
        Ok(NdModel { shape: ks, data: r.data })
    } else {
        Err(ReduceError::KeepDimsMismatch)
    }
}

/// `reduce_multi` of an `i64` array on models: without axes, the whole
/// reduction (every axis kept as 1 with `keepdims`); with axes, checked
/// (in range, none twice) and reduced one at a time from the last, the
/// reduced axes kept as 1 with `keepdims`.
pub open spec fn spec_reduce_multi_i64(a: NdModel<i64>, axes: Option<Seq<isize>>, keepdims: bool, op: Reduce) -> Result<NdModel<i64>, ReduceError> {
    let nd = a.shape.len() as int;
    match axes {
        None => match spec_reduce_i64(a, None, op) {
            Err(e) => Err(e),
            Ok(r) => keep_dims(r, Seq::new(nd as nat, |i: int| 1usize), keepdims),
        },
        Some(list) => match multi_axes(list, nd) {
            Err(e) => Err(e),
            Ok(norm) => match reduce_steps(a, sorted_isize(norm).reverse(), op) {
                Err(e) => Err(e),
                Ok(r) => keep_dims(r, ones_at(a.shape, norm), keepdims),
            },
        },
    }
}

/// The machine limits `reduce_multi` needs.
pub open spec fn multi_fits(a: NdModel<i64>, axes: Option<Seq<isize>>, op: Reduce) -> bool {
    match axes {
        None => reduce_fits(a, None, op),
        Some(list) => match multi_axes(list, a.shape.len() as int) {
            Err(_) => true,
            Ok(norm) => steps_fit(a, sorted_isize(norm).reverse(), op) && partial_products_fit(ones_at(a.shape, norm)),
        },
    }
}

fn keep_dims_exec(r: NdArray<i64>, ks: Vec<usize>, keepdims: bool) -> (out: Result<NdArray<i64>, ReduceError>)
    requires
        nd_wf(r@),
        partial_products_fit(ks@),
    ensures
        match out {
            Ok(b) => keep_dims(r@, ks@, keepdims) == Ok::<NdModel<i64>, ReduceError>(b@) && nd_wf(b@),
            Err(e) => keep_dims(r@, ks@, keepdims) == Err::<NdModel<i64>, ReduceError>(e),
        },
{
    if !keepdims {
        return Ok(r);
    }
    let cells = element_count(ks.as_slice());
    if r.data.len() != cells {
        return Err(ReduceError::KeepDimsMismatch);
    }
    Ok(NdArray { shape: ks, data: r.data })
}

/// `reduce_multi(a, axes, keepdims, op)` of an `i64` array for the integer
/// reductions.
pub fn reduce_multi_i64(a: &NdArray<i64>, axes: Option<&[isize]>, keepdims: bool, op: Reduce) -> (r: Result<NdArray<i64>, ReduceError>)
    requires
        nd_wf(a@),
        is_int_reduce(op),
        a.shape@.len() <= isize::MAX,
        partial_products_fit(a.shape@),
        multi_fits(a@, match axes { Some(x) => Some(x@), None => None }, op),
    ensures
        match r {
            Ok(b) => spec_reduce_multi_i64(a@, match axes { Some(x) => Some(x@), None => None }, keepdims, op) == Ok::<NdModel<i64>, ReduceError>(b@),
            Err(e) => spec_reduce_multi_i64(a@, match axes { Some(x) => Some(x@), None => None }, keepdims, op) == Err::<NdModel<i64>, ReduceError>(e),
        },
{
    let ghost ax_opt = match axes { Some(x) => Some(x@), None => None };
    let nd = a.shape.len();
    match axes {
        None => {
            let red = match reduce_i64(a, None, op) {
                Err(e) => return Err(e),
                Ok(b) => b,
            };
            let mut ks: Vec<usize> = Vec::new();
            let mut i: usize = 0;
            while i < nd
                invariant
                    i <= nd,
                    ks@ == Seq::new(i as nat, |q: int| 1usize),
                decreases nd - i,
            {
                ks.push(1);
                i = i + 1;
                assert(ks@ =~= Seq::new(i as nat, |q: int| 1usize));
            }
            proof {
                lemma_ones_fit(ks@);
            }
            keep_dims_exec(red, ks, keepdims)
        },
        Some(list) => {
            let nd_i = nd as isize;
            let mut norm: Vec<isize> = Vec::new();
            let mut i: usize = 0;
            assert(list@.take(0) =~= Seq::<isize>::empty());
            while i < list.len()
                invariant
                    i <= list@.len(),
                    nd == a.shape@.len(),
                    nd_i == nd,
                    nd <= isize::MAX,
                    ax_opt == Some(list@),
                    ax_opt == (match axes { Some(x) => Some(x@), None => None }),
                    multi_axes(list@.take(i as int), nd as int) == Ok::<Seq<isize>, ReduceError>(norm@),
                decreases list@.len() - i,
            {
                assert(list@.take(i + 1).drop_last() =~= list@.take(i as int));
                let ax = list[i];
                let na: isize = if ax < 0 { ax + nd_i } else { ax };
                if na < 0 || na >= nd_i {
                    proof {
                        lemma_multi_prefix_err(list@, nd as int, (i + 1) as int);
                    }
                    return Err(ReduceError::AxisOutOfBounds(ax));
                }
                let mut dup = false;
                let mut j: usize = 0;
                while j < norm.len()
                    invariant
                        j <= norm@.len(),
                        dup == exists|q: int| 0 <= q < j && norm@[q] == na,
                    decreases norm@.len() - j,
                {
                    if norm[j] == na {
                        dup = true;
                    }
                    j = j + 1;
                }
                if dup {
                    proof {
                        let q = choose|q: int| 0 <= q < norm@.len() && norm@[q] == na;
                        assert(norm@.contains(na));
                        lemma_multi_prefix_err(list@, nd as int, (i + 1) as int);
                    }
                    return Err(ReduceError::DuplicateAxis(ax));
                }
                assert(!norm@.contains(na));
                norm.push(na);
                i = i + 1;
            }
            assert(list@.take(list@.len() as int) =~= list@);
            let sorted = sort_isize(norm.as_slice());
            let mut desc: Vec<isize> = Vec::new();
            let mut k: usize = sorted.len();
            while k > 0
                invariant
                    k <= sorted@.len(),
                    desc@ == sorted@.skip(k as int).reverse(),
                decreases k,
            {
                k = k - 1;
                desc.push(sorted[k]);
                assert(desc@ =~= sorted@.skip(k as int).reverse());
            }
            assert(sorted@.skip(0) =~= sorted@);
            let ghost full = reduce_steps(a@, desc@, op);
            let mut cur = crate::nd::clone_array(a);
            let mut s: usize = 0;
            assert(desc@.skip(0) =~= desc@);
            while s < desc.len()
                invariant
                    s <= desc@.len(),
                    is_int_reduce(op),
                    ax_opt == Some(list@),
                    ax_opt == (match axes { Some(x) => Some(x@), None => None }),
                    nd == a.shape@.len(),
                    multi_axes(list@, nd as int) == Ok::<Seq<isize>, ReduceError>(norm@),
                    desc@ == sorted_isize(norm@).reverse(),
                    full == reduce_steps(a@, desc@, op),
                    nd_wf(cur@),
                    cur@.shape.len() <= isize::MAX,
                    full == reduce_steps(cur@, desc@.skip(s as int), op),
                    steps_fit(cur@, desc@.skip(s as int), op),
                decreases desc@.len() - s,
            {
                let ghost rest = desc@.skip(s as int);
                assert(rest[0] == desc@[s as int]);
                assert(rest.drop_first() =~= desc@.skip(s + 1));
                match reduce_i64(&cur, Some(desc[s]), op) {
                    Err(e) => {
                        return Err(e);
                    },
                    Ok(b) => {
                        cur = b;
                    },
                }
                s = s + 1;
            }
            assert(desc@.skip(desc@.len() as int) =~= Seq::<isize>::empty());
            let mut ks: Vec<usize> = Vec::new();
            let mut q: usize = 0;
            while q < nd
                invariant
                    q <= nd,
                    nd == a.shape@.len(),
                    nd <= isize::MAX,
                    ks@ == ones_at(a.shape@, norm@).take(q as int),
                decreases nd - q,
            {
                let mut hit = false;
                let mut j: usize = 0;
                while j < norm.len()
                    invariant
                        j <= norm@.len(),
                        q < nd,
                        nd <= isize::MAX,
                        hit == exists|p: int| 0 <= p < j && norm@[p] == q as isize,
                    decreases norm@.len() - j,
                {
                    if norm[j] == q as isize {
                        hit = true;
                    }
                    j = j + 1;
                }
                proof {
                    if hit {
                        let p = choose|p: int| 0 <= p < norm@.len() && norm@[p] == q as isize;
                        assert(norm@.contains(q as isize));
                    }
                }
                ks.push(if hit { 1 } else { a.shape[q] });
                q = q + 1;
                assert(ks@ =~= ones_at(a.shape@, norm@).take(q as int));
            }
            assert(ks@ =~= ones_at(a.shape@, norm@));
            keep_dims_exec(cur, ks, keepdims)
        },
    }
}

/// Shapes of ones fit.
proof fn lemma_ones_fit(s: Seq<usize>)
    requires
        forall|i: int| 0 <= i < s.len() ==> #[trigger] s[i] == 1,
    ensures
        partial_products_fit(s),
{
    assert forall|k: int| 0 <= k <= s.len() implies #[trigger] shape_product(s.take(k)) <= usize::MAX by {
        lemma_ones_product(s.take(k));
    }
}

proof fn lemma_ones_product(s: Seq<usize>)
    requires
        forall|i: int| 0 <= i < s.len() ==> #[trigger] s[i] == 1,
    ensures
        shape_product(s) == 1,
    decreases s.len(),
{
    if s.len() > 0 {
        lemma_ones_product(s.drop_last());
        assert(s.last() == 1);
    }
}

/// An error for a prefix of the axis list is the error for the whole list.
proof fn lemma_multi_prefix_err(axes: Seq<isize>, nd: int, k: int)
    requires
        0 <= k <= axes.len(),
        multi_axes(axes.take(k), nd) is Err,
    ensures
        multi_axes(axes, nd) == multi_axes(axes.take(k), nd),
    decreases axes.len() - k,
{
    if k < axes.len() {
        assert(axes.take(k + 1).drop_last() =~= axes.take(k));
        lemma_multi_prefix_err(axes, nd, k + 1);
    } else {
        assert(axes.take(k) =~= axes);
    }
}

/// Listing the same axes in another order gives the same reduction.
pub proof fn lemma_reduce_multi_order(a: NdModel<i64>, l1: Seq<isize>, l2: Seq<isize>, keepdims: bool, op: Reduce)
    requires
        multi_axes(l1, a.shape.len() as int) is Ok,
        multi_axes(l2, a.shape.len() as int) is Ok,
        multi_axes(l1, a.shape.len() as int)->Ok_0.to_multiset() == multi_axes(l2, a.shape.len() as int)->Ok_0.to_multiset(),
    ensures
        spec_reduce_multi_i64(a, Some(l1), keepdims, op) == spec_reduce_multi_i64(a, Some(l2), keepdims, op),
{
    broadcast use vstd::seq_lib::group_to_multiset_ensures;
    let n1 = multi_axes(l1, a.shape.len() as int)->Ok_0;
    let n2 = multi_axes(l2, a.shape.len() as int)->Ok_0;
    let le = crate::sorting::isize_le();
    assert(vstd::relations::total_ordering(le));
    n1.lemma_sort_by_ensures(le);
    n2.lemma_sort_by_ensures(le);
    vstd::seq_lib::lemma_sorted_unique(sorted_isize(n1), sorted_isize(n2), le);
    assert(ones_at(a.shape, n1) =~= ones_at(a.shape, n2)) by {
        assert forall|i: int| 0 <= i < a.shape.len() implies #[trigger] ones_at(a.shape, n1)[i] == ones_at(a.shape, n2)[i] by {
            assert(n1.to_multiset().contains(i as isize) == n2.to_multiset().contains(i as isize));
        }
    }
}

} // verus!
