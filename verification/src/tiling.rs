//! Arrays built by repeating another: `resize`, `repeat`, `tile`,
//! `broadcast_to`, the new-axis joins `stack` and `expand_dims`, and
//! `squeeze`, which drops the axes of length 1.
use vstd::prelude::*;

use crate::index::{flat_index, in_bounds, lemma_flat_bound, lemma_unflat_flat, unflat_index};
use crate::linalg::{normalize_axis, spec_normalize_axis, AxisError};
use crate::nd::{
    flatten, slice_along_axis, spec_flatten, spec_slice_axis, lemma_product_small,
    broadcast_index, broadcast_index_exec, broadcast_source, concat_fits, concatenate, copy_vec, flat_exec,
    lemma_broadcast_index_in_bounds, models, nd_wf, partial_products_fit, spec_concatenate, unflat_exec,
    ArrayError, NdArray, NdModel,
};
use crate::npy::{element_count, shape_product};
use crate::sorting::{sort_isize, sorted_isize};

verus! {

// ---------------------------------------------------------------------
// resize
// ---------------------------------------------------------------------

/// Why `resize` refuses its input.
#[derive(Clone, Copy, Debug, PartialEq, Eq, Structural)]
pub enum ResizeError {
    /// An array without elements has nothing to repeat.
    EmptySource,
}

/// `resize` on models: the flattened elements repeated cyclically to fill
/// the new shape.
pub open spec fn spec_resize<T>(a: NdModel<T>, shape: Seq<usize>) -> Result<NdModel<T>, ResizeError> {
    if a.data.len() == 0 {
        Err(ResizeError::EmptySource)
    } else {
        Ok(NdModel { shape: shape, data: Seq::new(shape_product(shape), |i: int| a.data[i % (a.data.len() as int)]) })
    }
}

/// `resize(a, new_shape)`: an array of the new shape filled with the
/// elements of `a` in order, starting over at the first when they run out.
pub fn resize<T: Copy>(a: &NdArray<T>, shape: &[usize]) -> (r: Result<NdArray<T>, ResizeError>)
    requires
        partial_products_fit(shape@),
    ensures
        match r {
            Ok(b) => spec_resize(a@, shape@) == Ok::<NdModel<T>, ResizeError>(b@) && nd_wf(b@),
            Err(e) => spec_resize(a@, shape@) == Err::<NdModel<T>, ResizeError>(e),
        },
{
    let total = element_count(shape);
    let len = a.data.len();
    if len == 0 {
        return Err(ResizeError::EmptySource);
    }
    let mut data: Vec<T> = Vec::new();
    let mut i: usize = 0;
    while i < total
        invariant
            i <= total,
            len == a.data@.len(),
            len > 0,
            data@.len() == i,
            forall|k: int| 0 <= k < i ==> #[trigger] data@[k] == a.data@[k % (len as int)],
        decreases total - i,
    {
        data.push(a.data[i % len]);
        i = i + 1;
    }
    let r = NdArray { shape: copy_vec(shape), data };
    assert(r@.data =~= spec_resize(a@, shape@)->Ok_0.data);
    Ok(r)
}

// ---------------------------------------------------------------------
// repeat
// ---------------------------------------------------------------------

/// `repeat` on models: each element of the flattened array `n` times in a
/// row, as a 1-D array.
pub open spec fn spec_repeat<T>(a: NdModel<T>, n: nat) -> NdModel<T> {
    NdModel {
        shape: seq![(a.data.len() * n) as usize],
        data: Seq::new(a.data.len() * n, |i: int| a.data[i / (n as int)]),
    }
}

/// `repeat(a, n)` (no axis): the flattened elements, each repeated `n`
/// times.
pub fn repeat<T: Copy>(a: &NdArray<T>, n: usize) -> (r: NdArray<T>)
    requires
        a.data@.len() * n <= usize::MAX,
    ensures
        r@ == spec_repeat(a@, n as nat),
        nd_wf(r@),
{
    let len = a.data.len();
    let mut data: Vec<T> = Vec::new();
    let mut i: usize = 0;
    while i < len
        invariant
            i <= len,
            len == a.data@.len(),
            len * n <= usize::MAX,
            data@.len() == i * n,
            forall|k: int| 0 <= k < i * n ==> #[trigger] data@[k] == a.data@[k / (n as int)],
        decreases len - i,
    {
        assert((i + 1) * n <= len * n) by (nonlinear_arith)
            requires
                i < len,
        ;
        let mut j: usize = 0;
        while j < n
            invariant
                i < len,
                len == a.data@.len(),
                (i + 1) * n <= usize::MAX,
                j <= n,
                data@.len() == i * n + j,
                forall|k: int| 0 <= k < i * n + j ==> #[trigger] data@[k] == a.data@[k / (n as int)],
            decreases n - j,
        {
            let ghost k = i * n + j;
            assert(k / (n as int) == i as int) by (nonlinear_arith)
                requires
                    k == i * n + j,
                    j < n,
            ;
            assert(i * n + j < (i + 1) * n) by (nonlinear_arith)
                requires
                    j < n,
            ;
            data.push(a.data[i]);
            j = j + 1;
        }
        assert(i * n + n == (i + 1) * n) by (nonlinear_arith);
        i = i + 1;
    }
    let total = len * n;
    let r = NdArray { shape: vec![total], data };
    proof {
        crate::nd::lemma_product_small(total, 1, 1);
    }
    assert(r@.shape =~= seq![total]);
    assert(r@.data =~= spec_repeat(a@, n as nat).data);
    r
}

// ---------------------------------------------------------------------
// broadcast_to
// ---------------------------------------------------------------------

/// An array of shape `s` broadcasts to shape `t`: `t` has at least as many
/// dimensions, and each dimension of `s` is 1 or the matching (right-aligned)
/// dimension of `t`.
pub open spec fn broadcasts_to(s: Seq<usize>, t: Seq<usize>) -> bool {
    &&& t.len() >= s.len()
    &&& forall|i: int| 0 <= i < s.len() && s[i] != 1 ==> #[trigger] s[i] == t[i + t.len() - s.len()]
}

/// `broadcast_to` on models: the array read at the broadcast index of each
/// position of the new shape, or an error when the shapes do not fit.
pub open spec fn spec_broadcast_to<T>(a: NdModel<T>, t: Seq<usize>) -> Result<NdModel<T>, ArrayError> {
    if broadcasts_to(a.shape, t) {
        Ok(NdModel { shape: t, data: Seq::new(shape_product(t), |f: int| a.data[broadcast_source(a.shape, t, f)]) })
    } else {
        Err(ArrayError::IncompatibleShapes)
    }
}

/// `broadcast_to(a, shape)`: `a` repeated along its dimensions of size 1
/// (and new leading dimensions) to fill `shape`.
pub fn broadcast_to<T: Copy>(a: &NdArray<T>, shape: &[usize]) -> (r: Result<NdArray<T>, ArrayError>)
    requires
        nd_wf(a@),
        partial_products_fit(shape@),
    ensures
        match r {
            Ok(b) => spec_broadcast_to(a@, shape@) == Ok::<NdModel<T>, ArrayError>(b@) && nd_wf(b@),
            Err(e) => spec_broadcast_to(a@, shape@) == Err::<NdModel<T>, ArrayError>(e),
        },
{
    let nd = a.shape.len();
    let tn = shape.len();
    if tn < nd {
        return Err(ArrayError::IncompatibleShapes);
    }
    let off = tn - nd;
    let mut i: usize = 0;
    while i < nd
        invariant
            i <= nd,
            nd == a.shape@.len(),
            tn == shape@.len(),
            off + nd == tn,
            forall|k: int| 0 <= k < i && a.shape@[k] != 1 ==> #[trigger] a.shape@[k] == shape@[k + tn - nd],
        decreases nd - i,
    {
        if a.shape[i] != 1 && a.shape[i] != shape[i + off] {
            return Err(ArrayError::IncompatibleShapes);
        }
        i = i + 1;
    }
    let n = element_count(shape);
    let na = a.data.len();
    let mut data: Vec<T> = Vec::new();
    let mut f: usize = 0;
    while f < n
        invariant
            f <= n,
            n == shape_product(shape@),
            nd_wf(a@),
            na == a.data@.len(),
            broadcasts_to(a.shape@, shape@),
            data@.len() == f,
            forall|g: int| 0 <= g < f ==> #[trigger] data@[g] == a.data@[broadcast_source(a.shape@, shape@, g)],
        decreases n - f,
    {
        let u = unflat_exec(shape, f);
        proof {
            lemma_unflat_flat(shape@, f as int);
        }
        let ia = broadcast_index_exec(a.shape.as_slice(), u.as_slice());
        proof {
            lemma_broadcast_index_in_bounds(a.shape@, shape@, u@);
            lemma_flat_bound(a.shape@, ia@);
        }
        let fa = flat_exec(a.shape.as_slice(), ia.as_slice());
        data.push(a.data[fa]);
        f = f + 1;
    }
    let r = NdArray { shape: copy_vec(shape), data };
    assert(r@.data =~= spec_broadcast_to(a@, shape@)->Ok_0.data);
    Ok(r)
}

// ---------------------------------------------------------------------
// stack
// ---------------------------------------------------------------------

/// A shape with a new dimension of 1 at `axis` (unchanged when `axis` lies
/// past its end).
pub open spec fn with_new_axis(s: Seq<usize>, axis: int) -> Seq<usize> {
    if axis <= s.len() { s.insert(axis, 1usize) } else { s }
}

/// The arrays, each given a new axis of length 1 at `axis`.
pub open spec fn new_axis_models<T>(arrs: Seq<NdArray<T>>, axis: int) -> Seq<NdModel<T>> {
    Seq::new(arrs.len(), |i: int| NdModel { shape: with_new_axis(arrs[i]@.shape, axis), data: arrs[i]@.data })
}

/// `stack` on models: refused for no arrays or an axis past the first
/// array's rank; otherwise the arrays, each with a new axis of length 1 at
/// `axis`, joined along it.
pub open spec fn spec_stack<T>(arrs: Seq<NdArray<T>>, axis: int) -> Result<NdModel<T>, ArrayError> {
    if arrs.len() == 0 {
        Err(ArrayError::NoArrays)
    } else if axis > arrs[0]@.shape.len() {
        Err(ArrayError::AxisOutOfBounds)
    } else {
        spec_concatenate(new_axis_models(arrs, axis), axis)
    }
}

/// Inserting a dimension of 1 keeps the product of a shape.
proof fn lemma_insert_one_product(s: Seq<usize>, axis: int)
    requires
        0 <= axis <= s.len(),
    ensures
        shape_product(s.insert(axis, 1usize)) == shape_product(s),
{
    let t = s.insert(axis, 1usize);
    crate::index::lemma_product_split(t, axis);
    crate::index::lemma_product_split(s, axis);
    crate::index::lemma_product_front(t.skip(axis));
    assert(t.take(axis) =~= s.take(axis));
    assert(t.skip(axis).drop_first() =~= s.skip(axis));
    assert(t.skip(axis)[0] == 1);
    let p = shape_product(s.take(axis)) as int;
    let q = shape_product(s.skip(axis)) as int;
    assert(p * (1 * q) == p * q) by (nonlinear_arith);
}

/// `s` with `1` inserted at `axis`, computed.
fn insert_one(s: &[usize], axis: usize) -> (r: Vec<usize>)
    requires
        axis <= s@.len(),
    ensures
        r@ == s@.insert(axis as int, 1usize),
{
    let mut r: Vec<usize> = Vec::new();
    let mut i: usize = 0;
    while i < axis
        invariant
            i <= axis <= s@.len(),
            r@ == s@.take(i as int),
        decreases axis - i,
    {
        r.push(s[i]);
        i = i + 1;
        assert(r@ =~= s@.take(i as int));
    }
    r.push(1);
    while i < s.len()
        invariant
            axis <= i <= s@.len(),
            r@ == s@.take(axis as int).push(1usize) + s@.subrange(axis as int, i as int),
        decreases s@.len() - i,
    {
        r.push(s[i]);
        i = i + 1;
        assert(r@ =~= s@.take(axis as int).push(1usize) + s@.subrange(axis as int, i as int));
    }
    assert(r@ =~= s@.insert(axis as int, 1usize));
    r
}

/// `stack(arrays, axis)`: the arrays joined along a new axis at position
/// `axis` of the result.
pub fn stack<T: Copy>(arrays: &[NdArray<T>], axis: usize) -> (r: Result<NdArray<T>, ArrayError>)
    requires
        forall|i: int| 0 <= i < arrays@.len() ==> nd_wf(#[trigger] arrays@[i]@),
        concat_fits(new_axis_models(arrays@, axis as int), axis as int),
    ensures
        match r {
            Ok(v) => spec_stack(arrays@, axis as int) == Ok::<NdModel<T>, ArrayError>(v@) && nd_wf(v@),
            Err(e) => spec_stack(arrays@, axis as int) == Err::<NdModel<T>, ArrayError>(e),
        },
{
    if arrays.len() == 0 {
        return Err(ArrayError::NoArrays);
    }
    if axis > arrays[0].shape.len() {
        return Err(ArrayError::AxisOutOfBounds);
    }
    let mut parts: Vec<NdArray<T>> = Vec::new();
    let mut i: usize = 0;
    while i < arrays.len()
        invariant
            i <= arrays@.len(),
            forall|j: int| 0 <= j < arrays@.len() ==> nd_wf(#[trigger] arrays@[j]@),
            parts@.len() == i,
            forall|j: int| 0 <= j < i ==> (#[trigger] parts@[j])@ == new_axis_models(arrays@, axis as int)[j] && nd_wf(parts@[j]@),
        decreases arrays@.len() - i,
    {
        let a = &arrays[i];
        assert(nd_wf(arrays@[i as int]@));
        let shape = if axis <= a.shape.len() {
            proof {
                lemma_insert_one_product(a.shape@, axis as int);
            }
            insert_one(a.shape.as_slice(), axis)
        } else {
            copy_vec(a.shape.as_slice())
        };
        let p = NdArray { shape, data: copy_vec(a.data.as_slice()) };
        parts.push(p);
        i = i + 1;
    }
    assert(models(parts@) =~= new_axis_models(arrays@, axis as int));
    concatenate(parts.as_slice(), axis)
}

// ---------------------------------------------------------------------
// tile
// ---------------------------------------------------------------------

/// `k` dimensions of length 1.
pub open spec fn ones(k: nat) -> Seq<usize> {
    Seq::new(k, |i: int| 1usize)
}

/// The rank of a tiling: the larger of the array's rank and the number of
/// repetition counts.
pub open spec fn tile_rank(s: Seq<usize>, reps: Seq<usize>) -> nat {
    if s.len() >= reps.len() { s.len() } else { reps.len() }
}

/// `s` with leading 1s up to `n` dimensions.
pub open spec fn pad_front(s: Seq<usize>, n: nat) -> Seq<usize> {
    ones((n - s.len()) as nat) + s
}

/// Each tiled dimension fits in `usize`.
pub open spec fn tile_dims_fit(s: Seq<usize>, reps: Seq<usize>) -> bool {
    let n = tile_rank(s, reps);
    forall|i: int| 0 <= i < n ==> #[trigger] pad_front(s, n)[i] * pad_front(reps, n)[i] <= usize::MAX
}

/// The shape of a tiling: each (padded) dimension times its (padded)
/// repetition count.
pub open spec fn tile_shape(s: Seq<usize>, reps: Seq<usize>) -> Seq<usize> {
    let n = tile_rank(s, reps);
    Seq::new(n, |i: int| (pad_front(s, n)[i] * pad_front(reps, n)[i]) as usize)
}

/// The index of the (padded) array that index `u` of the tiling reads.
pub open spec fn tile_source(ps: Seq<usize>, u: Seq<usize>) -> Seq<usize> {
    Seq::new(ps.len(), |i: int| (u[i] as int % ps[i] as int) as usize)
}

/// `tile` on models: the array repeated `reps[i]` times along axis `i`,
/// the shape and the counts both padded with leading 1s to the same rank.
pub open spec fn spec_tile<T>(a: NdModel<T>, reps: Seq<usize>) -> NdModel<T> {
    let ps = pad_front(a.shape, tile_rank(a.shape, reps));
    let ts = tile_shape(a.shape, reps);
    NdModel { shape: ts, data: Seq::new(shape_product(ts), |f: int| a.data[flat_index(ps, tile_source(ps, unflat_index(ts, f)))]) }
}

/// Leading dimensions of 1 keep the product of a shape.
proof fn lemma_pad_front_product(s: Seq<usize>, k: nat)
    ensures
        shape_product(ones(k) + s) == shape_product(s),
    decreases k,
{
    let t = ones(k) + s;
    crate::index::lemma_product_split(t, k as int);
    assert(t.take(k as int) =~= ones(k));
    assert(t.skip(k as int) =~= s);
    lemma_ones_product(k);
    let q = shape_product(s) as int;
    assert(1 * q == q);
}

proof fn lemma_ones_product(k: nat)
    ensures
        shape_product(ones(k)) == 1,
    decreases k,
{
    if k > 0 {
        lemma_ones_product((k - 1) as nat);
        assert(ones(k).drop_last() =~= ones((k - 1) as nat));
        assert(ones(k).last() == 1usize);
        assert(shape_product(ones(k)) == shape_product(ones(k).drop_last()) * (ones(k).last() as nat));
    }
}

/// `pad_front` computed.
fn pad_front_exec(s: &[usize], n: usize) -> (r: Vec<usize>)
    requires
        s@.len() <= n,
    ensures
        r@ == pad_front(s@, n as nat),
{
    let k = n - s.len();
    let mut r: Vec<usize> = Vec::new();
    let mut i: usize = 0;
    while i < k
        invariant
            i <= k,
            r@ == ones(i as nat),
        decreases k - i,
    {
        r.push(1);
        i = i + 1;
        assert(r@ =~= ones(i as nat));
    }
    let mut j: usize = 0;
    while j < s.len()
        invariant
            j <= s@.len(),
            r@ == ones(k as nat) + s@.take(j as int),
        decreases s@.len() - j,
    {
        r.push(s[j]);
        j = j + 1;
        assert(r@ =~= ones(k as nat) + s@.take(j as int));
    }
    assert(s@.take(s@.len() as int) =~= s@);
    r
}

/// `tile(a, reps)`: the array repeated along each axis.
pub fn tile<T: Copy>(a: &NdArray<T>, reps: &[usize]) -> (r: NdArray<T>)
    requires
        nd_wf(a@),
        tile_dims_fit(a.shape@, reps@),
        partial_products_fit(tile_shape(a.shape@, reps@)),
    ensures
        r@ == spec_tile(a@, reps@),
        nd_wf(r@),
{
    let n: usize = if a.shape.len() >= reps.len() { a.shape.len() } else { reps.len() };
    let ps = pad_front_exec(a.shape.as_slice(), n);
    let pr = pad_front_exec(reps, n);
    let mut ts: Vec<usize> = Vec::new();
    let mut i: usize = 0;
    while i < n
        invariant
            i <= n,
            n == tile_rank(a.shape@, reps@),
            ps@ == pad_front(a.shape@, n as nat),
            pr@ == pad_front(reps@, n as nat),
            tile_dims_fit(a.shape@, reps@),
            ts@ == tile_shape(a.shape@, reps@).take(i as int),
        decreases n - i,
    {
        assert(ps@[i as int] * pr@[i as int] <= usize::MAX);
        ts.push(ps[i] * pr[i]);
        i = i + 1;
        assert(ts@ =~= tile_shape(a.shape@, reps@).take(i as int));
    }
    assert(ts@ =~= tile_shape(a.shape@, reps@));
    proof {
        lemma_pad_front_product(a.shape@, (n - a.shape@.len()) as nat);
    }
    let total = element_count(ts.as_slice());
    let na = a.data.len();
    let mut data: Vec<T> = Vec::new();
    let mut f: usize = 0;
    while f < total
        invariant
            f <= total,
            total == shape_product(ts@),
            nd_wf(a@),
            na == a.data@.len(),
            n == ps@.len(),
            n == ts@.len(),
            shape_product(ps@) == na,
            forall|k: int| 0 <= k < n ==> #[trigger] ts@[k] == ps@[k] * pr@[k],
            ts@ == tile_shape(a.shape@, reps@),
            ps@ == pad_front(a.shape@, tile_rank(a.shape@, reps@)),
            data@.len() == f,
            forall|g: int| 0 <= g < f ==> #[trigger] data@[g] == spec_tile(a@, reps@).data[g],
        decreases total - f,
    {
        let u = unflat_exec(ts.as_slice(), f);
        proof {
            lemma_unflat_flat(ts@, f as int);
        }
        let mut v: Vec<usize> = Vec::new();
        let mut k: usize = 0;
        while k < n
            invariant
                k <= n,
                n == ps@.len(),
                n == ts@.len(),
                u@.len() == n,
                in_bounds(ts@, u@),
                forall|q: int| 0 <= q < n ==> #[trigger] ts@[q] == ps@[q] * pr@[q],
                v@ == tile_source(ps@, u@).take(k as int),
            decreases n - k,
        {
            assert(u@[k as int] < ts@[k as int]);
            assert(ps@[k as int] > 0) by (nonlinear_arith)
                requires
                    u@[k as int] < ps@[k as int] * pr@[k as int],
            ;
            let x = u[k] % ps[k];
            assert(x == tile_source(ps@, u@)[k as int]);
            v.push(x);
            k = k + 1;
            assert(v@ =~= tile_source(ps@, u@).take(k as int));
        }
        assert(v@ =~= tile_source(ps@, u@));
        assert(in_bounds(ps@, v@)) by {
            assert forall|q: int| 0 <= q < n implies #[trigger] v@[q] < ps@[q] by {
                assert(u@[q] < ts@[q]);
                assert(ps@[q] > 0) by (nonlinear_arith)
                    requires
                        u@[q] < ps@[q] * pr@[q],
                ;
            }
        }
        proof {
            lemma_flat_bound(ps@, v@);
        }
        let g = flat_exec(ps.as_slice(), v.as_slice());
        data.push(a.data[g]);
        f = f + 1;
    }
    let r = NdArray { shape: ts, data };
    assert(r@.data =~= spec_tile(a@, reps@).data);
    r
}

// ---------------------------------------------------------------------
// squeeze
// ---------------------------------------------------------------------

/// The shape without its axes of length 1, the others kept in order.
pub open spec fn squeeze_shape(s: Seq<usize>) -> Seq<usize>
    decreases s.len(),
{
    if s.len() == 0 {
        s
    } else if s.last() == 1 {
        squeeze_shape(s.drop_last())
    } else {
        squeeze_shape(s.drop_last()).push(s.last())
    }
}

/// Dropping axes of length 1 keeps the number of elements.
pub proof fn lemma_squeeze_product(s: Seq<usize>)
    ensures
        shape_product(squeeze_shape(s)) == shape_product(s),
    decreases s.len(),
{
    if s.len() > 0 {
        lemma_squeeze_product(s.drop_last());
        if s.last() != 1 {
            let q = squeeze_shape(s.drop_last()).push(s.last());
            assert(q.drop_last() =~= squeeze_shape(s.drop_last()));
        }
    }
}

/// `a.squeeze()`: the same elements under the shape without its axes of
/// length 1.
pub fn squeeze<T: Copy>(a: &NdArray<T>) -> (r: NdArray<T>)
    requires
        nd_wf(a@),
    ensures
        r@.shape == squeeze_shape(a@.shape),
        r@.data == a@.data,
        nd_wf(r@),
{
    let n = a.shape.len();
    let mut out: Vec<usize> = Vec::new();
    let mut i: usize = 0;
    while i < n
        invariant
            i <= n,
            n == a.shape@.len(),
            out@ == squeeze_shape(a.shape@.subrange(0, i as int)),
        decreases n - i,
    {
        let d = a.shape[i];
        assert(a.shape@.subrange(0, i + 1).drop_last() =~= a.shape@.subrange(0, i as int));
        if d != 1 {
            out.push(d);
        }
        i = i + 1;
    }
    assert(a.shape@.subrange(0, n as int) =~= a.shape@);
    proof {
        lemma_squeeze_product(a.shape@);
    }
    NdArray { shape: out, data: copy_vec(a.data.as_slice()) }
}

// ---------------------------------------------------------------------
// expand_dims
// ---------------------------------------------------------------------

/// Why `expand_dims` refuses its axes.
#[derive(Clone, Copy, Debug, PartialEq, Eq, Structural)]
pub enum ExpandDimsError {
    /// A requested position lies past the last axis of the array built so
    /// far.
    AxisOutOfBounds(isize),
}

/// Where axis request `ax` puts the new axis in an array of `cur` axes,
/// when the result is to have `target` axes: negative requests count from
/// the end of the result (at least 0), others stop at the end.
pub open spec fn expand_position(ax: isize, target: int, cur: int) -> int {
    if ax < 0 {
        if ax + target > 0 { ax + target } else { 0 }
    } else if ax < cur {
        ax as int
    } else {
        cur
    }
}

/// The shape after inserting a dimension of 1 for each request in order.
pub open spec fn expand_shape(s: Seq<usize>, axes: Seq<isize>, target: int) -> Result<Seq<usize>, ExpandDimsError>
    decreases axes.len(),
{
    if axes.len() == 0 {
        Ok(s)
    } else {
        let pos = expand_position(axes[0], target, s.len() as int);
        if pos > s.len() {
            Err(ExpandDimsError::AxisOutOfBounds(axes[0]))
        } else {
            expand_shape(s.insert(pos, 1usize), axes.drop_first(), target)
        }
    }
}

/// `expand_dims` on models: the requests taken in ascending order, each
/// inserting a dimension of 1; the elements are unchanged.
pub open spec fn spec_expand_dims<T>(a: NdModel<T>, axes: Seq<isize>) -> Result<NdModel<T>, ExpandDimsError> {
    match expand_shape(a.shape, sorted_isize(axes), (a.shape.len() + axes.len()) as int) {
        Ok(s) => Ok(NdModel { shape: s, data: a.data }),
        Err(e) => Err(e),
    }
}

/// `expand_dims(a, axes)`: the array with a new axis of length 1 for each
/// requested position.
pub fn expand_dims<T: Copy>(a: &NdArray<T>, axes: &[isize]) -> (r: Result<NdArray<T>, ExpandDimsError>)
    requires
        nd_wf(a@),
        a.shape@.len() + axes@.len() <= isize::MAX,
    ensures
        match r {
            Ok(b) => spec_expand_dims(a@, axes@) == Ok::<NdModel<T>, ExpandDimsError>(b@) && nd_wf(b@),
            Err(e) => spec_expand_dims(a@, axes@) == Err::<NdModel<T>, ExpandDimsError>(e),
        },
{
    let sorted = sort_isize(axes);
    let target: isize = (a.shape.len() + axes.len()) as isize;
    let ghost full = expand_shape(a.shape@, sorted@, target as int);
    let mut shape = copy_vec(a.shape.as_slice());
    let mut k: usize = 0;
    assert(sorted@.skip(0) =~= sorted@);
    while k < sorted.len()
        invariant
            k <= sorted@.len(),
            sorted@.len() == axes@.len(),
            sorted@ == sorted_isize(axes@),
            full == expand_shape(a.shape@, sorted_isize(axes@), (a.shape@.len() + axes@.len()) as int),
            target == a.shape@.len() + axes@.len(),
            shape@.len() == a.shape@.len() + k,
            full == expand_shape(shape@, sorted@.skip(k as int), target as int),
            shape_product(shape@) == shape_product(a.shape@),
        decreases sorted@.len() - k,
    {
        let ax = sorted[k];
        let cur = shape.len();
        let pos: isize = if ax < 0 {
            if ax + target > 0 { ax + target } else { 0 }
        } else if (ax as usize) < cur {
            ax
        } else {
            cur as isize
        };
        assert(sorted@.skip(k as int)[0] == ax);
        assert(sorted@.skip(k as int).drop_first() =~= sorted@.skip(k + 1));
        assert(pos == expand_position(ax, target as int, cur as int));
        if pos as usize > cur {
            assert(full == Err::<Seq<usize>, ExpandDimsError>(ExpandDimsError::AxisOutOfBounds(ax)));
            return Err(ExpandDimsError::AxisOutOfBounds(ax));
        }
        proof {
            lemma_insert_one_product(shape@, pos as int);
        }
        shape = insert_one(shape.as_slice(), pos as usize);
        k = k + 1;
    }
    assert(sorted@.skip(sorted@.len() as int) =~= Seq::<isize>::empty());
    Ok(NdArray { shape, data: copy_vec(a.data.as_slice()) })
}

// ---------------------------------------------------------------------
// insert
// ---------------------------------------------------------------------

/// Why `insert` refuses its arguments.
#[derive(Clone, Copy, Debug, PartialEq, Eq, Structural)]
pub enum InsertError {
    /// The axis names no axis of the array.
    Axis(AxisError),
    /// The values do not join the two halves of the array.
    Join(ArrayError),
}

/// The array and axis `insert` works on: the flattened array and axis 0
/// without an axis, else the array and the named axis.
pub open spec fn insert_base<T>(a: NdModel<T>, axis: Option<isize>) -> Result<(NdModel<T>, int), AxisError> {
    match axis {
        None => Ok((spec_flatten(a), 0)),
        Some(k) => match spec_normalize_axis(k as int, a.shape.len() as int) {
            None => Err(AxisError { axis: k, ndim: a.shape.len() as usize }),
            Some(ax) => Ok((a, ax)),
        },
    }
}

/// Where position `obj` falls along an axis of length `dim`: negative
/// positions count from the end (at least 0), others stop at the end.
pub open spec fn insert_position(obj: int, dim: int) -> int {
    if obj < 0 {
        if obj + dim > 0 { obj + dim } else { 0 }
    } else if obj < dim {
        obj
    } else {
        dim
    }
}

/// The values shaped for insertion at one position: a 0-d value is
/// broadcast to `target`, values of `target`'s shape stay, a 1-D array with
/// as many elements as `target` has cells takes its shape; anything else is
/// left as it is (and the join refuses it unless it fits).
pub open spec fn insert_values<T>(v: NdModel<T>, target: Seq<usize>) -> NdModel<T> {
    if v.shape.len() == 0 {
        NdModel { shape: target, data: Seq::new(shape_product(target), |f: int| v.data[broadcast_source(v.shape, target, f)]) }
    } else if v.shape == target {
        v
    } else if v.shape.len() == 1 && v.data.len() == shape_product(target) {
        NdModel { shape: target, data: v.data }
    } else {
        v
    }
}

/// The three pieces `insert` joins: the array before the position, the
/// values, the array from the position.
pub open spec fn insert_parts<T>(b: NdModel<T>, ax: int, obj: int, v: NdModel<T>) -> Seq<NdModel<T>> {
    let dim = b.shape[ax] as int;
    let pos = insert_position(obj, dim);
    seq![spec_slice_axis(b, ax, 0, pos), insert_values(v, b.shape.update(ax, 1usize)), spec_slice_axis(b, ax, pos, dim)]
}

/// `insert` on models: the values put before position `obj` along the axis.
pub open spec fn spec_insert<T>(a: NdModel<T>, obj: isize, v: NdModel<T>, axis: Option<isize>) -> Result<NdModel<T>, InsertError> {
    match insert_base(a, axis) {
        Err(e) => Err(InsertError::Axis(e)),
        Ok((b, ax)) => match spec_concatenate(insert_parts(b, ax, obj as int, v), ax) {
            Ok(m) => Ok(m),
            Err(e) => Err(InsertError::Join(e)),
        },
    }
}

/// The sizes `insert` computes fit in `usize`.
pub open spec fn insert_fits<T>(a: NdModel<T>, obj: isize, v: NdModel<T>, axis: Option<isize>) -> bool {
    match insert_base(a, axis) {
        Err(_) => true,
        Ok((b, ax)) => {
            &&& partial_products_fit(b.shape.update(ax, 1usize))
            &&& concat_fits(insert_parts(b, ax, obj as int, v), ax)
        },
    }
}

/// `insert(arr, obj, values, axis)`: the values inserted before position
/// `obj` along the axis (of the flattened array without one).
pub fn insert<T: Copy>(a: &NdArray<T>, obj: isize, values: &NdArray<T>, axis: Option<isize>) -> (r: Result<NdArray<T>, InsertError>)
    requires
        nd_wf(a@),
        nd_wf(values@),
        a.shape@.len() <= isize::MAX,
        partial_products_fit(a.shape@),
        insert_fits(a@, obj, values@, axis),
    ensures
        match r {
            Ok(b) => spec_insert(a@, obj, values@, axis) == Ok::<NdModel<T>, InsertError>(b@) && nd_wf(b@),
            Err(e) => spec_insert(a@, obj, values@, axis) == Err::<NdModel<T>, InsertError>(e),
        },
{
    let (b, ax) = match axis {
        None => {
            let f = flatten(a);
            proof {
                lemma_product_small(a.data@.len() as usize, 1, 1);
                assert forall|k: int| 0 <= k <= f.shape@.len() implies #[trigger] shape_product(f.shape@.take(k)) <= usize::MAX by {
                    if k == 0 {
                        assert(f.shape@.take(k) =~= Seq::<usize>::empty());
                    } else {
                        assert(f.shape@.take(k) =~= f.shape@);
                    }
                }
            }
            (f, 0usize)
        },
        Some(k) => match normalize_axis(k, a.shape.len()) {
            Err(e) => return Err(InsertError::Axis(e)),
            Ok(ax) => (crate::nd::clone_array(a), ax),
        },
    };
    assert(insert_base(a@, axis) == Ok::<(NdModel<T>, int), AxisError>((b@, ax as int)));
    assert(partial_products_fit(b.shape@));
    let dim = b.shape[ax];
    let pos: usize = if obj < 0 {
        let back: usize = (-(obj + 1)) as usize + 1;
        if back < dim { dim - back } else { 0 }
    } else if (obj as usize) < dim {
        obj as usize
    } else {
        dim
    };
    assert(pos as int == insert_position(obj as int, dim as int));
    let before = slice_along_axis(&b, ax, 0, pos);
    let after = slice_along_axis(&b, ax, pos, dim);
    let mut target = copy_vec(b.shape.as_slice());
    target.set(ax, 1);
    let ghost tgt = b.shape@.update(ax as int, 1usize);
    assert(target@ == tgt);
    let mid = if values.shape.len() == 0 {
        match broadcast_to(values, target.as_slice()) {
            Ok(m) => m,
            Err(_) => {
                assert(broadcasts_to(values.shape@, target@));
                return Err(InsertError::Join(ArrayError::IncompatibleShapes));
            },
        }
    } else if crate::nd::shapes_equal(values.shape.as_slice(), target.as_slice()) {
        crate::nd::clone_array(values)
    } else if values.shape.len() == 1 && values.data.len() == element_count(target.as_slice()) {
        NdArray { shape: target, data: copy_vec(values.data.as_slice()) }
    } else {
        crate::nd::clone_array(values)
    };
    assert(mid@ == insert_values(values@, tgt));
    let parts = vec![before, mid, after];
    assert(crate::nd::models(parts@) =~= insert_parts(b@, ax as int, obj as int, values@));
    match concatenate(parts.as_slice(), ax) {
        Ok(m) => Ok(m),
        Err(e) => Err(InsertError::Join(e)),
    }
}

// ---------------------------------------------------------------------
// block
// ---------------------------------------------------------------------

/// `block` of a flat list on models: the arrays joined along the last axis
/// of the first (axis 0 for 0-d arrays or no arrays).
pub open spec fn spec_block_flat<T>(arrs: Seq<NdArray<T>>) -> Result<NdModel<T>, ArrayError> {
    let nd = if arrs.len() > 0 { arrs[0]@.shape.len() as int } else { 0 };
    spec_concatenate(models(arrs), if nd == 0 { 0 } else { nd - 1 })
}

/// `block(arrays)` for a flat list of arrays.
pub fn block_flat<T: Copy>(arrays: &[NdArray<T>]) -> (r: Result<NdArray<T>, ArrayError>)
    requires
        forall|i: int| 0 <= i < arrays@.len() ==> nd_wf(#[trigger] arrays@[i]@),
        concat_fits(models(arrays@), if arrays@.len() > 0 && arrays@[0]@.shape.len() > 0 { arrays@[0]@.shape.len() - 1 } else { 0 }),
    ensures
        match r {
            Ok(v) => spec_block_flat(arrays@) == Ok::<NdModel<T>, ArrayError>(v@) && nd_wf(v@),
            Err(e) => spec_block_flat(arrays@) == Err::<NdModel<T>, ArrayError>(e),
        },
{
    let nd = if arrays.len() > 0 { arrays[0].shape.len() } else { 0 };
    let axis = if nd == 0 { 0 } else { nd - 1 };
    concatenate(arrays, axis)
}

/// The rows of a 2-D block, each joined along axis 1, in order; the first
/// error met.
pub open spec fn spec_block_rows<T>(rows: Seq<Vec<NdArray<T>>>) -> Result<Seq<NdModel<T>>, ArrayError>
    decreases rows.len(),
{
    if rows.len() == 0 {
        Ok(Seq::empty())
    } else {
        match spec_block_rows(rows.drop_last()) {
            Err(e) => Err(e),
            Ok(done) => match spec_concatenate(models(rows.last()@), 1) {
                Err(e) => Err(e),
                Ok(m) => Ok(done.push(m)),
            },
        }
    }
}

/// `block` of a list of lists on models: each inner list joined along
/// axis 1, then the rows joined along axis 0.
pub open spec fn spec_block_2d<T>(rows: Seq<Vec<NdArray<T>>>) -> Result<NdModel<T>, ArrayError> {
    match spec_block_rows(rows) {
        Err(e) => Err(e),
        Ok(ms) => spec_concatenate(ms, 0),
    }
}

/// The joins `block` makes stay within the machine's limits.
pub open spec fn block_2d_fits<T>(rows: Seq<Vec<NdArray<T>>>) -> bool {
    &&& forall|i: int| 0 <= i < rows.len() ==> concat_fits(models(#[trigger] rows[i]@), 1)
    &&& spec_block_rows(rows) matches Ok(ms) ==> concat_fits(ms, 0)
}

/// An error for some rows is the error for all of them.
proof fn lemma_block_rows_prefix_err<T>(rows: Seq<Vec<NdArray<T>>>, k: int)
    requires
        0 <= k <= rows.len(),
        spec_block_rows(rows.take(k)) is Err,
    ensures
        spec_block_rows(rows) == spec_block_rows(rows.take(k)),
    decreases rows.len() - k,
{
    if k < rows.len() {
        assert(rows.take(k + 1).drop_last() =~= rows.take(k));
        lemma_block_rows_prefix_err(rows, k + 1);
    } else {
        assert(rows.take(k) =~= rows);
    }
}

/// `block(arrays)` for a list of lists of arrays: a 2-D arrangement of
/// blocks.
pub fn block_2d<T: Copy>(rows: &[Vec<NdArray<T>>]) -> (r: Result<NdArray<T>, ArrayError>)
    requires
        forall|i: int, j: int| 0 <= i < rows@.len() && 0 <= j < rows@[i]@.len() ==> nd_wf(#[trigger] rows@[i]@[j]@),
        block_2d_fits(rows@),
    ensures
        match r {
            Ok(v) => spec_block_2d(rows@) == Ok::<NdModel<T>, ArrayError>(v@) && nd_wf(v@),
            Err(e) => spec_block_2d(rows@) == Err::<NdModel<T>, ArrayError>(e),
        },
{
    let mut joined: Vec<NdArray<T>> = Vec::new();
    let mut i: usize = 0;
    assert(rows@.take(0) =~= Seq::<Vec<NdArray<T>>>::empty());
    assert(models(joined@) =~= Seq::<NdModel<T>>::empty());
    while i < rows.len()
        invariant
            i <= rows@.len(),
            forall|p: int, j: int| 0 <= p < rows@.len() && 0 <= j < rows@[p]@.len() ==> nd_wf(#[trigger] rows@[p]@[j]@),
            block_2d_fits(rows@),
            spec_block_rows(rows@.take(i as int)) == Ok::<Seq<NdModel<T>>, ArrayError>(models(joined@)),
            forall|p: int| 0 <= p < joined@.len() ==> nd_wf(#[trigger] joined@[p]@),
        decreases rows@.len() - i,
    {
        assert(rows@.take(i + 1).drop_last() =~= rows@.take(i as int));
        assert(rows@.take(i + 1).last() == rows@[i as int]);
        assert(concat_fits(models(rows@[i as int]@), 1));
        assert forall|j: int| 0 <= j < rows@[i as int]@.len() implies nd_wf(#[trigger] rows@[i as int]@[j]@) by {}
        match concatenate(rows[i].as_slice(), 1) {
            Err(e) => {
                proof {
                    lemma_block_rows_prefix_err(rows@, (i + 1) as int);
                }
                return Err(e);
            },
            Ok(m) => {
                let ghost before = joined@;
                joined.push(m);
                assert(models(joined@) =~= models(before).push(m@));
            },
        }
        i = i + 1;
    }
    assert(rows@.take(rows@.len() as int) =~= rows@);
    concatenate(joined.as_slice(), 0)
}

// ---------------------------------------------------------------------
// meshgrid
// ---------------------------------------------------------------------

/// `meshgrid` on models: two `len(y) x len(x)` arrays, the first repeating
/// `x` along each row, the second `y` along each column.
pub open spec fn spec_meshgrid<T>(x: Seq<T>, y: Seq<T>) -> (NdModel<T>, NdModel<T>) {
    let nx = x.len();
    let ny = y.len();
    (
        NdModel { shape: seq![ny as usize, nx as usize], data: Seq::new(ny * nx, |k: int| x[k % (nx as int)]) },
        NdModel { shape: seq![ny as usize, nx as usize], data: Seq::new(ny * nx, |k: int| y[k / (nx as int)]) },
    )
}

/// `meshgrid(x, y)` (Cartesian `xy` indexing) of the flattened inputs.
pub fn meshgrid<T: Copy>(x: &NdArray<T>, y: &NdArray<T>) -> (r: (NdArray<T>, NdArray<T>))
    requires
        x.data@.len() * y.data@.len() <= usize::MAX,
    ensures
        r.0@ == spec_meshgrid(x.data@, y.data@).0,
        r.1@ == spec_meshgrid(x.data@, y.data@).1,
        nd_wf(r.0@),
        nd_wf(r.1@),
{
    let nx = x.data.len();
    let ny = y.data.len();
    let mut xx: Vec<T> = Vec::new();
    let mut yy: Vec<T> = Vec::new();
    let mut j: usize = 0;
    while j < ny
        invariant
            j <= ny,
            nx == x.data@.len(),
            ny == y.data@.len(),
            nx * ny <= usize::MAX,
            xx@.len() == j * nx,
            yy@.len() == j * nx,
            forall|k: int| 0 <= k < j * nx ==> #[trigger] xx@[k] == x.data@[k % (nx as int)],
            forall|k: int| 0 <= k < j * nx ==> #[trigger] yy@[k] == y.data@[k / (nx as int)],
        decreases ny - j,
    {
        assert((j + 1) * nx <= nx * ny) by (nonlinear_arith)
            requires
                j < ny,
        ;
        let mut i: usize = 0;
        while i < nx
            invariant
                j < ny,
                i <= nx,
                nx == x.data@.len(),
                ny == y.data@.len(),
                (j + 1) * nx <= usize::MAX,
                xx@.len() == j * nx + i,
                yy@.len() == j * nx + i,
                forall|k: int| 0 <= k < j * nx + i ==> #[trigger] xx@[k] == x.data@[k % (nx as int)],
                forall|k: int| 0 <= k < j * nx + i ==> #[trigger] yy@[k] == y.data@[k / (nx as int)],
            decreases nx - i,
        {
            let ghost k = j * nx + i;
            assert(k % (nx as int) == i as int && k / (nx as int) == j as int) by (nonlinear_arith)
                requires
                    k == j * nx + i,
                    i < nx,
            ;
            assert(j * nx + i < (j + 1) * nx) by (nonlinear_arith)
                requires
                    i < nx,
            ;
            xx.push(x.data[i]);
            yy.push(y.data[j]);
            i = i + 1;
        }
        assert(j * nx + nx == (j + 1) * nx) by (nonlinear_arith);
        j = j + 1;
    }
    let total = ny * nx;
    assert(ny * nx == nx * ny) by (nonlinear_arith);
    proof {
        lemma_product_small(ny, nx, 1);
    }
    let a = NdArray { shape: vec![ny, nx], data: xx };
    let b = NdArray { shape: vec![ny, nx], data: yy };
    assert(a@.shape =~= seq![ny, nx]);
    assert(b@.shape =~= seq![ny, nx]);
    assert(a@.data =~= spec_meshgrid(x.data@, y.data@).0.data);
    assert(b@.data =~= spec_meshgrid(x.data@, y.data@).1.data);
    (a, b)
}

} // verus!
