//! n-dimensional arrays held as a shape and their elements in row-major
//! (C) order, and numpy's shape manipulations on them: transpose, flip,
//! rot90, roll, reshape and the `atleast_*` family, triangles and
//! diagonals, delete, append and concatenate.
use vstd::prelude::*;

use crate::index::{
    flat_index, in_bounds, lemma_flat_bound, lemma_flat_unflat, lemma_product_front, lemma_product_positive,
    lemma_product_split,
    lemma_product_reverse, lemma_prefix_product, lemma_reverse_in_bounds, lemma_unflat_flat,
    unflat_index,
};
use crate::npy::{element_count, shape_product};
use crate::ops::{int_pow_i64, spec_int_pow_i64};

verus! {

/// An n-dimensional array: its shape and its elements in row-major order.
#[derive(Clone, Debug, PartialEq, Eq)]
pub struct NdArray<T> {
    pub shape: Vec<usize>,
    pub data: Vec<T>,
}

/// The mathematical content of an `NdArray`.
pub struct NdModel<T> {
    pub shape: Seq<usize>,
    pub data: Seq<T>,
}

impl<T> View for NdArray<T> {
    type V = NdModel<T>;

    open spec fn view(&self) -> NdModel<T> {
        NdModel { shape: self.shape@, data: self.data@ }
    }
}

/// One element per cell of the shape.
pub open spec fn nd_wf<T>(a: NdModel<T>) -> bool {
    a.data.len() == shape_product(a.shape)
}

/// Why a shape operation refuses its input.
#[derive(Clone, Copy, Debug, PartialEq, Eq, Structural)]
pub enum ArrayError {
    /// The operation needs an array of at least this many dimensions.
    TooFewDimensions(usize),
    /// The operation needs an array of exactly this many dimensions.
    WrongDimensions(usize),
    /// The operation takes only 1-D or 2-D arrays.
    NotVectorOrMatrix,
    /// A flat index past the end.
    IndexOutOfRange(usize),
    /// `concatenate` of no arrays.
    NoArrays,
    /// The concatenation axis is not an axis of the arrays.
    AxisOutOfBounds,
    /// The arrays differ in rank or in a dimension other than the axis.
    IncompatibleShapes,
    /// `bincount` of an array holding a negative value.
    NegativeValues,
    /// An integer raised to a negative integer power.
    NegativeExponent,
}

// ---------------------------------------------------------------------
// Small helpers
// ---------------------------------------------------------------------

/// A copy of `v`.
pub(crate) fn copy_vec<T: Copy>(v: &[T]) -> (r: Vec<T>)
    ensures
        r@ == v@,
{
    let mut r: Vec<T> = Vec::new();
    let mut i: usize = 0;
    while i < v.len()
        invariant
            i <= v.len(),
            r@ == v@.take(i as int),
        decreases v.len() - i,
    {
        r.push(v[i]);
        i = i + 1;
        assert(r@ =~= v@.take(i as int));
    }
    assert(v@.take(v.len() as int) =~= v@);
    r
}

/// `v` in reverse order.
fn reversed<T: Copy>(v: &[T]) -> (r: Vec<T>)
    ensures
        r@ == v@.reverse(),
{
    let mut r: Vec<T> = Vec::new();
    let mut i: usize = v.len();
    while i > 0
        invariant
            i <= v.len(),
            r@ == v@.skip(i as int).reverse(),
        decreases i,
    {
        i = i - 1;
        r.push(v[i]);
        assert(r@ =~= v@.skip(i as int).reverse());
    }
    assert(v@.skip(0) =~= v@);
    r
}

/// Whether two shapes are the same.
pub(crate) fn shapes_equal(a: &[usize], b: &[usize]) -> (r: bool)
    ensures
        r == (a@ == b@),
{
    if a.len() != b.len() {
        return false;
    }
    let mut i: usize = 0;
    while i < a.len()
        invariant
            i <= a@.len(),
            a@.len() == b@.len(),
            forall|k: int| 0 <= k < i ==> a@[k] == b@[k],
        decreases a@.len() - i,
    {
        if a[i] != b[i] {
            return false;
        }
        i = i + 1;
    }
    assert(a@ =~= b@);
    true
}

/// A copy of an array.
pub fn clone_array<T: Copy>(a: &NdArray<T>) -> (r: NdArray<T>)
    ensures
        r@ == a@,
{
    NdArray { shape: copy_vec(a.shape.as_slice()), data: copy_vec(a.data.as_slice()) }
}

/// `unflat_index` computed: the multi-index of flat position `f`.
pub(crate) fn unflat_exec(shape: &[usize], f: usize) -> (r: Vec<usize>)
    requires
        f < shape_product(shape@),
    ensures
        r@ == unflat_index(shape@, f as int),
{
    let nd = shape.len();
    proof {
        lemma_product_positive(shape@);
    }
    let mut idx: Vec<usize> = Vec::new();
    let mut k: usize = 0;
    while k < nd
        invariant
            k <= nd,
            nd == shape@.len(),
            idx@.len() == k,
        decreases nd - k,
    {
        idx.push(0);
        k = k + 1;
    }
    let mut rem: usize = f;
    let mut j: usize = nd;
    assert(shape@.take(nd as int) =~= shape@);
    assert(idx@.skip(nd as int) =~= Seq::<usize>::empty());
    while j > 0
        invariant
            j <= nd,
            nd == shape@.len(),
            idx@.len() == nd,
            rem <= f,
            forall|i: int| 0 <= i < shape@.len() ==> #[trigger] shape@[i] > 0,
            unflat_index(shape@, f as int) == unflat_index(shape@.take(j as int), rem as int) + idx@.skip(j as int),
        decreases j,
    {
        let d = shape[j - 1];
        let ghost t = shape@.take(j as int);
        assert(t.drop_last() =~= shape@.take(j - 1));
        assert(t.last() == d);
        let digit = rem % d;
        let ghost before = idx@;
        idx.set(j - 1, digit);
        assert(idx@.skip(j - 1) =~= seq![digit] + before.skip(j as int));
        rem = rem / d;
        j = j - 1;
        assert(unflat_index(t, (rem * d + digit) as int) =~= unflat_index(shape@.take(j as int), rem as int).push(digit)) by {
            assert((rem * d + digit) as int / (d as int) == rem as int && (rem * d + digit) as int % (d as int) == digit as int) by (nonlinear_arith)
                requires
                    digit < d,
                    d > 0,
            ;
        }
        assert(unflat_index(shape@, f as int) =~= unflat_index(shape@.take(j as int), rem as int) + idx@.skip(j as int));
    }
    assert(idx@.skip(0) =~= idx@);
    idx
}

/// `flat_index` computed: the flat position of an in-bounds multi-index.
pub(crate) fn flat_exec(shape: &[usize], idx: &[usize]) -> (r: usize)
    requires
        in_bounds(shape@, idx@),
        shape_product(shape@) <= usize::MAX,
    ensures
        r == flat_index(shape@, idx@),
{
    let nd = shape.len();
    proof {
        lemma_flat_bound(shape@, idx@);
    }
    let mut acc: usize = 0;
    let mut j: usize = 0;
    assert(shape@.take(0) =~= Seq::<usize>::empty());
    while j < nd
        invariant
            j <= nd,
            nd == shape@.len(),
            in_bounds(shape@, idx@),
            shape_product(shape@) <= usize::MAX,
            shape_product(shape@) > 0,
            acc == flat_index(shape@.take(j as int), idx@.take(j as int)),
        decreases nd - j,
    {
        let ghost s1 = shape@.take(j + 1);
        let ghost i1 = idx@.take(j + 1);
        assert(s1.drop_last() =~= shape@.take(j as int));
        assert(i1.drop_last() =~= idx@.take(j as int));
        assert(in_bounds(s1, i1)) by {
            assert forall|i: int| 0 <= i < s1.len() implies #[trigger] i1[i] < s1[i] by {
                assert(idx@[i] < shape@[i]);
            }
        }
        proof {
            lemma_flat_bound(s1, i1);
            lemma_prefix_product(shape@, j + 1);
        }
        acc = acc * shape[j] + idx[j];
        j = j + 1;
    }
    assert(shape@.take(nd as int) =~= shape@);
    assert(idx@.take(nd as int) =~= idx@);
    acc
}

// ---------------------------------------------------------------------
// transpose
// ---------------------------------------------------------------------

/// Flat position in the source of flat position `f` of the transpose: the
/// multi-index of `f` in the reversed shape, reversed.
pub open spec fn transpose_source(shape: Seq<usize>, f: int) -> int {
    flat_index(shape, unflat_index(shape.reverse(), f).reverse())
}

/// The transpose: axes in reverse order.
pub open spec fn spec_transpose<T>(a: NdModel<T>) -> NdModel<T> {
    NdModel {
        shape: a.shape.reverse(),
        data: Seq::new(a.data.len(), |f: int| a.data[transpose_source(a.shape, f)]),
    }
}

/// The transpose of a well-formed array is well formed, and its element at
/// the reversed multi-index is the element at the multi-index.
pub proof fn lemma_transpose_at<T>(a: NdModel<T>, idx: Seq<usize>)
    requires
        nd_wf(a),
        in_bounds(a.shape, idx),
    ensures
        nd_wf(spec_transpose(a)),
        spec_transpose(a).data[flat_index(a.shape.reverse(), idx.reverse())] == a.data[flat_index(a.shape, idx)],
{
    lemma_product_reverse(a.shape);
    lemma_reverse_in_bounds(a.shape, idx);
    let f = flat_index(a.shape.reverse(), idx.reverse());
    lemma_flat_bound(a.shape.reverse(), idx.reverse());
    lemma_flat_unflat(a.shape.reverse(), idx.reverse());
    assert(idx.reverse().reverse() =~= idx);
}

/// `transpose`: the array with its axes reversed (for a matrix, rows become
/// columns).
pub fn transpose<T: Copy>(a: &NdArray<T>) -> (r: NdArray<T>)
    requires
        nd_wf(a@),
    ensures
        r@ == spec_transpose(a@),
        nd_wf(r@),
{
    let rshape = reversed(a.shape.as_slice());
    let n = a.data.len();
    proof {
        lemma_product_reverse(a.shape@);
    }
    let mut out: Vec<T> = Vec::new();
    let mut f: usize = 0;
    while f < n
        invariant
            f <= n,
            n == a.data@.len(),
            nd_wf(a@),
            rshape@ == a.shape@.reverse(),
            shape_product(rshape@) == n,
            out@.len() == f,
            forall|g: int| 0 <= g < f ==> #[trigger] out@[g] == a.data@[transpose_source(a.shape@, g)],
        decreases n - f,
    {
        let u = unflat_exec(rshape.as_slice(), f);
        let ru = reversed(u.as_slice());
        proof {
            lemma_unflat_flat(rshape@, f as int);
            lemma_reverse_in_bounds(rshape@, u@);
            assert(a.shape@.reverse().reverse() =~= a.shape@);
            lemma_flat_bound(a.shape@, ru@);
        }
        let g = flat_exec(a.shape.as_slice(), ru.as_slice());
        out.push(a.data[g]);
        f = f + 1;
    }
    let r = NdArray { shape: rshape, data: out };
    assert(r@.data =~= spec_transpose(a@).data);
    r
}

/// Transposing twice gives back the array.
pub proof fn lemma_transpose_involution<T>(a: NdModel<T>)
    requires
        nd_wf(a),
    ensures
        spec_transpose(spec_transpose(a)) == a,
{
    let t = spec_transpose(a);
    let tt = spec_transpose(t);
    lemma_product_reverse(a.shape);
    assert(a.shape.reverse().reverse() =~= a.shape);
    assert forall|f: int| 0 <= f < a.data.len() implies tt.data[f] == a.data[f] by {
        let u = unflat_index(a.shape, f);
        lemma_unflat_flat(a.shape, f);
        lemma_reverse_in_bounds(a.shape, u);
        let g = flat_index(a.shape.reverse(), u.reverse());
        lemma_flat_bound(a.shape.reverse(), u.reverse());
        lemma_flat_unflat(a.shape.reverse(), u.reverse());
        assert(u.reverse().reverse() =~= u);
        assert(transpose_source(t.shape, f) == g);
        assert(transpose_source(a.shape, g) == f);
    }
    assert(tt.data =~= a.data);
}

// ---------------------------------------------------------------------
// flip / flipud / fliplr / rot90
// ---------------------------------------------------------------------

/// A multi-index with its coordinate on axis `ax` mirrored.
pub open spec fn mirror_at(shape: Seq<usize>, idx: Seq<usize>, ax: int) -> Seq<usize> {
    idx.update(ax, (shape[ax] - 1 - idx[ax]) as usize)
}

/// Flat position in the source of flat position `f` of the array flipped
/// along axis `ax`.
pub open spec fn flip_source(shape: Seq<usize>, ax: int, f: int) -> int {
    flat_index(shape, mirror_at(shape, unflat_index(shape, f), ax))
}

/// The array with the order of its entries along axis `ax` reversed.
pub open spec fn spec_flip_axis<T>(a: NdModel<T>, ax: int) -> NdModel<T> {
    NdModel { shape: a.shape, data: Seq::new(a.data.len(), |f: int| a.data[flip_source(a.shape, ax, f)]) }
}

/// The array flipped along each of the axes `0..k` in turn.
pub open spec fn spec_flip_axes<T>(a: NdModel<T>, k: nat) -> NdModel<T>
    decreases k,
{
    if k == 0 {
        a
    } else {
        spec_flip_axis(spec_flip_axes(a, (k - 1) as nat), k - 1)
    }
}

/// The axis that a possibly negative axis number names in an array of `nd`
/// dimensions.
pub open spec fn normalize_axis(ax: int, nd: int) -> int {
    if ax < 0 { ax + nd } else { ax }
}

/// `flip`: a 0-d array unchanged; otherwise all axes flipped (`None`) or the
/// one named (negative numbers count from the end).
pub open spec fn spec_flip<T>(a: NdModel<T>, axis: Option<isize>) -> NdModel<T> {
    if a.shape.len() == 0 {
        a
    } else {
        match axis {
            None => spec_flip_axes(a, a.shape.len()),
            Some(ax) => spec_flip_axis(a, normalize_axis(ax as int, a.shape.len() as int)),
        }
    }
}

/// A mirrored in-bounds multi-index is in bounds.
proof fn lemma_mirror_in_bounds(shape: Seq<usize>, idx: Seq<usize>, ax: int)
    requires
        in_bounds(shape, idx),
        0 <= ax < shape.len(),
    ensures
        in_bounds(shape, mirror_at(shape, idx, ax)),
        mirror_at(shape, mirror_at(shape, idx, ax), ax) == idx,
{
    assert(idx[ax] < shape[ax]);
    let m = mirror_at(shape, idx, ax);
    assert forall|i: int| 0 <= i < shape.len() implies #[trigger] m[i] < shape[i] by {
        if i != ax {
            assert(idx[i] < shape[i]);
        }
    }
    assert(mirror_at(shape, m, ax) =~= idx);
}

/// Flipping keeps an array well formed, and its element at a multi-index is
/// the source element at the mirrored multi-index.
pub proof fn lemma_flip_axis_at<T>(a: NdModel<T>, ax: int, idx: Seq<usize>)
    requires
        nd_wf(a),
        0 <= ax < a.shape.len(),
        in_bounds(a.shape, idx),
    ensures
        nd_wf(spec_flip_axis(a, ax)),
        spec_flip_axis(a, ax).data[flat_index(a.shape, idx)] == a.data[flat_index(a.shape, mirror_at(a.shape, idx, ax))],
{
    lemma_flat_bound(a.shape, idx);
    lemma_flat_unflat(a.shape, idx);
}

fn flip_axis<T: Copy>(a: &NdArray<T>, ax: usize) -> (r: NdArray<T>)
    requires
        nd_wf(a@),
        ax < a.shape@.len(),
    ensures
        r@ == spec_flip_axis(a@, ax as int),
        nd_wf(r@),
{
    let n = a.data.len();
    let mut out: Vec<T> = Vec::new();
    let mut f: usize = 0;
    while f < n
        invariant
            f <= n,
            n == a.data@.len(),
            nd_wf(a@),
            ax < a.shape@.len(),
            out@.len() == f,
            forall|g: int| 0 <= g < f ==> #[trigger] out@[g] == a.data@[flip_source(a.shape@, ax as int, g)],
        decreases n - f,
    {
        let mut u = unflat_exec(a.shape.as_slice(), f);
        proof {
            lemma_unflat_flat(a.shape@, f as int);
        }
        let ghost u0 = u@;
        assert(u0[ax as int] < a.shape@[ax as int]);
        let m = a.shape[ax] - 1 - u[ax];
        u.set(ax, m);
        assert(u@ == mirror_at(a.shape@, u0, ax as int));
        proof {
            lemma_mirror_in_bounds(a.shape@, u0, ax as int);
            lemma_flat_bound(a.shape@, u@);
        }
        let g = flat_exec(a.shape.as_slice(), u.as_slice());
        out.push(a.data[g]);
        f = f + 1;
    }
    let r = NdArray { shape: copy_vec(a.shape.as_slice()), data: out };
    assert(r@.data =~= spec_flip_axis(a@, ax as int).data);
    r
}

/// `flip`: reverses the order of the entries along the given axis, or along
/// every axis when none is given; a 0-d array is returned unchanged.
pub fn flip<T: Copy>(a: &NdArray<T>, axis: Option<isize>) -> (r: NdArray<T>)
    requires
        nd_wf(a@),
        a.shape@.len() > 0 ==> (axis matches Some(ax) ==> -(a.shape@.len() as int) <= ax < a.shape@.len()),
    ensures
        r@ == spec_flip(a@, axis),
        nd_wf(r@),
{
    let nd = a.shape.len();
    if nd == 0 {
        return clone_array(a);
    }
    match axis {
        Some(ax) => {
            let axu: usize = if ax < 0 { nd - 1 - ((-(ax + 1)) as usize) } else { ax as usize };
            flip_axis(a, axu)
        },
        None => {
            let mut out = clone_array(a);
            let mut k: usize = 0;
            while k < nd
                invariant
                    k <= nd,
                    nd == a.shape@.len(),
                    nd_wf(a@),
                    out@ == spec_flip_axes(a@, k as nat),
                    out@.shape == a.shape@,
                    nd_wf(out@),
                decreases nd - k,
            {
                out = flip_axis(&out, k);
                k = k + 1;
            }
            out
        },
    }
}

/// `flipud`: the entries along the first axis in reverse order.
pub fn flipud<T: Copy>(a: &NdArray<T>) -> (r: NdArray<T>)
    requires
        nd_wf(a@),
    ensures
        r@ == spec_flip(a@, Some(0isize)),
        nd_wf(r@),
{
    flip(a, Some(0))
}

/// `fliplr`: the entries along the second axis in reverse order; arrays of
/// fewer than 2 dimensions are refused.
pub fn fliplr<T: Copy>(a: &NdArray<T>) -> (r: Result<NdArray<T>, ArrayError>)
    requires
        nd_wf(a@),
    ensures
        a.shape@.len() < 2 ==> r == Err::<NdArray<T>, ArrayError>(ArrayError::TooFewDimensions(2)),
        a.shape@.len() >= 2 ==> (r matches Ok(v) && v@ == spec_flip_axis(a@, 1) && nd_wf(v@)),
{
    if a.shape.len() < 2 {
        return Err(ArrayError::TooFewDimensions(2));
    }
    Ok(flip(a, Some(1)))
}

/// One quarter turn in the plane of the first two axes: flip the second
/// axis, then transpose.
pub open spec fn spec_rot90_once<T>(a: NdModel<T>) -> NdModel<T> {
    spec_transpose(spec_flip_axis(a, 1))
}

/// `n` quarter turns.
pub open spec fn spec_rot90_times<T>(a: NdModel<T>, n: nat) -> NdModel<T>
    decreases n,
{
    if n == 0 {
        a
    } else {
        spec_rot90_once(spec_rot90_times(a, (n - 1) as nat))
    }
}

proof fn lemma_rot90_times_wf<T>(a: NdModel<T>, n: nat)
    requires
        nd_wf(a),
        a.shape.len() >= 2,
    ensures
        nd_wf(spec_rot90_times(a, n)),
        spec_rot90_times(a, n).shape.len() == a.shape.len(),
    decreases n,
{
    if n > 0 {
        lemma_rot90_times_wf(a, (n - 1) as nat);
        let b = spec_rot90_times(a, (n - 1) as nat);
        lemma_product_reverse(b.shape);
    }
}

/// `rot90`: `k` quarter turns (taken modulo 4, so negative `k` turns the
/// other way), each a flip of the second axis followed by a transpose;
/// arrays of fewer than 2 dimensions are refused.
pub fn rot90<T: Copy>(a: &NdArray<T>, k: isize) -> (r: Result<NdArray<T>, ArrayError>)
    requires
        nd_wf(a@),
    ensures
        a.shape@.len() < 2 ==> r == Err::<NdArray<T>, ArrayError>(ArrayError::TooFewDimensions(2)),
        a.shape@.len() >= 2 ==> (r matches Ok(v) && v@ == spec_rot90_times(a@, (k as int % 4) as nat) && nd_wf(v@)),
{
    if a.shape.len() < 2 {
        return Err(ArrayError::TooFewDimensions(2));
    }
    let turns: usize = if k >= 0 { (k % 4) as usize } else { (3 - ((-(k + 1)) % 4)) as usize };
    assert(turns as int == k as int % 4) by {
        if k < 0 {
            let m = -(k + 1);
            assert(3 - m % 4 == k as int % 4) by (nonlinear_arith)
                requires
                    m == -(k + 1),
                    m >= 0,
            ;
        }
    }
    let mut out = clone_array(a);
    let mut i: usize = 0;
    while i < turns
        invariant
            i <= turns,
            turns < 4,
            nd_wf(a@),
            a.shape@.len() >= 2,
            out@ == spec_rot90_times(a@, i as nat),
        decreases turns - i,
    {
        proof {
            lemma_rot90_times_wf(a@, i as nat);
        }
        let flipped = flip(&out, Some(1));
        out = transpose(&flipped);
        i = i + 1;
    }
    proof {
        lemma_rot90_times_wf(a@, turns as nat);
    }
    Ok(out)
}

/// One quarter turn: the element of the turned array at multi-index `w`
/// is the element of the array at `w` reversed with its second coordinate
/// mirrored.
proof fn lemma_rot90_once_at<T>(b: NdModel<T>, w: Seq<usize>)
    requires
        nd_wf(b),
        b.shape.len() >= 2,
        in_bounds(b.shape.reverse(), w),
    ensures
        in_bounds(b.shape, mirror_at(b.shape, w.reverse(), 1)),
        spec_rot90_once(b).shape == b.shape.reverse(),
        spec_rot90_once(b).data[flat_index(b.shape.reverse(), w)] == b.data[flat_index(
            b.shape,
            mirror_at(b.shape, w.reverse(), 1),
        )],
{
    let v = w.reverse();
    lemma_reverse_in_bounds(b.shape.reverse(), w);
    assert(b.shape.reverse().reverse() =~= b.shape);
    lemma_flip_axis_at(b, 1, v);
    let fb = spec_flip_axis(b, 1);
    lemma_transpose_at(fb, v);
    assert(v.reverse() =~= w);
    lemma_mirror_in_bounds(b.shape, v, 1);
}

/// Four quarter turns give back the array.
pub proof fn lemma_rot90_four_turns<T>(a: NdModel<T>)
    requires
        nd_wf(a),
        a.shape.len() >= 2,
    ensures
        spec_rot90_times(a, 4) == a,
{
    let s = a.shape;
    let r = s.reverse();
    let n = s.len() as int;
    assert(r.reverse() =~= s);
    let a1 = spec_rot90_times(a, 1);
    let a2 = spec_rot90_times(a, 2);
    let a3 = spec_rot90_times(a, 3);
    let a4 = spec_rot90_times(a, 4);
    assert(spec_rot90_times(a, 0) == a);
    lemma_rot90_times_wf(a, 1);
    lemma_rot90_times_wf(a, 2);
    lemma_rot90_times_wf(a, 3);
    lemma_rot90_times_wf(a, 4);
    assert(a1.shape == r);
    assert(a2.shape == s);
    assert(a3.shape == r);
    assert(a4.shape == s);
    assert forall|f: int| 0 <= f < a.data.len() implies a4.data[f] == a.data[f] by {
        let w0 = unflat_index(s, f);
        lemma_unflat_flat(s, f);
        lemma_rot90_once_at(a3, w0);
        let w1 = mirror_at(r, w0.reverse(), 1);
        lemma_rot90_once_at(a2, w1);
        let w2 = mirror_at(s, w1.reverse(), 1);
        lemma_rot90_once_at(a1, w2);
        let w3 = mirror_at(r, w2.reverse(), 1);
        lemma_rot90_once_at(a, w3);
        let w4 = mirror_at(s, w3.reverse(), 1);
        assert(w1.reverse() =~= mirror_at(s, w0, n - 2));
        assert(w3.reverse() =~= mirror_at(s, w2, n - 2));
        assert(w4 =~= w0);
    }
    assert(a4.data =~= a.data);
}

/// Flipping the same axis twice gives back the array.
pub proof fn lemma_flip_axis_involution<T>(a: NdModel<T>, ax: int)
    requires
        nd_wf(a),
        0 <= ax < a.shape.len(),
    ensures
        spec_flip_axis(spec_flip_axis(a, ax), ax) == a,
{
    let b = spec_flip_axis(a, ax);
    let bb = spec_flip_axis(b, ax);
    assert forall|f: int| 0 <= f < a.data.len() implies bb.data[f] == a.data[f] by {
        let u = unflat_index(a.shape, f);
        lemma_unflat_flat(a.shape, f);
        lemma_mirror_in_bounds(a.shape, u, ax);
        let m = mirror_at(a.shape, u, ax);
        lemma_flat_bound(a.shape, m);
        lemma_flat_unflat(a.shape, m);
        assert(flip_source(a.shape, ax, f) == flat_index(a.shape, m));
        assert(flip_source(a.shape, ax, flat_index(a.shape, m)) == f);
    }
    assert(bb.data =~= a.data);
}

/// A multi-index with its coordinates on the axes `0..k` mirrored.
pub open spec fn mirror_upto(shape: Seq<usize>, idx: Seq<usize>, k: int) -> Seq<usize> {
    Seq::new(idx.len(), |i: int| if i < k { (shape[i] - 1 - idx[i]) as usize } else { idx[i] })
}

/// Flipping the axes `0..k` keeps the shape, and the element at a
/// multi-index is the source element with those coordinates mirrored.
pub proof fn lemma_flip_axes_at<T>(a: NdModel<T>, k: nat, idx: Seq<usize>)
    requires
        nd_wf(a),
        k <= a.shape.len(),
        in_bounds(a.shape, idx),
    ensures
        spec_flip_axes(a, k).shape == a.shape,
        nd_wf(spec_flip_axes(a, k)),
        in_bounds(a.shape, mirror_upto(a.shape, idx, k as int)),
        spec_flip_axes(a, k).data[flat_index(a.shape, idx)] == a.data[flat_index(
            a.shape,
            mirror_upto(a.shape, idx, k as int),
        )],
    decreases k,
{
    let m = mirror_upto(a.shape, idx, k as int);
    assert(in_bounds(a.shape, m)) by {
        assert forall|i: int| 0 <= i < a.shape.len() implies #[trigger] m[i] < a.shape[i] by {
            assert(idx[i] < a.shape[i]);
        }
    }
    if k == 0 {
        assert(m =~= idx);
    } else {
        let b = spec_flip_axes(a, (k - 1) as nat);
        let j = mirror_at(a.shape, idx, k - 1);
        lemma_mirror_in_bounds(a.shape, idx, k - 1);
        lemma_flip_axes_at(a, (k - 1) as nat, j);
        lemma_flip_axis_at(b, k - 1, idx);
        assert(mirror_upto(a.shape, j, k - 1) =~= m);
    }
}

/// Flipping axes keeps the shape and the number of elements.
proof fn lemma_flip_axes_shape<T>(a: NdModel<T>, k: nat)
    ensures
        spec_flip_axes(a, k).shape == a.shape,
        spec_flip_axes(a, k).data.len() == a.data.len(),
    decreases k,
{
    if k > 0 {
        lemma_flip_axes_shape(a, (k - 1) as nat);
    }
}

/// Flipping twice, along one axis or along every axis, gives back the
/// array.
pub proof fn lemma_flip_involution<T>(a: NdModel<T>, axis: Option<isize>)
    requires
        nd_wf(a),
        axis matches Some(ax) ==> -(a.shape.len() as int) <= ax < a.shape.len(),
    ensures
        spec_flip(spec_flip(a, axis), axis) == a,
{
    let n = a.shape.len();
    if n > 0 {
        match axis {
            Some(ax) => {
                lemma_flip_axis_involution(a, normalize_axis(ax as int, n as int));
            },
            None => {
                let b = spec_flip_axes(a, n);
                let c = spec_flip_axes(b, n);
                assert forall|f: int| 0 <= f < a.data.len() implies c.data[f] == a.data[f] by {
                    let u = unflat_index(a.shape, f);
                    lemma_unflat_flat(a.shape, f);
                    lemma_flip_axes_at(a, n, u);
                    let m = mirror_upto(a.shape, u, n as int);
                    lemma_flip_axes_at(b, n, u);
                    lemma_flip_axes_at(a, n, m);
                    assert(mirror_upto(a.shape, m, n as int) =~= u);
                }
                lemma_flip_axes_shape(a, n);
                lemma_flip_axes_shape(b, n);
                assert(c.data =~= a.data);
            },
        }
    }
}

// ---------------------------------------------------------------------
// flatten / reshape / atleast_* / roll / delete / append
// ---------------------------------------------------------------------

/// The elements as a 1-D array.
pub open spec fn spec_flatten<T>(a: NdModel<T>) -> NdModel<T> {
    NdModel { shape: seq![a.data.len() as usize], data: a.data }
}

/// `flatten`: the elements in row-major order as a 1-D array.
pub fn flatten<T: Copy>(a: &NdArray<T>) -> (r: NdArray<T>)
    ensures
        r@ == spec_flatten(a@),
        nd_wf(r@),
{
    let n = a.data.len();
    let shape = vec![n];
    let r = NdArray { shape, data: copy_vec(a.data.as_slice()) };
    assert(r@.shape =~= seq![n]);
    proof {
        lemma_product_small(n, 1, 1);
    }
    r
}

/// Every partial product of the shape fits in `usize`.
pub open spec fn partial_products_fit(shape: Seq<usize>) -> bool {
    forall|k: int| 0 <= k <= shape.len() ==> #[trigger] shape_product(shape.take(k)) <= usize::MAX
}

/// `reshape`: the same elements under a new shape, when it has as many
/// cells as the array has elements.
pub fn reshape<T: Copy>(a: &NdArray<T>, shape: &[usize]) -> (r: Option<NdArray<T>>)
    requires
        partial_products_fit(shape@),
    ensures
        a.data@.len() == shape_product(shape@) ==> (r matches Some(v) && v@ == NdModel { shape: shape@, data: a.data@ }),
        a.data@.len() != shape_product(shape@) ==> r is None,
{
    let target = element_count(shape);
    if a.data.len() != target {
        return None;
    }
    Some(NdArray { shape: copy_vec(shape), data: copy_vec(a.data.as_slice()) })
}

/// Reshaping to a shape with as many cells as elements.
pub(crate) fn reshape_to<T: Copy>(a: &NdArray<T>, shape: Vec<usize>) -> (r: NdArray<T>)
    requires
        a.data@.len() == shape_product(shape@),
    ensures
        r@ == (NdModel { shape: shape@, data: a.data@ }),
        nd_wf(r@),
{
    NdArray { shape, data: copy_vec(a.data.as_slice()) }
}

pub(crate) proof fn lemma_product_small(a: usize, b: usize, c: usize)
    ensures
        shape_product(seq![a]) == a,
        shape_product(seq![a, b]) == a * b,
        shape_product(seq![a, b, c]) == a * b * c,
{
    assert(seq![a].drop_last() =~= Seq::<usize>::empty());
    assert(seq![a, b].drop_last() =~= seq![a]);
    assert(seq![a, b, c].drop_last() =~= seq![a, b]);
    let p0 = shape_product(Seq::<usize>::empty()) as int;
    assert(p0 == 1);
    assert(shape_product(seq![a]) == p0 * a);
    assert(p0 * a == a) by (nonlinear_arith)
        requires
            p0 == 1,
    ;
    assert(shape_product(seq![a, b]) == shape_product(seq![a]) * b);
    assert(shape_product(seq![a, b, c]) == shape_product(seq![a, b]) * c);
}

/// `atleast_1d`: a 0-d array as a 1-element 1-D array; others unchanged.
pub fn atleast_1d<T: Copy>(a: &NdArray<T>) -> (r: NdArray<T>)
    requires
        nd_wf(a@),
    ensures
        nd_wf(r@),
        a.shape@.len() >= 1 ==> r@ == a@,
        a.shape@.len() == 0 ==> r@ == (NdModel { shape: seq![1usize], data: a.data@ }),
{
    if a.shape.len() >= 1 {
        clone_array(a)
    } else {
        proof {
            lemma_product_small(1, 1, 1);
            assert(a.shape@ =~= Seq::<usize>::empty());
        }
        let v: Vec<usize> = vec![1];
        assert(v@ =~= seq![1usize]);
        let r = reshape_to(a, v);
        assert(r@.shape =~= seq![1usize]);
        r
    }
}

/// `atleast_2d`: a 0-d array as 1x1, a 1-D array of `n` as 1xn; others
/// unchanged.
pub fn atleast_2d<T: Copy>(a: &NdArray<T>) -> (r: NdArray<T>)
    requires
        nd_wf(a@),
    ensures
        nd_wf(r@),
        a.shape@.len() >= 2 ==> r@ == a@,
        a.shape@.len() == 0 ==> r@ == (NdModel { shape: seq![1usize, 1usize], data: a.data@ }),
        a.shape@.len() == 1 ==> r@ == (NdModel { shape: seq![1usize, a.data@.len() as usize], data: a.data@ }),
{
    let n = a.data.len();
    proof {
        lemma_product_small(1, 1, 1);
        lemma_product_small(1, n, 1);
    }
    if a.shape.len() == 0 {
        let r = reshape_to(a, vec![1, 1]);
        assert(r@.shape =~= seq![1usize, 1usize]);
        r
    } else if a.shape.len() == 1 {
        let r = reshape_to(a, vec![1, n]);
        assert(r@.shape =~= seq![1usize, n]);
        r
    } else {
        clone_array(a)
    }
}

/// `atleast_3d`: a 0-d array as 1x1x1, a 1-D array of `n` as 1xnx1, an mxn
/// array as mxnx1; others unchanged.
pub fn atleast_3d<T: Copy>(a: &NdArray<T>) -> (r: NdArray<T>)
    requires
        nd_wf(a@),
    ensures
        nd_wf(r@),
        a.shape@.len() >= 3 ==> r@ == a@,
        a.shape@.len() == 0 ==> r@ == (NdModel { shape: seq![1usize, 1usize, 1usize], data: a.data@ }),
        a.shape@.len() == 1 ==> r@ == (NdModel { shape: seq![1usize, a.data@.len() as usize, 1usize], data: a.data@ }),
        a.shape@.len() == 2 ==> r@ == (NdModel { shape: seq![a.shape@[0], a.shape@[1], 1usize], data: a.data@ }),
{
    let n = a.data.len();
    if a.shape.len() == 0 {
        proof {
            lemma_product_small(1, 1, 1);
        }
        let r = reshape_to(a, vec![1, 1, 1]);
        assert(r@.shape =~= seq![1usize, 1usize, 1usize]);
        r
    } else if a.shape.len() == 1 {
        proof {
            lemma_product_small(1, n, 1);
        }
        let r = reshape_to(a, vec![1, n, 1]);
        assert(r@.shape =~= seq![1usize, n, 1usize]);
        r
    } else if a.shape.len() == 2 {
        let s0 = a.shape[0];
        let s1 = a.shape[1];
        proof {
            lemma_product_small(s0, s1, 1);
            assert(a.shape@ =~= seq![s0, s1]);
        }
        let r = reshape_to(a, vec![s0, s1, 1]);
        assert(r@.shape =~= seq![s0, s1, 1usize]);
        r
    } else {
        clone_array(a)
    }
}

/// `roll` (without an axis): the elements, taken in row-major order,
/// shifted `shift` places towards the end, those falling off the end coming
/// back at the start; the shape is kept.
pub open spec fn spec_roll<T>(a: NdModel<T>, shift: int) -> NdModel<T> {
    let n = a.data.len() as int;
    if n == 0 {
        a
    } else {
        let k = n - shift % n;
        NdModel { shape: a.shape, data: a.data.subrange(k, n) + a.data.subrange(0, k) }
    }
}

/// `roll`: the array with its elements, in row-major order, rotated
/// `shift` places towards the end (negative `shift` towards the start),
/// in its own shape.
pub fn roll<T: Copy>(a: &NdArray<T>, shift: isize) -> (r: NdArray<T>)
    ensures
        r@ == spec_roll(a@, shift as int),
        nd_wf(a@) ==> nd_wf(r@),
{
    let n = a.data.len();
    if n == 0 {
        return clone_array(a);
    }
    let s: usize = if shift >= 0 {
        (shift as usize) % n
    } else {
        n - 1 - ((-(shift + 1)) as usize) % n
    };
    assert(s as int == (shift as int) % (n as int)) by {
        if shift < 0 {
            lemma_neg_mod(shift as int, n as int);
        }
    }
    let k = n - s;
    let mut out: Vec<T> = Vec::new();
    let mut i: usize = k;
    while i < n
        invariant
            k <= i <= n,
            n == a.data@.len(),
            out@ == a.data@.subrange(k as int, i as int),
        decreases n - i,
    {
        out.push(a.data[i]);
        i = i + 1;
        assert(out@ =~= a.data@.subrange(k as int, i as int));
    }
    let mut j: usize = 0;
    while j < k
        invariant
            j <= k <= n,
            n == a.data@.len(),
            out@ == a.data@.subrange(k as int, n as int) + a.data@.subrange(0, j as int),
        decreases k - j,
    {
        out.push(a.data[j]);
        j = j + 1;
        assert(out@ =~= a.data@.subrange(k as int, n as int) + a.data@.subrange(0, j as int));
    }
    let r = NdArray { shape: copy_vec(a.shape.as_slice()), data: out };
    r
}

/// `x % n` for negative `x`, through `m = -(x + 1)`.
proof fn lemma_neg_mod(x: int, n: int)
    requires
        x < 0,
        n > 0,
    ensures
        x % n == n - 1 - (-(x + 1)) % n,
{
    let m = -(x + 1);
    let q = m / n;
    let r = m % n;
    vstd::arithmetic::div_mod::lemma_fundamental_div_mod(m, n);
    vstd::arithmetic::div_mod::lemma_mod_bound(m, n);
    assert(x == (-q - 1) * n + (n - 1 - r)) by (nonlinear_arith)
        requires
            m == n * q + r,
            x == -m - 1,
    ;
    vstd::arithmetic::div_mod::lemma_fundamental_div_mod_converse(x, n, -q - 1, n - 1 - r);
}

/// `((a mod n) - b) mod n == (a - b) mod n`.
proof fn lemma_mod_sub_left(a: int, b: int, n: int)
    requires
        n > 0,
    ensures
        ((a % n) - b) % n == (a - b) % n,
{
    vstd::arithmetic::div_mod::lemma_sub_mod_noop_right(a % n, b, n);
    vstd::arithmetic::div_mod::lemma_sub_mod_noop(a, b, n);
}

/// Rolling moves each element `shift` places on, around the end: the
/// element at position `i` came from position `(i - shift) mod n`.
pub proof fn lemma_roll_at<T>(a: NdModel<T>, shift: int, i: int)
    requires
        0 <= i < a.data.len(),
    ensures
        spec_roll(a, shift).data[i] == a.data[(i - shift) % (a.data.len() as int)],
{
    let n = a.data.len() as int;
    let s = shift % n;
    let k = n - s;
    vstd::arithmetic::div_mod::lemma_mod_bound(shift, n);
    vstd::arithmetic::div_mod::lemma_sub_mod_noop_right(i, shift, n);
    if i < s {
        vstd::arithmetic::div_mod::lemma_fundamental_div_mod_converse(i - s, n, -1, i + k);
    } else {
        vstd::arithmetic::div_mod::lemma_fundamental_div_mod_converse(i - s, n, 0, i - s);
    }
}

/// Rolling by `x` and then by `y` is rolling by `x + y`.
pub proof fn lemma_roll_compose<T>(a: NdModel<T>, x: int, y: int)
    ensures
        spec_roll(spec_roll(a, x), y) == spec_roll(a, x + y),
{
    let n = a.data.len() as int;
    if n > 0 {
        let b = spec_roll(a, x);
        let c = spec_roll(b, y);
        let d = spec_roll(a, x + y);
        assert forall|i: int| 0 <= i < n implies c.data[i] == d.data[i] by {
            lemma_roll_at(b, y, i);
            let j = (i - y) % n;
            vstd::arithmetic::div_mod::lemma_mod_bound(i - y, n);
            lemma_roll_at(a, x, j);
            lemma_roll_at(a, x + y, i);
            lemma_mod_sub_left(i - y, x, n);
            assert(i - y - x == i - (x + y));
        }
        assert(c.data =~= d.data);
    }
}

/// `delete`: the flattened elements without the one at position `idx`; an
/// index past the end is refused.
pub fn delete<T: Copy>(a: &NdArray<T>, idx: usize) -> (r: Result<NdArray<T>, ArrayError>)
    ensures
        idx >= a.data@.len() ==> r == Err::<NdArray<T>, ArrayError>(ArrayError::IndexOutOfRange(idx)),
        idx < a.data@.len() ==> (r matches Ok(v) && v@ == NdModel {
            shape: seq![(a.data@.len() - 1) as usize],
            data: a.data@.remove(idx as int),
        }),
{
    let n = a.data.len();
    if idx >= n {
        return Err(ArrayError::IndexOutOfRange(idx));
    }
    let mut out: Vec<T> = Vec::new();
    let mut i: usize = 0;
    while i < n
        invariant
            i <= n,
            idx < n,
            n == a.data@.len(),
            out@ == (if i <= idx { a.data@.take(i as int) } else { a.data@.take(i as int).remove(idx as int) }),
        decreases n - i,
    {
        if i != idx {
            out.push(a.data[i]);
        }
        i = i + 1;
        assert(out@ =~= (if i <= idx { a.data@.take(i as int) } else { a.data@.take(i as int).remove(idx as int) }));
    }
    assert(a.data@.take(n as int) =~= a.data@);
    let r = NdArray { shape: vec![n - 1], data: out };
    assert(r@.shape =~= seq![(n - 1) as usize]);
    Ok(r)
}

/// `append`: the flattened elements of `a` followed by those of `b`.
pub fn append<T: Copy>(a: &NdArray<T>, b: &NdArray<T>) -> (r: NdArray<T>)
    requires
        a.data@.len() + b.data@.len() <= usize::MAX,
    ensures
        r@ == (NdModel { shape: seq![(a.data@.len() + b.data@.len()) as usize], data: a.data@ + b.data@ }),
{
    let mut out = copy_vec(a.data.as_slice());
    let mut i: usize = 0;
    while i < b.data.len()
        invariant
            i <= b.data@.len(),
            out@ == a.data@ + b.data@.take(i as int),
        decreases b.data@.len() - i,
    {
        out.push(b.data[i]);
        i = i + 1;
        assert(out@ =~= a.data@ + b.data@.take(i as int));
    }
    assert(b.data@.take(b.data@.len() as int) =~= b.data@);
    let len = a.data.len() + b.data.len();
    let r = NdArray { shape: vec![len], data: out };
    assert(r@.shape =~= seq![len]);
    r
}

// ---------------------------------------------------------------------
// triu / tril / diag / diagflat
// ---------------------------------------------------------------------

/// Whether entry `(i, j)` lies strictly below diagonal `k` (`j < i + k`).
pub open spec fn below_diagonal(i: int, j: int, k: int) -> bool {
    j < i + k
}

/// `triu`: entries below diagonal `k` replaced by `zero`.
pub open spec fn spec_triu<T>(a: NdModel<T>, k: int, zero: T) -> NdModel<T> {
    let n = a.shape[1] as int;
    NdModel {
        shape: a.shape,
        data: Seq::new(a.data.len(), |f: int| if below_diagonal(f / n, f % n, k) { zero } else { a.data[f] }),
    }
}

/// `tril`: entries above diagonal `k` (`j > i + k`) replaced by `zero`.
pub open spec fn spec_tril<T>(a: NdModel<T>, k: int, zero: T) -> NdModel<T> {
    let n = a.shape[1] as int;
    NdModel {
        shape: a.shape,
        data: Seq::new(a.data.len(), |f: int| if f % n > f / n + k { zero } else { a.data[f] }),
    }
}

/// Row-major walk of an m x n matrix: position `f` is row `i`, column `j`.
pub(crate) proof fn lemma_walk_step(f: int, i: int, j: int, n: int)
    requires
        n > 0,
        0 <= j < n,
        0 <= i,
        f == i * n + j,
    ensures
        f / n == i,
        f % n == j,
        j + 1 < n ==> f + 1 == i * n + (j + 1),
        j + 1 == n ==> f + 1 == (i + 1) * n,
{
    vstd::arithmetic::div_mod::lemma_fundamental_div_mod_converse(f, n, i, j);
    assert((i + 1) * n == i * n + n) by (nonlinear_arith);
}

/// Shared walk of `triu` and `tril`: `upper` keeps the upper triangle.
fn triangle<T: Copy>(a: &NdArray<T>, k: isize, zero: T, upper: bool) -> (r: NdArray<T>)
    requires
        nd_wf(a@),
        a.shape@.len() == 2,
    ensures
        upper ==> r@ == spec_triu(a@, k as int, zero),
        !upper ==> r@ == spec_tril(a@, k as int, zero),
{
    let m = a.shape[0];
    let n = a.shape[1];
    let len = a.data.len();
    proof {
        assert(a.shape@.drop_last().drop_last() =~= Seq::<usize>::empty());
        assert(shape_product(a.shape@) == shape_product(a.shape@.drop_last()) * n);
        assert(shape_product(a.shape@.drop_last()) == shape_product(Seq::<usize>::empty()) * m);
        assert(len == m * n) by (nonlinear_arith)
            requires
                len == shape_product(a.shape@),
                shape_product(a.shape@) == shape_product(a.shape@.drop_last()) * n,
                shape_product(a.shape@.drop_last()) == 1 * m,
        ;
    }
    assert(n == 0 ==> len == 0) by (nonlinear_arith)
        requires
            len == m * n,
    ;
    let ghost target = if upper { spec_triu(a@, k as int, zero) } else { spec_tril(a@, k as int, zero) };
    let mut out: Vec<T> = Vec::new();
    let mut f: usize = 0;
    let mut i: usize = 0;
    let mut j: usize = 0;
    while f < len
        invariant
            len == a.data@.len(),
            len == m * n,
            n == a.shape@[1],
            f <= len,
            j < n || f == len,
            f < len ==> f == i * n + j,
            i <= m,
            out@.len() == f,
            target == (if upper { spec_triu(a@, k as int, zero) } else { spec_tril(a@, k as int, zero) }),
            forall|g: int| 0 <= g < f ==> #[trigger] out@[g] == target.data[g],
        decreases len - f,
    {
        assert(n > 0) by (nonlinear_arith)
            requires
                f < len,
                len == m * n,
        ;
        proof {
            lemma_walk_step(f as int, i as int, j as int, n as int);
        }
        let cut = if upper {
            (j as i128) < (i as i128) + (k as i128)
        } else {
            (j as i128) > (i as i128) + (k as i128)
        };
        if cut {
            out.push(zero);
        } else {
            out.push(a.data[f]);
        }
        f = f + 1;
        if j + 1 < n {
            j = j + 1;
        } else {
            j = 0;
            i = i + 1;
            assert(f < len ==> i < m) by (nonlinear_arith)
                requires
                    f == i * n,
                    len == m * n,
                    n > 0,
            ;
        }
    }
    let r = NdArray { shape: copy_vec(a.shape.as_slice()), data: out };
    assert(r@.data =~= target.data);
    r
}

/// `triu`: the matrix with the entries below diagonal `k` set to `zero`
/// (`k = 0` the main diagonal, `k > 0` above it); only 2-D arrays are taken.
pub fn triu<T: Copy>(a: &NdArray<T>, k: isize, zero: T) -> (r: Result<NdArray<T>, ArrayError>)
    requires
        nd_wf(a@),
    ensures
        a.shape@.len() != 2 ==> r == Err::<NdArray<T>, ArrayError>(ArrayError::WrongDimensions(2)),
        a.shape@.len() == 2 ==> (r matches Ok(v) && v@ == spec_triu(a@, k as int, zero)),
{
    if a.shape.len() != 2 {
        return Err(ArrayError::WrongDimensions(2));
    }
    Ok(triangle(a, k, zero, true))
}

/// `tril`: the matrix with the entries above diagonal `k` set to `zero`;
/// only 2-D arrays are taken.
pub fn tril<T: Copy>(a: &NdArray<T>, k: isize, zero: T) -> (r: Result<NdArray<T>, ArrayError>)
    requires
        nd_wf(a@),
    ensures
        a.shape@.len() != 2 ==> r == Err::<NdArray<T>, ArrayError>(ArrayError::WrongDimensions(2)),
        a.shape@.len() == 2 ==> (r matches Ok(v) && v@ == spec_tril(a@, k as int, zero)),
{
    if a.shape.len() != 2 {
        return Err(ArrayError::WrongDimensions(2));
    }
    Ok(triangle(a, k, zero, false))
}

/// `|k|`.
pub open spec fn abs_int(k: int) -> int {
    if k < 0 { -k } else { k }
}

/// `diag` of a vector `v`: the square matrix of side `len(v) + |k|` holding
/// `v` on diagonal `k` and `zero` elsewhere.
pub open spec fn spec_diag_vector<T>(v: Seq<T>, k: int, zero: T) -> NdModel<T> {
    let size = v.len() + abs_int(k);
    NdModel {
        shape: seq![size as usize, size as usize],
        data: Seq::new((size * size) as nat, |f: int| {
            let r = f / size;
            let c = f % size;
            if c - r == k { v[if r < c { r } else { c }] } else { zero }
        }),
    }
}

/// `diag` of an m x n matrix: its diagonal `k`, from row `max(-k, 0)` and
/// column `max(k, 0)` on.
pub open spec fn spec_diag_matrix<T>(a: NdModel<T>, k: int) -> NdModel<T> {
    let m = a.shape[0] as int;
    let n = a.shape[1] as int;
    let sr = if k < 0 { -k } else { 0 };
    let sc = if k >= 0 { k } else { 0 };
    let len = if m - sr < n - sc { m - sr } else { n - sc };
    let len = if len < 0 { 0 } else { len };
    NdModel { shape: seq![len as usize], data: Seq::new(len as nat, |i: int| a.data[(sr + i) * n + sc + i]) }
}

fn diag_vector<T: Copy>(v: &[T], k: isize, zero: T) -> (r: NdArray<T>)
    requires
        k != isize::MIN,
        v@.len() + abs_int(k as int) <= isize::MAX,
        (v@.len() + abs_int(k as int)) * (v@.len() + abs_int(k as int)) <= usize::MAX,
    ensures
        r@ == spec_diag_vector(v@, k as int, zero),
{
    let n = v.len();
    let kabs: usize = if k >= 0 { k as usize } else { (-k) as usize };
    let size = n + kabs;
    let total = size * size;
    let ghost target = spec_diag_vector(v@, k as int, zero);
    let mut out: Vec<T> = Vec::new();
    let mut f: usize = 0;
    while f < total
        invariant
            f <= total,
            out@.len() == f,
            forall|g: int| 0 <= g < f ==> #[trigger] out@[g] == zero,
        decreases total - f,
    {
        out.push(zero);
        f = f + 1;
    }
    assert forall|g: int| 0 <= g < total implies #[trigger] out@[g] == ({
        let rr = g / (size as int);
        let cc = g % (size as int);
        let mn = if rr < cc { rr } else { cc };
        if cc - rr == k && mn < 0 { v@[mn] } else { zero }
    }) by {
        assert(size > 0) by (nonlinear_arith)
            requires
                0 <= g < total,
                total == size * size,
        ;
        vstd::arithmetic::div_mod::lemma_mod_bound(g, size as int);
        vstd::arithmetic::div_mod::lemma_div_pos_is_pos(g, size as int);
    }
    let mut i: usize = 0;
    while i < n
        invariant
            i <= n,
            n == v@.len(),
            kabs as int == abs_int(k as int),
            size == n + kabs,
            total == size * size,
            out@.len() == total,
            target == spec_diag_vector(v@, k as int, zero),
            forall|g: int| 0 <= g < total ==> #[trigger] out@[g] == ({
                let rr = g / (size as int);
                let cc = g % (size as int);
                let mn = if rr < cc { rr } else { cc };
                if cc - rr == k && mn < i { v@[mn] } else { zero }
            }),
        decreases n - i,
    {
        let (r0, c0): (usize, usize) = if k >= 0 { (i, i + kabs) } else { (i + kabs, i) };
        assert(r0 * size + c0 < total) by (nonlinear_arith)
            requires
                r0 < size,
                c0 < size,
                total == size * size,
        ;
        let p = r0 * size + c0;
        proof {
            vstd::arithmetic::div_mod::lemma_fundamental_div_mod_converse(p as int, size as int, r0 as int, c0 as int);
        }
        let ghost before = out@;
        out.set(p, v[i]);
        assert forall|g: int| 0 <= g < total implies #[trigger] out@[g] == ({
            let rr = g / (size as int);
            let cc = g % (size as int);
            let mn = if rr < cc { rr } else { cc };
            if cc - rr == k && mn < i + 1 { v@[mn] } else { zero }
        }) by {
            let rr = g / (size as int);
            let cc = g % (size as int);
            vstd::arithmetic::div_mod::lemma_fundamental_div_mod(g, size as int);
            if g != p {
                let mn = if rr < cc { rr } else { cc };
                if cc - rr == k && mn == i {
                    assert(rr == r0 && cc == c0);
                    assert(g == (size as int) * rr + cc);
                    assert((size as int) * rr == rr * (size as int)) by (nonlinear_arith);
                }
            }
        }
        i = i + 1;
    }
    let r = NdArray { shape: vec![size, size], data: out };
    assert(r@.shape =~= seq![size, size]);
    assert forall|g: int| 0 <= g < total implies #[trigger] r@.data[g] == target.data[g] by {
        let rr = g / (size as int);
        let cc = g % (size as int);
        assert(size > 0) by (nonlinear_arith)
            requires
                0 <= g < total,
                total == size * size,
        ;
        vstd::arithmetic::div_mod::lemma_fundamental_div_mod(g, size as int);
        vstd::arithmetic::div_mod::lemma_mod_bound(g, size as int);
        assert(0 <= rr < size) by (nonlinear_arith)
            requires
                g == (size as int) * rr + cc,
                0 <= cc < size,
                0 <= g < size * size,
        ;
    }
    assert(r@.data =~= target.data);
    r
}

fn diag_matrix<T: Copy>(a: &NdArray<T>, k: isize) -> (r: NdArray<T>)
    requires
        nd_wf(a@),
        a.shape@.len() == 2,
        k != isize::MIN,
    ensures
        r@ == spec_diag_matrix(a@, k as int),
{
    let m = a.shape[0];
    let n = a.shape[1];
    let ghost len_total = a.data@.len();
    proof {
        assert(a.shape@.drop_last().drop_last() =~= Seq::<usize>::empty());
        assert(shape_product(a.shape@) == shape_product(a.shape@.drop_last()) * n);
        assert(shape_product(a.shape@.drop_last()) == shape_product(Seq::<usize>::empty()) * m);
        assert(len_total == m * n) by (nonlinear_arith)
            requires
                len_total == shape_product(a.shape@),
                shape_product(a.shape@) == shape_product(a.shape@.drop_last()) * n,
                shape_product(a.shape@.drop_last()) == 1 * m,
        ;
    }
    let total = a.data.len();
    assert(total == m * n);
    let sr: usize = if k < 0 { (-k) as usize } else { 0 };
    let sc: usize = if k >= 0 { k as usize } else { 0 };
    let len: usize = if sr >= m || sc >= n {
        0
    } else if m - sr < n - sc {
        m - sr
    } else {
        n - sc
    };
    let mut out: Vec<T> = Vec::new();
    let mut i: usize = 0;
    while i < len
        invariant
            i <= len,
            len == 0 || (sr + len <= m && sc + len <= n),
            a.data@.len() == m * n,
            m * n <= usize::MAX,
            a.shape@.len() == 2,
            n == a.shape@[1],
            out@.len() == i,
            forall|j: int| 0 <= j < i ==> #[trigger] out@[j] == a.data@[(sr + j) * n + sc + j],
        decreases len - i,
    {
        assert((sr + i) * n + sc + i < m * n && (sr + i) * n <= m * n) by (nonlinear_arith)
            requires
                sr + i < m,
                sc + i < n,
        ;
        out.push(a.data[(sr + i) * n + sc + i]);
        i = i + 1;
    }
    let r = NdArray { shape: vec![len], data: out };
    assert(r@.shape =~= seq![len]);
    assert(r@.data =~= spec_diag_matrix(a@, k as int).data);
    r
}

/// `diag`: for a vector, the square matrix with the vector on diagonal `k`
/// (`zero` elsewhere); for a matrix, its diagonal `k`; other ranks are
/// refused.
pub fn diag<T: Copy>(a: &NdArray<T>, k: isize, zero: T) -> (r: Result<NdArray<T>, ArrayError>)
    requires
        nd_wf(a@),
        k != isize::MIN,
        a.shape@.len() == 1 ==> a.data@.len() + abs_int(k as int) <= isize::MAX,
        a.shape@.len() == 1 ==> (a.data@.len() + abs_int(k as int)) * (a.data@.len() + abs_int(k as int)) <= usize::MAX,
    ensures
        a.shape@.len() == 1 ==> (r matches Ok(v) && v@ == spec_diag_vector(a.data@, k as int, zero)),
        a.shape@.len() == 2 ==> (r matches Ok(v) && v@ == spec_diag_matrix(a@, k as int)),
        a.shape@.len() != 1 && a.shape@.len() != 2 ==> r == Err::<NdArray<T>, ArrayError>(ArrayError::NotVectorOrMatrix),
{
    let nd = a.shape.len();
    if nd == 1 {
        Ok(diag_vector(a.data.as_slice(), k, zero))
    } else if nd == 2 {
        Ok(diag_matrix(a, k))
    } else {
        Err(ArrayError::NotVectorOrMatrix)
    }
}

/// `diagflat`: the square matrix with the flattened elements on its main
/// diagonal and `zero` elsewhere.
pub fn diagflat<T: Copy>(a: &NdArray<T>, zero: T) -> (r: NdArray<T>)
    requires
        a.data@.len() <= isize::MAX,
        a.data@.len() * a.data@.len() <= usize::MAX,
    ensures
        r@ == spec_diag_vector(a.data@, 0, zero),
{
    diag_vector(a.data.as_slice(), 0, zero)
}

// ---------------------------------------------------------------------
// broadcasting
// ---------------------------------------------------------------------

/// Dimension `i` of `s` when aligned to the right in `nd` dimensions;
/// missing leading dimensions count as 1.
pub open spec fn aligned_dim(s: Seq<usize>, nd: int, i: int) -> int {
    if i + s.len() >= nd { s[i + s.len() - nd] as int } else { 1 }
}

/// Two dimensions broadcast when equal or when one of them is 1.
pub open spec fn broadcast_dim(x: int, y: int) -> Option<int> {
    if x == y {
        Some(x)
    } else if x == 1 {
        Some(y)
    } else if y == 1 {
        Some(x)
    } else {
        None
    }
}

/// Number of dimensions of a broadcast: the larger rank.
pub open spec fn broadcast_rank(a: Seq<usize>, b: Seq<usize>) -> int {
    if a.len() >= b.len() { a.len() as int } else { b.len() as int }
}

/// Dimension `i` of the broadcast of `a` and `b`, if they broadcast there.
pub open spec fn broadcast_at(a: Seq<usize>, b: Seq<usize>, i: int) -> Option<int> {
    broadcast_dim(aligned_dim(a, broadcast_rank(a, b), i), aligned_dim(b, broadcast_rank(a, b), i))
}

/// numpy's broadcast of two shapes: right-aligned, dimension by dimension;
/// `None` when some pair neither agrees nor has a 1.
pub open spec fn spec_broadcast_shape(a: Seq<usize>, b: Seq<usize>) -> Option<Seq<usize>> {
    if forall|i: int| 0 <= i < broadcast_rank(a, b) ==> #[trigger] broadcast_at(a, b, i) is Some {
        Some(Seq::new(broadcast_rank(a, b) as nat, |i: int| broadcast_at(a, b, i).unwrap() as usize))
    } else {
        None
    }
}

/// `broadcast_shape`: the shape two arrays broadcast to, if they do.
pub fn broadcast_shape(a: &[usize], b: &[usize]) -> (r: Option<Vec<usize>>)
    ensures
        match r {
            Some(v) => spec_broadcast_shape(a@, b@) == Some(v@),
            None => spec_broadcast_shape(a@, b@) is None,
        },
{
    let nd = if a.len() >= b.len() { a.len() } else { b.len() };
    let mut out: Vec<usize> = Vec::new();
    let mut i: usize = 0;
    while i < nd
        invariant
            i <= nd,
            nd as int == broadcast_rank(a@, b@),
            out@.len() == i,
            forall|j: int| 0 <= j < i ==> #[trigger] broadcast_at(a@, b@, j) is Some,
            forall|j: int| 0 <= j < i ==> #[trigger] out@[j] == broadcast_at(a@, b@, j).unwrap() as usize,
        decreases nd - i,
    {
        let da: usize = if a.len() >= nd - i { a[a.len() - (nd - i)] } else { 1 };
        let db: usize = if b.len() >= nd - i { b[b.len() - (nd - i)] } else { 1 };
        let d = if da == db {
            da
        } else if da == 1 {
            db
        } else if db == 1 {
            da
        } else {
            assert(broadcast_at(a@, b@, i as int) is None);
            return None;
        };
        out.push(d);
        i = i + 1;
    }
    assert(out@ =~= spec_broadcast_shape(a@, b@).unwrap());
    Some(out)
}

/// Broadcasting does not depend on the order of the operands.
pub proof fn lemma_broadcast_commutative(a: Seq<usize>, b: Seq<usize>)
    ensures
        spec_broadcast_shape(a, b) == spec_broadcast_shape(b, a),
{
    assert(broadcast_rank(a, b) == broadcast_rank(b, a));
    assert forall|i: int| 0 <= i < broadcast_rank(a, b) implies #[trigger] broadcast_at(a, b, i) == broadcast_at(b, a, i) by {}
    if spec_broadcast_shape(a, b) is Some {
        assert forall|i: int| 0 <= i < broadcast_rank(b, a) implies #[trigger] broadcast_at(b, a, i) is Some by {
            assert(broadcast_at(a, b, i) is Some);
        }
        assert(spec_broadcast_shape(a, b).unwrap() =~= spec_broadcast_shape(b, a).unwrap());
    } else {
        let w = choose|i: int| 0 <= i < broadcast_rank(a, b) && !(#[trigger] broadcast_at(a, b, i) is Some);
        assert(broadcast_at(b, a, w) is None);
    }
}

/// A shape broadcasts with itself to itself.
pub proof fn lemma_broadcast_self(a: Seq<usize>)
    ensures
        spec_broadcast_shape(a, a) == Some(a),
{
    assert forall|i: int| 0 <= i < broadcast_rank(a, a) implies #[trigger] broadcast_at(a, a, i) is Some by {}
    assert(spec_broadcast_shape(a, a).unwrap() =~= a);
}

// ---------------------------------------------------------------------
// count_nonzero / bincount
// ---------------------------------------------------------------------

/// Number of `true` entries.
pub open spec fn count_true(s: Seq<bool>) -> nat
    decreases s.len(),
{
    if s.len() == 0 {
        0
    } else {
        count_true(s.drop_last()) + if s.last() { 1nat } else { 0nat }
    }
}

/// `count_nonzero` (of an array already cast to booleans): the number of
/// `true` entries, as a 0-d array.
pub fn count_nonzero(a: &NdArray<bool>) -> (r: NdArray<i64>)
    requires
        a.data@.len() <= i64::MAX,
    ensures
        r@.shape.len() == 0,
        r@.data == seq![count_true(a.data@) as i64],
{
    let mut c: i64 = 0;
    let mut i: usize = 0;
    while i < a.data.len()
        invariant
            i <= a.data@.len(),
            a.data@.len() <= i64::MAX,
            c == count_true(a.data@.take(i as int)),
            c <= i,
        decreases a.data@.len() - i,
    {
        assert(a.data@.take(i + 1).drop_last() =~= a.data@.take(i as int));
        if a.data[i] {
            c = c + 1;
        }
        i = i + 1;
    }
    assert(a.data@.take(a.data@.len() as int) =~= a.data@);
    let r = NdArray { shape: Vec::new(), data: vec![c] };
    assert(r@.data =~= seq![count_true(a.data@) as i64]);
    r
}

/// Number of entries equal to `x`.
pub open spec fn count_of(s: Seq<i64>, x: int) -> nat
    decreases s.len(),
{
    if s.len() == 0 {
        0
    } else {
        count_of(s.drop_last(), x) + if s.last() == x { 1nat } else { 0nat }
    }
}

/// The largest entry, or -1 for no entries.
pub open spec fn max_or_minus_one(s: Seq<i64>) -> int
    decreases s.len(),
{
    if s.len() == 0 {
        -1
    } else {
        let m = max_or_minus_one(s.drop_last());
        if s.last() > m { s.last() as int } else { m }
    }
}

proof fn lemma_max_bounds(s: Seq<i64>)
    ensures
        forall|i: int| 0 <= i < s.len() ==> s[i] <= max_or_minus_one(s),
        max_or_minus_one(s) == -1 || exists|i: int| 0 <= i < s.len() && s[i] == max_or_minus_one(s),
        max_or_minus_one(s) >= -1,
    decreases s.len(),
{
    if s.len() > 0 {
        lemma_max_bounds(s.drop_last());
        let m = max_or_minus_one(s.drop_last());
        assert forall|i: int| 0 <= i < s.len() implies s[i] <= max_or_minus_one(s) by {
            if i < s.len() - 1 {
                assert(s.drop_last()[i] == s[i]);
            }
        }
        if s.last() <= m && m != -1 {
            let w = choose|i: int| 0 <= i < s.drop_last().len() && s.drop_last()[i] == m;
            assert(s[w] == m);
        }
        if s.last() > m {
            assert(s[s.len() - 1] == max_or_minus_one(s));
        }
    }
}

proof fn lemma_count_bound(s: Seq<i64>, x: int)
    ensures
        count_of(s, x) <= s.len(),
    decreases s.len(),
{
    if s.len() > 0 {
        lemma_count_bound(s.drop_last(), x);
    }
}

/// Some element is negative.
pub open spec fn has_negative(s: Seq<i64>) -> bool {
    exists|i: int| 0 <= i < s.len() && s[i] < 0
}

/// `bincount` (of an array already cast to `i64`): entry `v` counts the
/// occurrences of `v`, for `v` from 0 to the largest entry (no entries for
/// an empty array); refused when an entry is negative.
pub fn bincount(a: &NdArray<i64>) -> (r: Result<NdArray<i64>, ArrayError>)
    requires
        a.data@.len() <= i64::MAX,
        max_or_minus_one(a.data@) < usize::MAX,
    ensures
        has_negative(a.data@) ==> r == Err::<NdArray<i64>, ArrayError>(ArrayError::NegativeValues),
        !has_negative(a.data@) ==> (r matches Ok(v) && v@.shape == seq![(max_or_minus_one(a.data@) + 1) as usize]
            && v@.data.len() == max_or_minus_one(a.data@) + 1
            && forall|j: int| 0 <= j < v@.data.len() ==> #[trigger] v@.data[j] == count_of(a.data@, j)),
{
    let n = a.data.len();
    let mut mx: i64 = -1;
    let mut neg = false;
    let mut i: usize = 0;
    while i < n
        invariant
            i <= n,
            n == a.data@.len(),
            mx == max_or_minus_one(a.data@.take(i as int)),
            neg == has_negative(a.data@.take(i as int)),
        decreases n - i,
    {
        let ghost t = a.data@.take(i + 1);
        assert(t.drop_last() =~= a.data@.take(i as int));
        if a.data[i] < 0 {
            assert(t[i as int] < 0);
            neg = true;
        }
        proof {
            if has_negative(t) && !neg {
                let w = choose|k: int| 0 <= k < t.len() && t[k] < 0;
                assert(a.data@.take(i as int)[w] == t[w]);
            }
            if neg && !(a.data[i as int] < 0) {
                let w = choose|k: int| 0 <= k < i && a.data@.take(i as int)[k] < 0;
                assert(t[w] == a.data@.take(i as int)[w]);
            }
        }
        if a.data[i] > mx {
            mx = a.data[i];
        }
        i = i + 1;
    }
    assert(a.data@.take(n as int) =~= a.data@);
    if neg {
        return Err(ArrayError::NegativeValues);
    }
    proof {
        lemma_max_bounds(a.data@);
    }
    let bins: usize = if mx < 0 { 0 } else { (mx as usize) + 1 };
    let mut counts: Vec<i64> = Vec::new();
    let mut b: usize = 0;
    while b < bins
        invariant
            b <= bins,
            counts@.len() == b,
            forall|j: int| 0 <= j < b ==> #[trigger] counts@[j] == 0,
        decreases bins - b,
    {
        counts.push(0);
        b = b + 1;
    }
    proof {
        lemma_max_bounds(a.data@);
    }
    let mut i: usize = 0;
    assert(a.data@.take(0) =~= Seq::<i64>::empty());
    while i < n
        invariant
            i <= n,
            n == a.data@.len(),
            n <= i64::MAX,
            bins == mx + 1,
            mx == max_or_minus_one(a.data@),
            forall|k: int| 0 <= k < n ==> #[trigger] a.data@[k] >= 0 && a.data@[k] <= mx,
            counts@.len() == bins,
            forall|j: int| 0 <= j < bins ==> #[trigger] counts@[j] == count_of(a.data@.take(i as int), j),
        decreases n - i,
    {
        let v = a.data[i];
        let ghost t = a.data@.take(i + 1);
        assert(t.drop_last() =~= a.data@.take(i as int));
        proof {
            lemma_count_bound(a.data@.take(i as int), v as int);
        }
        let idx = v as usize;
        let cur = counts[idx];
        counts.set(idx, cur + 1);
        i = i + 1;
    }
    assert(a.data@.take(n as int) =~= a.data@);
    let r = NdArray { shape: vec![bins], data: counts };
    assert(r@.shape =~= seq![bins]);
    Ok(r)
}

// ---------------------------------------------------------------------
// broadcast element access and comparison
// ---------------------------------------------------------------------

/// The multi-index of an operand of shape `s` that the multi-index `u` of
/// the broadcast shape reads: right-aligned, dimensions of size 1 pinned to 0.
pub open spec fn broadcast_index(s: Seq<usize>, u: Seq<usize>) -> Seq<usize> {
    Seq::new(s.len(), |i: int| if s[i] == 1 { 0usize } else { u[i + u.len() - s.len()] })
}

/// Flat position in an operand of shape `s` read by flat position `f` of
/// the broadcast shape `out`.
pub open spec fn broadcast_source(s: Seq<usize>, out: Seq<usize>, f: int) -> int {
    flat_index(s, broadcast_index(s, unflat_index(out, f)))
}

/// An element comparison.
#[derive(Clone, Copy, Debug, PartialEq, Eq, Structural)]
pub enum CmpOp {
    Eq,
    Ne,
    Lt,
    Le,
    Gt,
    Ge,
}

/// Whether `x op y` holds.
pub open spec fn op_holds(op: CmpOp, x: int, y: int) -> bool {
    match op {
        CmpOp::Eq => x == y,
        CmpOp::Ne => x != y,
        CmpOp::Lt => x < y,
        CmpOp::Le => x <= y,
        CmpOp::Gt => x > y,
        CmpOp::Ge => x >= y,
    }
}

/// `compare` of integer arrays: the boolean array of `a op b`, element by
/// element over the broadcast shape; shapes that do not broadcast are
/// refused.
pub open spec fn spec_compare(a: NdModel<i128>, b: NdModel<i128>, op: CmpOp) -> Result<NdModel<bool>, ArrayError> {
    match spec_broadcast_shape(a.shape, b.shape) {
        None => Err(ArrayError::IncompatibleShapes),
        Some(out) => Ok(NdModel {
            shape: out,
            data: Seq::new(shape_product(out), |f: int| op_holds(
                op,
                a.data[broadcast_source(a.shape, out, f)] as int,
                b.data[broadcast_source(b.shape, out, f)] as int,
            )),
        }),
    }
}

/// The six comparisons of two arrays, element by element: less-than holds
/// where the element of `a` is smaller than that of `b`; less-or-equal is
/// the negation of greater-than, greater-or-equal that of less-than, and
/// not-equal that of equal; less-or-equal is less-than or equal, and
/// greater-or-equal is greater-than or equal.
pub proof fn lemma_compare_relations(a: NdModel<i128>, b: NdModel<i128>)
    requires
        spec_broadcast_shape(a.shape, b.shape) is Some,
    ensures
        ({
            let out = spec_broadcast_shape(a.shape, b.shape)->Some_0;
            let lt = spec_compare(a, b, CmpOp::Lt)->Ok_0.data;
            let le = spec_compare(a, b, CmpOp::Le)->Ok_0.data;
            let gt = spec_compare(a, b, CmpOp::Gt)->Ok_0.data;
            let ge = spec_compare(a, b, CmpOp::Ge)->Ok_0.data;
            let eq = spec_compare(a, b, CmpOp::Eq)->Ok_0.data;
            let ne = spec_compare(a, b, CmpOp::Ne)->Ok_0.data;
            forall|f: int| 0 <= f < shape_product(out) ==> {
                let x = a.data[broadcast_source(a.shape, out, f)];
                let y = b.data[broadcast_source(b.shape, out, f)];
                &&& (#[trigger] lt[f] <==> x < y)
                &&& (gt[f] <==> y < x)
                &&& (eq[f] <==> x == y)
                &&& le[f] == !gt[f]
                &&& ge[f] == !lt[f]
                &&& ne[f] == !eq[f]
                &&& le[f] == (lt[f] || eq[f])
                &&& ge[f] == (gt[f] || eq[f])
            }
        }),
{
}

/// An array compared with itself: every element is equal, less-or-equal and
/// greater-or-equal to itself, and none is less, greater or unequal.
pub proof fn lemma_compare_self(a: NdModel<i128>)
    ensures
        spec_broadcast_shape(a.shape, a.shape) is Some ==> {
            let out = spec_broadcast_shape(a.shape, a.shape)->Some_0;
            forall|f: int| 0 <= f < shape_product(out) ==> {
                &&& #[trigger] spec_compare(a, a, CmpOp::Le)->Ok_0.data[f]
                &&& spec_compare(a, a, CmpOp::Ge)->Ok_0.data[f]
                &&& spec_compare(a, a, CmpOp::Eq)->Ok_0.data[f]
                &&& !spec_compare(a, a, CmpOp::Lt)->Ok_0.data[f]
                &&& !spec_compare(a, a, CmpOp::Gt)->Ok_0.data[f]
                &&& !spec_compare(a, a, CmpOp::Ne)->Ok_0.data[f]
            }
        },
{
}

/// An operand's dimension is 1 or the broadcast dimension.
pub(crate) proof fn lemma_operand_dims(a: Seq<usize>, b: Seq<usize>, out: Seq<usize>)
    requires
        spec_broadcast_shape(a, b) == Some(out),
    ensures
        out.len() >= a.len(),
        forall|i: int| 0 <= i < a.len() && a[i] != 1 ==> #[trigger] a[i] == out[i + out.len() - a.len()],
{
    assert forall|i: int| 0 <= i < a.len() && a[i] != 1 implies #[trigger] a[i] == out[i + out.len() - a.len()] by {
        let j = i + out.len() - a.len();
        assert(broadcast_at(a, b, j) is Some);
        assert(aligned_dim(a, broadcast_rank(a, b), j) == a[i] as int);
    }
}

/// The operand index read by an in-bounds index of the broadcast shape is
/// in bounds of the operand.
pub(crate) proof fn lemma_broadcast_index_in_bounds(s: Seq<usize>, out: Seq<usize>, u: Seq<usize>)
    requires
        out.len() >= s.len(),
        forall|i: int| 0 <= i < s.len() && s[i] != 1 ==> #[trigger] s[i] == out[i + out.len() - s.len()],
        in_bounds(out, u),
    ensures
        in_bounds(s, broadcast_index(s, u)),
{
    let v = broadcast_index(s, u);
    assert forall|i: int| 0 <= i < s.len() implies #[trigger] v[i] < s[i] by {
        if s[i] != 1 {
            let j = i + out.len() - s.len();
            assert(u[j] < out[j]);
        }
    }
}

/// `broadcast_index` computed.
pub(crate) fn broadcast_index_exec(s: &[usize], u: &[usize]) -> (r: Vec<usize>)
    requires
        u@.len() >= s@.len(),
    ensures
        r@ == broadcast_index(s@, u@),
{
    let ul = u.len();
    let off = ul - s.len();
    let mut v: Vec<usize> = Vec::new();
    let mut i: usize = 0;
    while i < s.len()
        invariant
            i <= s@.len(),
            ul == u@.len(),
            off + s@.len() == ul,
            v@ == broadcast_index(s@, u@).take(i as int),
        decreases s@.len() - i,
    {
        let x = if s[i] == 1 { 0 } else { u[i + off] };
        v.push(x);
        i = i + 1;
        assert(v@ =~= broadcast_index(s@, u@).take(i as int));
    }
    assert(broadcast_index(s@, u@).take(s@.len() as int) =~= broadcast_index(s@, u@));
    v
}

/// `op_holds` computed.
fn apply_op(op: CmpOp, x: i128, y: i128) -> (r: bool)
    ensures
        r == op_holds(op, x as int, y as int),
{
    match op {
        CmpOp::Eq => x == y,
        CmpOp::Ne => x != y,
        CmpOp::Lt => x < y,
        CmpOp::Le => x <= y,
        CmpOp::Gt => x > y,
        CmpOp::Ge => x >= y,
    }
}

/// `compare`: `a op b` element by element, the operands broadcast to a
/// common shape (integer elements, compared exactly as `i128`).
pub fn compare(a: &NdArray<i128>, b: &NdArray<i128>, op: CmpOp) -> (r: Result<NdArray<bool>, ArrayError>)
    requires
        nd_wf(a@),
        nd_wf(b@),
        spec_broadcast_shape(a.shape@, b.shape@) matches Some(out) ==> partial_products_fit(out),
    ensures
        match r {
            Ok(v) => spec_compare(a@, b@, op) == Ok::<NdModel<bool>, ArrayError>(v@),
            Err(e) => spec_compare(a@, b@, op) == Err::<NdModel<bool>, ArrayError>(e),
        },
{
    let out = match broadcast_shape(a.shape.as_slice(), b.shape.as_slice()) {
        None => return Err(ArrayError::IncompatibleShapes),
        Some(s) => s,
    };
    proof {
        lemma_operand_dims(a.shape@, b.shape@, out@);
        lemma_broadcast_commutative(a.shape@, b.shape@);
        lemma_operand_dims(b.shape@, a.shape@, out@);
    }
    let n = element_count(out.as_slice());
    let na = a.data.len();
    let nb = b.data.len();
    let mut data: Vec<bool> = Vec::new();
    let mut f: usize = 0;
    while f < n
        invariant
            f <= n,
            n == shape_product(out@),
            nd_wf(a@),
            nd_wf(b@),
            na == a.data@.len(),
            nb == b.data@.len(),
            spec_broadcast_shape(a.shape@, b.shape@) == Some(out@),
            out@.len() >= a.shape@.len(),
            out@.len() >= b.shape@.len(),
            forall|i: int| 0 <= i < a.shape@.len() && a.shape@[i] != 1 ==> #[trigger] a.shape@[i] == out@[i + out@.len() - a.shape@.len()],
            forall|i: int| 0 <= i < b.shape@.len() && b.shape@[i] != 1 ==> #[trigger] b.shape@[i] == out@[i + out@.len() - b.shape@.len()],
            data@.len() == f,
            forall|g: int| 0 <= g < f ==> #[trigger] data@[g] == op_holds(
                op,
                a.data@[broadcast_source(a.shape@, out@, g)] as int,
                b.data@[broadcast_source(b.shape@, out@, g)] as int,
            ),
        decreases n - f,
    {
        let u = unflat_exec(out.as_slice(), f);
        proof {
            lemma_unflat_flat(out@, f as int);
        }
        let ia = broadcast_index_exec(a.shape.as_slice(), u.as_slice());
        let ib = broadcast_index_exec(b.shape.as_slice(), u.as_slice());
        proof {
            lemma_broadcast_index_in_bounds(a.shape@, out@, u@);
            lemma_broadcast_index_in_bounds(b.shape@, out@, u@);
            lemma_flat_bound(a.shape@, ia@);
            lemma_flat_bound(b.shape@, ib@);
        }
        let fa = flat_exec(a.shape.as_slice(), ia.as_slice());
        let fb = flat_exec(b.shape.as_slice(), ib.as_slice());
        let x = apply_op(op, a.data[fa], b.data[fb]);
        data.push(x);
        f = f + 1;
    }
    let r = NdArray { shape: out, data };
    assert(r@.data =~= spec_compare(a@, b@, op).unwrap().data);
    Ok(r)
}

// ---------------------------------------------------------------------
// concatenate
// ---------------------------------------------------------------------

/// Number of positions before `axis` (the product of the earlier dimensions).
pub open spec fn outer_count(s: Seq<usize>, axis: int) -> nat {
    shape_product(s.take(axis))
}

/// Number of elements after `axis` (the product of the later dimensions).
pub open spec fn inner_count(s: Seq<usize>, axis: int) -> nat {
    shape_product(s.skip(axis + 1))
}

/// `s` has the rank of `t` and agrees with it except on `axis`.
pub open spec fn agrees_off_axis(s: Seq<usize>, t: Seq<usize>, axis: int) -> bool {
    &&& s.len() == t.len()
    &&& forall|d: int| 0 <= d < t.len() && d != axis ==> #[trigger] s[d] == t[d]
}

/// Every array agrees with the first off the axis.
pub open spec fn shapes_agree<T>(arrs: Seq<NdModel<T>>, axis: int) -> bool {
    forall|i: int| 0 <= i < arrs.len() ==> #[trigger] agrees_off_axis(arrs[i].shape, arrs[0].shape, axis)
}

/// Sum of the axis lengths of the first `k` arrays.
pub open spec fn axis_sum<T>(arrs: Seq<NdModel<T>>, axis: int, k: nat) -> nat
    decreases k,
{
    if k == 0 {
        0
    } else {
        axis_sum(arrs, axis, (k - 1) as nat) + arrs[k - 1].shape[axis] as nat
    }
}

/// The elements of `a` at outer position `o`: `a.shape[axis] * inner` of
/// them.
pub open spec fn outer_block<T>(a: NdModel<T>, axis: int, inner: nat, o: int) -> Seq<T> {
    let b = a.shape[axis] * inner;
    a.data.subrange(o * b, o * b + b)
}

/// The blocks at outer position `o` of the first `k` arrays, in order.
pub open spec fn concat_row<T>(arrs: Seq<NdModel<T>>, axis: int, inner: nat, o: int, k: nat) -> Seq<T>
    decreases k,
{
    if k == 0 {
        Seq::empty()
    } else {
        concat_row(arrs, axis, inner, o, (k - 1) as nat) + outer_block(arrs[k - 1], axis, inner, o)
    }
}

/// The rows of the first `n` outer positions.
pub open spec fn concat_rows<T>(arrs: Seq<NdModel<T>>, axis: int, inner: nat, n: nat) -> Seq<T>
    decreases n,
{
    if n == 0 {
        Seq::empty()
    } else {
        concat_rows(arrs, axis, inner, (n - 1) as nat) + concat_row(arrs, axis, inner, n - 1, arrs.len())
    }
}

/// `concatenate`: the arrays joined along `axis`; refused for no arrays,
/// an axis past the first array's rank, or shapes that differ in rank or
/// off the axis.
pub open spec fn spec_concatenate<T>(arrs: Seq<NdModel<T>>, axis: int) -> Result<NdModel<T>, ArrayError> {
    if arrs.len() == 0 {
        Err(ArrayError::NoArrays)
    } else if axis >= arrs[0].shape.len() {
        Err(ArrayError::AxisOutOfBounds)
    } else if !shapes_agree(arrs, axis) {
        Err(ArrayError::IncompatibleShapes)
    } else {
        let s0 = arrs[0].shape;
        Ok(NdModel {
            shape: s0.update(axis, axis_sum(arrs, axis, arrs.len()) as usize),
            data: concat_rows(arrs, axis, inner_count(s0, axis), outer_count(s0, axis)),
        })
    }
}

/// The models of a slice of arrays.
pub open spec fn models<T>(arrs: Seq<NdArray<T>>) -> Seq<NdModel<T>> {
    Seq::new(arrs.len(), |i: int| arrs[i]@)
}

/// A shape's product through the axis: outer positions times the axis
/// length times the inner elements.
pub(crate) proof fn lemma_product_around_axis(s: Seq<usize>, axis: int)
    requires
        0 <= axis < s.len(),
    ensures
        shape_product(s) == outer_count(s, axis) * ((s[axis] as int) * inner_count(s, axis)),
{
    lemma_product_split(s, axis);
    lemma_product_front(s.skip(axis));
    assert(s.skip(axis).drop_first() =~= s.skip(axis + 1));
    assert(s.skip(axis)[0] == s[axis]);
}

/// An array agreeing with another off the axis has the same outer and inner
/// counts.
pub(crate) proof fn lemma_counts_agree(s: Seq<usize>, t: Seq<usize>, axis: int)
    requires
        agrees_off_axis(s, t, axis),
        0 <= axis < t.len(),
    ensures
        outer_count(s, axis) == outer_count(t, axis),
        inner_count(s, axis) == inner_count(t, axis),
{
    assert(s.take(axis) =~= t.take(axis));
    assert(s.skip(axis + 1) =~= t.skip(axis + 1));
}

proof fn lemma_row_len<T>(arrs: Seq<NdModel<T>>, axis: int, inner: nat, o: int, k: nat)
    requires
        k <= arrs.len(),
        0 <= o,
        forall|i: int| 0 <= i < k ==> (o + 1) * (arrs[i].shape[axis] * inner) <= #[trigger] arrs[i].data.len(),
    ensures
        concat_row(arrs, axis, inner, o, k).len() == axis_sum(arrs, axis, k) * inner,
    decreases k,
{
    if k > 0 {
        lemma_row_len(arrs, axis, inner, o, (k - 1) as nat);
        let a = arrs[k - 1];
        let b = a.shape[axis] * inner;
        assert((o + 1) * b <= a.data.len());
        assert(o * b + b == (o + 1) * b && 0 <= o * b) by (nonlinear_arith)
            requires
                0 <= o,
                0 <= b,
        ;
        assert(axis_sum(arrs, axis, (k - 1) as nat) * inner + b == axis_sum(arrs, axis, k) * inner) by (nonlinear_arith)
            requires
                b == a.shape[axis] * inner,
                axis_sum(arrs, axis, k) == axis_sum(arrs, axis, (k - 1) as nat) + a.shape[axis],
        ;
    } else {
        assert(0 * inner == 0) by (nonlinear_arith);
    }
}

proof fn lemma_rows_len<T>(arrs: Seq<NdModel<T>>, axis: int, inner: nat, outer: nat, n: nat)
    requires
        n <= outer,
        forall|i: int| 0 <= i < arrs.len() ==> outer * (arrs[i].shape[axis] * inner) == #[trigger] arrs[i].data.len(),
    ensures
        concat_rows(arrs, axis, inner, n).len() == n * (axis_sum(arrs, axis, arrs.len()) * inner),
    decreases n,
{
    if n > 0 {
        lemma_rows_len(arrs, axis, inner, outer, (n - 1) as nat);
        assert forall|i: int| 0 <= i < arrs.len() implies n * (arrs[i].shape[axis] * inner) <= #[trigger] arrs[i].data.len() by {
            let b = arrs[i].shape[axis] * inner;
            assert(n * b <= outer * b) by (nonlinear_arith)
                requires
                    n <= outer,
                    0 <= b,
            ;
        }
        lemma_row_len(arrs, axis, inner, n - 1, arrs.len());
        let w = axis_sum(arrs, axis, arrs.len()) * inner;
        assert((n - 1) * w + w == n * w) by (nonlinear_arith);
    } else {
        let w = axis_sum(arrs, axis, arrs.len()) * inner;
        assert(0 * w == 0) by (nonlinear_arith);
    }
}

/// `concatenate`: the arrays joined along `axis`, in order.
pub fn concatenate<T: Copy>(arrays: &[NdArray<T>], axis: usize) -> (r: Result<NdArray<T>, ArrayError>)
    requires
        forall|i: int| 0 <= i < arrays@.len() ==> nd_wf(#[trigger] arrays@[i]@),
        arrays@.len() > 0 ==> partial_products_fit(arrays@[0].shape@),
        arrays@.len() > 0 && axis < arrays@[0].shape@.len() ==> partial_products_fit(arrays@[0].shape@.skip(axis + 1)),
        spec_concatenate(models(arrays@), axis as int) matches Ok(m) ==> (partial_products_fit(m.shape) && axis_sum(
            models(arrays@),
            axis as int,
            arrays@.len(),
        ) <= usize::MAX),
    ensures
        match r {
            Ok(v) => spec_concatenate(models(arrays@), axis as int) == Ok::<NdModel<T>, ArrayError>(v@) && nd_wf(v@),
            Err(e) => spec_concatenate(models(arrays@), axis as int) == Err::<NdModel<T>, ArrayError>(e),
        },
{
    let ghost arrs = models(arrays@);
    let count = arrays.len();
    if count == 0 {
        return Err(ArrayError::NoArrays);
    }
    let nd = arrays[0].shape.len();
    if axis >= nd {
        return Err(ArrayError::AxisOutOfBounds);
    }
    // every array agrees with the first off the axis
    let mut i: usize = 0;
    while i < count
        invariant
            i <= count,
            count == arrays@.len(),
            arrs == models(arrays@),
            nd == arrs[0].shape.len(),
            axis < nd,
            forall|j: int| 0 <= j < i ==> #[trigger] agrees_off_axis(arrs[j].shape, arrs[0].shape, axis as int),
        decreases count - i,
    {
        if arrays[i].shape.len() != nd {
            assert(!shapes_agree(arrs, axis as int)) by {
                if shapes_agree(arrs, axis as int) {
                    assert(agrees_off_axis(arrs[i as int].shape, arrs[0].shape, axis as int));
                }
            }
            assert(arrs.len() > 0);
            assert(!(axis as int >= arrs[0].shape.len()));
            assert(spec_concatenate(arrs, axis as int) == Err::<NdModel<T>, ArrayError>(ArrayError::IncompatibleShapes));
            return Err(ArrayError::IncompatibleShapes);
        }
        let mut d: usize = 0;
        while d < nd
            invariant
                d <= nd,
                i < count,
                count == arrays@.len(),
                arrs == models(arrays@),
                nd == arrs[0].shape.len(),
                axis < nd,
                arrs[i as int].shape.len() == nd,
                forall|e: int| 0 <= e < d && e != axis ==> #[trigger] arrs[i as int].shape[e] == arrs[0].shape[e],
            decreases nd - d,
        {
            if d != axis && arrays[i].shape[d] != arrays[0].shape[d] {
                assert(!shapes_agree(arrs, axis as int)) by {
                    if shapes_agree(arrs, axis as int) {
                        assert(agrees_off_axis(arrs[i as int].shape, arrs[0].shape, axis as int));
                        assert(arrs[i as int].shape[d as int] == arrs[0].shape[d as int]);
                    }
                }
                assert(spec_concatenate(arrs, axis as int) == Err::<NdModel<T>, ArrayError>(ArrayError::IncompatibleShapes));
                return Err(ArrayError::IncompatibleShapes);
            }
            d = d + 1;
        }
        i = i + 1;
    }
    assert(shapes_agree(arrs, axis as int));
    let ghost s0 = arrs[0].shape;
    // the sum of the axis lengths
    let mut total_axis: usize = 0;
    let mut k: usize = 0;
    while k < count
        invariant
            k <= count,
            count == arrays@.len(),
            arrs == models(arrays@),
            axis < nd,
            nd == s0.len(),
            s0 == arrs[0].shape,
            shapes_agree(arrs, axis as int),
            axis_sum(arrs, axis as int, count as nat) <= usize::MAX,
            total_axis == axis_sum(arrs, axis as int, k as nat),
        decreases count - k,
    {
        proof {
            lemma_axis_sum_monotone(arrs, axis as int, (k + 1) as nat, count as nat);
            assert(agrees_off_axis(arrs[k as int].shape, s0, axis as int));
        }
        total_axis = total_axis + arrays[k].shape[axis];
        k = k + 1;
    }
    let head = vstd::slice::slice_subrange(arrays[0].shape.as_slice(), 0, axis);
    let tail = vstd::slice::slice_subrange(arrays[0].shape.as_slice(), axis + 1, nd);
    assert(head@ =~= s0.take(axis as int));
    assert(tail@ =~= s0.skip(axis + 1));
    proof {
        assert forall|j: int| 0 <= j <= head@.len() implies #[trigger] shape_product(head@.take(j)) <= usize::MAX by {
            assert(head@.take(j) =~= s0.take(j));
        }
        assert forall|j: int| 0 <= j <= tail@.len() implies #[trigger] shape_product(tail@.take(j)) <= usize::MAX by {
            assert(tail@.take(j) =~= s0.skip(axis + 1).take(j));
        }
    }
    let outer = element_count(head);
    let inner = element_count(tail);
    proof {
        assert forall|j: int| 0 <= j < count implies outer * (#[trigger] arrs[j].shape[axis as int] * inner) == arrs[j].data.len() by {
            assert(agrees_off_axis(arrs[j].shape, s0, axis as int));
            lemma_counts_agree(arrs[j].shape, s0, axis as int);
            lemma_product_around_axis(arrs[j].shape, axis as int);
            assert(nd_wf(arrays@[j]@));
        }
    }
    let mut out: Vec<T> = Vec::new();
    let mut o: usize = 0;
    while o < outer
        invariant
            o <= outer,
            count == arrays@.len(),
            arrs == models(arrays@),
            axis < nd,
            nd == s0.len(),
            forall|j: int| 0 <= j < count ==> outer * (#[trigger] arrs[j].shape[axis as int] * inner) == arrs[j].data.len(),
            shapes_agree(arrs, axis as int),
            s0 == arrs[0].shape,
            out@ == concat_rows(arrs, axis as int, inner as nat, o as nat),
        decreases outer - o,
    {
        let mut i: usize = 0;
        let ghost row_start = out@;
        while i < count
            invariant
                i <= count,
                o < outer,
                count == arrays@.len(),
                arrs == models(arrays@),
                axis < nd,
                nd == s0.len(),
                forall|j: int| 0 <= j < count ==> outer * (#[trigger] arrs[j].shape[axis as int] * inner) == arrs[j].data.len(),
                shapes_agree(arrs, axis as int),
                s0 == arrs[0].shape,
                row_start == concat_rows(arrs, axis as int, inner as nat, o as nat),
                out@ == row_start + concat_row(arrs, axis as int, inner as nat, o as int, i as nat),
            decreases count - i,
        {
            let a = &arrays[i];
            assert(arrs[i as int] == a@);
            let len_a = a.data.len();
            assert(agrees_off_axis(arrs[i as int].shape, s0, axis as int));
            assert(a.shape@.len() == nd);
            assert(outer * (arrs[i as int].shape[axis as int] * inner) == arrs[i as int].data.len());
            let ghost b_int = (a.shape@[axis as int] as int) * (inner as int);
            assert(o * b_int + b_int <= len_a && 0 <= o * b_int && b_int <= len_a) by (nonlinear_arith)
                requires
                    o < outer,
                    outer * b_int == len_a,
                    b_int >= 0,
            ;
            let b = a.shape[axis] * inner;
            let base = o * b;
            let mut k: usize = 0;
            let ghost start = out@;
            while k < b
                invariant
                    k <= b,
                    len_a == a.data@.len(),
                    base + b <= len_a,
                    out@ == start + a.data@.subrange(base as int, base + k),
                decreases b - k,
            {
                out.push(a.data[base + k]);
                k = k + 1;
                assert(out@ =~= start + a.data@.subrange(base as int, base + k));
            }
            i = i + 1;
            assert(out@ =~= row_start + concat_row(arrs, axis as int, inner as nat, o as int, i as nat));
        }
        o = o + 1;
    }
    let mut shape = crate::nd::copy_vec(arrays[0].shape.as_slice());
    shape.set(axis, total_axis);
    proof {
        lemma_rows_len(arrs, axis as int, inner as nat, outer as nat, outer as nat);
        let ms = s0.update(axis as int, total_axis);
        lemma_product_around_axis(ms, axis as int);
        assert(ms.take(axis as int) =~= s0.take(axis as int));
        assert(ms.skip(axis + 1) =~= s0.skip(axis + 1));
        let w = axis_sum(arrs, axis as int, count as nat) * inner;
        assert(outer * (total_axis * inner) == outer * w);
    }
    let r = NdArray { shape, data: out };
    Ok(r)
}

proof fn lemma_axis_sum_monotone<T>(arrs: Seq<NdModel<T>>, axis: int, k: nat, n: nat)
    requires
        k <= n,
    ensures
        axis_sum(arrs, axis, k) <= axis_sum(arrs, axis, n),
    decreases n,
{
    if k < n {
        lemma_axis_sum_monotone(arrs, axis, k, (n - 1) as nat);
    }
}


/// A 1-D array of `n` as an n x 1 column; other arrays unchanged.
pub open spec fn as_column<T>(a: NdModel<T>) -> NdModel<T> {
    if a.shape.len() == 1 { NdModel { shape: seq![a.data.len() as usize, 1usize], data: a.data } } else { a }
}

/// An array as a 3-D stack layer: 0-d as 1x1x1, a 1-D array of `n` as
/// 1xnx1, an mxn array as mxnx1; others unchanged.
pub open spec fn as_layer<T>(a: NdModel<T>) -> NdModel<T> {
    if a.shape.len() == 0 {
        NdModel { shape: seq![1usize, 1usize, 1usize], data: a.data }
    } else if a.shape.len() == 1 {
        NdModel { shape: seq![1usize, a.data.len() as usize, 1usize], data: a.data }
    } else if a.shape.len() == 2 {
        NdModel { shape: seq![a.shape[0], a.shape[1], 1usize], data: a.data }
    } else {
        a
    }
}

/// The column forms of the arrays.
pub open spec fn column_models<T>(arrs: Seq<NdArray<T>>) -> Seq<NdModel<T>> {
    Seq::new(arrs.len(), |i: int| as_column(arrs[i]@))
}

/// The layer forms of the arrays.
pub open spec fn layer_models<T>(arrs: Seq<NdArray<T>>) -> Seq<NdModel<T>> {
    Seq::new(arrs.len(), |i: int| as_layer(arrs[i]@))
}

/// Conditions under which `concatenate` of these models runs without
/// overflow.
pub open spec fn concat_fits<T>(arrs: Seq<NdModel<T>>, axis: int) -> bool {
    &&& arrs.len() > 0 ==> partial_products_fit(arrs[0].shape)
    &&& arrs.len() > 0 && axis < arrs[0].shape.len() ==> partial_products_fit(arrs[0].shape.skip(axis + 1))
    &&& spec_concatenate(arrs, axis) matches Ok(m) ==> (partial_products_fit(m.shape) && axis_sum(arrs, axis, arrs.len()) <= usize::MAX)
}

/// `column_stack`: 1-D arrays as columns, joined side by side (along axis 1).
pub fn column_stack<T: Copy>(arrays: &[NdArray<T>]) -> (r: Result<NdArray<T>, ArrayError>)
    requires
        forall|i: int| 0 <= i < arrays@.len() ==> nd_wf(#[trigger] arrays@[i]@),
        concat_fits(column_models(arrays@), 1),
    ensures
        match r {
            Ok(v) => spec_concatenate(column_models(arrays@), 1) == Ok::<NdModel<T>, ArrayError>(v@) && nd_wf(v@),
            Err(e) => spec_concatenate(column_models(arrays@), 1) == Err::<NdModel<T>, ArrayError>(e),
        },
{
    let mut normalized: Vec<NdArray<T>> = Vec::new();
    let mut i: usize = 0;
    while i < arrays.len()
        invariant
            i <= arrays@.len(),
            forall|j: int| 0 <= j < arrays@.len() ==> nd_wf(#[trigger] arrays@[j]@),
            normalized@.len() == i,
            forall|j: int| 0 <= j < i ==> (#[trigger] normalized@[j])@ == as_column(arrays@[j]@) && nd_wf(normalized@[j]@),
        decreases arrays@.len() - i,
    {
        let a = &arrays[i];
        assert(nd_wf(arrays@[i as int]@));
        let c = if a.shape.len() == 1 {
            let n = a.data.len();
            proof {
                lemma_product_small(n, 1, 1);
            }
            let r = reshape_to(a, vec![n, 1]);
            assert(r@.shape =~= seq![n, 1usize]);
            r
        } else {
            clone_array(a)
        };
        normalized.push(c);
        i = i + 1;
    }
    assert(models(normalized@) =~= column_models(arrays@));
    concatenate(normalized.as_slice(), 1)
}

/// `dstack`: arrays as 3-D layers, stacked along the third axis.
pub fn dstack<T: Copy>(arrays: &[NdArray<T>]) -> (r: Result<NdArray<T>, ArrayError>)
    requires
        forall|i: int| 0 <= i < arrays@.len() ==> nd_wf(#[trigger] arrays@[i]@),
        concat_fits(layer_models(arrays@), 2),
    ensures
        match r {
            Ok(v) => spec_concatenate(layer_models(arrays@), 2) == Ok::<NdModel<T>, ArrayError>(v@) && nd_wf(v@),
            Err(e) => spec_concatenate(layer_models(arrays@), 2) == Err::<NdModel<T>, ArrayError>(e),
        },
{
    let mut normalized: Vec<NdArray<T>> = Vec::new();
    let mut i: usize = 0;
    while i < arrays.len()
        invariant
            i <= arrays@.len(),
            forall|j: int| 0 <= j < arrays@.len() ==> nd_wf(#[trigger] arrays@[j]@),
            normalized@.len() == i,
            forall|j: int| 0 <= j < i ==> (#[trigger] normalized@[j])@ == as_layer(arrays@[j]@) && nd_wf(normalized@[j]@),
        decreases arrays@.len() - i,
    {
        let a = &arrays[i];
        assert(nd_wf(arrays@[i as int]@));
        let c = atleast_3d(a);
        normalized.push(c);
        i = i + 1;
    }
    assert(models(normalized@) =~= layer_models(arrays@));
    concatenate(normalized.as_slice(), 2)
}

/// Some element of `b` read over the broadcast shape `out` is negative.
pub open spec fn negative_exponent_i64(b: NdModel<i64>, out: Seq<usize>) -> bool {
    exists|f: int| 0 <= f < shape_product(out) && #[trigger] b.data[broadcast_source(b.shape, out, f)] < 0
}

/// `power` of `i64` arrays: `int_pow_i64(a, b)` element by element over the
/// broadcast shape; shapes that do not broadcast are refused, and so is a
/// negative exponent.
pub open spec fn spec_power_i64(a: NdModel<i64>, b: NdModel<i64>) -> Result<NdModel<i64>, ArrayError> {
    match spec_broadcast_shape(a.shape, b.shape) {
        None => Err(ArrayError::IncompatibleShapes),
        Some(out) => if negative_exponent_i64(b, out) {
            Err(ArrayError::NegativeExponent)
        } else {
            Ok(NdModel {
                shape: out,
                data: Seq::new(shape_product(out), |f: int| spec_int_pow_i64(
                    a.data[broadcast_source(a.shape, out, f)] as int,
                    b.data[broadcast_source(b.shape, out, f)] as int,
                ) as i64),
            })
        },
    }
}

/// `power` of `i64` arrays: wrapping integer powers, the operands broadcast
/// to a common shape; a negative exponent is refused.
pub fn power_i64(a: &NdArray<i64>, b: &NdArray<i64>) -> (r: Result<NdArray<i64>, ArrayError>)
    requires
        nd_wf(a@),
        nd_wf(b@),
        spec_broadcast_shape(a.shape@, b.shape@) matches Some(out) ==> partial_products_fit(out),
    ensures
        match r {
            Ok(v) => spec_power_i64(a@, b@) == Ok::<NdModel<i64>, ArrayError>(v@),
            Err(e) => spec_power_i64(a@, b@) == Err::<NdModel<i64>, ArrayError>(e),
        },
{
    let out = match broadcast_shape(a.shape.as_slice(), b.shape.as_slice()) {
        None => return Err(ArrayError::IncompatibleShapes),
        Some(s) => s,
    };
    proof {
        lemma_operand_dims(a.shape@, b.shape@, out@);
        lemma_broadcast_commutative(a.shape@, b.shape@);
        lemma_operand_dims(b.shape@, a.shape@, out@);
    }
    let n = element_count(out.as_slice());
    let na = a.data.len();
    let nb = b.data.len();
    let mut data: Vec<i64> = Vec::new();
    let mut f: usize = 0;
    while f < n
        invariant
            f <= n,
            n == shape_product(out@),
            nd_wf(a@),
            nd_wf(b@),
            na == a.data@.len(),
            nb == b.data@.len(),
            spec_broadcast_shape(a.shape@, b.shape@) == Some(out@),
            out@.len() >= a.shape@.len(),
            out@.len() >= b.shape@.len(),
            forall|i: int| 0 <= i < a.shape@.len() && a.shape@[i] != 1 ==> #[trigger] a.shape@[i] == out@[i + out@.len() - a.shape@.len()],
            forall|i: int| 0 <= i < b.shape@.len() && b.shape@[i] != 1 ==> #[trigger] b.shape@[i] == out@[i + out@.len() - b.shape@.len()],
            data@.len() == f,
            forall|g: int| 0 <= g < f ==> #[trigger] b.data@[broadcast_source(b.shape@, out@, g)] >= 0,
            forall|g: int| 0 <= g < f ==> #[trigger] data@[g] == spec_int_pow_i64(
                a.data@[broadcast_source(a.shape@, out@, g)] as int,
                b.data@[broadcast_source(b.shape@, out@, g)] as int,
            ) as i64,
        decreases n - f,
    {
        let u = unflat_exec(out.as_slice(), f);
        proof {
            lemma_unflat_flat(out@, f as int);
        }
        let ia = broadcast_index_exec(a.shape.as_slice(), u.as_slice());
        let ib = broadcast_index_exec(b.shape.as_slice(), u.as_slice());
        proof {
            lemma_broadcast_index_in_bounds(a.shape@, out@, u@);
            lemma_broadcast_index_in_bounds(b.shape@, out@, u@);
            lemma_flat_bound(a.shape@, ia@);
            lemma_flat_bound(b.shape@, ib@);
        }
        let fa = flat_exec(a.shape.as_slice(), ia.as_slice());
        let fb = flat_exec(b.shape.as_slice(), ib.as_slice());
        assert(fb == broadcast_source(b.shape@, out@, f as int));
        if b.data[fb] < 0 {
            assert(b.data@[broadcast_source(b.shape@, out@, f as int)] < 0);
            return Err(ArrayError::NegativeExponent);
        }
        let x = int_pow_i64(a.data[fa], b.data[fb]);
        data.push(x);
        f = f + 1;
    }
    assert(!negative_exponent_i64(b@, out@));
    let r = NdArray { shape: out, data };
    assert(r@.data =~= spec_power_i64(a@, b@).unwrap().data);
    Ok(r)
}

// ---------------------------------------------------------------------
// pad
// ---------------------------------------------------------------------

/// How `pad` is told the widths: one width for both sides of every axis, one
/// `(before, after)` pair for every axis, or a pair per axis; negative
/// widths count as 0.
#[derive(Clone, Debug, PartialEq, Eq)]
pub enum PadWidth {
    Scalar(isize),
    Pair(isize, isize),
    PerAxis(Vec<(isize, isize)>),
}

/// Why `pad` refuses its widths.
#[derive(Clone, Copy, Debug, PartialEq, Eq, Structural)]
pub enum PadError {
    /// The per-axis list has this many entries, not one per dimension.
    WrongCount(usize),
}

/// `max(w, 0)`.
pub open spec fn clamp0(w: isize) -> usize {
    if w < 0 { 0 } else { w as usize }
}

/// The `(before, after)` width of every axis that the widths name.
pub open spec fn spec_pad_widths(w: PadWidth, nd: nat) -> Result<Seq<(usize, usize)>, PadError> {
    match w {
        PadWidth::Scalar(n) => Ok(Seq::new(nd, |i: int| (clamp0(n), clamp0(n)))),
        PadWidth::Pair(b, a) => Ok(Seq::new(nd, |i: int| (clamp0(b), clamp0(a)))),
        PadWidth::PerAxis(v) => if v@.len() != nd {
            Err(PadError::WrongCount(v@.len() as usize))
        } else {
            Ok(Seq::new(nd, |i: int| (clamp0(v@[i].0), clamp0(v@[i].1))))
        },
    }
}

/// `parse_pad_width`: the `(before, after)` width of each of `nd` axes.
pub fn parse_pad_width(w: &PadWidth, nd: usize) -> (r: Result<Vec<(usize, usize)>, PadError>)
    ensures
        match r {
            Ok(v) => spec_pad_widths(*w, nd as nat) == Ok::<Seq<(usize, usize)>, PadError>(v@),
            Err(e) => spec_pad_widths(*w, nd as nat) == Err::<Seq<(usize, usize)>, PadError>(e),
        },
{
    let mut out: Vec<(usize, usize)> = Vec::new();
    match w {
        PadWidth::Scalar(n) => {
            let c: usize = if *n < 0 { 0 } else { *n as usize };
            let mut i: usize = 0;
            while i < nd
                invariant
                    i <= nd,
                    c == clamp0(*n),
                    out@ == Seq::new(i as nat, |k: int| (c, c)),
                decreases nd - i,
            {
                out.push((c, c));
                i = i + 1;
                assert(out@ =~= Seq::new(i as nat, |k: int| (c, c)));
            }
            assert(out@ =~= spec_pad_widths(*w, nd as nat).unwrap());
            Ok(out)
        },
        PadWidth::Pair(b, a) => {
            let cb: usize = if *b < 0 { 0 } else { *b as usize };
            let ca: usize = if *a < 0 { 0 } else { *a as usize };
            let mut i: usize = 0;
            while i < nd
                invariant
                    i <= nd,
                    out@ == Seq::new(i as nat, |k: int| (cb, ca)),
                decreases nd - i,
            {
                out.push((cb, ca));
                i = i + 1;
                assert(out@ =~= Seq::new(i as nat, |k: int| (cb, ca)));
            }
            assert(out@ =~= spec_pad_widths(*w, nd as nat).unwrap());
            Ok(out)
        },
        PadWidth::PerAxis(v) => {
            if v.len() != nd {
                return Err(PadError::WrongCount(v.len()));
            }
            let mut i: usize = 0;
            while i < nd
                invariant
                    i <= nd,
                    nd == v@.len(),
                    out@ == Seq::new(i as nat, |k: int| (clamp0(v@[k].0), clamp0(v@[k].1))),
                decreases nd - i,
            {
                let (b, a) = v[i];
                let cb: usize = if b < 0 { 0 } else { b as usize };
                let ca: usize = if a < 0 { 0 } else { a as usize };
                out.push((cb, ca));
                i = i + 1;
                assert(out@ =~= Seq::new(i as nat, |k: int| (clamp0(v@[k].0), clamp0(v@[k].1))));
            }
            assert(out@ =~= spec_pad_widths(*w, nd as nat).unwrap());
            Ok(out)
        },
    }
}

/// The shape after padding.
pub open spec fn padded_shape(s: Seq<usize>, w: Seq<(usize, usize)>) -> Seq<usize> {
    Seq::new(s.len(), |i: int| (w[i].0 + s[i] + w[i].1) as usize)
}

/// Whether a multi-index of the padded array falls on the original array.
pub open spec fn in_center(s: Seq<usize>, w: Seq<(usize, usize)>, u: Seq<usize>) -> bool {
    forall|i: int| 0 <= i < s.len() ==> w[i].0 <= #[trigger] u[i] < w[i].0 + s[i]
}

/// The original multi-index under a padded one.
pub open spec fn center_index(w: Seq<(usize, usize)>, u: Seq<usize>) -> Seq<usize> {
    Seq::new(u.len(), |i: int| (u[i] - w[i].0) as usize)
}

/// `pad` (constant mode): the array surrounded, on each axis, by `before`
/// and `after` layers of `fill`.
pub open spec fn spec_pad<T>(a: NdModel<T>, w: Seq<(usize, usize)>, fill: T) -> NdModel<T> {
    let ps = padded_shape(a.shape, w);
    NdModel {
        shape: ps,
        data: Seq::new(shape_product(ps), |f: int| {
            let u = unflat_index(ps, f);
            if in_center(a.shape, w, u) { a.data[flat_index(a.shape, center_index(w, u))] } else { fill }
        }),
    }
}

/// `pad` (constant mode): the array surrounded on each axis by layers of
/// `fill`, `widths[i].0` before and `widths[i].1` after along axis `i`.
pub fn pad_constant<T: Copy>(a: &NdArray<T>, widths: &[(usize, usize)], fill: T) -> (r: NdArray<T>)
    requires
        nd_wf(a@),
        widths@.len() == a.shape@.len(),
        forall|i: int| 0 <= i < widths@.len() ==> widths@[i].0 + a.shape@[i] + widths@[i].1 <= usize::MAX,
        partial_products_fit(padded_shape(a.shape@, widths@)),
    ensures
        r@ == spec_pad(a@, widths@, fill),
        nd_wf(r@),
{
    let nd = a.shape.len();
    let mut ps: Vec<usize> = Vec::new();
    let mut i: usize = 0;
    while i < nd
        invariant
            i <= nd,
            nd == a.shape@.len(),
            widths@.len() == nd,
            forall|k: int| 0 <= k < widths@.len() ==> widths@[k].0 + a.shape@[k] + widths@[k].1 <= usize::MAX,
            ps@ == padded_shape(a.shape@, widths@).take(i as int),
        decreases nd - i,
    {
        let (b, e) = widths[i];
        ps.push(b + a.shape[i] + e);
        i = i + 1;
        assert(ps@ =~= padded_shape(a.shape@, widths@).take(i as int));
    }
    assert(ps@ =~= padded_shape(a.shape@, widths@));
    let n = element_count(ps.as_slice());
    let na = a.data.len();
    let mut out: Vec<T> = Vec::new();
    let mut f: usize = 0;
    while f < n
        invariant
            f <= n,
            n == shape_product(ps@),
            ps@ == padded_shape(a.shape@, widths@),
            nd == a.shape@.len(),
            widths@.len() == nd,
            nd_wf(a@),
            na == a.data@.len(),
            out@.len() == f,
            forall|g: int| 0 <= g < f ==> #[trigger] out@[g] == spec_pad(a@, widths@, fill).data[g],
        decreases n - f,
    {
        let u = unflat_exec(ps.as_slice(), f);
        proof {
            lemma_unflat_flat(ps@, f as int);
        }
        // is the position on the original array?
        let mut inside = true;
        let mut c: Vec<usize> = Vec::new();
        let mut k: usize = 0;
        while k < nd
            invariant
                k <= nd,
                nd == a.shape@.len(),
                widths@.len() == nd,
                u@.len() == nd,
                in_bounds(ps@, u@),
                ps@ == padded_shape(a.shape@, widths@),
                inside <==> (forall|j: int| 0 <= j < k ==> widths@[j].0 <= #[trigger] u@[j] < widths@[j].0 + a.shape@[j]),
                inside ==> c@ == center_index(widths@, u@).take(k as int),
            decreases nd - k,
        {
            let lo = widths[k].0;
            let uk = u[k];
            if inside {
                if uk >= lo && uk - lo < a.shape[k] {
                    c.push(uk - lo);
                    assert(c@ =~= center_index(widths@, u@).take(k + 1));
                } else {
                    inside = false;
                }
            }
            k = k + 1;
        }
        assert(inside == in_center(a.shape@, widths@, u@));
        if inside {
            assert(c@ =~= center_index(widths@, u@));
            assert(in_bounds(a.shape@, c@)) by {
                assert forall|j: int| 0 <= j < a.shape@.len() implies #[trigger] c@[j] < a.shape@[j] by {
                    assert(widths@[j].0 <= u@[j] < widths@[j].0 + a.shape@[j]);
                }
            }
            proof {
                lemma_flat_bound(a.shape@, c@);
            }
            let g = flat_exec(a.shape.as_slice(), c.as_slice());
            out.push(a.data[g]);
        } else {
            out.push(fill);
        }
        f = f + 1;
    }
    let r = NdArray { shape: ps, data: out };
    assert(r@.data =~= spec_pad(a@, widths@, fill).data);
    r
}

// ---------------------------------------------------------------------
// array_split / split
// ---------------------------------------------------------------------

/// `slice_along_axis`: entries `start..end` along `axis` (none when
/// `end <= start`), all of every other axis.
pub open spec fn spec_slice_axis<T>(a: NdModel<T>, axis: int, start: int, end: int) -> NdModel<T> {
    let len = if end > start { end - start } else { 0 };
    let os = a.shape.update(axis, len as usize);
    NdModel {
        shape: os,
        data: Seq::new(shape_product(os), |f: int| {
            let u = unflat_index(os, f);
            a.data[flat_index(a.shape, u.update(axis, (u[axis] + start) as usize))]
        }),
    }
}

/// `slice_along_axis`: the entries `start..end` along `axis`.
pub fn slice_along_axis<T: Copy>(a: &NdArray<T>, axis: usize, start: usize, end: usize) -> (r: NdArray<T>)
    requires
        nd_wf(a@),
        axis < a.shape@.len(),
        end <= a.shape@[axis as int],
        partial_products_fit(a.shape@),
    ensures
        r@ == spec_slice_axis(a@, axis as int, start as int, end as int),
        nd_wf(r@),
{
    let len: usize = if end > start { end - start } else { 0 };
    let mut os = copy_vec(a.shape.as_slice());
    os.set(axis, len);
    proof {
        // the slice has no more cells than the array
        assert forall|k: int| 0 <= k <= os@.len() implies #[trigger] shape_product(os@.take(k)) <= usize::MAX by {
            lemma_take_update_le(a.shape@, axis as int, len, k);
        }
    }
    let n = element_count(os.as_slice());
    let na = a.data.len();
    let mut out: Vec<T> = Vec::new();
    let mut f: usize = 0;
    while f < n
        invariant
            f <= n,
            n == shape_product(os@),
            os@ == a.shape@.update(axis as int, len),
            len == (if end > start { end - start } else { 0 }),
            axis < a.shape@.len(),
            end <= a.shape@[axis as int],
            nd_wf(a@),
            na == a.data@.len(),
            partial_products_fit(a.shape@),
            out@.len() == f,
            forall|g: int| 0 <= g < f ==> #[trigger] out@[g] == spec_slice_axis(a@, axis as int, start as int, end as int).data[g],
        decreases n - f,
    {
        let mut u = unflat_exec(os.as_slice(), f);
        proof {
            lemma_unflat_flat(os@, f as int);
        }
        let ghost u0 = u@;
        assert(u0[axis as int] < len);
        u.set(axis, u[axis] + start);
        assert(in_bounds(a.shape@, u@)) by {
            assert forall|j: int| 0 <= j < a.shape@.len() implies #[trigger] u@[j] < a.shape@[j] by {
                assert(u0[j] < os@[j]);
            }
        }
        proof {
            lemma_flat_bound(a.shape@, u@);
            lemma_product_le_fits(a.shape@);
        }
        let g = flat_exec(a.shape.as_slice(), u.as_slice());
        out.push(a.data[g]);
        f = f + 1;
    }
    let r = NdArray { shape: os, data: out };
    assert(r@.data =~= spec_slice_axis(a@, axis as int, start as int, end as int).data);
    r
}

/// The whole product fits when the partial products do.
proof fn lemma_product_le_fits(s: Seq<usize>)
    requires
        partial_products_fit(s),
    ensures
        shape_product(s) <= usize::MAX,
{
    assert(s.take(s.len() as int) =~= s);
}

/// Lowering one dimension keeps the partial products within those of the
/// original shape, or within a product that has a 0 factor.
proof fn lemma_take_update_le(s: Seq<usize>, axis: int, v: usize, k: int)
    requires
        0 <= axis < s.len(),
        v <= s[axis],
        0 <= k <= s.len(),
        partial_products_fit(s),
    ensures
        shape_product(s.update(axis, v).take(k)) <= usize::MAX,
    decreases k,
{
    let t = s.update(axis, v);
    if k > 0 {
        lemma_take_update_le(s, axis, v, k - 1);
        assert(t.take(k).drop_last() =~= t.take(k - 1));
        assert(s.take(k).drop_last() =~= s.take(k - 1));
        let p = shape_product(t.take(k - 1)) as int;
        let q = shape_product(s.take(k - 1)) as int;
        let x = t[k - 1] as int;
        let y = s[k - 1] as int;
        assert(shape_product(t.take(k)) == p * x);
        assert(shape_product(s.take(k)) == q * y);
        assert(shape_product(s.take(k)) <= usize::MAX);
        lemma_take_update_product_le(s, axis, v, k - 1);
        assert(p * x <= q * y) by (nonlinear_arith)
            requires
                0 <= p <= q,
                0 <= x <= y,
        ;
    }
}

/// Lowering one dimension does not raise a partial product.
proof fn lemma_take_update_product_le(s: Seq<usize>, axis: int, v: usize, k: int)
    requires
        0 <= axis < s.len(),
        v <= s[axis],
        0 <= k <= s.len(),
    ensures
        shape_product(s.update(axis, v).take(k)) <= shape_product(s.take(k)),
    decreases k,
{
    let t = s.update(axis, v);
    if k > 0 {
        lemma_take_update_product_le(s, axis, v, k - 1);
        assert(t.take(k).drop_last() =~= t.take(k - 1));
        assert(s.take(k).drop_last() =~= s.take(k - 1));
        let p = shape_product(t.take(k - 1)) as int;
        let q = shape_product(s.take(k - 1)) as int;
        let x = t[k - 1] as int;
        let y = s[k - 1] as int;
        assert(p * x <= q * y) by (nonlinear_arith)
            requires
                0 <= p <= q,
                0 <= x <= y,
        ;
    } else {
        assert(t.take(0) =~= s.take(0));
    }
}

/// How `array_split` is told where to cut: into a number of near-equal
/// sections, or at the given indices (negative ones count as 0).
#[derive(Clone, Debug, PartialEq, Eq)]
pub enum SplitSections {
    Count(usize),
    Indices(Vec<isize>),
}

/// Why `array_split` refuses its input.
#[derive(Clone, Copy, Debug, PartialEq, Eq, Structural)]
pub enum SplitError {
    /// The axis is not an axis of the array.
    AxisOutOfBounds(isize),
    /// Zero sections.
    ZeroSections,
    /// `split` (not `array_split`) of a length the count does not divide.
    UnevenDivision(usize, usize),
}

/// The cut points of `n` near-equal sections of `dim`: the first
/// `dim % n` sections get one more.
pub open spec fn even_points(dim: nat, n: nat) -> Seq<usize> {
    let base = dim / n;
    let extra = dim % n;
    Seq::new((n - 1) as nat, |k: int| ((k + 1) * base + if k + 1 < extra { k + 1 } else { extra as int }) as usize)
}

/// The cut points that the sections name on an axis of length `dim`, or
/// the error.
pub open spec fn spec_cut_points(dim: nat, sections: SplitSections, allow_uneven: bool) -> Result<Seq<usize>, SplitError> {
    match sections {
        SplitSections::Count(n) => if n == 0 {
            Err(SplitError::ZeroSections)
        } else if !allow_uneven && dim % (n as nat) != 0 {
            Err(SplitError::UnevenDivision(dim as usize, n))
        } else {
            Ok(even_points(dim, n as nat))
        },
        SplitSections::Indices(v) => Ok(Seq::new(v@.len(), |k: int| clamp0(v@[k]))),
    }
}

/// The pieces between consecutive cut points (clamped to the axis length).
pub open spec fn spec_split_parts<T>(a: NdModel<T>, axis: int, pts: Seq<usize>) -> Seq<NdModel<T>> {
    let dim = a.shape[axis] as int;
    Seq::new(pts.len() + 1, |i: int| {
        let end = if i < pts.len() { if pts[i] < dim { pts[i] as int } else { dim } } else { dim };
        let start = if i == 0 { 0 } else { if pts[i - 1] < dim { pts[i - 1] as int } else { dim } };
        spec_slice_axis(a, axis, start, end)
    })
}

/// `array_split` / `split`: the array cut along `axis` into pieces, or the
/// reason it cannot be.
pub open spec fn spec_array_split<T>(a: NdModel<T>, sections: SplitSections, axis: int, allow_uneven: bool) -> Result<Seq<NdModel<T>>, SplitError> {
    let nd = a.shape.len() as int;
    let ax = if axis < 0 { axis + nd } else { axis };
    if ax < 0 || ax >= nd {
        Err(SplitError::AxisOutOfBounds(ax as isize))
    } else {
        match spec_cut_points(a.shape[ax] as nat, sections, allow_uneven) {
            Err(e) => Err(e),
            Ok(pts) => Ok(spec_split_parts(a, ax, pts)),
        }
    }
}

fn cut_points(dim: usize, sections: &SplitSections, allow_uneven: bool) -> (r: Result<Vec<usize>, SplitError>)
    ensures
        match r {
            Ok(v) => spec_cut_points(dim as nat, *sections, allow_uneven) == Ok::<Seq<usize>, SplitError>(v@),
            Err(e) => spec_cut_points(dim as nat, *sections, allow_uneven) == Err::<Seq<usize>, SplitError>(e),
        },
{
    match sections {
        SplitSections::Count(n) => {
            let n = *n;
            if n == 0 {
                return Err(SplitError::ZeroSections);
            }
            if !allow_uneven && dim % n != 0 {
                return Err(SplitError::UnevenDivision(dim, n));
            }
            let base = dim / n;
            let extra = dim % n;
            proof {
                vstd::arithmetic::div_mod::lemma_fundamental_div_mod(dim as int, n as int);
                vstd::arithmetic::div_mod::lemma_mod_bound(dim as int, n as int);
            }
            let ghost target = even_points(dim as nat, n as nat);
            let mut pts: Vec<usize> = Vec::new();
            let mut cum: usize = 0;
            let mut k: usize = 0;
            while k < n - 1
                invariant
                    n > 0,
                    k <= n - 1,
                    base as nat == (dim as nat) / (n as nat),
                    extra as nat == (dim as nat) % (n as nat),
                    extra < n,
                    dim == n * base + extra,
                    cum == k * base + if k < extra { k as int } else { extra as int },
                    target == even_points(dim as nat, n as nat),
                    pts@ == target.take(k as int),
                decreases n - 1 - k,
            {
                assert(k < extra ==> base < usize::MAX) by (nonlinear_arith)
                    requires
                        dim == n * base + extra,
                        extra < n,
                        base >= 0,
                        dim <= usize::MAX,
                ;
                let step = base + if k < extra { 1 } else { 0 };
                assert(cum + step <= dim) by (nonlinear_arith)
                    requires
                        cum == k * base + if k < extra { k as int } else { extra as int },
                        step == base + if k < extra { 1int } else { 0int },
                        k + 1 < n,
                        dim == n * base + extra,
                        base >= 0,
                ;
                assert((k + 1) * base == k * base + base) by (nonlinear_arith);
                cum = cum + step;
                pts.push(cum);
                k = k + 1;
                assert(pts@ =~= target.take(k as int));
            }
            assert(pts@ =~= target);
            Ok(pts)
        },
        SplitSections::Indices(v) => {
            let mut pts: Vec<usize> = Vec::new();
            let mut k: usize = 0;
            while k < v.len()
                invariant
                    k <= v@.len(),
                    pts@ == Seq::new(v@.len(), |j: int| clamp0(v@[j])).take(k as int),
                decreases v@.len() - k,
            {
                let x = v[k];
                pts.push(if x < 0 { 0 } else { x as usize });
                k = k + 1;
                assert(pts@ =~= Seq::new(v@.len(), |j: int| clamp0(v@[j])).take(k as int));
            }
            assert(pts@ =~= Seq::new(v@.len(), |j: int| clamp0(v@[j])));
            Ok(pts)
        },
    }
}

/// `array_split` (and `split`, with `allow_uneven` false): the array cut
/// along `axis` (negative counts from the end) into near-equal sections or
/// at the given indices.
pub fn array_split<T: Copy>(a: &NdArray<T>, sections: &SplitSections, axis: isize, allow_uneven: bool) -> (r: Result<Vec<NdArray<T>>, SplitError>)
    requires
        nd_wf(a@),
        a.shape@.len() <= isize::MAX,
        partial_products_fit(a.shape@),
    ensures
        match r {
            Ok(v) => spec_array_split(a@, *sections, axis as int, allow_uneven) == Ok::<Seq<NdModel<T>>, SplitError>(models(v@)),
            Err(e) => spec_array_split(a@, *sections, axis as int, allow_uneven) == Err::<Seq<NdModel<T>>, SplitError>(e),
        },
{
    let nd = a.shape.len() as isize;
    let ax = if axis < 0 { axis + nd } else { axis };
    if ax < 0 || ax >= nd {
        return Err(SplitError::AxisOutOfBounds(ax));
    }
    let ax = ax as usize;
    let dim = a.shape[ax];
    let pts = match cut_points(dim, sections, allow_uneven) {
        Err(e) => return Err(e),
        Ok(p) => p,
    };
    let ghost target = spec_split_parts(a@, ax as int, pts@);
    let mut parts: Vec<NdArray<T>> = Vec::new();
    let mut prev: usize = 0;
    let mut i: usize = 0;
    while i < pts.len()
        invariant
            i <= pts@.len(),
            ax < a.shape@.len(),
            dim == a.shape@[ax as int],
            nd_wf(a@),
            partial_products_fit(a.shape@),
            prev == (if i == 0 { 0 } else { if pts@[i - 1] < dim { pts@[i - 1] as int } else { dim as int } }),
            target == spec_split_parts(a@, ax as int, pts@),
            models(parts@) == target.take(i as int),
        decreases pts@.len() - i,
    {
        let c = pts[i];
        let end = if c < dim { c } else { dim };
        let piece = slice_along_axis(a, ax, prev, end);
        let ghost before = parts@;
        parts.push(piece);
        assert(models(parts@) =~= models(before).push(piece@));
        prev = end;
        i = i + 1;
        assert(models(parts@) =~= target.take(i as int));
    }
    let last = slice_along_axis(a, ax, prev, dim);
    let ghost before = parts@;
    parts.push(last);
    assert(models(parts@) =~= models(before).push(last@));
    assert(models(parts@) =~= target);
    Ok(parts)
}

// ---------------------------------------------------------------------
// place / put_along_axis
// ---------------------------------------------------------------------

/// Why `place` or `put_along_axis` refuses its input.
#[derive(Clone, Copy, Debug, PartialEq, Eq, Structural)]
pub enum PutError {
    /// Values to place, but none given.
    EmptyValues,
    /// The mask is not one entry per element.
    MaskSizeMismatch,
    /// The axis is not an axis of the array.
    AxisOutOfBounds(isize),
}

/// `place`: each element where the mask is set gets the next value, the
/// values repeated as often as needed.
pub open spec fn spec_place<T>(data: Seq<T>, mask: Seq<bool>, vals: Seq<T>) -> Seq<T> {
    Seq::new(data.len(), |i: int| if mask[i] { vals[(count_true(mask.take(i)) as int) % (vals.len() as int)] } else { data[i] })
}

/// `place`: sets the elements where `mask` is true to `vals`, in order,
/// the values repeated as often as needed; nothing changes when no mask
/// entry is set; an empty `vals` (with some entry set) and a mask of
/// another size are refused.
pub fn place<T: Copy>(a: &mut NdArray<T>, mask: &[bool], vals: &[T]) -> (r: Result<(), PutError>)
    ensures
        final(a).shape@ == old(a).shape@,
        count_true(mask@) == 0 ==> r is Ok && final(a)@ == old(a)@,
        count_true(mask@) > 0 && vals@.len() == 0 ==> r == Err::<(), PutError>(PutError::EmptyValues) && final(a)@ == old(a)@,
        count_true(mask@) > 0 && vals@.len() > 0 && mask@.len() != old(a).data@.len() ==> r == Err::<(), PutError>(PutError::MaskSizeMismatch) && final(a)@ == old(a)@,
        count_true(mask@) > 0 && vals@.len() > 0 && mask@.len() == old(a).data@.len() ==> r is Ok && final(a).data@ == spec_place(old(a).data@, mask@, vals@),
{
    let mut n_true: usize = 0;
    let mut i: usize = 0;
    while i < mask.len()
        invariant
            i <= mask@.len(),
            n_true == count_true(mask@.take(i as int)),
            n_true <= i,
        decreases mask@.len() - i,
    {
        assert(mask@.take(i + 1).drop_last() =~= mask@.take(i as int));
        if mask[i] {
            n_true = n_true + 1;
        }
        i = i + 1;
    }
    assert(mask@.take(mask@.len() as int) =~= mask@);
    if n_true == 0 {
        return Ok(());
    }
    if vals.len() == 0 {
        return Err(PutError::EmptyValues);
    }
    if mask.len() != a.data.len() {
        return Err(PutError::MaskSizeMismatch);
    }
    let ghost old_data = a.data@;
    let ghost s0 = a.shape@;
    let vlen = vals.len();
    let mut rank: usize = 0;
    let mut j: usize = 0;
    while j < mask.len()
        invariant
            j <= mask@.len(),
            a.shape@ == s0,
            mask@.len() == a.data@.len(),
            old_data.len() == a.data@.len(),
            vlen == vals@.len(),
            vlen > 0,
            rank == count_true(mask@.take(j as int)),
            rank <= j,
            forall|k: int| 0 <= k < j ==> #[trigger] a.data@[k] == spec_place(old_data, mask@, vals@)[k],
            forall|k: int| j <= k < a.data@.len() ==> #[trigger] a.data@[k] == old_data[k],
        decreases mask@.len() - j,
    {
        assert(mask@.take(j + 1).drop_last() =~= mask@.take(j as int));
        if mask[j] {
            let v = vals[rank % vlen];
            a.data.set(j, v);
            rank = rank + 1;
        }
        j = j + 1;
    }
    assert(a.data@ =~= spec_place(old_data, mask@, vals@));
    Ok(())
}

/// The destination multi-index of entry `f` of the index array: its own
/// multi-index with the coordinate on `axis` replaced by the index value.
pub open spec fn put_target(idx: NdModel<i64>, axis: int, f: int) -> Seq<usize> {
    unflat_index(idx.shape, f).update(axis, idx.data[f] as usize)
}

/// Every index entry names a cell of the destination.
pub open spec fn put_targets_ok<T>(dst: NdModel<T>, idx: NdModel<i64>, axis: int) -> bool {
    &&& idx.shape.len() == dst.shape.len()
    &&& forall|f: int| 0 <= f < idx.data.len() ==> 0 <= #[trigger] idx.data[f] < dst.shape[axis]
    &&& forall|d: int| 0 <= d < dst.shape.len() && d != axis ==> #[trigger] idx.shape[d] <= dst.shape[d]
}

/// The destination after the first `k` writes of `put_along_axis`.
pub open spec fn put_steps<T>(dst: NdModel<T>, idx: NdModel<i64>, vals: Seq<T>, axis: int, k: nat) -> Seq<T>
    decreases k,
{
    if k == 0 {
        dst.data
    } else {
        put_steps(dst, idx, vals, axis, (k - 1) as nat).update(
            flat_index(dst.shape, put_target(idx, axis, k - 1)),
            vals[(k - 1) % (vals.len() as int)],
        )
    }
}

/// `put_along_axis`: for each entry of `idx`, in row-major order, writes
/// the next value (repeated as needed) to the destination cell at the
/// entry's position with the coordinate on `axis` replaced by the entry;
/// an axis outside the array is refused.
pub fn put_along_axis<T: Copy>(dst: &mut NdArray<T>, idx: &NdArray<i64>, vals: &[T], axis: isize) -> (r: Result<(), PutError>)
    requires
        nd_wf(old(dst)@),
        nd_wf(idx@),
        old(dst).shape@.len() <= isize::MAX,
        ({
            let nd = old(dst).shape@.len() as int;
            let ax = if axis < 0 { axis + nd } else { axis as int };
            0 <= ax < nd ==> put_targets_ok(old(dst)@, idx@, ax) && (idx.data@.len() > 0 ==> vals@.len() > 0)
        }),
        partial_products_fit(old(dst).shape@),
    ensures
        final(dst).shape@ == old(dst).shape@,
        ({
            let nd = old(dst).shape@.len() as int;
            let ax = if axis < 0 { axis + nd } else { axis as int };
            &&& (ax < 0 || ax >= nd) ==> r == Err::<(), PutError>(PutError::AxisOutOfBounds(axis)) && final(dst)@ == old(dst)@
            &&& (0 <= ax < nd) ==> r is Ok && final(dst).data@ == put_steps(old(dst)@, idx@, vals@, ax, idx.data@.len())
        }),
{
    let nd = dst.shape.len() as isize;
    let ax = if axis < 0 { axis + nd } else { axis };
    if ax < 0 || ax >= nd {
        return Err(PutError::AxisOutOfBounds(axis));
    }
    let ax = ax as usize;
    let ghost d0 = dst@;
    let n = idx.data.len();
    let vlen = vals.len();
    let mut f: usize = 0;
    proof {
        lemma_product_le_fits(d0.shape);
    }
    while f < n
        invariant
            f <= n,
            n == idx.data@.len(),
            nd_wf(idx@),
            ax < d0.shape.len(),
            put_targets_ok(d0, idx@, ax as int),
            n > 0 ==> vlen > 0,
            vlen == vals@.len(),
            dst.shape@ == d0.shape,
            dst.data@.len() == d0.data.len(),
            nd_wf(d0),
            shape_product(d0.shape) <= usize::MAX,
            dst.data@ == put_steps(d0, idx@, vals@, ax as int, f as nat),
        decreases n - f,
    {
        let mut c = unflat_exec(idx.shape.as_slice(), f);
        proof {
            lemma_unflat_flat(idx@.shape, f as int);
        }
        let ghost c0 = c@;
        let iv = idx.data[f];
        c.set(ax, iv as usize);
        assert(c@ == put_target(idx@, ax as int, f as int));
        assert(in_bounds(d0.shape, c@)) by {
            assert forall|d: int| 0 <= d < d0.shape.len() implies #[trigger] c@[d] < d0.shape[d] by {
                if d != ax {
                    assert(c0[d] < idx@.shape[d]);
                    assert(idx@.shape[d] <= d0.shape[d]);
                }
            }
        }
        proof {
            lemma_flat_bound(d0.shape, c@);
        }
        let g = flat_exec(dst.shape.as_slice(), c.as_slice());
        let v = vals[f % vlen];
        dst.data.set(g, v);
        f = f + 1;
    }
    Ok(())
}

} // verus!
