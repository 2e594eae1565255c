//! Axis permutations: numpy's `transpose(a, axes)` and the routines built
//! on it, `swapaxes`, `moveaxis` and `rollaxis`.
use vstd::prelude::*;

use crate::index::{
    flat_index, in_bounds, lemma_flat_bound, lemma_flat_unflat, lemma_product_front, lemma_product_reverse,
    lemma_product_split, lemma_unflat_flat, unflat_index,
};
use crate::linalg::{normalize_axis, spec_normalize_axis, AxisError};
use crate::logic::{normalize_axes, normalize_list};
use crate::random::range_seq;
use crate::sorting::{key_views, lex_order, lexsort};
use crate::nd::{flat_exec, nd_wf, spec_transpose, transpose_source, unflat_exec, NdArray, NdModel};
use crate::npy::shape_product;

verus! {

/// Some position of `perm` holds `k`.
pub open spec fn occurs(perm: Seq<usize>, k: int) -> bool {
    exists|i: int| 0 <= i < perm.len() && perm[i] == k
}

/// `perm` lists each of `0..n` exactly once.
pub open spec fn is_permutation(perm: Seq<usize>, n: nat) -> bool {
    &&& perm.len() == n
    &&& forall|i: int| 0 <= i < n ==> #[trigger] perm[i] < n
    &&& forall|i: int, j: int| 0 <= i < j < n ==> perm[i] != perm[j]
    &&& forall|k: int| 0 <= k < n ==> #[trigger] occurs(perm, k)
}

/// The position at which a permutation holds `k`.
pub open spec fn axis_position(perm: Seq<usize>, k: int) -> int {
    choose|i: int| 0 <= i < perm.len() && perm[i] == k
}

/// The shape whose axis `i` is axis `perm[i]` of `shape`.
pub open spec fn permute_shape(shape: Seq<usize>, perm: Seq<usize>) -> Seq<usize> {
    Seq::new(perm.len(), |i: int| shape[perm[i] as int])
}

/// The source multi-index of multi-index `u` of the permuted array: its
/// coordinate on axis `perm[i]` is `u[i]`.
pub open spec fn permute_source(perm: Seq<usize>, u: Seq<usize>) -> Seq<usize> {
    Seq::new(perm.len(), |k: int| u[axis_position(perm, k)])
}

/// The array with its axes reordered by `perm`.
pub open spec fn spec_permute_axes<T>(a: NdModel<T>, perm: Seq<usize>) -> NdModel<T> {
    let s = permute_shape(a.shape, perm);
    NdModel {
        shape: s,
        data: Seq::new(shape_product(s), |f: int| a.data[flat_index(a.shape, permute_source(perm, unflat_index(s, f)))]),
    }
}

/// `axis_position` finds the one position holding `k`.
proof fn lemma_axis_position(perm: Seq<usize>, n: nat, k: int)
    requires
        is_permutation(perm, n),
        0 <= k < n,
    ensures
        0 <= axis_position(perm, k) < n,
        perm[axis_position(perm, k)] == k,
        forall|i: int| 0 <= i < n && #[trigger] perm[i] == k ==> i == axis_position(perm, k),
{
    assert(occurs(perm, k));
    let p = axis_position(perm, k);
    assert forall|i: int| 0 <= i < n && #[trigger] perm[i] == k implies i == p by {
        if i < p {
            assert(perm[i] != perm[p]);
        } else if p < i {
            assert(perm[p] != perm[i]);
        }
    }
}

/// The product of a shape without one of its dimensions, times that
/// dimension, is the product of the shape.
proof fn lemma_product_remove(s: Seq<usize>, p: int)
    requires
        0 <= p < s.len(),
    ensures
        shape_product(s) == shape_product(s.remove(p)) * (s[p] as int),
{
    let r = s.remove(p);
    lemma_product_split(s, p);
    lemma_product_front(s.skip(p));
    assert(s.skip(p).drop_first() =~= s.skip(p + 1));
    lemma_product_split(r, p);
    assert(r.take(p) =~= s.take(p));
    assert(r.skip(p) =~= s.skip(p + 1));
    let a = shape_product(s.take(p)) as int;
    let b = shape_product(s.skip(p + 1)) as int;
    let c = s[p] as int;
    assert(a * (c * b) == (a * b) * c) by (nonlinear_arith);
}

/// Reordering the dimensions of a shape keeps its product.
pub proof fn lemma_permute_product(s: Seq<usize>, perm: Seq<usize>)
    requires
        is_permutation(perm, s.len()),
    ensures
        shape_product(permute_shape(s, perm)) == shape_product(s),
    decreases s.len(),
{
    let n = s.len();
    if n > 0 {
        let p = perm[n - 1] as int;
        let perm2 = Seq::new((n - 1) as nat, |i: int| if perm[i] < p { perm[i] } else { (perm[i] - 1) as usize });
        let r = s.remove(p);
        assert(is_permutation(perm2, r.len())) by {
            assert forall|i: int, j: int| 0 <= i < j < n - 1 implies perm2[i] != perm2[j] by {
                assert(perm[i] != perm[j]);
                assert(perm[i] != perm[n - 1]);
                assert(perm[j] != perm[n - 1]);
            }
            assert forall|i: int| 0 <= i < n - 1 implies #[trigger] perm2[i] < n - 1 by {
                assert(perm[i] != perm[n - 1]);
            }
            assert forall|k: int| 0 <= k < n - 1 implies #[trigger] occurs(perm2, k) by {
                let target = if k < p { k } else { k + 1 };
                assert(occurs(perm, target));
                let i = choose|i: int| 0 <= i < n && perm[i] == target;
                assert(i != n - 1);
                assert(perm2[i] == k);
            }
        }
        lemma_permute_product(r, perm2);
        let t = permute_shape(s, perm);
        assert(t.drop_last() =~= permute_shape(r, perm2)) by {
            assert forall|i: int| 0 <= i < n - 1 implies t.drop_last()[i] == permute_shape(r, perm2)[i] by {
                assert(perm[i] != perm[n - 1]);
            }
        }
        assert(t.last() == s[p]);
        lemma_product_remove(s, p);
    } else {
        assert(permute_shape(s, perm) =~= Seq::<usize>::empty());
        assert(s =~= Seq::<usize>::empty());
    }
}

/// The source index of an in-bounds index of the permuted shape is in
/// bounds of the original shape.
proof fn lemma_permute_source_in_bounds(shape: Seq<usize>, perm: Seq<usize>, u: Seq<usize>)
    requires
        is_permutation(perm, shape.len()),
        in_bounds(permute_shape(shape, perm), u),
    ensures
        in_bounds(shape, permute_source(perm, u)),
{
    let v = permute_source(perm, u);
    assert forall|k: int| 0 <= k < shape.len() implies #[trigger] v[k] < shape[k] by {
        lemma_axis_position(perm, shape.len(), k);
        let i = axis_position(perm, k);
        assert(u[i] < permute_shape(shape, perm)[i]);
    }
}

/// `transpose(a, axes)`: the array whose axis `i` is axis `perm[i]` of `a`;
/// its element at multi-index `u` is the element of `a` whose coordinate on
/// axis `perm[i]` is `u[i]`.
pub fn permute_axes<T: Copy>(a: &NdArray<T>, perm: &[usize]) -> (r: NdArray<T>)
    requires
        nd_wf(a@),
        is_permutation(perm@, a.shape@.len()),
    ensures
        r@ == spec_permute_axes(a@, perm@),
        nd_wf(r@),
{
    let nd = a.shape.len();
    let mut shape: Vec<usize> = Vec::new();
    let mut inv: Vec<usize> = Vec::new();
    let mut i: usize = 0;
    while i < nd
        invariant
            i <= nd,
            nd == a.shape@.len(),
            is_permutation(perm@, nd as nat),
            shape@ == permute_shape(a.shape@, perm@).take(i as int),
            inv@.len() == i,
        decreases nd - i,
    {
        shape.push(a.shape[perm[i]]);
        inv.push(0);
        i = i + 1;
        assert(shape@ =~= permute_shape(a.shape@, perm@).take(i as int));
    }
    assert(shape@ =~= permute_shape(a.shape@, perm@));
    i = 0;
    while i < nd
        invariant
            i <= nd,
            nd == a.shape@.len(),
            is_permutation(perm@, nd as nat),
            inv@.len() == nd,
            forall|j: int| 0 <= j < i ==> #[trigger] inv@[perm@[j] as int] == j,
        decreases nd - i,
    {
        let ghost before = inv@;
        inv.set(perm[i], i);
        assert forall|j: int| 0 <= j < i + 1 implies #[trigger] inv@[perm@[j] as int] == j by {
            if j < i {
                assert(perm@[j] != perm@[i as int]);
                assert(before[perm@[j] as int] == j);
            }
        }
        i = i + 1;
    }
    assert forall|k: int| 0 <= k < nd implies #[trigger] inv@[k] == axis_position(perm@, k) by {
        lemma_axis_position(perm@, nd as nat, k);
        let p = axis_position(perm@, k);
        assert(inv@[perm@[p] as int] == p);
    }
    proof {
        lemma_permute_product(a.shape@, perm@);
    }
    let n = a.data.len();
    let mut out: Vec<T> = Vec::new();
    let mut f: usize = 0;
    while f < n
        invariant
            f <= n,
            n == a.data@.len(),
            nd_wf(a@),
            nd == a.shape@.len(),
            is_permutation(perm@, nd as nat),
            shape@ == permute_shape(a.shape@, perm@),
            shape_product(shape@) == n,
            inv@.len() == nd,
            forall|k: int| 0 <= k < nd ==> #[trigger] inv@[k] == axis_position(perm@, k),
            out@.len() == f,
            forall|g: int| 0 <= g < f ==> #[trigger] out@[g] == spec_permute_axes(a@, perm@).data[g],
        decreases n - f,
    {
        let u = unflat_exec(shape.as_slice(), f);
        proof {
            lemma_unflat_flat(shape@, f as int);
        }
        let mut v: Vec<usize> = Vec::new();
        let mut k: usize = 0;
        while k < nd
            invariant
                k <= nd,
                nd == a.shape@.len(),
                is_permutation(perm@, nd as nat),
                inv@.len() == nd,
                forall|j: int| 0 <= j < nd ==> #[trigger] inv@[j] == axis_position(perm@, j),
                u@.len() == nd,
                v@ == permute_source(perm@, u@).take(k as int),
            decreases nd - k,
        {
            proof {
                lemma_axis_position(perm@, nd as nat, k as int);
            }
            v.push(u[inv[k]]);
            k = k + 1;
            assert(v@ =~= permute_source(perm@, u@).take(k as int));
        }
        assert(v@ =~= permute_source(perm@, u@));
        proof {
            lemma_permute_source_in_bounds(a.shape@, perm@, u@);
            lemma_flat_bound(a.shape@, v@);
        }
        let g = flat_exec(a.shape.as_slice(), v.as_slice());
        out.push(a.data[g]);
        f = f + 1;
    }
    let r = NdArray { shape, data: out };
    assert(r@.data =~= spec_permute_axes(a@, perm@).data);
    r
}

/// The identity order of `nd` axes with axes `i` and `j` exchanged.
pub open spec fn swap_perm(nd: nat, i: int, j: int) -> Seq<usize> {
    Seq::new(nd, |k: int| (if k == i { j } else if k == j { i } else { k }) as usize)
}

/// `swapaxes` on models: an error for the first axis argument that names no
/// axis, else the array with the two axes exchanged.
pub open spec fn spec_swapaxes<T>(a: NdModel<T>, axis1: isize, axis2: isize) -> Result<NdModel<T>, AxisError> {
    let nd = a.shape.len();
    match spec_normalize_axis(axis1 as int, nd as int) {
        None => Err(AxisError { axis: axis1, ndim: nd as usize }),
        Some(i) => match spec_normalize_axis(axis2 as int, nd as int) {
            None => Err(AxisError { axis: axis2, ndim: nd as usize }),
            Some(j) => Ok(spec_permute_axes(a, swap_perm(nd, i, j))),
        },
    }
}

/// An array result as a model result.
pub open spec fn model_result<T, E>(r: Result<NdArray<T>, E>) -> Result<NdModel<T>, E> {
    match r {
        Ok(b) => Ok(b@),
        Err(e) => Err(e),
    }
}

/// `swapaxes(a, axis1, axis2)`: the array with the two axes exchanged.
pub fn swapaxes<T: Copy>(a: &NdArray<T>, axis1: isize, axis2: isize) -> (r: Result<NdArray<T>, AxisError>)
    requires
        nd_wf(a@),
        a.shape@.len() <= isize::MAX,
    ensures
        model_result(r) == spec_swapaxes(a@, axis1, axis2),
        r is Ok ==> nd_wf(r->Ok_0@),
{
    let nd = a.shape.len();
    let i = match normalize_axis(axis1, nd) {
        Ok(i) => i,
        Err(e) => return Err(e),
    };
    let j = match normalize_axis(axis2, nd) {
        Ok(j) => j,
        Err(e) => return Err(e),
    };
    let mut perm: Vec<usize> = Vec::new();
    let mut k: usize = 0;
    while k < nd
        invariant
            k <= nd,
            i < nd,
            j < nd,
            perm@ == swap_perm(nd as nat, i as int, j as int).take(k as int),
        decreases nd - k,
    {
        let v = if k == i { j } else if k == j { i } else { k };
        perm.push(v);
        k = k + 1;
        assert(perm@ =~= swap_perm(nd as nat, i as int, j as int).take(k as int));
    }
    assert(perm@ =~= swap_perm(nd as nat, i as int, j as int));
    assert(is_permutation(perm@, nd as nat)) by {
        assert forall|x: int| 0 <= x < nd implies #[trigger] occurs(perm@, x) by {
            let w = if x == i { j as int } else if x == j { i as int } else { x };
            assert(perm@[w] == x);
        }
    }
    Ok(permute_axes(a, perm.as_slice()))
}

/// Position `p` of the axes other than `from`, in their order.
pub open spec fn skip_axis(from: int, p: int) -> int {
    if p < from { p } else { p + 1 }
}

/// The order of `nd` axes with axis `from` taken out and put back at
/// position `t`.
pub open spec fn roll_perm(nd: nat, from: int, t: int) -> Seq<usize> {
    Seq::new(nd, |k: int| (if k < t { skip_axis(from, k) } else if k == t { from } else { skip_axis(from, k - 1) }) as usize)
}

/// Why `rollaxis` refuses its arguments.
#[derive(Clone, Copy, Debug, PartialEq, Eq, Structural)]
pub enum RollAxisError {
    /// The axis to move names no axis.
    Axis(AxisError),
    /// The start position lies outside `-nd..=nd`.
    Start(isize),
}

/// `rollaxis` on models: the axis is moved to stand before position
/// `start` (counted from the end when negative), at most at the end.
pub open spec fn spec_rollaxis<T>(a: NdModel<T>, axis: isize, start: isize) -> Result<NdModel<T>, RollAxisError> {
    let nd = a.shape.len();
    match spec_normalize_axis(axis as int, nd as int) {
        None => Err(RollAxisError::Axis(AxisError { axis: axis, ndim: nd as usize })),
        Some(from) => {
            let to = if start < 0 { start + nd } else { start as int };
            if to < 0 || to > nd {
                Err(RollAxisError::Start(start))
            } else {
                let t = if to < nd - 1 { to } else { nd - 1 };
                Ok(spec_permute_axes(a, roll_perm(nd, from, t)))
            }
        },
    }
}

/// `rollaxis(a, axis, start)`: the array with `axis` moved to position
/// `start`.
#[verifier::rlimit(40)]
pub fn rollaxis<T: Copy>(a: &NdArray<T>, axis: isize, start: isize) -> (r: Result<NdArray<T>, RollAxisError>)
    requires
        nd_wf(a@),
        a.shape@.len() <= isize::MAX,
    ensures
        model_result(r) == spec_rollaxis(a@, axis, start),
        r is Ok ==> nd_wf(r->Ok_0@),
{
    let nd = a.shape.len();
    let from = match normalize_axis(axis, nd) {
        Ok(i) => i,
        Err(e) => return Err(RollAxisError::Axis(e)),
    };
    let nd_i = nd as isize;
    let to: isize = if start < 0 { start + nd_i } else { start };
    if to < 0 || to > nd_i {
        return Err(RollAxisError::Start(start));
    }
    let t: usize = if (to as usize) < nd - 1 { to as usize } else { nd - 1 };
    let mut perm: Vec<usize> = Vec::new();
    let mut k: usize = 0;
    while k < nd
        invariant
            k <= nd,
            from < nd,
            t < nd,
            perm@ == roll_perm(nd as nat, from as int, t as int).take(k as int),
        decreases nd - k,
    {
        let v = if k < t {
            if k < from { k } else { k + 1 }
        } else if k == t {
            from
        } else {
            if k - 1 < from { k - 1 } else { k }
        };
        perm.push(v);
        k = k + 1;
        assert(perm@ =~= roll_perm(nd as nat, from as int, t as int).take(k as int));
    }
    let ghost rp = roll_perm(nd as nat, from as int, t as int);
    assert(perm@ =~= rp);
    assert(is_permutation(perm@, nd as nat)) by {
        assert forall|x: int| 0 <= x < nd implies #[trigger] perm@[x] < nd by {}
        assert forall|x: int, y: int| 0 <= x < y < nd implies perm@[x] != perm@[y] by {}
        assert forall|x: int| 0 <= x < nd implies #[trigger] occurs(perm@, x) by {
            if x == from {
                assert(perm@[t as int] == x);
            } else {
                let p = if x < from { x } else { x - 1 };
                let w = if p < t { p } else { p + 1 };
                assert(perm@[w] == x);
            }
        }
    }
    Ok(permute_axes(a, perm.as_slice()))
}

// ---------------------------------------------------------------------
// laws
// ---------------------------------------------------------------------

/// Applying `q` after `p`: axis `i` of the result is axis `p[q[i]]`.
pub open spec fn compose_perm(p: Seq<usize>, q: Seq<usize>) -> Seq<usize> {
    Seq::new(q.len(), |i: int| p[q[i] as int])
}

/// The identity order of `n` axes.
pub open spec fn identity_perm(n: nat) -> Seq<usize> {
    Seq::new(n, |i: int| i as usize)
}

/// The reversed order of `n` axes.
pub open spec fn reversed_perm(n: nat) -> Seq<usize> {
    Seq::new(n, |i: int| (n - 1 - i) as usize)
}

proof fn lemma_compose_is_permutation(p: Seq<usize>, q: Seq<usize>, n: nat)
    requires
        is_permutation(p, n),
        is_permutation(q, n),
    ensures
        is_permutation(compose_perm(p, q), n),
{
    let c = compose_perm(p, q);
    assert forall|i: int, j: int| 0 <= i < j < n implies c[i] != c[j] by {
        assert(q[i] != q[j]);
        if q[i] < q[j] {
            assert(p[q[i] as int] != p[q[j] as int]);
        } else {
            assert(p[q[j] as int] != p[q[i] as int]);
        }
    }
    assert forall|k: int| 0 <= k < n implies #[trigger] occurs(c, k) by {
        lemma_axis_position(p, n, k);
        let m = axis_position(p, k);
        lemma_axis_position(q, n, m);
        let i = axis_position(q, m);
        assert(c[i] == k);
    }
}

/// Permuting the axes by `p` and then by `q` is permuting them once by the
/// composed order.
pub proof fn lemma_permute_compose<T>(a: NdModel<T>, p: Seq<usize>, q: Seq<usize>)
    requires
        nd_wf(a),
        is_permutation(p, a.shape.len()),
        is_permutation(q, a.shape.len()),
    ensures
        spec_permute_axes(spec_permute_axes(a, p), q) == spec_permute_axes(a, compose_perm(p, q)),
{
    let n = a.shape.len();
    let b = spec_permute_axes(a, p);
    let c = spec_permute_axes(b, q);
    let pq = compose_perm(p, q);
    let d = spec_permute_axes(a, pq);
    lemma_compose_is_permutation(p, q, n);
    lemma_permute_product(a.shape, p);
    lemma_permute_product(b.shape, q);
    assert(c.shape =~= d.shape);
    assert forall|f: int| 0 <= f < c.data.len() implies c.data[f] == d.data[f] by {
        let u = unflat_index(c.shape, f);
        lemma_unflat_flat(c.shape, f);
        let v = permute_source(q, u);
        lemma_permute_source_in_bounds(b.shape, q, u);
        let g = flat_index(b.shape, v);
        lemma_flat_bound(b.shape, v);
        lemma_flat_unflat(b.shape, v);
        assert(permute_source(p, v) =~= permute_source(pq, u)) by {
            assert forall|k: int| 0 <= k < n implies permute_source(p, v)[k] == permute_source(pq, u)[k] by {
                lemma_axis_position(p, n, k);
                let m = axis_position(p, k);
                lemma_axis_position(q, n, m);
                let i = axis_position(q, m);
                lemma_axis_position(pq, n, k);
                assert(pq[i] == k);
            }
        }
    }
    assert(c.data =~= d.data);
}

/// Permuting by the identity order changes nothing.
pub proof fn lemma_permute_identity<T>(a: NdModel<T>)
    requires
        nd_wf(a),
        a.shape.len() <= usize::MAX,
    ensures
        spec_permute_axes(a, identity_perm(a.shape.len())) == a,
{
    let n = a.shape.len();
    let id = identity_perm(n);
    let b = spec_permute_axes(a, id);
    assert(is_permutation(id, n)) by {
        assert forall|k: int| 0 <= k < n implies #[trigger] occurs(id, k) by {
            assert(id[k] == k);
        }
    }
    assert(b.shape =~= a.shape);
    assert forall|f: int| 0 <= f < a.data.len() implies b.data[f] == a.data[f] by {
        let u = unflat_index(a.shape, f);
        lemma_unflat_flat(a.shape, f);
        assert(permute_source(id, u) =~= u) by {
            assert forall|k: int| 0 <= k < n implies permute_source(id, u)[k] == u[k] by {
                lemma_axis_position(id, n, k);
            }
        }
    }
    assert(b.data =~= a.data);
}

/// Exchanging two axes twice gives back the array.
pub proof fn lemma_swapaxes_involution<T>(a: NdModel<T>, axis1: isize, axis2: isize)
    requires
        nd_wf(a),
        a.shape.len() <= usize::MAX,
        spec_swapaxes(a, axis1, axis2) is Ok,
    ensures
        spec_swapaxes(spec_swapaxes(a, axis1, axis2)->Ok_0, axis1, axis2) == Ok::<NdModel<T>, AxisError>(a),
{
    let n = a.shape.len();
    let i = spec_normalize_axis(axis1 as int, n as int)->Some_0;
    let j = spec_normalize_axis(axis2 as int, n as int)->Some_0;
    let sp = swap_perm(n, i, j);
    assert(is_permutation(sp, n)) by {
        assert forall|x: int| 0 <= x < n implies #[trigger] occurs(sp, x) by {
            let w = if x == i { j } else if x == j { i } else { x };
            assert(sp[w] == x);
        }
    }
    let b = spec_permute_axes(a, sp);
    lemma_permute_product(a.shape, sp);
    assert(b.shape.len() == n);
    lemma_permute_compose(a, sp, sp);
    assert(compose_perm(sp, sp) =~= identity_perm(n));
    lemma_permute_identity(a);
}

/// `transpose` is the permutation that reverses the axes.
pub proof fn lemma_transpose_reverses_axes<T>(a: NdModel<T>)
    requires
        nd_wf(a),
        a.shape.len() <= usize::MAX,
    ensures
        spec_transpose(a) == spec_permute_axes(a, reversed_perm(a.shape.len())),
{
    let n = a.shape.len();
    let rp = reversed_perm(n);
    assert(is_permutation(rp, n)) by {
        assert forall|k: int| 0 <= k < n implies #[trigger] occurs(rp, k) by {
            assert(rp[n - 1 - k] == k);
        }
    }
    let t = spec_transpose(a);
    let b = spec_permute_axes(a, rp);
    assert(b.shape =~= a.shape.reverse());
    lemma_product_reverse(a.shape);
    assert forall|f: int| 0 <= f < a.data.len() implies t.data[f] == b.data[f] by {
        let u = unflat_index(a.shape.reverse(), f);
        assert(permute_source(rp, u) =~= u.reverse()) by {
            lemma_unflat_flat(a.shape.reverse(), f);
            assert forall|k: int| 0 <= k < n implies permute_source(rp, u)[k] == u.reverse()[k] by {
                lemma_axis_position(rp, n, k);
                assert(rp[n - 1 - k] == k);
            }
        }
        assert(t.data[f] == a.data[transpose_source(a.shape, f)]);
    }
    assert(t.data =~= b.data);
}

// ---------------------------------------------------------------------
// moveaxis
// ---------------------------------------------------------------------

/// The axes `0..nd` not listed in `src`, in order.
pub open spec fn kept_axes(nd: nat, src: Seq<int>) -> Seq<usize>
    decreases nd,
{
    if nd == 0 {
        Seq::empty()
    } else if src.contains(nd - 1) {
        kept_axes((nd - 1) as nat, src)
    } else {
        kept_axes((nd - 1) as nat, src).push((nd - 1) as usize)
    }
}

/// The moved axes put in place one by one, in the order `ks` gives: axis
/// `src[k]` inserted at position `dst[k]` (at most at the end).
pub open spec fn place_moved(order: Seq<usize>, src: Seq<int>, dst: Seq<int>, ks: Seq<i64>) -> Seq<usize>
    decreases ks.len(),
{
    if ks.len() == 0 {
        order
    } else {
        let k = ks[0] as int;
        let pos = if dst[k] < order.len() { dst[k] } else { order.len() as int };
        place_moved(order.insert(pos, src[k] as usize), src, dst, ks.drop_first())
    }
}

/// The destinations as the key of a stable sort.
pub open spec fn dst_key(dst: Seq<int>) -> Seq<Seq<i64>> {
    seq![Seq::new(dst.len(), |i: int| dst[i] as i64)]
}

/// The order of the axes after `moveaxis`: the axes not moved, in order,
/// with each moved axis inserted at its destination, taking the moves by
/// increasing destination (in listed order among equal destinations).
pub open spec fn move_order(nd: nat, src: Seq<int>, dst: Seq<int>) -> Seq<usize> {
    place_moved(kept_axes(nd, src), src, dst, range_seq(src.len()).sort_by(lex_order(dst_key(dst))))
}

/// Why `moveaxis` refuses its arguments.
#[derive(Clone, Copy, Debug, PartialEq, Eq, Structural)]
pub enum MoveAxisError {
    /// A source or destination names no axis.
    Axis(AxisError),
    /// There are not as many destinations as sources.
    LengthMismatch,
}

/// `moveaxis` on models.
pub open spec fn spec_moveaxis<T>(a: NdModel<T>, source: Seq<isize>, destination: Seq<isize>) -> Result<NdModel<T>, MoveAxisError> {
    let nd = a.shape.len() as int;
    match normalize_axes(source, nd) {
        Err(e) => Err(MoveAxisError::Axis(e)),
        Ok(s) => match normalize_axes(destination, nd) {
            Err(e) => Err(MoveAxisError::Axis(e)),
            Ok(d) => if s.len() != d.len() {
                Err(MoveAxisError::LengthMismatch)
            } else {
                Ok(spec_permute_axes(a, move_order(nd as nat, s, d)))
            },
        },
    }
}

/// The sources name each axis at most once.
pub open spec fn distinct_sources(source: Seq<isize>, nd: int) -> bool {
    normalize_axes(source, nd) matches Ok(s) ==> forall|i: int, j: int| 0 <= i < j < s.len() ==> s[i] != s[j]
}

proof fn lemma_kept_axes(nd: nat, src: Seq<int>)
    requires
        nd <= usize::MAX + 1,
    ensures
        kept_axes(nd, src).no_duplicates(),
        forall|x: usize| #[trigger] kept_axes(nd, src).contains(x) <==> (x < nd && !src.contains(x as int)),
    decreases nd,
{
    if nd > 0 {
        lemma_kept_axes((nd - 1) as nat, src);
        let p = kept_axes((nd - 1) as nat, src);
        if !src.contains(nd - 1) {
            assert(!p.contains((nd - 1) as usize));
            let q = p.push((nd - 1) as usize);
            assert forall|i: int, j: int| 0 <= i < q.len() && 0 <= j < q.len() && i != j implies q[i] != q[j] by {
                if i < p.len() && j < p.len() {
                    assert(p[i] != p[j]);
                } else if i < p.len() {
                    assert(p.contains(p[i]));
                } else {
                    assert(p.contains(p[j]));
                }
            }
            assert forall|x: usize| #[trigger] p.push((nd - 1) as usize).contains(x) <==> (x < nd && !src.contains(x as int)) by {
                if x == nd - 1 {
                    assert(p.push((nd - 1) as usize)[p.len() as int] == x);
                }
                let q = p.push((nd - 1) as usize);
                if q.contains(x) && x != nd - 1 {
                    let i = choose|i: int| 0 <= i < q.len() && #[trigger] q[i] == x;
                    assert(p[i] == x);
                }
                if p.contains(x) {
                    let i = choose|i: int| 0 <= i < p.len() && #[trigger] p[i] == x;
                    assert(q[i] == x);
                }
            }
        }
    }
}

proof fn lemma_place_moved(order: Seq<usize>, src: Seq<int>, dst: Seq<int>, ks: Seq<i64>)
    requires
        order.no_duplicates(),
        ks.no_duplicates(),
        forall|t: int| 0 <= t < ks.len() ==> 0 <= #[trigger] ks[t] < src.len(),
        forall|i: int| 0 <= i < src.len() ==> 0 <= #[trigger] src[i] <= usize::MAX,
        forall|i: int| 0 <= i < dst.len() ==> 0 <= #[trigger] dst[i],
        src.len() == dst.len(),
        forall|i: int, j: int| 0 <= i < j < src.len() ==> src[i] != src[j],
        forall|t: int| 0 <= t < ks.len() ==> !order.contains(#[trigger] src[ks[t] as int] as usize),
    ensures
        place_moved(order, src, dst, ks).no_duplicates(),
        forall|x: usize| #[trigger] place_moved(order, src, dst, ks).contains(x) <==> (order.contains(x)
            || exists|t: int| 0 <= t < ks.len() && x == src[ks[t] as int] as usize),
    decreases ks.len(),
{
    if ks.len() > 0 {
        let k = ks[0] as int;
        let pos = if dst[k] < order.len() { dst[k] } else { order.len() as int };
        let v = src[k] as usize;
        let o2 = order.insert(pos, v);
        let rest = ks.drop_first();
        assert(!order.contains(v)) by {
            assert(0 <= 0 < ks.len());
        }
        assert forall|x: usize| #[trigger] o2.contains(x) <==> (order.contains(x) || x == v) by {
            if o2.contains(x) {
                let i = choose|i: int| 0 <= i < o2.len() && o2[i] == x;
                if i < pos {
                    assert(order[i] == x);
                } else if i > pos {
                    assert(order[i - 1] == x);
                }
            }
            if order.contains(x) {
                let i = choose|i: int| 0 <= i < order.len() && order[i] == x;
                if i < pos {
                    assert(o2[i] == x);
                } else {
                    assert(o2[i + 1] == x);
                }
            }
            if x == v {
                assert(o2[pos] == x);
            }
        }
        assert(o2.no_duplicates()) by {
            assert forall|i: int, j: int| 0 <= i < o2.len() && 0 <= j < o2.len() && i != j implies o2[i] != o2[j] by {
                if o2[i] == o2[j] {
                    if i == pos {
                        let jj = if j < pos { j } else { j - 1 };
                        assert(order[jj] == v);
                    } else if j == pos {
                        let ii = if i < pos { i } else { i - 1 };
                        assert(order[ii] == v);
                    } else {
                        let ii = if i < pos { i } else { i - 1 };
                        let jj = if j < pos { j } else { j - 1 };
                        assert(order[ii] == order[jj]);
                    }
                }
            }
        }
        assert forall|t: int| 0 <= t < rest.len() implies !o2.contains(#[trigger] src[rest[t] as int] as usize) by {
            assert(rest[t] == ks[t + 1]);
            assert(ks[t + 1] != ks[0]);
            assert(src[ks[t + 1] as int] != src[k]);
            assert(!order.contains(src[ks[t + 1] as int] as usize));
        }
        assert(rest.no_duplicates()) by {
            assert forall|i: int, j: int| 0 <= i < rest.len() && 0 <= j < rest.len() && i != j implies rest[i] != rest[j] by {
                assert(ks[i + 1] != ks[j + 1]);
            }
        }
        lemma_place_moved(o2, src, dst, rest);
        assert forall|x: usize| #[trigger] place_moved(order, src, dst, ks).contains(x) <==> (order.contains(x)
            || exists|t: int| 0 <= t < ks.len() && x == src[ks[t] as int] as usize) by {
            if exists|t: int| 0 <= t < rest.len() && x == src[rest[t] as int] as usize {
                let t = choose|t: int| 0 <= t < rest.len() && x == src[rest[t] as int] as usize;
                assert(x == src[ks[t + 1] as int] as usize);
            }
            if exists|t: int| 0 <= t < ks.len() && x == src[ks[t] as int] as usize {
                let t = choose|t: int| 0 <= t < ks.len() && x == src[ks[t] as int] as usize;
                if t > 0 {
                    assert(x == src[rest[t - 1] as int] as usize);
                }
            }
        }
    }
}

/// The set of axes `0..n`.
pub open spec fn axis_set(n: nat) -> Set<usize> {
    Set::new(|x: usize| x < n)
}

proof fn lemma_axis_set_len(n: nat)
    requires
        n <= usize::MAX + 1,
    ensures
        axis_set(n).finite(),
        axis_set(n).len() == n,
    decreases n,
{
    if n == 0 {
        assert(axis_set(0) =~= Set::<usize>::empty());
    } else {
        lemma_axis_set_len((n - 1) as nat);
        assert(axis_set(n) =~= axis_set((n - 1) as nat).insert((n - 1) as usize));
    }
}

/// A sequence without repeats holding exactly the axes `0..n` is a
/// permutation of them.
proof fn lemma_covering_is_permutation(p: Seq<usize>, n: nat)
    requires
        n <= usize::MAX + 1,
        p.no_duplicates(),
        forall|x: usize| #[trigger] p.contains(x) <==> x < n,
    ensures
        is_permutation(p, n),
{
    p.unique_seq_to_set();
    assert(p.to_set() =~= axis_set(n));
    lemma_axis_set_len(n);
    assert forall|i: int| 0 <= i < p.len() implies #[trigger] p[i] < n by {
        assert(p.contains(p[i]));
    }
    assert forall|k: int| 0 <= k < n implies #[trigger] occurs(p, k) by {
        assert(p.contains(k as usize));
    }
}

/// Sorting the positions `0..m` gives each of them once.
proof fn lemma_sorted_range(m: nat, le: spec_fn(i64, i64) -> bool)
    requires
        m <= i64::MAX,
        vstd::relations::total_ordering(le),
    ensures
        range_seq(m).sort_by(le).no_duplicates(),
        forall|t: int| 0 <= t < range_seq(m).sort_by(le).len() ==> 0 <= #[trigger] range_seq(m).sort_by(le)[t] < m,
        forall|i: int| 0 <= i < m ==> #[trigger] range_seq(m).sort_by(le).contains(i as i64),
{
    broadcast use vstd::seq_lib::group_to_multiset_ensures;
    let r = range_seq(m);
    r.lemma_sort_by_ensures(le);
    let ks = r.sort_by(le);
    assert(r.no_duplicates()) by {
        assert forall|i: int, j: int| 0 <= i < r.len() && 0 <= j < r.len() && i != j implies r[i] != r[j] by {}
    }
    r.lemma_multiset_has_no_duplicates();
    assert forall|x: i64| ks.to_multiset().contains(x) implies ks.to_multiset().count(x) == 1 by {
        assert(r.to_multiset().contains(x));
    }
    ks.lemma_multiset_has_no_duplicates_conv();
    assert forall|t: int| 0 <= t < ks.len() implies 0 <= #[trigger] ks[t] < m by {
        assert(ks.contains(ks[t]));
        assert(ks.to_multiset().contains(ks[t]));
        assert(r.to_multiset().contains(ks[t]));
        assert(r.contains(ks[t]));
        let i = choose|i: int| 0 <= i < r.len() && r[i] == ks[t];
    }
    assert forall|i: int| 0 <= i < m implies #[trigger] ks.contains(i as i64) by {
        assert(r[i] == i as i64);
        assert(r.contains(i as i64));
        assert(r.to_multiset().contains(i as i64));
        assert(ks.to_multiset().contains(i as i64));
    }
}

/// The listed axes, once named, lie in the array.
pub proof fn lemma_normalized_in_range(list: Seq<isize>, nd: int)
    requires
        normalize_axes(list, nd) is Ok,
    ensures
        normalize_axes(list, nd)->Ok_0.len() == list.len(),
        forall|i: int| 0 <= i < list.len() ==> 0 <= #[trigger] normalize_axes(list, nd)->Ok_0[i] < nd,
    decreases list.len(),
{
    if list.len() > 0 {
        lemma_normalized_in_range(list.drop_last(), nd);
    }
}

/// Distinct axes of an array of `nd` dimensions are at most `nd`.
pub(crate) proof fn lemma_distinct_len(src: Seq<int>, nd: int)
    requires
        nd >= 0,
        forall|i: int| 0 <= i < src.len() ==> 0 <= #[trigger] src[i] < nd,
        forall|i: int, j: int| 0 <= i < j < src.len() ==> src[i] != src[j],
    ensures
        src.len() <= nd,
{
    assert(src.no_duplicates()) by {
        assert forall|i: int, j: int| 0 <= i < src.len() && 0 <= j < src.len() && i != j implies src[i] != src[j] by {
            if i < j {
            } else {
                assert(src[j] != src[i]);
            }
        }
    }
    src.unique_seq_to_set();
    vstd::set_lib::lemma_int_range(0, nd);
    assert(src.to_set().subset_of(vstd::set_lib::set_int_range(0, nd))) by {
        assert forall|x: int| src.to_set().contains(x) implies vstd::set_lib::set_int_range(0, nd).contains(x) by {
            let i = choose|i: int| 0 <= i < src.len() && src[i] == x;
        }
    }
    vstd::set_lib::lemma_len_subset(src.to_set(), vstd::set_lib::set_int_range(0, nd));
}

/// `move_order` is a permutation when the sources are distinct axes.
pub(crate) proof fn lemma_move_order_permutation(nd: nat, src: Seq<int>, dst: Seq<int>)
    requires
        nd <= isize::MAX,
        src.len() == dst.len(),
        forall|i: int| 0 <= i < src.len() ==> 0 <= #[trigger] src[i] < nd,
        forall|i: int| 0 <= i < dst.len() ==> 0 <= #[trigger] dst[i] < nd,
        forall|i: int, j: int| 0 <= i < j < src.len() ==> src[i] != src[j],
    ensures
        is_permutation(move_order(nd, src, dst), nd),
{
    let m = src.len();
    lemma_distinct_len(src, nd as int);
    let le = lex_order(dst_key(dst));
    crate::sorting::lemma_lex_order_total_pub(dst_key(dst));
    lemma_sorted_range(m, le);
    let r = range_seq(m);
    let ks = r.sort_by(le);
    lemma_kept_axes(nd, src);
    let kept = kept_axes(nd, src);
    assert forall|t: int| 0 <= t < ks.len() implies !kept.contains(#[trigger] src[ks[t] as int] as usize) by {
        assert(src.contains(src[ks[t] as int]));
    }
    lemma_place_moved(kept, src, dst, ks);
    let p = move_order(nd, src, dst);
    assert forall|x: usize| #[trigger] p.contains(x) <==> x < nd by {
        if x < nd && src.contains(x as int) {
            let i = choose|i: int| 0 <= i < src.len() && src[i] == x as int;
            assert(ks.contains(i as i64));
            let t = choose|t: int| 0 <= t < ks.len() && ks[t] == i as i64;
            assert(x == src[ks[t] as int] as usize);
        }
    }
    lemma_covering_is_permutation(p, nd);
}

/// `moveaxis(a, source, destination)`: the listed axes moved to the listed
/// positions, the others keeping their order.
pub fn moveaxis<T: Copy>(a: &NdArray<T>, source: &[isize], destination: &[isize]) -> (r: Result<NdArray<T>, MoveAxisError>)
    requires
        nd_wf(a@),
        a.shape@.len() <= isize::MAX,
        distinct_sources(source@, a.shape@.len() as int),
    ensures
        match r {
            Ok(b) => spec_moveaxis(a@, source@, destination@) == Ok::<NdModel<T>, MoveAxisError>(b@) && nd_wf(b@),
            Err(e) => spec_moveaxis(a@, source@, destination@) == Err::<NdModel<T>, MoveAxisError>(e),
        },
{
    let nd = a.shape.len();
    let src = match normalize_list(source, nd) {
        Err(e) => return Err(MoveAxisError::Axis(e)),
        Ok(v) => v,
    };
    let dst = match normalize_list(destination, nd) {
        Err(e) => return Err(MoveAxisError::Axis(e)),
        Ok(v) => v,
    };
    if src.len() != dst.len() {
        return Err(MoveAxisError::LengthMismatch);
    }
    let ghost s = Seq::new(src@.len(), |k: int| src@[k] as int);
    let ghost d = Seq::new(dst@.len(), |k: int| dst@[k] as int);
    proof {
        lemma_normalized_in_range(source@, nd as int);
        lemma_normalized_in_range(destination@, nd as int);
        assert forall|q: int| 0 <= q < dst@.len() implies #[trigger] dst@[q] < nd by {
            assert(d[q] < nd);
        }
        assert forall|q: int| 0 <= q < src@.len() implies #[trigger] src@[q] < nd by {
            assert(s[q] < nd);
        }
        lemma_distinct_len(s, nd as int);
    }
    // the axes that stay, in order
    let mut order: Vec<usize> = Vec::new();
    let mut x: usize = 0;
    while x < nd
        invariant
            x <= nd,
            s == Seq::new(src@.len(), |k: int| src@[k] as int),
            order@ == kept_axes(x as nat, s),
        decreases nd - x,
    {
        let mut moved = false;
        let mut j: usize = 0;
        while j < src.len()
            invariant
                j <= src@.len(),
                s == Seq::new(src@.len(), |k: int| src@[k] as int),
                moved == exists|q: int| 0 <= q < j && src@[q] == x,
            decreases src@.len() - j,
        {
            if src[j] == x {
                moved = true;
            }
            j = j + 1;
        }
        proof {
            if moved {
                let q = choose|q: int| 0 <= q < src@.len() && src@[q] == x;
                assert(s[q] == x as int);
            } else {
                assert forall|q: int| 0 <= q < s.len() implies s[q] != x as int by {
                    assert(src@[q] != x);
                }
            }
        }
        if !moved {
            order.push(x);
        }
        x = x + 1;
    }
    // the moves by increasing destination
    let mut key: Vec<i64> = Vec::new();
    let mut j: usize = 0;
    while j < dst.len()
        invariant
            j <= dst@.len(),
            dst@.len() == src@.len(),
            nd <= isize::MAX,
            forall|q: int| 0 <= q < dst@.len() ==> #[trigger] dst@[q] < nd,
            key@ == Seq::new(j as nat, |q: int| dst@[q] as i64),
        decreases dst@.len() - j,
    {
        key.push(dst[j] as i64);
        j = j + 1;
        assert(key@ =~= Seq::new(j as nat, |q: int| dst@[q] as i64));
    }
    assert(key@ =~= Seq::new(d.len(), |i: int| d[i] as i64));
    let keys = vec![key];
    assert(key_views(keys@) =~= dst_key(d));
    let ks = match lexsort(keys.as_slice()) {
        Ok(k) => k.data,
        Err(_) => {
            assert(false);
            return Err(MoveAxisError::LengthMismatch);
        },
    };
    let ghost all_ks = ks@;
    proof {
        crate::sorting::lemma_lex_order_total_pub(dst_key(d));
        lemma_sorted_range(s.len(), lex_order(dst_key(d)));
    }
    let mut t: usize = 0;
    assert(all_ks.skip(0) =~= all_ks);
    while t < ks.len()
        invariant
            t <= ks@.len(),
            ks@ == all_ks,
            place_moved(kept_axes(nd as nat, s), s, d, all_ks) == place_moved(order@, s, d, all_ks.skip(t as int)),
            forall|q: int| 0 <= q < all_ks.len() ==> 0 <= #[trigger] all_ks[q] < src@.len(),
            dst@.len() == src@.len(),
            s == Seq::new(src@.len(), |k: int| src@[k] as int),
            d == Seq::new(dst@.len(), |k: int| dst@[k] as int),
        decreases ks@.len() - t,
    {
        let k = ks[t] as usize;
        let pos = if dst[k] < order.len() { dst[k] } else { order.len() };
        assert(all_ks.skip(t as int)[0] == ks@[t as int]);
        assert(all_ks.skip(t as int).drop_first() =~= all_ks.skip(t + 1));
        order.insert(pos, src[k]);
        t = t + 1;
    }
    assert(all_ks.skip(all_ks.len() as int) =~= Seq::<i64>::empty());
    proof {
        lemma_move_order_permutation(nd as nat, s, d);
    }
    Ok(permute_axes(a, order.as_slice()))
}

} // verus!
