//! Flat indices and coordinate tuples: `unravel_index`,
//! `ravel_multi_index` and `indices` by the row-major strides of a shape,
//! and the index lists `diag_indices`, `tril_indices`, `triu_indices`.
use vstd::prelude::*;

use crate::nd::{lemma_product_small, partial_products_fit, NdArray, NdModel};
use crate::npy::{element_count, shape_product};
use crate::nonzero::{lemma_true_positions, true_positions};

verus! {

/// The stride of axis `d`: the product of the later dimensions, at least 1.
pub open spec fn stride(dims: Seq<usize>, d: int) -> int {
    let p = shape_product(dims.skip(d + 1));
    if p == 0 { 1 } else { p as int }
}

/// What is left of flat index `flat` after taking the coordinates of the
/// first `d` axes.
pub open spec fn unravel_rem(dims: Seq<usize>, flat: int, d: nat) -> int
    decreases d,
{
    if d == 0 {
        flat
    } else {
        unravel_rem(dims, flat, (d - 1) as nat) % stride(dims, d - 1)
    }
}

/// The coordinate on axis `d` of flat index `flat`.
pub open spec fn unravel_coord(dims: Seq<usize>, flat: int, d: int) -> int {
    unravel_rem(dims, flat, d as nat) / stride(dims, d)
}

/// `unravel_index` on models: one 1-D array per axis, holding the
/// coordinate on that axis of each flat index (read as unsigned).
pub open spec fn spec_unravel_index(idx: Seq<i64>, dims: Seq<usize>) -> Seq<NdModel<i64>> {
    Seq::new(dims.len(), |d: int| NdModel {
        shape: seq![idx.len() as usize],
        data: Seq::new(idx.len(), |i: int| unravel_coord(dims, (idx[i] as usize) as int, d) as i64),
    })
}

/// The strides can be computed: every later part of the shape multiplies
/// within `usize`.
pub open spec fn strides_fit(dims: Seq<usize>) -> bool {
    forall|d: int| 0 <= d < dims.len() ==> #[trigger] partial_products_fit(dims.skip(d + 1))
}

fn strides_exec(dims: &[usize]) -> (r: Vec<usize>)
    requires
        strides_fit(dims@),
    ensures
        r@.len() == dims@.len(),
        forall|d: int| 0 <= d < dims@.len() ==> #[trigger] r@[d] == stride(dims@, d),
{
    let n = dims.len();
    let mut r: Vec<usize> = Vec::new();
    let mut d: usize = 0;
    while d < n
        invariant
            d <= n,
            n == dims@.len(),
            strides_fit(dims@),
            r@.len() == d,
            forall|q: int| 0 <= q < d ==> #[trigger] r@[q] == stride(dims@, q),
        decreases n - d,
    {
        assert(partial_products_fit(dims@.skip(d + 1)));
        let mut rest: Vec<usize> = Vec::new();
        let mut k: usize = d + 1;
        while k < n
            invariant
                d < n,
                d + 1 <= k <= n,
                n == dims@.len(),
                rest@ == dims@.subrange(d + 1, k as int),
            decreases n - k,
        {
            rest.push(dims[k]);
            k = k + 1;
            assert(rest@ =~= dims@.subrange(d + 1, k as int));
        }
        assert(rest@ =~= dims@.skip(d + 1));
        let p = element_count(rest.as_slice());
        r.push(if p == 0 { 1 } else { p });
        d = d + 1;
    }
    r
}

/// `unravel_index(indices, shape)`: for each axis, the coordinates on it
/// of the flat indices.
pub fn unravel_index(idx: &[i64], dims: &[usize]) -> (r: Vec<NdArray<i64>>)
    requires
        strides_fit(dims@),
    ensures
        r@.len() == dims@.len(),
        forall|d: int| 0 <= d < dims@.len() ==> (#[trigger] r@[d])@ == spec_unravel_index(idx@, dims@)[d],
{
    let strides = strides_exec(dims);
    let nd = dims.len();
    let n = idx.len();
    let mut cols: Vec<Vec<i64>> = Vec::new();
    let mut d: usize = 0;
    while d < nd
        invariant
            d <= nd,
            nd == dims@.len(),
            strides@.len() == nd,
            forall|q: int| 0 <= q < nd ==> #[trigger] strides@[q] == stride(dims@, q),
            n == idx@.len(),
            cols@.len() == d,
            forall|q: int| 0 <= q < d ==> (#[trigger] cols@[q])@ == spec_unravel_index(idx@, dims@)[q].data,
        decreases nd - d,
    {
        let mut col: Vec<i64> = Vec::new();
        let mut i: usize = 0;
        while i < n
            invariant
                d < nd,
                i <= n,
                n == idx@.len(),
                nd == dims@.len(),
                strides@.len() == nd,
                forall|q: int| 0 <= q < nd ==> #[trigger] strides@[q] == stride(dims@, q),
                col@.len() == i,
                forall|q: int| 0 <= q < i ==> #[trigger] col@[q] == unravel_coord(dims@, (idx@[q] as usize) as int, d as int) as i64,
            decreases n - i,
        {
            let flat = idx[i] as usize;
            let mut rem: usize = flat;
            let mut k: usize = 0;
            while k < d
                invariant
                    k <= d < nd,
                    nd == dims@.len(),
                    strides@.len() == nd,
                    forall|q: int| 0 <= q < nd ==> #[trigger] strides@[q] == stride(dims@, q),
                    rem == unravel_rem(dims@, flat as int, k as nat),
                decreases d - k,
            {
                assert(strides@[k as int] >= 1);
                rem = rem % strides[k];
                k = k + 1;
            }
            assert(strides@[d as int] >= 1);
            col.push((rem / strides[d]) as i64);
            i = i + 1;
        }
        let ghost c = col@;
        cols.push(col);
        assert(c =~= spec_unravel_index(idx@, dims@)[d as int].data);
        d = d + 1;
    }
    let mut out: Vec<NdArray<i64>> = Vec::new();
    let mut q: usize = 0;
    proof {
        lemma_product_small(n, 1, 1);
    }
    while q < nd
        invariant
            q <= nd,
            nd == dims@.len(),
            n == idx@.len(),
            cols@.len() == nd,
            forall|p: int| 0 <= p < nd ==> (#[trigger] cols@[p])@ == spec_unravel_index(idx@, dims@)[p].data,
            out@.len() == q,
            forall|p: int| 0 <= p < q ==> (#[trigger] out@[p])@ == spec_unravel_index(idx@, dims@)[p],
        decreases nd - q,
    {
        let data = crate::nd::copy_vec(cols[q].as_slice());
        let a = NdArray { shape: vec![n], data };
        assert(a@.shape =~= seq![n]);
        out.push(a);
        q = q + 1;
    }
    out
}

// ---------------------------------------------------------------------
// ravel_multi_index
// ---------------------------------------------------------------------

/// Why `ravel_multi_index` refuses its arguments.
#[derive(Clone, Copy, Debug, PartialEq, Eq, Structural)]
pub enum RavelError {
    /// Not one index array per dimension.
    CountMismatch,
}

/// Flat index `i` from the first `k` index arrays: the sum of each
/// coordinate times its axis's stride (arrays shorter than `i` add
/// nothing).
pub open spec fn ravel_sum(arrs: Seq<Seq<i64>>, dims: Seq<usize>, i: int, k: nat) -> int
    decreases k,
{
    if k == 0 {
        0
    } else {
        ravel_sum(arrs, dims, i, (k - 1) as nat) + (if i < arrs[k - 1].len() {
            arrs[k - 1][i] as int * stride(dims, k - 1)
        } else {
            0
        })
    }
}

/// `ravel_multi_index` on models: refused unless there is one index array
/// per dimension; else the flat index of each position of the first array.
pub open spec fn spec_ravel_multi_index(arrs: Seq<Seq<i64>>, dims: Seq<usize>) -> Result<NdModel<i64>, RavelError> {
    if arrs.len() != dims.len() {
        Err(RavelError::CountMismatch)
    } else {
        let n = arrs[0].len();
        Ok(NdModel { shape: seq![n as usize], data: Seq::new(n, |i: int| ravel_sum(arrs, dims, i, dims.len()) as i64) })
    }
}

/// The running sums and products `ravel_multi_index` computes fit in `i64`.
pub open spec fn ravel_fits(arrs: Seq<Seq<i64>>, dims: Seq<usize>) -> bool {
    &&& forall|d: int| 0 <= d < dims.len() ==> #[trigger] stride(dims, d) <= i64::MAX
    &&& forall|d: int, i: int| 0 <= d < arrs.len() && 0 <= i < arrs[d].len() ==> i64::MIN <= #[trigger] (arrs[d][i] as int
        * stride(dims, d)) <= i64::MAX
    &&& forall|i: int, k: int| 0 <= i < arrs[0].len() && 0 <= k <= arrs.len() ==> i64::MIN <= #[trigger] ravel_sum(
        arrs,
        dims,
        i,
        k as nat,
    ) <= i64::MAX
}

/// The index arrays as sequences.
pub open spec fn index_views(arrs: Seq<Vec<i64>>) -> Seq<Seq<i64>> {
    Seq::new(arrs.len(), |d: int| arrs[d]@)
}

/// `ravel_multi_index(multi_index, dims)`: the flat row-major index of each
/// coordinate tuple.
pub fn ravel_multi_index(arrs: &[Vec<i64>], dims: &[usize]) -> (r: Result<NdArray<i64>, RavelError>)
    requires
        strides_fit(dims@),
        arrs@.len() > 0 || dims@.len() > 0,
        arrs@.len() == dims@.len() ==> (forall|d: int| 0 <= d < arrs@.len() ==> (#[trigger] arrs@[d])@.len() <= arrs@[0]@.len()),
        arrs@.len() == dims@.len() ==> ravel_fits(index_views(arrs@), dims@),
    ensures
        match r {
            Ok(a) => spec_ravel_multi_index(index_views(arrs@), dims@) == Ok::<NdModel<i64>, RavelError>(a@),
            Err(e) => spec_ravel_multi_index(index_views(arrs@), dims@) == Err::<NdModel<i64>, RavelError>(e),
        },
{
    let ghost av = index_views(arrs@);
    if arrs.len() != dims.len() {
        return Err(RavelError::CountMismatch);
    }
    let strides = strides_exec(dims);
    let nd = dims.len();
    let n = arrs[0].len();
    let mut out: Vec<i64> = Vec::new();
    let mut i: usize = 0;
    while i < n
        invariant
            i <= n,
            out@.len() == i,
            forall|p: int| 0 <= p < i ==> #[trigger] out@[p] == 0,
        decreases n - i,
    {
        out.push(0);
        i = i + 1;
    }
    let mut d: usize = 0;
    while d < nd
        invariant
            d <= nd,
            nd == dims@.len(),
            nd == arrs@.len(),
            av == index_views(arrs@),
            n == arrs@[0]@.len(),
            strides@.len() == nd,
            forall|q: int| 0 <= q < nd ==> #[trigger] strides@[q] == stride(dims@, q),
            forall|q: int| 0 <= q < arrs@.len() ==> (#[trigger] arrs@[q])@.len() <= n,
            ravel_fits(av, dims@),
            out@.len() == n,
            forall|p: int| 0 <= p < n ==> #[trigger] out@[p] == ravel_sum(av, dims@, p, d as nat),
        decreases nd - d,
    {
        let col = &arrs[d];
        let m = col.len();
        assert(stride(dims@, d as int) <= i64::MAX);
        let s = strides[d] as i64;
        let mut i: usize = 0;
        while i < m
            invariant
                d < nd,
                i <= m,
                m == arrs@[d as int]@.len(),
                col@ == arrs@[d as int]@,
                m <= n,
                n == arrs@[0]@.len(),
                nd == arrs@.len(),
                av == index_views(arrs@),
                s == stride(dims@, d as int),
                ravel_fits(av, dims@),
                out@.len() == n,
                forall|p: int| 0 <= p < i ==> #[trigger] out@[p] == ravel_sum(av, dims@, p, (d + 1) as nat),
                forall|p: int| i <= p < n ==> #[trigger] out@[p] == ravel_sum(av, dims@, p, d as nat),
            decreases m - i,
        {
            assert(av[d as int][i as int] == col@[i as int]);
            assert(i64::MIN <= (av[d as int][i as int] as int * stride(dims@, d as int)) <= i64::MAX);
            assert(i64::MIN <= ravel_sum(av, dims@, i as int, (d + 1) as nat) <= i64::MAX);
            let v = col[i] * s;
            let cur = out[i];
            out.set(i, cur + v);
            i = i + 1;
        }
        assert forall|p: int| m <= p < n implies #[trigger] out@[p] == ravel_sum(av, dims@, p, (d + 1) as nat) by {
            assert(av[d as int].len() == m);
        }
        d = d + 1;
    }
    proof {
        lemma_product_small(n, 1, 1);
    }
    let r = NdArray { shape: vec![n], data: out };
    assert(r@.shape =~= seq![n]);
    assert(r@.data =~= spec_ravel_multi_index(av, dims@)->Ok_0.data);
    Ok(r)
}

// ---------------------------------------------------------------------
// the two are inverse
// ---------------------------------------------------------------------

proof fn lemma_unravel_telescope(dims: Seq<usize>, flat: int, k: nat)
    requires
        flat >= 0,
        k <= dims.len(),
    ensures
        flat == coord_sum(dims, flat, k) + unravel_rem(dims, flat, k),
    decreases k,
{
    if k > 0 {
        lemma_unravel_telescope(dims, flat, (k - 1) as nat);
        let s = stride(dims, k - 1);
        let r = unravel_rem(dims, flat, (k - 1) as nat);
        vstd::arithmetic::div_mod::lemma_fundamental_div_mod(r, s);
        assert(r == s * (r / s) + r % s);
        assert(s * (r / s) == (r / s) * s) by (nonlinear_arith);
    }
}

/// The coordinates of the first `k` axes times their strides, summed.
pub open spec fn coord_sum(dims: Seq<usize>, flat: int, k: nat) -> int
    decreases k,
{
    if k == 0 {
        0
    } else {
        coord_sum(dims, flat, (k - 1) as nat) + unravel_coord(dims, flat, k - 1) * stride(dims, k - 1)
    }
}

/// `ravel_multi_index` undoes `unravel_index`: the coordinates of a flat
/// index, weighted by the strides, add up to the flat index again (for any
/// shape, with the last stride 1).
pub proof fn lemma_ravel_unravel(dims: Seq<usize>, flat: int)
    requires
        flat >= 0,
        dims.len() > 0,
    ensures
        coord_sum(dims, flat, dims.len()) == flat,
{
    lemma_unravel_telescope(dims, flat, dims.len());
    let n = dims.len();
    assert(dims.skip(n as int) =~= Seq::<usize>::empty());
    assert(stride(dims, n - 1) == 1);
    let r = unravel_rem(dims, flat, (n - 1) as nat);
    assert(unravel_rem(dims, flat, n) == r % 1);
    assert(r % 1 == 0) by (nonlinear_arith);
}

/// The same law stated on the two functions' models: ravelling the
/// coordinate arrays that unravelling a flat index gives returns it.
pub proof fn lemma_ravel_multi_index_unravel(dims: Seq<usize>, flat: i64)
    requires
        flat >= 0,
        flat as int <= usize::MAX,
        dims.len() > 0,
        forall|d: int| 0 <= d < dims.len() ==> #[trigger] stride(dims, d) <= i64::MAX,
    ensures
        ({
            let coords = Seq::new(dims.len(), |d: int| spec_unravel_index(seq![flat], dims)[d].data);
            &&& spec_ravel_multi_index(coords, dims) is Ok
            &&& spec_ravel_multi_index(coords, dims)->Ok_0.data == seq![flat]
        }),
{
    let coords = Seq::new(dims.len(), |d: int| spec_unravel_index(seq![flat], dims)[d].data);
    lemma_ravel_unravel(dims, flat as int);
    assert((flat as usize) as int == flat as int);
    lemma_coord_sum_matches(dims, flat, coords, dims.len());
    let m = spec_ravel_multi_index(coords, dims)->Ok_0;
    assert(m.data =~= seq![flat]);
}

proof fn lemma_coord_sum_matches(dims: Seq<usize>, flat: i64, coords: Seq<Seq<i64>>, k: nat)
    requires
        flat >= 0,
        flat as int <= usize::MAX,
        k <= dims.len(),
        coords == Seq::new(dims.len(), |d: int| spec_unravel_index(seq![flat], dims)[d].data),
        forall|d: int| 0 <= d < dims.len() ==> #[trigger] stride(dims, d) <= i64::MAX,
    ensures
        ravel_sum(coords, dims, 0, k) == coord_sum(dims, flat as int, k),
    decreases k,
{
    if k > 0 {
        lemma_coord_sum_matches(dims, flat, coords, (k - 1) as nat);
        let d = k - 1;
        assert(coords[d].len() == 1);
        let c = unravel_coord(dims, flat as int, d);
        lemma_coord_bound(dims, flat as int, d);
        assert((flat as usize) as int == flat as int);
        assert(coords[d][0] == c as i64);
        assert((c as i64) as int == c);
    }
}

/// A coordinate lies between 0 and the flat index.
proof fn lemma_coord_bound(dims: Seq<usize>, flat: int, d: int)
    requires
        0 <= flat <= i64::MAX,
        0 <= d,
    ensures
        0 <= unravel_coord(dims, flat, d) <= flat,
{
    lemma_rem_bound(dims, flat, d as nat);
    let s = stride(dims, d);
    let r = unravel_rem(dims, flat, d as nat);
    assert(0 <= r / s <= r) by (nonlinear_arith)
        requires
            s >= 1,
            r >= 0,
    ;
}

proof fn lemma_rem_bound(dims: Seq<usize>, flat: int, d: nat)
    requires
        0 <= flat,
    ensures
        0 <= unravel_rem(dims, flat, d) <= flat,
    decreases d,
{
    if d > 0 {
        lemma_rem_bound(dims, flat, (d - 1) as nat);
        let s = stride(dims, d - 1);
        let r = unravel_rem(dims, flat, (d - 1) as nat);
        vstd::arithmetic::div_mod::lemma_mod_bound(r, s);
        vstd::arithmetic::div_mod::lemma_mod_decreases(r as nat, s as nat);
    }
}

// ---------------------------------------------------------------------
// indices
// ---------------------------------------------------------------------

/// Why `indices` fails.
#[derive(Clone, Copy, Debug, PartialEq, Eq, Structural)]
pub enum IndicesError {
    /// A shape with a zero dimension: the coordinates built do not fill the
    /// result's shape.
    EmptyShape,
}

/// The number of positions `indices` walks: the cells of the shape, at
/// least 1.
pub open spec fn walk_len(dims: Seq<usize>) -> nat {
    if shape_product(dims) == 0 { 1 } else { shape_product(dims) }
}

/// `indices` on models: for each axis `k`, the coordinate on `k` of every
/// position, stacked into an array of shape `(ndim, *shape)`.
pub open spec fn spec_indices(dims: Seq<usize>) -> Result<NdModel<i64>, IndicesError> {
    let nd = dims.len();
    let total = walk_len(dims);
    if shape_product(dims) == 0 && nd > 0 {
        Err(IndicesError::EmptyShape)
    } else {
        Ok(NdModel {
            shape: seq![nd as usize] + dims,
            data: Seq::new(nd * total, |t: int| unravel_coord(dims, t % (total as int), t / (total as int)) as i64),
        })
    }
}

/// `indices(shape)`: the coordinate grids of a shape, stacked.
pub fn indices(dims: &[usize]) -> (r: Result<NdArray<i64>, IndicesError>)
    requires
        strides_fit(dims@),
        partial_products_fit(dims@),
        dims@.len() * walk_len(dims@) <= usize::MAX,
        walk_len(dims@) <= i64::MAX,
    ensures
        match r {
            Ok(a) => spec_indices(dims@) == Ok::<NdModel<i64>, IndicesError>(a@) && crate::nd::nd_wf(a@),
            Err(e) => spec_indices(dims@) == Err::<NdModel<i64>, IndicesError>(e),
        },
{
    let nd = dims.len();
    let prod = element_count(dims);
    if prod == 0 && nd > 0 {
        return Err(IndicesError::EmptyShape);
    }
    let total: usize = if prod == 0 { 1 } else { prod };
    let strides = strides_exec(dims);
    let mut out: Vec<i64> = Vec::new();
    let mut k: usize = 0;
    while k < nd
        invariant
            k <= nd,
            nd == dims@.len(),
            total == walk_len(dims@),
            total <= i64::MAX,
            nd * total <= usize::MAX,
            strides@.len() == nd,
            forall|q: int| 0 <= q < nd ==> #[trigger] strides@[q] == stride(dims@, q),
            out@.len() == k * total,
            forall|t: int| 0 <= t < k * total ==> #[trigger] out@[t] == unravel_coord(dims@, t % (total as int), t / (total as int)) as i64,
        decreases nd - k,
    {
        assert((k + 1) * total <= nd * total) by (nonlinear_arith)
            requires
                k < nd,
        ;
        let mut f: usize = 0;
        while f < total
            invariant
                k < nd,
                f <= total,
                nd == dims@.len(),
                total == walk_len(dims@),
                total >= 1,
                total <= i64::MAX,
                (k + 1) * total <= usize::MAX,
                strides@.len() == nd,
                forall|q: int| 0 <= q < nd ==> #[trigger] strides@[q] == stride(dims@, q),
                out@.len() == k * total + f,
                forall|t: int| 0 <= t < k * total + f ==> #[trigger] out@[t] == unravel_coord(dims@, t % (total as int), t / (total as int)) as i64,
            decreases total - f,
        {
            let mut rem: usize = f;
            let mut d: usize = 0;
            while d < k
                invariant
                    d <= k < nd,
                    nd == dims@.len(),
                    strides@.len() == nd,
                    forall|q: int| 0 <= q < nd ==> #[trigger] strides@[q] == stride(dims@, q),
                    rem == unravel_rem(dims@, f as int, d as nat),
                decreases k - d,
            {
                assert(strides@[d as int] >= 1);
                rem = rem % strides[d];
                d = d + 1;
            }
            assert(strides@[k as int] >= 1);
            let c = rem / strides[k];
            proof {
                lemma_coord_bound_any(dims@, f as int, k as int);
                let t = k * total + f;
                assert(t % (total as int) == f as int && t / (total as int) == k as int) by (nonlinear_arith)
                    requires
                        t == k * total + f,
                        f < total,
                ;
                assert(k * total + f < (k + 1) * total) by (nonlinear_arith)
                    requires
                        f < total,
                ;
            }
            out.push(c as i64);
            f = f + 1;
        }
        assert(k * total + total == (k + 1) * total) by (nonlinear_arith);
        k = k + 1;
    }
    let mut shape: Vec<usize> = vec![nd];
    let mut q: usize = 0;
    while q < nd
        invariant
            q <= nd,
            nd == dims@.len(),
            shape@ == seq![nd] + dims@.take(q as int),
        decreases nd - q,
    {
        shape.push(dims[q]);
        q = q + 1;
        assert(shape@ =~= seq![nd] + dims@.take(q as int));
    }
    assert(dims@.take(nd as int) =~= dims@);
    let r = NdArray { shape, data: out };
    proof {
        crate::index::lemma_product_front(r@.shape);
        assert(r@.shape.drop_first() =~= dims@);
        if nd > 0 {
            assert(total == shape_product(dims@));
        } else {
            assert(dims@ =~= Seq::<usize>::empty());
            assert(nd * total == 0) by (nonlinear_arith)
                requires
                    nd == 0,
            ;
        }
    }
    assert(r@.data =~= spec_indices(dims@)->Ok_0.data);
    Ok(r)
}

/// A coordinate lies between 0 and the position walked.
proof fn lemma_coord_bound_any(dims: Seq<usize>, flat: int, d: int)
    requires
        0 <= flat,
        0 <= d,
    ensures
        0 <= unravel_coord(dims, flat, d) <= flat,
{
    lemma_rem_bound(dims, flat, d as nat);
    let s = stride(dims, d);
    let r = unravel_rem(dims, flat, d as nat);
    assert(0 <= r / s <= r) by (nonlinear_arith)
        requires
            s >= 1,
            r >= 0,
    ;
}

// ---------------------------------------------------------------------
// diag_indices / tril_indices / triu_indices
// ---------------------------------------------------------------------

/// `diag_indices(n, ndim)`: `ndim` copies of `0..n`, the coordinates of the
/// diagonal of an `n x n x ...` array.
pub fn diag_indices(n: usize, ndim: usize) -> (r: Vec<NdArray<i64>>)
    requires
        n <= i64::MAX,
    ensures
        r@.len() == ndim,
        forall|d: int| 0 <= d < ndim ==> (#[trigger] r@[d])@ == (NdModel {
            shape: seq![n],
            data: crate::random::range_seq(n as nat),
        }),
{
    let mut base: Vec<i64> = Vec::new();
    let mut i: usize = 0;
    while i < n
        invariant
            i <= n,
            n <= i64::MAX,
            base@ == crate::random::range_seq(i as nat),
        decreases n - i,
    {
        base.push(i as i64);
        i = i + 1;
        assert(base@ =~= crate::random::range_seq(i as nat));
    }
    let mut out: Vec<NdArray<i64>> = Vec::new();
    let mut d: usize = 0;
    while d < ndim
        invariant
            d <= ndim,
            base@ == crate::random::range_seq(n as nat),
            out@.len() == d,
            forall|q: int| 0 <= q < d ==> (#[trigger] out@[q])@ == (NdModel { shape: seq![n], data: crate::random::range_seq(n as nat) }),
        decreases ndim - d,
    {
        let a = NdArray { shape: vec![n], data: crate::nd::copy_vec(base.as_slice()) };
        assert(a@.shape =~= seq![n]);
        out.push(a);
        d = d + 1;
    }
    out
}

/// Cell `(r, c)` lies on or below diagonal `k` (`lower`) or on or above it.
pub open spec fn in_triangle(r: int, c: int, k: int, lower: bool) -> bool {
    if lower { c <= r + k } else { c >= r + k }
}

/// The mask of a triangle over an `n x cols` grid, in row-major order.
pub open spec fn triangle_mask(n: nat, cols: nat, k: int, lower: bool) -> Seq<bool> {
    Seq::new(n * cols, |p: int| in_triangle(p / (cols as int), p % (cols as int), k, lower))
}

/// `tril_indices` (`lower`) or `triu_indices` on models: the row and the
/// column coordinates of the cells of the triangle, in row-major order.
pub open spec fn spec_tri_indices(n: nat, cols: nat, k: int, lower: bool) -> (Seq<i64>, Seq<i64>) {
    let p = true_positions(triangle_mask(n, cols, k, lower));
    (
        Seq::new(p.len(), |t: int| (p[t] / (cols as int)) as i64),
        Seq::new(p.len(), |t: int| (p[t] % (cols as int)) as i64),
    )
}

/// `tril_indices(n, k, m)` (`lower`) or `triu_indices(n, k, m)`: the
/// coordinates of the lower (upper) triangle of an `n x m` grid from
/// diagonal `k`, as a row array and a column array.
pub fn tri_indices(n: usize, k: isize, m: Option<usize>, lower: bool) -> (r: (NdArray<i64>, NdArray<i64>))
    requires
        n <= i64::MAX,
        n <= isize::MAX,
        (match m { Some(c) => c, None => n }) <= isize::MAX,
        n + k <= isize::MAX,
        (match m { Some(c) => c, None => n }) <= i64::MAX,
        n * (match m { Some(c) => c, None => n }) <= usize::MAX,
    ensures
        ({
            let cols = match m { Some(c) => c, None => n };
            let s = spec_tri_indices(n as nat, cols as nat, k as int, lower);
            &&& r.0@ == (NdModel { shape: seq![s.0.len() as usize], data: s.0 })
            &&& r.1@ == (NdModel { shape: seq![s.1.len() as usize], data: s.1 })
        }),
{
    let cols = match m { Some(c) => c, None => n };
    let ghost mask = triangle_mask(n as nat, cols as nat, k as int, lower);
    let mut rows: Vec<i64> = Vec::new();
    let mut cs: Vec<i64> = Vec::new();
    let mut r: usize = 0;
    while r < n
        invariant
            r <= n,
            n <= i64::MAX,
            cols <= i64::MAX,
            n <= isize::MAX,
            cols <= isize::MAX,
            n + k <= isize::MAX,
            n * cols <= usize::MAX,
            mask == triangle_mask(n as nat, cols as nat, k as int, lower),
            rows@.len() == cs@.len(),
            rows@.len() == true_positions(mask.take(r * cols)).len(),
            forall|t: int| 0 <= t < rows@.len() ==> #[trigger] rows@[t] == (true_positions(mask.take(r * cols))[t] / (cols as int)) as i64,
            forall|t: int| 0 <= t < cs@.len() ==> #[trigger] cs@[t] == (true_positions(mask.take(r * cols))[t] % (cols as int)) as i64,
        decreases n - r,
    {
        assert((r + 1) * cols <= n * cols) by (nonlinear_arith)
            requires
                r < n,
        ;
        let mut c: usize = 0;
        while c < cols
            invariant
                r < n,
                c <= cols,
                n <= i64::MAX,
                cols <= i64::MAX,
                n <= isize::MAX,
                cols <= isize::MAX,
                n + k <= isize::MAX,
                (r + 1) * cols <= usize::MAX,
                (r + 1) * cols <= n * cols,
                mask == triangle_mask(n as nat, cols as nat, k as int, lower),
                rows@.len() == cs@.len(),
                rows@.len() == true_positions(mask.take(r * cols + c)).len(),
                forall|t: int| 0 <= t < rows@.len() ==> #[trigger] rows@[t] == (true_positions(mask.take(r * cols + c))[t] / (cols as int)) as i64,
                forall|t: int| 0 <= t < cs@.len() ==> #[trigger] cs@[t] == (true_positions(mask.take(r * cols + c))[t] % (cols as int)) as i64,
            decreases cols - c,
        {
            let ghost p = r * cols + c;
            assert(p < n * cols) by (nonlinear_arith)
                requires
                    p == r * cols + c,
                    c < cols,
                    (r + 1) * cols <= n * cols,
            ;
            assert(p / (cols as int) == r as int && p % (cols as int) == c as int) by (nonlinear_arith)
                requires
                    p == r * cols + c,
                    c < cols,
            ;
            assert(mask.take(p + 1).drop_last() =~= mask.take(p));
            assert(mask[p] == in_triangle(r as int, c as int, k as int, lower));
            let inside = if lower { (c as isize) <= r as isize + k } else { (c as isize) >= r as isize + k };
            assert(inside == mask[p]);
            assert(mask.take(p + 1).last() == mask[p]);
            if inside {
                rows.push(r as i64);
                cs.push(c as i64);
            }
            c = c + 1;
        }
        assert(r * cols + cols == (r + 1) * cols) by (nonlinear_arith);
        r = r + 1;
    }
    assert(mask.take(n * cols) =~= mask);
    let nr = rows.len();
    let a = NdArray { shape: vec![nr], data: rows };
    let b = NdArray { shape: vec![nr], data: cs };
    assert(a@.shape =~= seq![nr]);
    assert(b@.shape =~= seq![nr]);
    proof {
        let s = spec_tri_indices(n as nat, cols as nat, k as int, lower);
        assert(a@.data =~= s.0);
        assert(b@.data =~= s.1);
    }
    (a, b)
}

} // verus!
