//! Arrays of strings: `concatenate` for string elements, which are moved by
//! cloning rather than copying. The arrays are joined as the positions of
//! their elements, and each position is then read back.
use vstd::prelude::*;

use crate::nd::{
    concatenate, copy_vec, agrees_off_axis, axis_sum, concat_row, concat_rows, inner_count, lemma_counts_agree, lemma_product_around_axis,
    models, nd_wf, outer_block, outer_count, partial_products_fit, shapes_agree, spec_concatenate, ArrayError, NdArray,
    NdModel,
};

verus! {

/// Each array with `g` applied to every element.
pub open spec fn map_models<A, B>(arrs: Seq<NdModel<A>>, g: spec_fn(A) -> B) -> Seq<NdModel<B>> {
    Seq::new(arrs.len(), |i: int| NdModel { shape: arrs[i].shape, data: arrs[i].data.map_values(g) })
}

proof fn lemma_axis_sum_map<A, B>(arrs: Seq<NdModel<A>>, axis: int, g: spec_fn(A) -> B, k: nat)
    requires
        k <= arrs.len(),
    ensures
        axis_sum(map_models(arrs, g), axis, k) == axis_sum(arrs, axis, k),
    decreases k,
{
    if k > 0 {
        lemma_axis_sum_map(arrs, axis, g, (k - 1) as nat);
    }
}

proof fn lemma_row_map<A, B>(arrs: Seq<NdModel<A>>, axis: int, inner: nat, o: int, g: spec_fn(A) -> B, k: nat)
    requires
        k <= arrs.len(),
        0 <= o,
        forall|i: int| 0 <= i < k ==> (o + 1) * (arrs[i].shape[axis] * inner) <= #[trigger] arrs[i].data.len(),
    ensures
        concat_row(map_models(arrs, g), axis, inner, o, k) == concat_row(arrs, axis, inner, o, k).map_values(g),
    decreases k,
{
    if k > 0 {
        lemma_row_map(arrs, axis, inner, o, g, (k - 1) as nat);
        let a = arrs[k - 1];
        let b = a.shape[axis] * inner;
        assert(0 <= o * b && o * b + b == (o + 1) * b) by (nonlinear_arith)
            requires
                0 <= o,
                b >= 0,
        ;
        assert(outer_block(map_models(arrs, g)[k - 1], axis, inner, o) =~= outer_block(a, axis, inner, o).map_values(g));
        let x = concat_row(arrs, axis, inner, o, (k - 1) as nat);
        let y = outer_block(a, axis, inner, o);
        assert((x + y).map_values(g) =~= x.map_values(g) + y.map_values(g));
    }
}

proof fn lemma_rows_map<A, B>(arrs: Seq<NdModel<A>>, axis: int, inner: nat, outer: nat, g: spec_fn(A) -> B, n: nat)
    requires
        n <= outer,
        forall|i: int| 0 <= i < arrs.len() ==> outer * (arrs[i].shape[axis] * inner) <= #[trigger] arrs[i].data.len(),
    ensures
        concat_rows(map_models(arrs, g), axis, inner, n) == concat_rows(arrs, axis, inner, n).map_values(g),
    decreases n,
{
    if n > 0 {
        lemma_rows_map(arrs, axis, inner, outer, g, (n - 1) as nat);
        assert forall|i: int| 0 <= i < arrs.len() implies ((n - 1) + 1) * (arrs[i].shape[axis] * inner)
            <= #[trigger] arrs[i].data.len() by {
            let b = arrs[i].shape[axis] * inner;
            assert(n * b <= outer * b) by (nonlinear_arith)
                requires
                    n <= outer,
                    b >= 0,
            ;
        }
        lemma_row_map(arrs, axis, inner, n - 1, g, arrs.len());
        let x = concat_rows(arrs, axis, inner, (n - 1) as nat);
        let y = concat_row(arrs, axis, inner, n - 1, arrs.len());
        assert((x + y).map_values(g) =~= x.map_values(g) + y.map_values(g));
    }
}

/// Joining arrays and then applying `g` to every element is joining the
/// arrays with `g` applied: the shape, and any refusal, are the same.
pub proof fn lemma_concat_map<A, B>(arrs: Seq<NdModel<A>>, axis: int, g: spec_fn(A) -> B)
    requires
        0 <= axis,
        forall|i: int| 0 <= i < arrs.len() ==> nd_wf(#[trigger] arrs[i]),
    ensures
        spec_concatenate(map_models(arrs, g), axis) == match spec_concatenate(arrs, axis) {
            Ok(m) => Ok::<NdModel<B>, ArrayError>(NdModel { shape: m.shape, data: m.data.map_values(g) }),
            Err(e) => Err::<NdModel<B>, ArrayError>(e),
        },
{
    let ms = map_models(arrs, g);
    assert(shapes_agree(ms, axis) == shapes_agree(arrs, axis)) by {
        assert forall|i: int| 0 <= i < arrs.len() implies ms[i].shape == arrs[i].shape by {}
    }
    if arrs.len() > 0 && axis < arrs[0].shape.len() && shapes_agree(arrs, axis) {
        let s0 = arrs[0].shape;
        let inner = inner_count(s0, axis);
        let outer = outer_count(s0, axis);
        lemma_axis_sum_map(arrs, axis, g, arrs.len());
        assert forall|i: int| 0 <= i < arrs.len() implies outer * (arrs[i].shape[axis] * inner)
            <= #[trigger] arrs[i].data.len() by {
            assert(agrees_off_axis(arrs[i].shape, s0, axis));
            lemma_counts_agree(arrs[i].shape, s0, axis);
            lemma_product_around_axis(arrs[i].shape, axis);
        }
        lemma_rows_map(arrs, axis, inner, outer, g, outer);
    }
}

/// Array `q` with each element replaced by its position `(q, j)`.
pub open spec fn position_model(arrays: Seq<NdArray<String>>, q: int) -> NdModel<(usize, usize)> {
    NdModel {
        shape: arrays[q]@.shape,
        data: Seq::new(arrays[q]@.data.len(), |j: int| (q as usize, j as usize)),
    }
}

/// The arrays with their elements replaced by positions.
pub open spec fn position_models(arrays: Seq<NdArray<String>>) -> Seq<NdModel<(usize, usize)>> {
    Seq::new(arrays.len(), |q: int| position_model(arrays, q))
}

/// `concatenate` of string arrays: the arrays joined along `axis`, in
/// order, as for arrays of any element type.
pub fn concatenate_strings(arrays: &[NdArray<String>], axis: usize) -> (r: Result<NdArray<String>, ArrayError>)
    requires
        forall|i: int| 0 <= i < arrays@.len() ==> nd_wf(#[trigger] arrays@[i]@),
        arrays@.len() > 0 ==> partial_products_fit(arrays@[0].shape@),
        arrays@.len() > 0 && axis < arrays@[0].shape@.len() ==> partial_products_fit(arrays@[0].shape@.skip(axis + 1)),
        spec_concatenate(models(arrays@), axis as int) matches Ok(m) ==> (partial_products_fit(m.shape) && axis_sum(
            models(arrays@),
            axis as int,
            arrays@.len(),
        ) <= usize::MAX),
    ensures
        match r {
            Ok(v) => spec_concatenate(models(arrays@), axis as int) == Ok::<NdModel<String>, ArrayError>(v@) && nd_wf(v@),
            Err(e) => spec_concatenate(models(arrays@), axis as int) == Err::<NdModel<String>, ArrayError>(e),
        },
{
    let n = arrays.len();
    let ghost arrs = arrays@;
    let mut pos: Vec<NdArray<(usize, usize)>> = Vec::new();
    let mut q: usize = 0;
    while q < n
        invariant
            q <= n,
            n == arrs.len(),
            arrs == arrays@,
            pos@.len() == q,
            forall|t: int| 0 <= t < q ==> #[trigger] pos@[t]@ == position_model(arrs, t),
            forall|t: int| 0 <= t < q ==> #[trigger] arrs[t]@.data.len() <= usize::MAX,
        decreases n - q,
    {
        let len = arrays[q].data.len();
        let mut data: Vec<(usize, usize)> = Vec::new();
        let mut j: usize = 0;
        while j < len
            invariant
                j <= len,
                q < n,
                n == arrs.len(),
                arrs == arrays@,
                len == arrs[q as int]@.data.len(),
                data@ == Seq::new(j as nat, |t: int| (q, t as usize)),
            decreases len - j,
        {
            data.push((q, j));
            j = j + 1;
            assert(data@ =~= Seq::new(j as nat, |t: int| (q, t as usize)));
        }
        let a = NdArray { shape: copy_vec(arrays[q].shape.as_slice()), data };
        assert(a@ =~= position_model(arrs, q as int));
        pos.push(a);
        q = q + 1;
    }
    let ghost pm = position_models(arrs);
    assert(models(pos@) =~= pm);
    let ghost g1 = |p: (usize, usize)| arrs[p.0 as int]@.data[p.1 as int];
    let ghost g2 = |p: (usize, usize)| p.0 < arrs.len() && p.1 < arrs[p.0 as int]@.data.len();
    let ghost g3 = |p: (usize, usize)| true;
    proof {
        assert forall|i: int| 0 <= i < pm.len() implies nd_wf(#[trigger] pm[i]) by {
            assert(nd_wf(arrs[i]@));
        }
        assert(map_models(pm, g1) =~= models(arrs)) by {
            assert forall|i: int| 0 <= i < pm.len() implies #[trigger] map_models(pm, g1)[i] == models(arrs)[i] by {
                assert forall|j: int| 0 <= j < arrs[i]@.data.len() implies #[trigger] map_models(pm, g1)[i].data[j]
                    == arrs[i]@.data[j] by {
                    assert(pm[i].data[j] == (i as usize, j as usize));
                }
                assert(map_models(pm, g1)[i].data =~= arrs[i]@.data);
            }
        }
        assert(map_models(pm, g2) =~= map_models(pm, g3)) by {
            assert forall|i: int| 0 <= i < pm.len() implies #[trigger] map_models(pm, g2)[i] == map_models(pm, g3)[i] by {
                assert(map_models(pm, g2)[i].data =~= map_models(pm, g3)[i].data);
            }
        }
        lemma_concat_map(pm, axis as int, g1);
        lemma_axis_sum_map(pm, axis as int, g1, pm.len());
        lemma_concat_map(pm, axis as int, g2);
        lemma_concat_map(pm, axis as int, g3);
        assert forall|i: int| 0 <= i < pos@.len() implies nd_wf(#[trigger] pos@[i]@) by {
            assert(pos@[i]@ == pm[i]);
        }
        if n > 0 {
            assert(pos@[0]@ == pm[0]);
        }
    }
    let m = match concatenate(pos.as_slice(), axis) {
        Err(e) => return Err(e),
        Ok(m) => m,
    };
    assert(m.data@.map_values(g2) == m.data@.map_values(g3));
    let total = m.data.len();
    let mut out: Vec<String> = Vec::new();
    let mut f: usize = 0;
    while f < total
        invariant
            f <= total,
            total == m.data@.len(),
            arrs == arrays@,
            m.data@.map_values(g2) == m.data@.map_values(g3),
            g1 == (|p: (usize, usize)| arrs[p.0 as int]@.data[p.1 as int]),
            g2 == (|p: (usize, usize)| p.0 < arrs.len() && p.1 < arrs[p.0 as int]@.data.len()),
            g3 == (|p: (usize, usize)| true),
            out@.len() == f,
            forall|t: int| 0 <= t < f ==> #[trigger] out@[t] == g1(m.data@[t]),
        decreases total - f,
    {
        let (i, j) = m.data[f];
        assert(g2(m.data@[f as int]) == m.data@.map_values(g2)[f as int]);
        assert(m.data@.map_values(g3)[f as int] == true);
        let s = arrays[i].data[j].clone();
        out.push(s);
        f = f + 1;
    }
    let r = NdArray { shape: m.shape, data: out };
    assert(r@.data =~= m.data@.map_values(g1));
    Ok(r)
}

} // verus!
