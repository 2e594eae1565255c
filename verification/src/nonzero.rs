//! The positions of the nonzero elements: `flatnonzero` and `argwhere`.
use vstd::prelude::*;

use crate::index::{in_bounds, lemma_unflat_flat, unflat_index};
use crate::nd::{lemma_product_small, nd_wf, unflat_exec, NdArray, NdModel};

verus! {

/// The positions of the `true` entries of a mask, in increasing order.
pub open spec fn true_positions(m: Seq<bool>) -> Seq<int>
    decreases m.len(),
{
    if m.len() == 0 {
        Seq::empty()
    } else if m.last() {
        true_positions(m.drop_last()).push(m.len() - 1)
    } else {
        true_positions(m.drop_last())
    }
}

/// The true positions of a mask lie in it, in increasing order.
pub proof fn lemma_true_positions(m: Seq<bool>)
    ensures
        true_positions(m).len() <= m.len(),
        forall|t: int| 0 <= t < true_positions(m).len() ==> 0 <= #[trigger] true_positions(m)[t] < m.len() && m[true_positions(m)[t]],
        forall|s: int, t: int| 0 <= s < t < true_positions(m).len() ==> true_positions(m)[s] < true_positions(m)[t],
    decreases m.len(),
{
    if m.len() > 0 {
        lemma_true_positions(m.drop_last());
    }
}

/// `flatnonzero` on models: the flat positions of the nonzero (`true`)
/// elements, as a 1-D array.
pub open spec fn spec_flatnonzero(mask: Seq<bool>) -> NdModel<i64> {
    let p = true_positions(mask);
    NdModel { shape: seq![p.len() as usize], data: Seq::new(p.len(), |t: int| p[t] as i64) }
}

/// `flatnonzero(a)`: the flat positions of the nonzero elements of `a`,
/// given as its mask of nonzero elements.
pub fn flatnonzero(mask: &NdArray<bool>) -> (r: NdArray<i64>)
    requires
        mask.data@.len() <= i64::MAX,
    ensures
        r@ == spec_flatnonzero(mask.data@),
        nd_wf(r@),
{
    let n = mask.data.len();
    let mut out: Vec<i64> = Vec::new();
    let mut i: usize = 0;
    while i < n
        invariant
            i <= n,
            n == mask.data@.len(),
            n <= i64::MAX,
            out@ == Seq::new(true_positions(mask.data@.take(i as int)).len(), |t: int| true_positions(mask.data@.take(i as int))[t] as i64),
        decreases n - i,
    {
        assert(mask.data@.take(i + 1).drop_last() =~= mask.data@.take(i as int));
        if mask.data[i] {
            out.push(i as i64);
        }
        i = i + 1;
        assert(out@ =~= Seq::new(true_positions(mask.data@.take(i as int)).len(), |t: int| true_positions(mask.data@.take(i as int))[t] as i64));
    }
    assert(mask.data@.take(n as int) =~= mask.data@);
    let k = out.len();
    proof {
        lemma_product_small(k, 1, 1);
    }
    let r = NdArray { shape: vec![k], data: out };
    assert(r@.shape =~= seq![k]);
    r
}

/// The row `argwhere` gives for flat position `p` of an array of shape `s`:
/// its multi-index (a single 0 for a 0-d array).
pub open spec fn argwhere_row(s: Seq<usize>, p: int) -> Seq<usize> {
    if s.len() == 0 { seq![0usize] } else { unflat_index(s, p) }
}

/// The number of columns of `argwhere`: the rank, at least 1.
pub open spec fn argwhere_width(s: Seq<usize>) -> nat {
    if s.len() == 0 { 1 } else { s.len() }
}

/// `argwhere` on models: one row per nonzero element, in flat order,
/// holding its multi-index.
pub open spec fn spec_argwhere(mask: NdModel<bool>) -> NdModel<i64> {
    let p = true_positions(mask.data);
    let w = argwhere_width(mask.shape);
    NdModel {
        shape: seq![p.len() as usize, w as usize],
        data: Seq::new(p.len() * w, |t: int| argwhere_row(mask.shape, p[t / (w as int)])[t % (w as int)] as i64),
    }
}

/// `argwhere(a)`: the multi-indices of the nonzero elements of `a`, given
/// as its mask of nonzero elements, one row each.
pub fn argwhere(mask: &NdArray<bool>) -> (r: NdArray<i64>)
    requires
        nd_wf(mask@),
        mask.data@.len() * argwhere_width(mask.shape@) <= usize::MAX,
        forall|i: int| 0 <= i < mask.shape@.len() ==> #[trigger] mask.shape@[i] <= i64::MAX,
    ensures
        r@ == spec_argwhere(mask@),
        nd_wf(r@),
{
    let n = mask.data.len();
    let nd = mask.shape.len();
    let w: usize = if nd == 0 { 1 } else { nd };
    let ghost p = true_positions(mask.data@);
    proof {
        lemma_true_positions(mask.data@);
    }
    let mut out: Vec<i64> = Vec::new();
    let mut rows: usize = 0;
    let mut i: usize = 0;
    while i < n
        invariant
            i <= n,
            n == mask.data@.len(),
            nd_wf(mask@),
            nd == mask.shape@.len(),
            w == argwhere_width(mask.shape@),
            n * w <= usize::MAX,
            forall|q: int| 0 <= q < mask.shape@.len() ==> #[trigger] mask.shape@[q] <= i64::MAX,
            rows == true_positions(mask.data@.take(i as int)).len(),
            rows <= i,
            out@.len() == rows * w,
            forall|t: int| 0 <= t < rows * w ==> #[trigger] out@[t] == argwhere_row(
                mask.shape@,
                true_positions(mask.data@.take(i as int))[t / (w as int)],
            )[t % (w as int)] as i64,
        decreases n - i,
    {
        let ghost tp = true_positions(mask.data@.take(i as int));
        assert(mask.data@.take(i + 1).drop_last() =~= mask.data@.take(i as int));
        if mask.data[i] {
            let ghost row = argwhere_row(mask.shape@, i as int);
            assert((rows + 1) * w <= n * w) by (nonlinear_arith)
                requires
                    rows + 1 <= n,
            ;
            if nd == 0 {
                out.push(0);
                assert(row =~= seq![0usize]);
            } else {
                let u = unflat_exec(mask.shape.as_slice(), i);
                proof {
                    lemma_unflat_flat(mask.shape@, i as int);
                }
                let mut c: usize = 0;
                while c < nd
                    invariant
                        c <= nd,
                        nd == mask.shape@.len(),
                        nd > 0,
                        w == nd,
                        u@ == unflat_index(mask.shape@, i as int),
                        in_bounds(mask.shape@, u@),
                        forall|q: int| 0 <= q < mask.shape@.len() ==> #[trigger] mask.shape@[q] <= i64::MAX,
                        (rows + 1) * w <= usize::MAX,
                        out@.len() == rows * w + c,
                        forall|t: int| 0 <= t < rows * w ==> #[trigger] out@[t] == argwhere_row(mask.shape@, tp[t / (w as int)])[t % (w as int)] as i64,
                        forall|t: int| 0 <= t < c ==> #[trigger] out@[rows * w + t] == u@[t] as i64,
                    decreases nd - c,
                {
                    assert(u@[c as int] < mask.shape@[c as int]);
                    out.push(u[c] as i64);
                    assert(rows * w + c < (rows + 1) * w) by (nonlinear_arith)
                        requires
                            c < w,
                    ;
                    c = c + 1;
                }
            }
            assert((rows + 1) * w == rows * w + w) by (nonlinear_arith);
            let ghost tp2 = true_positions(mask.data@.take(i + 1));
            assert(tp2 == tp.push(i as int));
            assert forall|t: int| 0 <= t < (rows + 1) * w implies #[trigger] out@[t] == argwhere_row(mask.shape@, tp2[t / (w as int)])[t % (w as int)] as i64 by {
                if t < rows * w {
                    assert(t / (w as int) < rows) by (nonlinear_arith)
                        requires
                            t < rows * w,
                            w > 0,
                            t >= 0,
                    ;
                } else {
                    let c = t - rows * w;
                    assert((rows + 1) * w == rows * w + w) by (nonlinear_arith);
                    assert(0 <= c < w);
                    assert(t / (w as int) == rows && t % (w as int) == c) by (nonlinear_arith)
                        requires
                            t == rows * w + c,
                            0 <= c < w,
                    ;
                }
            }
            rows = rows + 1;
        }
        i = i + 1;
    }
    assert(mask.data@.take(n as int) =~= mask.data@);
    proof {
        lemma_product_small(rows, w, 1);
    }
    let r = NdArray { shape: vec![rows, w], data: out };
    assert(r@.shape =~= seq![rows, w]);
    assert(r@.data =~= spec_argwhere(mask@).data);
    r
}

} // verus!
