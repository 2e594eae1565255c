//! Row-major index algebra: the flat position of a multi-index and the
//! multi-index of a flat position.
use vstd::prelude::*;

use crate::npy::shape_product;

verus! {

/// Every coordinate lies below its dimension.
pub open spec fn in_bounds(shape: Seq<usize>, idx: Seq<usize>) -> bool {
    &&& idx.len() == shape.len()
    &&& forall|i: int| 0 <= i < shape.len() ==> #[trigger] idx[i] < shape[i]
}

/// Row-major (C order) flat position of a multi-index.
pub open spec fn flat_index(shape: Seq<usize>, idx: Seq<usize>) -> int
    decreases shape.len(),
{
    if shape.len() == 0 {
        0
    } else {
        flat_index(shape.drop_last(), idx.drop_last()) * (shape.last() as int) + (idx.last() as int)
    }
}

/// Multi-index of a row-major flat position.
pub open spec fn unflat_index(shape: Seq<usize>, f: int) -> Seq<usize>
    decreases shape.len(),
{
    if shape.len() == 0 {
        Seq::empty()
    } else {
        unflat_index(shape.drop_last(), f / (shape.last() as int)).push((f % (shape.last() as int)) as usize)
    }
}

/// The flat position of an in-bounds multi-index lies in the array.
pub proof fn lemma_flat_bound(shape: Seq<usize>, idx: Seq<usize>)
    requires
        in_bounds(shape, idx),
    ensures
        0 <= flat_index(shape, idx) < shape_product(shape),
    decreases shape.len(),
{
    if shape.len() > 0 {
        let s = shape.drop_last();
        let i = idx.drop_last();
        assert(in_bounds(s, i)) by {
            assert forall|k: int| 0 <= k < s.len() implies #[trigger] i[k] < s[k] by {
                assert(idx[k] < shape[k]);
            }
        }
        lemma_flat_bound(s, i);
        let f = flat_index(s, i);
        let p = shape_product(s) as int;
        let l = shape.last() as int;
        let x = idx.last() as int;
        assert(idx[idx.len() - 1] < shape[shape.len() - 1]);
        assert(0 <= f * l + x < p * l) by (nonlinear_arith)
            requires
                0 <= f < p,
                0 <= x < l,
        ;
    }
}

/// Dimensions of a non-empty array are all non-zero.
pub proof fn lemma_product_positive(shape: Seq<usize>)
    requires
        shape_product(shape) > 0,
    ensures
        forall|i: int| 0 <= i < shape.len() ==> #[trigger] shape[i] > 0,
    decreases shape.len(),
{
    if shape.len() > 0 {
        let s = shape.drop_last();
        let l = shape.last() as int;
        let p = shape_product(s) as int;
        assert(p > 0 && l > 0) by (nonlinear_arith)
            requires
                p * l > 0,
                p >= 0,
                l >= 0,
        ;
        lemma_product_positive(s);
        assert forall|i: int| 0 <= i < shape.len() implies #[trigger] shape[i] > 0 by {
            if i < shape.len() - 1 {
                assert(s[i] == shape[i]);
            }
        }
    }
}

/// The product of a prefix of a non-empty shape is at most the whole product.
pub proof fn lemma_prefix_product(shape: Seq<usize>, k: int)
    requires
        0 <= k <= shape.len(),
        shape_product(shape) > 0,
    ensures
        0 < shape_product(shape.take(k)) <= shape_product(shape),
    decreases shape.len() - k,
{
    lemma_product_positive(shape);
    if k < shape.len() {
        lemma_prefix_product(shape, k + 1);
        let t = shape.take(k + 1);
        assert(t.drop_last() =~= shape.take(k));
        let p = shape_product(shape.take(k)) as int;
        let l = shape[k] as int;
        assert(t.last() == shape[k]);
        assert(shape_product(t) == p * l);
        assert(0 < p <= p * l) by (nonlinear_arith)
            requires
                p >= 0,
                l >= 1,
                p * l > 0,
        ;
    } else {
        assert(shape.take(k) =~= shape);
    }
}

/// The multi-index of a position inside the array is in bounds, and its flat
/// position is that position.
pub proof fn lemma_unflat_flat(shape: Seq<usize>, f: int)
    requires
        0 <= f < shape_product(shape),
    ensures
        in_bounds(shape, unflat_index(shape, f)),
        flat_index(shape, unflat_index(shape, f)) == f,
    decreases shape.len(),
{
    if shape.len() > 0 {
        let s = shape.drop_last();
        let l = shape.last() as int;
        let p = shape_product(s) as int;
        assert(l > 0 && p > 0) by (nonlinear_arith)
            requires
                p * l > f,
                f >= 0,
                p >= 0,
                l >= 0,
        ;
        let q = f / l;
        let r = f % l;
        assert(0 <= q < p && 0 <= r < l && q * l + r == f) by (nonlinear_arith)
            requires
                0 <= f < p * l,
                l > 0,
                q == f / l,
                r == f % l,
        ;
        lemma_unflat_flat(s, q);
        let u = unflat_index(shape, f);
        assert(u.drop_last() =~= unflat_index(s, q));
        assert forall|i: int| 0 <= i < shape.len() implies #[trigger] u[i] < shape[i] by {
            if i < shape.len() - 1 {
                assert(u[i] == unflat_index(s, q)[i]);
                assert(s[i] == shape[i]);
            }
        }
    }
}

/// The multi-index of the flat position of an in-bounds multi-index is that
/// multi-index.
pub proof fn lemma_flat_unflat(shape: Seq<usize>, idx: Seq<usize>)
    requires
        in_bounds(shape, idx),
    ensures
        unflat_index(shape, flat_index(shape, idx)) == idx,
    decreases shape.len(),
{
    if shape.len() > 0 {
        let s = shape.drop_last();
        let i = idx.drop_last();
        assert(in_bounds(s, i)) by {
            assert forall|k: int| 0 <= k < s.len() implies #[trigger] i[k] < s[k] by {
                assert(idx[k] < shape[k]);
            }
        }
        lemma_flat_unflat(s, i);
        lemma_flat_bound(s, i);
        let f = flat_index(s, i);
        let l = shape.last() as int;
        let x = idx.last() as int;
        assert(idx[idx.len() - 1] < shape[shape.len() - 1]);
        assert((f * l + x) / l == f && (f * l + x) % l == x) by (nonlinear_arith)
            requires
                0 <= x < l,
                0 <= f,
        ;
        assert(unflat_index(shape, f * l + x) =~= idx);
    }
}

/// Two in-bounds multi-indices with the same flat position are equal.
pub proof fn lemma_flat_injective(shape: Seq<usize>, a: Seq<usize>, b: Seq<usize>)
    requires
        in_bounds(shape, a),
        in_bounds(shape, b),
        flat_index(shape, a) == flat_index(shape, b),
    ensures
        a == b,
{
    lemma_flat_unflat(shape, a);
    lemma_flat_unflat(shape, b);
}

/// Reversing the axes keeps a multi-index in bounds of the reversed shape.
pub proof fn lemma_reverse_in_bounds(shape: Seq<usize>, idx: Seq<usize>)
    requires
        in_bounds(shape, idx),
    ensures
        in_bounds(shape.reverse(), idx.reverse()),
{
    assert forall|i: int| 0 <= i < shape.len() implies #[trigger] idx.reverse()[i] < shape.reverse()[i] by {
        assert(idx[shape.len() - 1 - i] < shape[shape.len() - 1 - i]);
    }
}

/// The product of a shape does not depend on the order of its dimensions
/// when reversed.
pub proof fn lemma_product_reverse(shape: Seq<usize>)
    ensures
        shape_product(shape.reverse()) == shape_product(shape),
    decreases shape.len(),
{
    if shape.len() > 0 {
        let s = shape.drop_last();
        lemma_product_reverse(s);
        // reverse(shape) = [last] + reverse(s); peel the product from the front
        lemma_product_front(shape.reverse());
        assert(shape.reverse().drop_first() =~= s.reverse());
        assert(shape.reverse()[0] == shape.last());
        let p = shape_product(s) as int;
        let l = shape.last() as int;
        assert(l * p == p * l) by (nonlinear_arith);
    }
}

/// The product of a shape taken from its first dimension.
pub proof fn lemma_product_front(shape: Seq<usize>)
    requires
        shape.len() > 0,
    ensures
        shape_product(shape) == (shape[0] as int) * shape_product(shape.drop_first()),
    decreases shape.len(),
{
    if shape.len() > 1 {
        let s = shape.drop_last();
        lemma_product_front(s);
        assert(s.drop_first() =~= shape.drop_first().drop_last());
        assert(shape.drop_first().last() == shape.last());
        let a = shape[0] as int;
        let b = shape_product(s.drop_first()) as int;
        let l = shape.last() as int;
        assert(s[0] == shape[0]);
        assert(shape_product(s) == a * b);
        assert(shape_product(shape) == shape_product(s) * l);
        assert(shape_product(shape.drop_first()) == shape_product(shape.drop_first().drop_last()) * l);
        assert((a * b) * l == a * (b * l)) by (nonlinear_arith);
        assert(shape_product(shape) == (shape[0] as int) * shape_product(shape.drop_first()));
    } else {
        assert(shape.drop_last() =~= Seq::<usize>::empty());
        assert(shape.drop_first() =~= Seq::<usize>::empty());
        assert(shape_product(shape) == shape_product(shape.drop_last()) * (shape.last() as nat));
        assert(shape.last() == shape[0]);
        assert(shape_product(shape.drop_first()) == 1);
        assert(shape_product(shape.drop_last()) == 1);
        let l = shape.last() as int;
        let p = shape_product(shape.drop_last()) as int;
        let q = shape_product(shape.drop_first()) as int;
        assert(p * l == l * q) by (nonlinear_arith)
            requires
                p == 1,
                q == 1,
        ;
    }
}

/// The product of a shape splits at any axis into the products before and
/// from it.
pub proof fn lemma_product_split(shape: Seq<usize>, k: int)
    requires
        0 <= k <= shape.len(),
    ensures
        shape_product(shape) == shape_product(shape.take(k)) * shape_product(shape.skip(k)),
    decreases shape.len(),
{
    if k == shape.len() {
        assert(shape.take(k) =~= shape);
        assert(shape.skip(k) =~= Seq::<usize>::empty());
        let p = shape_product(shape) as int;
        assert(p * 1 == p) by (nonlinear_arith);
    } else {
        let d = shape.drop_last();
        lemma_product_split(d, k);
        assert(d.take(k) =~= shape.take(k));
        assert(shape.skip(k).drop_last() =~= d.skip(k));
        assert(shape.skip(k).last() == shape.last());
        let a = shape_product(shape.take(k)) as int;
        let b = shape_product(d.skip(k)) as int;
        let l = shape.last() as int;
        assert(shape_product(shape.skip(k)) == b * l);
        assert(shape_product(shape) == shape_product(d) * l);
        assert((a * b) * l == a * (b * l)) by (nonlinear_arith);
    }
}

} // verus!
