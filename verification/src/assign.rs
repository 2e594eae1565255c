//! Arrays of one repeated value and assignments into arrays: `full`,
//! `full_like`, `a.fill(value)`, `copyto(dst, src)`, and `a.take(indices)`
//! on the flattened elements.
use vstd::prelude::*;

use crate::nd::{copy_vec, nd_wf, partial_products_fit, ArrayError, NdArray, NdModel};
use crate::npy::{element_count, shape_product};
use crate::tiling::{broadcast_to, spec_broadcast_to};

verus! {

/// `n` copies of `v`.
fn repeated<T: Copy>(v: T, n: usize) -> (r: Vec<T>)
    ensures
        r@ == Seq::new(n as nat, |i: int| v),
{
    let mut r: Vec<T> = Vec::new();
    let mut i: usize = 0;
    while i < n
        invariant
            i <= n,
            r@ == Seq::new(i as nat, |k: int| v),
        decreases n - i,
    {
        r.push(v);
        i = i + 1;
        assert(r@ =~= Seq::new(i as nat, |k: int| v));
    }
    r
}

/// `full(shape, value)`: an array of the shape with every element `value`.
pub fn full<T: Copy>(shape: &[usize], value: T) -> (r: NdArray<T>)
    requires
        partial_products_fit(shape@),
    ensures
        r@ == (NdModel { shape: shape@, data: Seq::new(shape_product(shape@), |i: int| value) }),
        nd_wf(r@),
{
    let n = element_count(shape);
    NdArray { shape: copy_vec(shape), data: repeated(value, n) }
}

/// `full_like(a, value)`: an array of `a`'s shape with every element
/// `value`.
pub fn full_like<T: Copy, U>(a: &NdArray<U>, value: T) -> (r: NdArray<T>)
    requires
        nd_wf(a@),
    ensures
        r@ == (NdModel { shape: a@.shape, data: Seq::new(a@.data.len(), |i: int| value) }),
        nd_wf(r@),
{
    NdArray { shape: copy_vec(a.shape.as_slice()), data: repeated(value, a.data.len()) }
}

/// `a.fill(value)`: a 0-d `value` is written into every element; any other
/// `value` takes the array's place.
pub fn fill<T: Copy>(a: &mut NdArray<T>, value: &NdArray<T>)
    requires
        nd_wf(old(a)@),
        nd_wf(value@),
    ensures
        value@.shape.len() == 0 ==> final(a)@ == (NdModel {
            shape: old(a)@.shape,
            data: Seq::new(old(a)@.data.len(), |i: int| value@.data[0]),
        }),
        value@.shape.len() != 0 ==> final(a)@ == value@,
        nd_wf(final(a)@),
{
    if value.shape.len() == 0 {
        assert(value@.data.len() == 1);
        let v = value.data[0];
        let n = a.data.len();
        a.data = repeated(v, n);
    } else {
        a.shape = copy_vec(value.shape.as_slice());
        a.data = copy_vec(value.data.as_slice());
    }
}

/// `copyto(dst, src)`: `src` broadcast to `dst`'s shape takes `dst`'s
/// place; a `src` that does not broadcast to it leaves `dst` as it was.
pub fn copyto<T: Copy>(dst: &mut NdArray<T>, src: &NdArray<T>) -> (r: Result<(), ArrayError>)
    requires
        nd_wf(old(dst)@),
        nd_wf(src@),
        partial_products_fit(old(dst)@.shape),
    ensures
        match r {
            Ok(_) => spec_broadcast_to(src@, old(dst)@.shape) == Ok::<NdModel<T>, ArrayError>(final(dst)@),
            Err(e) => spec_broadcast_to(src@, old(dst)@.shape) == Err::<NdModel<T>, ArrayError>(e) && final(dst)@
                == old(dst)@,
        },
{
    match broadcast_to(src, dst.shape.as_slice()) {
        Ok(b) => {
            *dst = b;
            Ok(())
        },
        Err(e) => Err(e),
    }
}

/// Why `take` refuses an index.
#[derive(Clone, Copy, Debug, PartialEq, Eq, Structural)]
pub enum TakeIndexError {
    /// The index lies outside `-n..n` for `n` elements.
    OutOfBounds(i64),
}

/// The element position an index names among `n` elements (negative ones
/// count from the end), if any.
pub open spec fn flat_position(i: i64, n: nat) -> Option<int> {
    let p = if i < 0 { i + n } else { i as int };
    if 0 <= p < n { Some(p) } else { None }
}

/// `take` on models: the flattened elements at the indices, or the first
/// index that names none.
pub open spec fn spec_take<T>(a: NdModel<T>, idx: Seq<i64>) -> Result<NdModel<T>, TakeIndexError> {
    let n = a.data.len();
    if exists|k: int| 0 <= k < idx.len() && #[trigger] flat_position(idx[k], n) is None {
        let k = choose|k: int| 0 <= k < idx.len() && #[trigger] flat_position(idx[k], n) is None && forall|j: int|
            0 <= j < k ==> #[trigger] flat_position(idx[j], n) is Some;
        Err(TakeIndexError::OutOfBounds(idx[k]))
    } else {
        Ok(NdModel {
            shape: seq![idx.len() as usize],
            data: Seq::new(idx.len(), |k: int| a.data[flat_position(idx[k], n)->Some_0]),
        })
    }
}

/// `a.take(indices)`: the elements of the flattened array at the indices
/// (negative ones counting from the end), as a 1-d array; refused at the
/// first index outside the array.
pub fn take<T: Copy>(a: &NdArray<T>, indices: &[i64]) -> (r: Result<NdArray<T>, TakeIndexError>)
    requires
        a.data@.len() <= i64::MAX,
    ensures
        match r {
            Ok(b) => spec_take(a@, indices@) == Ok::<NdModel<T>, TakeIndexError>(b@) && nd_wf(b@),
            Err(e) => spec_take(a@, indices@) == Err::<NdModel<T>, TakeIndexError>(e),
        },
{
    let n = a.data.len();
    let ghost nn = n as nat;
    let mut out: Vec<T> = Vec::new();
    let mut k: usize = 0;
    while k < indices.len()
        invariant
            k <= indices@.len(),
            n == a.data@.len(),
            nn == n,
            n <= i64::MAX,
            out@.len() == k,
            forall|j: int| 0 <= j < k ==> #[trigger] flat_position(indices@[j], nn) is Some,
            forall|j: int| 0 <= j < k ==> #[trigger] out@[j] == a.data@[flat_position(indices@[j], nn)->Some_0],
        decreases indices.len() - k,
    {
        let i = indices[k];
        let p: i64 = if i < 0 { i + n as i64 } else { i };
        if p < 0 || p >= n as i64 {
            proof {
                let kk = k as int;
                assert(flat_position(indices@[kk], nn) is None);
                assert(exists|q: int| 0 <= q < indices@.len() && #[trigger] flat_position(indices@[q], nn) is None);
                let c = choose|q: int| 0 <= q < indices@.len() && #[trigger] flat_position(indices@[q], nn) is None
                    && forall|j: int| 0 <= j < q ==> #[trigger] flat_position(indices@[j], nn) is Some;
                assert(0 <= kk < indices@.len() && flat_position(indices@[kk], nn) is None && forall|j: int|
                    0 <= j < kk ==> #[trigger] flat_position(indices@[j], nn) is Some);
                if c < kk {
                    assert(flat_position(indices@[c], nn) is Some);
                } else if c > kk {
                    assert(flat_position(indices@[kk], nn) is Some);
                }
            }
            return Err(TakeIndexError::OutOfBounds(i));
        }
        out.push(a.data[p as usize]);
        k = k + 1;
    }
    let r = NdArray { shape: vec![indices.len()], data: out };
    assert(!exists|q: int| 0 <= q < indices@.len() && #[trigger] flat_position(indices@[q], nn) is None);
    assert(r@.shape =~= seq![indices@.len() as usize]);
    assert(r@.shape.drop_last() =~= Seq::<usize>::empty());
    assert(shape_product(Seq::<usize>::empty()) == 1);
    assert(r@.data =~= spec_take(a@, indices@)->Ok_0.data);
    assert(spec_take(a@, indices@) is Ok);
    assert(r@ == spec_take(a@, indices@)->Ok_0);
    assert(r@.shape.last() == indices@.len());
    assert(shape_product(r@.shape) == shape_product(r@.shape.drop_last()) * (r@.shape.last() as nat));
    assert(r@.data.len() == indices@.len());
    Ok(r)
}

} // verus!
