//! Raw binary element dumps (`tofile` / `fromfile`): little-endian element
//! bytes with no header.
use vstd::prelude::*;

use crate::dtype::DType;
use crate::npy::{array_wf, normalize, shape_product, ArrayModel, RawArray, WriteError};
use crate::text::extend_bytes;

verus! {

/// Why raw bytes could not be read as elements.
#[derive(Clone, Copy, Debug, PartialEq, Eq, Structural)]
pub enum RawReadError {
    /// Only the numeric dtypes have a raw element layout.
    UnsupportedDtype(DType),
}

/// `write_raw`: appends the element bytes of `a` to `w`; non-numeric dtypes
/// are refused and nothing is written.
pub fn write_raw(w: &mut Vec<u8>, a: &RawArray) -> (r: Result<(), WriteError>)
    requires
        a.dtype.spec_is_numeric() ==> old(w)@.len() + a.data@.len() <= usize::MAX,
    ensures
        a.dtype.spec_is_numeric() ==> r is Ok && final(w)@ == old(w)@ + a.data@,
        !a.dtype.spec_is_numeric() ==> r == Err::<(), WriteError>(WriteError::UnsupportedDtype(a.dtype)) && final(w)@ == old(w)@,
{
    if !a.dtype.is_numeric() {
        return Err(WriteError::UnsupportedDtype(a.dtype));
    }
    extend_bytes(w, a.data.as_slice());
    Ok(())
}

/// Number of whole elements `read_raw` takes from `len` bytes: all of them
/// for a negative `count`, else at most `count`.
pub open spec fn raw_count(len: nat, item: nat, count: int) -> nat {
    let available = len / item;
    if count < 0 {
        available
    } else if count < available {
        count as nat
    } else {
        available
    }
}

/// `read_raw` (`fromfile` on bytes): a 1-D array of the whole elements at
/// the start of `buf` (at most `count` of them unless `count` is negative);
/// trailing bytes of a partial element are ignored.
pub fn read_raw(buf: &[u8], dtype: DType, count: isize) -> (r: Result<RawArray, RawReadError>)
    requires
        dtype.spec_itemsize() > 0,
        dtype.spec_itemsize() <= usize::MAX,
    ensures
        !dtype.spec_is_numeric() ==> r == Err::<RawArray, RawReadError>(RawReadError::UnsupportedDtype(dtype)),
        dtype.spec_is_numeric() ==> (r matches Ok(a) && {
            let n = raw_count(buf@.len(), dtype.spec_itemsize(), count as int);
            &&& a.dtype == dtype
            &&& a.shape@ == seq![n as usize]
            &&& a.data@ == normalize(dtype, buf@.take((n * dtype.spec_itemsize()) as int))
        }),
{
    let item = dtype.itemsize();
    let available = buf.len() / item;
    let n: usize = if count < 0 {
        available
    } else if (count as usize) < available {
        count as usize
    } else {
        available
    };
    if !dtype.is_numeric() {
        return Err(RawReadError::UnsupportedDtype(dtype));
    }
    assert(n * item <= buf.len()) by (nonlinear_arith)
        requires
            n <= available,
            available == buf.len() / item,
            item > 0,
    ;
    let total = n * item;
    let is_bool = dtype == DType::Bool;
    let mut data: Vec<u8> = Vec::new();
    let mut i: usize = 0;
    while i < total
        invariant
            i <= total,
            total <= buf.len(),
            is_bool == (dtype == DType::Bool),
            data@ == normalize(dtype, buf@.take(i as int)),
        decreases total - i,
    {
        let x = buf[i];
        data.push(if is_bool { if x != 0 { 1u8 } else { 0u8 } } else { x });
        i = i + 1;
        assert(data@ =~= normalize(dtype, buf@.take(i as int)));
    }
    let mut shape: Vec<usize> = Vec::new();
    shape.push(n);
    assert(shape@ =~= seq![n]);
    Ok(RawArray { dtype, shape, data })
}

/// What `fromfile` reads back of what `tofile` wrote: all elements of a
/// well-formed array, in order, as a 1-D array.
pub proof fn lemma_raw_round_trip(a: ArrayModel)
    requires
        array_wf(a),
    ensures
        raw_count(a.data.len(), a.dtype.spec_itemsize(), -1) == shape_product(a.shape),
        normalize(a.dtype, a.data.take((shape_product(a.shape) * a.dtype.spec_itemsize()) as int)) == a.data,
{
    let item = a.dtype.spec_itemsize();
    let n = shape_product(a.shape);
    assert(item > 0);
    assert((n * item) / item == n) by (nonlinear_arith)
        requires
            item > 0,
    ;
    assert(a.data.take((n * item) as int) =~= a.data);
    assert(normalize(a.dtype, a.data) =~= a.data);
}

} // verus!
