//! Reductions: the accumulator dtype of each reduction and the position of
//! the extreme element.
use vstd::prelude::*;

use crate::dtype::DType;
use crate::nd::NdArray;

verus! {

/// A reduction over an array (`Var` and `Std` carry their `ddof`).
#[derive(Clone, Copy, Debug, PartialEq, Eq, Structural)]
pub enum Reduce {
    Sum,
    Prod,
    Mean,
    Min,
    Max,
    Var(usize),
    Std(usize),
}

/// The dtype a reduction produces: sums and products widen booleans and
/// signed integers to `i64` and unsigned ones to `u64`; means, variances
/// and standard deviations give `f64` except for complex input, which
/// keeps its dtype; minimum and maximum keep the input dtype.
pub open spec fn spec_acc_dtype(input: DType, op: Reduce) -> DType {
    match op {
        Reduce::Sum | Reduce::Prod => match input {
            DType::Bool | DType::I8 | DType::I16 | DType::I32 | DType::I64 => DType::I64,
            DType::U8 | DType::U16 | DType::U32 | DType::U64 => DType::U64,
            other => other,
        },
        Reduce::Mean | Reduce::Var(_) | Reduce::Std(_) => match input {
            DType::C64 | DType::C128 => input,
            _ => DType::F64,
        },
        Reduce::Min | Reduce::Max => input,
    }
}

/// `acc_dtype`: the output dtype of a reduction.
pub fn acc_dtype(input: DType, op: Reduce) -> (r: DType)
    ensures
        r == spec_acc_dtype(input, op),
{
    match op {
        Reduce::Sum | Reduce::Prod => match input {
            DType::Bool | DType::I8 | DType::I16 | DType::I32 | DType::I64 => DType::I64,
            DType::U8 | DType::U16 | DType::U32 | DType::U64 => DType::U64,
            other => other,
        },
        Reduce::Mean | Reduce::Var(_) | Reduce::Std(_) => match input {
            DType::C64 | DType::C128 => input,
            _ => DType::F64,
        },
        Reduce::Min | Reduce::Max => input,
    }
}

/// Why `arg_extremum` refuses its input.
#[derive(Clone, Copy, Debug, PartialEq, Eq, Structural)]
pub enum ReduceError {
    /// argmin / argmax, or a minimum or maximum, of an empty array.
    Empty,
    /// A single reduction axis outside the array (the axis as counted from
    /// the front).
    AxisOutOfRange(isize),
    /// A listed reduction axis outside the array (as given).
    AxisOutOfBounds(isize),
    /// A reduction axis listed twice (as given).
    DuplicateAxis(isize),
    /// The reduced array does not take the shape `keepdims` asks for.
    KeepDimsMismatch,
}

/// `i` is the first position of a largest (`want_max`) or smallest entry.
pub open spec fn is_first_extremum(s: Seq<i128>, i: int, want_max: bool) -> bool {
    &&& 0 <= i < s.len()
    &&& forall|j: int| 0 <= j < s.len() ==> (if want_max { #[trigger] s[j] <= s[i] } else { s[j] >= s[i] })
    &&& forall|j: int| 0 <= j < i ==> (if want_max { #[trigger] s[j] < s[i] } else { s[j] > s[i] })
}

/// `arg_extremum` (argmax / argmin) of an array of integers (booleans as 0
/// and 1): the flat position of the first largest or smallest entry; an
/// empty array is refused.
pub fn arg_extremum(a: &NdArray<i128>, want_max: bool) -> (r: Result<usize, ReduceError>)
    ensures
        a.data@.len() == 0 ==> r == Err::<usize, ReduceError>(ReduceError::Empty),
        a.data@.len() > 0 ==> (r matches Ok(i) && is_first_extremum(a.data@, i as int, want_max)),
{
    let n = a.data.len();
    if n == 0 {
        return Err(ReduceError::Empty);
    }
    let mut best: usize = 0;
    let mut bv: i128 = a.data[0];
    let mut i: usize = 1;
    while i < n
        invariant
            1 <= i <= n,
            n == a.data@.len(),
            best < i,
            bv == a.data@[best as int],
            forall|j: int| 0 <= j < i ==> (if want_max { #[trigger] a.data@[j] <= bv } else { a.data@[j] >= bv }),
            forall|j: int| 0 <= j < best ==> (if want_max { #[trigger] a.data@[j] < bv } else { a.data@[j] > bv }),
        decreases n - i,
    {
        let v = a.data[i];
        let pick = if want_max { v > bv } else { v < bv };
        if pick {
            bv = v;
            best = i;
        }
        i = i + 1;
    }
    Ok(best)
}

// ---------------------------------------------------------------------
// unique
// ---------------------------------------------------------------------

/// Entries in strictly increasing order.
pub open spec fn strictly_increasing(s: Seq<i128>) -> bool {
    forall|i: int, j: int| 0 <= i < j < s.len() ==> s[i] < s[j]
}

/// `unique` of integer entries: the distinct values, in increasing order.
pub open spec fn is_unique_of(u: Seq<i128>, data: Seq<i128>) -> bool {
    &&& strictly_increasing(u)
    &&& forall|x: i128| u.contains(x) <==> data.contains(x)
}

/// `unique` (of an array of integers, flattened): its distinct values in
/// increasing order.
pub fn unique(a: &NdArray<i128>) -> (r: Vec<i128>)
    ensures
        is_unique_of(r@, a.data@),
{
    let n = a.data.len();
    let mut out: Vec<i128> = Vec::new();
    let mut i: usize = 0;
    while i < n
        invariant
            i <= n,
            n == a.data@.len(),
            strictly_increasing(out@),
            forall|x: i128| out@.contains(x) <==> a.data@.take(i as int).contains(x),
        decreases n - i,
    {
        let x = a.data[i];
        // first position holding a value not below x
        let mut p: usize = 0;
        while p < out.len() && out[p] < x
            invariant
                p <= out@.len(),
                forall|k: int| 0 <= k < p ==> #[trigger] out@[k] < x,
            decreases out@.len() - p,
        {
            p = p + 1;
        }
        let ghost before = out@;
        if p < out.len() && out[p] == x {
            // already present
        } else {
            out.insert(p, x);
            assert forall|k: int, l: int| 0 <= k < l < out@.len() implies out@[k] < out@[l] by {
                if l == p as int {
                    assert(before[k] < x);
                } else if k == p as int {
                    assert(before[l - 1] >= x);
                    if l - 1 > p as int {
                        assert(before[p as int] < before[l - 1]);
                        assert(before[p as int] >= x);
                    }
                } else if k > p as int {
                    assert(before[k - 1] < before[l - 1]);
                } else if l > p as int {
                    assert(before[k] < before[l - 1]);
                } else {
                    assert(before[k] < before[l]);
                }
            }
        }
        proof {
            let t = a.data@.take(i + 1);
            assert(t =~= a.data@.take(i as int).push(x));
            assert forall|y: i128| out@.contains(y) <==> t.contains(y) by {
                if t.contains(y) {
                    let w = choose|w: int| 0 <= w < t.len() && t[w] == y;
                    if w < i {
                        assert(a.data@.take(i as int)[w] == y);
                        assert(a.data@.take(i as int).contains(y));
                        assert(before.contains(y));
                        let z = choose|z: int| 0 <= z < before.len() && before[z] == y;
                        if out@.len() > before.len() {
                            if z < p as int {
                                assert(out@[z] == y);
                            } else {
                                assert(out@[z + 1] == y);
                            }
                        } else {
                            assert(out@[z] == y);
                        }
                    } else {
                        assert(y == x);
                        if out@.len() > before.len() {
                            assert(out@[p as int] == x);
                        } else {
                            assert(out@[p as int] == x);
                        }
                    }
                }
                if out@.contains(y) {
                    let z = choose|z: int| 0 <= z < out@.len() && out@[z] == y;
                    if out@.len() > before.len() {
                        if z == p as int {
                            assert(t[i as int] == y);
                        } else if z < p as int {
                            assert(before[z] == y);
                            assert(before.contains(y));
                            let w = choose|w: int| 0 <= w < i && a.data@.take(i as int)[w] == y;
                            assert(t[w] == y);
                        } else {
                            assert(before[z - 1] == y);
                            assert(before.contains(y));
                            let w = choose|w: int| 0 <= w < i && a.data@.take(i as int)[w] == y;
                            assert(t[w] == y);
                        }
                    } else {
                        assert(before[z] == y);
                        assert(before.contains(y));
                        let w = choose|w: int| 0 <= w < i && a.data@.take(i as int)[w] == y;
                        assert(t[w] == y);
                    }
                }
            }
        }
        i = i + 1;
    }
    assert(a.data@.take(n as int) =~= a.data@);
    out
}

/// Position of the first entry equal to `x`, or -1.
pub open spec fn first_index_of(s: Seq<i128>, x: i128) -> int
    decreases s.len(),
{
    if s.len() == 0 {
        -1
    } else {
        let f = first_index_of(s.drop_last(), x);
        if f >= 0 { f } else if s.last() == x { s.len() - 1 } else { -1 }
    }
}

/// Number of entries equal to `x`.
pub open spec fn occurrences(s: Seq<i128>, x: i128) -> nat
    decreases s.len(),
{
    if s.len() == 0 {
        0
    } else {
        occurrences(s.drop_last(), x) + if s.last() == x { 1nat } else { 0nat }
    }
}

fn first_index_exec(s: &[i128], x: i128) -> (r: i64)
    requires
        s@.len() <= i64::MAX,
    ensures
        r as int == first_index_of(s@, x),
{
    let mut i: usize = 0;
    let mut found: i64 = -1;
    while i < s.len()
        invariant
            i <= s@.len(),
            s@.len() <= i64::MAX,
            found as int == first_index_of(s@.take(i as int), x),
            found < i,
        decreases s@.len() - i,
    {
        assert(s@.take(i + 1).drop_last() =~= s@.take(i as int));
        if found < 0 && s[i] == x {
            found = i as i64;
        }
        i = i + 1;
    }
    assert(s@.take(s@.len() as int) =~= s@);
    found
}

/// `unique`'s `return_index`: for each unique value, the position of its
/// first occurrence in the flattened array (-1 if absent).
pub fn unique_index(flat: &[i128], uniq: &[i128]) -> (r: Vec<i64>)
    requires
        flat@.len() <= i64::MAX,
    ensures
        r@.len() == uniq@.len(),
        forall|k: int| 0 <= k < uniq@.len() ==> #[trigger] r@[k] as int == first_index_of(flat@, uniq@[k]),
{
    let mut out: Vec<i64> = Vec::new();
    let mut k: usize = 0;
    while k < uniq.len()
        invariant
            k <= uniq@.len(),
            flat@.len() <= i64::MAX,
            out@.len() == k,
            forall|j: int| 0 <= j < k ==> #[trigger] out@[j] as int == first_index_of(flat@, uniq@[j]),
        decreases uniq@.len() - k,
    {
        out.push(first_index_exec(flat, uniq[k]));
        k = k + 1;
    }
    out
}

/// `unique`'s `return_inverse`: for each entry of the flattened array, the
/// position of its value among the unique values (-1 if absent).
pub fn unique_inverse(flat: &[i128], uniq: &[i128]) -> (r: Vec<i64>)
    requires
        uniq@.len() <= i64::MAX,
    ensures
        r@.len() == flat@.len(),
        forall|i: int| 0 <= i < flat@.len() ==> #[trigger] r@[i] as int == first_index_of(uniq@, flat@[i]),
{
    let mut out: Vec<i64> = Vec::new();
    let mut i: usize = 0;
    while i < flat.len()
        invariant
            i <= flat@.len(),
            uniq@.len() <= i64::MAX,
            out@.len() == i,
            forall|j: int| 0 <= j < i ==> #[trigger] out@[j] as int == first_index_of(uniq@, flat@[j]),
        decreases flat@.len() - i,
    {
        out.push(first_index_exec(uniq, flat[i]));
        i = i + 1;
    }
    out
}

/// `unique`'s `return_counts`: for each unique value, how often it occurs
/// in the flattened array.
pub fn unique_counts(flat: &[i128], uniq: &[i128]) -> (r: Vec<i64>)
    requires
        flat@.len() <= i64::MAX,
    ensures
        r@.len() == uniq@.len(),
        forall|k: int| 0 <= k < uniq@.len() ==> #[trigger] r@[k] as int == occurrences(flat@, uniq@[k]),
{
    let mut out: Vec<i64> = Vec::new();
    let mut k: usize = 0;
    while k < uniq.len()
        invariant
            k <= uniq@.len(),
            flat@.len() <= i64::MAX,
            out@.len() == k,
            forall|j: int| 0 <= j < k ==> #[trigger] out@[j] as int == occurrences(flat@, uniq@[j]),
        decreases uniq@.len() - k,
    {
        let u = uniq[k];
        let mut c: i64 = 0;
        let mut i: usize = 0;
        while i < flat.len()
            invariant
                i <= flat@.len(),
                flat@.len() <= i64::MAX,
                c as int == occurrences(flat@.take(i as int), u),
                c <= i,
            decreases flat@.len() - i,
        {
            assert(flat@.take(i + 1).drop_last() =~= flat@.take(i as int));
            if flat[i] == u {
                c = c + 1;
            }
            i = i + 1;
        }
        assert(flat@.take(flat@.len() as int) =~= flat@);
        out.push(c);
        k = k + 1;
    }
    out
}

} // verus!
