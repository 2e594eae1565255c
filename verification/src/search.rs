//! Finding and picking elements: `compress`, `searchsorted`,
//! `take_along_axis` and `choose`.
use vstd::prelude::*;

use crate::index::{flat_index, in_bounds, lemma_flat_bound, lemma_unflat_flat, unflat_index};
use crate::nd::{copy_vec, flat_exec, lemma_product_small, nd_wf, unflat_exec, NdArray, NdModel};
use crate::dtype_info::str_eq;
use crate::npy::shape_product;

verus! {

// ---------------------------------------------------------------------
// compress
// ---------------------------------------------------------------------

/// Entry `i` of a mask, `false` past its end.
pub open spec fn mask_at(m: Seq<bool>, i: int) -> bool {
    0 <= i < m.len() && m[i]
}

/// The elements whose mask entry is `true`, in order.
pub open spec fn masked<T>(data: Seq<T>, m: Seq<bool>) -> Seq<T>
    decreases data.len(),
{
    if data.len() == 0 {
        Seq::empty()
    } else if mask_at(m, data.len() - 1) {
        masked(data.drop_last(), m).push(data.last())
    } else {
        masked(data.drop_last(), m)
    }
}

/// Why `compress` refuses its arguments.
#[derive(Clone, Copy, Debug, PartialEq, Eq, Structural)]
pub enum CompressError {
    /// Selection along an axis is not offered.
    AxisUnsupported,
}

/// `compress` on models: without an axis, the flattened elements whose
/// condition entry is true (a short condition counts as `false` past its
/// end, a long one is cut), as a 1-D array.
pub open spec fn spec_compress<T>(cond: Seq<bool>, a: NdModel<T>, axis: Option<isize>) -> Result<NdModel<T>, CompressError> {
    match axis {
        Some(_) => Err(CompressError::AxisUnsupported),
        None => {
            let d = masked(a.data, cond);
            Ok(NdModel { shape: seq![d.len() as usize], data: d })
        },
    }
}

/// `compress(condition, a, axis)`: the selected elements of the flattened
/// array.
pub fn compress<T: Copy>(cond: &[bool], a: &NdArray<T>, axis: Option<isize>) -> (r: Result<NdArray<T>, CompressError>)
    ensures
        match r {
            Ok(b) => spec_compress(cond@, a@, axis) == Ok::<NdModel<T>, CompressError>(b@) && nd_wf(b@),
            Err(e) => spec_compress(cond@, a@, axis) == Err::<NdModel<T>, CompressError>(e),
        },
{
    if axis.is_some() {
        return Err(CompressError::AxisUnsupported);
    }
    let n = a.data.len();
    let mut out: Vec<T> = Vec::new();
    let mut i: usize = 0;
    while i < n
        invariant
            i <= n,
            n == a.data@.len(),
            out@ == masked(a.data@.take(i as int), cond@),
            out@.len() <= i,
        decreases n - i,
    {
        assert(a.data@.take(i + 1).drop_last() =~= a.data@.take(i as int));
        if i < cond.len() && cond[i] {
            out.push(a.data[i]);
        }
        i = i + 1;
    }
    assert(a.data@.take(n as int) =~= a.data@);
    let k = out.len();
    proof {
        lemma_product_small(k, 1, 1);
    }
    let r = NdArray { shape: vec![k], data: out };
    assert(r@.shape =~= seq![k]);
    Ok(r)
}

// ---------------------------------------------------------------------
// searchsorted
// ---------------------------------------------------------------------

/// Which end of a run of equal elements `searchsorted` reports.
#[derive(Clone, Copy, Debug, PartialEq, Eq, Structural)]
pub enum Side {
    /// The first position where the value could be inserted.
    Left,
    /// The last such position.
    Right,
}

/// The side a name selects: `"left"` or `"right"`.
pub open spec fn spec_parse_side(s: Seq<char>) -> Option<Side> {
    if s == "left"@ {
        Some(Side::Left)
    } else if s == "right"@ {
        Some(Side::Right)
    } else {
        None
    }
}

impl Side {
    /// `parse`: the side named by `s`, if any.
    pub fn parse(s: &str) -> (r: Option<Side>)
        ensures
            r == spec_parse_side(s@),
    {
        if str_eq(s, "left") {
            Some(Side::Left)
        } else if str_eq(s, "right") {
            Some(Side::Right)
        } else {
            None
        }
    }
}

/// Number of elements of `a` below `x` (`strict`) or at most `x`.
pub open spec fn count_before(a: Seq<i64>, x: i64, strict: bool) -> nat
    decreases a.len(),
{
    if a.len() == 0 {
        0
    } else {
        count_before(a.drop_last(), x, strict) + (if (strict && a.last() < x) || (!strict && a.last() <= x) { 1nat } else { 0nat })
    }
}

/// Ascending order.
pub open spec fn ascending(a: Seq<i64>) -> bool {
    forall|i: int, j: int| 0 <= i < j < a.len() ==> a[i] <= a[j]
}

/// The sequence searched: `a` itself, or `a` read in the order `sorter`
/// gives.
pub open spec fn searched(a: Seq<i64>, sorter: Option<Seq<i64>>) -> Seq<i64> {
    match sorter {
        None => a,
        Some(s) => Seq::new(s.len(), |i: int| a[s[i] as int]),
    }
}

/// `searchsorted` on models: for each value, how many elements of the
/// searched sequence lie below it (`Left`) or at most at it (`Right`); the
/// left search keeps the values' shape, the right search gives a 1-D array.
pub open spec fn spec_searchsorted(a: Seq<i64>, v: NdModel<i64>, side: Side, sorter: Option<Seq<i64>>) -> NdModel<i64> {
    let s = searched(a, sorter);
    NdModel {
        shape: if side == Side::Left { v.shape } else { seq![v.data.len() as usize] },
        data: Seq::new(v.data.len(), |i: int| count_before(s, v.data[i], side == Side::Left) as i64),
    }
}

/// A split point of a sequence: everything before it passes the test,
/// everything from it fails; then it counts the passing elements.
proof fn lemma_count_split(a: Seq<i64>, x: i64, strict: bool, p: int)
    requires
        0 <= p <= a.len(),
        forall|k: int| 0 <= k < p ==> if strict { a[k] < x } else { a[k] <= x },
        forall|k: int| p <= k < a.len() ==> if strict { a[k] >= x } else { a[k] > x },
    ensures
        count_before(a, x, strict) == p,
    decreases a.len(),
{
    if a.len() > 0 {
        let d = a.drop_last();
        if p == a.len() {
            lemma_count_split(d, x, strict, p - 1);
        } else {
            lemma_count_split(d, x, strict, p);
        }
    }
}

/// The number of elements of an ascending sequence below `x` (or at most
/// `x`), by bisection.
fn bisect(s: &[i64], x: i64, strict: bool) -> (r: usize)
    requires
        ascending(s@),
    ensures
        r == count_before(s@, x, strict),
{
    let mut lo: usize = 0;
    let mut hi: usize = s.len();
    while lo < hi
        invariant
            lo <= hi <= s@.len(),
            ascending(s@),
            forall|k: int| 0 <= k < lo ==> if strict { s@[k] < x } else { s@[k] <= x },
            forall|k: int| hi <= k < s@.len() ==> if strict { s@[k] >= x } else { s@[k] > x },
        decreases hi - lo,
    {
        let mid = lo + (hi - lo) / 2;
        let below = if strict { s[mid] < x } else { s[mid] <= x };
        if below {
            assert forall|k: int| 0 <= k < mid + 1 implies if strict { s@[k] < x } else { s@[k] <= x } by {
                assert(s@[k] <= s@[mid as int]);
            }
            lo = mid + 1;
        } else {
            assert forall|k: int| mid <= k < s@.len() implies if strict { s@[k] >= x } else { s@[k] > x } by {
                assert(s@[mid as int] <= s@[k]);
            }
            hi = mid;
        }
    }
    proof {
        lemma_count_split(s@, x, strict, lo as int);
    }
    lo
}

/// `searchsorted(a, v, side, sorter)`: for each value of `v`, the position
/// in the ascending sequence searched at which it would be inserted, before
/// (`Left`) or after (`Right`) the elements equal to it.
pub fn searchsorted(a: &NdArray<i64>, v: &NdArray<i64>, side: Side, sorter: Option<&[i64]>) -> (r: NdArray<i64>)
    requires
        sorter matches Some(s) ==> forall|i: int| 0 <= i < s@.len() ==> 0 <= #[trigger] s@[i] < a.data@.len(),
        ascending(searched(a.data@, match sorter { Some(s) => Some(s@), None => None })),
        nd_wf(v@),
        side == Side::Right ==> v.shape@.len() == 1,
    ensures
        r@ == spec_searchsorted(a.data@, v@, side, match sorter { Some(s) => Some(s@), None => None }),
        nd_wf(r@),
{
    let ghost so = match sorter { Some(s) => Some(s@), None => None };
    let s: Vec<i64> = match sorter {
        None => copy_vec(a.data.as_slice()),
        Some(order) => {
            let mut t: Vec<i64> = Vec::new();
            let alen = a.data.len();
            let mut i: usize = 0;
            while i < order.len()
                invariant
                    i <= order@.len(),
                    alen == a.data@.len(),
                    forall|q: int| 0 <= q < order@.len() ==> 0 <= #[trigger] order@[q] < a.data@.len(),
                    t@ == searched(a.data@, Some(order@)).take(i as int),
                decreases order@.len() - i,
            {
                assert(0 <= order@[i as int] < a.data@.len());
                let at = order[i] as usize;
                assert(at as int == order@[i as int] as int);
                t.push(a.data[at]);
                i = i + 1;
                assert(t@ =~= searched(a.data@, Some(order@)).take(i as int));
            }
            assert(t@ =~= searched(a.data@, Some(order@)));
            t
        },
    };
    assert(s@ == searched(a.data@, so));
    let strict = side == Side::Left;
    let n = v.data.len();
    let mut out: Vec<i64> = Vec::new();
    let mut i: usize = 0;
    while i < n
        invariant
            i <= n,
            n == v.data@.len(),
            ascending(s@),
            s@ == searched(a.data@, so),
            strict == (side == Side::Left),
            out@.len() == i,
            forall|k: int| 0 <= k < i ==> #[trigger] out@[k] == count_before(s@, v.data@[k], strict) as i64,
        decreases n - i,
    {
        let c = bisect(s.as_slice(), v.data[i], strict);
        proof {
            lemma_count_bound(s@, v.data@[i as int], strict);
        }
        out.push(c as i64);
        i = i + 1;
    }
    let shape = if strict {
        copy_vec(v.shape.as_slice())
    } else {
        proof {
            lemma_product_small(n, 1, 1);
        }
        vec![n]
    };
    let r = NdArray { shape, data: out };
    assert(r@.data =~= spec_searchsorted(a.data@, v@, side, so).data);
    assert(r@.shape =~= spec_searchsorted(a.data@, v@, side, so).shape);
    r
}

/// A count of elements is at most the length.
proof fn lemma_count_bound(a: Seq<i64>, x: i64, strict: bool)
    ensures
        count_before(a, x, strict) <= a.len(),
    decreases a.len(),
{
    if a.len() > 0 {
        lemma_count_bound(a.drop_last(), x, strict);
    }
}

// ---------------------------------------------------------------------
// take_along_axis
// ---------------------------------------------------------------------

/// Why `take_along_axis` refuses its arguments.
#[derive(Clone, Copy, Debug, PartialEq, Eq, Structural)]
pub enum TakeError {
    /// The axis (as given) names no axis of the array.
    AxisOutOfBounds(isize),
    /// The indices have another number of dimensions than the array.
    RankMismatch,
}

/// The axis `take_along_axis` works on, counted from the front.
pub open spec fn take_axis(axis: isize, nd: int) -> int {
    if axis < 0 { axis + nd } else { axis as int }
}

/// The source multi-index of position `f` of the indices: its own
/// multi-index with the coordinate on the axis replaced by the index there.
pub open spec fn take_source(a_shape: Seq<usize>, idx: NdModel<i64>, ax: int, f: int) -> int {
    flat_index(a_shape, unflat_index(idx.shape, f).update(ax, idx.data[f] as usize))
}

/// `take_along_axis` on models: the array read along the axis at the
/// given indices, in the shape of the indices.
pub open spec fn spec_take_along_axis<T>(a: NdModel<T>, idx: NdModel<i64>, axis: isize) -> Result<NdModel<T>, TakeError> {
    let nd = a.shape.len() as int;
    let ax = take_axis(axis, nd);
    if ax < 0 || ax >= nd {
        Err(TakeError::AxisOutOfBounds(axis))
    } else if idx.shape.len() != a.shape.len() {
        Err(TakeError::RankMismatch)
    } else {
        Ok(NdModel { shape: idx.shape, data: Seq::new(idx.data.len(), |f: int| a.data[take_source(a.shape, idx, ax, f)]) })
    }
}

/// The indices reach only positions of the array: each index lies along
/// the axis, and the indices are no longer than the array off the axis.
pub open spec fn take_indices_valid<T>(a: NdModel<T>, idx: NdModel<i64>, axis: isize) -> bool {
    let nd = a.shape.len() as int;
    let ax = take_axis(axis, nd);
    (0 <= ax < nd && idx.shape.len() == a.shape.len()) ==> {
        &&& forall|f: int| 0 <= f < idx.data.len() ==> 0 <= #[trigger] idx.data[f] < a.shape[ax]
        &&& forall|d: int| 0 <= d < nd && d != ax ==> #[trigger] idx.shape[d] <= a.shape[d]
    }
}

/// `take_along_axis(a, indices, axis)`: the elements of `a` picked along
/// the axis by `indices`, in the shape of `indices`.
pub fn take_along_axis<T: Copy>(a: &NdArray<T>, idx: &NdArray<i64>, axis: isize) -> (r: Result<NdArray<T>, TakeError>)
    requires
        nd_wf(a@),
        nd_wf(idx@),
        a.shape@.len() <= isize::MAX,
        take_indices_valid(a@, idx@, axis),
    ensures
        match r {
            Ok(b) => spec_take_along_axis(a@, idx@, axis) == Ok::<NdModel<T>, TakeError>(b@) && nd_wf(b@),
            Err(e) => spec_take_along_axis(a@, idx@, axis) == Err::<NdModel<T>, TakeError>(e),
        },
{
    let nd = a.shape.len();
    let nd_i = nd as isize;
    let ax_i: isize = if axis < 0 { axis + nd_i } else { axis };
    if ax_i < 0 || ax_i >= nd_i {
        return Err(TakeError::AxisOutOfBounds(axis));
    }
    if idx.shape.len() != nd {
        return Err(TakeError::RankMismatch);
    }
    let ax = ax_i as usize;
    let n = idx.data.len();
    let alen = a.data.len();
    let mut out: Vec<T> = Vec::new();
    let mut f: usize = 0;
    while f < n
        invariant
            f <= n,
            n == idx.data@.len(),
            alen == a.data@.len(),
            nd_wf(a@),
            nd_wf(idx@),
            nd == a.shape@.len(),
            nd == idx.shape@.len(),
            ax < nd,
            ax as int == take_axis(axis, nd as int),
            forall|g: int| 0 <= g < idx.data@.len() ==> 0 <= #[trigger] idx.data@[g] < a.shape@[ax as int],
            forall|d: int| 0 <= d < nd && d != ax ==> #[trigger] idx.shape@[d] <= a.shape@[d],
            out@.len() == f,
            forall|g: int| 0 <= g < f ==> #[trigger] out@[g] == a.data@[take_source(a.shape@, idx@, ax as int, g)],
        decreases n - f,
    {
        let u = unflat_exec(idx.shape.as_slice(), f);
        proof {
            lemma_unflat_flat(idx.shape@, f as int);
        }
        let t = idx.data[f];
        assert(0 <= t < a.shape@[ax as int]);
        let mut v = copy_vec(u.as_slice());
        v.set(ax, t as usize);
        assert(in_bounds(a.shape@, v@)) by {
            assert forall|d: int| 0 <= d < nd implies #[trigger] v@[d] < a.shape@[d] by {
                if d != ax {
                    assert(u@[d] < idx.shape@[d]);
                }
            }
        }
        proof {
            lemma_flat_bound(a.shape@, v@);
        }
        let g = flat_exec(a.shape.as_slice(), v.as_slice());
        out.push(a.data[g]);
        f = f + 1;
    }
    let r = NdArray { shape: copy_vec(idx.shape.as_slice()), data: out };
    assert(r@.data =~= spec_take_along_axis(a@, idx@, axis)->Ok_0.data);
    Ok(r)
}

// ---------------------------------------------------------------------
// choose
// ---------------------------------------------------------------------

/// Why `choose` refuses its arguments.
#[derive(Clone, Copy, Debug, PartialEq, Eq, Structural)]
pub enum ChooseError {
    /// No choices were given.
    NoChoices,
    /// An index (read as an unsigned number) names no choice.
    IndexOutOfRange(usize),
}

/// The elements of the first `k` positions: position `i` reads choice
/// `idx[i]` at `i` modulo its length; the first index naming no choice is
/// an error.
pub open spec fn choose_prefix<T>(idx: Seq<i64>, choices: Seq<Seq<T>>, k: nat) -> Result<Seq<T>, ChooseError>
    decreases k,
{
    if k == 0 {
        Ok(Seq::empty())
    } else {
        match choose_prefix(idx, choices, (k - 1) as nat) {
            Err(e) => Err(e),
            Ok(done) => {
                let c = idx[k - 1] as usize;
                if c >= choices.len() {
                    Err(ChooseError::IndexOutOfRange(c))
                } else {
                    Ok(done.push(choices[c as int][(k - 1) % (choices[c as int].len() as int)]))
                }
            },
        }
    }
}

/// The choices as sequences.
pub open spec fn choice_views<T>(choices: Seq<Vec<T>>) -> Seq<Seq<T>> {
    Seq::new(choices.len(), |i: int| choices[i]@)
}

/// `choose` on models: refused without choices; otherwise the picks, in
/// the shape of the indices.
pub open spec fn spec_choose<T>(idx: NdModel<i64>, choices: Seq<Seq<T>>) -> Result<NdModel<T>, ChooseError> {
    if choices.len() == 0 {
        Err(ChooseError::NoChoices)
    } else {
        match choose_prefix(idx.data, choices, idx.data.len()) {
            Err(e) => Err(e),
            Ok(d) => Ok(NdModel { shape: idx.shape, data: d }),
        }
    }
}

/// An error for some positions is the error for all of them.
proof fn lemma_choose_prefix_err<T>(idx: Seq<i64>, choices: Seq<Seq<T>>, k: nat, n: nat)
    requires
        k <= n,
        choose_prefix(idx, choices, k) is Err,
    ensures
        choose_prefix(idx, choices, n) == choose_prefix(idx, choices, k),
    decreases n - k,
{
    if k < n {
        lemma_choose_prefix_err(idx, choices, k, (n - 1) as nat);
    }
}

/// `choose_from(a, choices)` (numpy's `choose`): for each position of the index array, the element
/// of the chosen array there (counted cyclically in its flattened
/// elements).
pub fn choose_from<T: Copy>(idx: &NdArray<i64>, choices: &[Vec<T>]) -> (r: Result<NdArray<T>, ChooseError>)
    requires
        forall|i: int| 0 <= i < choices@.len() ==> (#[trigger] choices@[i])@.len() > 0,
    ensures
        match r {
            Ok(b) => spec_choose(idx@, choice_views(choices@)) == Ok::<NdModel<T>, ChooseError>(b@),
            Err(e) => spec_choose(idx@, choice_views(choices@)) == Err::<NdModel<T>, ChooseError>(e),
        },
{
    let ghost cv = choice_views(choices@);
    if choices.len() == 0 {
        return Err(ChooseError::NoChoices);
    }
    let n = idx.data.len();
    let mut out: Vec<T> = Vec::new();
    let mut i: usize = 0;
    while i < n
        invariant
            i <= n,
            n == idx.data@.len(),
            cv == choice_views(choices@),
            choices@.len() > 0,
            forall|q: int| 0 <= q < choices@.len() ==> (#[trigger] choices@[q])@.len() > 0,
            choose_prefix(idx.data@, cv, i as nat) == Ok::<Seq<T>, ChooseError>(out@),
        decreases n - i,
    {
        let c = idx.data[i] as usize;
        if c >= choices.len() {
            assert(choose_prefix(idx.data@, cv, (i + 1) as nat) == Err::<Seq<T>, ChooseError>(ChooseError::IndexOutOfRange(c)));
            proof {
                lemma_choose_prefix_err(idx.data@, cv, (i + 1) as nat, n as nat);
            }
            return Err(ChooseError::IndexOutOfRange(c));
        }
        let chosen = &choices[c];
        let len = chosen.len();
        assert(len > 0);
        out.push(chosen[i % len]);
        i = i + 1;
    }
    Ok(NdArray { shape: copy_vec(idx.shape.as_slice()), data: out })
}

} // verus!
