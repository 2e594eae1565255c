//! `any` and `all` over a set of axes, with and without `keepdims`, and
//! the element-by-element logical operations on broadcast boolean arrays.
use vstd::prelude::*;

use crate::index::{flat_index, in_bounds, lemma_flat_bound, lemma_unflat_flat, unflat_index};
use crate::linalg::{normalize_axis, spec_normalize_axis, AxisError};
use crate::broadcast::{lemma_operands_broadcast, read_broadcast};
use crate::nd::{
    broadcast_shape, broadcast_source, flat_exec, nd_wf, partial_products_fit, spec_broadcast_shape, unflat_exec,
    ArrayError, NdArray, NdModel,
};
use crate::tiling::broadcasts_to;
use crate::npy::{element_count, shape_product};

verus! {

/// The axes named by `axes` in an array of `nd` dimensions, or an error for
/// the first that names none.
pub open spec fn normalize_axes(axes: Seq<isize>, nd: int) -> Result<Seq<int>, AxisError>
    decreases axes.len(),
{
    if axes.len() == 0 {
        Ok(Seq::empty())
    } else {
        match normalize_axes(axes.drop_last(), nd) {
            Err(e) => Err(e),
            Ok(p) => match spec_normalize_axis(axes.last() as int, nd) {
                None => Err(AxisError { axis: axes.last(), ndim: nd as usize }),
                Some(a) => Ok(p.push(a)),
            },
        }
    }
}

/// The axes reduced: those listed, or all of them.
pub open spec fn reduced_axes(axes: Option<Seq<isize>>, nd: int) -> Result<Seq<int>, AxisError> {
    match axes {
        None => Ok(Seq::new(nd as nat, |i: int| i)),
        Some(a) => normalize_axes(a, nd),
    }
}

/// The shape with the reduced axes kept as dimensions of 1.
pub open spec fn keep_shape(s: Seq<usize>, red: Seq<int>) -> Seq<usize> {
    Seq::new(s.len(), |i: int| if red.contains(i) { 1usize } else { s[i] })
}

/// The shape with the reduced axes removed.
pub open spec fn drop_shape(s: Seq<usize>, red: Seq<int>) -> Seq<usize>
    decreases s.len(),
{
    if s.len() == 0 {
        Seq::empty()
    } else if red.contains(s.len() - 1) {
        drop_shape(s.drop_last(), red)
    } else {
        drop_shape(s.drop_last(), red).push(s.last())
    }
}

/// The multi-index with the reduced coordinates set to 0.
pub open spec fn zero_axes(u: Seq<usize>, red: Seq<int>) -> Seq<usize> {
    Seq::new(u.len(), |i: int| if red.contains(i) { 0usize } else { u[i] })
}

/// The output position that input position `f` is reduced into.
pub open spec fn reduce_target(s: Seq<usize>, red: Seq<int>, f: int) -> int {
    flat_index(keep_shape(s, red), zero_axes(unflat_index(s, f), red))
}

/// Some element among the first `n` reduced into `g` is true.
pub open spec fn any_hit(a: NdModel<bool>, red: Seq<int>, n: int, g: int) -> bool {
    exists|f: int| 0 <= f < n && reduce_target(a.shape, red, f) == g && #[trigger] a.data[f]
}

/// Every element among the first `n` reduced into `g` is true.
pub open spec fn all_hit(a: NdModel<bool>, red: Seq<int>, n: int, g: int) -> bool {
    forall|f: int| 0 <= f < n && reduce_target(a.shape, red, f) == g ==> #[trigger] a.data[f]
}

/// `any` (or, with `want_all`, `all`) on models: each output element tells
/// whether some (every) element reduced into it is true; the reduced axes
/// are removed, or kept as dimensions of 1 with `keepdims`.
pub open spec fn spec_any_all(a: NdModel<bool>, axes: Option<Seq<isize>>, keepdims: bool, want_all: bool) -> Result<NdModel<bool>, AxisError> {
    match reduced_axes(axes, a.shape.len() as int) {
        Err(e) => Err(e),
        Ok(red) => {
            let ks = keep_shape(a.shape, red);
            Ok(NdModel {
                shape: if keepdims { ks } else { drop_shape(a.shape, red) },
                data: Seq::new(shape_product(ks), |g: int| if want_all {
                    all_hit(a, red, a.data.len() as int, g)
                } else {
                    any_hit(a, red, a.data.len() as int, g)
                }),
            })
        },
    }
}

/// Removing dimensions that are 1 in the kept shape keeps the product.
proof fn lemma_drop_shape_product(s: Seq<usize>, red: Seq<int>)
    ensures
        shape_product(drop_shape(s, red)) == shape_product(keep_shape(s, red)),
    decreases s.len(),
{
    if s.len() > 0 {
        let d = s.drop_last();
        lemma_drop_shape_product(d, red);
        assert(keep_shape(s, red).drop_last() =~= keep_shape(d, red));
        let p = shape_product(keep_shape(d, red)) as int;
        let ks = keep_shape(s, red);
        assert(shape_product(ks) == shape_product(ks.drop_last()) * (ks.last() as nat));
        if red.contains(s.len() - 1) {
            assert(ks.last() == 1usize);
            assert(p * 1 == p);
            assert(drop_shape(s, red) == drop_shape(d, red));
        } else {
            assert(ks.last() == s.last());
            let ds = drop_shape(s, red);
            assert(ds == drop_shape(d, red).push(s.last()));
            assert(ds.drop_last() =~= drop_shape(d, red));
            assert(shape_product(ds) == shape_product(ds.drop_last()) * (ds.last() as nat));
        }
    }
}

/// The target of an input position lies in the kept shape.
proof fn lemma_target_in_bounds(s: Seq<usize>, red: Seq<int>, f: int)
    requires
        0 <= f < shape_product(s),
    ensures
        in_bounds(keep_shape(s, red), zero_axes(unflat_index(s, f), red)),
        0 <= reduce_target(s, red, f) < shape_product(keep_shape(s, red)),
{
    lemma_unflat_flat(s, f);
    let u = unflat_index(s, f);
    let ks = keep_shape(s, red);
    let w = zero_axes(u, red);
    assert forall|i: int| 0 <= i < ks.len() implies #[trigger] w[i] < ks[i] by {
        assert(u[i] < s[i]);
    }
    lemma_flat_bound(ks, w);
}

/// `any` / `all` of a boolean array over some axes (`None`: all of them).
pub fn any_all(a: &NdArray<bool>, axes: Option<&[isize]>, keepdims: bool, want_all: bool) -> (r: Result<NdArray<bool>, AxisError>)
    requires
        nd_wf(a@),
        a.shape@.len() <= isize::MAX,
        reduced_axes(match axes { Some(x) => Some(x@), None => None }, a.shape@.len() as int) matches Ok(red)
            ==> partial_products_fit(keep_shape(a.shape@, red)),
    ensures
        match r {
            Ok(b) => spec_any_all(a@, match axes { Some(x) => Some(x@), None => None }, keepdims, want_all) == Ok::<NdModel<bool>, AxisError>(b@) && nd_wf(b@),
            Err(e) => spec_any_all(a@, match axes { Some(x) => Some(x@), None => None }, keepdims, want_all) == Err::<NdModel<bool>, AxisError>(e),
        },
{
    let ghost ax_opt = match axes { Some(x) => Some(x@), None => None };
    let nd = a.shape.len();
    // the reduced axes, as a mask over the axes
    let mut red: Vec<usize> = Vec::new();
    match axes {
        None => {
            let mut i: usize = 0;
            while i < nd
                invariant
                    i <= nd,
                    red@.len() == i,
                    forall|k: int| 0 <= k < i ==> #[trigger] red@[k] == k,
                decreases nd - i,
            {
                red.push(i);
                i = i + 1;
            }
        },
        Some(list) => {
            let mut i: usize = 0;
            assert(list@.take(0) =~= Seq::<isize>::empty());
            assert(Seq::new(red@.len(), |k: int| red@[k] as int) =~= Seq::<int>::empty());
            while i < list.len()
                invariant
                    i <= list@.len(),
                    ax_opt == Some(list@),
                    ax_opt == (match axes { Some(x) => Some(x@), None => None }),
                    nd == a.shape@.len(),
                    nd <= isize::MAX,
                    normalize_axes(list@.take(i as int), nd as int) == Ok::<Seq<int>, AxisError>(Seq::new(red@.len(), |k: int| red@[k] as int)),
                    red@.len() == i,
                decreases list@.len() - i,
            {
                assert(list@.take(i + 1).drop_last() =~= list@.take(i as int));
                match normalize_axis(list[i], nd) {
                    Err(e) => {
                        assert(normalize_axes(list@.take(i + 1), nd as int) == Err::<Seq<int>, AxisError>(e));
                        proof {
                            lemma_normalize_prefix_err(list@, nd as int, (i + 1) as int);
                        }
                        assert(ax_opt == Some(list@));
                        assert(reduced_axes(ax_opt, nd as int) == Err::<Seq<int>, AxisError>(e));
                        assert(spec_any_all(a@, ax_opt, keepdims, want_all) == Err::<NdModel<bool>, AxisError>(e));
                        return Err(e);
                    },
                    Ok(x) => {
                        let ghost prev = Seq::new(red@.len(), |k: int| red@[k] as int);
                        red.push(x);
                        assert(Seq::new(red@.len(), |k: int| red@[k] as int) =~= prev.push(x as int));
                    },
                }
                i = i + 1;
            }
            assert(list@.take(list@.len() as int) =~= list@);
        },
    }
    let ghost rs = Seq::new(red@.len(), |k: int| red@[k] as int);
    assert(reduced_axes(ax_opt, nd as int) == Ok::<Seq<int>, AxisError>(rs)) by {
        if axes is None {
            assert(rs =~= Seq::new(nd as nat, |i: int| i));
        }
    }
    // membership mask
    let mut is_red: Vec<bool> = Vec::new();
    let mut i: usize = 0;
    while i < nd
        invariant
            i <= nd,
            nd == a.shape@.len(),
            rs == Seq::new(red@.len(), |k: int| red@[k] as int),
            is_red@.len() == i,
            forall|k: int| 0 <= k < i ==> #[trigger] is_red@[k] == rs.contains(k),
        decreases nd - i,
    {
        let mut found = false;
        let mut j: usize = 0;
        while j < red.len()
            invariant
                j <= red@.len(),
                rs == Seq::new(red@.len(), |k: int| red@[k] as int),
                found == exists|q: int| 0 <= q < j && red@[q] == i,
            decreases red@.len() - j,
        {
            if red[j] == i {
                found = true;
            }
            j = j + 1;
        }
        proof {
            if found {
                let q = choose|q: int| 0 <= q < red@.len() && red@[q] == i;
                assert(rs[q] == i as int);
            } else {
                assert forall|q: int| 0 <= q < rs.len() implies rs[q] != i as int by {
                    assert(red@[q] != i);
                }
            }
        }
        is_red.push(found);
        i = i + 1;
    }
    // the kept and the dropped shapes
    let mut ks: Vec<usize> = Vec::new();
    let mut ds: Vec<usize> = Vec::new();
    i = 0;
    while i < nd
        invariant
            i <= nd,
            nd == a.shape@.len(),
            is_red@.len() == nd,
            forall|k: int| 0 <= k < nd ==> #[trigger] is_red@[k] == rs.contains(k),
            ks@ == keep_shape(a.shape@, rs).take(i as int),
            ds@ == drop_shape(a.shape@.take(i as int), rs),
        decreases nd - i,
    {
        assert(a.shape@.take(i + 1).drop_last() =~= a.shape@.take(i as int));
        if is_red[i] {
            ks.push(1);
        } else {
            ks.push(a.shape[i]);
            ds.push(a.shape[i]);
        }
        i = i + 1;
        assert(ks@ =~= keep_shape(a.shape@, rs).take(i as int));
    }
    assert(ks@ =~= keep_shape(a.shape@, rs));
    assert(a.shape@.take(nd as int) =~= a.shape@);
    proof {
        lemma_drop_shape_product(a.shape@, rs);
    }
    let m = element_count(ks.as_slice());
    let mut out: Vec<bool> = Vec::new();
    let mut g: usize = 0;
    while g < m
        invariant
            g <= m,
            out@.len() == g,
            forall|q: int| 0 <= q < g ==> #[trigger] out@[q] == want_all,
        decreases m - g,
    {
        out.push(want_all);
        g = g + 1;
    }
    let n = a.data.len();
    let mut f: usize = 0;
    while f < n
        invariant
            f <= n,
            n == a.data@.len(),
            nd_wf(a@),
            nd == a.shape@.len(),
            m == shape_product(ks@),
            ks@ == keep_shape(a.shape@, rs),
            is_red@.len() == nd,
            forall|k: int| 0 <= k < nd ==> #[trigger] is_red@[k] == rs.contains(k),
            out@.len() == m,
            forall|q: int| 0 <= q < m ==> #[trigger] out@[q] == if want_all {
                all_hit(a@, rs, f as int, q)
            } else {
                any_hit(a@, rs, f as int, q)
            },
        decreases n - f,
    {
        let u = unflat_exec(a.shape.as_slice(), f);
        proof {
            lemma_unflat_flat(a.shape@, f as int);
        }
        let mut w: Vec<usize> = Vec::new();
        let mut k: usize = 0;
        while k < nd
            invariant
                k <= nd,
                nd == a.shape@.len(),
                u@.len() == nd,
                is_red@.len() == nd,
                forall|q: int| 0 <= q < nd ==> #[trigger] is_red@[q] == rs.contains(q),
                w@ == zero_axes(u@, rs).take(k as int),
            decreases nd - k,
        {
            w.push(if is_red[k] { 0 } else { u[k] });
            k = k + 1;
            assert(w@ =~= zero_axes(u@, rs).take(k as int));
        }
        assert(w@ =~= zero_axes(u@, rs));
        proof {
            lemma_target_in_bounds(a.shape@, rs, f as int);
        }
        let t = flat_exec(ks.as_slice(), w.as_slice());
        let ghost before = out@;
        let v = if want_all { out[t] && a.data[f] } else { out[t] || a.data[f] };
        out.set(t, v);
        assert forall|q: int| 0 <= q < m implies #[trigger] out@[q] == if want_all {
            all_hit(a@, rs, f + 1, q)
        } else {
            any_hit(a@, rs, f + 1, q)
        } by {
            assert(before[q] == if want_all { all_hit(a@, rs, f as int, q) } else { any_hit(a@, rs, f as int, q) });
            if want_all {
                if q == t {
                    if all_hit(a@, rs, f as int, q) && a.data@[f as int] {
                        assert forall|p: int| 0 <= p < f + 1 && reduce_target(a.shape@, rs, p) == q implies #[trigger] a.data@[p] by {
                            if p < f {
                            }
                        }
                    } else if !all_hit(a@, rs, f as int, q) {
                        let p = choose|p: int| !(0 <= p < f && reduce_target(a.shape@, rs, p) == q ==> #[trigger] a.data@[p]);
                        assert(!(0 <= p < f + 1 && reduce_target(a.shape@, rs, p) == q ==> a.data@[p]));
                    } else {
                        assert(!(0 <= f < f + 1 && reduce_target(a.shape@, rs, f as int) == q ==> a.data@[f as int]));
                    }
                } else {
                    assert(reduce_target(a.shape@, rs, f as int) != q);
                    if all_hit(a@, rs, f as int, q) {
                        assert forall|p: int| 0 <= p < f + 1 && reduce_target(a.shape@, rs, p) == q implies #[trigger] a.data@[p] by {
                            if p < f {
                            }
                        }
                    } else {
                        let p = choose|p: int| !(0 <= p < f && reduce_target(a.shape@, rs, p) == q ==> #[trigger] a.data@[p]);
                        assert(!(0 <= p < f + 1 && reduce_target(a.shape@, rs, p) == q ==> a.data@[p]));
                    }
                }
            } else {
                if q == t {
                    if any_hit(a@, rs, f as int, q) {
                        let p = choose|p: int| 0 <= p < f && reduce_target(a.shape@, rs, p) == q && #[trigger] a.data@[p];
                        assert(0 <= p < f + 1 && reduce_target(a.shape@, rs, p) == q && a.data@[p]);
                    } else if a.data@[f as int] {
                        assert(0 <= f < f + 1 && reduce_target(a.shape@, rs, f as int) == q && a.data@[f as int]);
                    } else {
                        assert forall|p: int| !(0 <= p < f + 1 && reduce_target(a.shape@, rs, p) == q && #[trigger] a.data@[p]) by {
                            if p < f {
                            }
                        }
                    }
                } else {
                    assert(reduce_target(a.shape@, rs, f as int) != q);
                    if any_hit(a@, rs, f as int, q) {
                        let p = choose|p: int| 0 <= p < f && reduce_target(a.shape@, rs, p) == q && #[trigger] a.data@[p];
                        assert(0 <= p < f + 1 && reduce_target(a.shape@, rs, p) == q && a.data@[p]);
                    } else {
                        assert forall|p: int| !(0 <= p < f + 1 && reduce_target(a.shape@, rs, p) == q && #[trigger] a.data@[p]) by {
                            if p < f {
                            }
                        }
                    }
                }
            }
        }
        f = f + 1;
    }
    let shape = if keepdims { ks } else { ds };
    let r = NdArray { shape, data: out };
    assert(r@.data =~= spec_any_all(a@, ax_opt, keepdims, want_all)->Ok_0.data);
    Ok(r)
}

/// An error for a prefix of the axis list is the error for the whole list.
proof fn lemma_normalize_prefix_err(axes: Seq<isize>, nd: int, k: int)
    requires
        0 <= k <= axes.len(),
        normalize_axes(axes.take(k), nd) is Err,
    ensures
        normalize_axes(axes, nd) == normalize_axes(axes.take(k), nd),
    decreases axes.len() - k,
{
    if k < axes.len() {
        assert(axes.take(k + 1).drop_last() =~= axes.take(k));
        lemma_normalize_prefix_err(axes, nd, k + 1);
    } else {
        assert(axes.take(k) =~= axes);
    }
}

/// The axes `list` names, counted from the front, or the error for the
/// first that names none.
pub(crate) fn normalize_list(list: &[isize], nd: usize) -> (r: Result<Vec<usize>, AxisError>)
    requires
        nd <= isize::MAX,
    ensures
        match r {
            Ok(v) => normalize_axes(list@, nd as int) == Ok::<Seq<int>, AxisError>(Seq::new(v@.len(), |k: int| v@[k] as int))
                && v@.len() == list@.len(),
            Err(e) => normalize_axes(list@, nd as int) == Err::<Seq<int>, AxisError>(e),
        },
{
    let mut out: Vec<usize> = Vec::new();
    let mut i: usize = 0;
    assert(list@.take(0) =~= Seq::<isize>::empty());
    assert(Seq::new(out@.len(), |k: int| out@[k] as int) =~= Seq::<int>::empty());
    while i < list.len()
        invariant
            i <= list@.len(),
            nd <= isize::MAX,
            out@.len() == i,
            normalize_axes(list@.take(i as int), nd as int) == Ok::<Seq<int>, AxisError>(Seq::new(out@.len(), |k: int| out@[k] as int)),
        decreases list@.len() - i,
    {
        assert(list@.take(i + 1).drop_last() =~= list@.take(i as int));
        match normalize_axis(list[i], nd) {
            Err(e) => {
                assert(normalize_axes(list@.take(i + 1), nd as int) == Err::<Seq<int>, AxisError>(e));
                proof {
                    lemma_normalize_prefix_err(list@, nd as int, (i + 1) as int);
                }
                return Err(e);
            },
            Ok(x) => {
                let ghost prev = Seq::new(out@.len(), |k: int| out@[k] as int);
                out.push(x);
                assert(Seq::new(out@.len(), |k: int| out@[k] as int) =~= prev.push(x as int));
            },
        }
        i = i + 1;
    }
    assert(list@.take(list@.len() as int) =~= list@);
    Ok(out)
}

// ---------------------------------------------------------------------
// logical_and / logical_or / logical_xor / logical_not
// ---------------------------------------------------------------------

/// A binary logical operation.
#[derive(Clone, Copy, Debug, PartialEq, Eq, Structural)]
pub enum LogicOp {
    And,
    Or,
    Xor,
    /// `x ** y` on booleans: `x` where `y` holds, else true.
    Power,
}

/// The value of `x op y`.
pub open spec fn logic_value(op: LogicOp, x: bool, y: bool) -> bool {
    match op {
        LogicOp::And => x && y,
        LogicOp::Or => x || y,
        LogicOp::Xor => x != y,
        LogicOp::Power => if y { x } else { true },
    }
}

/// The operation on two boolean arrays broadcast together.
pub open spec fn spec_logical(a: NdModel<bool>, b: NdModel<bool>, op: LogicOp) -> Result<NdModel<bool>, ArrayError> {
    match spec_broadcast_shape(a.shape, b.shape) {
        None => Err(ArrayError::IncompatibleShapes),
        Some(out) => Ok(NdModel {
            shape: out,
            data: Seq::new(shape_product(out), |f: int| logic_value(
                op,
                a.data[broadcast_source(a.shape, out, f)],
                b.data[broadcast_source(b.shape, out, f)],
            )),
        }),
    }
}

/// `logical_and`, `logical_or`, `logical_xor` or boolean `power` (by `op`)
/// of two boolean arrays, element by element over their broadcast shape.
pub fn logical(a: &NdArray<bool>, b: &NdArray<bool>, op: LogicOp) -> (r: Result<NdArray<bool>, ArrayError>)
    requires
        nd_wf(a@),
        nd_wf(b@),
        spec_broadcast_shape(a.shape@, b.shape@) matches Some(out) ==> partial_products_fit(out),
    ensures
        match r {
            Ok(v) => spec_logical(a@, b@, op) == Ok::<NdModel<bool>, ArrayError>(v@) && nd_wf(v@),
            Err(e) => spec_logical(a@, b@, op) == Err::<NdModel<bool>, ArrayError>(e),
        },
{
    let out = match broadcast_shape(a.shape.as_slice(), b.shape.as_slice()) {
        None => return Err(ArrayError::IncompatibleShapes),
        Some(s) => s,
    };
    proof {
        lemma_operands_broadcast(a.shape@, b.shape@);
    }
    let n = element_count(out.as_slice());
    let mut data: Vec<bool> = Vec::new();
    let mut f: usize = 0;
    while f < n
        invariant
            f <= n,
            n == shape_product(out@),
            nd_wf(a@),
            nd_wf(b@),
            broadcasts_to(a.shape@, out@),
            broadcasts_to(b.shape@, out@),
            data@.len() == f,
            forall|g: int| 0 <= g < f ==> #[trigger] data@[g] == logic_value(
                op,
                a.data@[broadcast_source(a.shape@, out@, g)],
                b.data@[broadcast_source(b.shape@, out@, g)],
            ),
        decreases n - f,
    {
        let x = read_broadcast(a, out.as_slice(), f);
        let y = read_broadcast(b, out.as_slice(), f);
        let v = match op {
            LogicOp::And => x && y,
            LogicOp::Or => x || y,
            LogicOp::Xor => x != y,
            LogicOp::Power => if y { x } else { true },
        };
        data.push(v);
        f = f + 1;
    }
    let r = NdArray { shape: out, data };
    assert(r@.data =~= spec_logical(a@, b@, op)->Ok_0.data);
    Ok(r)
}

/// `logical_and(a, b)`: true where both are true, element by element over the broadcast shape.
pub fn logical_and(a: &NdArray<bool>, b: &NdArray<bool>) -> (r: Result<NdArray<bool>, ArrayError>)
    requires
        nd_wf(a@),
        nd_wf(b@),
        spec_broadcast_shape(a.shape@, b.shape@) matches Some(out) ==> partial_products_fit(out),
    ensures
        match r {
            Ok(v) => spec_logical(a@, b@, LogicOp::And) == Ok::<NdModel<bool>, ArrayError>(v@) && nd_wf(v@),
            Err(e) => spec_logical(a@, b@, LogicOp::And) == Err::<NdModel<bool>, ArrayError>(e),
        },
{
    logical(a, b, LogicOp::And)
}

/// `logical_or(a, b)`: true where either is true, element by element over the broadcast shape.
pub fn logical_or(a: &NdArray<bool>, b: &NdArray<bool>) -> (r: Result<NdArray<bool>, ArrayError>)
    requires
        nd_wf(a@),
        nd_wf(b@),
        spec_broadcast_shape(a.shape@, b.shape@) matches Some(out) ==> partial_products_fit(out),
    ensures
        match r {
            Ok(v) => spec_logical(a@, b@, LogicOp::Or) == Ok::<NdModel<bool>, ArrayError>(v@) && nd_wf(v@),
            Err(e) => spec_logical(a@, b@, LogicOp::Or) == Err::<NdModel<bool>, ArrayError>(e),
        },
{
    logical(a, b, LogicOp::Or)
}

/// `logical_xor(a, b)`: true where exactly one is true, element by element over the broadcast shape.
pub fn logical_xor(a: &NdArray<bool>, b: &NdArray<bool>) -> (r: Result<NdArray<bool>, ArrayError>)
    requires
        nd_wf(a@),
        nd_wf(b@),
        spec_broadcast_shape(a.shape@, b.shape@) matches Some(out) ==> partial_products_fit(out),
    ensures
        match r {
            Ok(v) => spec_logical(a@, b@, LogicOp::Xor) == Ok::<NdModel<bool>, ArrayError>(v@) && nd_wf(v@),
            Err(e) => spec_logical(a@, b@, LogicOp::Xor) == Err::<NdModel<bool>, ArrayError>(e),
        },
{
    logical(a, b, LogicOp::Xor)
}

/// `power(a, b)` of boolean arrays: `a` where `b` holds, true elsewhere,
/// over the broadcast shape.
pub fn power_bool(a: &NdArray<bool>, b: &NdArray<bool>) -> (r: Result<NdArray<bool>, ArrayError>)
    requires
        nd_wf(a@),
        nd_wf(b@),
        spec_broadcast_shape(a.shape@, b.shape@) matches Some(out) ==> partial_products_fit(out),
    ensures
        match r {
            Ok(v) => spec_logical(a@, b@, LogicOp::Power) == Ok::<NdModel<bool>, ArrayError>(v@) && nd_wf(v@),
            Err(e) => spec_logical(a@, b@, LogicOp::Power) == Err::<NdModel<bool>, ArrayError>(e),
        },
{
    logical(a, b, LogicOp::Power)
}

/// `logical_not(a)`: each element negated.
pub fn logical_not(a: &NdArray<bool>) -> (r: NdArray<bool>)
    ensures
        r@.shape == a@.shape,
        r@.data == Seq::new(a@.data.len(), |i: int| !a@.data[i]),
{
    let n = a.data.len();
    let mut data: Vec<bool> = Vec::new();
    let mut i: usize = 0;
    while i < n
        invariant
            i <= n,
            n == a.data@.len(),
            data@.len() == i,
            forall|j: int| 0 <= j < i ==> #[trigger] data@[j] == !a.data@[j],
        decreases n - i,
    {
        let x = a.data[i];
        data.push(!x);
        i = i + 1;
    }
    let r = NdArray { shape: crate::nd::copy_vec(a.shape.as_slice()), data };
    assert(r@.data =~= Seq::new(a@.data.len(), |i: int| !a@.data[i]));
    r
}

} // verus!
