//! Splitting an array and joining the pieces back: cutting an array along
//! an axis at cut points that never go back, then concatenating the pieces
//! along the same axis, gives the array again. In particular
//! `concatenate(array_split(a, n, axis), axis) == a`.
use vstd::prelude::*;

use crate::index::{flat_index, in_bounds, lemma_product_front, lemma_product_split, lemma_unflat_flat, unflat_index};
use crate::lanes::{lemma_position, p_along, p_inner, p_outer};
use crate::nd::{
    agrees_off_axis, axis_sum, concat_row, concat_rows, inner_count, lemma_product_around_axis, nd_wf, outer_block,
    clamp0, even_points, outer_count, shapes_agree, spec_array_split, spec_concatenate, spec_cut_points, spec_slice_axis,
    spec_split_parts, ArrayError, NdModel, SplitSections,
};
use crate::npy::shape_product;

verus! {

/// The flat position of a multi-index splits at any axis `k`: the position
/// of the first `k` coordinates, times the cells after them, plus the
/// position of the rest.
pub proof fn lemma_flat_split(s: Seq<usize>, u: Seq<usize>, k: int)
    requires
        u.len() == s.len(),
        0 <= k <= s.len(),
    ensures
        flat_index(s, u) == flat_index(s.take(k), u.take(k)) * shape_product(s.skip(k)) + flat_index(
            s.skip(k),
            u.skip(k),
        ),
    decreases s.len(),
{
    if k == s.len() {
        assert(s.take(k) =~= s);
        assert(u.take(k) =~= u);
        assert(s.skip(k) =~= Seq::<usize>::empty());
        assert(u.skip(k) =~= Seq::<usize>::empty());
        let f = flat_index(s, u);
        assert(f * 1 + 0 == f) by (nonlinear_arith);
    } else {
        let s1 = s.drop_last();
        let u1 = u.drop_last();
        lemma_flat_split(s1, u1, k);
        assert(s1.take(k) =~= s.take(k));
        assert(u1.take(k) =~= u.take(k));
        assert(s.skip(k).drop_last() =~= s1.skip(k));
        assert(u.skip(k).drop_last() =~= u1.skip(k));
        assert(s.skip(k).last() == s.last());
        assert(u.skip(k).last() == u.last());
        let a = flat_index(s.take(k), u.take(k));
        let p = shape_product(s1.skip(k)) as int;
        let b = flat_index(s1.skip(k), u1.skip(k));
        let l = s.last() as int;
        let x = u.last() as int;
        assert(shape_product(s.skip(k)) == p * l);
        assert(flat_index(s.skip(k), u.skip(k)) == b * l + x);
        assert((a * p + b) * l + x == a * (p * l) + (b * l + x)) by (nonlinear_arith);
    }
}

/// The flat position of a multi-index around axis `ax`: the position of
/// the coordinates before it times the cells from it on, plus its
/// coordinate times the cells after it, plus the position of the rest.
pub proof fn lemma_flat_at_axis(s: Seq<usize>, u: Seq<usize>, ax: int)
    requires
        u.len() == s.len(),
        0 <= ax < s.len(),
    ensures
        flat_index(s, u) == flat_index(s.take(ax), u.take(ax)) * ((s[ax] as int) * inner_count(s, ax)) + (
        u[ax] as int) * inner_count(s, ax) + flat_index(s.skip(ax + 1), u.skip(ax + 1)),
{
    lemma_flat_split(s, u, ax);
    let t = s.skip(ax);
    let v = u.skip(ax);
    lemma_flat_split(t, v, 1);
    assert(t.skip(1) =~= s.skip(ax + 1));
    assert(v.skip(1) =~= u.skip(ax + 1));
    assert(t.take(1).drop_last() =~= Seq::<usize>::empty());
    assert(v.take(1).drop_last() =~= Seq::<usize>::empty());
    assert(flat_index(Seq::<usize>::empty(), Seq::<usize>::empty()) == 0);
    assert(v.take(1).last() == u[ax]);
    assert(flat_index(t.take(1), v.take(1)) == 0 * (t.take(1).last() as int) + (u[ax] as int));
    assert(flat_index(t.take(1), v.take(1)) == u[ax] as int);
    lemma_product_front(t);
    assert(t.drop_first() =~= s.skip(ax + 1));
}

/// An element of a slice along an axis is the element of the array at the
/// same block and lane, `start` steps further along the axis.
pub proof fn lemma_slice_at<T>(a: NdModel<T>, ax: int, start: int, end: int, f: int)
    requires
        nd_wf(a),
        0 <= ax < a.shape.len(),
        0 <= start <= end <= a.shape[ax],
        0 <= f < shape_product(a.shape.update(ax, (end - start) as usize)),
    ensures
        ({
            let len = end - start;
            let inner = inner_count(a.shape, ax) as int;
            let dim = a.shape[ax] as int;
            spec_slice_axis(a, ax, start, end).data[f] == a.data[p_outer(f, len, inner) * (dim * inner) + (p_along(
                f,
                len,
                inner,
            ) + start) * inner + p_inner(f, inner)]
        }),
{
    let len = end - start;
    let inner = inner_count(a.shape, ax) as int;
    let dim = a.shape[ax] as int;
    let os = a.shape.update(ax, len as usize);
    let u = unflat_index(os, f);
    lemma_unflat_flat(os, f);
    lemma_flat_at_axis(os, u, ax);
    assert(os.skip(ax + 1) =~= a.shape.skip(ax + 1));
    assert(os.take(ax) =~= a.shape.take(ax));
    let fo = flat_index(os.take(ax), u.take(ax));
    let fi = flat_index(os.skip(ax + 1), u.skip(ax + 1));
    assert(in_bounds(os.take(ax), u.take(ax))) by {
        assert forall|i: int| 0 <= i < ax implies #[trigger] u.take(ax)[i] < os.take(ax)[i] by {
            assert(u[i] < os[i]);
        }
    }
    assert(in_bounds(os.skip(ax + 1), u.skip(ax + 1))) by {
        assert forall|i: int| 0 <= i < os.skip(ax + 1).len() implies #[trigger] u.skip(ax + 1)[i] < os.skip(
            ax + 1,
        )[i] by {
            assert(u[ax + 1 + i] < os[ax + 1 + i]);
        }
    }
    crate::index::lemma_flat_bound(os.take(ax), u.take(ax));
    crate::index::lemma_flat_bound(os.skip(ax + 1), u.skip(ax + 1));
    assert(u[ax] < os[ax]);
    lemma_position(f, fo, u[ax] as int, fi, len, inner);
    let u2 = u.update(ax, (u[ax] + start) as usize);
    lemma_flat_at_axis(a.shape, u2, ax);
    assert(u2.take(ax) =~= u.take(ax));
    assert(u2.skip(ax + 1) =~= u.skip(ax + 1));
}

/// A block of a slice along an axis is the stretch of the array's block
/// between the slice's ends.
pub proof fn lemma_slice_block<T>(a: NdModel<T>, ax: int, start: int, end: int, o: int)
    requires
        nd_wf(a),
        0 <= ax < a.shape.len(),
        0 <= start <= end <= a.shape[ax],
        0 <= o < outer_count(a.shape, ax),
    ensures
        ({
            let inner = inner_count(a.shape, ax) as int;
            let b = (a.shape[ax] as int) * inner;
            &&& o * b + end * inner <= a.data.len()
            &&& outer_block(spec_slice_axis(a, ax, start, end), ax, inner as nat, o) == a.data.subrange(
                o * b + start * inner,
                o * b + end * inner,
            )
        }),
{
    let len = end - start;
    let inner = inner_count(a.shape, ax) as int;
    let dim = a.shape[ax] as int;
    let b = dim * inner;
    let outer = outer_count(a.shape, ax) as int;
    let os = a.shape.update(ax, len as usize);
    let piece = spec_slice_axis(a, ax, start, end);
    lemma_product_around_axis(a.shape, ax);
    lemma_product_around_axis(os, ax);
    assert(os.take(ax) =~= a.shape.take(ax));
    assert(os.skip(ax + 1) =~= a.shape.skip(ax + 1));
    assert(piece.shape == os);
    let pb = len * inner;
    assert(o * b + end * inner <= outer * b && o * pb + pb <= outer * pb) by (nonlinear_arith)
        requires
            0 <= o < outer,
            0 <= start <= end <= dim,
            b == dim * inner,
            pb == (end - start) * inner,
            inner >= 0,
    ;
    assert(piece.data.len() == outer * pb);
    assert(end * inner - start * inner == pb && start * inner >= 0) by (nonlinear_arith)
        requires
            pb == (end - start) * inner,
            start >= 0,
            inner >= 0,
    ;
    assert forall|t: int| 0 <= t < pb implies #[trigger] piece.data.subrange(o * pb, o * pb + pb)[t] == a.data.subrange(
        o * b + start * inner,
        o * b + end * inner,
    )[t] by {
        let j = t / inner;
        let i = t % inner;
        assert(inner > 0 && 0 <= j < len && 0 <= i < inner && t == j * inner + i) by (nonlinear_arith)
            requires
                0 <= t < pb,
                pb == len * inner,
                len >= 0,
                inner >= 0,
                j == t / inner,
                i == t % inner,
        ;
        let f = o * pb + t;
        assert(f == o * (len * inner) + j * inner + i);
        lemma_position(f, o, j, i, len, inner);
        assert(0 <= f < outer * pb) by (nonlinear_arith)
            requires
                f == o * pb + t,
                0 <= t < pb,
                0 <= o < outer,
        ;
        lemma_slice_at(a, ax, start, end, f);
        assert(o * b + (j + start) * inner + i == o * b + start * inner + t) by (nonlinear_arith)
            requires
                t == j * inner + i,
        ;
        assert(piece.data[f] == a.data[o * b + start * inner + t]);
    }
    assert(piece.data.subrange(o * pb, o * pb + pb) =~= a.data.subrange(o * b + start * inner, o * b + end * inner));
}

/// Cut points that never go back.
pub open spec fn nondecreasing(pts: Seq<usize>) -> bool {
    forall|i: int, j: int| 0 <= i <= j < pts.len() ==> pts[i] <= pts[j]
}

/// Where piece `i` of a cut at `pts` starts along an axis of length `dim`.
pub open spec fn piece_start(pts: Seq<usize>, dim: int, i: int) -> int {
    if i == 0 {
        0
    } else if pts[i - 1] < dim {
        pts[i - 1] as int
    } else {
        dim
    }
}

/// Where piece `i` of a cut at `pts` ends along an axis of length `dim`.
pub open spec fn piece_end(pts: Seq<usize>, dim: int, i: int) -> int {
    if i < pts.len() {
        if pts[i] < dim {
            pts[i] as int
        } else {
            dim
        }
    } else {
        dim
    }
}

/// How far the first `k` pieces reach along the axis.
pub open spec fn pieces_reach(pts: Seq<usize>, dim: int, k: int) -> int {
    if k == 0 {
        0
    } else {
        piece_end(pts, dim, k - 1)
    }
}

/// The pieces of a cut are the slices between their ends, each starting
/// where the ones before it reach.
proof fn lemma_pieces<T>(a: NdModel<T>, ax: int, pts: Seq<usize>, i: int)
    requires
        0 <= ax < a.shape.len(),
        nondecreasing(pts),
        0 <= i <= pts.len(),
    ensures
        spec_split_parts(a, ax, pts)[i] == spec_slice_axis(a, ax, piece_start(pts, a.shape[ax] as int, i), piece_end(
            pts,
            a.shape[ax] as int,
            i,
        )),
        piece_start(pts, a.shape[ax] as int, i) == pieces_reach(pts, a.shape[ax] as int, i),
        0 <= piece_start(pts, a.shape[ax] as int, i) <= piece_end(pts, a.shape[ax] as int, i) <= a.shape[ax],
{
    if 0 < i < pts.len() {
        assert(pts[i - 1] <= pts[i]);
    }
}

/// The first `k` blocks `o` of the pieces, joined, are the stretch of the
/// array's block `o` that they reach.
proof fn lemma_concat_row_prefix<T>(a: NdModel<T>, ax: int, pts: Seq<usize>, o: int, k: nat)
    requires
        nd_wf(a),
        0 <= ax < a.shape.len(),
        nondecreasing(pts),
        0 <= o < outer_count(a.shape, ax),
        k <= pts.len() + 1,
    ensures
        ({
            let inner = inner_count(a.shape, ax) as int;
            let b = (a.shape[ax] as int) * inner;
            concat_row(spec_split_parts(a, ax, pts), ax, inner as nat, o, k) == a.data.subrange(
                o * b,
                o * b + pieces_reach(pts, a.shape[ax] as int, k as int) * inner,
            )
        }),
    decreases k,
{
    let inner = inner_count(a.shape, ax) as int;
    let dim = a.shape[ax] as int;
    let b = dim * inner;
    let outer = outer_count(a.shape, ax) as int;
    lemma_product_around_axis(a.shape, ax);
    assert(0 <= o * b && o * b + b <= outer * b) by (nonlinear_arith)
        requires
            0 <= o < outer,
            b == dim * inner,
            dim >= 0,
            inner >= 0,
    ;
    if k == 0 {
        assert(a.data.subrange(o * b, o * b) =~= Seq::<T>::empty());
    } else {
        lemma_concat_row_prefix(a, ax, pts, o, (k - 1) as nat);
        lemma_pieces(a, ax, pts, k - 1);
        let st = piece_start(pts, dim, k - 1);
        let en = piece_end(pts, dim, k - 1);
        lemma_slice_block(a, ax, st, en, o);
        assert(0 <= st * inner <= en * inner) by (nonlinear_arith)
            requires
                0 <= st <= en,
                inner >= 0,
        ;
        assert(o * b >= 0) by (nonlinear_arith)
            requires
                o >= 0,
                b == dim * inner,
                dim >= 0,
                inner >= 0,
        ;
        assert(a.data.subrange(o * b, o * b + st * inner) + a.data.subrange(o * b + st * inner, o * b + en * inner)
            =~= a.data.subrange(o * b, o * b + en * inner));
    }
}

/// The first `n` rows of the joined pieces are the first `n` blocks of the
/// array.
proof fn lemma_concat_rows_prefix<T>(a: NdModel<T>, ax: int, pts: Seq<usize>, n: nat)
    requires
        nd_wf(a),
        0 <= ax < a.shape.len(),
        nondecreasing(pts),
        n <= outer_count(a.shape, ax),
    ensures
        ({
            let inner = inner_count(a.shape, ax) as int;
            let b = (a.shape[ax] as int) * inner;
            &&& n * b <= a.data.len()
            &&& concat_rows(spec_split_parts(a, ax, pts), ax, inner as nat, n) == a.data.subrange(0, n * b)
        }),
    decreases n,
{
    let inner = inner_count(a.shape, ax) as int;
    let dim = a.shape[ax] as int;
    let b = dim * inner;
    let outer = outer_count(a.shape, ax) as int;
    lemma_product_around_axis(a.shape, ax);
    assert(n * b <= outer * b && (n - 1) * b + b == n * b) by (nonlinear_arith)
        requires
            n <= outer,
            b == dim * inner,
            dim >= 0,
            inner >= 0,
    ;
    if n == 0 {
        assert(n * b == 0) by (nonlinear_arith)
            requires
                n == 0,
        ;
        assert(a.data.subrange(0, 0) =~= Seq::<T>::empty());
    } else {
        lemma_concat_rows_prefix(a, ax, pts, (n - 1) as nat);
        let parts = spec_split_parts(a, ax, pts);
        lemma_concat_row_prefix(a, ax, pts, n - 1, parts.len());
        assert(pieces_reach(pts, dim, parts.len() as int) == dim);
        assert(0 <= (n - 1) * b) by (nonlinear_arith)
            requires
                n >= 1,
                b == dim * inner,
                dim >= 0,
                inner >= 0,
        ;
        assert(a.data.subrange(0, (n - 1) * b) + a.data.subrange((n - 1) * b, (n - 1) * b + dim * inner) =~= a.data.subrange(
            0,
            n * b,
        ));
        assert(concat_rows(parts, ax, inner as nat, (n - 1) as nat) == a.data.subrange(0, (n - 1) * b));
        assert(concat_row(parts, ax, inner as nat, n - 1, parts.len()) == a.data.subrange(
            (n - 1) * b,
            (n - 1) * b + dim * inner,
        ));
        assert(concat_rows(parts, ax, inner as nat, n) == concat_rows(parts, ax, inner as nat, (n - 1) as nat)
            + concat_row(parts, ax, inner as nat, n - 1, parts.len()));
    }
}

/// How far the first `k` pieces reach is the sum of their lengths.
proof fn lemma_reach_sum<T>(a: NdModel<T>, ax: int, pts: Seq<usize>, k: nat)
    requires
        0 <= ax < a.shape.len(),
        nondecreasing(pts),
        k <= pts.len() + 1,
    ensures
        axis_sum(spec_split_parts(a, ax, pts), ax, k) == pieces_reach(pts, a.shape[ax] as int, k as int),
    decreases k,
{
    if k > 0 {
        lemma_reach_sum(a, ax, pts, (k - 1) as nat);
        lemma_pieces(a, ax, pts, k - 1);
    }
}

/// Cutting an array along an axis at cut points that never go back and
/// joining the pieces along the same axis gives the array back.
pub proof fn lemma_concatenate_split<T>(a: NdModel<T>, ax: int, pts: Seq<usize>)
    requires
        nd_wf(a),
        0 <= ax < a.shape.len(),
        nondecreasing(pts),
    ensures
        spec_concatenate(spec_split_parts(a, ax, pts), ax) == Ok::<NdModel<T>, ArrayError>(a),
{
    let parts = spec_split_parts(a, ax, pts);
    let dim = a.shape[ax] as int;
    let s0 = parts[0].shape;
    lemma_pieces(a, ax, pts, 0);
    assert(s0 == a.shape.update(ax, piece_end(pts, dim, 0) as usize));
    assert(shapes_agree(parts, ax)) by {
        assert forall|i: int| 0 <= i < parts.len() implies #[trigger] agrees_off_axis(parts[i].shape, s0, ax) by {
            lemma_pieces(a, ax, pts, i);
        }
    }
    lemma_reach_sum(a, ax, pts, parts.len());
    assert(s0.update(ax, axis_sum(parts, ax, parts.len()) as usize) =~= a.shape);
    assert(s0.take(ax) =~= a.shape.take(ax));
    assert(s0.skip(ax + 1) =~= a.shape.skip(ax + 1));
    lemma_concat_rows_prefix(a, ax, pts, outer_count(a.shape, ax));
    lemma_product_around_axis(a.shape, ax);
    assert(a.data.subrange(0, a.data.len() as int) =~= a.data);
}

/// Near-equal sections cut at points that never go back.
proof fn lemma_even_points_nondecreasing(dim: nat, n: nat)
    requires
        n > 0,
        dim <= usize::MAX,
    ensures
        nondecreasing(even_points(dim, n)),
{
    let base = dim / n;
    let extra = dim % n;
    vstd::arithmetic::div_mod::lemma_fundamental_div_mod(dim as int, n as int);
    let pts = even_points(dim, n);
    assert forall|i: int, j: int| 0 <= i <= j < pts.len() implies pts[i] <= pts[j] by {
        let xi = (i + 1) * base + if i + 1 < extra { i + 1 } else { extra as int };
        let xj = (j + 1) * base + if j + 1 < extra { j + 1 } else { extra as int };
        assert(0 <= xi <= xj <= dim) by (nonlinear_arith)
            requires
                0 <= i <= j < n - 1,
                dim == n * base + extra,
                0 <= extra < n,
                base >= 0,
                xi == (i + 1) * base + (if i + 1 < extra { i + 1 } else { extra as int }),
                xj == (j + 1) * base + (if j + 1 < extra { j + 1 } else { extra as int }),
        ;
    }
}

/// The sections name cut points in order: any count of sections, or
/// indices that never go back.
pub open spec fn sections_in_order(sections: SplitSections) -> bool {
    match sections {
        SplitSections::Count(_) => true,
        SplitSections::Indices(v) => forall|i: int, j: int| 0 <= i <= j < v@.len() ==> v@[i] <= v@[j],
    }
}

/// `concatenate(array_split(a, sections, axis), axis) == a`: whenever
/// `array_split` (or `split`) cuts an array at cut points in order,
/// joining the pieces along the same axis gives the array back.
pub proof fn lemma_concatenate_array_split<T>(a: NdModel<T>, sections: SplitSections, axis: int, allow_uneven: bool)
    requires
        nd_wf(a),
        sections_in_order(sections),
    ensures
        spec_array_split(a, sections, axis, allow_uneven) is Ok ==> spec_concatenate(
            spec_array_split(a, sections, axis, allow_uneven)->Ok_0,
            if axis < 0 { axis + a.shape.len() } else { axis },
        ) == Ok::<NdModel<T>, ArrayError>(a),
{
    let nd = a.shape.len() as int;
    let ax = if axis < 0 { axis + nd } else { axis };
    if spec_array_split(a, sections, axis, allow_uneven) is Ok {
        let dim = a.shape[ax] as nat;
        let pts = spec_cut_points(dim, sections, allow_uneven)->Ok_0;
        match sections {
            SplitSections::Count(n) => {
                lemma_even_points_nondecreasing(dim, n as nat);
            },
            SplitSections::Indices(v) => {
                assert forall|i: int, j: int| 0 <= i <= j < pts.len() implies pts[i] <= pts[j] by {
                    assert(v@[i] <= v@[j]);
                    assert(pts[i] == clamp0(v@[i]) && pts[j] == clamp0(v@[j]));
                }
            },
        }
        lemma_concatenate_split(a, ax, pts);
    }
}

/// `array_split` into a count of `n` sections: there are `n` pieces, piece
/// `i` keeps every extent but the axis's, and along the axis it holds
/// `dim / n + 1` entries for the first `dim % n` pieces and `dim / n` for
/// the rest, so the lengths never grow and differ by at most one.
pub proof fn lemma_array_split_sections<T>(a: NdModel<T>, n: usize, axis: int, allow_uneven: bool)
    requires
        spec_array_split(a, SplitSections::Count(n), axis, allow_uneven) is Ok,
    ensures
        ({
            let nd = a.shape.len() as int;
            let ax = if axis < 0 { axis + nd } else { axis };
            let dim = a.shape[ax] as int;
            let parts = spec_array_split(a, SplitSections::Count(n), axis, allow_uneven)->Ok_0;
            &&& parts.len() == n
            &&& forall|i: int| 0 <= i < n ==> (#[trigger] parts[i]).shape == a.shape.update(
                ax,
                (dim / (n as int) + if i < dim % (n as int) { 1int } else { 0int }) as usize,
            )
        }),
{
    let nd = a.shape.len() as int;
    let ax = if axis < 0 { axis + nd } else { axis };
    let dim = a.shape[ax] as int;
    let m = n as int;
    let base = dim / m;
    let extra = dim % m;
    let pts = even_points(dim as nat, n as nat);
    vstd::arithmetic::div_mod::lemma_fundamental_div_mod(dim, m);
    vstd::arithmetic::div_mod::lemma_mod_bound(dim, m);
    let parts = spec_array_split(a, SplitSections::Count(n), axis, allow_uneven)->Ok_0;
    assert forall|i: int| 0 <= i < n implies (#[trigger] parts[i]).shape == a.shape.update(
        ax,
        (base + if i < extra { 1int } else { 0int }) as usize,
    ) by {
        let lo = if i < extra { i } else { extra };
        let hi = if i + 1 < extra { i + 1 } else { extra };
        assert(0 <= i * base + lo <= (i + 1) * base + hi <= dim) by (nonlinear_arith)
            requires
                0 <= i < m,
                dim == m * base + extra,
                0 <= extra < m,
                base >= 0,
                lo == (if i < extra { i } else { extra }),
                hi == (if i + 1 < extra { i + 1 } else { extra }),
        ;
        assert((i + 1) * base == i * base + base) by (nonlinear_arith);
        if i + 1 == m {
            assert(extra <= i);
            assert(i * base + extra + base == dim) by (nonlinear_arith)
                requires
                    i + 1 == m,
                    dim == m * base + extra,
            ;
        }
        if i > 0 {
            assert(pts[i - 1] as int == i * base + lo);
        }
        if i + 1 < m {
            assert(pts[i] as int == (i + 1) * base + hi);
        }
    }
}

/// `array_split` at a list of indices: one piece more than there are
/// indices; piece `i` runs from index `i - 1` to index `i` (from 0 for the
/// first, to the end for the last), each index taken as 0 when negative and
/// as the axis length when past it, and is empty when they go back.
pub proof fn lemma_array_split_indices<T>(a: NdModel<T>, v: Vec<isize>, axis: int, allow_uneven: bool)
    requires
        spec_array_split(a, SplitSections::Indices(v), axis, allow_uneven) is Ok,
    ensures
        ({
            let nd = a.shape.len() as int;
            let ax = if axis < 0 { axis + nd } else { axis };
            let dim = a.shape[ax] as int;
            let parts = spec_array_split(a, SplitSections::Indices(v), axis, allow_uneven)->Ok_0;
            let at = |k: int| if v@[k] < 0 { 0int } else if v@[k] > dim { dim } else { v@[k] as int };
            &&& parts.len() == v@.len() + 1
            &&& forall|i: int| 0 <= i <= v@.len() ==> {
                let start = if i == 0 { 0int } else { at(i - 1) };
                let end = if i == v@.len() { dim } else { at(i) };
                (#[trigger] parts[i]).shape == a.shape.update(ax, (if end > start { end - start } else { 0int }) as usize)
            }
        }),
{
}

} // verus!
