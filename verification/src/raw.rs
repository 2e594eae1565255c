//! Dtype-driven constructors and the complex-number views of raw arrays:
//! zero-filled arrays, `tri`, and the real part, imaginary part and
//! conjugate of complex arrays. Floating-point values are handled through
//! their IEEE 754 bit patterns.
use vstd::prelude::*;

use crate::dtype::DType;
use crate::nd::{copy_vec, lemma_walk_step};
use crate::npy::{array_wf, element_count, shape_product, ArrayModel, RawArray};

verus! {

/// `n` zero bytes.
pub open spec fn zeros(n: nat) -> Seq<u8> {
    Seq::new(n, |i: int| 0u8)
}

/// The little-endian bytes of the value 1 of a numeric dtype (IEEE 754
/// `1.0` for the floating-point kinds, `1 + 0i` for the complex ones);
/// `None` for the other dtypes.
pub open spec fn spec_one_bytes(d: DType) -> Option<Seq<u8>> {
    match d {
        DType::Bool | DType::I8 | DType::U8 => Some(seq![1u8]),
        DType::I16 | DType::U16 => Some(seq![1u8, 0]),
        DType::I32 | DType::U32 => Some(seq![1u8, 0, 0, 0]),
        DType::I64 | DType::U64 => Some(seq![1u8, 0, 0, 0, 0, 0, 0, 0]),
        DType::F16 => Some(seq![0u8, 0x3c]),
        DType::F32 => Some(seq![0u8, 0, 0x80, 0x3f]),
        DType::F64 => Some(seq![0u8, 0, 0, 0, 0, 0, 0xf0, 0x3f]),
        DType::C64 => Some(seq![0u8, 0, 0x80, 0x3f, 0, 0, 0, 0]),
        DType::C128 => Some(seq![0u8, 0, 0, 0, 0, 0, 0xf0, 0x3f, 0, 0, 0, 0, 0, 0, 0, 0]),
        _ => None,
    }
}

fn one_bytes(d: DType) -> (r: Option<Vec<u8>>)
    ensures
        match r {
            Some(v) => spec_one_bytes(d) == Some(v@),
            None => spec_one_bytes(d) is None,
        },
{
    let v: Vec<u8> = match d {
        DType::Bool | DType::I8 | DType::U8 => vec![1u8],
        DType::I16 | DType::U16 => vec![1u8, 0],
        DType::I32 | DType::U32 => vec![1u8, 0, 0, 0],
        DType::I64 | DType::U64 => vec![1u8, 0, 0, 0, 0, 0, 0, 0],
        DType::F16 => vec![0u8, 0x3c],
        DType::F32 => vec![0u8, 0, 0x80, 0x3f],
        DType::F64 => vec![0u8, 0, 0, 0, 0, 0, 0xf0, 0x3f],
        DType::C64 => vec![0u8, 0, 0x80, 0x3f, 0, 0, 0, 0],
        DType::C128 => vec![0u8, 0, 0, 0, 0, 0, 0xf0, 0x3f, 0, 0, 0, 0, 0, 0, 0, 0],
        _ => return None,
    };
    assert(v@ =~= spec_one_bytes(d).unwrap());
    Some(v)
}

/// Appends `n` zero bytes.
fn push_zeros(w: &mut Vec<u8>, n: usize)
    ensures
        final(w)@ == old(w)@ + zeros(n as nat),
{
    let ghost start = w@;
    let mut i: usize = 0;
    while i < n
        invariant
            i <= n,
            w@ == start + zeros(i as nat),
        decreases n - i,
    {
        w.push(0u8);
        i = i + 1;
        assert(w@ =~= start + zeros(i as nat));
    }
}

/// `empty_with_shape`: a zero-filled array of the dtype and shape.
pub fn empty_with_shape(dt: DType, shape: &[usize]) -> (r: RawArray)
    requires
        forall|k: int| 0 <= k <= shape@.len() ==> #[trigger] shape_product(shape@.take(k)) <= usize::MAX,
        shape_product(shape@) * dt.spec_itemsize() <= usize::MAX,
        dt.spec_itemsize() <= usize::MAX,
    ensures
        r@ == (ArrayModel { dtype: dt, shape: shape@, data: zeros(shape_product(shape@) * dt.spec_itemsize()) }),
{
    let count = element_count(shape);
    let isz = dt.itemsize();
    let mut data: Vec<u8> = Vec::new();
    push_zeros(&mut data, count * isz);
    assert(data@ =~= zeros(shape_product(shape@) * dt.spec_itemsize()));
    RawArray { dtype: dt, shape: copy_vec(shape), data }
}

/// Cell `f` of `tri`: the value 1 on and below diagonal `k` (column at most
/// row + `k`), zero above; `one` is empty for dtypes without a 1.
pub open spec fn tri_cell(m: int, k: int, f: int, one: Seq<u8>, isz: nat) -> Seq<u8> {
    if f % m <= f / m + k && one.len() == isz { one } else { zeros(isz) }
}

/// The bytes of the first `count` cells of `tri`.
pub open spec fn tri_data(m: int, k: int, one: Seq<u8>, isz: nat, count: nat) -> Seq<u8>
    decreases count,
{
    if count == 0 {
        Seq::empty()
    } else {
        tri_data(m, k, one, isz, (count - 1) as nat) + tri_cell(m, k, count - 1, one, isz)
    }
}

proof fn lemma_tri_data_len(m: int, k: int, one: Seq<u8>, isz: nat, count: nat)
    ensures
        tri_data(m, k, one, isz, count).len() == count * isz,
    decreases count,
{
    if count > 0 {
        lemma_tri_data_len(m, k, one, isz, (count - 1) as nat);
        assert(tri_cell(m, k, count - 1, one, isz).len() == isz);
        assert((count - 1) * isz + isz == count * isz) by (nonlinear_arith);
    } else {
        assert(count * isz == 0) by (nonlinear_arith)
            requires
                count == 0,
        ;
    }
}

/// `tri`: the n x m array of the dtype with ones where the column is at most
/// the row plus `k`, zeros elsewhere (all zeros for a dtype without a 1).
pub fn tri(n: usize, m: usize, k: isize, dtype: DType) -> (r: RawArray)
    requires
        n * m <= usize::MAX,
        n * m * dtype.spec_itemsize() <= usize::MAX,
        dtype.spec_itemsize() <= usize::MAX,
    ensures
        r@ == (ArrayModel {
            dtype,
            shape: seq![n, m],
            data: tri_data(m as int, k as int, spec_one_bytes(dtype).unwrap_or(Seq::empty()), dtype.spec_itemsize(), (n * m) as nat),
        }),
{
    let isz = dtype.itemsize();
    let one: Vec<u8> = match one_bytes(dtype) {
        Some(v) => v,
        None => Vec::new(),
    };
    let ghost onev = spec_one_bytes(dtype).unwrap_or(Seq::empty());
    assert(one@ == onev);
    assert(one@.len() == isz || one@.len() == 0);
    let total = n * m;
    assert(m == 0 ==> total == 0) by (nonlinear_arith)
        requires
            total == n * m,
    ;
    let mut data: Vec<u8> = Vec::new();
    let mut f: usize = 0;
    let mut i: usize = 0;
    let mut j: usize = 0;
    while f < total
        invariant
            total == n * m,
            total <= usize::MAX,
            f <= total,
            j < m || f == total,
            f < total ==> f == i * m + j,
            isz == dtype.spec_itemsize(),
            one@ == onev,
            total * isz <= usize::MAX,
            data@ == tri_data(m as int, k as int, onev, isz as nat, f as nat),
        decreases total - f,
    {
        assert(m > 0) by (nonlinear_arith)
            requires
                f < total,
                total == n * m,
        ;
        proof {
            lemma_walk_step(f as int, i as int, j as int, m as int);
            lemma_tri_data_len(m as int, k as int, onev, isz as nat, f as nat);
            assert((f + 1) * isz <= total * isz) by (nonlinear_arith)
                requires
                    f < total,
            ;
        }
        let lower = (j as i128) <= (i as i128) + (k as i128);
        if lower && one.len() == isz {
            let mut b: usize = 0;
            let ghost start = data@;
            while b < isz
                invariant
                    b <= isz,
                    one@.len() == isz,
                    data@ == start + one@.take(b as int),
                decreases isz - b,
            {
                data.push(one[b]);
                b = b + 1;
                assert(data@ =~= start + one@.take(b as int));
            }
            assert(one@.take(isz as int) =~= one@);
        } else {
            push_zeros(&mut data, isz);
        }
        f = f + 1;
        if j + 1 < m {
            j = j + 1;
        } else {
            j = 0;
            i = i + 1;
        }
    }
    let shape = vec![n, m];
    assert(shape@ =~= seq![n, m]);
    RawArray { dtype, shape, data }
}

// ---------------------------------------------------------------------
// real / imag / conj
// ---------------------------------------------------------------------

/// Bytes `[off, off + h)` of each of the first `count` elements of `2h`
/// bytes: the real (`off = 0`) or imaginary (`off = h`) parts of complex
/// numbers whose parts are `h` bytes wide.
pub open spec fn half_parts(data: Seq<u8>, h: nat, off: nat, count: nat) -> Seq<u8>
    decreases count,
{
    if count == 0 {
        Seq::empty()
    } else {
        let base = (count - 1) * (2 * h);
        half_parts(data, h, off, (count - 1) as nat) + data.subrange(base + off, base + off + h)
    }
}

/// `real_part` (numpy `real`): complex64 becomes float32 and complex128
/// float64, holding the real parts; other arrays are unchanged.
pub open spec fn spec_real_part(a: ArrayModel) -> ArrayModel {
    match a.dtype {
        DType::C64 => ArrayModel { dtype: DType::F32, shape: a.shape, data: half_parts(a.data, 4, 0, a.data.len() / 8) },
        DType::C128 => ArrayModel { dtype: DType::F64, shape: a.shape, data: half_parts(a.data, 8, 0, a.data.len() / 16) },
        _ => a,
    }
}

/// `imag_part` (numpy `imag`): the imaginary parts of a complex array, as
/// for `real_part`; zeros of the same dtype and shape for other arrays.
pub open spec fn spec_imag_part(a: ArrayModel) -> ArrayModel {
    match a.dtype {
        DType::C64 => ArrayModel { dtype: DType::F32, shape: a.shape, data: half_parts(a.data, 4, 4, a.data.len() / 8) },
        DType::C128 => ArrayModel { dtype: DType::F64, shape: a.shape, data: half_parts(a.data, 8, 8, a.data.len() / 16) },
        _ => ArrayModel { dtype: a.dtype, shape: a.shape, data: zeros(a.data.len()) },
    }
}

/// The bytes with the sign bit of each imaginary part flipped (the top bit
/// of the last byte of each `w`-byte element).
pub open spec fn flip_imag_signs(data: Seq<u8>, w: int) -> Seq<u8> {
    Seq::new(data.len(), |b: int| if b % w == w - 1 { data[b] ^ 0x80u8 } else { data[b] })
}

/// `conj`: the complex conjugate (negated imaginary parts) of a complex
/// array; other arrays are unchanged.
pub open spec fn spec_conj(a: ArrayModel) -> ArrayModel {
    match a.dtype {
        DType::C64 => ArrayModel { dtype: a.dtype, shape: a.shape, data: flip_imag_signs(a.data, 8) },
        DType::C128 => ArrayModel { dtype: a.dtype, shape: a.shape, data: flip_imag_signs(a.data, 16) },
        _ => a,
    }
}

fn half_parts_exec(data: &[u8], h: usize, off: usize) -> (r: Vec<u8>)
    requires
        h == 4 || h == 8,
        off == 0 || off == h,
    ensures
        r@ == half_parts(data@, h as nat, off as nat, data@.len() / (2 * h as nat)),
{
    let w = 2 * h;
    let len = data.len();
    let count = len / w;
    proof {
        vstd::arithmetic::div_mod::lemma_fundamental_div_mod(data@.len() as int, w as int);
        vstd::arithmetic::div_mod::lemma_mod_bound(data@.len() as int, w as int);
    }
    let mut out: Vec<u8> = Vec::new();
    let mut e: usize = 0;
    while e < count
        invariant
            e <= count,
            w == 2 * h,
            h == 4 || h == 8,
            off == 0 || off == h,
            len == data@.len(),
            count * w <= len,
            out@ == half_parts(data@, h as nat, off as nat, e as nat),
        decreases count - e,
    {
        assert(e * w + w <= count * w) by (nonlinear_arith)
            requires
                e < count,
        ;
        let base = e * w;
        let mut o: usize = 0;
        let ghost start = out@;
        while o < h
            invariant
                o <= h,
                base + w <= len,
                len == data@.len(),
                w == 2 * h,
                off + h <= w,
                out@ == start + data@.subrange(base + off, base + off + o),
            decreases h - o,
        {
            out.push(data[base + off + o]);
            o = o + 1;
            assert(out@ =~= start + data@.subrange(base + off, base + off + o));
        }
        e = e + 1;
        assert((e - 1) * (2 * h) == base);
    }
    out
}

/// `real_part`: the real parts of a complex array (as float32 / float64
/// bytes); other arrays unchanged.
pub fn real_part(a: &RawArray) -> (r: RawArray)
    ensures
        r@ == spec_real_part(a@),
{
    match a.dtype {
        DType::C64 => RawArray { dtype: DType::F32, shape: copy_vec(a.shape.as_slice()), data: half_parts_exec(a.data.as_slice(), 4, 0) },
        DType::C128 => RawArray { dtype: DType::F64, shape: copy_vec(a.shape.as_slice()), data: half_parts_exec(a.data.as_slice(), 8, 0) },
        _ => RawArray { dtype: a.dtype, shape: copy_vec(a.shape.as_slice()), data: copy_vec(a.data.as_slice()) },
    }
}

/// `imag_part`: the imaginary parts of a complex array; zeros of the same
/// dtype and shape for other arrays.
pub fn imag_part(a: &RawArray) -> (r: RawArray)
    ensures
        r@ == spec_imag_part(a@),
{
    match a.dtype {
        DType::C64 => RawArray { dtype: DType::F32, shape: copy_vec(a.shape.as_slice()), data: half_parts_exec(a.data.as_slice(), 4, 4) },
        DType::C128 => RawArray { dtype: DType::F64, shape: copy_vec(a.shape.as_slice()), data: half_parts_exec(a.data.as_slice(), 8, 8) },
        _ => {
            let mut data: Vec<u8> = Vec::new();
            push_zeros(&mut data, a.data.len());
            assert(data@ =~= zeros(a.data@.len()));
            RawArray { dtype: a.dtype, shape: copy_vec(a.shape.as_slice()), data }
        },
    }
}

fn flip_signs_exec(data: &[u8], w: usize) -> (r: Vec<u8>)
    requires
        w == 8 || w == 16,
    ensures
        r@ == flip_imag_signs(data@, w as int),
{
    let n = data.len();
    let mut out: Vec<u8> = Vec::new();
    let mut b: usize = 0;
    let mut e: usize = 0;
    let mut p: usize = 0;
    while b < n
        invariant
            b <= n,
            n == data@.len(),
            w == 8 || w == 16,
            p < w,
            b == e * w + p,
            out@.len() == b,
            forall|c: int| 0 <= c < b ==> #[trigger] out@[c] == flip_imag_signs(data@, w as int)[c],
        decreases n - b,
    {
        proof {
            lemma_walk_step(b as int, e as int, p as int, w as int);
        }
        let x = data[b];
        let y = if p == w - 1 { x ^ 0x80u8 } else { x };
        out.push(y);
        b = b + 1;
        if p + 1 < w {
            p = p + 1;
        } else {
            p = 0;
            e = e + 1;
        }
    }
    assert(out@ =~= flip_imag_signs(data@, w as int));
    out
}

/// `conj`: the complex conjugate of a complex array (each imaginary part
/// negated by flipping its IEEE sign bit); other arrays unchanged.
pub fn conj(a: &RawArray) -> (r: RawArray)
    ensures
        r@ == spec_conj(a@),
{
    match a.dtype {
        DType::C64 => RawArray { dtype: a.dtype, shape: copy_vec(a.shape.as_slice()), data: flip_signs_exec(a.data.as_slice(), 8) },
        DType::C128 => RawArray { dtype: a.dtype, shape: copy_vec(a.shape.as_slice()), data: flip_signs_exec(a.data.as_slice(), 16) },
        _ => RawArray { dtype: a.dtype, shape: copy_vec(a.shape.as_slice()), data: copy_vec(a.data.as_slice()) },
    }
}

/// Conjugating twice gives back the array.
pub proof fn lemma_conj_involution(a: ArrayModel)
    ensures
        spec_conj(spec_conj(a)) == a,
{
    match a.dtype {
        DType::C64 | DType::C128 => {
            let w: int = if a.dtype == DType::C64 { 8 } else { 16 };
            let once = flip_imag_signs(a.data, w);
            let twice = flip_imag_signs(once, w);
            assert forall|b: int| 0 <= b < a.data.len() implies twice[b] == a.data[b] by {
                let x = a.data[b];
                assert((x ^ 0x80u8) ^ 0x80u8 == x) by (bit_vector);
            }
            assert(twice =~= a.data);
        },
        _ => {},
    }
}

// ---------------------------------------------------------------------
// tobytes
// ---------------------------------------------------------------------

/// The size of the units whose bytes the machine orders: the element, or
/// each of the two parts of a complex element.
pub open spec fn byte_unit(d: DType) -> nat {
    if d.spec_is_complex() { d.spec_itemsize() / 2 } else { d.spec_itemsize() }
}

/// The bytes with the order inside each unit of `u` bytes reversed.
pub open spec fn swap_units(b: Seq<u8>, u: nat) -> Seq<u8> {
    Seq::new(b.len(), |i: int| b[(i / (u as int)) * (u as int) + (u as int - 1 - i % (u as int))])
}

/// Why `tobytes` refuses an array.
#[derive(Clone, Copy, Debug, PartialEq, Eq, Structural)]
pub enum ToBytesError {
    /// Only numeric dtypes have a byte image.
    UnsupportedDtype(DType),
}

/// `a.tobytes()`: the elements in the machine's byte order: the stored
/// little-endian bytes on a little-endian machine, each unit's bytes
/// reversed on a big-endian one.
pub fn tobytes(a: &RawArray) -> (r: Result<Vec<u8>, ToBytesError>)
    requires
        array_wf(a@),
    ensures
        !a.dtype.spec_is_numeric() ==> r == Err::<Vec<u8>, ToBytesError>(ToBytesError::UnsupportedDtype(a.dtype)),
        a.dtype.spec_is_numeric() ==> (r matches Ok(v) && (v@ == a.data@ || v@ == swap_units(a.data@, byte_unit(a.dtype)))),
{
    if !a.dtype.is_numeric() {
        return Err(ToBytesError::UnsupportedDtype(a.dtype));
    }
    if crate::dtype_info::native_low_byte_of_one() == 1 {
        return Ok(copy_vec(a.data.as_slice()));
    }
    let item = a.dtype.itemsize();
    let unit: usize = if a.dtype.is_complex() { item / 2 } else { item };
    let n = a.data.len();
    assert(unit > 0);
    assert((n as int) % (unit as int) == 0) by {
        lemma_units_divide(a@);
    }
    let mut out: Vec<u8> = Vec::new();
    let mut i: usize = 0;
    while i < n
        invariant
            i <= n,
            n == a.data@.len(),
            unit > 0,
            unit == byte_unit(a.dtype),
            (n as int) % (unit as int) == 0,
            out@.len() == i,
            forall|k: int| 0 <= k < i ==> #[trigger] out@[k] == swap_units(a.data@, unit as nat)[k],
        decreases n - i,
    {
        let ghost q = i as int / unit as int;
        let ghost m = n as int / unit as int;
        proof {
            vstd::arithmetic::div_mod::lemma_fundamental_div_mod(i as int, unit as int);
            vstd::arithmetic::div_mod::lemma_fundamental_div_mod(n as int, unit as int);
            vstd::arithmetic::div_mod::lemma_mod_bound(i as int, unit as int);
        }
        assert(q * unit + unit <= n) by (nonlinear_arith)
            requires
                i == unit * q + (i as int) % (unit as int),
                n == unit * m,
                0 <= (i as int) % (unit as int) < unit,
                i < n,
                unit > 0,
        ;
        assert(q * unit == (i / unit) * unit);
        let base = (i / unit) * unit;
        let src = base + (unit - 1 - i % unit);
        out.push(a.data[src]);
        i = i + 1;
    }
    assert(out@ =~= swap_units(a.data@, byte_unit(a.dtype)));
    Ok(out)
}

/// A numeric array's bytes are whole units.
proof fn lemma_units_divide(a: ArrayModel)
    requires
        array_wf(a),
        a.dtype.spec_is_numeric(),
    ensures
        byte_unit(a.dtype) > 0,
        (a.data.len() as int) % (byte_unit(a.dtype) as int) == 0,
{
    let u = byte_unit(a.dtype) as int;
    let item = a.dtype.spec_itemsize() as int;
    let cells = shape_product(a.shape) as int;
    assert(item == u * (item / u)) by {
        if a.dtype == DType::C64 {
            assert(item == 8 && u == 4);
            assert(item == u * (item / u)) by (nonlinear_arith)
                requires
                    item == 8,
                    u == 4,
            ;
        } else if a.dtype == DType::C128 {
            assert(item == 16 && u == 8);
            assert(item == u * (item / u)) by (nonlinear_arith)
                requires
                    item == 16,
                    u == 8,
            ;
        } else {
            assert(u == item);
            assert(item > 0);
            assert(item == u * (item / u)) by (nonlinear_arith)
                requires
                    item > 0,
                    u == item,
            ;
        }
    }
    let k = item / u;
    assert(a.data.len() == u * (cells * k)) by (nonlinear_arith)
        requires
            a.data.len() == cells * item,
            item == u * k,
    ;
    vstd::arithmetic::div_mod::lemma_mod_multiples_basic(cells * k, u);
    assert((cells * k) * u == u * (cells * k)) by (nonlinear_arith);
}

} // verus!
