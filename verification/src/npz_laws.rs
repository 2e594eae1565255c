//! Reading back a written `.npz` archive.
use vstd::prelude::*;

use crate::crc32::crc32;
use crate::npy::{
    array_wf, counts_fit, lemma_read_npy_counts, header_block, le16, le_value, npy_counts_fit, spec_descr, spec_npy_bytes,
    spec_read_npy, ArrayModel, LoadError,
};
use crate::npy_laws::lemma_npy_round_trip;
use crate::npz::{
    cdh_sig, central_head, central_record, centrals, eocd_record, eocd_sig, le32, lfh_sig,
    local_head, local_record, locals, member_name, member_payload, npy_suffix, prepend_members,
    spec_find_eocd, spec_npz_bytes, spec_read_member, spec_read_members, spec_read_npz, strip_npy,
    NpzError,
};
use crate::scan::matches_at;

verus! {

proof fn lemma_le16_value(n: nat)
    requires
        n < 65536,
    ensures
        le_value(le16(n), 0, 2) == n,
{
    reveal_with_fuel(le_value, 3);
    let v = n as u64;
    assert((v % 256) + 256 * ((v / 256) % 256) == v) by (bit_vector)
        requires
            v < 65536,
    ;
}

proof fn lemma_le32_value(n: nat)
    requires
        n < 0x1_0000_0000,
    ensures
        le_value(le32(n), 0, 4) == n,
{
    reveal_with_fuel(le_value, 5);
    let v = n as u64;
    assert((v % 256) + 256 * (((v / 256) % 256) + 256 * (((v / 65536) % 256) + 256 * ((v / 16777216) % 256)))
        == v) by (bit_vector)
        requires
            v < 0x1_0000_0000,
    ;
}

/// A little-endian field depends only on its own bytes.
proof fn lemma_le_value_shift(d: Seq<u8>, base: int, s: Seq<u8>, off: int, n: nat)
    requires
        0 <= base,
        base + s.len() <= d.len(),
        d.subrange(base, base + s.len()) == s,
        0 <= off,
        off + n <= s.len(),
    ensures
        le_value(d, base + off, n) == le_value(s, off, n),
    decreases n,
{
    if n > 0 {
        assert(d[base + off] == s[off]);
        lemma_le_value_shift(d, base, s, off + 1, (n - 1) as nat);
    }
}

/// A piece of a piece of `d` is a piece of `d`.
proof fn lemma_sub_of_sub(d: Seq<u8>, p: int, h: Seq<u8>, a: int, b: int)
    requires
        0 <= p,
        p + h.len() <= d.len(),
        d.subrange(p, p + h.len()) == h,
        0 <= a <= b <= h.len(),
    ensures
        d.subrange(p + a, p + b) == h.subrange(a, b),
{
    assert(d.subrange(p + a, p + b) =~= h.subrange(a, b));
}

/// The field at `off` of the `n`-byte encoding `enc` found at `p + off` in `d`.
proof fn lemma_field(d: Seq<u8>, p: int, h: Seq<u8>, off: int, enc: Seq<u8>)
    requires
        0 <= p,
        p + h.len() <= d.len(),
        d.subrange(p, p + h.len()) == h,
        0 <= off,
        off + enc.len() <= h.len(),
        h.subrange(off, off + enc.len()) == enc,
    ensures
        le_value(d, p + off, enc.len()) == le_value(enc, 0, enc.len()),
{
    lemma_sub_of_sub(d, p, h, off, off + enc.len());
    lemma_le_value_shift(d, p + off, enc, 0, enc.len());
}

proof fn lemma_central_head_fields(nl: nat, crc: nat, size: nat, off: nat)
    ensures
        central_head(nl, crc, size, off).len() == 46,
        central_head(nl, crc, size, off).subrange(0, 4) == cdh_sig(),
        central_head(nl, crc, size, off).subrange(10, 12) == le16(0),
        central_head(nl, crc, size, off).subrange(20, 24) == le32(size),
        central_head(nl, crc, size, off).subrange(28, 30) == le16(nl),
        central_head(nl, crc, size, off).subrange(30, 32) == le16(0),
        central_head(nl, crc, size, off).subrange(32, 34) == le16(0),
        central_head(nl, crc, size, off).subrange(42, 46) == le32(off),
{
    reveal(central_head);
    let h = central_head(nl, crc, size, off);
    assert(h.subrange(0, 4) =~= cdh_sig());
    assert(h.subrange(10, 12) =~= le16(0));
    assert(h.subrange(20, 24) =~= le32(size));
    assert(h.subrange(28, 30) =~= le16(nl));
    assert(h.subrange(30, 32) =~= le16(0));
    assert(h.subrange(32, 34) =~= le16(0));
    assert(h.subrange(42, 46) =~= le32(off));
}

proof fn lemma_local_head_fields(nl: nat, crc: nat, size: nat)
    ensures
        local_head(nl, crc, size).len() == 30,
        local_head(nl, crc, size).subrange(0, 4) == lfh_sig(),
        local_head(nl, crc, size).subrange(26, 28) == le16(nl),
        local_head(nl, crc, size).subrange(28, 30) == le16(0),
{
    reveal(local_head);
    let h = local_head(nl, crc, size);
    assert(h.subrange(0, 4) =~= lfh_sig());
    assert(h.subrange(26, 28) =~= le16(nl));
    assert(h.subrange(28, 30) =~= le16(0));
}

/// The local records of the first `k` members open the local records of all.
proof fn lemma_locals_prefix(es: Seq<(Seq<char>, ArrayModel)>, k: int)
    requires
        0 <= k <= es.len(),
    ensures
        locals(es.take(k)).len() <= locals(es).len(),
        locals(es).subrange(0, locals(es.take(k)).len() as int) == locals(es.take(k)),
        centrals(es.take(k)).len() <= centrals(es).len(),
        centrals(es).subrange(0, centrals(es.take(k)).len() as int) == centrals(es.take(k)),
    decreases es.len() - k,
{
    reveal(locals);
    reveal(centrals);
    if k < es.len() {
        lemma_locals_prefix(es, k + 1);
        let t = es.take(k + 1);
        assert(t.drop_last() =~= es.take(k));
        let lt = locals(t);
        let l = locals(es.take(k));
        assert(lt.subrange(0, l.len() as int) =~= l);
        assert(locals(es).subrange(0, l.len() as int) =~= lt.subrange(0, l.len() as int));
        let ct = centrals(t);
        let c = centrals(es.take(k));
        assert(ct.subrange(0, c.len() as int) =~= c);
        assert(centrals(es).subrange(0, c.len() as int) =~= ct.subrange(0, c.len() as int));
    } else {
        assert(es.take(k) =~= es);
        assert(locals(es).subrange(0, locals(es).len() as int) =~= locals(es));
        assert(centrals(es).subrange(0, centrals(es).len() as int) =~= centrals(es));
    }
}

/// Member `j`'s local record sits at the end of the first `j + 1` records,
/// and its central entry likewise.
proof fn lemma_records_at(es: Seq<(Seq<char>, ArrayModel)>, j: int)
    requires
        0 <= j < es.len(),
    ensures
        ({
            let q = locals(es.take(j)).len() as int;
            let c = centrals(es.take(j)).len() as int;
            let rec = local_record(member_name(es[j].0), member_payload(es[j].1));
            let crec = central_record(member_name(es[j].0), member_payload(es[j].1), q as nat);
            &&& q + rec.len() == locals(es.take(j + 1)).len()
            &&& q + rec.len() <= locals(es).len()
            &&& locals(es).subrange(q, q + rec.len()) == rec
            &&& c + crec.len() == centrals(es.take(j + 1)).len()
            &&& c + crec.len() <= centrals(es).len()
            &&& centrals(es).subrange(c, c + crec.len()) == crec
        }),
{
    reveal(locals);
    reveal(centrals);
    lemma_locals_prefix(es, j + 1);
    let t = es.take(j + 1);
    assert(t.drop_last() =~= es.take(j));
    let q = locals(es.take(j)).len() as int;
    let c = centrals(es.take(j)).len() as int;
    let rec = local_record(member_name(es[j].0), member_payload(es[j].1));
    let crec = central_record(member_name(es[j].0), member_payload(es[j].1), q as nat);
    assert(locals(t) == locals(es.take(j)) + rec);
    assert(centrals(t) == centrals(es.take(j)) + crec);
    assert(locals(es).subrange(q, q + rec.len()) =~= locals(t).subrange(q, q + rec.len()));
    assert(locals(t).subrange(q, q + rec.len()) =~= rec);
    assert(centrals(es).subrange(c, c + crec.len()) =~= centrals(t).subrange(c, c + crec.len()));
    assert(centrals(t).subrange(c, c + crec.len()) =~= crec);
}

/// Whether a byte string ends with `.npy`.
pub open spec fn ends_with_npy(b: Seq<u8>) -> bool {
    b.len() >= 4 && b.subrange(b.len() - 4, b.len() as int) == npy_suffix()
}

/// A member that reads back as written: a well-formed array whose `.npy`
/// header fits version 1.0 and whose counts fit `usize`, under a name whose
/// member name fits the 16-bit length field and that does not itself end in
/// `.npy`.
pub open spec fn member_round_trips(e: (Seq<char>, ArrayModel)) -> bool {
    &&& array_wf(e.1)
    &&& header_block(spec_descr(e.1.dtype).unwrap(), e.1.shape).len() < 65536
    &&& counts_fit(e.1.dtype, e.1.shape)
    &&& member_name(e.0).len() < 65536
    &&& !ends_with_npy(vstd::utf8::encode_utf8(e.0))
}

/// The name read back from a member name is the name it was saved under.
proof fn lemma_name_back(name: Seq<char>)
    requires
        !ends_with_npy(vstd::utf8::encode_utf8(name)),
    ensures
        vstd::utf8::valid_utf8(member_name(name)),
        vstd::utf8::decode_utf8(strip_npy(member_name(name))) == name,
{
    let x = vstd::utf8::encode_utf8(name);
    let m = member_name(name);
    vstd::utf8::encode_utf8_valid_utf8(name);
    assert(vstd::utf8::valid_utf8(npy_suffix())) by {
        reveal_with_fuel(vstd::utf8::valid_utf8, 5);
        let s = npy_suffix();
        assert(s.subrange(1, 4) =~= seq![110u8, 112, 121]);
        assert(s.subrange(1, 4).subrange(1, 3) =~= seq![112u8, 121]);
        assert(s.subrange(1, 4).subrange(1, 3).subrange(1, 2) =~= seq![121u8]);
        assert(s.subrange(1, 4).subrange(1, 3).subrange(1, 2).subrange(1, 1) =~= Seq::<u8>::empty());
    }
    vstd::utf8::valid_utf8_concat(x, npy_suffix());
    assert(m.subrange(m.len() - 4, m.len() as int) =~= npy_suffix());
    assert(m.subrange(0, m.len() - 4) =~= x);
    assert(strip_npy(m) == strip_npy(x));
    assert(strip_npy(x) == x);
    vstd::utf8::encode_utf8_decode_utf8(name);
}

/// Where member `j`'s records sit in the image: its local record at the
/// offset `q` that its central entry names, its central entry at `p`.
proof fn lemma_member_layout(es: Seq<(Seq<char>, ArrayModel)>, j: int)
    requires
        0 <= j < es.len(),
    ensures
        ({
            let d = spec_npz_bytes(es);
            let fname = member_name(es[j].0);
            let payload = member_payload(es[j].1);
            let q = locals(es.take(j)).len() as int;
            let p = (locals(es).len() + centrals(es.take(j)).len()) as int;
            let rec = local_record(fname, payload);
            let crec = central_record(fname, payload, q as nat);
            &&& 0 <= q
            &&& q + rec.len() <= locals(es).len()
            &&& d.subrange(q, q + rec.len()) == rec
            &&& p + crec.len() <= d.len()
            &&& d.subrange(p, p + crec.len()) == crec
            &&& p + crec.len() == locals(es).len() + centrals(es.take(j + 1)).len()
        }),
{
    let d = spec_npz_bytes(es);
    let l = locals(es);
    let c = centrals(es);
    let fname = member_name(es[j].0);
    let payload = member_payload(es[j].1);
    let q = locals(es.take(j)).len() as int;
    let p = (l.len() + centrals(es.take(j)).len()) as int;
    lemma_records_at(es, j);
    let rec = local_record(fname, payload);
    let crec = central_record(fname, payload, q as nat);
    assert(d.subrange(q, q + rec.len()) =~= l.subrange(q, q + rec.len()));
    let cj = centrals(es.take(j)).len() as int;
    assert(d.subrange(p, p + crec.len()) =~= c.subrange(cj, cj + crec.len()));
}

/// The fields of member `j`'s central entry and local header as the reader
/// decodes them.
proof fn lemma_member_fields(es: Seq<(Seq<char>, ArrayModel)>, j: int)
    requires
        0 <= j < es.len(),
        locals(es).len() <= u32::MAX,
        member_name(es[j].0).len() < 65536,
    ensures
        ({
            let d = spec_npz_bytes(es);
            let fname = member_name(es[j].0);
            let payload = member_payload(es[j].1);
            let q = locals(es.take(j)).len() as int;
            let p = (locals(es).len() + centrals(es.take(j)).len()) as int;
            &&& p + 46 + fname.len() <= d.len()
            &&& p + 46 + fname.len() == locals(es).len() + centrals(es.take(j + 1)).len()
            &&& matches_at(d, cdh_sig(), p)
            &&& le_value(d, p + 10, 2) == 0
            &&& le_value(d, p + 20, 4) == payload.len()
            &&& le_value(d, p + 28, 2) == fname.len()
            &&& le_value(d, p + 30, 2) == 0
            &&& le_value(d, p + 32, 2) == 0
            &&& le_value(d, p + 42, 4) == q
            &&& d.subrange(p + 46, p + 46 + fname.len()) == fname
            &&& 0 <= q
            &&& q + 30 + fname.len() + payload.len() <= d.len()
            &&& matches_at(d, lfh_sig(), q)
            &&& le_value(d, q + 26, 2) == fname.len()
            &&& le_value(d, q + 28, 2) == 0
            &&& d.subrange(q + 30 + fname.len(), q + 30 + fname.len() + payload.len()) == payload
        }),
{
    let d = spec_npz_bytes(es);
    let fname = member_name(es[j].0);
    let payload = member_payload(es[j].1);
    let q = locals(es.take(j)).len() as int;
    let p = (locals(es).len() + centrals(es.take(j)).len()) as int;
    lemma_member_layout(es, j);
    let rec = local_record(fname, payload);
    let crec = central_record(fname, payload, q as nat);
    let ch = central_head(fname.len(), crc32(payload) as nat, payload.len(), q as nat);
    let lh = local_head(fname.len(), crc32(payload) as nat, payload.len());
    lemma_central_head_fields(fname.len(), crc32(payload) as nat, payload.len(), q as nat);
    lemma_local_head_fields(fname.len(), crc32(payload) as nat, payload.len());
    lemma_sub_of_sub(d, p, crec, 0, 46);
    assert(crec.subrange(0, 46) =~= ch);
    lemma_sub_of_sub(d, q, rec, 0, 30);
    assert(rec.subrange(0, 30) =~= lh);
    lemma_sub_of_sub(d, p, ch, 0, 4);
    lemma_le16_value(0);
    lemma_le16_value(fname.len());
    lemma_le32_value(payload.len());
    lemma_le32_value(q as nat);
    lemma_field(d, p, ch, 10, le16(0));
    lemma_field(d, p, ch, 20, le32(payload.len()));
    lemma_field(d, p, ch, 28, le16(fname.len()));
    lemma_field(d, p, ch, 30, le16(0));
    lemma_field(d, p, ch, 32, le16(0));
    lemma_field(d, p, ch, 42, le32(q as nat));
    lemma_sub_of_sub(d, p, crec, 46, 46 + fname.len() as int);
    assert(crec.subrange(46, 46 + fname.len() as int) =~= fname);
    lemma_sub_of_sub(d, q, lh, 0, 4);
    lemma_field(d, q, lh, 26, le16(fname.len()));
    lemma_field(d, q, lh, 28, le16(0));
    lemma_sub_of_sub(d, q, rec, 30 + fname.len() as int, 30 + fname.len() + payload.len() as int);
    assert(rec.subrange(30 + fname.len() as int, 30 + fname.len() + payload.len() as int) =~= payload);
}

/// The central entry of member `j` reads as member `j` and points at the
/// entry of member `j + 1`.
proof fn lemma_read_member_back(es: Seq<(Seq<char>, ArrayModel)>, j: int)
    requires
        0 <= j < es.len(),
        locals(es).len() <= u32::MAX,
        member_round_trips(es[j]),
    ensures
        spec_read_member(
            spec_npz_bytes(es),
            (locals(es).len() + centrals(es.take(j)).len()) as int,
        ) == Some(Ok::<((Seq<char>, ArrayModel), int), NpzError>(
            (es[j], (locals(es).len() + centrals(es.take(j + 1)).len()) as int),
        )),
{
    let d = spec_npz_bytes(es);
    let name = es[j].0;
    let a = es[j].1;
    let fname = member_name(name);
    let payload = member_payload(a);
    lemma_member_fields(es, j);
    lemma_name_back(name);
    assert(payload == spec_npy_bytes(a));
    lemma_npy_round_trip(a);
    lemma_read_npy_counts(payload, a);
    reveal(spec_read_member);
}

/// Entries `j..n` of the central directory read as members `j..n`.
proof fn lemma_read_members_back(es: Seq<(Seq<char>, ArrayModel)>, j: int)
    requires
        0 <= j <= es.len(),
        locals(es).len() <= u32::MAX,
        forall|i: int| 0 <= i < es.len() ==> #[trigger] member_round_trips(es[i]),
    ensures
        spec_read_members(
            spec_npz_bytes(es),
            (locals(es).len() + centrals(es.take(j)).len()) as int,
            (es.len() - j) as nat,
        ) == Some(Ok::<Seq<(Seq<char>, ArrayModel)>, NpzError>(es.skip(j))),
    decreases es.len() - j,
{
    if j == es.len() {
        assert(es.skip(j) =~= Seq::<(Seq<char>, ArrayModel)>::empty());
    } else {
        lemma_read_members_back(es, j + 1);
        lemma_read_member_back(es, j);
        assert(seq![es[j]] + es.skip(j + 1) =~= es.skip(j));
    }
}

/// Reading back what was written: the `.npz` image of named arrays loads as
/// those arrays under those names, in order, provided each array reads back
/// from its `.npy` image, no name ends in `.npy`, there are fewer than 65536
/// members and the local records fit the 32-bit offsets of the format.
pub proof fn lemma_npz_round_trip(es: Seq<(Seq<char>, ArrayModel)>)
    requires
        es.len() < 65536,
        locals(es).len() <= u32::MAX,
        forall|i: int| 0 <= i < es.len() ==> #[trigger] member_round_trips(es[i]),
    ensures
        spec_read_npz(spec_npz_bytes(es)) == Some(Ok::<Seq<(Seq<char>, ArrayModel)>, NpzError>(es)),
{
    let d = spec_npz_bytes(es);
    let l = locals(es);
    let c = centrals(es);
    let e = eocd_record(es.len(), c.len(), l.len());
    let hi = (d.len() - 22) as int;
    assert(hi == l.len() + c.len());
    assert(d.subrange(hi, hi + 22) =~= e);
    // the scan hits the record at its first try
    assert(matches_at(d, eocd_sig(), hi)) by {
        assert(d.subrange(hi, hi + 4) =~= e.subrange(0, 4));
        assert(e.subrange(0, 4) =~= eocd_sig());
    }
    assert(spec_find_eocd(d) == Some(hi));
    lemma_le16_value(es.len());
    lemma_le32_value(l.len());
    assert(e.subrange(10, 12) =~= le16(es.len()));
    assert(e.subrange(16, 20) =~= le32(l.len()));
    lemma_field(d, hi, e, 10, le16(es.len()));
    lemma_field(d, hi, e, 16, le32(l.len()));
    lemma_read_members_back(es, 0);
    assert(es.take(0) =~= Seq::<(Seq<char>, ArrayModel)>::empty());
    reveal(centrals);
    assert(es.skip(0) =~= es);
}

} // verus!
