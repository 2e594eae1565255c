//! The numpy `.npz` format: a STORED (uncompressed) ZIP archive whose members
//! are `.npy` images named `<name>.npy`.
//!
//! ```text
//!   per member:
//!     local file header     (30 bytes + file name)
//!     file data             (the .npy image)
//!   end:
//!     central directory     (one entry per member, 46 bytes + file name each)
//!     end-of-central-directory record (22 bytes)
//! ```
//!
//! No compression, no encryption, no zip64, no extra fields on write.
use vstd::prelude::*;

use crate::crc32::{crc32, crc32_ieee};
use crate::npy::{
    le16, le_value, npy_counts_fit, npy_counts_fit_exec, read_from as npy_read_from, save_to_bytes, slice_range,
    spec_descr, spec_npy_bytes, spec_read_npy, utf8_valid, ArrayModel, LoadError, RawArray,
};
use crate::scan::{matches_at, matches_at_exec};
use crate::text::{extend_bytes, string_from_utf8};

verus! {

/// Little-endian `u32` encoding of `n` modulo 2^32.
pub open spec fn le32(n: nat) -> Seq<u8> {
    seq![(n % 256) as u8, ((n / 256) % 256) as u8, ((n / 65536) % 256) as u8, ((n / 16777216) % 256) as u8]
}

/// Signature of a local file header.
pub open spec fn lfh_sig() -> Seq<u8> {
    le32(0x04034b50)
}

/// Signature of a central directory entry.
pub open spec fn cdh_sig() -> Seq<u8> {
    le32(0x02014b50)
}

/// Signature of the end-of-central-directory record.
pub open spec fn eocd_sig() -> Seq<u8> {
    le32(0x06054b50)
}

/// The file-name suffix `.npy`.
pub open spec fn npy_suffix() -> Seq<u8> {
    seq![46u8, 110, 112, 121]
}

/// Fixed part of a local file header (30 bytes): version 2.0, no flags,
/// STORED, no time stamp, CRC, both sizes, name length, no extra field.
#[verifier::opaque]
pub open spec fn local_head(name_len: nat, crc: nat, size: nat) -> Seq<u8> {
    lfh_sig() + le16(20) + le16(0) + le16(0) + le16(0) + le16(0) + le32(crc) + le32(size) + le32(size)
        + le16(name_len) + le16(0)
}

/// Fixed part of a central directory entry (46 bytes), pointing at the local
/// header found at `offset`.
#[verifier::opaque]
pub open spec fn central_head(name_len: nat, crc: nat, size: nat, offset: nat) -> Seq<u8> {
    cdh_sig() + le16(20) + le16(20) + le16(0) + le16(0) + le16(0) + le16(0) + le32(crc) + le32(size)
        + le32(size) + le16(name_len) + le16(0) + le16(0) + le16(0) + le16(0) + le32(0) + le32(offset)
}

/// End-of-central-directory record (22 bytes) without comment.
pub open spec fn eocd_record(count: nat, cd_size: nat, cd_offset: nat) -> Seq<u8> {
    eocd_sig() + le16(0) + le16(0) + le16(count) + le16(count) + le32(cd_size) + le32(cd_offset) + le16(0)
}

/// The archive member name of an array saved under `name`.
pub open spec fn member_name(name: Seq<char>) -> Seq<u8> {
    vstd::utf8::encode_utf8(name) + npy_suffix()
}

/// The member data of an array: its `.npy` image, or nothing when its dtype
/// has no `.npy` type string.
pub open spec fn member_payload(a: ArrayModel) -> Seq<u8> {
    if spec_descr(a.dtype) is Some {
        spec_npy_bytes(a)
    } else {
        Seq::empty()
    }
}

/// Local header, name and data of one member.
pub open spec fn local_record(fname: Seq<u8>, payload: Seq<u8>) -> Seq<u8> {
    local_head(fname.len(), crc32(payload) as nat, payload.len()) + fname + payload
}

/// Central directory entry of one member whose local header is at `offset`.
pub open spec fn central_record(fname: Seq<u8>, payload: Seq<u8>, offset: nat) -> Seq<u8> {
    central_head(fname.len(), crc32(payload) as nat, payload.len(), offset) + fname
}

/// The local records of all members, in order.
#[verifier::opaque]
pub open spec fn locals(es: Seq<(Seq<char>, ArrayModel)>) -> Seq<u8>
    decreases es.len(),
{
    if es.len() == 0 {
        Seq::empty()
    } else {
        let e = es.last();
        locals(es.drop_last()) + local_record(member_name(e.0), member_payload(e.1))
    }
}

/// The central directory: one entry per member, each pointing at the offset
/// of its local record.
#[verifier::opaque]
pub open spec fn centrals(es: Seq<(Seq<char>, ArrayModel)>) -> Seq<u8>
    decreases es.len(),
{
    if es.len() == 0 {
        Seq::empty()
    } else {
        let e = es.last();
        centrals(es.drop_last()) + central_record(
            member_name(e.0),
            member_payload(e.1),
            locals(es.drop_last()).len(),
        )
    }
}

/// The `.npz` image of named arrays.
pub open spec fn spec_npz_bytes(es: Seq<(Seq<char>, ArrayModel)>) -> Seq<u8> {
    locals(es) + centrals(es) + eocd_record(es.len(), centrals(es).len(), locals(es).len())
}

/// The mathematical content of a list of named arrays.
pub open spec fn entry_models(named: Seq<(String, RawArray)>) -> Seq<(Seq<char>, ArrayModel)> {
    Seq::new(named.len(), |i: int| (named[i].0@, named[i].1@))
}

/// Appends the little-endian `u16` encoding of `n` (modulo 2^16).
fn push_le16(w: &mut Vec<u8>, n: usize)
    ensures
        final(w)@ == old(w)@ + le16(n as nat),
{
    w.push((n % 256) as u8);
    w.push(((n / 256) % 256) as u8);
    assert(final(w)@ =~= old(w)@ + le16(n as nat));
}

/// Appends the little-endian `u32` encoding of `n` (modulo 2^32).
fn push_le32(w: &mut Vec<u8>, n: usize)
    ensures
        final(w)@ == old(w)@ + le32(n as nat),
{
    w.push((n % 256) as u8);
    w.push(((n / 256) % 256) as u8);
    w.push(((n / 65536) % 256) as u8);
    w.push(((n / 16777216) % 256) as u8);
    assert(final(w)@ =~= old(w)@ + le32(n as nat));
}

fn local_head_bytes(name_len: usize, crc: u32, size: usize) -> (r: Vec<u8>)
    ensures
        r@ == local_head(name_len as nat, crc as nat, size as nat),
{
    let mut h: Vec<u8> = Vec::new();
    push_le32(&mut h, 0x04034b50);
    push_le16(&mut h, 20);
    push_le16(&mut h, 0);
    push_le16(&mut h, 0);
    push_le16(&mut h, 0);
    push_le16(&mut h, 0);
    push_le32(&mut h, crc as usize);
    push_le32(&mut h, size);
    push_le32(&mut h, size);
    push_le16(&mut h, name_len);
    push_le16(&mut h, 0);
    reveal(local_head);
    assert(h@ =~= local_head(name_len as nat, crc as nat, size as nat));
    h
}

fn central_head_bytes(name_len: usize, crc: u32, size: usize, offset: usize) -> (r: Vec<u8>)
    ensures
        r@ == central_head(name_len as nat, crc as nat, size as nat, offset as nat),
{
    let mut h: Vec<u8> = Vec::new();
    push_le32(&mut h, 0x02014b50);
    push_le16(&mut h, 20);
    push_le16(&mut h, 20);
    push_le16(&mut h, 0);
    push_le16(&mut h, 0);
    push_le16(&mut h, 0);
    push_le16(&mut h, 0);
    push_le32(&mut h, crc as usize);
    push_le32(&mut h, size);
    push_le32(&mut h, size);
    push_le16(&mut h, name_len);
    push_le16(&mut h, 0);
    push_le16(&mut h, 0);
    push_le16(&mut h, 0);
    push_le16(&mut h, 0);
    push_le32(&mut h, 0);
    push_le32(&mut h, offset);
    reveal(central_head);
    assert(h@ =~= central_head(name_len as nat, crc as nat, size as nat, offset as nat));
    h
}

fn eocd_bytes(count: usize, cd_size: usize, cd_offset: usize) -> (r: Vec<u8>)
    ensures
        r@ == eocd_record(count as nat, cd_size as nat, cd_offset as nat),
{
    let mut h: Vec<u8> = Vec::new();
    push_le32(&mut h, 0x06054b50);
    push_le16(&mut h, 0);
    push_le16(&mut h, 0);
    push_le16(&mut h, count);
    push_le16(&mut h, count);
    push_le32(&mut h, cd_size);
    push_le32(&mut h, cd_offset);
    push_le16(&mut h, 0);
    assert(h@ =~= eocd_record(count as nat, cd_size as nat, cd_offset as nat));
    h
}

/// The member name bytes `<name>.npy`.
fn member_name_bytes(name: &String) -> (r: Vec<u8>)
    ensures
        r@ == member_name(name@),
{
    let mut out: Vec<u8> = Vec::new();
    extend_bytes(&mut out, name.as_str().as_bytes());
    out.push(46u8);
    out.push(110u8);
    out.push(112u8);
    out.push(121u8);
    assert(out@ =~= member_name(name@));
    out
}

/// One more member appends its local record and its central entry.
proof fn lemma_records_step(es: Seq<(Seq<char>, ArrayModel)>, i: int)
    requires
        0 <= i < es.len(),
    ensures
        locals(es.take(i + 1)) == locals(es.take(i)) + local_record(member_name(es[i].0), member_payload(es[i].1)),
        centrals(es.take(i + 1)) == centrals(es.take(i)) + central_record(
            member_name(es[i].0),
            member_payload(es[i].1),
            locals(es.take(i)).len(),
        ),
        local_record(member_name(es[i].0), member_payload(es[i].1)).len() == 30 + member_name(es[i].0).len()
            + member_payload(es[i].1).len(),
{
    reveal(locals);
    reveal(centrals);
    reveal(local_head);
    assert(es.take(i + 1).drop_last() =~= es.take(i));
}

/// Lengths of the local records and of the central directory only grow with
/// more members.
proof fn lemma_locals_monotone(es: Seq<(Seq<char>, ArrayModel)>, i: int)
    requires
        0 <= i <= es.len(),
    ensures
        locals(es.take(i)).len() <= locals(es).len(),
        centrals(es.take(i)).len() <= centrals(es).len(),
    decreases es.len() - i,
{
    reveal(locals);
    reveal(centrals);
    if i < es.len() {
        lemma_locals_monotone(es, i + 1);
        assert(es.take(i + 1).drop_last() =~= es.take(i));
    } else {
        assert(es.take(i) =~= es);
    }
}

/// `write_to`: appends the `.npz` image of the named arrays to `w`. Each
/// array is stored as member `<name>.npy` holding its `.npy` image (no bytes
/// for a dtype without a `.npy` type string).
pub fn write_to(w: &mut Vec<u8>, named: &[(String, RawArray)])
    requires
        locals(entry_models(named@)).len() <= u32::MAX,
        centrals(entry_models(named@)).len() <= u32::MAX,
        old(w)@.len() + spec_npz_bytes(entry_models(named@)).len() <= usize::MAX,
    ensures
        final(w)@ == old(w)@ + spec_npz_bytes(entry_models(named@)),
{
    let ghost es = entry_models(named@);
    let ghost start = w@;
    let mut offset: usize = 0;
    let mut cd: Vec<u8> = Vec::new();
    let mut i: usize = 0;
    proof {
        reveal(locals);
        reveal(centrals);
        assert(es.take(0) =~= Seq::<(Seq<char>, ArrayModel)>::empty());
        assert(w@ =~= start + locals(es.take(0)));
    }
    while i < named.len()
        invariant
            es == entry_models(named@),
            i <= named.len(),
            locals(es).len() <= u32::MAX,
            centrals(es).len() <= u32::MAX,
            start.len() + spec_npz_bytes(es).len() <= usize::MAX,
            w@ == start + locals(es.take(i as int)),
            cd@ == centrals(es.take(i as int)),
            offset == locals(es.take(i as int)).len(),
        decreases named.len() - i,
    {
        let name = &named[i].0;
        let arr = &named[i].1;
        let ghost prev_locals = locals(es.take(i as int));
        let ghost prev_centrals = centrals(es.take(i as int));
        proof {
            lemma_locals_monotone(es, i + 1);
            lemma_records_step(es, i as int);
            assert(es[i as int] == (name@, arr@));
        }
        let payload = save_to_bytes(arr);
        let fname = member_name_bytes(name);
        let crc = crc32_ieee(payload.as_slice());
        let local_offset = offset;
        let head = local_head_bytes(fname.len(), crc, payload.len());
        let ghost rec = local_record(fname@, payload@);
        assert(rec == head@ + fname@ + payload@);
        extend_bytes(w, head.as_slice());
        extend_bytes(w, fname.as_slice());
        extend_bytes(w, payload.as_slice());
        assert(w@ =~= start + (prev_locals + rec));
        offset = offset + 30 + fname.len() + payload.len();
        let chead = central_head_bytes(fname.len(), crc, payload.len(), local_offset);
        let ghost crec = central_record(fname@, payload@, local_offset as nat);
        assert(crec == chead@ + fname@);
        extend_bytes(&mut cd, chead.as_slice());
        extend_bytes(&mut cd, fname.as_slice());
        assert(cd@ =~= prev_centrals + crec);
        i = i + 1;
    }
    assert(es.take(named.len() as int) =~= es);
    let cd_offset = offset;
    let cd_size = cd.len();
    extend_bytes(w, cd.as_slice());
    let tail = eocd_bytes(named.len(), cd_size, cd_offset);
    extend_bytes(w, tail.as_slice());
    assert(w@ =~= start + spec_npz_bytes(es));
}


// ---------------------------------------------------------------------
// Reading
// ---------------------------------------------------------------------

/// What is wrong with an archive.
#[derive(Clone, Copy, Debug, PartialEq, Eq, Structural)]
pub enum NpzFormatError {
    /// No end-of-central-directory record in the last 64 KiB + 22 bytes.
    NoEndOfCentralDirectory,
    /// A central directory entry does not start with its signature.
    BadCentralDirectoryHeader,
    /// A member name is not UTF-8.
    NonUtf8Name,
    /// A local file header does not start with its signature.
    BadLocalFileHeader,
    /// A member is not a readable `.npy` image.
    InnerNpy(LoadError),
    /// An offset or a size points past the end of the image, or a member's
    /// header names more elements than a `usize` counts.
    Unreadable,
}

/// Failure to read an archive.
#[derive(Clone, Copy, Debug, PartialEq, Eq, Structural)]
pub enum NpzError {
    Format(NpzFormatError),
    /// A member is compressed (only STORED members are read).
    Compression,
}

/// Scan for the end-of-central-directory signature at offsets
/// `lo + k - 1` down to `lo`; the first (highest) hit.
pub open spec fn eocd_scan(d: Seq<u8>, lo: int, k: nat) -> Option<int>
    decreases k,
{
    if k == 0 {
        None
    } else if matches_at(d, eocd_sig(), lo + k - 1) {
        Some(lo + k - 1)
    } else {
        eocd_scan(d, lo, (k - 1) as nat)
    }
}

/// A hit of the scan lies in the scanned range and holds the signature.
pub proof fn lemma_eocd_scan_range(d: Seq<u8>, lo: int, k: nat)
    ensures
        eocd_scan(d, lo, k) matches Some(i) ==> lo <= i < lo + k && matches_at(d, eocd_sig(), i),
    decreases k,
{
    if k > 0 {
        lemma_eocd_scan_range(d, lo, (k - 1) as nat);
    }
}

/// Offset of the end-of-central-directory record: the last signature at an
/// offset that leaves room for the 22-byte record, among the last
/// 65535 + 22 bytes (the longest archive comment).
pub open spec fn spec_find_eocd(d: Seq<u8>) -> Option<int> {
    if d.len() < 22 {
        None
    } else {
        let hi = d.len() - 22;
        let lo = if hi > 65535 { hi - 65535 } else { 0 };
        eocd_scan(d, lo, (hi - lo + 1) as nat)
    }
}

/// A member name with every trailing `.npy` removed.
pub open spec fn strip_npy(b: Seq<u8>) -> Seq<u8>
    decreases b.len(),
{
    if b.len() >= 4 && b.subrange(b.len() - 4, b.len() as int) == npy_suffix() {
        strip_npy(b.subrange(0, b.len() - 4))
    } else {
        b
    }
}

/// Reading the central directory entry at `p` and the member it points at:
/// the name and array with the offset of the next entry, an error, or `None`
/// where the reader would index out of bounds.
#[verifier::opaque]
pub open spec fn spec_read_member(d: Seq<u8>, p: int) -> Option<Result<((Seq<char>, ArrayModel), int), NpzError>> {
    if p + 4 > d.len() {
        None
    } else if !matches_at(d, cdh_sig(), p) {
        Some(Err(NpzError::Format(NpzFormatError::BadCentralDirectoryHeader)))
    } else if p + 12 > d.len() {
        None
    } else if le_value(d, p + 10, 2) != 0 {
        Some(Err(NpzError::Compression))
    } else if p + 46 > d.len() {
        None
    } else {
        let size = le_value(d, p + 20, 4);
        let name_len = le_value(d, p + 28, 2);
        let skip = le_value(d, p + 30, 2) + le_value(d, p + 32, 2);
        let lo = le_value(d, p + 42, 4) as int;
        if p + 46 + name_len > d.len() {
            None
        } else {
            let nb = d.subrange(p + 46, p + 46 + name_len);
            if !vstd::utf8::valid_utf8(nb) {
                Some(Err(NpzError::Format(NpzFormatError::NonUtf8Name)))
            } else if lo + 4 > d.len() {
                None
            } else if !matches_at(d, lfh_sig(), lo) {
                Some(Err(NpzError::Format(NpzFormatError::BadLocalFileHeader)))
            } else if lo + 30 > d.len() {
                None
            } else {
                let start = lo + 30 + le_value(d, lo + 26, 2) + le_value(d, lo + 28, 2);
                if start + size > d.len() {
                    None
                } else {
                    let blob = d.subrange(start, start + size);
                    if !npy_counts_fit(blob) {
                        None
                    } else {
                        match spec_read_npy(blob) {
                            Err(e) => Some(Err(NpzError::Format(NpzFormatError::InnerNpy(e)))),
                            Ok(a) => Some(Ok(((vstd::utf8::decode_utf8(strip_npy(nb)), a), p + 46 + name_len + skip))),
                        }
                    }
                }
            }
        }
    }
}

/// `pre` followed by the members of a successful read; errors pass through.
pub open spec fn prepend_members(
    pre: Seq<(Seq<char>, ArrayModel)>,
    r: Option<Result<Seq<(Seq<char>, ArrayModel)>, NpzError>>,
) -> Option<Result<Seq<(Seq<char>, ArrayModel)>, NpzError>> {
    match r {
        Some(Ok(s)) => Some(Ok(pre + s)),
        other => other,
    }
}

/// Reading `k` central directory entries starting at `p`.
pub open spec fn spec_read_members(d: Seq<u8>, p: int, k: nat) -> Option<Result<Seq<(Seq<char>, ArrayModel)>, NpzError>>
    decreases k,
{
    if k == 0 {
        Some(Ok(Seq::empty()))
    } else {
        match spec_read_member(d, p) {
            None => None,
            Some(Err(e)) => Some(Err(e)),
            Some(Ok((m, next))) => prepend_members(seq![m], spec_read_members(d, next, (k - 1) as nat)),
        }
    }
}

/// The named arrays of an `.npz` image, the first error the reader meets,
/// or `None` where the reader would index out of bounds.
pub open spec fn spec_read_npz(d: Seq<u8>) -> Option<Result<Seq<(Seq<char>, ArrayModel)>, NpzError>> {
    match spec_find_eocd(d) {
        None => Some(Err(NpzError::Format(NpzFormatError::NoEndOfCentralDirectory))),
        Some(i) => spec_read_members(d, le_value(d, i + 16, 4) as int, le_value(d, i + 10, 2)),
    }
}

/// Little-endian value of the `n` bytes at `i` (`n` is 2 or 4).
fn le_at(d: &[u8], i: usize, n: usize) -> (r: usize)
    requires
        n == 2 || n == 4,
        i + n <= d@.len(),
    ensures
        r == le_value(d@, i as int, n as nat),
        n == 2 ==> r < 65536,
        r < 4294967296,
{
    proof {
        reveal_with_fuel(le_value, 5);
    }
    if n == 2 {
        (d[i] as usize) + 256 * (d[i + 1] as usize)
    } else {
        (d[i] as usize) + 256 * ((d[i + 1] as usize) + 256 * ((d[i + 2] as usize) + 256 * (d[i + 3] as usize)))
    }
}

fn sig_bytes(b2: u8, b3: u8) -> (r: Vec<u8>)
    ensures
        r@ == seq![0x50u8, 0x4bu8, b2, b3],
{
    let r = vec![0x50u8, 0x4b, b2, b3];
    assert(r@ =~= seq![0x50u8, 0x4bu8, b2, b3]);
    r
}

/// `find_eocd`: offset of the end-of-central-directory record, scanning
/// backwards.
fn find_eocd(data: &[u8]) -> (r: Option<usize>)
    ensures
        match r {
            Some(i) => spec_find_eocd(data@) == Some(i as int) && i + 22 <= data@.len(),
            None => spec_find_eocd(data@) is None,
        },
{
    if data.len() < 22 {
        return None;
    }
    let sig = sig_bytes(5, 6);
    assert(sig@ =~= eocd_sig());
    let hi = data.len() - 22;
    let lo = if hi > 65535 { hi - 65535 } else { 0 };
    let ghost total = (hi - lo + 1) as nat;
    let mut k: usize = hi - lo + 1;
    while k > 0
        invariant
            lo + k <= hi + 1,
            data@.len() >= 22,
            hi == data@.len() - 22,
            lo <= hi,
            sig@ == eocd_sig(),
            total == (hi - lo + 1) as nat,
            spec_find_eocd(data@) == eocd_scan(data@, lo as int, k as nat),
        decreases k,
    {
        let i = lo + (k - 1);
        if matches_at_exec(data, sig.as_slice(), i) {
            proof {
                lemma_eocd_scan_range(data@, lo as int, k as nat);
            }
            return Some(i);
        }
        k = k - 1;
    }
    None
}

/// Offset just past the name once every trailing `.npy` is removed.
fn strip_npy_end(b: &[u8]) -> (e: usize)
    ensures
        e <= b@.len(),
        b@.subrange(0, e as int) == strip_npy(b@),
{
    let suffix = vec![46u8, 110, 112, 121];
    assert(suffix@ =~= npy_suffix());
    let mut e: usize = b.len();
    let mut done = false;
    assert(b@.subrange(0, e as int) =~= b@);
    while !done
        invariant
            e <= b@.len(),
            suffix@ == npy_suffix(),
            strip_npy(b@) == strip_npy(b@.subrange(0, e as int)),
            done ==> strip_npy(b@.subrange(0, e as int)) == b@.subrange(0, e as int),
        decreases e + (if done { 0int } else { 1int }),
    {
        let ghost cur = b@.subrange(0, e as int);
        if e >= 4 && matches_at_exec(b, suffix.as_slice(), e - 4) {
            assert(cur.subrange(cur.len() - 4, cur.len() as int) =~= b@.subrange(e - 4, e as int));
            assert(cur.subrange(0, cur.len() - 4) =~= b@.subrange(0, e - 4));
            e = e - 4;
        } else {
            if e >= 4 {
                assert(cur.subrange(cur.len() - 4, cur.len() as int) =~= b@.subrange(e - 4, e as int));
            }
            done = true;
        }
    }
    e
}

/// Removing trailing `.npy` from valid UTF-8 leaves valid UTF-8: each cut
/// falls before an ASCII byte, on a character boundary.
pub proof fn lemma_strip_npy_valid(b: Seq<u8>)
    requires
        vstd::utf8::valid_utf8(b),
    ensures
        vstd::utf8::valid_utf8(strip_npy(b)),
    decreases b.len(),
{
    if b.len() >= 4 && b.subrange(b.len() - 4, b.len() as int) == npy_suffix() {
        let k = b.len() - 4;
        assert(b[k] == b.subrange(b.len() - 4, b.len() as int)[0]);
        vstd::utf8::is_char_boundary_iff_not_is_continuation_byte(b, k);
        vstd::utf8::valid_utf8_split(b, k);
        lemma_strip_npy_valid(b.subrange(0, k));
    }
}

/// Reads the central directory entry at `p` and the member it points at.
fn read_member(d: &[u8], p: usize) -> (r: Result<((String, RawArray), usize), NpzError>)
    requires
        d@.len() <= isize::MAX,
        spec_read_member(d@, p as int) is Some,
    ensures
        match r {
            Ok((m, next)) => spec_read_member(d@, p as int) == Some(
                Ok::<((Seq<char>, ArrayModel), int), NpzError>(((m.0@, m.1@), next as int)),
            ),
            Err(e) => spec_read_member(d@, p as int) == Some(Err::<((Seq<char>, ArrayModel), int), NpzError>(e)),
        },
{
    reveal(spec_read_member);
    let cdh = sig_bytes(1, 2);
    assert(cdh@ =~= cdh_sig());
    if !matches_at_exec(d, cdh.as_slice(), p) {
        return Err(NpzError::Format(NpzFormatError::BadCentralDirectoryHeader));
    }
    let method = le_at(d, p + 10, 2);
    if method != 0 {
        return Err(NpzError::Compression);
    }
    let size = le_at(d, p + 20, 4);
    let name_len = le_at(d, p + 28, 2);
    let extra_len = le_at(d, p + 30, 2);
    let comment_len = le_at(d, p + 32, 2);
    let local_offset = le_at(d, p + 42, 4);
    let nb = slice_range(d, p + 46, p + 46 + name_len);
    if !utf8_valid(nb) {
        return Err(NpzError::Format(NpzFormatError::NonUtf8Name));
    }
    assert(isize::MAX + 131118 <= usize::MAX);
    let next = p + 46 + name_len + extra_len + comment_len;
    let lfh = sig_bytes(3, 4);
    assert(lfh@ =~= lfh_sig());
    if !matches_at_exec(d, lfh.as_slice(), local_offset) {
        return Err(NpzError::Format(NpzFormatError::BadLocalFileHeader));
    }
    let l_name_len = le_at(d, local_offset + 26, 2);
    let l_extra_len = le_at(d, local_offset + 28, 2);
    let start = local_offset + 30 + l_name_len + l_extra_len;
    let blob = slice_range(d, start, start + size);
    let arr = match npy_read_from(blob) {
        Err(e) => return Err(NpzError::Format(NpzFormatError::InnerNpy(e))),
        Ok(a) => a,
    };
    let end = strip_npy_end(nb);
    let mut stripped: Vec<u8> = Vec::new();
    extend_bytes(&mut stripped, slice_range(nb, 0, end));
    proof {
        lemma_strip_npy_valid(nb@);
    }
    let name = string_from_utf8(stripped);
    Ok(((name, arr), next))
}

/// `i + n` lies within `len`, computed without overflow.
fn within(len: usize, i: usize, n: usize) -> (r: bool)
    ensures
        r == (i + n <= len),
{
    i <= len && len - i >= n
}

/// Whether reading the entry at `p` stays inside the image
/// (`spec_read_member` is `Some`), computed.
fn member_readable(d: &[u8], p: usize) -> (r: bool)
    requires
        d@.len() <= isize::MAX,
    ensures
        r == (spec_read_member(d@, p as int) is Some),
{
    reveal(spec_read_member);
    let len = d.len();
    if !within(len, p, 4) {
        return false;
    }
    let cdh = sig_bytes(1, 2);
    assert(cdh@ =~= cdh_sig());
    if !matches_at_exec(d, cdh.as_slice(), p) {
        return true;
    }
    if !within(len, p, 12) {
        return false;
    }
    if le_at(d, p + 10, 2) != 0 {
        return true;
    }
    if !within(len, p, 46) {
        return false;
    }
    let size = le_at(d, p + 20, 4);
    let name_len = le_at(d, p + 28, 2);
    let local_offset = le_at(d, p + 42, 4);
    if !within(len, p + 46, name_len) {
        return false;
    }
    let nb = slice_range(d, p + 46, p + 46 + name_len);
    if !utf8_valid(nb) {
        return true;
    }
    if !within(len, local_offset, 4) {
        return false;
    }
    let lfh = sig_bytes(3, 4);
    assert(lfh@ =~= lfh_sig());
    if !matches_at_exec(d, lfh.as_slice(), local_offset) {
        return true;
    }
    if !within(len, local_offset, 30) {
        return false;
    }
    assert(isize::MAX + 131118 <= usize::MAX);
    let start = local_offset + 30 + le_at(d, local_offset + 26, 2) + le_at(d, local_offset + 28, 2);
    if !within(len, start, size) {
        return false;
    }
    let blob = slice_range(d, start, start + size);
    npy_counts_fit_exec(blob)
}

proof fn lemma_prepend_step(
    out: Seq<(Seq<char>, ArrayModel)>,
    m: (Seq<char>, ArrayModel),
    rest: Option<Result<Seq<(Seq<char>, ArrayModel)>, NpzError>>,
)
    ensures
        prepend_members(out, prepend_members(seq![m], rest)) == prepend_members(out.push(m), rest),
{
    match rest {
        Some(Ok(s)) => {
            assert(out + (seq![m] + s) =~= out.push(m) + s);
        },
        _ => {},
    }
}

/// `read_from`: the named arrays of an in-memory `.npz` image, names with
/// their trailing `.npy` removed.
pub fn read_from(data: &[u8]) -> (r: Result<Vec<(String, RawArray)>, NpzError>)
    requires
        data@.len() <= isize::MAX,
    ensures
        match r {
            Ok(v) => spec_read_npz(data@) == Some(Ok::<Seq<(Seq<char>, ArrayModel)>, NpzError>(entry_models(v@))),
            Err(e) => if spec_read_npz(data@) is Some {
                spec_read_npz(data@) == Some(Err::<Seq<(Seq<char>, ArrayModel)>, NpzError>(e))
            } else {
                e == NpzError::Format(NpzFormatError::Unreadable)
            },
        },
{
    let eocd = match find_eocd(data) {
        None => return Err(NpzError::Format(NpzFormatError::NoEndOfCentralDirectory)),
        Some(i) => i,
    };
    let entries = le_at(data, eocd + 10, 2);
    let cd_offset = le_at(data, eocd + 16, 4);
    let mut out: Vec<(String, RawArray)> = Vec::new();
    let mut p: usize = cd_offset;
    let mut k: usize = 0;
    assert(entry_models(out@) =~= Seq::<(Seq<char>, ArrayModel)>::empty());
    proof {
        match spec_read_members(data@, p as int, entries as nat) {
            Some(Ok(s)) => {
                assert(Seq::<(Seq<char>, ArrayModel)>::empty() + s =~= s);
            },
            _ => {},
        }
    }
    while k < entries
        invariant
            data@.len() <= isize::MAX,
            k <= entries,
            spec_read_npz(data@) == prepend_members(
                entry_models(out@),
                spec_read_members(data@, p as int, (entries - k) as nat),
            ),
        decreases entries - k,
    {
        if !member_readable(data, p) {
            assert(spec_read_members(data@, p as int, (entries - k) as nat) is None);
            return Err(NpzError::Format(NpzFormatError::Unreadable));
        }
        let (m, next) = match read_member(data, p) {
            Err(e) => return Err(e),
            Ok(t) => t,
        };
        let ghost mm = (m.0@, m.1@);
        proof {
            lemma_prepend_step(entry_models(out@), mm, spec_read_members(data@, next as int, (entries - k - 1) as nat));
        }
        let ghost before = out@;
        out.push(m);
        assert(entry_models(out@) =~= entry_models(before).push(mm));
        p = next;
        k = k + 1;
    }
    proof {
        match spec_read_npz(data@) {
            Some(Ok(s)) => {
                assert(entry_models(out@) + Seq::<(Seq<char>, ArrayModel)>::empty() =~= entry_models(out@));
            },
            _ => {},
        }
    }
    Ok(out)
}

} // verus!
