//! CRC-32 (IEEE 802.3, reflected polynomial 0xEDB88320), as used by ZIP.
use vstd::prelude::*;

verus! {

/// One bit of the reflected CRC shift register.
pub open spec fn crc_bit(c: u32) -> u32 {
    if c & 1 == 1 {
        0xedb88320u32 ^ (c >> 1u32)
    } else {
        c >> 1u32
    }
}

/// Eight bits of the shift register: the work of one input byte.
pub open spec fn crc_byte_shift(c: u32) -> u32 {
    crc_bit(crc_bit(crc_bit(crc_bit(crc_bit(crc_bit(crc_bit(crc_bit(c))))))))
}

/// Register after feeding the bytes of `s`, starting from all ones.
pub open spec fn crc_register(s: Seq<u8>) -> u32
    decreases s.len(),
{
    if s.len() == 0 {
        0xFFFF_FFFFu32
    } else {
        crc_byte_shift(crc_register(s.drop_last()) ^ (s.last() as u32))
    }
}

/// The CRC-32 of `s`: the final register inverted.
pub open spec fn crc32(s: Seq<u8>) -> u32 {
    crc_register(s) ^ 0xFFFF_FFFFu32
}

/// The shift of a register splits into the shift of its low byte and the
/// register moved down by a byte (the CRC is linear over GF(2)).
proof fn lemma_byte_shift_split(c: u32)
    ensures
        crc_byte_shift(c) == crc_byte_shift(c & 0xff) ^ (c >> 8u32),
{
    assert(crc_byte_shift(c) == crc_byte_shift(c & 0xff) ^ (c >> 8u32)) by (bit_vector);
}

/// The 256-entry lookup table: entry `n` is the shift of `n`.
fn crc_table() -> (t: Vec<u32>)
    ensures
        t@.len() == 256,
        forall|n: int| 0 <= n < 256 ==> #[trigger] t@[n] == crc_byte_shift(n as u32),
{
    let mut t: Vec<u32> = Vec::new();
    let mut n: u32 = 0;
    while n < 256
        invariant
            n <= 256,
            t@.len() == n,
            forall|k: int| 0 <= k < n ==> #[trigger] t@[k] == crc_byte_shift(k as u32),
        decreases 256 - n,
    {
        let mut c: u32 = n;
        let mut k: u32 = 0;
        let ghost start = n;
        while k < 8
            invariant
                k <= 8,
                k == 0 ==> c == start,
                k == 1 ==> c == crc_bit(start),
                k == 2 ==> c == crc_bit(crc_bit(start)),
                k == 3 ==> c == crc_bit(crc_bit(crc_bit(start))),
                k == 4 ==> c == crc_bit(crc_bit(crc_bit(crc_bit(start)))),
                k == 5 ==> c == crc_bit(crc_bit(crc_bit(crc_bit(crc_bit(start))))),
                k == 6 ==> c == crc_bit(crc_bit(crc_bit(crc_bit(crc_bit(crc_bit(start)))))),
                k == 7 ==> c == crc_bit(crc_bit(crc_bit(crc_bit(crc_bit(crc_bit(crc_bit(start))))))),
                k == 8 ==> c == crc_byte_shift(start),
            decreases 8 - k,
        {
            c = if c & 1 == 1 { 0xedb88320u32 ^ (c >> 1) } else { c >> 1 };
            k = k + 1;
        }
        t.push(c);
        n = n + 1;
    }
    t
}

/// `crc32_ieee`: CRC-32 of `buf`, computed a byte at a time through the
/// lookup table.
pub fn crc32_ieee(buf: &[u8]) -> (r: u32)
    ensures
        r == crc32(buf@),
{
    let table = crc_table();
    let mut crc: u32 = 0xFFFF_FFFF;
    let mut i: usize = 0;
    while i < buf.len()
        invariant
            i <= buf.len(),
            table@.len() == 256,
            forall|n: int| 0 <= n < 256 ==> #[trigger] table@[n] == crc_byte_shift(n as u32),
            crc == crc_register(buf@.take(i as int)),
        decreases buf.len() - i,
    {
        let b = buf[i];
        let idx = ((crc ^ (b as u32)) & 0xFF) as usize;
        proof {
            lemma_byte_shift_split(crc ^ (b as u32));
            assert(buf@.take(i + 1).drop_last() =~= buf@.take(i as int));
            assert(((crc ^ (b as u32)) & 0xFF) < 256) by (bit_vector);
            assert((crc ^ (b as u32)) >> 8u32 == crc >> 8u32) by (bit_vector)
                requires
                    b <= 255,
            ;
        }
        crc = table[idx] ^ (crc >> 8);
        i = i + 1;
    }
    assert(buf@.take(buf.len() as int) =~= buf@);
    crc ^ 0xFFFF_FFFF
}

} // verus!
