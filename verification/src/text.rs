//! ASCII text helpers shared by the dtype names and the `.npy` header:
//! decimal rendering of integers and conversion of ASCII bytes to `String`.
use vstd::prelude::*;

verus! {

/// The ASCII code of the decimal digit `d` (`d < 10`).
pub open spec fn digit_char(d: nat) -> u8 {
    (48 + d) as u8
}

/// Decimal rendering of `n` without sign or leading zeros (`0` renders as `"0"`).
pub open spec fn decimal(n: nat) -> Seq<u8>
    decreases n,
{
    if n < 10 {
        seq![digit_char(n)]
    } else {
        decimal(n / 10).push(digit_char(n % 10))
    }
}

/// Every byte of `s` is ASCII.
pub open spec fn all_ascii(s: Seq<u8>) -> bool {
    forall|i: int| 0 <= i < s.len() ==> #[trigger] s[i] < 128
}

/// Every byte of `s` is an ASCII decimal digit.
pub open spec fn all_digits(s: Seq<u8>) -> bool {
    forall|i: int| 0 <= i < s.len() ==> 48 <= #[trigger] s[i] <= 57
}

/// The characters named by a sequence of ASCII bytes.
pub open spec fn ascii_chars(s: Seq<u8>) -> Seq<char> {
    s.map_values(|b: u8| b as char)
}

pub proof fn lemma_decimal_digits(n: nat)
    ensures
        decimal(n).len() >= 1,
        all_digits(decimal(n)),
        all_ascii(decimal(n)),
    decreases n,
{
    if n >= 10 {
        lemma_decimal_digits(n / 10);
    }
}

/// Value of a sequence of decimal digits, most significant first.
pub open spec fn digits_value(s: Seq<u8>) -> nat
    decreases s.len(),
{
    if s.len() == 0 {
        0
    } else {
        digits_value(s.drop_last()) * 10 + (s.last() - 48) as nat
    }
}

pub proof fn lemma_decimal_value(n: nat)
    ensures
        digits_value(decimal(n)) == n,
        decimal(n)[0] != 48 || n == 0,
    decreases n,
{
    if n >= 10 {
        lemma_decimal_value(n / 10);
        lemma_decimal_digits(n / 10);
        assert(decimal(n).drop_last() =~= decimal(n / 10));
        assert(decimal(n).last() == digit_char(n % 10));
        assert((digit_char(n % 10) - 48) as nat == n % 10);
        assert(decimal(n)[0] == decimal(n / 10)[0]);
        assert(digits_value(decimal(n)) == digits_value(decimal(n).drop_last()) * 10 + (decimal(n).last() - 48) as nat);
        assert((n / 10) * 10 + n % 10 == n);
    } else {
        assert(decimal(n).drop_last() =~= Seq::<u8>::empty());
        assert(digits_value(decimal(n).drop_last()) == 0);
    }
}

/// Renders `n` in decimal as ASCII bytes.
pub fn decimal_bytes(n: u64) -> (r: Vec<u8>)
    ensures
        r@ == decimal(n as nat),
{
    let mut digits: Vec<u8> = Vec::new();
    let mut m: u64 = n;
    // digits are produced least significant first, then reversed
    while m >= 10
        invariant
            m <= n,
            decimal(n as nat) == decimal(m as nat) + digits@.reverse(),
        decreases m,
    {
        let d: u8 = (m % 10) as u8;
        let ghost old_digits = digits@;
        digits.push(48 + d);
        assert(digits@.reverse() =~= seq![(48 + d) as u8] + old_digits.reverse());
        assert(decimal(m as nat) == decimal((m / 10) as nat).push(digit_char((m % 10) as nat)));
        assert(decimal(m as nat) + old_digits.reverse() =~= decimal((m / 10) as nat) + digits@.reverse());
        m = m / 10;
    }
    let mut out: Vec<u8> = Vec::new();
    let last: u8 = m as u8;
    out.push(48 + last);
    assert(out@ =~= seq![digit_char(m as nat)] + digits@.reverse().subrange(0, 0)) by {
        assert(digit_char(m as nat) == 48 + last);
    }
    let len = digits.len();
    let mut i: usize = 0;
    while i < len
        invariant
            len == digits.len(),
            i <= len,
            out@ =~= seq![digit_char(m as nat)] + digits@.reverse().subrange(0, i as int),
        decreases len - i,
    {
        out.push(digits[len - 1 - i]);
        i = i + 1;
    }
    assert(digits@.reverse().subrange(0, len as int) =~= digits@.reverse());
    out
}

/// `String::from_utf8` on bytes that the caller has checked to be valid
/// UTF-8. The documentation of `String::from_utf8` states that valid UTF-8 is
/// moved into the string unchanged, so the string holds the characters that
/// the bytes encode.
#[verifier::external_body]
pub(crate) fn string_from_utf8(bytes: Vec<u8>) -> (s: String)
    requires
        vstd::utf8::valid_utf8(bytes@),
    ensures
        s@ == vstd::utf8::decode_utf8(bytes@),
{
    String::from_utf8(bytes).unwrap_or_default()
}

/// ASCII bytes are valid UTF-8, each byte encoding the character with the
/// same code.
pub proof fn lemma_ascii_utf8(b: Seq<u8>)
    requires
        all_ascii(b),
    ensures
        vstd::utf8::valid_utf8(b),
        vstd::utf8::decode_utf8(b) == ascii_chars(b),
{
    let c = ascii_chars(b);
    assert forall|i: int| 0 <= i < c.len() implies '\0' <= #[trigger] c[i] <= '\u{7f}' by {
        assert(b[i] < 128);
    }
    assert(vstd::utf8::is_ascii_chars(c));
    vstd::utf8::is_ascii_chars_encode_utf8(c);
    let e = vstd::utf8::encode_utf8(c);
    assert forall|i: int| 0 <= i < b.len() implies e[i] == b[i] by {
        assert(c[i] as u8 == e[i]);
        assert(b[i] < 128);
    }
    assert(e =~= b);
    vstd::utf8::encode_utf8_valid_utf8(c);
    vstd::utf8::encode_utf8_decode_utf8(c);
}

/// A `String` holding the characters named by ASCII bytes.
pub(crate) fn string_from_ascii(bytes: Vec<u8>) -> (s: String)
    requires
        all_ascii(bytes@),
    ensures
        s@ == ascii_chars(bytes@),
{
    proof {
        lemma_ascii_utf8(bytes@);
    }
    string_from_utf8(bytes)
}

/// Appends all of `src` to `dst`.
pub fn extend_bytes(dst: &mut Vec<u8>, src: &[u8])
    ensures
        final(dst)@ == old(dst)@ + src@,
{
    let mut i: usize = 0;
    let ghost start = dst@;
    while i < src.len()
        invariant
            i <= src.len(),
            dst@ =~= start + src@.subrange(0, i as int),
        decreases src.len() - i,
    {
        dst.push(src[i]);
        i = i + 1;
    }
    assert(src@.subrange(0, src.len() as int) =~= src@);
}

} // verus!
