//! Byte-level text scanning used by the `.npy` header reader: substring
//! search, splitting on a separator, Unicode-whitespace trimming of UTF-8
//! text, and decimal parsing of `usize` values.
use vstd::prelude::*;

use crate::text::{decimal, digits_value, lemma_decimal_digits, lemma_decimal_value, all_digits};

verus! {

/// `pat` occurs in `s` at byte offset `i`.
pub open spec fn matches_at(s: Seq<u8>, pat: Seq<u8>, i: int) -> bool {
    0 <= i && i + pat.len() <= s.len() && s.subrange(i, i + pat.len()) == pat
}

/// First offset at or after `i` where `pat` occurs in `s`.
pub open spec fn find_from(s: Seq<u8>, pat: Seq<u8>, i: int) -> Option<int>
    decreases s.len() + 1 - i,
{
    if i < 0 || i + pat.len() > s.len() {
        None
    } else if matches_at(s, pat, i) {
        Some(i)
    } else {
        find_from(s, pat, i + 1)
    }
}

/// First offset where `pat` occurs in `s` (`str::find`).
pub open spec fn find(s: Seq<u8>, pat: Seq<u8>) -> Option<int> {
    find_from(s, pat, 0)
}

/// What `find_from` returns: the first match at or after `i`.
pub proof fn lemma_find_from(s: Seq<u8>, pat: Seq<u8>, i: int)
    requires
        0 <= i,
    ensures
        find_from(s, pat, i) matches Some(r) ==> i <= r && matches_at(s, pat, r) && forall|k: int| i <= k < r ==> !matches_at(s, pat, k),
        find_from(s, pat, i) is None ==> forall|k: int| i <= k ==> !matches_at(s, pat, k),
    decreases s.len() + 1 - i,
{
    if i + pat.len() > s.len() {
    } else if matches_at(s, pat, i) {
    } else {
        lemma_find_from(s, pat, i + 1);
    }
}

/// A match at `p` with no match in `[i, p)` is what `find_from(.., i)` finds.
pub proof fn lemma_find_from_is(s: Seq<u8>, pat: Seq<u8>, i: int, p: int)
    requires
        0 <= i <= p,
        matches_at(s, pat, p),
        forall|k: int| i <= k < p ==> !matches_at(s, pat, k),
    ensures
        find_from(s, pat, i) == Some(p),
    decreases p - i,
{
    if i < p {
        lemma_find_from_is(s, pat, i + 1, p);
    }
}

/// With no match at or after `i`, `find_from(.., i)` finds nothing.
pub proof fn lemma_find_from_none(s: Seq<u8>, pat: Seq<u8>, i: int)
    requires
        0 <= i,
        forall|k: int| i <= k ==> !matches_at(s, pat, k),
    ensures
        find_from(s, pat, i) is None,
    decreases s.len() + 1 - i,
{
    if i + pat.len() <= s.len() {
        lemma_find_from_none(s, pat, i + 1);
    }
}

/// Searching a suffix of `s` is searching `s` from the suffix's start.
pub proof fn lemma_find_skip(s: Seq<u8>, pat: Seq<u8>, k: int, j: int)
    requires
        0 <= k <= s.len(),
        0 <= j,
    ensures
        find_from(s.skip(k), pat, j) == (match find_from(s, pat, k + j) {
            Some(r) => Some(r - k),
            None => None,
        }),
    decreases s.len() - k + 1 - j,
{
    let t = s.skip(k);
    if j + pat.len() <= t.len() {
        assert(t.subrange(j, j + pat.len()) =~= s.subrange(k + j, k + j + pat.len()));
    }
    if j + pat.len() > t.len() {
    } else if matches_at(t, pat, j) {
    } else {
        lemma_find_skip(s, pat, k, j + 1);
    }
}

pub(crate) fn matches_at_exec(s: &[u8], pat: &[u8], i: usize) -> (r: bool)
    requires
        i + pat.len() <= s.len(),
    ensures
        r == matches_at(s@, pat@, i as int),
{
    let mut j: usize = 0;
    while j < pat.len()
        invariant
            i + pat.len() <= s.len(),
            j <= pat.len(),
            forall|k: int| 0 <= k < j ==> s@[i + k] == pat@[k],
        decreases pat.len() - j,
    {
        if s[i + j] != pat[j] {
            assert(s@.subrange(i as int, i + pat.len())[j as int] != pat@[j as int]);
            return false;
        }
        j = j + 1;
    }
    assert(s@.subrange(i as int, i + pat.len()) =~= pat@);
    true
}

/// `str::find` on bytes: the first offset at or after `start` where `pat`
/// occurs in `s`.
pub fn find_bytes_from(s: &[u8], pat: &[u8], start: usize) -> (r: Option<usize>)
    ensures
        match r {
            Some(p) => find_from(s@, pat@, start as int) == Some(p as int),
            None => find_from(s@, pat@, start as int) is None,
        },
{
    if pat.len() > s.len() {
        return None;
    }
    let last = s.len() - pat.len();
    let mut i: usize = start;
    while i <= last
        invariant
            last + pat.len() == s.len(),
            start <= i,
            find_from(s@, pat@, start as int) == find_from(s@, pat@, i as int),
        decreases last + 1 - i,
    {
        if matches_at_exec(s, pat, i) {
            return Some(i);
        }
        if i == last {
            return None;
        }
        i = i + 1;
    }
    None
}

pub fn find_bytes(s: &[u8], pat: &[u8]) -> (r: Option<usize>)
    ensures
        match r {
            Some(p) => find(s@, pat@) == Some(p as int),
            None => find(s@, pat@) is None,
        },
{
    find_bytes_from(s, pat, 0)
}

/// `s.split(sep)`: the pieces between occurrences of the byte `sep`, in order
/// (one more piece than there are separators).
pub open spec fn split(s: Seq<u8>, sep: u8) -> Seq<Seq<u8>>
    decreases s.len(),
{
    if s.len() == 0 {
        seq![Seq::<u8>::empty()]
    } else {
        let rest = split(s.drop_last(), sep);
        if s.last() == sep {
            rest.push(Seq::<u8>::empty())
        } else {
            rest.update(rest.len() - 1, rest.last().push(s.last()))
        }
    }
}

pub proof fn lemma_split_nonempty(s: Seq<u8>, sep: u8)
    ensures
        split(s, sep).len() >= 1,
    decreases s.len(),
{
    if s.len() > 0 {
        lemma_split_nonempty(s.drop_last(), sep);
    }
}

/// Length in bytes of a Unicode whitespace character (`char::is_whitespace`)
/// encoded in UTF-8 at the start of `s`, or 0.
pub open spec fn ws_prefix_len(s: Seq<u8>) -> nat {
    if s.len() >= 1 && ((9 <= s[0] <= 13) || s[0] == 32) {
        1
    } else if s.len() >= 2 && s[0] == 0xC2 && (s[1] == 0x85 || s[1] == 0xA0) {
        2
    } else if s.len() >= 3 && is_ws3(s[0], s[1], s[2]) {
        3
    } else {
        0
    }
}

/// Length in bytes of a Unicode whitespace character encoded in UTF-8 at the
/// end of `s`, or 0.
pub open spec fn ws_suffix_len(s: Seq<u8>) -> nat {
    let n = s.len();
    if n >= 1 && ((9 <= s[n - 1] <= 13) || s[n - 1] == 32) {
        1
    } else if n >= 2 && s[n - 2] == 0xC2 && (s[n - 1] == 0x85 || s[n - 1] == 0xA0) {
        2
    } else if n >= 3 && is_ws3(s[n - 3], s[n - 2], s[n - 1]) {
        3
    } else {
        0
    }
}

/// The three-byte UTF-8 encodings of the Unicode whitespace characters
/// U+1680, U+2000..U+200A, U+2028, U+2029, U+202F, U+205F and U+3000.
pub open spec fn is_ws3(a: u8, b: u8, c: u8) -> bool {
    (a == 0xE1 && b == 0x9A && c == 0x80)
        || (a == 0xE2 && b == 0x80 && ((0x80 <= c <= 0x8A) || c == 0xA8 || c == 0xA9 || c == 0xAF))
        || (a == 0xE2 && b == 0x81 && c == 0x9F)
        || (a == 0xE3 && b == 0x80 && c == 0x80)
}

/// `str::trim_start`.
pub open spec fn trim_start(s: Seq<u8>) -> Seq<u8>
    decreases s.len(),
{
    if ws_prefix_len(s) == 0 {
        s
    } else {
        trim_start(s.skip(ws_prefix_len(s) as int))
    }
}

/// `str::trim_end`.
pub open spec fn trim_end(s: Seq<u8>) -> Seq<u8>
    decreases s.len(),
{
    if ws_suffix_len(s) == 0 {
        s
    } else {
        trim_end(s.take(s.len() - ws_suffix_len(s)))
    }
}

/// `str::trim`.
pub open spec fn trim(s: Seq<u8>) -> Seq<u8> {
    trim_end(trim_start(s))
}

/// `usize::from_str`: an optional `+`, then one or more decimal digits whose
/// value fits in `usize`.
pub open spec fn parse_usize(s: Seq<u8>) -> Option<nat> {
    let digits = if s.len() >= 2 && s[0] == 43 { s.skip(1) } else { s };
    if digits.len() == 0 || !all_digits(digits) || digits_value(digits) > usize::MAX {
        None
    } else {
        Some(digits_value(digits))
    }
}

fn is_ws3_exec(a: u8, b: u8, c: u8) -> (r: bool)
    ensures
        r == is_ws3(a, b, c),
{
    (a == 0xE1 && b == 0x9A && c == 0x80)
        || (a == 0xE2 && b == 0x80 && ((0x80 <= c && c <= 0x8A) || c == 0xA8 || c == 0xA9 || c == 0xAF))
        || (a == 0xE2 && b == 0x81 && c == 0x9F)
        || (a == 0xE3 && b == 0x80 && c == 0x80)
}

/// The bytes of `s[lo..hi]` with Unicode whitespace removed from both ends,
/// given as the bounds of the trimmed range.
pub fn trim_range(s: &[u8], lo: usize, hi: usize) -> (r: (usize, usize))
    requires
        lo <= hi <= s.len(),
    ensures
        r.0 <= r.1 <= s.len(),
        s@.subrange(r.0 as int, r.1 as int) == trim(s@.subrange(lo as int, hi as int)),
{
    let mut a = lo;
    let mut done = false;
    while !done && a < hi
        invariant
            lo <= a <= hi <= s.len(),
            trim_start(s@.subrange(lo as int, hi as int)) == trim_start(s@.subrange(a as int, hi as int)),
            done ==> ws_prefix_len(s@.subrange(a as int, hi as int)) == 0,
        decreases hi - a + (if done { 0int } else { 1int }),
    {
        let k = ws_prefix_at(s, a, hi);
        if k == 0 {
            done = true;
        } else {
            let ghost cur = s@.subrange(a as int, hi as int);
            assert(cur.skip(k as int) =~= s@.subrange(a + k, hi as int));
            a = a + k;
        }
    }
    let ghost start = s@.subrange(a as int, hi as int);
    assert(ws_prefix_len(start) == 0);
    assert(trim_start(s@.subrange(lo as int, hi as int)) == start);
    let mut b = hi;
    let mut done2 = false;
    while !done2 && b > a
        invariant
            a <= b <= hi <= s.len(),
            trim_end(start) == trim_end(s@.subrange(a as int, b as int)),
            done2 ==> ws_suffix_len(s@.subrange(a as int, b as int)) == 0,
        decreases b - a + (if done2 { 0int } else { 1int }),
    {
        let k = ws_suffix_at(s, a, b);
        if k == 0 {
            done2 = true;
        } else {
            let ghost cur = s@.subrange(a as int, b as int);
            assert(cur.take(cur.len() - k) =~= s@.subrange(a as int, b - k));
            b = b - k;
        }
    }
    assert(ws_suffix_len(s@.subrange(a as int, b as int)) == 0);
    (a, b)
}

fn ws_prefix_at(s: &[u8], a: usize, hi: usize) -> (k: usize)
    requires
        a <= hi <= s.len(),
    ensures
        k == ws_prefix_len(s@.subrange(a as int, hi as int)),
        k <= hi - a,
{
    let ghost cur = s@.subrange(a as int, hi as int);
    let n = hi - a;
    if n >= 1 && (9 <= s[a] && s[a] <= 13 || s[a] == 32) {
        1
    } else if n >= 2 && s[a] == 0xC2 && (s[a + 1] == 0x85 || s[a + 1] == 0xA0) {
        2
    } else if n >= 3 && is_ws3_exec(s[a], s[a + 1], s[a + 2]) {
        3
    } else {
        0
    }
}

fn ws_suffix_at(s: &[u8], a: usize, b: usize) -> (k: usize)
    requires
        a <= b <= s.len(),
    ensures
        k == ws_suffix_len(s@.subrange(a as int, b as int)),
        k <= b - a,
{
    let ghost cur = s@.subrange(a as int, b as int);
    let n = b - a;
    if n >= 1 && (9 <= s[b - 1] && s[b - 1] <= 13 || s[b - 1] == 32) {
        1
    } else if n >= 2 && s[b - 2] == 0xC2 && (s[b - 1] == 0x85 || s[b - 1] == 0xA0) {
        2
    } else if n >= 3 && is_ws3_exec(s[b - 3], s[b - 2], s[b - 1]) {
        3
    } else {
        0
    }
}

/// `usize::from_str` on `s[lo..hi]`.
pub fn parse_usize_range(s: &[u8], lo: usize, hi: usize) -> (r: Option<usize>)
    requires
        lo <= hi <= s.len(),
    ensures
        match r {
            Some(v) => parse_usize(s@.subrange(lo as int, hi as int)) == Some(v as nat),
            None => parse_usize(s@.subrange(lo as int, hi as int)) is None,
        },
{
    let ghost whole = s@.subrange(lo as int, hi as int);
    let start = if hi - lo >= 2 && s[lo] == 43 { lo + 1 } else { lo };
    let ghost digits = s@.subrange(start as int, hi as int);
    assert(digits =~= (if whole.len() >= 2 && whole[0] == 43 { whole.skip(1) } else { whole }));
    if start == hi {
        return None;
    }
    let mut acc: usize = 0;
    let mut i: usize = start;
    while i < hi
        invariant
            start <= i <= hi <= s.len(),
            digits == s@.subrange(start as int, hi as int),
            whole == s@.subrange(lo as int, hi as int),
            digits == (if whole.len() >= 2 && whole[0] == 43 { whole.skip(1) } else { whole }),
            all_digits(s@.subrange(start as int, i as int)),
            acc as nat == digits_value(s@.subrange(start as int, i as int)),
        decreases hi - i,
    {
        let c = s[i];
        let ghost pre = s@.subrange(start as int, i as int);
        let ghost next = s@.subrange(start as int, i + 1);
        assert(next.drop_last() =~= pre);
        if c < 48 || c > 57 {
            assert(!all_digits(digits)) by {
                assert(digits[(i - start) as int] == c);
            }
            return None;
        }
        let d = (c - 48) as usize;
        assert(digits_value(next) == digits_value(pre) * 10 + d);
        if acc > (usize::MAX - d) / 10 {
            assert(acc * 10 + d > usize::MAX) by (nonlinear_arith)
                requires
                    acc > (usize::MAX - d) / 10,
                    d <= 9,
            ;
            proof {
                if all_digits(digits) {
                    assert(next =~= digits.take((i + 1 - start) as int));
                    lemma_digits_value_prefix_monotone(digits, (i + 1 - start) as int);
                }
            }
            return None;
        }
        assert(acc * 10 + d <= usize::MAX) by (nonlinear_arith)
            requires
                acc <= (usize::MAX - d) / 10,
                d <= 9,
        ;
        acc = acc * 10 + d;
        i = i + 1;
    }
    assert(s@.subrange(start as int, hi as int) =~= digits);
    Some(acc)
}

/// A longer prefix of a digit string has at least the value of a shorter one.
pub proof fn lemma_digits_value_prefix_monotone(s: Seq<u8>, k: int)
    requires
        0 <= k <= s.len(),
        all_digits(s),
    ensures
        digits_value(s.take(k)) <= digits_value(s),
    decreases s.len() - k,
{
    if k < s.len() {
        lemma_digits_value_prefix_monotone(s, k + 1);
        assert(s.take(k + 1).drop_last() =~= s.take(k));
    } else {
        assert(s.take(k) =~= s);
    }
}

/// The decimal rendering of `n` parses back to `n`.
pub proof fn lemma_parse_decimal(n: nat)
    requires
        n <= usize::MAX,
    ensures
        parse_usize(decimal(n)) == Some(n),
{
    lemma_decimal_digits(n);
    lemma_decimal_value(n);
}

} // verus!
