//! What the `.npy` reader gives back of what the writer wrote.
use vstd::prelude::*;

use crate::dtype::DType;
use crate::npy::{array_wf, le_value, magic, normalize, shape_product, spec_npy_bytes, spec_parse_header, spec_read_npy, ArrayModel, LoadError, colon, quote, key_needle, spec_get_str_value, spec_get_bool_value, spec_get_tuple_value, true_word, comma, open_paren, close_paren, FormatError, HeaderKey, dims_step, header_block, header_body, header_close, header_middle, header_open, join_dims, pad_len, parse_dims, shape_string, spec_descr, spec_parse_descr};
use crate::scan::{find, find_from, lemma_find_from_is, lemma_find_from_none, lemma_parse_decimal, matches_at, split, trim, ws_prefix_len, ws_suffix_len};
use crate::text::{all_digits, decimal, lemma_decimal_digits};

verus! {

/// Splitting `x ++ "," ++ y` where `y` holds no comma adds `y` as a last piece.
proof fn lemma_split_sep_then_plain(x: Seq<u8>, y: Seq<u8>)
    requires
        forall|i: int| 0 <= i < y.len() ==> y[i] != 44u8,
    ensures
        split(x + seq![44u8] + y, 44u8) == split(x, 44u8).push(y),
    decreases y.len(),
{
    if y.len() == 0 {
        assert(y =~= Seq::<u8>::empty());
        assert(x + seq![44u8] + y =~= x.push(44u8));
        assert((x + seq![44u8] + y).drop_last() =~= x);
    } else {
        assert(y[y.len() - 1] != 44u8);
        let y0 = y.drop_last();
        lemma_split_sep_then_plain(x, y0);
        let whole = x + seq![44u8] + y;
        assert(whole.drop_last() =~= x + seq![44u8] + y0);
        assert(whole.last() == y.last());
        let sp = split(x + seq![44u8] + y0, 44u8);
        assert(sp.update(sp.len() - 1, sp.last().push(y.last())) =~= split(x, 44u8).push(y)) by {
            assert(y0.push(y.last()) =~= y);
        }
    }
}

/// A string without commas splits into itself.
proof fn lemma_split_plain(y: Seq<u8>)
    requires
        forall|i: int| 0 <= i < y.len() ==> y[i] != 44u8,
    ensures
        split(y, 44u8) == seq![y],
    decreases y.len(),
{
    if y.len() == 0 {
        assert(y =~= Seq::<u8>::empty());
    } else {
        assert(y[y.len() - 1] != 44u8);
        lemma_split_plain(y.drop_last());
        assert(y.drop_last().push(y.last()) =~= y);
        assert(seq![y.drop_last()].update(0, y.drop_last().push(y.last())) =~= seq![y]);
    }
}

/// A digit is not whitespace, so digit strings trim to themselves.
proof fn lemma_trim_digits(d: Seq<u8>)
    requires
        d.len() >= 1,
        all_digits(d),
    ensures
        trim(d) == d,
        trim(seq![32u8] + d) == d,
{
    assert(ws_prefix_len(d) == 0) by {
        assert(48 <= d[0] <= 57);
    }
    assert(ws_suffix_len(d) == 0) by {
        assert(48 <= d[d.len() - 1] <= 57);
    }
    let sd = seq![32u8] + d;
    assert(ws_prefix_len(sd) == 1);
    assert(sd.skip(1) =~= d);
}

/// The pieces of the joined dims parse back to the dims.
proof fn lemma_parse_joined_dims(shape: Seq<usize>)
    requires
        shape.len() >= 1,
    ensures
        parse_dims(split(join_dims(shape), 44u8)) == Some(shape),
        forall|i: int| 0 <= i < join_dims(shape).len() ==> {
            let c = #[trigger] join_dims(shape)[i];
            c != 41u8 && c != 84u8 && c != 39u8 && c != 40u8 && c < 128u8
        },
    decreases shape.len(),
{
    lemma_decimal_digits(shape.last() as nat);
    lemma_parse_decimal(shape.last() as nat);
    lemma_trim_digits(decimal(shape.last() as nat));
    if shape.len() == 1 {
        let d = decimal(shape[0] as nat);
        lemma_split_plain(d);
        assert(split(d, 44u8).drop_last() =~= Seq::<Seq<u8>>::empty());
        assert(parse_dims(split(d, 44u8).drop_last()) == Some(Seq::<usize>::empty()));
        assert(split(d, 44u8).last() == d);
        assert(dims_step(Seq::<usize>::empty(), d) == Some(Seq::<usize>::empty().push(shape[0])));
        assert(Seq::<usize>::empty().push(shape[0]) =~= shape);
        assert(join_dims(shape) == d);
    } else {
        let front = shape.drop_last();
        lemma_parse_joined_dims(front);
        let d = decimal(shape.last() as nat);
        let y = seq![32u8] + d;
        assert forall|i: int| 0 <= i < y.len() implies y[i] != 44u8 by {
            if i > 0 {
                assert(y[i] == d[i - 1]);
            }
        }
        assert(join_dims(shape) =~= join_dims(front) + seq![44u8] + y);
        lemma_split_sep_then_plain(join_dims(front), y);
        let parts = split(join_dims(shape), 44u8);
        assert(parts.drop_last() =~= split(join_dims(front), 44u8));
        assert(front.push(shape.last()) =~= shape);
        assert(parts.last() == y);
        assert(dims_step(front, y) == Some(front.push(shape.last())));
        assert forall|i: int| 0 <= i < join_dims(shape).len() implies {
            let c = #[trigger] join_dims(shape)[i];
            c != 41u8 && c != 84u8 && c != 39u8 && c != 40u8 && c < 128u8
        } by {
            let jf = join_dims(front);
            if i < jf.len() {
                assert(join_dims(shape)[i] == jf[i]);
            } else if i >= jf.len() + 2 {
                assert(join_dims(shape)[i] == d[i - jf.len() - 2]);
            }
        }
    }
}

/// Bytes that never occur in a type string: quote, `T`, parentheses, comma.
pub open spec fn plain_byte(c: u8) -> bool {
    c != 39u8 && c != 84u8 && c != 40u8 && c != 41u8 && c != 44u8 && c < 128u8
}

/// The type string of a numeric dtype: 3 or 4 ASCII bytes starting with a
/// byte-order mark, free of quotes, `T`, parentheses and commas, and naming
/// the dtype back.
proof fn lemma_descr_facts(d: DType)
    requires
        d.spec_is_numeric(),
    ensures
        spec_descr(d) is Some,
        spec_descr(d).unwrap().len() == 3 || spec_descr(d).unwrap().len() == 4,
        spec_descr(d).unwrap()[0] == 124u8 || spec_descr(d).unwrap()[0] == 60u8,
        forall|i: int| 0 <= i < spec_descr(d).unwrap().len() ==> plain_byte(#[trigger] spec_descr(d).unwrap()[i]),
        spec_parse_descr(spec_descr(d).unwrap()) == Some(d),
{
    let x = spec_descr(d).unwrap();
    assert forall|i: int| 0 <= i < x.len() implies plain_byte(#[trigger] x[i]) by {
    }
    match d {
        DType::Bool => {},
        DType::I8 => { assert(x != seq![124u8, 98, 49]); },
        DType::I16 => { assert(x != seq![124u8, 98, 49]); assert(x != seq![124u8, 105, 49]); },
        _ => {},
    }
}

/// The shape tuple literal: starts with `(`, ends with `)`, holds no quote,
/// `T` or inner `)`, is ASCII, and its entries parse back to the shape.
proof fn lemma_shape_string_facts(shape: Seq<usize>)
    ensures
        shape_string(shape).len() >= 2,
        shape_string(shape)[0] == 40u8,
        shape_string(shape)[shape_string(shape).len() - 1] == 41u8,
        forall|i: int| 0 <= i < shape_string(shape).len() ==> {
            let c = #[trigger] shape_string(shape)[i];
            c != 39u8 && c != 84u8 && c < 128u8
        },
        forall|i: int| 0 <= i < shape_string(shape).len() - 1 ==> #[trigger] shape_string(shape)[i] != 41u8,
        parse_dims(split(shape_string(shape).subrange(1, shape_string(shape).len() - 1), 44u8)) == Some(shape),
{
    let ss = shape_string(shape);
    if shape.len() == 0 {
        let inner = ss.subrange(1, ss.len() - 1);
        assert(inner =~= Seq::<u8>::empty());
        assert(split(inner, 44u8).drop_last() =~= Seq::<Seq<u8>>::empty());
        assert(trim(Seq::<u8>::empty()) == Seq::<u8>::empty());
        assert(split(inner, 44u8).last() =~= Seq::<u8>::empty());
        assert(parse_dims(split(inner, 44u8).drop_last()) == Some(Seq::<usize>::empty()));
        assert(dims_step(Seq::<usize>::empty(), Seq::<u8>::empty()) == Some(Seq::<usize>::empty()));
        assert(shape =~= Seq::<usize>::empty());
    } else if shape.len() == 1 {
        let d = decimal(shape[0] as nat);
        lemma_decimal_digits(shape[0] as nat);
        lemma_parse_decimal(shape[0] as nat);
        lemma_trim_digits(d);
        let inner = ss.subrange(1, ss.len() - 1);
        assert(inner =~= d + seq![44u8] + Seq::<u8>::empty());
        lemma_split_sep_then_plain(d, Seq::<u8>::empty());
        lemma_split_plain(d);
        let parts = split(inner, 44u8);
        assert(parts =~= seq![d, Seq::<u8>::empty()]);
        assert(parts.drop_last() =~= seq![d]);
        assert(seq![d].drop_last() =~= Seq::<Seq<u8>>::empty());
        assert(parse_dims(seq![d].drop_last()) == Some(Seq::<usize>::empty()));
        assert(dims_step(Seq::<usize>::empty(), d) == Some(Seq::<usize>::empty().push(shape[0])));
        assert(parse_dims(seq![d]) == Some(Seq::<usize>::empty().push(shape[0])));
        assert(trim(Seq::<u8>::empty()) == Seq::<u8>::empty());
        assert(parts.last() =~= Seq::<u8>::empty());
        assert(dims_step(Seq::<usize>::empty().push(shape[0]), Seq::<u8>::empty()) == Some(Seq::<usize>::empty().push(shape[0])));
        assert(Seq::<usize>::empty().push(shape[0]) =~= shape);
        assert forall|i: int| 0 <= i < ss.len() implies {
            let c = #[trigger] ss[i];
            c != 39u8 && c != 84u8 && c < 128u8
        } by {
            if 1 <= i < ss.len() - 2 {
                assert(ss[i] == d[i - 1]);
            }
        }
        assert forall|i: int| 0 <= i < ss.len() - 1 implies #[trigger] ss[i] != 41u8 by {
            if 1 <= i < ss.len() - 2 {
                assert(ss[i] == d[i - 1]);
            }
        }
    } else {
        lemma_parse_joined_dims(shape);
        let j = join_dims(shape);
        assert(ss.subrange(1, ss.len() - 1) =~= j);
        assert forall|i: int| 0 <= i < ss.len() implies {
            let c = #[trigger] ss[i];
            c != 39u8 && c != 84u8 && c < 128u8
        } by {
            if 1 <= i < ss.len() - 1 {
                assert(ss[i] == j[i - 1]);
            }
        }
        assert forall|i: int| 0 <= i < ss.len() - 1 implies #[trigger] ss[i] != 41u8 by {
            if 1 <= i < ss.len() - 1 {
                assert(ss[i] == j[i - 1]);
            }
        }
    }
}

/// A position whose first two bytes differ from the pattern's is no match.
proof fn lemma_no_match_before(s: Seq<u8>, pat: Seq<u8>, p: int)
    requires
        pat.len() >= 2,
        forall|k: int| 0 <= k < p ==> (#[trigger] s[k] != pat[0] || s[k + 1] != pat[1]),
    ensures
        forall|k: int| 0 <= k < p ==> !matches_at(s, pat, k),
{
    assert forall|k: int| 0 <= k < p implies !matches_at(s, pat, k) by {
        if matches_at(s, pat, k) {
            assert(s.subrange(k, k + pat.len())[0] == s[k]);
            assert(s.subrange(k, k + pat.len())[1] == s[k + 1]);
        }
    }
}

/// The header block `block` is the dict literal around `descr` and the
/// shape literal `ss`, followed by spaces and newlines.
pub open spec fn laid_out(block: Seq<u8>, descr: Seq<u8>, ss: Seq<u8>) -> bool {
    let o2 = 11 + descr.len();
    let o3 = o2 + 36;
    let o4 = o3 + ss.len();
    &&& block.len() >= o4 + 4
    &&& forall|i: int| 0 <= i < 11 ==> block[i] == #[trigger] header_open()[i]
    &&& forall|i: int| 0 <= i < descr.len() ==> block[11 + i] == #[trigger] descr[i]
    &&& forall|i: int| 0 <= i < 36 ==> block[o2 + i] == #[trigger] header_middle()[i]
    &&& forall|i: int| 0 <= i < ss.len() ==> block[o3 + i] == #[trigger] ss[i]
    &&& forall|i: int| 0 <= i < 3 ==> block[o4 + i] == #[trigger] header_close()[i]
    &&& forall|i: int| o4 + 3 <= i < block.len() ==> (#[trigger] block[i] == 32u8 || block[i] == 10u8)
}

/// A type string as the writer produces it.
pub open spec fn descr_ok(descr: Seq<u8>) -> bool {
    &&& descr.len() == 3 || descr.len() == 4
    &&& descr[0] == 124u8 || descr[0] == 60u8
    &&& forall|i: int| 0 <= i < descr.len() ==> plain_byte(#[trigger] descr[i])
}

/// Where each part of the header block sits.
proof fn lemma_block_layout(descr: Seq<u8>, shape: Seq<usize>)
    ensures
        laid_out(header_block(descr, shape), descr, shape_string(shape)),
{
    let body = header_body(descr, shape);
    let block = header_block(descr, shape);
    let ss = shape_string(shape);
    let o4 = 11 + descr.len() + 36 + ss.len();
    assert forall|i: int| o4 + 3 <= i < block.len() implies (#[trigger] block[i] == 32u8 || block[i] == 10u8) by {
        if i < block.len() - 1 {
            assert(block[i] == Seq::new(pad_len(body.len()), |j: int| 32u8)[i - body.len()]);
        }
    }
}

/// The descr value read from a laid-out header is the type string.
proof fn lemma_block_descr(block: Seq<u8>, descr: Seq<u8>, ss: Seq<u8>)
    requires
        laid_out(block, descr, ss),
        descr_ok(descr),
    ensures
        spec_get_str_value(block, HeaderKey::Descr) == Ok::<Seq<u8>, FormatError>(descr),
{
    let needle = key_needle(HeaderKey::Descr);
    assert(block[0] == header_open()[0]);
    assert(block.subrange(1, 8) =~= needle) by {
        assert forall|i: int| 0 <= i < 7 implies block.subrange(1, 8)[i] == needle[i] by {
            assert(block[1 + i] == header_open()[1 + i]);
        }
    }
    assert(!matches_at(block, needle, 0)) by {
        assert(block.subrange(0, 7)[0] == block[0]);
    }
    lemma_find_from_is(block, needle, 0, 1);
    let rest = block.skip(8);
    assert(rest[0] == header_open()[8]);
    assert(rest.subrange(0, 1) =~= colon());
    lemma_find_from_is(rest, colon(), 0, 0);
    let rest2 = rest.skip(1);
    assert(rest2[0] == header_open()[9]);
    assert(rest2[1] == header_open()[10]);
    assert(rest2.subrange(1, 2) =~= quote());
    assert(!matches_at(rest2, quote(), 0)) by {
        assert(rest2.subrange(0, 1)[0] == rest2[0]);
    }
    lemma_find_from_is(rest2, quote(), 0, 1);
    let after = rest2.skip(2);
    assert(after[descr.len() as int] == header_middle()[0]);
    assert(after.subrange(descr.len() as int, descr.len() as int + 1) =~= quote());
    assert forall|k: int| 0 <= k < descr.len() implies !matches_at(after, quote(), k) by {
        assert(after[k] == descr[k]);
        assert(plain_byte(descr[k]));
        assert(after.subrange(k, k + 1)[0] == after[k]);
    }
    lemma_find_from_is(after, quote(), 0, descr.len() as int);
    assert(after.take(descr.len() as int) =~= descr) by {
        assert forall|k: int| 0 <= k < descr.len() implies after.take(descr.len() as int)[k] == descr[k] by {
            assert(after[k] == block[11 + k]);
        }
    }
}

/// A shape literal as the writer produces it.
pub open spec fn ss_ok(ss: Seq<u8>) -> bool {
    &&& ss.len() >= 2
    &&& ss[0] == 40u8
    &&& ss[ss.len() - 1] == 41u8
    &&& forall|i: int| 0 <= i < ss.len() ==> {
        let c = #[trigger] ss[i];
        c != 39u8 && c != 84u8 && c < 128u8
    }
    &&& forall|i: int| 0 <= i < ss.len() - 1 ==> #[trigger] ss[i] != 41u8
}

/// The fortran-order value read from a laid-out header is `False`.
proof fn lemma_block_fortran(block: Seq<u8>, descr: Seq<u8>, ss: Seq<u8>)
    requires
        laid_out(block, descr, ss),
        descr_ok(descr),
        ss_ok(ss),
    ensures
        spec_get_bool_value(block, HeaderKey::FortranOrder) == Ok::<bool, FormatError>(false),
{
    let needle = key_needle(HeaderKey::FortranOrder);
    let o2: int = 11 + descr.len() as int;
    let p: int = o2 + 3;
    assert(block.subrange(p, p + 15) =~= needle) by {
        assert forall|i: int| 0 <= i < 15 implies block.subrange(p, p + 15)[i] == needle[i] by {
            assert(block[o2 + (3 + i)] == header_middle()[3 + i]);
        }
    }
    assert forall|k: int| 0 <= k < p implies (#[trigger] block[k] != needle[0] || block[k + 1] != needle[1]) by {
        if k < 10 {
            assert(block[k] == header_open()[k]);
            assert(block[k + 1] == header_open()[k + 1]);
        } else if k == 10 {
            assert(block[11int + 0] == descr[0]);
        } else if k < o2 {
            assert(block[11 + (k - 11)] == descr[k - 11]);
            assert(plain_byte(descr[k - 11]));
        } else {
            assert(block[o2 + (k - o2)] == header_middle()[k - o2]);
            assert(block[o2 + (k + 1 - o2)] == header_middle()[k + 1 - o2]);
        }
    }
    lemma_no_match_before(block, needle, p);
    lemma_find_from_is(block, needle, 0, p);
    let after = block.skip(p + 15);
    let o3: int = o2 + 36;
    let o4: int = o3 + ss.len() as int;
    assert forall|k: int| 0 <= k implies !matches_at(after, true_word(), k) by {
        if matches_at(after, true_word(), k) {
            assert(after.subrange(k, k + 4)[0] == after[k]);
            let j = p + 15 + k;
            assert(after[k] == block[j]);
            if j < o3 {
                assert(block[o2 + (j - o2)] == header_middle()[j - o2]);
            } else if j < o4 {
                assert(block[o3 + (j - o3)] == ss[j - o3]);
            } else if j < o4 + 3 {
                assert(block[o4 + (j - o4)] == header_close()[j - o4]);
            }
        }
    }
    lemma_find_from_none(after, true_word(), 0);
}

/// The shape value read from a laid-out header is the shape whose literal
/// was written.
proof fn lemma_block_shape(block: Seq<u8>, descr: Seq<u8>, ss: Seq<u8>, shape: Seq<usize>)
    requires
        laid_out(block, descr, ss),
        descr_ok(descr),
        ss_ok(ss),
        parse_dims(split(ss.subrange(1, ss.len() - 1), 44u8)) == Some(shape),
    ensures
        spec_get_tuple_value(block, HeaderKey::Shape) == Ok::<Seq<usize>, FormatError>(shape),
{
    let needle = key_needle(HeaderKey::Shape);
    let o2: int = 11 + descr.len() as int;
    let o3: int = o2 + 36;
    let p: int = o2 + 27;
    assert(block.subrange(p, p + 7) =~= needle) by {
        assert forall|i: int| 0 <= i < 7 implies block.subrange(p, p + 7)[i] == needle[i] by {
            assert(block[o2 + (27 + i)] == header_middle()[27 + i]);
        }
    }
    assert forall|k: int| 0 <= k < p implies (#[trigger] block[k] != needle[0] || block[k + 1] != needle[1]) by {
        if k < 10 {
            assert(block[k] == header_open()[k]);
            assert(block[k + 1] == header_open()[k + 1]);
        } else if k == 10 {
            assert(block[11int + 0] == descr[0]);
        } else if k < o2 {
            assert(block[11 + (k - 11)] == descr[k - 11]);
            assert(plain_byte(descr[k - 11]));
        } else {
            assert(block[o2 + (k - o2)] == header_middle()[k - o2]);
            assert(block[o2 + (k + 1 - o2)] == header_middle()[k + 1 - o2]);
        }
    }
    lemma_no_match_before(block, needle, p);
    lemma_find_from_is(block, needle, 0, p);
    let rest = block.skip(p + 7);
    assert(rest[0] == block[o2 + 34]);
    assert(block[o2 + 34] == header_middle()[34]);
    assert(rest[1] == block[o2 + 35]);
    assert(block[o2 + 35] == header_middle()[35]);
    assert(rest[2] == block[o3 + 0]);
    assert(block[o3 + 0] == ss[0]);
    assert(rest.subrange(2, 3) =~= open_paren());
    assert forall|k: int| 0 <= k < 2 implies !matches_at(rest, open_paren(), k) by {
        assert(rest.subrange(k, k + 1)[0] == rest[k]);
    }
    lemma_find_from_is(rest, open_paren(), 0, 2);
    let tail = rest.skip(2);
    let last: int = ss.len() - 1;
    assert(tail[last] == block[o3 + last]);
    assert(tail.subrange(last, last + 1) =~= close_paren());
    assert forall|k: int| 0 <= k < last implies !matches_at(tail, close_paren(), k) by {
        assert(tail.subrange(k, k + 1)[0] == tail[k]);
        assert(tail[k] == block[o3 + k]);
        assert(ss[k] != 41u8);
    }
    lemma_find_from_is(tail, close_paren(), 0, last);
    assert(rest.subrange(3, 2 + last) =~= ss.subrange(1, ss.len() - 1)) by {
        assert forall|i: int| 0 <= i < last - 1 implies #[trigger] rest.subrange(3, 2 + last)[i] == ss.subrange(1, ss.len() - 1)[i] by {
            assert(block[o3 + (1 + i)] == ss[1 + i]);
        }
    }
}

/// Every byte of a laid-out header is ASCII, so the header is valid UTF-8.
proof fn lemma_block_utf8(block: Seq<u8>, descr: Seq<u8>, ss: Seq<u8>)
    requires
        laid_out(block, descr, ss),
        descr_ok(descr),
        ss_ok(ss),
    ensures
        vstd::utf8::valid_utf8(block),
{
    let o2: int = 11 + descr.len() as int;
    let o3: int = o2 + 36;
    let o4: int = o3 + ss.len() as int;
    assert forall|i: int| 0 <= i < block.len() implies #[trigger] vstd::utf8::is_leading_byte_width_1(block[i]) by {
        if i < 11 {
            assert(block[i] == header_open()[i]);
        } else if i < o2 {
            assert(block[11 + (i - 11)] == descr[i - 11]);
            assert(plain_byte(descr[i - 11]));
        } else if i < o3 {
            assert(block[o2 + (i - o2)] == header_middle()[i - o2]);
        } else if i < o4 {
            assert(block[o3 + (i - o3)] == ss[i - o3]);
        } else if i < o4 + 3 {
            assert(block[o4 + (i - o4)] == header_close()[i - o4]);
        }
    }
    assert(block.subrange(0, 0) =~= Seq::<u8>::empty());
    vstd::utf8::partial_valid_utf8_extend_ascii_block(block, 0, block.len() as int);
    assert(block.subrange(0, block.len() as int) =~= block);
}

/// The header the writer produces is UTF-8 and parses to its type string,
/// `False` and the shape.
proof fn lemma_written_header_parses(d: DType, shape: Seq<usize>)
    requires
        d.spec_is_numeric(),
    ensures
        vstd::utf8::valid_utf8(header_block(spec_descr(d).unwrap(), shape)),
        spec_parse_header(header_block(spec_descr(d).unwrap(), shape)) == Ok::<(Seq<u8>, bool, Seq<usize>), FormatError>((spec_descr(d).unwrap(), false, shape)),
        spec_parse_descr(spec_descr(d).unwrap()) == Some(d),
{
    let descr = spec_descr(d).unwrap();
    let ss = shape_string(shape);
    let block = header_block(descr, shape);
    lemma_descr_facts(d);
    lemma_shape_string_facts(shape);
    lemma_block_layout(descr, shape);
    lemma_block_descr(block, descr, ss);
    lemma_block_fortran(block, descr, ss);
    lemma_block_shape(block, descr, ss, shape);
    lemma_block_utf8(block, descr, ss);
}

/// Reading back what was written: the `.npy` image of a well-formed array
/// loads as that array (dtype, shape and element bytes), provided its header
/// length fits the 16-bit length field of format version 1.0.
pub proof fn lemma_npy_round_trip(a: ArrayModel)
    requires
        array_wf(a),
        header_block(spec_descr(a.dtype).unwrap(), a.shape).len() < 65536,
    ensures
        spec_read_npy(spec_npy_bytes(a)) == Ok::<ArrayModel, LoadError>(a),
{
    reveal(spec_read_npy);
    reveal(crate::npy::spec_npy_header);
    let d = a.dtype;
    let descr = spec_descr(d).unwrap();
    let block = header_block(descr, a.shape);
    lemma_written_header_parses(d, a.shape);
    let b = spec_npy_bytes(a);
    let l = block.len();
    assert(b.take(6) =~= magic());
    assert(b[6] == 1u8);
    assert(b[7] == 0u8);
    assert(b[8] == (l % 256) as u8);
    assert(b[9] == ((l / 256) % 256) as u8);
    assert(l % 256 + 256 * ((l / 256) % 256) == l) by (nonlinear_arith)
        requires
            l < 65536,
    ;
    assert(le_value(b, 8, 2) == l) by {
        reveal_with_fuel(le_value, 3);
    }
    assert(b.subrange(10, 10 + l as int) =~= block);
    let n = shape_product(a.shape) * d.spec_itemsize();
    assert(b.subrange(10 + l as int, (10 + l + n) as int) =~= a.data);
    assert(normalize(d, a.data) =~= a.data);
}

/// What `save_to_bytes` gives an array without an `.npy` type string is
/// empty, and loading nothing fails: such an array does not come back.
pub proof fn lemma_load_of_nothing_fails()
    ensures
        spec_read_npy(Seq::<u8>::empty()) == Err::<ArrayModel, LoadError>(
            LoadError::Io(crate::npy::ReadFailure::UnexpectedEof),
        ),
{
    reveal(crate::npy::spec_read_npy);
    reveal(crate::npy::spec_npy_header);
}

/// The `.npy` type string names its dtype: the byte order (`|` for one-byte
/// items, `<` little-endian otherwise), then the kind (`b` boolean, `i`
/// signed integer, `u` unsigned integer, `f` float, `c` complex), then the
/// item size in bytes, in decimal.
pub proof fn lemma_descr_names_dtype(d: DType)
    requires
        spec_descr(d) is Some,
    ensures
        ({
            let s = spec_descr(d)->Some_0;
            &&& s.len() >= 3
            &&& s[0] == (if d.spec_itemsize() == 1 { 124u8 } else { 60u8 })
            &&& (s[1] == 98u8 <==> d == DType::Bool)
            &&& (s[1] == 105u8 <==> d.spec_is_signed_int())
            &&& (s[1] == 117u8 <==> d.spec_is_unsigned_int())
            &&& (s[1] == 102u8 <==> d.spec_is_float())
            &&& (s[1] == 99u8 <==> d.spec_is_complex())
            &&& s.skip(2) == decimal(d.spec_itemsize())
        }),
{
    let s = spec_descr(d)->Some_0;
    reveal_with_fuel(decimal, 3);
    assert(s.skip(2) =~= decimal(d.spec_itemsize()));
}

/// Reading a type string is the inverse of writing one: a string read as a
/// dtype is that dtype's type string, and each dtype's string reads back
/// as it.
pub proof fn lemma_parse_descr_inverse(s: Seq<u8>, d: DType)
    ensures
        spec_parse_descr(s) == Some(d) ==> spec_descr(d) == Some(s),
        spec_descr(d) == Some(s) ==> spec_parse_descr(s) == Some(d),
{
}

} // verus!
