//! The layout of a text table (`loadtxt`): which lines hold rows, how a row
//! splits into cells, and the shape the cells fill. Lines are UTF-8 bytes;
//! a cell is the text of one value, left for the caller to parse.
//!
//! After `skiprows` lines, each line is trimmed of Unicode whitespace; an
//! empty line, or one that starts with the comment marker, holds no row.
//! A row splits at every occurrence of the delimiter (at every character
//! for an empty delimiter, at every ASCII whitespace byte for none); each
//! piece is trimmed and the empty ones dropped. Rows left with no cell are
//! dropped too.
use vstd::prelude::*;

use crate::scan::{find_bytes_from, find_from, lemma_find_from, matches_at_exec, trim, trim_end, trim_range, trim_start, ws_prefix_len, ws_suffix_len};

verus! {

/// `[x]`, or nothing for an empty `x`.
pub open spec fn keep(x: Seq<u8>) -> Seq<Seq<u8>> {
    if x.len() == 0 { Seq::empty() } else { seq![x] }
}

/// The cells of `t` from `start` on, split at the non-empty delimiter `d`.
pub open spec fn cells_by(t: Seq<u8>, d: Seq<u8>, start: int) -> Seq<Seq<u8>>
    decreases t.len() + 1 - start,
{
    if d.len() == 0 || start < 0 || start > t.len() {
        Seq::empty()
    } else {
        match find_from(t, d, start) {
            None => keep(trim(t.subrange(start, t.len() as int))),
            Some(i) => if i < start || i + d.len() > t.len() {
                Seq::empty()
            } else {
                keep(trim(t.subrange(start, i))) + cells_by(t, d, i + d.len())
            },
        }
    }
}

/// An ASCII whitespace byte (`u8::is_ascii_whitespace`).
pub open spec fn ascii_ws(b: u8) -> bool {
    b == 32 || b == 9 || b == 10 || b == 12 || b == 13
}

/// The first ASCII whitespace byte at or after `i`.
pub open spec fn next_ascii_ws(t: Seq<u8>, i: int) -> Option<int>
    decreases t.len() - i,
{
    if i < 0 || i >= t.len() {
        None
    } else if ascii_ws(t[i]) {
        Some(i)
    } else {
        next_ascii_ws(t, i + 1)
    }
}

/// The cells of `t` from `start` on, split at ASCII whitespace.
pub open spec fn cells_ws(t: Seq<u8>, start: int) -> Seq<Seq<u8>>
    decreases t.len() + 1 - start,
{
    if start < 0 || start > t.len() {
        Seq::empty()
    } else {
        match next_ascii_ws(t, start) {
            None => keep(trim(t.subrange(start, t.len() as int))),
            Some(i) => if i < start || i >= t.len() {
                Seq::empty()
            } else {
                keep(trim(t.subrange(start, i))) + cells_ws(t, i + 1)
            },
        }
    }
}

/// A UTF-8 continuation byte.
pub open spec fn continuation(b: u8) -> bool {
    0x80 <= b <= 0xBF
}

/// The end of the character that starts at `i`: the first position after
/// `i` that holds no continuation byte.
pub open spec fn char_end(t: Seq<u8>, i: int) -> int
    decreases t.len() - i,
{
    if i + 1 >= t.len() || !continuation(t[i + 1]) {
        i + 1
    } else {
        char_end(t, i + 1)
    }
}

/// The cells of `t` from `start` on, one per character.
pub open spec fn cells_chars(t: Seq<u8>, start: int) -> Seq<Seq<u8>>
    decreases t.len() - start,
{
    if start < 0 || start >= t.len() {
        Seq::empty()
    } else {
        let e = char_end(t, start);
        if e <= start || e > t.len() {
            Seq::empty()
        } else {
            keep(trim(t.subrange(start, e))) + cells_chars(t, e)
        }
    }
}

/// `t` starts with `c`.
pub open spec fn starts_with(t: Seq<u8>, c: Seq<u8>) -> bool {
    c.len() <= t.len() && t.take(c.len() as int) == c
}

/// The cells of one line: none for a blank or comment line.
pub open spec fn line_cells(line: Seq<u8>, delim: Option<Seq<u8>>, comments: Seq<u8>) -> Seq<Seq<u8>> {
    let t = trim(line);
    if t.len() == 0 || starts_with(t, comments) {
        Seq::empty()
    } else {
        match delim {
            None => cells_ws(t, 0),
            Some(d) => if d.len() == 0 { cells_chars(t, 0) } else { cells_by(t, d, 0) },
        }
    }
}

proof fn lemma_char_end(t: Seq<u8>, i: int)
    requires
        0 <= i < t.len(),
    ensures
        i < char_end(t, i) <= t.len(),
    decreases t.len() - i,
{
    if i + 1 < t.len() && continuation(t[i + 1]) {
        lemma_char_end(t, i + 1);
    }
}

proof fn lemma_next_ascii_ws(t: Seq<u8>, i: int)
    requires
        0 <= i,
    ensures
        next_ascii_ws(t, i) matches Some(k) ==> i <= k < t.len(),
    decreases t.len() - i,
{
    if i < t.len() && !ascii_ws(t[i]) {
        lemma_next_ascii_ws(t, i + 1);
    }
}

/// Appends the trimmed piece `t[lo..hi]` when it is not empty.
fn push_piece(out: &mut Vec<Vec<u8>>, t: &[u8], lo: usize, hi: usize)
    requires
        lo <= hi <= t@.len(),
    ensures
        views(final(out)@) == views(old(out)@) + keep(trim(t@.subrange(lo as int, hi as int))),
{
    let (a, b) = trim_range(t, lo, hi);
    if a < b {
        let mut v: Vec<u8> = Vec::new();
        let mut k: usize = a;
        while k < b
            invariant
                a <= k <= b <= t@.len(),
                v@ == t@.subrange(a as int, k as int),
            decreases b - k,
        {
            v.push(t[k]);
            k = k + 1;
            assert(v@ =~= t@.subrange(a as int, k as int));
        }
        let ghost before = out@;
        out.push(v);
        assert(views(out@) =~= views(before) + keep(trim(t@.subrange(lo as int, hi as int))));
    } else {
        assert(keep(trim(t@.subrange(lo as int, hi as int))) =~= Seq::<Seq<u8>>::empty());
        assert(views(out@) =~= views(out@) + Seq::<Seq<u8>>::empty());
    }
}

/// The byte sequences of a list of byte vectors.
pub open spec fn views(v: Seq<Vec<u8>>) -> Seq<Seq<u8>> {
    Seq::new(v.len(), |i: int| v[i]@)
}

/// The cells of a trimmed line `t` under a delimiter.
fn split_cells(t: &[u8], delim: Option<&[u8]>) -> (r: Vec<Vec<u8>>)
    ensures
        views(r@) == (match delim {
            None => cells_ws(t@, 0),
            Some(d) => if d@.len() == 0 { cells_chars(t@, 0) } else { cells_by(t@, d@, 0) },
        }),
{
    let mut out: Vec<Vec<u8>> = Vec::new();
    let n = t.len();
    assert(views(out@) =~= Seq::<Seq<u8>>::empty());
    match delim {
        None => {
            let mut start: usize = 0;
            let mut done = false;
            while !done
                invariant
                    start <= n,
                    n == t@.len(),
                    !done ==> cells_ws(t@, 0) == views(out@) + cells_ws(t@, start as int),
                    done ==> cells_ws(t@, 0) == views(out@),
                decreases n - start + (if done { 0int } else { 1int }),
            {
                let mut i = start;
                while i < n && !(t[i] == 32 || t[i] == 9 || t[i] == 10 || t[i] == 12 || t[i] == 13)
                    invariant
                        start <= i <= n,
                        n == t@.len(),
                        next_ascii_ws(t@, start as int) == next_ascii_ws(t@, i as int),
                    decreases n - i,
                {
                    i = i + 1;
                }
                let ghost rest = cells_ws(t@, start as int);
                let ghost before = views(out@);
                proof {
                    lemma_next_ascii_ws(t@, start as int);
                }
                push_piece(&mut out, t, start, i);
                if i < n {
                    assert(next_ascii_ws(t@, i as int) == Some(i as int));
                    assert(rest == keep(trim(t@.subrange(start as int, i as int))) + cells_ws(t@, i + 1));
                    assert(before + rest =~= views(out@) + cells_ws(t@, i + 1));
                    start = i + 1;
                } else {
                    assert(next_ascii_ws(t@, i as int) is None);
                    assert(rest == keep(trim(t@.subrange(start as int, n as int))));
                    assert(before + rest =~= views(out@));
                    done = true;
                }
            }
        },
        Some(d) => {
            if d.len() == 0 {
                let mut start: usize = 0;
                while start < n
                    invariant
                        start <= n,
                        n == t@.len(),
                        cells_chars(t@, 0) == views(out@) + cells_chars(t@, start as int),
                    decreases n - start,
                {
                    let mut e = start + 1;
                    while e < n && t[e] >= 0x80 && t[e] <= 0xBF
                        invariant
                            start < e <= n,
                            n == t@.len(),
                            char_end(t@, start as int) == char_end(t@, e - 1),
                        decreases n - e,
                    {
                        e = e + 1;
                    }
                    assert(char_end(t@, e - 1) == e);
                    proof {
                        lemma_char_end(t@, start as int);
                    }
                    let ghost before = views(out@);
                    let ghost rest = cells_chars(t@, start as int);
                    push_piece(&mut out, t, start, e);
                    assert(rest == keep(trim(t@.subrange(start as int, e as int))) + cells_chars(t@, e as int));
                    assert(before + rest =~= views(out@) + cells_chars(t@, e as int));
                    start = e;
                }
                assert(cells_chars(t@, n as int) =~= Seq::<Seq<u8>>::empty());
                assert(views(out@) + Seq::<Seq<u8>>::empty() =~= views(out@));
            } else {
                let mut start: usize = 0;
                let mut done = false;
                while !done
                    invariant
                        start <= n,
                        n == t@.len(),
                        d@.len() > 0,
                        !done ==> cells_by(t@, d@, 0) == views(out@) + cells_by(t@, d@, start as int),
                        done ==> cells_by(t@, d@, 0) == views(out@),
                    decreases n - start + (if done { 0int } else { 1int }),
                {
                    let ghost rest = cells_by(t@, d@, start as int);
                    let ghost before = views(out@);
                    proof {
                        lemma_find_from(t@, d@, start as int);
                    }
                    match find_bytes_from(t, d, start) {
                        None => {
                            push_piece(&mut out, t, start, n);
                            assert(rest == keep(trim(t@.subrange(start as int, n as int))));
                            assert(before + rest =~= views(out@));
                            done = true;
                        },
                        Some(i) => {
                            push_piece(&mut out, t, start, i);
                            assert(rest == keep(trim(t@.subrange(start as int, i as int))) + cells_by(t@, d@, i + d@.len()));
                            assert(before + rest =~= views(out@) + cells_by(t@, d@, i + d@.len()));
                            start = i + d.len();
                        },
                    }
                }
            }
        },
    }
    out
}

/// The rows of the lines: the cells of each line, lines without cells
/// dropped.
pub open spec fn table_rows(lines: Seq<Seq<u8>>, delim: Option<Seq<u8>>, comments: Seq<u8>) -> Seq<Seq<Seq<u8>>>
    decreases lines.len(),
{
    if lines.len() == 0 {
        Seq::empty()
    } else {
        let rest = table_rows(lines.drop_last(), delim, comments);
        let c = line_cells(lines.last(), delim, comments);
        if c.len() == 0 { rest } else { rest.push(c) }
    }
}

/// The cells of the rows, row after row.
pub open spec fn concat_cells(rows: Seq<Seq<Seq<u8>>>) -> Seq<Seq<u8>>
    decreases rows.len(),
{
    if rows.len() == 0 {
        Seq::empty()
    } else {
        concat_cells(rows.drop_last()) + rows.last()
    }
}

/// Why a table has no shape.
#[derive(Clone, Copy, Debug, PartialEq, Eq, Structural)]
pub enum TableError {
    /// Two rows have different numbers of cells.
    RaggedRows,
}

/// The cells of a table and the shape they fill.
pub struct TextTable {
    pub shape: Vec<usize>,
    pub cells: Vec<Vec<u8>>,
}

/// How many of `n` lines are skipped when `skiprows` are asked for.
pub open spec fn skip_count(skiprows: nat, n: nat) -> int {
    if skiprows < n { skiprows as int } else { n as int }
}

/// `loadtxt`'s layout: the rows of the lines after the first `skiprows`;
/// no rows give shape `(0,)`; rows of one cell give a 1-d array, wider rows
/// a 2-d one; rows of different widths are refused.
pub open spec fn spec_text_table(
    lines: Seq<Seq<u8>>,
    delim: Option<Seq<u8>>,
    comments: Seq<u8>,
    skiprows: nat,
) -> Result<(Seq<usize>, Seq<Seq<u8>>), TableError> {
    let rows = table_rows(lines.skip(skip_count(skiprows, lines.len())), delim, comments);
    if rows.len() == 0 {
        Ok((seq![0usize], Seq::empty()))
    } else {
        let cols = rows[0].len();
        if exists|r: int| 0 <= r < rows.len() && #[trigger] rows[r].len() != cols {
            Err(TableError::RaggedRows)
        } else {
            let n = rows.len();
            Ok((if cols == 1 { seq![n as usize] } else { seq![n as usize, cols as usize] }, concat_cells(rows)))
        }
    }
}

/// The delimiter as a sequence of bytes.
pub open spec fn delim_view(delim: Option<&[u8]>) -> Option<Seq<u8>> {
    match delim {
        None => None,
        Some(d) => Some(d@),
    }
}

/// The cells of one line.
fn line_cells_exec(line: &[u8], delim: Option<&[u8]>, comments: &[u8]) -> (r: Vec<Vec<u8>>)
    ensures
        views(r@) == line_cells(line@, delim_view(delim), comments@),
{
    let (a, b) = trim_range(line, 0, line.len());
    assert(line@.subrange(0, line@.len() as int) =~= line@);
    let mut t: Vec<u8> = Vec::new();
    let mut k: usize = a;
    while k < b
        invariant
            a <= k <= b <= line@.len(),
            t@ == line@.subrange(a as int, k as int),
        decreases b - k,
    {
        t.push(line[k]);
        k = k + 1;
        assert(t@ =~= line@.subrange(a as int, k as int));
    }
    let empty: Vec<Vec<u8>> = Vec::new();
    assert(views(empty@) =~= Seq::<Seq<u8>>::empty());
    if t.len() == 0 {
        return empty;
    }
    if comments.len() <= t.len() && matches_at_exec(t.as_slice(), comments, 0) {
        assert(t@.take(comments@.len() as int) =~= t@.subrange(0, comments@.len() as int));
        return empty;
    }
    proof {
        if comments@.len() <= t@.len() {
            assert(t@.take(comments@.len() as int) =~= t@.subrange(0, comments@.len() as int));
        }
    }
    split_cells(t.as_slice(), delim)
}

/// `loadtxt`'s layout of the lines of a text file: the text of every cell,
/// row after row, and the shape they fill.
pub fn text_table(lines: &[Vec<u8>], delim: Option<&[u8]>, comments: &[u8], skiprows: usize) -> (r: Result<TextTable, TableError>)
    ensures
        match r {
            Ok(tb) => spec_text_table(views(lines@), delim_view(delim), comments@, skiprows as nat)
                == Ok::<(Seq<usize>, Seq<Seq<u8>>), TableError>((tb.shape@, views(tb.cells@))),
            Err(e) => spec_text_table(views(lines@), delim_view(delim), comments@, skiprows as nat)
                == Err::<(Seq<usize>, Seq<Seq<u8>>), TableError>(e),
        },
{
    let ghost dl = delim_view(delim);
    let len = lines.len();
    let s0: usize = if skiprows < len { skiprows } else { len };
    let ghost ls = views(lines@).skip(s0 as int);
    let mut cells: Vec<Vec<u8>> = Vec::new();
    let mut n: usize = 0;
    let mut cols: usize = 0;
    let mut ragged = false;
    let mut j: usize = s0;
    assert(ls.take(0) =~= Seq::<Seq<u8>>::empty());
    assert(views(cells@) =~= Seq::<Seq<u8>>::empty());
    while j < len
        invariant
            s0 <= j <= len,
            len == lines@.len(),
            dl == delim_view(delim),
            ls == views(lines@).skip(s0 as int),
            ({
                let rows = table_rows(ls.take(j - s0), dl, comments@);
                &&& views(cells@) == concat_cells(rows)
                &&& n == rows.len()
                &&& n <= j - s0
                &&& n > 0 ==> cols == rows[0].len()
                &&& ragged == exists|q: int| 0 <= q < rows.len() && #[trigger] rows[q].len() != rows[0].len()
            }),
        decreases len - j,
    {
        let ghost prev = ls.take(j - s0);
        let ghost rows0 = table_rows(prev, dl, comments@);
        let line = lines[j].as_slice();
        assert(line@ == lines@[j as int]@);
        let row = line_cells_exec(line, delim, comments);
        let ghost c = views(row@);
        assert(ls.take(j + 1 - s0).drop_last() =~= prev);
        assert(ls.take(j + 1 - s0).last() == lines@[j as int]@);
        let w = row.len();
        assert(c == line_cells(lines@[j as int]@, dl, comments@));
        assert(table_rows(ls.take(j + 1 - s0), dl, comments@) == (if c.len() == 0 { rows0 } else { rows0.push(c) }));
        if w > 0 {
            let ghost before = cells@;
            let mut row_mut = row;
            cells.append(&mut row_mut);
            assert(views(cells@) =~= views(before) + c);
            let ghost rows1 = rows0.push(c);
            if n == 0 {
                cols = w;
            } else if w != cols {
                assert(rows1[n as int].len() != rows1[0].len());
                ragged = true;
            }
            proof {
                if !ragged {
                    assert forall|q: int| 0 <= q < rows1.len() implies #[trigger] rows1[q].len() == rows1[0].len() by {
                        if q < rows0.len() {
                            assert(rows1[q] == rows0[q]);
                        }
                    }
                } else {
                    if n > 0 && w == cols {
                        let q = choose|q: int| 0 <= q < rows0.len() && #[trigger] rows0[q].len() != rows0[0].len();
                        assert(rows1[q].len() != rows1[0].len());
                    }
                }
            }
            n = n + 1;
            assert(concat_cells(rows1) == concat_cells(rows0) + c) by {
                assert(rows1.drop_last() =~= rows0);
            }
        }
        j = j + 1;
    }
    let ghost rows = table_rows(ls.take(len - s0), dl, comments@);
    assert(ls.take(len - s0) =~= ls);
    assert(views(lines@).len() == len);
    assert(rows == table_rows(ls, dl, comments@));
    assert(ls == views(lines@).skip(skip_count(skiprows as nat, views(lines@).len())));
    if n == 0 {
        let tb = TextTable { shape: vec![0], cells };
        assert(tb.shape@ =~= seq![0usize]);
        return Ok(tb);
    }
    if ragged {
        assert(rows.len() > 0);
        let ghost q = choose|q: int| 0 <= q < rows.len() && #[trigger] rows[q].len() != rows[0].len();
        assert(rows[q].len() != rows[0].len());
        let ghost srows = table_rows(views(lines@).skip(skip_count(skiprows as nat, views(lines@).len())), dl, comments@);
        assert(srows == rows);
        assert(srows.len() != 0);
        assert(exists|r: int| 0 <= r < srows.len() && #[trigger] srows[r].len() != srows[0].len());
        assert(spec_text_table(views(lines@), dl, comments@, skiprows as nat) == Err::<(Seq<usize>, Seq<Seq<u8>>), TableError>(
            TableError::RaggedRows,
        ));
        return Err(TableError::RaggedRows);
    }
    assert(!exists|q: int| 0 <= q < rows.len() && #[trigger] rows[q].len() != rows[0].len());
    let shape = if cols == 1 { vec![n] } else { vec![n, cols] };
    assert(shape@ =~= (if cols == 1 { seq![n] } else { seq![n, cols] }));
    Ok(TextTable { shape, cells })
}

/// An ASCII byte that is not whitespace.
pub open spec fn plain_ascii(b: u8) -> bool {
    b < 128 && !(9 <= b <= 13) && b != 32
}

/// ASCII whitespace: tab, line feed, vertical tab, form feed, carriage
/// return or space.
pub open spec fn ascii_space(b: u8) -> bool {
    (9 <= b <= 13) || b == 32
}

/// Trimming the end of text that starts with plain ASCII bytes keeps them.
proof fn lemma_trim_end_keeps(c: Seq<u8>, r: Seq<u8>)
    requires
        forall|i: int| 0 <= i < c.len() ==> plain_ascii(#[trigger] c[i]),
    ensures
        trim_end(c + r).len() >= c.len(),
        trim_end(c + r).take(c.len() as int) == c,
    decreases r.len(),
{
    let x = c + r;
    let n = x.len();
    let l = ws_suffix_len(x);
    if l > 0 {
        if n - l < c.len() {
            let k = c.len() - 1;
            assert(x[k] == c[k]);
            assert(plain_ascii(c[k]));
        }
        let r2 = r.take(r.len() - l);
        assert(x.take(n - l) =~= c + r2);
        lemma_trim_end_keeps(c, r2);
    } else {
        assert(x.take(c.len() as int) =~= c);
    }
}

/// Trimming the start of ASCII whitespace followed by a plain ASCII byte
/// leaves the text from that byte on.
proof fn lemma_trim_start_skips(sp: Seq<u8>, t: Seq<u8>)
    requires
        forall|i: int| 0 <= i < sp.len() ==> ascii_space(#[trigger] sp[i]),
        t.len() > 0,
        plain_ascii(t[0]),
    ensures
        trim_start(sp + t) == t,
    decreases sp.len(),
{
    if sp.len() == 0 {
        assert(sp + t =~= t);
    } else {
        let x = sp + t;
        assert(x[0] == sp[0]);
        assert(x.skip(1) =~= sp.skip(1) + t);
        lemma_trim_start_skips(sp.skip(1), t);
    }
}

/// A comment line, however far its marker is indented, gives no cells:
/// a line of ASCII whitespace, then the comment marker (plain ASCII
/// bytes), then anything has no cells, whatever the delimiter.
pub proof fn lemma_indented_comment_has_no_cells(sp: Seq<u8>, comments: Seq<u8>, rest: Seq<u8>, delim: Option<Seq<u8>>)
    requires
        forall|i: int| 0 <= i < sp.len() ==> ascii_space(#[trigger] sp[i]),
        comments.len() > 0,
        forall|i: int| 0 <= i < comments.len() ==> plain_ascii(#[trigger] comments[i]),
    ensures
        line_cells(sp + comments + rest, delim, comments) == Seq::<Seq<u8>>::empty(),
{
    let t = comments + rest;
    assert(t[0] == comments[0]);
    lemma_trim_start_skips(sp, t);
    assert(sp + comments + rest =~= sp + t);
    lemma_trim_end_keeps(comments, rest);
}

/// The rows of lines joined are the rows of each part, joined.
pub proof fn lemma_table_rows_append(x: Seq<Seq<u8>>, y: Seq<Seq<u8>>, delim: Option<Seq<u8>>, comments: Seq<u8>)
    ensures
        table_rows(x + y, delim, comments) == table_rows(x, delim, comments) + table_rows(y, delim, comments),
    decreases y.len(),
{
    if y.len() == 0 {
        assert(x + y =~= x);
        assert(table_rows(x, delim, comments) + table_rows(y, delim, comments) =~= table_rows(x, delim, comments));
    } else {
        lemma_table_rows_append(x, y.drop_last(), delim, comments);
        assert((x + y).drop_last() =~= x + y.drop_last());
        assert((x + y).last() == y.last());
        let a = table_rows(x, delim, comments);
        let b = table_rows(y.drop_last(), delim, comments);
        let c = line_cells(y.last(), delim, comments);
        if c.len() != 0 {
            assert((a + b).push(c) =~= a + b.push(c));
        }
    }
}

/// A line whose trimmed text starts with the comment marker adds no row and
/// no cell: a table read with it inserted anywhere is the table read
/// without it.
pub proof fn lemma_comment_line_ignored(
    before: Seq<Seq<u8>>,
    line: Seq<u8>,
    after: Seq<Seq<u8>>,
    delim: Option<Seq<u8>>,
    comments: Seq<u8>,
)
    requires
        starts_with(trim(line), comments),
    ensures
        line_cells(line, delim, comments).len() == 0,
        table_rows(before.push(line) + after, delim, comments) == table_rows(before + after, delim, comments),
        spec_text_table(before.push(line) + after, delim, comments, 0) == spec_text_table(
            before + after,
            delim,
            comments,
            0,
        ),
{
    lemma_table_rows_append(before.push(line), after, delim, comments);
    lemma_table_rows_append(before, after, delim, comments);
    assert(before.push(line).drop_last() =~= before);
    assert(table_rows(before.push(line), delim, comments) == table_rows(before, delim, comments));
    assert((before.push(line) + after).skip(0) =~= before.push(line) + after);
    assert((before + after).skip(0) =~= before + after);
}

/// Splitting at whitespace gives cells that are not empty and hold no
/// ASCII whitespace.
pub proof fn lemma_ws_cells_are_words(t: Seq<u8>, start: int)
    ensures
        forall|k: int| 0 <= k < cells_ws(t, start).len() ==> (#[trigger] cells_ws(t, start)[k]).len() > 0 && forall|
            j: int,
        | 0 <= j < cells_ws(t, start)[k].len() ==> !ascii_ws(cells_ws(t, start)[k][j]),
    decreases t.len() + 1 - start,
{
    if 0 <= start <= t.len() {
        match next_ascii_ws(t, start) {
            None => {
                lemma_no_ws_after(t, start);
                let x = t.subrange(start, t.len() as int);
                lemma_trim_inside(x);
                assert forall|j: int| 0 <= j < trim(x).len() implies !ascii_ws(#[trigger] trim(x)[j]) by {
                    let m = choose|m: int| 0 <= m < x.len() && trim(x)[j] == x[m];
                    assert(x[m] == t[start + m]);
                }
            },
            Some(i) => {
                if start <= i < t.len() {
                    lemma_ws_found(t, start);
                    let x = t.subrange(start, i);
                    lemma_trim_inside(x);
                    assert forall|j: int| 0 <= j < trim(x).len() implies !ascii_ws(#[trigger] trim(x)[j]) by {
                        let m = choose|m: int| 0 <= m < x.len() && trim(x)[j] == x[m];
                        assert(x[m] == t[start + m]);
                    }
                    lemma_ws_cells_are_words(t, i + 1);
                    let a = keep(trim(t.subrange(start, i)));
                    let b = cells_ws(t, i + 1);
                    assert forall|k: int| 0 <= k < (a + b).len() implies #[trigger] (a + b)[k] == if k < a.len() {
                        a[k]
                    } else {
                        b[k - a.len()]
                    } by {}
                }
            },
        }
    }
}

/// No whitespace from `start` on when none is found.
proof fn lemma_no_ws_after(t: Seq<u8>, start: int)
    requires
        0 <= start,
        next_ascii_ws(t, start) is None,
    ensures
        forall|j: int| start <= j < t.len() ==> !ascii_ws(#[trigger] t[j]),
    decreases t.len() - start,
{
    if start < t.len() {
        lemma_no_ws_after(t, start + 1);
    }
}

/// The whitespace found is the first from `start` on.
proof fn lemma_ws_found(t: Seq<u8>, start: int)
    requires
        0 <= start,
        next_ascii_ws(t, start) is Some,
    ensures
        start <= next_ascii_ws(t, start)->Some_0 < t.len(),
        forall|j: int| start <= j < next_ascii_ws(t, start)->Some_0 ==> !ascii_ws(#[trigger] t[j]),
    decreases t.len() - start,
{
    if start < t.len() && !ascii_ws(t[start]) {
        lemma_ws_found(t, start + 1);
    }
}

/// Trimming the start drops a prefix.
proof fn lemma_trim_start_suffix(s: Seq<u8>)
    ensures
        trim_start(s).len() <= s.len(),
        trim_start(s) == s.skip(s.len() - trim_start(s).len()),
    decreases s.len(),
{
    if ws_prefix_len(s) != 0 {
        let t = s.skip(ws_prefix_len(s) as int);
        lemma_trim_start_suffix(t);
        assert(t.skip(t.len() - trim_start(t).len()) =~= s.skip(s.len() - trim_start(t).len()));
    } else {
        assert(s.skip(0) =~= s);
    }
}

/// Trimming the end drops a suffix.
proof fn lemma_trim_end_prefix(s: Seq<u8>)
    ensures
        trim_end(s).len() <= s.len(),
        trim_end(s) == s.take(trim_end(s).len() as int),
    decreases s.len(),
{
    if ws_suffix_len(s) != 0 {
        let t = s.take(s.len() - ws_suffix_len(s));
        lemma_trim_end_prefix(t);
        assert(t.take(trim_end(t).len() as int) =~= s.take(trim_end(t).len() as int));
    } else {
        assert(s.take(s.len() as int) =~= s);
    }
}

/// Every byte of a trimmed text is a byte of the text.
proof fn lemma_trim_inside(x: Seq<u8>)
    ensures
        forall|k: int| 0 <= k < trim(x).len() ==> exists|m: int| 0 <= m < x.len() && #[trigger] trim(x)[k] == x[m],
{
    lemma_trim_start_suffix(x);
    let a = trim_start(x);
    lemma_trim_end_prefix(a);
    let off = x.len() - a.len();
    assert forall|k: int| 0 <= k < trim(x).len() implies exists|m: int| 0 <= m < x.len() && #[trigger] trim(x)[k] == x[m] by {
        assert(trim(x)[k] == a[k]);
        assert(a[k] == x[off + k]);
    }
}

} // verus!
