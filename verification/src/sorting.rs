//! Sorting: axis lists in ascending order, and numpy's `lexsort`, the
//! stable indirect sort by several keys with the last key primary.
use vstd::prelude::*;
use vstd::relations::{sorted_by, total_ordering};

use crate::nd::{NdArray, NdModel};
use crate::random::{lemma_swap_multiset, range_seq, swap};

verus! {

/// The order `<=` on `isize`.
pub open spec fn isize_le() -> spec_fn(isize, isize) -> bool {
    |x: isize, y: isize| x <= y
}

/// `s` in ascending order.
pub open spec fn sorted_isize(s: Seq<isize>) -> Seq<isize> {
    s.sort_by(isize_le())
}

proof fn lemma_isize_le_total()
    ensures
        total_ordering(isize_le()),
{
}

/// `sort_isize`: the values in ascending order.
pub fn sort_isize(v: &[isize]) -> (r: Vec<isize>)
    ensures
        r@ == sorted_isize(v@),
        r@.len() == v@.len(),
{
    let mut r: Vec<isize> = Vec::new();
    let mut k: usize = 0;
    while k < v.len()
        invariant
            k <= v.len(),
            r@ == v@.take(k as int),
        decreases v.len() - k,
    {
        r.push(v[k]);
        k = k + 1;
        assert(r@ =~= v@.take(k as int));
    }
    assert(v@.take(v.len() as int) =~= v@);
    let n = r.len();
    let mut i: usize = 0;
    while i < n
        invariant
            i <= n,
            n == r@.len(),
            r@.to_multiset() == v@.to_multiset(),
            forall|a: int, b: int| 0 <= a < b < i ==> r@[a] <= r@[b],
        decreases n - i,
    {
        let mut j: usize = i;
        while j > 0 && r[j - 1] > r[j]
            invariant
                j <= i < n,
                n == r@.len(),
                r@.to_multiset() == v@.to_multiset(),
                forall|a: int, b: int| 0 <= a < b <= i && b != j ==> r@[a] <= r@[b],
            decreases j,
        {
            let x = r[j - 1];
            let y = r[j];
            proof {
                lemma_swap_multiset(r@, j - 1, j as int);
            }
            let ghost before = r@;
            r.set(j - 1, y);
            r.set(j, x);
            assert(r@ =~= swap(before, j - 1, j as int));
            j = j - 1;
        }
        assert forall|a: int, b: int| 0 <= a < b <= i implies r@[a] <= r@[b] by {
            if b == j && a < j - 1 {
                assert(r@[a] <= r@[j - 1]);
            }
        }
        i = i + 1;
    }
    proof {
        lemma_isize_le_total();
        v@.lemma_sort_by_ensures(isize_le());
        assert(sorted_by(r@, isize_le()));
        vstd::seq_lib::lemma_sorted_unique(r@, sorted_isize(v@), isize_le());
    }
    r
}

/// The order `<=` on `i64`.
pub open spec fn i64_le() -> spec_fn(i64, i64) -> bool {
    |x: i64, y: i64| x <= y
}

/// `s` in ascending order.
pub open spec fn sorted_i64(s: Seq<i64>) -> Seq<i64> {
    s.sort_by(i64_le())
}

/// `<=` on `i64` is a total order.
pub proof fn lemma_i64_le_total()
    ensures
        total_ordering(i64_le()),
{
}

/// `sort_i64`: the values in ascending order.
pub fn sort_i64(v: &[i64]) -> (r: Vec<i64>)
    ensures
        r@ == sorted_i64(v@),
        r@.len() == v@.len(),
{
    let mut r: Vec<i64> = Vec::new();
    let mut k: usize = 0;
    while k < v.len()
        invariant
            k <= v.len(),
            r@ == v@.take(k as int),
        decreases v.len() - k,
    {
        r.push(v[k]);
        k = k + 1;
        assert(r@ =~= v@.take(k as int));
    }
    assert(v@.take(v.len() as int) =~= v@);
    let n = r.len();
    let mut i: usize = 0;
    while i < n
        invariant
            i <= n,
            n == r@.len(),
            r@.to_multiset() == v@.to_multiset(),
            forall|a: int, b: int| 0 <= a < b < i ==> r@[a] <= r@[b],
        decreases n - i,
    {
        let mut j: usize = i;
        while j > 0 && r[j - 1] > r[j]
            invariant
                j <= i < n,
                n == r@.len(),
                r@.to_multiset() == v@.to_multiset(),
                forall|a: int, b: int| 0 <= a < b <= i && b != j ==> r@[a] <= r@[b],
            decreases j,
        {
            let x = r[j - 1];
            let y = r[j];
            proof {
                lemma_swap_multiset(r@, j - 1, j as int);
            }
            let ghost before = r@;
            r.set(j - 1, y);
            r.set(j, x);
            assert(r@ =~= swap(before, j - 1, j as int));
            j = j - 1;
        }
        assert forall|a: int, b: int| 0 <= a < b <= i implies r@[a] <= r@[b] by {
            if b == j && a < j - 1 {
                assert(r@[a] <= r@[j - 1]);
            }
        }
        i = i + 1;
    }
    proof {
        lemma_i64_le_total();
        v@.lemma_sort_by_ensures(i64_le());
        assert(sorted_by(r@, i64_le()));
        vstd::seq_lib::lemma_sorted_unique(r@, sorted_i64(v@), i64_le());
    }
    r
}

/// Applying a function to the elements of two sequences with the same
/// elements gives two sequences with the same elements.
pub proof fn lemma_map_values_same_elements<A, B>(l1: Seq<A>, l2: Seq<A>, f: spec_fn(A) -> B)
    requires
        l1.to_multiset() == l2.to_multiset(),
    ensures
        l1.map_values(f).to_multiset() == l2.map_values(f).to_multiset(),
    decreases l1.len(),
{
    broadcast use vstd::seq_lib::group_to_multiset_ensures;
    broadcast use vstd::multiset::group_multiset_axioms;

    if l1.len() == 0 {
        assert(l1.to_multiset().len() == 0);
        assert(l2.to_multiset().len() == l2.len());
        assert(l1.map_values(f) =~= Seq::<B>::empty());
        assert(l2.map_values(f) =~= Seq::<B>::empty());
    } else {
        let a = l1.last();
        assert(l1.contains(a));
        assert(l1.to_multiset().count(a) > 0);
        assert(l2.contains(a));
        let i = l2.index_of(a);
        let l1r = l1.drop_last();
        let l2r = l2.remove(i);
        assert(l1r =~= l1.remove(l1.len() - 1));
        assert(l1r.to_multiset() == l1.to_multiset().remove(a));
        assert(l2r.to_multiset() == l2.to_multiset().remove(a));
        lemma_map_values_same_elements(l1r, l2r, f);
        let m1 = l1.map_values(f);
        let m2 = l2.map_values(f);
        assert(m1 =~= l1r.map_values(f).push(f(a)));
        assert(m2.remove(i) =~= l2r.map_values(f));
        assert(m2[i] == f(a));
        assert(m2.remove(i).to_multiset() == m2.to_multiset().remove(f(a)));
        assert(m2.contains(f(a)));
        assert(m2.to_multiset().count(f(a)) > 0);
        assert(m2.to_multiset() =~= m2.to_multiset().remove(f(a)).insert(f(a)));
        assert(m1.to_multiset() =~= l1r.map_values(f).to_multiset().insert(f(a)));
    }
}

/// Position `i` comes strictly before position `j` by the first `m` keys,
/// the last of them compared first.
pub open spec fn lex_less(keys: Seq<Seq<i64>>, m: nat, i: int, j: int) -> bool
    decreases m,
{
    if m == 0 {
        false
    } else {
        let k = keys[m - 1];
        k[i] < k[j] || (k[i] == k[j] && lex_less(keys, (m - 1) as nat, i, j))
    }
}

/// Positions `i` and `j` agree on the first `m` keys.
pub open spec fn lex_tie(keys: Seq<Seq<i64>>, m: nat, i: int, j: int) -> bool
    decreases m,
{
    if m == 0 {
        true
    } else {
        keys[m - 1][i] == keys[m - 1][j] && lex_tie(keys, (m - 1) as nat, i, j)
    }
}

/// The order `lexsort` puts positions in: by the keys, last key first, and
/// by position among positions that agree on every key.
pub open spec fn lex_order(keys: Seq<Seq<i64>>) -> spec_fn(i64, i64) -> bool {
    |x: i64, y: i64|
        lex_less(keys, keys.len(), x as int, y as int) || (!lex_less(keys, keys.len(), y as int, x as int) && x <= y)
}

proof fn lemma_lex_facts(keys: Seq<Seq<i64>>, m: nat, x: int, y: int, z: int)
    ensures
        !lex_less(keys, m, x, x),
        lex_less(keys, m, x, y) ==> !lex_less(keys, m, y, x),
        lex_less(keys, m, x, y) && lex_less(keys, m, y, z) ==> lex_less(keys, m, x, z),
        !lex_less(keys, m, x, y) && !lex_less(keys, m, y, x) ==> lex_tie(keys, m, x, y),
        lex_tie(keys, m, x, y) ==> (lex_less(keys, m, x, z) == lex_less(keys, m, y, z) && lex_less(keys, m, z, x)
            == lex_less(keys, m, z, y)),
    decreases m,
{
    if m > 0 {
        lemma_lex_facts(keys, (m - 1) as nat, x, y, z);
    }
}

proof fn lemma_lex_order_total(keys: Seq<Seq<i64>>)
    ensures
        total_ordering(lex_order(keys)),
{
    let m = keys.len();
    let le = lex_order(keys);
    assert forall|x: i64| #[trigger] le(x, x) by {
        lemma_lex_facts(keys, m, x as int, x as int, x as int);
    }
    assert forall|x: i64, y: i64| #[trigger] le(x, y) && #[trigger] le(y, x) implies x == y by {
        lemma_lex_facts(keys, m, x as int, y as int, x as int);
    }
    assert forall|x: i64, y: i64, z: i64| #[trigger] le(x, y) && #[trigger] le(y, z) implies le(x, z) by {
        lemma_lex_facts(keys, m, x as int, y as int, z as int);
        lemma_lex_facts(keys, m, y as int, z as int, x as int);
        lemma_lex_facts(keys, m, x as int, z as int, y as int);
    }
    assert forall|x: i64, y: i64| #[trigger] le(x, y) || #[trigger] le(y, x) by {
        lemma_lex_facts(keys, m, x as int, y as int, x as int);
    }
}

/// The order of `lexsort` is a total order.
pub proof fn lemma_lex_order_total_pub(keys: Seq<Seq<i64>>)
    ensures
        total_ordering(lex_order(keys)),
{
    lemma_lex_order_total(keys);
}

/// The keys as sequences.
pub open spec fn key_views(keys: Seq<Vec<i64>>) -> Seq<Seq<i64>> {
    Seq::new(keys.len(), |k: int| keys[k]@)
}

/// Why `lexsort` refuses its keys.
#[derive(Clone, Copy, Debug, PartialEq, Eq, Structural)]
pub enum LexsortError {
    /// No key was given.
    NoKeys,
    /// The keys differ in length.
    LengthMismatch,
}

/// `lexsort` on sequences: the positions `0..n` ordered by `lex_order`.
pub open spec fn spec_lexsort(keys: Seq<Seq<i64>>) -> Result<NdModel<i64>, LexsortError> {
    if keys.len() == 0 {
        Err(LexsortError::NoKeys)
    } else if exists|k: int| 0 <= k < keys.len() && #[trigger] keys[k].len() != keys[0].len() {
        Err(LexsortError::LengthMismatch)
    } else {
        let n = keys[0].len();
        Ok(NdModel { shape: seq![n as usize], data: range_seq(n).sort_by(lex_order(keys)) })
    }
}

fn lex_less_exec(keys: &[Vec<i64>], i: usize, j: usize) -> (b: bool)
    requires
        forall|k: int| 0 <= k < keys@.len() ==> i < (#[trigger] keys@[k]).len() && j < keys@[k].len(),
    ensures
        b == lex_less(key_views(keys@), keys@.len() as nat, i as int, j as int),
{
    let ghost kv = key_views(keys@);
    let mut b = false;
    let mut k: usize = 0;
    while k < keys.len()
        invariant
            k <= keys@.len(),
            kv == key_views(keys@),
            forall|q: int| 0 <= q < keys@.len() ==> i < (#[trigger] keys@[q]).len() && j < keys@[q].len(),
            b == lex_less(kv, k as nat, i as int, j as int),
        decreases keys.len() - k,
    {
        let x = keys[k][i];
        let y = keys[k][j];
        b = x < y || (x == y && b);
        k = k + 1;
    }
    b
}

/// `lexsort(keys)`: the indirect stable sort of positions `0..n` by the
/// keys, the last key primary; an error for no keys or keys of different
/// lengths.
pub fn lexsort(keys: &[Vec<i64>]) -> (r: Result<NdArray<i64>, LexsortError>)
    requires
        keys@.len() > 0 ==> keys@[0].len() <= i64::MAX,
    ensures
        match r {
            Ok(a) => spec_lexsort(key_views(keys@)) == Ok::<NdModel<i64>, LexsortError>(a@),
            Err(e) => spec_lexsort(key_views(keys@)) == Err::<NdModel<i64>, LexsortError>(e),
        },
{
    let ghost kv = key_views(keys@);
    if keys.len() == 0 {
        return Err(LexsortError::NoKeys);
    }
    let n = keys[0].len();
    let mut q: usize = 0;
    while q < keys.len()
        invariant
            q <= keys@.len(),
            n == keys@[0].len(),
            kv == key_views(keys@),
            forall|p: int| 0 <= p < q ==> (#[trigger] keys@[p]).len() == n,
        decreases keys.len() - q,
    {
        if keys[q].len() != n {
            assert(kv[q as int].len() != kv[0].len());
            return Err(LexsortError::LengthMismatch);
        }
        q = q + 1;
    }
    assert(!exists|k: int| 0 <= k < kv.len() && #[trigger] kv[k].len() != kv[0].len());
    let ghost le = lex_order(kv);
    let mut r: Vec<i64> = Vec::new();
    let mut k: usize = 0;
    while k < n
        invariant
            k <= n,
            n <= i64::MAX,
            r@ == range_seq(k as nat),
        decreases n - k,
    {
        r.push(k as i64);
        k = k + 1;
        assert(r@ =~= range_seq(k as nat));
    }
    let mut i: usize = 0;
    while i < n
        invariant
            i <= n,
            n <= i64::MAX,
            n == r@.len(),
            kv == key_views(keys@),
            le == lex_order(kv),
            forall|p: int| 0 <= p < keys@.len() ==> (#[trigger] keys@[p]).len() == n,
            r@.to_multiset() == range_seq(n as nat).to_multiset(),
            forall|b: int| i <= b < n ==> r@[b] == b,
            forall|a: int| 0 <= a < i ==> 0 <= #[trigger] r@[a] < i,
            forall|a: int, b: int| 0 <= a < b < i ==> le(r@[a], r@[b]),
        decreases n - i,
    {
        let mut j: usize = i;
        while j > 0 && lex_less_exec(keys, r[j] as usize, r[j - 1] as usize)
            invariant
                j <= i < n,
                n <= i64::MAX,
                n == r@.len(),
                kv == key_views(keys@),
                le == lex_order(kv),
                forall|p: int| 0 <= p < keys@.len() ==> (#[trigger] keys@[p]).len() == n,
                r@.to_multiset() == range_seq(n as nat).to_multiset(),
                r@[j as int] == i,
                forall|b: int| i < b < n ==> r@[b] == b,
                forall|a: int| 0 <= a <= i ==> 0 <= #[trigger] r@[a] <= i,
                forall|a: int, b: int| 0 <= a < b <= i && b != j ==> le(r@[a], r@[b]),
            decreases j,
        {
            let x = r[j - 1];
            let y = r[j];
            proof {
                lemma_swap_multiset(r@, j - 1, j as int);
                lemma_lex_order_total(kv);
            }
            let ghost before = r@;
            r.set(j - 1, y);
            r.set(j, x);
            assert(r@ =~= swap(before, j - 1, j as int));
            assert(le(y, x));
            j = j - 1;
        }
        proof {
            lemma_lex_order_total(kv);
        }
        assert forall|a: int, b: int| 0 <= a < b <= i implies le(r@[a], r@[b]) by {
            if b == j {
                let x = r@[j - 1];
                let y = r@[j as int];
                lemma_lex_facts(kv, kv.len(), x as int, y as int, x as int);
                assert(le(x, y));
                if a < j - 1 {
                    assert(le(r@[a], x));
                }
            }
        }
        i = i + 1;
    }
    proof {
        lemma_lex_order_total(kv);
        range_seq(n as nat).lemma_sort_by_ensures(le);
        assert(sorted_by(r@, le));
        vstd::seq_lib::lemma_sorted_unique(r@, range_seq(n as nat).sort_by(le), le);
    }
    let out = NdArray { shape: vec![n], data: r };
    assert(out@.shape =~= seq![n as usize]);
    assert(out@.data == range_seq(kv[0].len()).sort_by(lex_order(kv)));
    Ok(out)
}

} // verus!
