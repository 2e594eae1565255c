//! The integer-valued routines of `numpy.random` on a `rand` generator:
//! permutations and shuffles (Fisher-Yates), choices, bounded integers and
//! random bytes.
//!
//! Each routine that draws is split in two: a function that makes the
//! draws, and a function that takes the draws as an argument and computes
//! the result from them exactly.
use vstd::prelude::*;

use crate::nd::{lemma_product_small, NdArray, NdModel, nd_wf};
use crate::npy::{element_count, shape_product};
use rand::RngExt;
use rand::SeedableRng;

verus! {

/// The generator: `rand`'s `StdRng` (ChaCha-based).
#[verifier::external_type_specification]
#[verifier::external_body]
pub struct ExStdRng(rand::rngs::StdRng);

/// The generator that `StdRng::seed_from_u64` builds from a seed.
pub uninterp spec fn seeded_generator(seed: u64) -> rand::rngs::StdRng;

/// `StdRng::seed_from_u64`: the source expands the seed with a fixed PCG32
/// sequence into the generator's key and builds the generator from it, so
/// the generator is a function of the seed alone (`seeded_generator`).
/// Nothing is stated of the stream it then yields.
#[verifier::external_body]
fn seeded_rng(seed: u64) -> (r: rand::rngs::StdRng)
    ensures
        r == seeded_generator(seed),
{
    rand::rngs::StdRng::seed_from_u64(seed)
}

/// What `rng.random::<u64>()` returns from a generator in state `g`, with
/// the state it leaves the generator in.
pub uninterp spec fn draw_step_u64(g: rand::rngs::StdRng) -> (u64, rand::rngs::StdRng);

/// What `rng.random::<u8>()` returns from a generator in state `g`, with
/// the state it leaves the generator in.
pub uninterp spec fn draw_step_u8(g: rand::rngs::StdRng) -> (u8, rand::rngs::StdRng);

/// `rng.random::<u64>()`: the next 64 bits of the ChaCha stream. The source
/// computes them, and the generator's next state, from the generator's
/// state alone (`draw_step_u64`); nothing is stated of which bits come.
#[verifier::external_body]
fn draw_u64(rng: &mut rand::rngs::StdRng) -> (r: u64)
    ensures
        r == draw_step_u64(*old(rng)).0,
        *final(rng) == draw_step_u64(*old(rng)).1,
{
    rng.random::<u64>()
}

/// `rng.random::<u8>()`: the next byte of the ChaCha stream, a function of
/// the generator's state, as is the state it leaves (`draw_step_u8`);
/// nothing is stated of which byte comes.
#[verifier::external_body]
fn draw_u8(rng: &mut rand::rngs::StdRng) -> (r: u8)
    ensures
        r == draw_step_u8(*old(rng)).0,
        *final(rng) == draw_step_u8(*old(rng)).1,
{
    rng.random::<u8>()
}

/// The generator after `n` draws of 64 bits from state `g`.
pub open spec fn state_after(g: rand::rngs::StdRng, n: nat) -> rand::rngs::StdRng
    decreases n,
{
    if n == 0 { g } else { draw_step_u64(state_after(g, (n - 1) as nat)).1 }
}

/// The first `n` draws of 64 bits from a generator in state `g`.
pub open spec fn draw_seq(g: rand::rngs::StdRng, n: nat) -> Seq<u64>
    decreases n,
{
    if n == 0 {
        Seq::empty()
    } else {
        draw_seq(g, (n - 1) as nat).push(draw_step_u64(state_after(g, (n - 1) as nat)).0)
    }
}

/// The generator after `n` byte draws from state `g`.
pub open spec fn state_after_bytes(g: rand::rngs::StdRng, n: nat) -> rand::rngs::StdRng
    decreases n,
{
    if n == 0 { g } else { draw_step_u8(state_after_bytes(g, (n - 1) as nat)).1 }
}

/// The first `n` bytes drawn from a generator in state `g`.
pub open spec fn byte_seq(g: rand::rngs::StdRng, n: nat) -> Seq<u8>
    decreases n,
{
    if n == 0 {
        Seq::empty()
    } else {
        byte_seq(g, (n - 1) as nat).push(draw_step_u8(state_after_bytes(g, (n - 1) as nat)).0)
    }
}

/// Drawing `n` values and then `m` more gives the stream of `n + m` draws
/// and the same final state: splitting the draws among calls changes
/// nothing.
pub proof fn lemma_draws_split(g: rand::rngs::StdRng, n: nat, m: nat)
    ensures
        draw_seq(g, n + m) == draw_seq(g, n) + draw_seq(state_after(g, n), m),
        state_after(g, n + m) == state_after(state_after(g, n), m),
    decreases m,
{
    if m > 0 {
        lemma_draws_split(g, n, (m - 1) as nat);
        assert(draw_seq(g, n + m) =~= draw_seq(g, n) + draw_seq(state_after(g, n), m));
    } else {
        assert(draw_seq(g, n) + draw_seq(state_after(g, n), 0) =~= draw_seq(g, n));
    }
}

/// `n` draws are `n` values.
pub proof fn lemma_draw_seq_len(g: rand::rngs::StdRng, n: nat)
    ensures
        draw_seq(g, n).len() == n,
    decreases n,
{
    if n > 0 {
        lemma_draw_seq_len(g, (n - 1) as nat);
    }
}

/// A generator seeded with `s` yields one stream: asking it for more draws
/// extends the draws it gives for fewer.
pub proof fn lemma_seeded_stream(s: u64, n: nat, m: nat)
    ensures
        draw_seq(seeded_generator(s), n + m).take(n as int) == draw_seq(seeded_generator(s), n),
{
    lemma_draws_split(seeded_generator(s), n, m);
    lemma_draw_seq_len(seeded_generator(s), n);
    assert(draw_seq(seeded_generator(s), n + m).take(n as int) =~= draw_seq(seeded_generator(s), n));
}

/// The same for byte draws.
pub proof fn lemma_bytes_split(g: rand::rngs::StdRng, n: nat, m: nat)
    ensures
        byte_seq(g, n + m) == byte_seq(g, n) + byte_seq(state_after_bytes(g, n), m),
        state_after_bytes(g, n + m) == state_after_bytes(state_after_bytes(g, n), m),
    decreases m,
{
    if m > 0 {
        lemma_bytes_split(g, n, (m - 1) as nat);
        assert(byte_seq(g, n + m) =~= byte_seq(g, n) + byte_seq(state_after_bytes(g, n), m));
    } else {
        assert(byte_seq(g, n) + byte_seq(state_after_bytes(g, n), 0) =~= byte_seq(g, n));
    }
}

/// A generator seeded with `s` (numpy's default seed is fixed for
/// reproducibility).
pub fn global(s: u64) -> (r: rand::rngs::StdRng)
    ensures
        r == seeded_generator(s),
{
    seeded_rng(s)
}

/// `seed`: replaces the generator with one seeded by `s`.
pub fn seed(rng: &mut rand::rngs::StdRng, s: u64)
    ensures
        *final(rng) == seeded_generator(s),
{
    *rng = seeded_rng(s);
}

/// `random_bytes`: the next `n` bytes of the generator's stream.
pub fn random_bytes(rng: &mut rand::rngs::StdRng, n: usize) -> (r: Vec<u8>)
    ensures
        r@.len() == n,
        r@ == byte_seq(*old(rng), n as nat),
        *final(rng) == state_after_bytes(*old(rng), n as nat),
{
    let ghost g0 = *rng;
    let mut out: Vec<u8> = Vec::new();
    let mut i: usize = 0;
    while i < n
        invariant
            i <= n,
            out@.len() == i,
            out@ == byte_seq(g0, i as nat),
            *rng == state_after_bytes(g0, i as nat),
        decreases n - i,
    {
        let b = draw_u8(rng);
        out.push(b);
        i = i + 1;
    }
    out
}

/// The next `n` draws of 64 bits.
fn draws(rng: &mut rand::rngs::StdRng, n: usize) -> (r: Vec<u64>)
    ensures
        r@.len() == n,
        r@ == draw_seq(*old(rng), n as nat),
        *final(rng) == state_after(*old(rng), n as nat),
{
    let ghost g0 = *rng;
    let mut out: Vec<u64> = Vec::new();
    let mut i: usize = 0;
    while i < n
        invariant
            i <= n,
            out@.len() == i,
            out@ == draw_seq(g0, i as nat),
            *rng == state_after(g0, i as nat),
        decreases n - i,
    {
        let d = draw_u64(rng);
        out.push(d);
        i = i + 1;
    }
    out
}

// ---------------------------------------------------------------------
// Fisher-Yates
// ---------------------------------------------------------------------

/// `s` with the entries at `i` and `j` exchanged.
pub open spec fn swap<T>(s: Seq<T>, i: int, j: int) -> Seq<T> {
    s.update(i, s[j]).update(j, s[i])
}

/// The position that draw `d` picks among the first `i + 1`:
/// `(d as usize) % (i + 1)`.
pub open spec fn pick(d: u64, i: int) -> int {
    ((d as usize) as int) % (i + 1)
}

/// The first `t` steps of the Fisher-Yates shuffle of `s`: step `t` swaps
/// position `i = len - t` with position `pick(draws[t - 1], i)`.
pub open spec fn fisher_yates_steps<T>(s: Seq<T>, draws: Seq<u64>, t: nat) -> Seq<T>
    decreases t,
{
    if t == 0 {
        s
    } else {
        let prev = fisher_yates_steps(s, draws, (t - 1) as nat);
        let i = s.len() - t;
        swap(prev, i, pick(draws[t - 1], i))
    }
}

/// The Fisher-Yates shuffle of `s` by the draws: positions `len - 1` down
/// to 1, each swapped with a position picked among those not after it.
pub open spec fn spec_fisher_yates<T>(s: Seq<T>, draws: Seq<u64>) -> Seq<T> {
    if s.len() == 0 { s } else { fisher_yates_steps(s, draws, (s.len() - 1) as nat) }
}

/// `shuffle_with`: the Fisher-Yates shuffle of `v` driven by the given
/// draws (one per position from the last down to the second).
pub fn shuffle_with<T: Copy>(v: Vec<T>, draws: &[u64]) -> (r: Vec<T>)
    requires
        v@.len() == 0 || draws@.len() >= v@.len() - 1,
    ensures
        r@ == spec_fisher_yates(v@, draws@),
{
    let n = v.len();
    if n == 0 {
        return v;
    }
    let mut out = v;
    let ghost s = out@;
    let mut t: usize = 0;
    while t < n - 1
        invariant
            n == s.len(),
            n > 0,
            t <= n - 1,
            draws@.len() >= n - 1,
            out@ == fisher_yates_steps(s, draws@, t as nat),
            out@.len() == n,
        decreases n - 1 - t,
    {
        let i = n - 1 - t;
        let j = (draws[t] as usize) % (i + 1);
        let a = out[i];
        let b = out[j];
        out.set(i, b);
        out.set(j, a);
        t = t + 1;
        assert(out@ =~= fisher_yates_steps(s, draws@, t as nat));
    }
    out
}

/// Exchanging two entries keeps the multiset of entries.
pub(crate) proof fn lemma_swap_multiset<T>(s: Seq<T>, i: int, j: int)
    requires
        0 <= i < s.len(),
        0 <= j < s.len(),
    ensures
        swap(s, i, j).to_multiset() == s.to_multiset(),
        swap(s, i, j).len() == s.len(),
{
    broadcast use vstd::multiset::group_multiset_axioms;
    broadcast use vstd::seq_lib::group_to_multiset_ensures;
    let u = s.update(i, s[j]);
    vstd::seq_lib::to_multiset_update(s, i, s[j]);
    vstd::seq_lib::to_multiset_update(u, j, s[i]);
    assert(u[j] == s[j]);
    let m = s.to_multiset();
    assert(s.contains(s[i]));
    assert(s.contains(s[j]));
    assert(m.count(s[i]) > 0);
    let m1 = m.insert(s[j]).remove(s[i]);
    let m2 = m1.insert(s[i]).remove(s[j]);
    assert(m1.count(s[j]) > 0);
    assert forall|x: T| m2.count(x) == m.count(x) by {}
    assert(m2 =~= m);
}

proof fn lemma_steps_multiset<T>(s: Seq<T>, draws: Seq<u64>, t: nat)
    requires
        t < s.len(),
        draws.len() >= t,
    ensures
        fisher_yates_steps(s, draws, t).to_multiset() == s.to_multiset(),
        fisher_yates_steps(s, draws, t).len() == s.len(),
    decreases t,
{
    if t > 0 {
        lemma_steps_multiset(s, draws, (t - 1) as nat);
        let i = s.len() - t;
        let j = pick(draws[t - 1], i);
        vstd::arithmetic::div_mod::lemma_mod_bound((draws[t - 1] as usize) as int, i + 1);
        lemma_swap_multiset(fisher_yates_steps(s, draws, (t - 1) as nat), i, j);
    }
}

/// A shuffle is a permutation: the same entries, each as often, whatever
/// the draws.
pub proof fn lemma_fisher_yates_permutes<T>(s: Seq<T>, draws: Seq<u64>)
    requires
        s.len() == 0 || draws.len() >= s.len() - 1,
    ensures
        spec_fisher_yates(s, draws).to_multiset() == s.to_multiset(),
        spec_fisher_yates(s, draws).len() == s.len(),
{
    if s.len() > 0 {
        lemma_steps_multiset(s, draws, (s.len() - 1) as nat);
    }
}

/// `n`, or 0 when negative.
pub open spec fn nonneg_len(n: i64) -> nat {
    if n < 0 { 0 } else { n as nat }
}

/// `0, 1, ..., n - 1`.
pub open spec fn range_seq(n: nat) -> Seq<i64> {
    Seq::new(n, |i: int| i as i64)
}

/// `permutation_with`: `0..n` (nothing for negative `n`) shuffled by the
/// draws.
pub fn permutation_with(n: i64, draws: &[u64]) -> (r: NdArray<i64>)
    requires
        n <= usize::MAX,
        n <= 0 || draws@.len() >= n - 1,
    ensures
        r@.shape == seq![(if n < 0 { 0 } else { n }) as usize],
        r@.data == spec_fisher_yates(range_seq(nonneg_len(n)), draws@),
        nd_wf(r@),
{
    let m: usize = if n < 0 { 0 } else { n as usize };
    let mut v: Vec<i64> = Vec::new();
    let mut i: usize = 0;
    while i < m
        invariant
            i <= m,
            m <= i64::MAX,
            v@ == range_seq(i as nat),
        decreases m - i,
    {
        v.push(i as i64);
        i = i + 1;
        assert(v@ =~= range_seq(i as nat));
    }
    let data = shuffle_with(v, draws);
    proof {
        lemma_fisher_yates_permutes(range_seq(m as nat), draws@);
        lemma_product_small(m, 1, 1);
    }
    let r = NdArray { shape: vec![m], data };
    assert(r@.shape =~= seq![m]);
    r
}

/// Draws a Fisher-Yates shuffle of `m` entries takes: `m - 1`, none for
/// an empty sequence.
pub open spec fn shuffle_steps(m: nat) -> nat {
    if m == 0 { 0 } else { (m - 1) as nat }
}

/// `permutation`: a random ordering of `0..n` (nothing for negative `n`),
/// by a Fisher-Yates shuffle on the next `n - 1` draws of the generator.
pub fn permutation(rng: &mut rand::rngs::StdRng, n: i64) -> (r: NdArray<i64>)
    requires
        n <= usize::MAX,
    ensures
        r@.shape == seq![(if n < 0 { 0 } else { n }) as usize],
        r@.data.to_multiset() == range_seq(nonneg_len(n)).to_multiset(),
        r@.data == spec_fisher_yates(
            range_seq(nonneg_len(n)),
            draw_seq(*old(rng), shuffle_steps(nonneg_len(n))),
        ),
        *final(rng) == state_after(*old(rng), shuffle_steps(nonneg_len(n))),
        nd_wf(r@),
{
    let m: usize = if n < 0 { 0 } else { n as usize };
    let k: usize = if m == 0 { 0 } else { m - 1 };
    let d = draws(rng, k);
    let r = permutation_with(n, d.as_slice());
    proof {
        lemma_fisher_yates_permutes(range_seq(m as nat), d@);
    }
    r
}

// ---------------------------------------------------------------------
// shuffle (rows of an array)
// ---------------------------------------------------------------------


/// The entries of `data` of `rs` elements each, taken in the order `perm`.
pub open spec fn gather_rows<T>(data: Seq<T>, perm: Seq<i64>, rs: int) -> Seq<T> {
    Seq::new((perm.len() * rs) as nat, |x: int| data[perm[x / rs] * rs + x % rs])
}

/// `shuffle`: the entries along the first axis reordered by the Fisher-Yates
/// shuffle of their indices driven by the draws.
pub open spec fn spec_shuffle_rows<T>(a: NdModel<T>, draws: Seq<u64>) -> NdModel<T> {
    let n = a.shape[0] as int;
    let perm = spec_fisher_yates(range_seq(n as nat), draws);
    let p = shape_product(a.shape.drop_first()) as int;
    if p == 0 { a } else { NdModel { shape: a.shape, data: gather_rows(a.data, perm, p) } }
}

proof fn lemma_perm_in_range(n: nat, draws: Seq<u64>)
    requires
        n == 0 || draws.len() >= n - 1,
        n <= i64::MAX,
    ensures
        forall|r: int| 0 <= r < n ==> 0 <= #[trigger] spec_fisher_yates(range_seq(n), draws)[r] < n,
{
    lemma_fisher_yates_permutes(range_seq(n), draws);
    let p = spec_fisher_yates(range_seq(n), draws);
    assert forall|r: int| 0 <= r < n implies 0 <= #[trigger] p[r] < n by {
        broadcast use vstd::seq_lib::group_to_multiset_ensures;
        assert(p.contains(p[r]));
        assert(p.to_multiset().count(p[r]) > 0);
        assert(range_seq(n).to_multiset().count(p[r]) > 0);
        assert(range_seq(n).contains(p[r]));
        let w = choose|i: int| 0 <= i < range_seq(n).len() && range_seq(n)[i] == p[r];
        assert(p[r] == w);
    }
}

proof fn lemma_gather_step<T>(data: Seq<T>, perm: Seq<i64>, rs: int, r: int)
    requires
        0 <= r < perm.len(),
        0 < rs,
        0 <= perm[r] * rs,
        perm[r] * rs + rs <= data.len(),
    ensures
        gather_rows(data, perm.take(r + 1), rs) == gather_rows(data, perm.take(r), rs)
            + data.subrange(perm[r] * rs, perm[r] * rs + rs),
{
    let a = gather_rows(data, perm.take(r + 1), rs);
    let b = gather_rows(data, perm.take(r), rs);
    let c = data.subrange(perm[r] * rs, perm[r] * rs + rs);
    assert((r + 1) * rs == r * rs + rs) by (nonlinear_arith);
    assert forall|x: int| 0 <= x < (r + 1) * rs implies a[x] == (b + c)[x] by {
        vstd::arithmetic::div_mod::lemma_fundamental_div_mod(x, rs);
        vstd::arithmetic::div_mod::lemma_mod_bound(x, rs);
        let q = x / rs;
        let m = x % rs;
        if x < r * rs {
            assert(q < r) by (nonlinear_arith)
                requires
                    x == rs * q + m,
                    0 <= m < rs,
                    x < r * rs,
            ;
            assert(0 <= q) by (nonlinear_arith)
                requires
                    x == rs * q + m,
                    m < rs,
                    x >= 0,
                    rs > 0,
            ;
        } else {
            vstd::arithmetic::div_mod::lemma_fundamental_div_mod_converse(x, rs, r, x - r * rs);
        }
    }
    assert(a =~= b + c);
}

/// `shuffle_rows_with`: reorders the entries of `a` along its first axis by
/// the Fisher-Yates shuffle of their indices driven by the draws.
pub fn shuffle_rows_with<T: Copy>(a: &mut NdArray<T>, draws: &[u64])
    requires
        nd_wf(old(a)@),
        old(a).shape@.len() >= 1,
        old(a).shape@[0] <= i64::MAX,
        old(a).shape@[0] == 0 || draws@.len() >= old(a).shape@[0] - 1,
        forall|k: int| 0 <= k <= old(a).shape@.len() - 1 ==> #[trigger] shape_product(old(a).shape@.drop_first().take(k)) <= usize::MAX,
    ensures
        final(a)@ == spec_shuffle_rows(old(a)@, draws@),
{
    let n = a.shape[0];
    let ghost shape = a.shape@;
    let ghost old_data = a.data@;
    let tail = vstd::slice::slice_subrange(a.shape.as_slice(), 1, a.shape.len());
    assert(tail@ =~= shape.drop_first());
    let rs = element_count(tail);
    if rs == 0 {
        return;
    }
    let perm = permutation_with(n as i64, draws);
    let total = a.data.len();
    proof {
        lemma_perm_in_range(n as nat, draws@);
        lemma_fisher_yates_permutes(range_seq(n as nat), draws@);
        crate::index::lemma_product_front(shape);
        assert(nonneg_len(n as i64) == n);
    }
    let mut out: Vec<T> = Vec::new();
    let mut r: usize = 0;
    assert(perm@.data.take(0) =~= Seq::<i64>::empty());
    assert(out@ =~= gather_rows(old_data, perm@.data.take(0), rs as int));
    while r < n
        invariant
            r <= n,
            rs > 0,
            perm@.data.len() == n,
            perm@.data == spec_fisher_yates(range_seq(n as nat), draws@),
            forall|q: int| 0 <= q < n ==> 0 <= #[trigger] perm@.data[q] < n,
            total == old_data.len(),
            a.data@ == old_data,
            total == n * rs,
            out@ == gather_rows(old_data, perm@.data.take(r as int), rs as int),
        decreases n - r,
    {
        let src = perm.data[r] as usize;
        assert(src * rs + rs <= total) by (nonlinear_arith)
            requires
                src < n,
                total == n * rs,
        ;
        let base = src * rs;
        let mut k: usize = 0;
        let ghost start = out@;
        while k < rs
            invariant
                k <= rs,
                base + rs <= total,
                total == a.data@.len(),
                out@ == start + a.data@.subrange(base as int, base + k),
            decreases rs - k,
        {
            out.push(a.data[base + k]);
            k = k + 1;
            assert(out@ =~= start + a.data@.subrange(base as int, base + k));
        }
        proof {
            lemma_gather_step(old_data, perm@.data, rs as int, r as int);
        }
        r = r + 1;
    }
    assert(perm@.data.take(n as int) =~= perm@.data);
    a.data = out;
}

/// `shuffle`: reorders the entries of `a` along its first axis at random
/// (a Fisher-Yates shuffle of their indices on `rows - 1` draws).
pub fn shuffle<T: Copy>(rng: &mut rand::rngs::StdRng, a: &mut NdArray<T>)
    requires
        nd_wf(old(a)@),
        old(a).shape@.len() >= 1,
        old(a).shape@[0] <= i64::MAX,
        forall|k: int| 0 <= k <= old(a).shape@.len() - 1 ==> #[trigger] shape_product(old(a).shape@.drop_first().take(k)) <= usize::MAX,
    ensures
        final(a)@ == spec_shuffle_rows(old(a)@, draw_seq(*old(rng), shuffle_steps(old(a).shape@[0] as nat))),
        *final(rng) == state_after(*old(rng), shuffle_steps(old(a).shape@[0] as nat)),
{
    let n = a.shape[0];
    let k: usize = if n == 0 { 0 } else { n - 1 };
    let d = draws(rng, k);
    shuffle_rows_with(a, d.as_slice());
}

// ---------------------------------------------------------------------
// choice / randint
// ---------------------------------------------------------------------

/// `choice`: with replacement (or when asking for more than there are),
/// entry `k` is `a[draws[k] mod len(a)]`; without, the first `n` entries of
/// the Fisher-Yates shuffle of `a` (all of them, a permutation, for
/// `n == len(a)`).
pub open spec fn spec_choice(a: Seq<i64>, n: nat, replace: bool, draws: Seq<u64>) -> Seq<i64> {
    if replace || n > a.len() {
        Seq::new(n, |k: int| a[((draws[k] as usize) as int) % (a.len() as int)])
    } else {
        spec_fisher_yates(a, draws).take(n as int)
    }
}

/// Draws `choice` takes: one per pick with replacement, one per shuffle
/// step without.
pub open spec fn choice_draws(len: nat, n: nat, replace: bool) -> nat {
    if replace || n > len { n } else if len == 0 { 0 } else { (len - 1) as nat }
}

/// `choice_with`: `n` picks from `a` driven by the draws.
pub fn choice_with(a: &[i64], n: usize, replace: bool, draws: &[u64]) -> (r: NdArray<i64>)
    requires
        a@.len() > 0 || n == 0,
        draws@.len() >= choice_draws(a@.len(), n as nat, replace),
    ensures
        r@.shape == seq![n],
        r@.data == spec_choice(a@, n as nat, replace, draws@),
        nd_wf(r@),
{
    proof {
        lemma_product_small(n, 1, 1);
    }
    let len = a.len();
    if replace || n > len {
        let mut out: Vec<i64> = Vec::new();
        let mut k: usize = 0;
        while k < n
            invariant
                k <= n,
                len == a@.len(),
                len > 0 || n == 0,
                draws@.len() >= n,
                out@ == spec_choice(a@, n as nat, replace, draws@).take(k as int),
                replace || n > len,
            decreases n - k,
        {
            let idx = (draws[k] as usize) % len;
            out.push(a[idx]);
            k = k + 1;
            assert(out@ =~= spec_choice(a@, n as nat, replace, draws@).take(k as int));
        }
        assert(spec_choice(a@, n as nat, replace, draws@).take(n as int) =~= spec_choice(a@, n as nat, replace, draws@));
        let r = NdArray { shape: vec![n], data: out };
        assert(r@.shape =~= seq![n]);
        r
    } else {
        let pool = crate::nd::copy_vec(a);
        let shuffled = shuffle_with(pool, draws);
        proof {
            lemma_fisher_yates_permutes(a@, draws@);
        }
        let mut out: Vec<i64> = Vec::new();
        let mut k: usize = 0;
        while k < n
            invariant
                k <= n,
                n <= shuffled@.len(),
                out@ == shuffled@.take(k as int),
            decreases n - k,
        {
            out.push(shuffled[k]);
            k = k + 1;
            assert(out@ =~= shuffled@.take(k as int));
        }
        let r = NdArray { shape: vec![n], data: out };
        assert(r@.shape =~= seq![n]);
        r
    }
}

/// Every pick is an entry of `a`; without replacement, picking all of
/// `a` gives a permutation of it.
pub proof fn lemma_choice_from(a: Seq<i64>, n: nat, replace: bool, draws: Seq<u64>)
    requires
        a.len() > 0 || n == 0,
        draws.len() >= choice_draws(a.len(), n, replace),
    ensures
        forall|k: int| 0 <= k < n ==> a.contains(#[trigger] spec_choice(a, n, replace, draws)[k]),
        !replace && n == a.len() ==> spec_choice(a, n, replace, draws).to_multiset() == a.to_multiset(),
        !replace && n <= a.len() ==> spec_choice(a, n, replace, draws).to_multiset().subset_of(a.to_multiset()),
{
    broadcast use vstd::seq_lib::group_to_multiset_ensures;
    if replace || n > a.len() {
        assert forall|k: int| 0 <= k < n implies a.contains(#[trigger] spec_choice(a, n, replace, draws)[k]) by {
            let i = ((draws[k] as usize) as int) % (a.len() as int);
            vstd::arithmetic::div_mod::lemma_mod_bound((draws[k] as usize) as int, a.len() as int);
            assert(a[i] == spec_choice(a, n, replace, draws)[k]);
        }
    } else {
        lemma_fisher_yates_permutes(a, draws);
        let p = spec_fisher_yates(a, draws);
        assert forall|k: int| 0 <= k < n implies a.contains(#[trigger] spec_choice(a, n, replace, draws)[k]) by {
            assert(p.contains(p[k]));
            assert(p.to_multiset().count(p[k]) > 0);
        }
        if n == a.len() {
            assert(p.take(n as int) =~= p);
        }
        assert(p =~= p.take(n as int) + p.skip(n as int));
        vstd::seq_lib::lemma_multiset_commutative(p.take(n as int), p.skip(n as int));
        assert(p.take(n as int).to_multiset().subset_of(a.to_multiset()));
    }
}

/// `choice`: `n` random picks from `a`, with or without replacement
/// (without, when no more than `len(a)` are asked for: distinct positions,
/// so no value is taken more often than `a` holds it).
pub fn choice(rng: &mut rand::rngs::StdRng, a: &[i64], n: usize, replace: bool) -> (r: NdArray<i64>)
    requires
        a@.len() > 0 || n == 0,
    ensures
        r@.shape == seq![n],
        r@.data == spec_choice(a@, n as nat, replace, draw_seq(*old(rng), choice_draws(a@.len(), n as nat, replace))),
        *final(rng) == state_after(*old(rng), choice_draws(a@.len(), n as nat, replace)),
        forall|k: int| 0 <= k < n ==> a@.contains(#[trigger] r@.data[k]),
        !replace && n == a@.len() ==> r@.data.to_multiset() == a@.to_multiset(),
        !replace && n <= a@.len() ==> r@.data.to_multiset().subset_of(a@.to_multiset()),
        nd_wf(r@),
{
    let len = a.len();
    let k: usize = if replace || n > len { n } else if len == 0 { 0 } else { len - 1 };
    let d = draws(rng, k);
    let r = choice_with(a, n, replace, d.as_slice());
    proof {
        lemma_choice_from(a@, n as nat, replace, d@);
    }
    r
}

/// `randint`: entry `k` is `low + draws[k] mod (high - low)`, over the
/// shape (a scalar shape gives one entry); `high <= low` gives an empty
/// 1-D array.
pub open spec fn spec_randint(low: int, high: int, shape: Seq<usize>, draws: Seq<u64>) -> NdModel<i64> {
    if high <= low {
        NdModel { shape: seq![0usize], data: Seq::empty() }
    } else {
        let count = if shape.len() == 0 { 1 } else { shape_product(shape) };
        NdModel {
            shape: if shape.len() == 0 { seq![1usize] } else { shape },
            data: Seq::new(count, |k: int| (low + (draws[k] as int) % (high - low)) as i64),
        }
    }
}

/// `randint_with`: bounded integers from the draws.
pub fn randint_with(low: i64, high: i64, shape: &[usize], draws: &[u64]) -> (r: NdArray<i64>)
    requires
        high <= low || high - low <= i64::MAX,
        forall|k: int| 0 <= k <= shape@.len() ==> #[trigger] shape_product(shape@.take(k)) <= usize::MAX,
        high <= low || draws@.len() >= (if shape@.len() == 0 { 1 } else { shape_product(shape@) }),
    ensures
        r@ == spec_randint(low as int, high as int, shape@, draws@),
        nd_wf(r@),
{
    if high <= low {
        let r = NdArray { shape: vec![0], data: Vec::new() };
        assert(r@.shape =~= seq![0usize]);
        assert(r@.data =~= Seq::<i64>::empty());
        proof {
            lemma_product_small(0, 0, 0);
        }
        return r;
    }
    let n = element_count(shape);
    let count = if shape.len() == 0 { 1 } else { n };
    let range = (high - low) as u64;
    let ghost target = spec_randint(low as int, high as int, shape@, draws@);
    let mut out: Vec<i64> = Vec::new();
    let mut k: usize = 0;
    while k < count
        invariant
            k <= count,
            high > low,
            high - low <= i64::MAX,
            range as int == high - low,
            draws@.len() >= count,
            target == spec_randint(low as int, high as int, shape@, draws@),
            target.data.len() == count,
            out@ == target.data.take(k as int),
        decreases count - k,
    {
        let r = draws[k] % range;
        assert(r < range);
        assert(r as int == (draws@[k as int] as int) % (high - low));
        assert(low + r < high);
        let v = low + (r as i64);
        out.push(v);
        k = k + 1;
        assert(out@ =~= target.data.take(k as int));
    }
    assert(target.data.take(count as int) =~= target.data);
    let sh: Vec<usize> = if shape.len() == 0 { vec![1] } else { crate::nd::copy_vec(shape) };
    assert(sh@ =~= target.shape);
    proof {
        lemma_product_small(1, 0, 0);
    }
    NdArray { shape: sh, data: out }
}

/// Draws `randint` takes: one per entry (one for a scalar shape, none for
/// a shape with a zero extent),
/// none when `high <= low`.
pub open spec fn randint_draws(low: int, high: int, shape: Seq<usize>) -> nat {
    if high <= low {
        0
    } else if shape.len() == 0 {
        1
    } else {
        shape_product(shape)
    }
}

/// `randint`: random integers in `[low, high)` over the shape (one for a
/// scalar shape); `high <= low` gives an empty array.
pub fn randint(rng: &mut rand::rngs::StdRng, low: i64, high: i64, shape: &[usize]) -> (r: NdArray<i64>)
    requires
        high <= low || high - low <= i64::MAX,
        forall|k: int| 0 <= k <= shape@.len() ==> #[trigger] shape_product(shape@.take(k)) <= usize::MAX,
    ensures
        r@ == spec_randint(low as int, high as int, shape@, draw_seq(*old(rng), randint_draws(low as int, high as int, shape@))),
        nd_wf(r@),
        *final(rng) == state_after(*old(rng), randint_draws(low as int, high as int, shape@)),
        forall|k: int| 0 <= k < r@.data.len() ==> low <= #[trigger] r@.data[k] < high,
{
    let k: usize = if high <= low {
        0
    } else {
        let n = element_count(shape);
        if shape.len() == 0 { 1 } else { n }
    };
    let d = draws(rng, k);
    let r = randint_with(low, high, shape, d.as_slice());
    assert forall|j: int| 0 <= j < r@.data.len() implies low <= #[trigger] r@.data[j] < high by {
        vstd::arithmetic::div_mod::lemma_mod_bound(d@[j] as int, high - low);
    }
    r
}

// ---------------------------------------------------------------------
// sequences of calls
// ---------------------------------------------------------------------

/// One call of a sampler, with its arguments.
#[derive(Clone, Debug, PartialEq, Eq)]
pub enum SamplerCall {
    /// `random_bytes(n)`.
    RandomBytes(usize),
    /// `permutation(n)`.
    Permutation(i64),
    /// `choice(a, n, replace)`.
    Choice(Vec<i64>, usize, bool),
    /// `randint(low, high, shape)`.
    Randint(i64, i64, Vec<usize>),
}

/// What one call gave.
#[derive(Clone, Debug, PartialEq, Eq)]
pub enum SamplerOutput {
    Bytes(Vec<u8>),
    Ints(NdArray<i64>),
}

/// What one call gave, as mathematical values.
pub enum Drawn {
    Bytes(Seq<u8>),
    Ints(NdModel<i64>),
}

/// The mathematical value of an output.
pub open spec fn output_view(o: SamplerOutput) -> Drawn {
    match o {
        SamplerOutput::Bytes(v) => Drawn::Bytes(v@),
        SamplerOutput::Ints(a) => Drawn::Ints(a@),
    }
}

/// The call can be made: the samplers' own conditions.
pub open spec fn call_ok(c: SamplerCall) -> bool {
    match c {
        SamplerCall::RandomBytes(_) => true,
        SamplerCall::Permutation(n) => n <= usize::MAX,
        SamplerCall::Choice(a, n, _) => a@.len() > 0 || n == 0,
        SamplerCall::Randint(low, high, shape) => (high <= low || high - low <= i64::MAX) && forall|k: int|
            0 <= k <= shape@.len() ==> #[trigger] shape_product(shape@.take(k)) <= usize::MAX,
    }
}

/// What a call gives from a generator in state `g`, and the state it
/// leaves.
pub open spec fn call_step(g: rand::rngs::StdRng, c: SamplerCall) -> (Drawn, rand::rngs::StdRng) {
    match c {
        SamplerCall::RandomBytes(n) => (Drawn::Bytes(byte_seq(g, n as nat)), state_after_bytes(g, n as nat)),
        SamplerCall::Permutation(n) => {
            let k = shuffle_steps(nonneg_len(n));
            (
                Drawn::Ints(NdModel {
                    shape: seq![nonneg_len(n) as usize],
                    data: spec_fisher_yates(range_seq(nonneg_len(n)), draw_seq(g, k)),
                }),
                state_after(g, k),
            )
        },
        SamplerCall::Choice(a, n, replace) => {
            let k = choice_draws(a@.len(), n as nat, replace);
            (
                Drawn::Ints(NdModel { shape: seq![n], data: spec_choice(a@, n as nat, replace, draw_seq(g, k)) }),
                state_after(g, k),
            )
        },
        SamplerCall::Randint(low, high, shape) => {
            let k = randint_draws(low as int, high as int, shape@);
            (Drawn::Ints(spec_randint(low as int, high as int, shape@, draw_seq(g, k))), state_after(g, k))
        },
    }
}

/// What a sequence of calls gives from a generator in state `g`, in order,
/// and the state it leaves.
pub open spec fn spec_run(g: rand::rngs::StdRng, calls: Seq<SamplerCall>) -> (Seq<Drawn>, rand::rngs::StdRng)
    decreases calls.len(),
{
    if calls.len() == 0 {
        (Seq::empty(), g)
    } else {
        let before = spec_run(g, calls.drop_last());
        let step = call_step(before.1, calls.last());
        (before.0.push(step.0), step.1)
    }
}

/// One output per call.
pub proof fn lemma_run_len(g: rand::rngs::StdRng, calls: Seq<SamplerCall>)
    ensures
        spec_run(g, calls).0.len() == calls.len(),
    decreases calls.len(),
{
    if calls.len() > 0 {
        lemma_run_len(g, calls.drop_last());
    }
}

/// Running two sequences of calls one after the other is running them
/// joined: the outputs follow on and the final state is the same.
pub proof fn lemma_run_split(g: rand::rngs::StdRng, c1: Seq<SamplerCall>, c2: Seq<SamplerCall>)
    ensures
        spec_run(g, c1 + c2).0 == spec_run(g, c1).0 + spec_run(spec_run(g, c1).1, c2).0,
        spec_run(g, c1 + c2).1 == spec_run(spec_run(g, c1).1, c2).1,
    decreases c2.len(),
{
    if c2.len() == 0 {
        assert(c1 + c2 =~= c1);
        assert(spec_run(g, c1).0 + spec_run(spec_run(g, c1).1, c2).0 =~= spec_run(g, c1).0);
    } else {
        lemma_run_split(g, c1, c2.drop_last());
        assert((c1 + c2).drop_last() =~= c1 + c2.drop_last());
        assert((c1 + c2).last() == c2.last());
        let g1 = spec_run(g, c1).1;
        assert(spec_run(g, c1 + c2).0 =~= spec_run(g, c1).0 + spec_run(g1, c2).0);
    }
}

/// After `seed(s)`, a sequence of calls gives `spec_run(seeded_generator(s),
/// calls)`: its outputs depend on `s` and the calls alone, and a run split
/// into parts gives the outputs of the whole run.
pub proof fn lemma_seeded_run(s: u64, c1: Seq<SamplerCall>, c2: Seq<SamplerCall>)
    ensures
        spec_run(seeded_generator(s), c1 + c2).0 == spec_run(seeded_generator(s), c1).0 + spec_run(
            spec_run(seeded_generator(s), c1).1,
            c2,
        ).0,
{
    lemma_run_split(seeded_generator(s), c1, c2);
}

/// Makes the calls in order on the generator.
pub fn run_calls(rng: &mut rand::rngs::StdRng, calls: &[SamplerCall]) -> (r: Vec<SamplerOutput>)
    requires
        forall|i: int| 0 <= i < calls@.len() ==> call_ok(#[trigger] calls@[i]),
    ensures
        r@.len() == calls@.len(),
        forall|i: int| 0 <= i < r@.len() ==> output_view(#[trigger] r@[i]) == spec_run(*old(rng), calls@).0[i],
        *final(rng) == spec_run(*old(rng), calls@).1,
{
    let ghost g0 = *rng;
    let mut out: Vec<SamplerOutput> = Vec::new();
    let mut i: usize = 0;
    while i < calls.len()
        invariant
            i <= calls@.len(),
            forall|j: int| 0 <= j < calls@.len() ==> call_ok(#[trigger] calls@[j]),
            out@.len() == i,
            spec_run(g0, calls@.take(i as int)).0.len() == i,
            forall|j: int| 0 <= j < i ==> output_view(#[trigger] out@[j]) == spec_run(g0, calls@.take(i as int)).0[j],
            *rng == spec_run(g0, calls@.take(i as int)).1,
        decreases calls@.len() - i,
    {
        let ghost before = spec_run(g0, calls@.take(i as int));
        let ghost c = calls@[i as int];
        assert(calls@.take(i + 1).drop_last() =~= calls@.take(i as int));
        assert(calls@.take(i + 1).last() == c);
        assert(call_ok(c));
        let o = match &calls[i] {
            SamplerCall::RandomBytes(n) => SamplerOutput::Bytes(random_bytes(rng, *n)),
            SamplerCall::Permutation(n) => {
                let p = permutation(rng, *n);
                assert(p@.shape =~= seq![nonneg_len(*n) as usize]);
                SamplerOutput::Ints(p)
            },
            SamplerCall::Choice(a, n, replace) => SamplerOutput::Ints(choice(rng, a.as_slice(), *n, *replace)),
            SamplerCall::Randint(low, high, shape) => SamplerOutput::Ints(randint(rng, *low, *high, shape.as_slice())),
        };
        proof {
            let step = call_step(before.1, c);
            assert(output_view(o) == step.0);
        }
        out.push(o);
        i = i + 1;
    }
    assert(calls@.take(calls@.len() as int) =~= calls@);
    out
}

} // verus!
