//! Integer element operations: Euclid's gcd, wrapping integer powers, and
//! comparison operators.
use vstd::prelude::*;

verus! {

/// `|x|`.
pub open spec fn abs(x: int) -> int {
    if x < 0 { -x } else { x }
}

/// Rust's remainder `a % b` (truncating: the sign of `a`, magnitude below
/// `|b|`).
pub open spec fn trunc_rem(a: int, b: int) -> int {
    if a >= 0 { a % abs(b) } else { -((-a) % abs(b)) }
}

/// Whether Euclid's algorithm on `i64`s, as `gcd_i64` runs it, gets
/// through without computing `i64::MIN % -1`, which overflows (`None`), and
/// what it ends on. It only states when `gcd_i64` may be called; what the
/// result is, `gcd_i64` states by divisors (`is_gcd`).
pub open spec fn spec_gcd_i64(a: int, b: int) -> Option<int>
    decreases abs(b),
{
    if b == 0 {
        Some(a)
    } else if a == i64::MIN && b == -1 {
        None
    } else {
        if abs(trunc_rem(a, b)) < abs(b) {
            spec_gcd_i64(b, trunc_rem(a, b))
        } else {
            None
        }
    }
}

proof fn lemma_trunc_rem_bound(a: int, b: int)
    requires
        b != 0,
    ensures
        abs(trunc_rem(a, b)) < abs(b),
        a >= 0 ==> 0 <= trunc_rem(a, b),
{
    vstd::arithmetic::div_mod::lemma_mod_bound(a, abs(b));
    vstd::arithmetic::div_mod::lemma_mod_bound(-a, abs(b));
}

/// `x` and `y` have the same positive common divisors as `a` and `b`.
pub open spec fn same_common_divisors(x: int, y: int, a: int, b: int) -> bool {
    forall|d: int| d > 0 ==> (#[trigger] divides(d, x) && divides(d, y) <==> divides(d, a) && divides(d, b))
}

/// The quotient that goes with `trunc_rem`: `x == y * q + trunc_rem(x, y)`.
proof fn lemma_trunc_rem_quotient(x: int, y: int) -> (q: int)
    requires
        y != 0,
    ensures
        x == y * q + trunc_rem(x, y),
{
    let m = abs(y);
    if x >= 0 {
        vstd::arithmetic::div_mod::lemma_fundamental_div_mod(x, m);
        let k = x / m;
        let q = if y > 0 { k } else { -k };
        assert(y * q == m * k) by (nonlinear_arith)
            requires
                m == abs(y),
                q == (if y > 0 { k } else { -k }),
        ;
        q
    } else {
        vstd::arithmetic::div_mod::lemma_fundamental_div_mod(-x, m);
        let k = (-x) / m;
        let q = if y > 0 { -k } else { k };
        assert(y * q == -(m * k)) by (nonlinear_arith)
            requires
                m == abs(y),
                q == (if y > 0 { -k } else { k }),
        ;
        q
    }
}

/// `gcd_i64`: Euclid's algorithm with Rust's remainder. The positive
/// divisors of the result are exactly the common positive divisors of `a`
/// and `b`; for non-negative inputs the result is their greatest common
/// divisor.
pub fn gcd_i64(a: i64, b: i64) -> (r: i64)
    requires
        spec_gcd_i64(a as int, b as int) is Some,
    ensures
        forall|d: int| d > 0 ==> (#[trigger] divides(d, r as int) <==> divides(d, a as int) && divides(d, b as int)),
        a >= 0 && b >= 0 ==> r == gcd_of(a as int, b as int),
{
    let mut x = a;
    let mut y = b;
    while y != 0
        invariant
            spec_gcd_i64(x as int, y as int) == spec_gcd_i64(a as int, b as int),
            spec_gcd_i64(x as int, y as int) is Some,
            a >= 0 && b >= 0 ==> x >= 0 && y >= 0,
            same_common_divisors(x as int, y as int, a as int, b as int),
        decreases abs(y as int),
    {
        proof {
            lemma_trunc_rem_bound(x as int, y as int);
        }
        let t = y;
        let opt = x.checked_rem(y);
        proof {
            let xi = x as int;
            let yi = y as int;
            lemma_trunc_rem_bound(xi, yi);
            if xi > 0 && yi > 0 {
                assert(opt == Some((xi % yi) as i64));
            } else if xi < 0 && yi < 0 {
                assert(xi * -1 == -xi);
                assert(yi * -1 == -yi);
                let q = (-xi) % (-yi);
                assert(q * -1 == -q);
                assert(opt == Some((-q) as i64));
            } else if xi < 0 {
                assert(xi * -1 == -xi);
                let q = (-xi) % yi;
                assert(q * -1 == -q);
                assert(opt == Some((-q) as i64));
            } else if xi > 0 {
                assert(yi * -1 == -yi);
                assert(opt == Some((xi % (-yi)) as i64));
            } else {
                vstd::arithmetic::div_mod::lemma_small_mod(0, abs(yi) as nat);
            }
        }
        let rem = opt.unwrap();
        assert(rem == trunc_rem(x as int, y as int));
        proof {
            let q = lemma_trunc_rem_quotient(x as int, y as int);
            assert forall|d: int| d > 0 implies (#[trigger] divides(d, y as int) && divides(d, rem as int)
                <==> divides(d, a as int) && divides(d, b as int)) by {
                assert(same_common_divisors(x as int, y as int, a as int, b as int));
                assert(divides(d, x as int) && divides(d, y as int) <==> divides(d, a as int) && divides(d, b as int));
                if divides(d, y as int) {
                    lemma_divides_combination(d, y as int, q, rem as int);
                }
            }
        }
        y = rem;
        x = t;
        assert(same_common_divisors(x as int, y as int, a as int, b as int));
    }
    proof {
        assert forall|d: int| d > 0 implies #[trigger] divides(d, 0) by {
            vstd::arithmetic::div_mod::lemma_small_mod(0, d as nat);
        }
        if a >= 0 && b >= 0 {
            lemma_gcd_of_nonneg(a as int, b as int);
            lemma_gcd_is_gcd(a as int, b as int);
        }
    }
    x
}

/// `g` is the greatest common divisor of `a` and `b`: a non-negative
/// common divisor that every positive common divisor divides.
pub open spec fn is_gcd(g: int, a: int, b: int) -> bool {
    &&& g >= 0
    &&& divides(g, a)
    &&& divides(g, b)
    &&& forall|d: int| d > 0 && divides(d, a) && divides(d, b) ==> #[trigger] divides(d, g)
}

/// The greatest common divisor of `a` and `b`.
pub open spec fn gcd_of(a: int, b: int) -> int {
    choose|g: int| is_gcd(g, a, b)
}

/// There is only one greatest common divisor.
pub proof fn lemma_gcd_unique(g: int, h: int, a: int, b: int)
    requires
        is_gcd(g, a, b),
        is_gcd(h, a, b),
    ensures
        g == h,
{
    if g == 0 || h == 0 {
        let z = if g == 0 { g } else { h };
        let o = if g == 0 { h } else { g };
        assert(a == 0 && b == 0) by {
            assert(divides(z, a) && divides(z, b));
        }
        vstd::arithmetic::div_mod::lemma_small_mod(0, (o + 1) as nat);
        assert(divides(o + 1, a) && divides(o + 1, b));
        assert(divides(o + 1, o));
        vstd::arithmetic::div_mod::lemma_small_mod(o as nat, (o + 1) as nat);
    } else {
        assert(divides(g, h));
        assert(divides(h, g));
        vstd::arithmetic::div_mod::lemma_fundamental_div_mod(h, g);
        vstd::arithmetic::div_mod::lemma_fundamental_div_mod(g, h);
        let k = h / g;
        let l = g / h;
        assert(g == h) by (nonlinear_arith)
            requires
                h == g * k,
                g == h * l,
                g > 0,
                h > 0,
        ;
    }
}

/// For non-negative inputs Euclid's algorithm never overflows (the
/// `requires` of `gcd_i64` holds) and finds the greatest common divisor.
pub proof fn lemma_gcd_of_nonneg(a: int, b: int)
    requires
        0 <= a <= i64::MAX,
        0 <= b <= i64::MAX,
    ensures
        spec_gcd_i64(a, b) is Some,
        is_gcd(gcd_of(a, b), a, b),
        gcd_of(a, b) == spec_gcd_i64(a, b).unwrap(),
{
    lemma_gcd_is_gcd(a, b);
    let g = spec_gcd_i64(a, b).unwrap();
    assert(is_gcd(g, a, b));
    lemma_gcd_unique(g, gcd_of(a, b), a, b);
}

/// `d` divides `x` (0 divides only 0).
pub open spec fn divides(d: int, x: int) -> bool {
    if d == 0 { x == 0 } else { x % d == 0 }
}

proof fn lemma_divides_combination(d: int, b: int, q: int, r: int)
    requires
        d > 0,
        divides(d, b),
    ensures
        divides(d, r) <==> divides(d, b * q + r),
{
    vstd::arithmetic::div_mod::lemma_mul_mod_noop_left(b, q, d);
    assert((b % d) * q == 0) by (nonlinear_arith)
        requires
            b % d == 0,
    ;
    vstd::arithmetic::div_mod::lemma_small_mod(0, d as nat);
    vstd::arithmetic::div_mod::lemma_add_mod_noop(b * q, r, d);
    vstd::arithmetic::div_mod::lemma_mod_twice(r, d);
    vstd::arithmetic::div_mod::lemma_mod_bound(r, d);
}

/// Euclid's algorithm on non-negative inputs finds their greatest common
/// divisor: a non-negative common divisor that every common divisor divides.
pub proof fn lemma_gcd_is_gcd(a: int, b: int)
    requires
        0 <= a <= i64::MAX,
        0 <= b <= i64::MAX,
    ensures
        spec_gcd_i64(a, b) is Some,
        ({
            let g = spec_gcd_i64(a, b).unwrap();
            &&& g >= 0
            &&& divides(g, a)
            &&& divides(g, b)
            &&& forall|d: int| d > 0 && divides(d, a) && divides(d, b) ==> #[trigger] divides(d, g)
        }),
    decreases b,
{
    if b == 0 {
        if a > 0 {
            vstd::arithmetic::div_mod::lemma_mod_self_0(a);
            vstd::arithmetic::div_mod::lemma_small_mod(0, a as nat);
        }
    } else {
        let r = trunc_rem(a, b);
        lemma_trunc_rem_bound(a, b);
        assert(r == a % b);
        lemma_gcd_is_gcd(b, r);
        let g = spec_gcd_i64(b, r).unwrap();
        let q = a / b;
        vstd::arithmetic::div_mod::lemma_fundamental_div_mod(a, b);
        assert(a == b * q + r);
        assert(g != 0) by {
            if g == 0 {
                assert(b == 0);
            }
        }
        lemma_divides_combination(g, b, q, r);
        assert forall|d: int| d > 0 && divides(d, a) && divides(d, b) implies #[trigger] divides(d, g) by {
            lemma_divides_combination(d, b, q, r);
        }
    }
}

// ---------------------------------------------------------------------
// int_pow_i64
// ---------------------------------------------------------------------

/// 2^64.
pub open spec fn modulus64() -> int {
    0x1_0000_0000_0000_0000
}

/// `int_pow_i64`: `base.wrapping_pow(exp as u32)` for a non-negative
/// exponent (the exponent taken modulo 2^32, the power modulo 2^64 as an
/// `i64`), and 0 for a negative one.
pub open spec fn spec_int_pow_i64(base: int, exp: int) -> int {
    if exp < 0 {
        0
    } else {
        vstd::wrapping::i64_specs::signed_crop(vstd::arithmetic::power::pow(base, (exp % 0x1_0000_0000) as nat)) as int
    }
}

/// Cropping to `i64` keeps the value modulo 2^64.
pub(crate) proof fn lemma_crop_mod(x: int)
    ensures
        (vstd::wrapping::i64_specs::signed_crop(x) as int) % modulus64() == x % modulus64(),
{
    let m = modulus64();
    let r = x % m;
    vstd::arithmetic::div_mod::lemma_mod_bound(x, m);
    vstd::arithmetic::div_mod::lemma_mod_twice(x, m);
    if r > i64::MAX {
        vstd::arithmetic::div_mod::lemma_fundamental_div_mod_converse(r - m, m, -1, r);
    }
}

/// An `i64` congruent to `y` modulo 2^64 is `y` cropped to `i64`.
proof fn lemma_crop_unique(x: i64, y: int)
    requires
        (x as int) % modulus64() == y % modulus64(),
    ensures
        x as int == vstd::wrapping::i64_specs::signed_crop(y) as int,
{
    let m = modulus64();
    let xi = x as int;
    if xi >= 0 {
        vstd::arithmetic::div_mod::lemma_small_mod(xi as nat, m as nat);
    } else {
        vstd::arithmetic::div_mod::lemma_fundamental_div_mod_converse(xi, m, -1, xi + m);
    }
}

/// One squaring step: `r * b^e` is `r' * b'^(e / 2)` modulo 2^64, where
/// `b' = b * b` and `r' = r * b` for odd `e` (`r` for even `e`), each taken
/// modulo 2^64.
proof fn lemma_square_step(r: int, b: int, e: nat, r2: int, b2: int)
    requires
        e > 0,
        r2 % modulus64() == (if e % 2 == 1 { r * b } else { r }) % modulus64(),
        b2 % modulus64() == (b * b) % modulus64(),
    ensures
        (r2 * vstd::arithmetic::power::pow(b2, e / 2)) % modulus64() == (r * vstd::arithmetic::power::pow(b, e)) % modulus64(),
{
    let m = modulus64();
    let h = e / 2;
    let bb = b * b;
    vstd::arithmetic::power::lemma_square_is_pow2(b);
    vstd::arithmetic::power::lemma_pow_multiplies(b, 2, h);
    // b2^h == (b*b)^h modulo m
    vstd::arithmetic::power::lemma_pow_mod_noop(b2, h, m);
    vstd::arithmetic::power::lemma_pow_mod_noop(bb, h, m);
    let p2 = vstd::arithmetic::power::pow(b2, h);
    let pb = vstd::arithmetic::power::pow(bb, h);
    assert(p2 % m == pb % m);
    vstd::arithmetic::div_mod::lemma_mul_mod_noop(r2, p2, m);
    let s = if e % 2 == 1 { r * b } else { r };
    vstd::arithmetic::div_mod::lemma_mul_mod_noop(s, pb, m);
    assert((r2 * p2) % m == (s * pb) % m);
    assert(pb == vstd::arithmetic::power::pow(b, 2 * h));
    if e % 2 == 1 {
        assert(e == 2 * h + 1);
        vstd::arithmetic::power::lemma_pow_adds(b, 2 * h, 1);
        vstd::arithmetic::power::lemma_pow1(b);
        assert((r * b) * pb == r * (pb * b)) by (nonlinear_arith);
    } else {
        assert(e == 2 * h);
    }
}

/// `int_pow_i64`: the wrapping power by repeated squaring; a negative
/// exponent gives 0.
pub fn int_pow_i64(base: i64, exp: i64) -> (r: i64)
    ensures
        r as int == spec_int_pow_i64(base as int, exp as int),
{
    if exp < 0 {
        return 0;
    }
    let e0: u32 = ((exp as u64) % 0x1_0000_0000) as u32;
    let ghost big_e = e0 as nat;
    let mut result: i64 = 1;
    let mut b: i64 = base;
    let mut e: u32 = e0;
    proof {
        vstd::arithmetic::power::lemma_pow1(base as int);
        assert(1 * vstd::arithmetic::power::pow(base as int, big_e) == vstd::arithmetic::power::pow(base as int, big_e));
    }
    while e > 0
        invariant
            ((result as int) * vstd::arithmetic::power::pow(b as int, e as nat)) % modulus64()
                == vstd::arithmetic::power::pow(base as int, big_e) % modulus64(),
        decreases e,
    {
        let ghost r0 = result as int;
        let ghost b0 = b as int;
        let ghost e_old = e as nat;
        if e % 2 == 1 {
            result = result.wrapping_mul(b);
        }
        b = b.wrapping_mul(b);
        e = e / 2;
        proof {
            lemma_crop_mod(r0 * b0);
            lemma_crop_mod(b0 * b0);
            lemma_square_step(r0, b0, e_old, result as int, b as int);
        }
    }
    proof {
        vstd::arithmetic::power::lemma_pow0(b as int);
        lemma_crop_unique(result, vstd::arithmetic::power::pow(base as int, big_e));
        assert(big_e == (exp as int) % 0x1_0000_0000);
    }
    result
}

} // verus!
