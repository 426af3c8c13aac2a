//! Rounding of a non-negative rational to the nearest binary32 number.
//!
//! The number to round is written `(n / d) * 2^e` with naturals `n`, `d` and
//! an integer `e`. A binary32 number is `s * 2^t` with a significand
//! `s < 2^24` and `t >= -149`; `2^t` is the spacing of the representable
//! numbers around it (its unit in the last place).

use vstd::arithmetic::div_mod::*;
use vstd::arithmetic::mul::*;
use vstd::arithmetic::power2::*;
use vstd::prelude::*;

verus! {

/// The bits of positive infinity, which are also the smallest magnitude that
/// is no finite number.
pub const INFINITY_BITS: u32 = 0x7F80_0000;

/// `(n / d) * 2^e < 2^k`, for `d > 0`.
pub open spec fn below_pow2(n: nat, d: nat, e: int, k: int) -> bool {
    if k >= e {
        n < d * pow2((k - e) as nat)
    } else {
        n * pow2((e - k) as nat) < d
    }
}

/// `2^t` is the spacing of binary32 numbers around `(n / d) * 2^e`: the number
/// lies in `[2^(t+23), 2^(t+24))`, or below `2^-125` with `t == -149`.
pub open spec fn is_ulp_exponent(n: nat, d: nat, e: int, t: int) -> bool {
    &&& t >= -149
    &&& below_pow2(n, d, e, t + 24)
    &&& (t > -149 ==> !below_pow2(n, d, e, t + 23))
}

/// The exponent of the spacing of binary32 numbers around `(n / d) * 2^e`.
pub open spec fn ulp_exponent(n: nat, d: nat, e: int) -> int {
    choose|t: int| is_ulp_exponent(n, d, e, t)
}

/// The integer nearest to `n / d`; of two equally near ones, the even one.
pub open spec fn round_half_even(n: nat, d: nat) -> nat {
    let q = n / d;
    let r = n % d;
    if 2 * r < d || (2 * r == d && q % 2 == 0) {
        q
    } else {
        q + 1
    }
}

/// `(n / d) * 2^e` in units of `2^t`, rounded to the nearest integer, ties to even.
pub open spec fn rounded_significand(n: nat, d: nat, e: int, t: int) -> nat {
    if e >= t {
        round_half_even(n * pow2((e - t) as nat), d)
    } else {
        round_half_even(n, d * pow2((t - e) as nat))
    }
}

/// The bits of `s * 2^t` without the sign, for `t >= -149` and `s <= 2^24`,
/// where `s >= 2^23` unless `t == -149`: the exponent field `t + 150` above
/// the 23 low bits of `s`, or 0 above `s` itself for a subnormal number. A
/// significand of `2^24` carries into the exponent field.
pub open spec fn pack_magnitude(s: nat, t: int) -> int {
    (t + 149) * 0x80_0000 + s
}

/// The magnitude bits of the binary32 number nearest to `(n / d) * 2^e`, ties
/// to the even significand; those of infinity where that number would be
/// `2^128` or more.
pub open spec fn round_magnitude(n: nat, d: nat, e: int) -> u32 {
    let t = ulp_exponent(n, d, e);
    let m = pack_magnitude(rounded_significand(n, d, e, t), t);
    if m >= INFINITY_BITS {
        INFINITY_BITS
    } else {
        m as u32
    }
}

/// Comparing `(n / d) * 2^e` with `2^k` after both sides are scaled by `2^s`.
pub proof fn lemma_below_pow2_scaled(n: nat, d: nat, e: int, k: int, s: nat)
    requires
        k - e + s >= 0,
    ensures
        below_pow2(n, d, e, k) <==> n * pow2(s) < d * pow2((k - e + s) as nat),
{
    if k >= e {
        let j = (k - e) as nat;
        lemma_pow2_adds(j, s);
        lemma_pow2_pos(s);
        let a = n as int;
        let b = (d * pow2(j)) as int;
        let c = pow2(s) as int;
        if a < b {
            lemma_mul_strict_inequality(a, b, c);
        }
        if a * c < b * c {
            lemma_mul_strict_inequality_converse(a, b, c);
        }
        lemma_mul_is_associative(d as int, pow2(j) as int, c);
    } else {
        let j = (e - k) as nat;
        let r = (s - j) as nat;
        lemma_pow2_adds(j, r);
        lemma_pow2_pos(r);
        let a = (n * pow2(j)) as int;
        let b = d as int;
        let c = pow2(r) as int;
        if a < b {
            lemma_mul_strict_inequality(a, b, c);
        }
        if a * c < b * c {
            lemma_mul_strict_inequality_converse(a, b, c);
        }
        lemma_mul_is_associative(n as int, pow2(j) as int, c);
    }
}

/// A number below `2^k1` is below every larger power of two.
pub proof fn lemma_below_pow2_monotonic(n: nat, d: nat, e: int, k1: int, k2: int)
    requires
        d > 0,
        k1 <= k2,
        below_pow2(n, d, e, k1),
    ensures
        below_pow2(n, d, e, k2),
{
    let s: nat = if e >= k1 { (e - k1) as nat } else { 0 };
    lemma_below_pow2_scaled(n, d, e, k1, s);
    lemma_below_pow2_scaled(n, d, e, k2, s);
    let low = (k1 - e + s) as nat;
    let high = (k2 - e + s) as nat;
    if low < high {
        lemma_pow2_strictly_increases(low, high);
    }
    lemma_mul_left_inequality(d as int, pow2(low) as int, pow2(high) as int);
}

/// At most one exponent is the spacing around a given number.
pub proof fn lemma_ulp_exponent_unique(n: nat, d: nat, e: int, t: int)
    requires
        d > 0,
        is_ulp_exponent(n, d, e, t),
    ensures
        ulp_exponent(n, d, e) == t,
{
    let u = ulp_exponent(n, d, e);
    assert(is_ulp_exponent(n, d, e, u));
    if u < t {
        lemma_below_pow2_monotonic(n, d, e, u + 24, t + 23);
    }
    if t < u {
        lemma_below_pow2_monotonic(n, d, e, t + 24, u + 23);
    }
}

/// Zero rounds to zero.
pub proof fn lemma_round_zero(d: nat, e: int)
    requires
        d > 0,
    ensures
        round_magnitude(0, d, e) == 0,
{
    if -125 >= e {
        lemma_pow2_pos((-125 - e) as nat);
        lemma_mul_strictly_positive(d as int, pow2((-125 - e) as nat) as int);
    } else {
        lemma_mul_basics(pow2((e + 125) as nat) as int);
    }
    assert(is_ulp_exponent(0, d, e, -149));
    lemma_ulp_exponent_unique(0, d, e, -149);
    if e >= -149 {
        lemma_mul_basics(pow2((e + 149) as nat) as int);
    } else {
        lemma_pow2_pos((-149 - e) as nat);
        lemma_mul_strictly_positive(d as int, pow2((-149 - e) as nat) as int);
    }
}

/// Scaling numerator and denominator alike leaves the rounded quotient unchanged.
pub proof fn lemma_round_half_even_scaled(n: nat, d: nat, c: nat)
    requires
        d > 0,
        c > 0,
    ensures
        round_half_even(n * c, d * c) == round_half_even(n, d),
{
    lemma_div_multiples_vanish_quotient(c as int, n as int, d as int);
    lemma_truncate_middle(n as int, c as int, d as int);
    lemma_mul_is_commutative(n as int, c as int);
    lemma_mul_is_commutative(d as int, c as int);
    let r = (n % d) as int;
    assert(2 * (c * r) < c * d <==> 2 * r < d) by (nonlinear_arith)
        requires
            c > 0,
    ;
    assert(2 * (c * r) == c * d <==> 2 * r == d) by (nonlinear_arith)
        requires
            c > 0,
    ;
}

/// The rounded significand, computed after numerator and denominator are
/// scaled so that neither needs a negative power of two.
pub proof fn lemma_rounded_significand_scaled(n: nat, d: nat, e: int, t: int, s: nat)
    requires
        d > 0,
        t - e + s >= 0,
    ensures
        rounded_significand(n, d, e, t) == round_half_even(
            n * pow2(s),
            d * pow2((t - e + s) as nat),
        ),
{
    let p = (t - e + s) as nat;
    if e >= t {
        let j = (e - t) as nat;
        lemma_pow2_adds(j, p);
        lemma_pow2_pos(p);
        lemma_mul_is_associative(n as int, pow2(j) as int, pow2(p) as int);
        lemma_round_half_even_scaled(n * pow2(j), d, pow2(p));
    } else {
        let j = (t - e) as nat;
        lemma_pow2_adds(j, s);
        lemma_pow2_pos(s);
        lemma_pow2_pos(j);
        lemma_mul_strictly_positive(d as int, pow2(j) as int);
        lemma_mul_is_associative(d as int, pow2(j) as int, pow2(s) as int);
        lemma_round_half_even_scaled(n, d * pow2(j), pow2(s));
    }
}

/// The powers of two that bound the intermediate values of the rounding.
pub proof fn lemma_pow2_values()
    ensures
        pow2(0) == 1,
        pow2(23) == 0x80_0000,
        pow2(24) == 0x100_0000,
        pow2(50) == 0x4_0000_0000_0000,
        pow2(98) == 0x4_0000_0000_0000_0000_0000_0000,
        pow2(101) == 0x20_0000_0000_0000_0000_0000_0000,
        pow2(124) == 0x1000_0000_0000_0000_0000_0000_0000_0000,
{
    lemma2_to64();
    lemma2_to64_rest();
    lemma_pow2_adds(64, 34);
    lemma_pow2_adds(64, 37);
    lemma_pow2_adds(64, 60);
}

/// `2^k` as a machine integer.
fn pow2_u128(k: u32) -> (r: u128)
    requires
        k <= 124,
    ensures
        r == pow2(k as nat),
{
    let mut r: u128 = 1;
    let mut i: u32 = 0;
    proof {
        lemma_pow2_values();
    }
    while i < k
        invariant
            i <= k <= 124,
            r == pow2(i as nat),
        decreases k - i,
    {
        proof {
            lemma_pow2_values();
            lemma_pow2_unfold((i + 1) as nat);
            if i + 1 < 124 {
                lemma_pow2_strictly_increases((i + 1) as nat, 124);
            }
        }
        r = r * 2;
        i = i + 1;
    }
    r
}

/// The number of binary digits of the quotient `big / d`, found without a
/// division: the `len` with `d * 2^(len-1) <= big < d * 2^len`.
fn quotient_bit_length(big: u128, d: u64) -> (len: u32)
    requires
        0 < d < 0x100_0000,
        big < 0x4_0000_0000_0000_0000_0000_0000,
    ensures
        len <= 98,
        big < d * pow2(len as nat),
        len > 0 ==> d * pow2((len - 1) as nat) <= big,
{
    let mut len: u32 = 0;
    let mut bound: u128 = d as u128;
    proof {
        lemma_pow2_values();
    }
    while bound <= big
        invariant
            0 < d < 0x100_0000,
            big < 0x4_0000_0000_0000_0000_0000_0000,
            bound == d * pow2(len as nat),
            len <= 98,
            len > 0 ==> d * pow2((len - 1) as nat) <= big,
        decreases 99 - len,
    {
        proof {
            lemma_pow2_values();
            if len == 98 {
                lemma_mul_increases(d as int, pow2(98) as int);
            }
            lemma_pow2_unfold((len + 1) as nat);
            lemma_mul_is_associative(d as int, 2, pow2(len as nat) as int);
            lemma_mul_is_commutative(d as int, 2);
            lemma_mul_is_associative(2, d as int, pow2(len as nat) as int);
        }
        bound = bound * 2;
        len = len + 1;
    }
    len
}

/// Rounds `(n / d) * 2^e` to binary32 and gives the magnitude bits.
pub(crate) fn round_to_magnitude(n: u64, d: u64, e: i32) -> (m: u32)
    requires
        0 < n < 0x1_0000_0000_0000,
        0 < d < 0x100_0000,
        -400 <= e <= 400,
    ensures
        m == round_magnitude(n as nat, d as nat, e as int),
        m <= INFINITY_BITS,
{
    proof {
        lemma_pow2_values();
    }
    let big: u128 = (n as u128) * 0x4_0000_0000_0000u128;
    let len: u32 = quotient_bit_length(big, d);
    proof {
        // The quotient is at least 2^26, so it has more than 24 digits.
        if len < 24 {
            lemma_pow2_strictly_increases(len as nat, 24u32 as nat);
        }
        if len <= 24 {
            lemma_mul_left_inequality(d as int, pow2(len as nat) as int, pow2(24) as int);
            assert(d * pow2(24) < 0x100_0000 * 0x100_0000) by (nonlinear_arith)
                requires
                    d < 0x100_0000,
                    pow2(24) == 0x100_0000,
            ;
        }
        assert(len > 24);
    }
    let e0: i32 = e - 50;
    let t0: i32 = e0 + (len as i32) - 24;
    let t: i32 = if t0 < -149 {
        -149
    } else {
        t0
    };
    let sh: i32 = t - e0;
    proof {
        let gn = n as nat;
        let gd = d as nat;
        assert(sh >= len - 24);
        lemma_below_pow2_scaled(gn, gd, e as int, t + 24, 50);
        if len < sh + 24 {
            lemma_pow2_strictly_increases(len as nat, (sh + 24) as nat);
        }
        lemma_mul_left_inequality(d as int, pow2(len as nat) as int, pow2((sh + 24) as nat) as int);
        assert(below_pow2(gn, gd, e as int, t + 24));
        if t > -149 {
            lemma_below_pow2_scaled(gn, gd, e as int, t + 23, 50);
            assert(!below_pow2(gn, gd, e as int, t + 23));
        }
        assert(is_ulp_exponent(gn, gd, e as int, t as int));
        lemma_ulp_exponent_unique(gn, gd, e as int, t as int);
        lemma_rounded_significand_scaled(gn, gd, e as int, t as int, 50);
    }
    let sig: u64 = if sh > 100 {
        proof {
            if sh > 101 {
                lemma_pow2_strictly_increases(101, sh as nat);
            }
            lemma_mul_increases(d as int, pow2(sh as nat) as int);
            let den = d * pow2(sh as nat);
            lemma_basic_div(big as int, den as int);
            lemma_small_mod(big as nat, den as nat);
        }
        0
    } else {
        let scale: u128 = pow2_u128(sh as u32);
        proof {
            if sh < 100 {
                lemma_pow2_strictly_increases(sh as nat, 100);
            }
            lemma_pow2_adds(24, 100);
            lemma_pow2_pos(sh as nat);
            lemma_mul_strict_upper_bound(d as int, 0x100_0000, scale as int, pow2(100) as int + 1);
            lemma_mul_strictly_positive(d as int, scale as int);
        }
        let den: u128 = (d as u128) * scale;
        let q: u128 = big / den;
        let r: u128 = big % den;
        proof {
            // big < d * 2^(sh + 24) = den * 2^24, so the quotient is below 2^24.
            lemma_pow2_adds(sh as nat, 24);
            lemma_mul_is_associative(d as int, scale as int, pow2(24) as int);
            lemma_fundamental_div_mod(big as int, den as int);
            assert(q < 0x100_0000) by (nonlinear_arith)
                requires
                    big == den * q + r,
                    big < den * 0x100_0000,
                    0 <= r,
                    den > 0,
            ;
        }
        let round_up: bool = 2 * r > den || (2 * r == den && q % 2 == 1);
        if round_up {
            (q as u64) + 1
        } else {
            q as u64
        }
    };
    assert(sig == rounded_significand(n as nat, d as nat, e as int, t as int));
    let m: u64 = ((t + 149) as u64) * 0x80_0000 + sig;
    if m >= 0x7F80_0000 {
        INFINITY_BITS
    } else {
        m as u32
    }
}

/// Every natural number is below the power of two of the same exponent.
pub proof fn lemma_below_own_pow2(x: nat)
    ensures
        x < pow2(x),
    decreases x,
{
    lemma2_to64();
    if x > 0 {
        lemma_below_own_pow2((x - 1) as nat);
        lemma_pow2_unfold(x);
    }
}

/// Walks down from a power of two above the number to the spacing around it.
proof fn lemma_ulp_exponent_search(n: nat, d: nat, e: int, k: int) -> (t: int)
    requires
        d > 0,
        k >= -125,
        below_pow2(n, d, e, k),
    ensures
        is_ulp_exponent(n, d, e, t),
    decreases k + 125,
{
    if k == -125 {
        -149
    } else if below_pow2(n, d, e, k - 1) {
        lemma_ulp_exponent_search(n, d, e, k - 1)
    } else {
        k - 24
    }
}

/// Every number has a spacing: `ulp_exponent` is well defined.
pub proof fn lemma_ulp_exponent_exists(n: nat, d: nat, e: int)
    requires
        d > 0,
    ensures
        is_ulp_exponent(n, d, e, ulp_exponent(n, d, e)),
{
    let high = e + n;
    lemma_below_own_pow2(n);
    lemma_mul_increases(d as int, pow2(n) as int);
    assert(below_pow2(n, d, e, high));
    let k = if high >= -125 {
        high
    } else {
        -125
    };
    lemma_below_pow2_monotonic(n, d, e, high, k);
    let t = lemma_ulp_exponent_search(n, d, e, k);
    assert(is_ulp_exponent(n, d, e, t));
}

/// The same number written with a larger numerator and a smaller exponent
/// is as far below a power of two as before.
proof fn lemma_below_pow2_shifted(n: nat, d: nat, e: int, j: nat, k: int)
    ensures
        below_pow2(n * pow2(j), d, e - j, k) <==> below_pow2(n, d, e, k),
{
    let r: nat = if e >= k {
        (e - k) as nat
    } else {
        0
    };
    lemma_below_pow2_scaled(n * pow2(j), d, e - j, k, r);
    lemma_below_pow2_scaled(n, d, e, k, j + r);
    lemma_pow2_adds(j, r);
    lemma_mul_is_associative(n as int, pow2(j) as int, pow2(r) as int);
}

/// The same number written with a larger numerator and a smaller exponent
/// rounds to the same bits.
pub proof fn lemma_round_shifted(n: nat, d: nat, e: int, j: nat)
    requires
        d > 0,
    ensures
        round_magnitude(n * pow2(j), d, e - j) == round_magnitude(n, d, e),
{
    lemma_ulp_exponent_exists(n, d, e);
    let t = ulp_exponent(n, d, e);
    lemma_below_pow2_shifted(n, d, e, j, t + 24);
    lemma_below_pow2_shifted(n, d, e, j, t + 23);
    lemma_ulp_exponent_unique(n * pow2(j), d, e - j, t);
    let r: nat = if e >= t {
        (e - t) as nat
    } else {
        0
    };
    lemma_rounded_significand_scaled(n * pow2(j), d, e - j, t, r);
    lemma_rounded_significand_scaled(n, d, e, t, j + r);
    lemma_pow2_adds(j, r);
    lemma_mul_is_associative(n as int, pow2(j) as int, pow2(r) as int);
}

/// A quotient of at most `m` rounds to at most `m`.
pub proof fn lemma_round_half_even_upper(n: nat, d: nat, m: nat)
    requires
        d > 0,
        n <= d * m,
    ensures
        round_half_even(n, d) <= m,
{
    let q = n / d;
    let r = n % d;
    lemma_fundamental_div_mod(n as int, d as int);
    assert(q < m || (q == m && r == 0)) by (nonlinear_arith)
        requires
            n == d * q + r,
            0 <= r < d,
            n <= d * m,
    ;
}

/// A quotient of at least `m` rounds to at least `m`.
pub proof fn lemma_round_half_even_lower(n: nat, d: nat, m: nat)
    requires
        d > 0,
        n >= d * m,
    ensures
        round_half_even(n, d) >= m,
{
    let q = n / d;
    let r = n % d;
    lemma_fundamental_div_mod(n as int, d as int);
    assert(q >= m) by (nonlinear_arith)
        requires
            n == d * q + r,
            0 <= r < d,
            n >= d * m,
            0 <= q,
    ;
}

/// The rounded significand has at most 24 digits, or is `2^24` itself; it
/// has 24 digits unless the number is subnormal.
pub proof fn lemma_rounded_significand_bounds(n: nat, d: nat, e: int, t: int)
    requires
        d > 0,
        is_ulp_exponent(n, d, e, t),
    ensures
        rounded_significand(n, d, e, t) <= 0x100_0000,
        t > -149 ==> rounded_significand(n, d, e, t) >= 0x80_0000,
{
    lemma_pow2_values();
    let s: nat = if e >= t {
        (e - t) as nat
    } else {
        0
    };
    let p = (t - e + s) as nat;
    lemma_rounded_significand_scaled(n, d, e, t, s);
    let num = n * pow2(s);
    let den = d * pow2(p);
    lemma_pow2_pos(p);
    lemma_mul_strictly_positive(d as int, pow2(p) as int);
    lemma_below_pow2_scaled(n, d, e, t + 24, s);
    lemma_pow2_adds(p, 24);
    lemma_mul_is_associative(d as int, pow2(p) as int, pow2(24) as int);
    lemma_round_half_even_upper(num, den, 0x100_0000);
    if t > -149 {
        lemma_below_pow2_scaled(n, d, e, t + 23, s);
        lemma_pow2_adds(p, 23);
        lemma_mul_is_associative(d as int, pow2(p) as int, pow2(23) as int);
        lemma_round_half_even_lower(num, den, 0x80_0000);
    }
}

/// A number of at most 1 rounds to at most `1.0`.
pub proof fn lemma_round_at_most_one(n: nat, d: nat, e: int)
    requires
        d > 0,
        e <= 0,
        n <= d * pow2((-e) as nat),
    ensures
        round_magnitude(n, d, e) <= 0x3F80_0000,
{
    lemma_pow2_values();
    lemma_ulp_exponent_exists(n, d, e);
    let t = ulp_exponent(n, d, e);
    let j = (-e) as nat;
    // The number is below 2.
    lemma_pow2_unfold(j + 1);
    lemma_pow2_pos(j);
    lemma_mul_strictly_positive(d as int, pow2(j) as int);
    lemma_mul_is_associative(d as int, 2, pow2(j) as int);
    lemma_mul_is_commutative(d as int, 2);
    lemma_mul_is_associative(2, d as int, pow2(j) as int);
    assert(below_pow2(n, d, e, 1));
    if t >= -22 {
        lemma_below_pow2_monotonic(n, d, e, 1, t + 23);
    }
    assert(t <= -23);
    lemma_rounded_significand_bounds(n, d, e, t);
    if t == -23 {
        let s: nat = if e >= t {
            (e - t) as nat
        } else {
            0
        };
        let p = (t - e + s) as nat;
        lemma_rounded_significand_scaled(n, d, e, t, s);
        lemma_pow2_pos(p);
        lemma_mul_strictly_positive(d as int, pow2(p) as int);
        // d * 2^p * 2^23 == d * 2^(-e) * 2^s
        lemma_pow2_adds(p, 23);
        lemma_pow2_adds(j, s);
        lemma_mul_is_associative(d as int, pow2(p) as int, pow2(23) as int);
        lemma_mul_is_associative(d as int, pow2(j) as int, pow2(s) as int);
        lemma_mul_inequality(n as int, (d * pow2(j)) as int, pow2(s) as int);
        lemma_round_half_even_upper(n * pow2(s), d * pow2(p), 0x80_0000);
    }
}

/// The rounded quotient is a nearest integer: it is at most one half away
/// from `n / d`, and where it is exactly one half away, it is even.
pub proof fn lemma_round_half_even_nearest(n: nat, d: nat)
    requires
        d > 0,
    ensures
        ({
            let q = round_half_even(n, d) as int;
            &&& -d <= 2 * (q * d - n) <= d
            &&& (2 * (q * d - n) == d || 2 * (q * d - n) == -d) ==> q % 2 == 0
        }),
{
    let f = (n / d) as int;
    let r = (n % d) as int;
    lemma_fundamental_div_mod(n as int, d as int);
    lemma_mul_is_commutative(d as int, f);
    lemma_mul_is_distributive_add_other_way(d as int, f, 1);
}

/// Rounding moves a number by at most half the spacing. With `num` and
/// `den` as below, the number is `(num / den) * 2^t`, and its rounded
/// significand is at most one half away from `num / den`.
pub proof fn lemma_rounded_significand_nearest(n: nat, d: nat, e: int, t: int, s: nat)
    requires
        d > 0,
        t - e + s >= 0,
    ensures
        ({
            let num = n * pow2(s);
            let den = d * pow2((t - e + s) as nat);
            let sig = rounded_significand(n, d, e, t) as int;
            -den <= 2 * (sig * den - num) <= den
        }),
{
    let p = (t - e + s) as nat;
    lemma_rounded_significand_scaled(n, d, e, t, s);
    lemma_pow2_pos(p);
    lemma_mul_strictly_positive(d as int, pow2(p) as int);
    lemma_round_half_even_nearest(n * pow2(s), d * pow2(p));
}

/// `(n / d) * 2^e <= s * 2^t`, for `d > 0`.
pub open spec fn at_most(n: nat, d: nat, e: int, s: nat, t: int) -> bool {
    if t >= e {
        n <= (d * s) * pow2((t - e) as nat)
    } else {
        n * pow2((e - t) as nat) <= d * s
    }
}

/// Comparing `(n / d) * 2^e` with `s * 2^t` after both sides are scaled by `2^r`.
pub proof fn lemma_at_most_scaled(n: nat, d: nat, e: int, s: nat, t: int, r: nat)
    requires
        t - e + r >= 0,
    ensures
        at_most(n, d, e, s, t) <==> n * pow2(r) <= (d * s) * pow2((t - e + r) as nat),
{
    if t >= e {
        let j = (t - e) as nat;
        lemma_pow2_adds(j, r);
        lemma_pow2_pos(r);
        let a = n as int;
        let b = ((d * s) * pow2(j)) as int;
        let c = pow2(r) as int;
        if a <= b {
            lemma_mul_inequality(a, b, c);
        }
        if a * c <= b * c {
            lemma_mul_inequality_converse(a, b, c);
        }
        lemma_mul_is_associative((d * s) as int, pow2(j) as int, c);
    } else {
        let j = (e - t) as nat;
        let k = (r - j) as nat;
        lemma_pow2_adds(j, k);
        lemma_pow2_pos(k);
        let a = (n * pow2(j)) as int;
        let b = (d * s) as int;
        let c = pow2(k) as int;
        if a <= b {
            lemma_mul_inequality(a, b, c);
        }
        if a * c <= b * c {
            lemma_mul_inequality_converse(a, b, c);
        }
        lemma_mul_is_associative(n as int, pow2(j) as int, c);
    }
}

/// Rounding never passes a binary32 number: what is at most `s * 2^t`
/// rounds to bits that are at most those of `s * 2^t`.
pub proof fn lemma_round_at_most(n: nat, d: nat, e: int, s: nat, t: int)
    requires
        d > 0,
        t >= -149,
        s < 0x100_0000,
        t > -149 ==> s >= 0x80_0000,
        at_most(n, d, e, s, t),
    ensures
        round_magnitude(n, d, e) <= pack_magnitude(s, t),
{
    lemma_pow2_values();
    lemma_ulp_exponent_exists(n, d, e);
    let u = ulp_exponent(n, d, e);
    let r: nat = if e >= t {
        (e - t) as nat
    } else {
        0
    };
    let p = (t - e + r) as nat;
    lemma_pow2_pos(p);
    lemma_at_most_scaled(n, d, e, s, t, r);
    // The number is below 2^(t + 24).
    lemma_below_pow2_scaled(n, d, e, t + 24, r);
    lemma_pow2_adds(p, 24);
    assert((d * s) * pow2(p) < d * pow2(p + 24)) by (nonlinear_arith)
        requires
            d > 0,
            s < 0x100_0000,
            pow2(p) > 0,
            pow2(p + 24) == pow2(p) * 0x100_0000,
    ;
    assert(below_pow2(n, d, e, t + 24));
    if u > t {
        lemma_below_pow2_monotonic(n, d, e, t + 24, u + 23);
    }
    assert(u <= t);
    lemma_rounded_significand_bounds(n, d, e, u);
    if u == t {
        lemma_rounded_significand_scaled(n, d, e, t, r);
        lemma_mul_strictly_positive(d as int, pow2(p) as int);
        assert((d * s) * pow2(p) == (d * pow2(p)) * s) by (nonlinear_arith);
        lemma_round_half_even_upper(n * pow2(r), d * pow2(p), s);
    }
}

/// The distance between `(n / d) * 2^e` and `s * 2^t`, in units of
/// `2^lo / d`, for an `lo` that is at most `e` and `t`.
pub open spec fn distance(n: nat, d: nat, e: int, s: nat, t: int, lo: int) -> int
    recommends
        lo <= e,
        lo <= t,
{
    let x = n * pow2((e - lo) as nat);
    let y = (s * d) * pow2((t - lo) as nat);
    if x >= y {
        x - y
    } else {
        y - x
    }
}

/// An integer `q` that is at most one half away from `x / u` is at least as
/// near to it as any other integer `k`.
proof fn lemma_nearest_integer(x: int, u: int, q: int, k: int)
    requires
        u > 0,
        -u <= 2 * (q * u - x) <= u,
    ensures
        q * u - x <= k * u - x || q * u - x <= x - k * u,
        x - q * u <= k * u - x || x - q * u <= x - k * u,
{
    if k > q {
        assert(k * u >= q * u + u) by (nonlinear_arith)
            requires
                k >= q + 1,
                u > 0,
        ;
    } else if k < q {
        assert(k * u <= q * u - u) by (nonlinear_arith)
            requires
                k <= q - 1,
                u > 0,
        ;
    }
}

/// Rounding gives a nearest binary32 number: no number `s * 2^t` with a
/// significand of at most 24 digits and `t >= -149` is nearer to
/// `(n / d) * 2^e` than the rounded significand at the spacing of the number.
pub proof fn lemma_round_is_nearest(n: nat, d: nat, e: int, s: nat, t: int, lo: int)
    requires
        d > 0,
        t >= -149,
        s < 0x100_0000,
        lo <= e,
        lo <= t,
        lo <= ulp_exponent(n, d, e),
    ensures
        ({
            let u = ulp_exponent(n, d, e);
            distance(n, d, e, rounded_significand(n, d, e, u), u, lo) <= distance(
                n,
                d,
                e,
                s,
                t,
                lo,
            )
        }),
{
    lemma_pow2_values();
    lemma_ulp_exponent_exists(n, d, e);
    let u = ulp_exponent(n, d, e);
    let sig = rounded_significand(n, d, e, u);
    let up = (e - lo) as nat;
    let x = (n * pow2(up)) as int;
    let unit = (d * pow2((u - lo) as nat)) as int;
    lemma_pow2_pos((u - lo) as nat);
    lemma_mul_strictly_positive(d as int, pow2((u - lo) as nat) as int);
    lemma_rounded_significand_nearest(n, d, e, u, up);
    // The rounded number, in the common units.
    lemma_mul_is_associative(sig as int, d as int, pow2((u - lo) as nat) as int);
    assert((sig * d) * pow2((u - lo) as nat) == sig * unit);
    let y = ((s * d) * pow2((t - lo) as nat)) as int;
    if t >= u {
        // The other number is a whole multiple of the spacing.
        let k = (s * pow2((t - u) as nat)) as int;
        lemma_pow2_adds((t - u) as nat, (u - lo) as nat);
        assert(y == k * unit) by (nonlinear_arith)
            requires
                y == (s * d) * pow2((t - lo) as nat),
                pow2((t - lo) as nat) == pow2((t - u) as nat) * pow2((u - lo) as nat),
                k == s * pow2((t - u) as nat),
                unit == d * pow2((u - lo) as nat),
        ;
        lemma_nearest_integer(x, unit, sig as int, k);
    } else {
        // The other number lies below 2^(u + 23), which the number does not.
        lemma_below_pow2_scaled(n, d, e, u + 23, up);
        lemma_pow2_adds((u - lo) as nat, 23);
        lemma_mul_is_associative(d as int, pow2((u - lo) as nat) as int, pow2(23) as int);
        assert(x >= 0x80_0000 * unit);
        if t + 1 < u {
            lemma_pow2_strictly_increases((t + 1 - lo) as nat, (u - lo) as nat);
        }
        lemma_pow2_unfold((t + 1 - lo) as nat);
        lemma_pow2_pos((t - lo) as nat);
        assert(y < 0x80_0000 * unit) by (nonlinear_arith)
            requires
                y == (s * d) * pow2((t - lo) as nat),
                s < 0x100_0000,
                d > 0,
                pow2((t - lo) as nat) > 0,
                2 * pow2((t - lo) as nat) <= pow2((u - lo) as nat),
                unit == d * pow2((u - lo) as nat),
        ;
        lemma_nearest_integer(x, unit, sig as int, 0x80_0000);
    }
}

} // verus!
