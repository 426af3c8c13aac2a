//! Single-precision numbers, held by their bit patterns.
//!
//! Material factors arrive as binary32 numbers. The arithmetic that the
//! compositor needs from them (a product, a quotient, the conversion to an
//! 8-bit channel value) is done here on the bits, with every result rounded
//! to the nearest representable number, ties to the even significand.

use crate::rounding::{
    at_most, is_ulp_exponent, lemma_pow2_values, lemma_round_at_most, lemma_round_at_most_one,
    lemma_round_shifted, lemma_round_zero, lemma_ulp_exponent_unique, pack_magnitude,
    round_half_even, round_magnitude, round_to_magnitude, rounded_significand, INFINITY_BITS,
};
use vstd::arithmetic::div_mod::*;
use vstd::arithmetic::mul::*;
use vstd::arithmetic::power2::*;
use vstd::prelude::*;

verus! {

/// The sign bit of a binary32 number.
pub const SIGN_BIT: u32 = 0x8000_0000;

/// The smallest magnitude with a non-zero exponent field: `2^-126`, and also
/// the hidden leading digit `2^23` of a normal significand.
pub const HIDDEN_BIT: u32 = 0x80_0000;

/// The bits of the not-a-number that the operations here return.
pub const NAN_BITS: u32 = 0x7FC0_0000;

/// The bits of `1.0`.
pub const ONE_BITS: u32 = 0x3F80_0000;

/// A binary32 number.
#[derive(Clone, Copy, Debug, PartialEq, Eq, Structural)]
pub struct Binary32 {
    pub bits: u32,
}

impl Binary32 {
    /// The bits below the sign bit.
    pub open spec fn magnitude(self) -> u32 {
        if self.bits >= SIGN_BIT {
            (self.bits - SIGN_BIT) as u32
        } else {
            self.bits
        }
    }

    /// The sign bit is set. This holds of `-0.0` too.
    pub open spec fn is_negative(self) -> bool {
        self.bits >= SIGN_BIT
    }

    pub open spec fn is_nan(self) -> bool {
        self.magnitude() > INFINITY_BITS
    }

    pub open spec fn is_infinite(self) -> bool {
        self.magnitude() == INFINITY_BITS
    }

    pub open spec fn is_finite(self) -> bool {
        self.magnitude() < INFINITY_BITS
    }

    pub open spec fn is_zero(self) -> bool {
        self.magnitude() == 0
    }

    /// The significand `s` of a finite number `s * 2^t`, hidden digit included.
    pub open spec fn significand(self) -> nat {
        if self.magnitude() < HIDDEN_BIT {
            self.magnitude() as nat
        } else {
            (HIDDEN_BIT + self.magnitude() % HIDDEN_BIT) as nat
        }
    }

    /// The exponent `t` of a finite number `s * 2^t`.
    pub open spec fn exponent(self) -> int {
        if self.magnitude() < HIDDEN_BIT {
            -149
        } else {
            self.magnitude() / HIDDEN_BIT - 150
        }
    }

    /// The number with the given sign and magnitude bits.
    pub open spec fn compose(negative: bool, magnitude: u32) -> Binary32
        recommends
            magnitude < SIGN_BIT,
    {
        if negative {
            Binary32 { bits: (magnitude + SIGN_BIT) as u32 }
        } else {
            Binary32 { bits: magnitude }
        }
    }

    /// The not-a-number that stands for every invalid result.
    pub open spec fn nan() -> Binary32 {
        Binary32 { bits: NAN_BITS }
    }

    /// The integer `k` as a binary32 number, which is exact.
    pub open spec fn of_u8(k: u8) -> Binary32 {
        Binary32 { bits: round_magnitude(k as nat, 1, 0) }
    }

    /// The product, rounded to nearest. Zero times infinity is not a number.
    pub open spec fn times(self, other: Binary32) -> Binary32 {
        let negative = self.is_negative() != other.is_negative();
        if self.is_nan() || other.is_nan() {
            Binary32::nan()
        } else if self.is_infinite() || other.is_infinite() {
            if self.is_zero() || other.is_zero() {
                Binary32::nan()
            } else {
                Binary32::compose(negative, INFINITY_BITS)
            }
        } else {
            Binary32::compose(
                negative,
                round_magnitude(
                    self.significand() * other.significand(),
                    1,
                    self.exponent() + other.exponent(),
                ),
            )
        }
    }

    /// The quotient, rounded to nearest. Zero by zero and infinity by infinity
    /// are not numbers; any other number by zero is infinite.
    pub open spec fn over(self, other: Binary32) -> Binary32 {
        let negative = self.is_negative() != other.is_negative();
        if self.is_nan() || other.is_nan() {
            Binary32::nan()
        } else if self.is_infinite() {
            if other.is_infinite() {
                Binary32::nan()
            } else {
                Binary32::compose(negative, INFINITY_BITS)
            }
        } else if other.is_infinite() {
            Binary32::compose(negative, 0)
        } else if other.is_zero() {
            if self.is_zero() {
                Binary32::nan()
            } else {
                Binary32::compose(negative, INFINITY_BITS)
            }
        } else {
            Binary32::compose(
                negative,
                round_magnitude(
                    self.significand(),
                    other.significand(),
                    self.exponent() - other.exponent(),
                ),
            )
        }
    }

    /// The integer part of the magnitude of a finite number.
    pub open spec fn integer_part(self) -> nat {
        if self.exponent() >= 0 {
            self.significand() * pow2(self.exponent() as nat)
        } else {
            self.significand() / pow2((-self.exponent()) as nat)
        }
    }

    /// The number as an 8-bit channel value: the fraction is dropped, what is
    /// below 0 becomes 0, what is above 255 becomes 255, and not-a-number
    /// becomes 0.
    pub open spec fn channel_value(self) -> u8 {
        if self.is_nan() || self.is_negative() {
            0
        } else if self.is_infinite() || self.integer_part() >= 255 {
            255
        } else {
            self.integer_part() as u8
        }
    }

    /// The number lies in the closed interval from 0 to 1. Both zeros do.
    pub open spec fn in_unit_interval(self) -> bool {
        self.is_finite() && (self.is_zero() || (!self.is_negative() && self.exponent() < 0
            && self.significand() <= pow2((-self.exponent()) as nat)))
    }

    pub fn from_bits(bits: u32) -> (r: Binary32)
        ensures
            r.bits == bits,
    {
        Binary32 { bits }
    }

    pub fn to_bits(self) -> (bits: u32)
        ensures
            bits == self.bits,
    {
        self.bits
    }

    /// Tells whether the number lies in the closed interval from 0 to 1.
    pub fn is_in_unit_interval(self) -> (b: bool)
        ensures
            b == self.in_unit_interval(),
    {
        proof {
            lemma_unit_interval_bits(self);
        }
        let m: u32 = self.magnitude_bits();
        m == 0 || (!self.sign() && m <= ONE_BITS)
    }

    fn magnitude_bits(self) -> (m: u32)
        ensures
            m == self.magnitude(),
    {
        if self.bits >= SIGN_BIT {
            self.bits - SIGN_BIT
        } else {
            self.bits
        }
    }

    fn sign(self) -> (negative: bool)
        ensures
            negative == self.is_negative(),
    {
        self.bits >= SIGN_BIT
    }

    /// Significand and exponent of a finite number.
    fn parts(self) -> (p: (u32, i32))
        requires
            self.is_finite(),
        ensures
            p.0 == self.significand(),
            p.1 == self.exponent(),
            p.0 < 0x100_0000,
            -149 <= p.1 <= 104,
            p.0 == 0 <==> self.is_zero(),
    {
        let m: u32 = self.magnitude_bits();
        if m < HIDDEN_BIT {
            (m, -149)
        } else {
            (HIDDEN_BIT + m % HIDDEN_BIT, (m / HIDDEN_BIT) as i32 - 150)
        }
    }

    fn with_sign(negative: bool, magnitude: u32) -> (r: Binary32)
        requires
            magnitude < SIGN_BIT,
        ensures
            r == Binary32::compose(negative, magnitude),
    {
        if negative {
            Binary32 { bits: magnitude + SIGN_BIT }
        } else {
            Binary32 { bits: magnitude }
        }
    }

    /// Converts an 8-bit channel value.
    pub fn from_u8(k: u8) -> (r: Binary32)
        ensures
            r == Binary32::of_u8(k),
    {
        if k == 0 {
            proof {
                lemma_round_zero(1, 0);
            }
            Binary32 { bits: 0 }
        } else {
            Binary32 { bits: round_to_magnitude(k as u64, 1, 0) }
        }
    }

    /// Multiplies two numbers.
    pub fn mul(self, other: Binary32) -> (r: Binary32)
        ensures
            r == self.times(other),
    {
        let a: u32 = self.magnitude_bits();
        let b: u32 = other.magnitude_bits();
        let negative: bool = self.sign() != other.sign();
        if a > INFINITY_BITS || b > INFINITY_BITS {
            Binary32 { bits: NAN_BITS }
        } else if a == INFINITY_BITS || b == INFINITY_BITS {
            if a == 0 || b == 0 {
                Binary32 { bits: NAN_BITS }
            } else {
                Binary32::with_sign(negative, INFINITY_BITS)
            }
        } else {
            let (sa, ea) = self.parts();
            let (sb, eb) = other.parts();
            if sa == 0 || sb == 0 {
                proof {
                    lemma_mul_basics(sa as int);
                    lemma_mul_basics(sb as int);
                    lemma_round_zero(1, ea + eb);
                }
                Binary32::with_sign(negative, 0)
            } else {
                proof {
                    lemma_mul_strict_upper_bound(sa as int, 0x100_0000, sb as int, 0x100_0000);
                    lemma_mul_strictly_positive(sa as int, sb as int);
                }
                let n: u64 = (sa as u64) * (sb as u64);
                Binary32::with_sign(negative, round_to_magnitude(n, 1, ea + eb))
            }
        }
    }

    /// Divides one number by another.
    pub fn div(self, other: Binary32) -> (r: Binary32)
        ensures
            r == self.over(other),
    {
        let a: u32 = self.magnitude_bits();
        let b: u32 = other.magnitude_bits();
        let negative: bool = self.sign() != other.sign();
        if a > INFINITY_BITS || b > INFINITY_BITS {
            Binary32 { bits: NAN_BITS }
        } else if a == INFINITY_BITS {
            if b == INFINITY_BITS {
                Binary32 { bits: NAN_BITS }
            } else {
                Binary32::with_sign(negative, INFINITY_BITS)
            }
        } else if b == INFINITY_BITS {
            Binary32::with_sign(negative, 0)
        } else if b == 0 {
            if a == 0 {
                Binary32 { bits: NAN_BITS }
            } else {
                Binary32::with_sign(negative, INFINITY_BITS)
            }
        } else {
            let (sa, ea) = self.parts();
            let (sb, eb) = other.parts();
            if sa == 0 {
                proof {
                    lemma_round_zero(sb as nat, ea - eb);
                }
                Binary32::with_sign(negative, 0)
            } else {
                Binary32::with_sign(negative, round_to_magnitude(sa as u64, sb as u64, ea - eb))
            }
        }
    }

    /// Converts to an 8-bit channel value, dropping the fraction and
    /// saturating at both ends.
    pub fn to_u8(self) -> (v: u8)
        ensures
            v == self.channel_value(),
    {
        let m: u32 = self.magnitude_bits();
        if m > INFINITY_BITS || self.sign() {
            0
        } else if m >= 0x4380_0000 {
            // 256.0 and above, infinity included.
            proof {
                if m < INFINITY_BITS {
                    lemma_integer_part_large(self);
                }
            }
            255
        } else if m < ONE_BITS {
            proof {
                lemma_integer_part_small(self);
            }
            0
        } else {
            let (s, e) = self.parts();
            let k: u32 = (-e) as u32;
            proof {
                vstd::bits::lemma_u32_shr_is_div(s, k);
                lemma2_to64();
                if k > 16 {
                    lemma_pow2_strictly_increases(16, k as nat);
                }
                lemma_div_is_ordered_by_denominator(s as int, pow2(16) as int, pow2(k as nat) as int);
            }
            let v: u32 = s >> k;
            if v >= 255 {
                255
            } else {
                v as u8
            }
        }
    }
}

/// A finite number of at least 256 has an integer part of at least 255.
proof fn lemma_integer_part_large(x: Binary32)
    requires
        x.is_finite(),
        x.magnitude() >= 0x4380_0000,
    ensures
        x.integer_part() >= 255,
{
    lemma2_to64();
    let s = x.significand();
    let e = x.exponent();
    assert(s >= 0x80_0000);
    assert(e >= -15);
    if e >= 0 {
        lemma_pow2_pos(e as nat);
        lemma_mul_increases(pow2(e as nat) as int, s as int);
        lemma_mul_is_commutative(pow2(e as nat) as int, s as int);
    } else {
        let k = (-e) as nat;
        if k < 15 {
            lemma_pow2_strictly_increases(k, 15);
        }
        lemma_pow2_pos(k);
        lemma_div_is_ordered_by_denominator(s as int, pow2(k) as int, pow2(15) as int);
        lemma_div_is_ordered(0x80_0000, s as int, pow2(15) as int);
    }
}

/// A finite number below 1 has the integer part 0.
proof fn lemma_integer_part_small(x: Binary32)
    requires
        x.magnitude() < ONE_BITS,
    ensures
        x.integer_part() == 0,
{
    lemma2_to64();
    let s = x.significand();
    let e = x.exponent();
    assert(s < 0x100_0000);
    assert(e <= -24);
    let k = (-e) as nat;
    if k > 24 {
        lemma_pow2_strictly_increases(24, k);
    }
    lemma_basic_div(s as int, pow2(k) as int);
}

/// The bits that stand for `s * 2^t` decode to `s` and `t` again.
pub proof fn lemma_pack_decodes(s: nat, t: int)
    requires
        t >= -149,
        s < 0x100_0000,
        t > -149 ==> s >= 0x80_0000,
        pack_magnitude(s, t) < INFINITY_BITS,
    ensures
        ({
            let x = Binary32 { bits: pack_magnitude(s, t) as u32 };
            &&& x.is_finite()
            &&& !x.is_negative()
            &&& x.significand() == s
            &&& s >= 0x80_0000 ==> x.exponent() == t
            &&& s < 0x80_0000 ==> x.exponent() == -149
        }),
{
}

/// A significand of `2^24`, which rounding up can give, stands for `2^23`
/// at the next exponent.
pub proof fn lemma_pack_carries(t: int)
    requires
        t >= -149,
        pack_magnitude(0x100_0000, t) < INFINITY_BITS,
    ensures
        ({
            let x = Binary32 { bits: pack_magnitude(0x100_0000, t) as u32 };
            &&& x.is_finite()
            &&& x.significand() == 0x80_0000
            &&& x.exponent() == t + 1
        }),
{
}

/// A finite number is the spacing-aligned form of itself.
proof fn lemma_own_ulp_exponent(x: Binary32)
    requires
        x.is_finite(),
    ensures
        is_ulp_exponent(x.significand(), 1, x.exponent(), x.exponent()),
{
    lemma_pow2_values();
    let s = x.significand();
    lemma_mul_basics(pow2(24) as int);
    lemma_mul_basics(pow2(23) as int);
}

/// Rounding changes no number that is a binary32 number already.
pub proof fn lemma_round_exact(x: Binary32)
    requires
        x.is_finite(),
    ensures
        round_magnitude(x.significand(), 1, x.exponent()) == x.magnitude(),
{
    lemma_pow2_values();
    let s = x.significand();
    let t = x.exponent();
    lemma_own_ulp_exponent(x);
    lemma_ulp_exponent_unique(s, 1, t, t);
    lemma_mul_basics(s as int);
    assert(s * pow2(0) == s);
    lemma_div_basics(s as int);
    assert(round_half_even(s, 1) == s);
}

/// Multiplying by `1.0` changes no number.
pub proof fn lemma_times_one(x: Binary32)
    requires
        !x.is_nan(),
    ensures
        x.times(Binary32 { bits: ONE_BITS }) == x,
{
    let one = Binary32 { bits: ONE_BITS };
    assert(one.significand() == 0x80_0000 && one.exponent() == -23);
    if x.is_finite() {
        lemma_pow2_values();
        lemma_round_shifted(x.significand(), 1, x.exponent(), 23);
        lemma_round_exact(x);
    }
}

/// The binary32 form of an integer `k` that has `len` binary digits.
proof fn lemma_of_u8_with_length(k: u8, len: nat)
    requires
        1 <= len <= 8,
        pow2((len - 1) as nat) <= k < pow2(len),
    ensures
        Binary32::of_u8(k).is_finite(),
        !Binary32::of_u8(k).is_negative(),
        Binary32::of_u8(k).exponent() == len - 24,
        Binary32::of_u8(k).significand() == k * pow2((24 - len) as nat),
        Binary32::of_u8(k).significand() >= 0x80_0000,
{
    lemma_pow2_values();
    let t: int = len - 24;
    let up = (24 - len) as nat;
    lemma_mul_basics(pow2(len) as int);
    lemma_mul_basics(pow2((len - 1) as nat) as int);
    assert(is_ulp_exponent(k as nat, 1, 0, t));
    lemma_ulp_exponent_unique(k as nat, 1, 0, t);
    let s: nat = k as nat * pow2(up);
    lemma_div_basics(s as int);
    assert(rounded_significand(k as nat, 1, 0, t) == s);
    // 2^23 <= s < 2^24
    lemma_pow2_adds((len - 1) as nat, up);
    lemma_pow2_adds(len, up);
    lemma_pow2_pos(up);
    lemma_mul_inequality(pow2((len - 1) as nat) as int, k as int, pow2(up) as int);
    lemma_mul_strict_inequality(k as int, pow2(len) as int, pow2(up) as int);
    assert(0x80_0000 <= s < 0x100_0000);
    lemma_pack_decodes(s, t);
}

/// An 8-bit integer is a binary32 number: the conversion loses nothing.
pub proof fn lemma_of_u8(k: u8)
    ensures
        Binary32::of_u8(k).is_finite(),
        !Binary32::of_u8(k).is_negative(),
        Binary32::of_u8(k).exponent() < 0,
        Binary32::of_u8(k).significand() == k * pow2((-Binary32::of_u8(k).exponent()) as nat),
        Binary32::of_u8(k).integer_part() == k,
        Binary32::of_u8(k).channel_value() == k,
        k == 0 <==> Binary32::of_u8(k).is_zero(),
        k > 0 ==> Binary32::of_u8(k).significand() >= 0x80_0000,
{
    lemma2_to64();
    let x = Binary32::of_u8(k);
    if k == 0 {
        lemma_round_zero(1, 0);
        lemma_pow2_pos(149);
        lemma_mul_basics(pow2(149) as int);
        lemma_basic_div(0, pow2(149) as int);
    } else {
        let len: nat = if k < 2 {
            1
        } else if k < 4 {
            2
        } else if k < 8 {
            3
        } else if k < 16 {
            4
        } else if k < 32 {
            5
        } else if k < 64 {
            6
        } else if k < 128 {
            7
        } else {
            8
        };
        lemma_of_u8_with_length(k, len);
        let up = (24 - len) as nat;
        lemma_pow2_pos(up);
        lemma_div_by_multiple(k as int, pow2(up) as int);
        lemma_mul_strictly_positive(k as int, pow2(up) as int);
    }
}

/// The numbers from 0 to 1 are those with magnitude bits up to those of
/// `1.0` and no sign, and the two zeros.
pub proof fn lemma_unit_interval_bits(x: Binary32)
    ensures
        x.in_unit_interval() <==> (x.magnitude() == 0 || (!x.is_negative() && x.magnitude()
            <= ONE_BITS)),
{
    lemma_pow2_values();
    let m = x.magnitude();
    let s = x.significand();
    let t = x.exponent();
    if m != 0 && m < INFINITY_BITS {
        if m < ONE_BITS {
            // The exponent is at most -24, and the significand has at most 24 digits.
            let k = (-t) as nat;
            if k > 24 {
                lemma_pow2_strictly_increases(24, k);
            }
        } else if m > ONE_BITS {
            if t < 0 {
                let k = (-t) as nat;
                if k < 23 {
                    lemma_pow2_strictly_increases(k, 23);
                }
            }
        }
    }
}

/// The product of two numbers from 0 to 1 lies between 0 and 1.
pub proof fn lemma_times_in_unit_interval(a: Binary32, b: Binary32)
    requires
        a.in_unit_interval(),
        b.in_unit_interval(),
    ensures
        a.times(b).in_unit_interval(),
{
    let p = a.times(b);
    let n = a.significand() * b.significand();
    let e = a.exponent() + b.exponent();
    lemma_unit_interval_bits(p);
    if a.is_zero() || b.is_zero() {
        lemma_mul_basics(a.significand() as int);
        lemma_mul_basics(b.significand() as int);
        lemma_round_zero(1, e);
    } else {
        let ja = (-a.exponent()) as nat;
        let jb = (-b.exponent()) as nat;
        lemma_pow2_adds(ja, jb);
        lemma_mul_upper_bound(
            a.significand() as int,
            pow2(ja) as int,
            b.significand() as int,
            pow2(jb) as int,
        );
        lemma_mul_basics(pow2(ja + jb) as int);
        lemma_round_at_most_one(n, 1, e);
    }
}

/// The quotient of two 8-bit integers, the first no larger than the second,
/// lies between 0 and 1.
pub proof fn lemma_ratio_in_unit_interval(k: u8, full: u8)
    requires
        k <= full,
        full > 0,
    ensures
        Binary32::of_u8(k).over(Binary32::of_u8(full)).in_unit_interval(),
{
    let a = Binary32::of_u8(k);
    let b = Binary32::of_u8(full);
    lemma_of_u8(k);
    lemma_of_u8(full);
    let q = a.over(b);
    lemma_unit_interval_bits(q);
    if k == 0 {
        lemma_round_zero(b.significand(), a.exponent() - b.exponent());
    } else {
        // Both have 24 digits, so the smaller one has no larger an exponent.
        let ja = (-a.exponent()) as nat;
        let jb = (-b.exponent()) as nat;
        lemma_pow2_pos(ja);
        lemma_pow2_pos(jb);
        if ja < jb {
            // Then a >= 2 * b in value while k <= full: impossible.
            lemma_pow2_adds(ja, (jb - ja) as nat);
            lemma_pow2_unfold((jb - ja) as nat);
            lemma_pow2_pos((jb - ja - 1) as nat);
            assert(false) by (nonlinear_arith)
                requires
                    a.significand() == k * pow2(ja),
                    b.significand() == full * pow2(jb),
                    pow2(jb) == pow2(ja) * pow2((jb - ja) as nat),
                    pow2((jb - ja) as nat) >= 2,
                    a.significand() >= 0x80_0000,
                    b.significand() < 0x100_0000,
                    k <= full,
                    pow2(ja) > 0,
            ;
        }
        let e = a.exponent() - b.exponent();
        let j = (-e) as nat;
        lemma_pow2_adds(jb, j);
        assert(a.significand() <= b.significand() * pow2(j)) by (nonlinear_arith)
            requires
                a.significand() == k * pow2(ja),
                b.significand() == full * pow2(jb),
                pow2(ja) == pow2(jb) * pow2(j),
                k <= full,
                pow2(ja) > 0,
        ;
        lemma_round_at_most_one(a.significand(), b.significand(), e);
    }
}

/// The product does not depend on the order of its factors.
pub proof fn lemma_times_commutes(a: Binary32, b: Binary32)
    ensures
        a.times(b) == b.times(a),
{
    lemma_mul_is_commutative(a.significand() as int, b.significand() as int);
}

/// Multiplying a finite number by a number from 0 to 1 gives no larger a
/// magnitude.
pub proof fn lemma_times_at_most(a: Binary32, f: Binary32)
    requires
        a.is_finite(),
        f.in_unit_interval(),
    ensures
        a.times(f).is_finite(),
        a.times(f).magnitude() <= a.magnitude(),
{
    let sa = a.significand();
    let sf = f.significand();
    let e = a.exponent() + f.exponent();
    if a.is_zero() || f.is_zero() {
        lemma_mul_basics(sa as int);
        lemma_mul_basics(sf as int);
        lemma_round_zero(1, e);
    } else {
        let j = (-f.exponent()) as nat;
        lemma_mul_left_inequality(sa as int, sf as int, pow2(j) as int);
        lemma_mul_basics(sa as int);
        assert(at_most(sa * sf, 1, e, sa, a.exponent()));
        lemma_round_at_most(sa * sf, 1, e, sa, a.exponent());
    }
}

/// Among finite numbers without sign, larger bits have no smaller an
/// integer part.
pub proof fn lemma_integer_part_monotonic(a: Binary32, b: Binary32)
    requires
        b.is_finite(),
        a.magnitude() <= b.magnitude(),
    ensures
        a.integer_part() <= b.integer_part(),
{
    lemma_pow2_values();
    let sa = a.significand();
    let sb = b.significand();
    let ta = a.exponent();
    let tb = b.exponent();
    if ta == tb {
        assert(sa <= sb);
        if ta >= 0 {
            lemma_mul_inequality(sa as int, sb as int, pow2(ta as nat) as int);
        } else {
            lemma_pow2_pos((-ta) as nat);
            lemma_div_is_ordered(sa as int, sb as int, pow2((-ta) as nat) as int);
        }
    } else {
        assert(ta < tb);
        assert(sa < 0x100_0000 && sb >= 0x80_0000);
        if tb < 0 {
            let ja = (-ta) as nat;
            let jb = (-tb) as nat;
            lemma_pow2_pos(jb);
            lemma_pow2_pos(ja);
            if jb + 1 < ja {
                lemma_pow2_strictly_increases(jb + 1, ja);
            }
            lemma_pow2_unfold(jb + 1);
            lemma_div_is_ordered_by_denominator(sa as int, pow2(jb + 1) as int, pow2(ja) as int);
            lemma_div_is_ordered(sa as int, 0x100_0000, pow2(jb + 1) as int);
            lemma_div_multiples_vanish_quotient(2, 0x80_0000, pow2(jb) as int);
            lemma_div_is_ordered(0x80_0000, sb as int, pow2(jb) as int);
        } else {
            let kb = tb as nat;
            lemma_pow2_pos(kb);
            lemma_mul_inequality(0x80_0000, sb as int, pow2(kb) as int);
            if ta < 0 {
                let ja = (-ta) as nat;
                lemma_pow2_pos(ja);
                lemma_pow2_unfold(ja);
                lemma_pow2_pos((ja - 1) as nat);
                lemma_div_is_ordered_by_denominator(sa as int, 2, pow2(ja) as int);
                lemma_mul_increases(pow2(kb) as int, 0x80_0000);
            } else {
                let ka = ta as nat;
                lemma_pow2_unfold(ka + 1);
                if ka + 1 < kb {
                    lemma_pow2_strictly_increases(ka + 1, kb);
                }
                lemma_pow2_pos(ka);
                lemma_mul_strict_inequality(sa as int, 0x100_0000, pow2(ka) as int);
                lemma_mul_left_inequality(0x80_0000, pow2(ka + 1) as int, pow2(kb) as int);
            }
        }
    }
}

} // verus!
