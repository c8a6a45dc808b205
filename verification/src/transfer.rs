//! The sRGB transfer function from linear light to an 8-bit code, stated
//! exactly.
//!
//! For a linear value `v` the encoded value is `12.92 * v` up to the knee
//! and `1.055 * v^(1/2.4) - 0.055` above it; the code is that value clamped
//! to `[0, 1]`, scaled by 255 and rounded to the nearest integer. Here the
//! rule is stated over integers, with no rounding but the last one: a
//! finite sample is `u / 2^149` for an integer `u`, and both segments are
//! cleared of fractions and roots.
//!
//! The same formulas worked in single precision round at every step, and
//! where the scaled value lies within that error of a half they can land
//! one code beside the code given here.

use crate::powers::{fifth, lemma_fifth, lemma_pow_base_increases, lemma_twelfth, twelfth};
use crate::sample::{
    is_finite, is_infinite, is_nan, is_negative, magnitude_units, sample_le, units, HIDDEN_BIT,
};
use vstd::arithmetic::div_mod::lemma_div_is_ordered;
use vstd::arithmetic::mul::*;
use vstd::arithmetic::power::*;
use vstd::arithmetic::power2::*;
use vstd::prelude::*;

verus! {

/// The knee of the curve: 0.0031308 as the nearest binary32 has it, the
/// value that a comparison between two binary32 numbers sees.
pub const KNEE_BITS: u32 = 0x3b4d_2e1c;

/// The pattern of 1.0.
pub const ONE_BITS: u32 = 0x3f80_0000;

/// 2^149: the number of units in 1.0.
pub open spec fn unit() -> int {
    0x20_0000_0000_0000_0000_0000_0000_0000_0000_0000int
}

/// The knee in units.
pub open spec fn knee_units() -> int {
    units(KNEE_BITS)
}

/// An integer clamped to the range of a byte.
pub open spec fn clamp_code(x: int) -> int {
    if x < 0 {
        0
    } else if x > 255 {
        255
    } else {
        x
    }
}

/// The linear segment, scaled and rounded: the integer nearest to
/// `255 * 12.92 * v = 3294.6 * v` for `v = u / 2^149`, halves going up.
/// It is `floor((32946 * v + 5) / 10)`.
pub open spec fn linear_code(u: int) -> int {
    (32946 * u + 5 * unit()) / (10 * unit())
}

/// The power segment reaches code `k`: `255 * (1.055 * v^(5/12) - 0.055)`
/// is at least `k - 1/2`, for `v = u / 2^149`.
///
/// Moving the constants over, that is `v^(5/12) >= (k + 13.525) / 269.025`,
/// or `(40 * k + 541) / 10761`; both sides are positive, so the twelfth
/// powers compare alike: `10761^12 * v^5 >= (40 * k + 541)^12`.
pub open spec fn power_reaches(u: int, k: int) -> bool {
    pow(10761, 12) * pow(u, 5) >= pow(40 * k + 541, 12) * pow(unit(), 5)
}

/// The power segment, clamped, scaled and rounded: the largest code from
/// 1 to `limit` that the segment reaches, or 0 if it reaches none.
pub open spec fn power_code(u: int, limit: nat) -> int
    decreases limit,
{
    if limit == 0 {
        0
    } else if power_reaches(u, limit as int) {
        limit as int
    } else {
        power_code(u, (limit - 1) as nat)
    }
}

/// The code of the value `u / 2^149`.
pub open spec fn encode_units(u: int) -> int {
    if u <= knee_units() {
        clamp_code(linear_code(u))
    } else {
        power_code(u, 255)
    }
}

/// The sRGB code of a sample.
///
/// A finite sample is encoded by its exact value. Negative infinity takes
/// the linear segment and clamps to 0, positive infinity takes the power
/// segment and clamps to 255. A NaN fails the comparison with the knee,
/// stays a NaN through the power segment and the clamp, and becomes 0 when
/// it is turned into a byte.
pub open spec fn srgb_byte(bits: u32) -> int {
    if is_nan(bits) {
        0
    } else if is_infinite(bits) {
        if is_negative(bits) {
            0
        } else {
            255
        }
    } else {
        encode_units(units(bits))
    }
}

/// `unit()` is two to the 149th.
pub proof fn lemma_unit_is_pow2()
    ensures
        unit() == pow2(149),
{
    lemma2_to64();
    lemma_pow2_adds(64, 64);
    lemma_pow2_adds(128, 21);
    assert(pow2(64) * pow2(64) * pow2(21) == unit()) by (nonlinear_arith)
        requires
            pow2(64) == 0x1_0000_0000_0000_0000,
            pow2(21) == 0x20_0000,
    ;
}

/// The knee, 0xcd2e1c * 2^117 units.
pub proof fn lemma_knee_units()
    ensures
        knee_units() == 0x19a5_c380_0000_0000_0000_0000_0000_0000_0000int,
{
    lemma2_to64();
    lemma2_to64_rest();
    lemma_pow2_adds(64, 53);
    assert(magnitude_units(KNEE_BITS) == 0xcd_2e1c * pow2(117));
    assert(0xcd_2e1c * (pow2(64) * pow2(53)) == 0x19a5_c380_0000_0000_0000_0000_0000_0000_0000int)
        by (nonlinear_arith)
        requires
            pow2(64) == 0x1_0000_0000_0000_0000,
            pow2(53) == 0x20_0000_0000_0000,
    ;
}

/// The knee is the binary32 value nearest to 0.0031308: the decimal lies
/// between the knee and the pattern before it, and nearer to the knee.
pub proof fn lemma_knee_is_nearest()
    ensures
        units((KNEE_BITS - 1) as u32) * 10_000_000 < 31308 * unit() < knee_units() * 10_000_000,
        knee_units() * 10_000_000 - 31308 * unit() < 31308 * unit() - units(
            (KNEE_BITS - 1) as u32,
        ) * 10_000_000,
{
    lemma_knee_units();
    lemma2_to64();
    lemma2_to64_rest();
    lemma_pow2_adds(64, 53);
    let before = (KNEE_BITS - 1) as u32;
    assert(magnitude_units(before) == 0xcd_2e1b * pow2(117));
    assert(0xcd_2e1b * (pow2(64) * pow2(53)) == 0x19a5_c380_0000_0000_0000_0000_0000_0000_0000int
        - 0x20_0000_0000_0000_0000_0000_0000_0000int) by (nonlinear_arith)
        requires
            pow2(64) == 0x1_0000_0000_0000_0000,
            pow2(53) == 0x20_0000_0000_0000,
    ;
}

/// The sample 1.0 is one unit of value: 2^149 units of 2^-149.
pub proof fn lemma_one_units()
    ensures
        units(ONE_BITS) == unit(),
{
    lemma_unit_is_pow2();
    lemma2_to64();
    lemma_pow2_adds(23, 126);
    assert(magnitude_units(ONE_BITS) == HIDDEN_BIT * pow2(126));
}

/// A value that reaches a code is followed by values that reach it too.
pub proof fn lemma_power_reaches_increases(u1: int, u2: int, k: int)
    requires
        0 <= u1 <= u2,
        power_reaches(u1, k),
    ensures
        power_reaches(u2, k),
{
    lemma_pow_base_increases(u1, u2, 5);
    lemma_pow_positive(10761, 12);
    lemma_mul_left_inequality(pow(10761, 12), pow(u1, 5), pow(u2, 5));
}

/// A value that reaches a code reaches the smaller codes too.
pub proof fn lemma_power_reaches_decreases(u: int, k1: int, k2: int)
    requires
        0 <= k1 <= k2,
        power_reaches(u, k2),
    ensures
        power_reaches(u, k1),
{
    lemma_pow_base_increases(40 * k1 + 541, 40 * k2 + 541, 12);
    lemma_pow_positive(unit(), 5);
    lemma_mul_inequality(pow(40 * k1 + 541, 12), pow(40 * k2 + 541, 12), pow(unit(), 5));
}

/// The code of the power segment lies between 0 and its limit.
pub proof fn lemma_power_code_bounds(u: int, limit: nat)
    ensures
        0 <= power_code(u, limit) <= limit,
    decreases limit,
{
    if limit > 0 {
        lemma_power_code_bounds(u, (limit - 1) as nat);
    }
}

/// The code of the power segment is at least every code that is reached.
pub proof fn lemma_power_code_at_least(u: int, limit: nat, k: int)
    requires
        1 <= k <= limit,
        power_reaches(u, k),
    ensures
        k <= power_code(u, limit),
    decreases limit,
{
    if limit > k && !power_reaches(u, limit as int) {
        lemma_power_code_at_least(u, (limit - 1) as nat, k);
    }
}

/// The code of the power segment is below every code that is not reached.
pub proof fn lemma_power_code_below(u: int, limit: nat, k: int)
    requires
        1 <= k,
        !power_reaches(u, k),
    ensures
        power_code(u, limit) < k,
    decreases limit,
{
    lemma_power_code_bounds(u, limit);
    if limit >= k {
        if power_reaches(u, limit as int) {
            lemma_power_reaches_decreases(u, k, limit as int);
        }
        lemma_power_code_below(u, (limit - 1) as nat, k);
    }
}

/// The code of the power segment, where it is not 0, is reached.
pub proof fn lemma_power_code_reached(u: int, limit: nat)
    requires
        1 <= power_code(u, limit),
    ensures
        power_reaches(u, power_code(u, limit)),
    decreases limit,
{
    if limit > 0 && !power_reaches(u, limit as int) {
        lemma_power_code_reached(u, (limit - 1) as nat);
    }
}

/// At the knee the linear segment gives 10, and the power segment reaches
/// 10 as well: the two meet within one code.
pub proof fn lemma_knee_codes()
    ensures
        linear_code(knee_units()) == 10,
        power_reaches(knee_units(), 10),
        !power_reaches(knee_units(), 11),
{
    lemma_knee_units();
    let k = knee_units();
    lemma_twelfth(10761);
    lemma_twelfth(941);
    lemma_twelfth(981);
    lemma_fifth(k);
    lemma_fifth(unit());
    assert((32946 * k + 5 * unit()) / (10 * unit()) == 10) by (nonlinear_arith)
        requires
            k == 0x19a5_c380_0000_0000_0000_0000_0000_0000_0000int,
    ;
    assert(twelfth(10761) * fifth(k) >= twelfth(941) * fifth(unit())) by (nonlinear_arith)
        requires
            k == 0x19a5_c380_0000_0000_0000_0000_0000_0000_0000int,
    ;
    assert(twelfth(10761) * fifth(k) < twelfth(981) * fifth(unit())) by (nonlinear_arith)
        requires
            k == 0x19a5_c380_0000_0000_0000_0000_0000_0000_0000int,
    ;
}

/// A larger value never has a smaller code.
pub proof fn lemma_encode_units_increases(u1: int, u2: int)
    requires
        u1 <= u2,
    ensures
        encode_units(u1) <= encode_units(u2),
{
    lemma_knee_codes();
    lemma_knee_units();
    if u2 <= knee_units() {
        lemma_div_is_ordered(32946 * u1 + 5 * unit(), 32946 * u2 + 5 * unit(), 10 * unit());
    } else if u1 <= knee_units() {
        lemma_div_is_ordered(
            32946 * u1 + 5 * unit(),
            32946 * knee_units() + 5 * unit(),
            10 * unit(),
        );
        lemma_power_reaches_increases(knee_units(), u2, 10);
        lemma_power_code_at_least(u2, 255, 10);
    } else {
        let k = power_code(u1, 255);
        lemma_power_code_bounds(u1, 255);
        lemma_power_code_bounds(u2, 255);
        if k >= 1 {
            lemma_power_code_reached(u1, 255);
            lemma_power_reaches_increases(u1, u2, k);
            lemma_power_code_at_least(u2, 255, k);
        }
    }
}

/// Every code is a byte.
pub proof fn lemma_srgb_byte_range(bits: u32)
    ensures
        0 <= srgb_byte(bits) <= 255,
{
    if is_finite(bits) {
        lemma_power_code_bounds(units(bits), 255);
    }
}

/// The transfer function never decreases: of two samples that are not
/// NaNs, the larger has the larger or the same code.
pub proof fn lemma_encode_monotonic(a: u32, b: u32)
    requires
        !is_nan(a),
        !is_nan(b),
        sample_le(a, b),
    ensures
        srgb_byte(a) <= srgb_byte(b),
{
    lemma_srgb_byte_range(a);
    lemma_srgb_byte_range(b);
    if is_finite(a) && is_finite(b) {
        lemma_encode_units_increases(units(a), units(b));
    }
}

/// On the linear segment the code is the integer nearest to `3294.6 * v`:
/// a sample from zero to the knee has the code `k` exactly when
/// `k - 1/2 <= 3294.6 * v < k + 1/2`.
pub proof fn lemma_linear_segment(bits: u32, k: int)
    requires
        is_finite(bits),
        0 <= units(bits) <= knee_units(),
    ensures
        srgb_byte(bits) == linear_code(units(bits)),
        srgb_byte(bits) == k <==> (10 * k - 5) * unit() <= 32946 * units(bits) < (10 * k + 5)
            * unit(),
{
    let u = units(bits);
    let x = 32946 * u + 5 * unit();
    let d = 10 * unit();
    lemma_knee_codes();
    lemma_div_is_ordered(5 * unit(), x, d);
    lemma_div_is_ordered(x, 32946 * knee_units() + 5 * unit(), d);
    assert((5 * unit()) / (10 * unit()) == 0) by (nonlinear_arith);
    assert(x / d == k <==> k * d <= x < (k + 1) * d) by (nonlinear_arith)
        requires
            d > 0,
    ;
    assert(k * d == (10 * k) * unit() && (k + 1) * d == (10 * k + 10) * unit())
        by (nonlinear_arith)
        requires
            d == 10 * unit(),
    ;
    assert((10 * k - 5) * unit() == (10 * k) * unit() - 5 * unit() && (10 * k + 5) * unit() == (10
        * k + 10) * unit() - 5 * unit()) by (nonlinear_arith);
}

/// On the power segment the code is the integer nearest to
/// `255 * (1.055 * v^(1/2.4) - 0.055)`: a sample above the knee and up to
/// 1.0 has the code `k` exactly when the segment reaches `k` and does not
/// reach `k + 1`.
pub proof fn lemma_power_segment(bits: u32, k: int)
    requires
        is_finite(bits),
        knee_units() < units(bits) <= unit(),
        0 <= k <= 255,
    ensures
        srgb_byte(bits) == power_code(units(bits), 255),
        srgb_byte(bits) == k <==> power_reaches(units(bits), k) && !power_reaches(
            units(bits),
            k + 1,
        ),
{
    let u = units(bits);
    let code = power_code(u, 255);
    lemma_knee_codes();
    lemma_knee_units();
    lemma_power_reaches_increases(knee_units(), u, 10);
    lemma_power_code_at_least(u, 255, 10);
    lemma_power_code_bounds(u, 255);
    lemma_power_code_reached(u, 255);
    assert(!power_reaches(u, 256)) by {
        lemma_twelfth(10761);
        lemma_twelfth(10781);
        lemma_pow_base_increases(u, unit(), 5);
        lemma_pow_positive(unit(), 5);
        lemma_pow_positive(10761, 12);
        lemma_mul_left_inequality(pow(10761, 12), pow(u, 5), pow(unit(), 5));
        assert(twelfth(10761) < twelfth(10781)) by (nonlinear_arith);
        lemma_mul_strict_inequality(pow(10761, 12), pow(10781, 12), pow(unit(), 5));
    }
    if power_reaches(u, k) && !power_reaches(u, k + 1) {
        if k == 0 {
            lemma_power_reaches_decreases(u, 1, 10);
        } else {
            lemma_power_code_at_least(u, 255, k);
            lemma_power_code_below(u, 255, k + 1);
        }
    }
    if code == k && k < 255 && power_reaches(u, k + 1) {
        lemma_power_code_at_least(u, 255, k + 1);
    }
}

/// Outside the range from 0 to 1 the code is clamped: a sample that is at
/// most zero has the code 0, a sample that is at least 1.0 has the code
/// 255. The zeros, 1.0 and the infinities are among them.
pub proof fn lemma_out_of_range(bits: u32)
    requires
        !is_nan(bits),
    ensures
        sample_le(bits, 0) ==> srgb_byte(bits) == 0,
        sample_le(ONE_BITS, bits) ==> srgb_byte(bits) == 255,
{
    lemma_knee_units();
    lemma_one_units();
    if is_finite(bits) {
        let u = units(bits);
        assert(units(0) == 0);
        if u <= 0 {
            assert((32946 * u + 5 * unit()) / (10 * unit()) <= 0) by (nonlinear_arith)
                requires
                    u <= 0,
                    unit() > 0,
            ;
        }
        if unit() <= u {
            lemma_twelfth(10761);
            lemma_twelfth(10741);
            lemma_fifth(unit());
            assert(twelfth(10761) * fifth(unit()) >= twelfth(10741) * fifth(unit()))
                by (nonlinear_arith);
            lemma_power_reaches_increases(unit(), u, 255);
            lemma_power_code_at_least(u, 255, 255);
            lemma_power_code_bounds(u, 255);
        }
    }
}

} // verus!
