//! Linear-light samples as IEEE 754 binary32 bit patterns.
//!
//! A sample travels through this library as the `u32` that holds its
//! binary32 encoding: one sign bit, eight exponent bits, twenty-three
//! fraction bits. Every finite binary32 value is a whole multiple of
//! 2^-149, so the exact value of a finite sample is an integer count of
//! such units, and all reasoning about samples is integer reasoning.

use vstd::arithmetic::mul::*;
use vstd::arithmetic::power2::*;
use vstd::prelude::*;

verus! {

/// The sign bit of a binary32 pattern.
pub const SIGN_BIT: u32 = 0x8000_0000;

/// The pattern of positive infinity. Smaller magnitudes are finite,
/// larger ones are NaNs.
pub const INFINITY_BITS: u32 = 0x7f80_0000;

/// Two to the twenty-third: the weight of the implicit leading bit of a
/// normal significand, and the step between exponent fields.
pub const HIDDEN_BIT: u32 = 0x0080_0000;

/// The sign bit is set. This holds of negative values, of negative zero,
/// of negative infinity and of NaNs that carry the sign.
pub open spec fn is_negative(bits: u32) -> bool {
    bits >= SIGN_BIT
}

/// The pattern with its sign bit cleared.
pub open spec fn magnitude(bits: u32) -> int {
    if bits >= SIGN_BIT {
        bits - SIGN_BIT
    } else {
        bits as int
    }
}

/// Not a number: the exponent field is all ones and the fraction is not zero.
pub open spec fn is_nan(bits: u32) -> bool {
    magnitude(bits) > INFINITY_BITS
}

/// Positive or negative infinity.
pub open spec fn is_infinite(bits: u32) -> bool {
    magnitude(bits) == INFINITY_BITS
}

/// Zero, subnormal or normal.
pub open spec fn is_finite(bits: u32) -> bool {
    magnitude(bits) < INFINITY_BITS
}

/// The biased exponent field, 0 to 255.
pub open spec fn exponent_field(bits: u32) -> int {
    magnitude(bits) / (HIDDEN_BIT as int)
}

/// The fraction field, 0 to 2^23 - 1.
pub open spec fn fraction_field(bits: u32) -> int {
    magnitude(bits) % (HIDDEN_BIT as int)
}

/// The absolute value of a finite sample, in units of 2^-149.
///
/// A subnormal (exponent field 0) is `fraction * 2^-149`. A normal value
/// is `(2^23 + fraction) * 2^(exponent - 150)`, which is
/// `(2^23 + fraction) * 2^(exponent - 1)` units.
pub open spec fn magnitude_units(bits: u32) -> int
    recommends
        is_finite(bits),
{
    if exponent_field(bits) == 0 {
        fraction_field(bits)
    } else {
        (HIDDEN_BIT + fraction_field(bits)) * pow2((exponent_field(bits) - 1) as nat)
    }
}

/// The exact value of a finite sample, in units of 2^-149.
pub open spec fn units(bits: u32) -> int
    recommends
        is_finite(bits),
{
    if is_negative(bits) {
        -magnitude_units(bits)
    } else {
        magnitude_units(bits)
    }
}

/// `a` is at most `b` in the order of the extended reals: negative
/// infinity lies below and positive infinity above every finite value,
/// and the two zeros are equal. NaNs are not ordered.
pub open spec fn sample_le(a: u32, b: u32) -> bool
    recommends
        !is_nan(a),
        !is_nan(b),
{
    if is_infinite(a) {
        is_negative(a) || (is_infinite(b) && !is_negative(b))
    } else if is_infinite(b) {
        !is_negative(b)
    } else {
        units(a) <= units(b)
    }
}

/// The magnitude of a finite sample is never negative.
pub proof fn lemma_magnitude_units_nonnegative(bits: u32)
    requires
        is_finite(bits),
    ensures
        0 <= magnitude_units(bits),
{
    let e = exponent_field(bits);
    let f = fraction_field(bits);
    if e != 0 {
        lemma_pow2_pos((e - 1) as nat);
        lemma_mul_strictly_positive(HIDDEN_BIT + f, pow2((e - 1) as nat) as int);
    }
}

/// Among finite samples without the sign bit, the order of the bit
/// patterns is the order of the values.
pub proof fn lemma_magnitude_units_increasing(a: u32, b: u32)
    requires
        a < b < INFINITY_BITS,
    ensures
        magnitude_units(a) < magnitude_units(b),
{
    let ea = exponent_field(a);
    let fa = fraction_field(a);
    let eb = exponent_field(b);
    let fb = fraction_field(b);
    assert(ea <= eb);
    assert(1 <= eb ==> pow2((eb - 1) as nat) > 0) by {
        if 1 <= eb {
            lemma_pow2_pos((eb - 1) as nat);
        }
    }
    if ea == eb {
        assert(fa < fb);
        if ea != 0 {
            lemma_mul_strict_inequality(
                HIDDEN_BIT + fa,
                HIDDEN_BIT + fb,
                pow2((ea - 1) as nat) as int,
            );
        }
    } else {
        let top = pow2((eb - 1) as nat) as int;
        // The smallest value with exponent field `eb` is 2^23 * 2^(eb - 1).
        lemma_mul_inequality(HIDDEN_BIT as int, HIDDEN_BIT + fb, top);
        assert(HIDDEN_BIT * top <= magnitude_units(b));
        if ea == 0 {
            lemma_mul_inequality(1, top, HIDDEN_BIT as int);
            lemma_mul_is_commutative(top, HIDDEN_BIT as int);
        } else {
            let low = pow2((ea - 1) as nat) as int;
            lemma_pow2_pos((ea - 1) as nat);
            // Every value with exponent field `ea` is below 2^24 * 2^(ea - 1) = 2^23 * 2^ea.
            lemma_mul_strict_inequality(HIDDEN_BIT + fa, 2 * HIDDEN_BIT, low);
            lemma_pow2_unfold(ea as nat);
            lemma_mul_is_associative(HIDDEN_BIT as int, 2, low);
            assert(magnitude_units(a) < HIDDEN_BIT * pow2(ea as nat));
            if ea < eb - 1 {
                lemma_pow2_strictly_increases(ea as nat, (eb - 1) as nat);
            }
            lemma_mul_left_inequality(HIDDEN_BIT as int, pow2(ea as nat) as int, top);
        }
    }
}

} // verus!
