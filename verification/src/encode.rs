//! Encoding one sample.
//!
//! The code of a sample never decreases as the sample grows, so 255
//! thresholds decide it: for each code the smallest sample that has it. A
//! sample's code is the number of thresholds that it has reached, found by
//! bisection. Each entry of the table is proved against the exact rule of
//! [`crate::transfer`]: the entry reaches its code, and the pattern just
//! before it does not.

use crate::powers::{fifth, lemma_cancel_positive, lemma_fifth, lemma_twelfth, twelfth};
use crate::sample::{
    is_finite, lemma_magnitude_units_increasing, lemma_magnitude_units_nonnegative, units,
    HIDDEN_BIT, INFINITY_BITS, SIGN_BIT,
};
use crate::transfer::{
    lemma_encode_units_increases, lemma_knee_units, lemma_power_code_at_least,
    lemma_power_code_below, lemma_srgb_byte_range, lemma_unit_is_pow2, linear_code,
    power_reaches, srgb_byte, unit, KNEE_BITS, ONE_BITS,
};
use vstd::arithmetic::mul::*;
use vstd::arithmetic::power::*;
use vstd::arithmetic::power2::*;
use vstd::prelude::*;

verus! {

/// For each code `k` from 1 to 255, the pattern of the smallest sample
/// without a sign whose code is at least `k`. The entry of code 0 is the
/// pattern of zero.
const THRESHOLDS: [u32; 256] = [
    0x0000_0000, 0x391f_22b4, 0x39ee_b40e, 0x3a46_eb61,
    0x3a8b_3e5e, 0x3ab3_070b, 0x3ada_cfb8, 0x3b01_4c33,
    0x3b15_3089, 0x3b29_14df, 0x3b3c_f936, 0x3b50_f2d1,
    0x3b65_fb9b, 0x3b7c_3403, 0x3b89_d060, 0x3b96_2333,
    0x3ba3_14bd, 0x3bb0_a731, 0x3bbe_dcb7, 0x3bcd_b76d,
    0x3bdd_3967, 0x3bed_64af, 0x3bfe_3b46, 0x3c07_df91,
    0x3c10_f91b, 0x3c1a_6b32, 0x3c24_36c8, 0x3c2e_5cc7,
    0x3c38_de1a, 0x3c43_bba4, 0x3c4e_f648, 0x3c5a_8ee4,
    0x3c66_8654, 0x3c72_dd71, 0x3c7f_950f, 0x3c86_5702,
    0x3c8d_148f, 0x3c94_0396, 0x3c9b_247c, 0x3ca2_77a6,
    0x3ca9_fd78, 0x3cb1_b653, 0x3cb9_a298, 0x3cc1_c2a9,
    0x3cca_16e3, 0x3cd2_9fa4, 0x3cdb_5d4b, 0x3ce4_5032,
    0x3ced_78b5, 0x3cf6_d72e, 0x3d00_35fc, 0x3d05_1bb4,
    0x3d0a_1cec, 0x3d0f_39d0, 0x3d14_728a, 0x3d19_c745,
    0x3d1f_382c, 0x3d24_c567, 0x3d2a_6f22, 0x3d30_3584,
    0x3d36_18b7, 0x3d3c_18e4, 0x3d42_3632, 0x3d48_70ca,
    0x3d4e_c8d2, 0x3d55_3e73, 0x3d5b_d1d3, 0x3d62_8318,
    0x3d69_526a, 0x3d70_3fee, 0x3d77_4bca, 0x3d7e_7624,
    0x3d82_df90, 0x3d86_9372, 0x3d8a_56cb, 0x3d8e_29ab,
    0x3d92_0c27, 0x3d95_fe4f, 0x3d9a_0035, 0x3d9e_11ec,
    0x3da2_3384, 0x3da6_6510, 0x3daa_a6a0, 0x3dae_f847,
    0x3db3_5a15, 0x3db7_cc1b, 0x3dbc_4e6b, 0x3dc0_e114,
    0x3dc5_8429, 0x3dca_37b9, 0x3dce_fbd6, 0x3dd3_d08f,
    0x3dd8_b5f5, 0x3ddd_ac19, 0x3de2_b30a, 0x3de7_cad9,
    0x3dec_f395, 0x3df2_2d50, 0x3df7_7817, 0x3dfc_d3fc,
    0x3e01_2087, 0x3e03_dfae, 0x3e06_a77b, 0x3e09_77f6,
    0x3e0c_5126, 0x3e0f_3314, 0x3e12_1dc5, 0x3e15_1143,
    0x3e18_0d95, 0x3e1b_12c2, 0x3e1e_20d1, 0x3e21_37cb,
    0x3e24_57b6, 0x3e27_8099, 0x3e2a_b27d, 0x3e2d_ed68,
    0x3e31_3161, 0x3e34_7e70, 0x3e37_d49c, 0x3e3b_33ec,
    0x3e3e_9c67, 0x3e42_0e15, 0x3e45_88fb, 0x3e49_0d22,
    0x3e4c_9a90, 0x3e50_314c, 0x3e53_d15d, 0x3e57_7aca,
    0x3e5b_2d9a, 0x3e5e_e9d4, 0x3e62_af7e, 0x3e66_7e9f,
    0x3e6a_573e, 0x3e6e_3962, 0x3e72_2511, 0x3e76_1a52,
    0x3e7a_192c, 0x3e7e_21a5, 0x3e81_19e2, 0x3e83_27c7,
    0x3e85_3a86, 0x3e87_5222, 0x3e89_6e9d, 0x3e8b_8ffc,
    0x3e8d_b641, 0x3e8f_e170, 0x3e92_118b, 0x3e94_4696,
    0x3e96_8095, 0x3e98_bf89, 0x3e9b_0377, 0x3e9d_4c62,
    0x3e9f_9a4c, 0x3ea1_ed38, 0x3ea4_452b, 0x3ea6_a226,
    0x3ea9_042e, 0x3eab_6b44, 0x3ead_d76d, 0x3eb0_48aa,
    0x3eb2_bf00, 0x3eb5_3a71, 0x3eb7_bb00, 0x3eba_40b1,
    0x3ebc_cb85, 0x3ebf_5b81, 0x3ec1_f0a7, 0x3ec4_8af9,
    0x3ec7_2a7c, 0x3ec9_cf32, 0x3ecc_791e, 0x3ecf_2842,
    0x3ed1_dca2, 0x3ed4_9641, 0x3ed7_5521, 0x3eda_1946,
    0x3edc_e2b2, 0x3edf_b168, 0x3ee2_856a, 0x3ee5_5ebd,
    0x3ee8_3d63, 0x3eeb_215d, 0x3eee_0ab1, 0x3ef0_f95f,
    0x3ef3_ed6b, 0x3ef6_e6d8, 0x3ef9_e5a8, 0x3efc_e9de,
    0x3eff_f37e, 0x3f01_8145, 0x3f03_0b82, 0x3f04_9877,
    0x3f06_2827, 0x3f07_ba92, 0x3f09_4fb9, 0x3f0a_e79f,
    0x3f0c_8244, 0x3f0e_1faa, 0x3f0f_bfd2, 0x3f11_62be,
    0x3f13_086e, 0x3f14_b0e4, 0x3f16_5c22, 0x3f18_0a29,
    0x3f19_bafa, 0x3f1b_6e96, 0x3f1d_24ff, 0x3f1e_de36,
    0x3f20_9a3c, 0x3f22_5913, 0x3f24_1abc, 0x3f25_df38,
    0x3f27_a689, 0x3f29_70af, 0x3f2b_3dad, 0x3f2d_0d83,
    0x3f2e_e032, 0x3f30_b5bd, 0x3f32_8e24, 0x3f34_6968,
    0x3f36_478b, 0x3f38_288f, 0x3f3a_0c73, 0x3f3b_f33a,
    0x3f3d_dce5, 0x3f3f_c975, 0x3f41_b8eb, 0x3f43_ab48,
    0x3f45_a08f, 0x3f47_98bf, 0x3f49_93db, 0x3f4b_91e3,
    0x3f4d_92d8, 0x3f4f_96bd, 0x3f51_9d92, 0x3f53_a758,
    0x3f55_b411, 0x3f57_c3be, 0x3f59_d65f, 0x3f5b_ebf7,
    0x3f5e_0486, 0x3f60_200e, 0x3f62_3e90, 0x3f64_600c,
    0x3f66_8485, 0x3f68_abfb, 0x3f6a_d670, 0x3f6d_03e5,
    0x3f6f_345a, 0x3f71_67d2, 0x3f73_9e4d, 0x3f75_d7cc,
    0x3f78_1451, 0x3f7a_53dd, 0x3f7c_9671, 0x3f7e_dc0e,
];

/// Two to the power `150 - e`, for the exponent fields `e` that occur in
/// the table: how often the weight of the last bit of such a sample goes
/// into 1.0.
spec fn coscale(e: int) -> int {
    if e == 114 {
        0x10_0000_0000
    } else if e == 115 {
        0x8_0000_0000
    } else if e == 116 {
        0x4_0000_0000
    } else if e == 117 {
        0x2_0000_0000
    } else if e == 118 {
        0x1_0000_0000
    } else if e == 119 {
        0x8000_0000
    } else if e == 120 {
        0x4000_0000
    } else if e == 121 {
        0x2000_0000
    } else if e == 122 {
        0x1000_0000
    } else if e == 123 {
        0x800_0000
    } else if e == 124 {
        0x400_0000
    } else if e == 125 {
        0x200_0000
    } else if e == 126 {
        0x100_0000
    } else {
        0
    }
}

/// The exponent field of the entry of code `k`.
spec fn entry_exponent(k: int) -> int {
    THRESHOLDS[k] as int / HIDDEN_BIT as int
}

/// The significand of the entry of code `k`, with its leading bit.
spec fn entry_significand(k: int) -> int {
    HIDDEN_BIT + THRESHOLDS[k] % HIDDEN_BIT
}

/// The entry of code `k` is right by the linear segment: `3294.6 * v`
/// is at least `k - 1/2` at the entry and less at the pattern before it,
/// both being at or below the knee. The inequalities are divided by the
/// weight of the entry's last bit.
spec fn linear_entry(k: int) -> bool {
    let t = THRESHOLDS[k];
    let m = entry_significand(k);
    let c = coscale(entry_exponent(k));
    &&& 0x3900_0000 <= t <= KNEE_BITS
    &&& t % HIDDEN_BIT >= 1
    &&& 32946 * m + 5 * c >= 10 * k * c
    &&& 32946 * (m - 1) + 5 * c < 10 * k * c
}

/// The entry of code `k` is right by the power segment: it reaches `k`,
/// and the pattern before it does not, both being above the knee. The
/// inequalities are divided by the fifth power of the weight of the
/// entry's last bit.
spec fn power_entry(k: int) -> bool {
    let t = THRESHOLDS[k];
    let m = entry_significand(k);
    let c = coscale(entry_exponent(k));
    &&& KNEE_BITS + 1 < t < ONE_BITS
    &&& t % HIDDEN_BIT >= 1
    &&& twelfth(10761) * fifth(m) >= twelfth(40 * k + 541) * fifth(c)
    &&& twelfth(10761) * fifth(m - 1) < twelfth(40 * k + 541) * fifth(c)
}

/// The entry of code `k` is right.
#[verifier::opaque]
spec fn entry_exact(k: int) -> bool {
    if k <= 0 {
        true
    } else if k <= 10 {
        linear_entry(k)
    } else {
        power_entry(k)
    }
}

/// The eight entries of the codes `8 * r` to `8 * r + 7` are right.
#[verifier::opaque]
spec fn row_exact(r: int) -> bool {
    &&& entry_exact(8 * r)
    &&& entry_exact(8 * r + 1)
    &&& entry_exact(8 * r + 2)
    &&& entry_exact(8 * r + 3)
    &&& entry_exact(8 * r + 4)
    &&& entry_exact(8 * r + 5)
    &&& entry_exact(8 * r + 6)
    &&& entry_exact(8 * r + 7)
}

/// Every entry of the table is right. Each row is one computation on
/// numbers that are all known.
proof fn lemma_row_exact(r: int)
    requires
        0 <= r < 32,
    ensures
        row_exact(r),
{
    assert(row_exact(0)) by (nonlinear_arith) {
        reveal(row_exact);
        reveal(entry_exact);
    }
    assert(row_exact(1)) by (nonlinear_arith) {
        reveal(row_exact);
        reveal(entry_exact);
    }
    assert(row_exact(2)) by (nonlinear_arith) {
        reveal(row_exact);
        reveal(entry_exact);
    }
    assert(row_exact(3)) by (nonlinear_arith) {
        reveal(row_exact);
        reveal(entry_exact);
    }
    assert(row_exact(4)) by (nonlinear_arith) {
        reveal(row_exact);
        reveal(entry_exact);
    }
    assert(row_exact(5)) by (nonlinear_arith) {
        reveal(row_exact);
        reveal(entry_exact);
    }
    assert(row_exact(6)) by (nonlinear_arith) {
        reveal(row_exact);
        reveal(entry_exact);
    }
    assert(row_exact(7)) by (nonlinear_arith) {
        reveal(row_exact);
        reveal(entry_exact);
    }
    assert(row_exact(8)) by (nonlinear_arith) {
        reveal(row_exact);
        reveal(entry_exact);
    }
    assert(row_exact(9)) by (nonlinear_arith) {
        reveal(row_exact);
        reveal(entry_exact);
    }
    assert(row_exact(10)) by (nonlinear_arith) {
        reveal(row_exact);
        reveal(entry_exact);
    }
    assert(row_exact(11)) by (nonlinear_arith) {
        reveal(row_exact);
        reveal(entry_exact);
    }
    assert(row_exact(12)) by (nonlinear_arith) {
        reveal(row_exact);
        reveal(entry_exact);
    }
    assert(row_exact(13)) by (nonlinear_arith) {
        reveal(row_exact);
        reveal(entry_exact);
    }
    assert(row_exact(14)) by (nonlinear_arith) {
        reveal(row_exact);
        reveal(entry_exact);
    }
    assert(row_exact(15)) by (nonlinear_arith) {
        reveal(row_exact);
        reveal(entry_exact);
    }
    assert(row_exact(16)) by (nonlinear_arith) {
        reveal(row_exact);
        reveal(entry_exact);
    }
    assert(row_exact(17)) by (nonlinear_arith) {
        reveal(row_exact);
        reveal(entry_exact);
    }
    assert(row_exact(18)) by (nonlinear_arith) {
        reveal(row_exact);
        reveal(entry_exact);
    }
    assert(row_exact(19)) by (nonlinear_arith) {
        reveal(row_exact);
        reveal(entry_exact);
    }
    assert(row_exact(20)) by (nonlinear_arith) {
        reveal(row_exact);
        reveal(entry_exact);
    }
    assert(row_exact(21)) by (nonlinear_arith) {
        reveal(row_exact);
        reveal(entry_exact);
    }
    assert(row_exact(22)) by (nonlinear_arith) {
        reveal(row_exact);
        reveal(entry_exact);
    }
    assert(row_exact(23)) by (nonlinear_arith) {
        reveal(row_exact);
        reveal(entry_exact);
    }
    assert(row_exact(24)) by (nonlinear_arith) {
        reveal(row_exact);
        reveal(entry_exact);
    }
    assert(row_exact(25)) by (nonlinear_arith) {
        reveal(row_exact);
        reveal(entry_exact);
    }
    assert(row_exact(26)) by (nonlinear_arith) {
        reveal(row_exact);
        reveal(entry_exact);
    }
    assert(row_exact(27)) by (nonlinear_arith) {
        reveal(row_exact);
        reveal(entry_exact);
    }
    assert(row_exact(28)) by (nonlinear_arith) {
        reveal(row_exact);
        reveal(entry_exact);
    }
    assert(row_exact(29)) by (nonlinear_arith) {
        reveal(row_exact);
        reveal(entry_exact);
    }
    assert(row_exact(30)) by (nonlinear_arith) {
        reveal(row_exact);
        reveal(entry_exact);
    }
    assert(row_exact(31)) by (nonlinear_arith) {
        reveal(row_exact);
        reveal(entry_exact);
    }
}

/// Every entry of the table is right.
proof fn lemma_entry_exact(k: int)
    requires
        0 <= k <= 255,
    ensures
        entry_exact(k),
{
    lemma_row_exact(k / 8);
    reveal(row_exact);
}

/// `coscale` is the power of two that it is said to be.
proof fn lemma_coscale(e: int)
    requires
        114 <= e <= 126,
    ensures
        coscale(e) == pow2((150 - e) as nat),
        unit() == pow2((e - 1) as nat) * coscale(e),
        0 < pow2((e - 1) as nat),
        0 < coscale(e),
{
    lemma2_to64();
    lemma2_to64_rest();
    lemma_unit_is_pow2();
    lemma_pow2_adds((e - 1) as nat, (150 - e) as nat);
    lemma_pow2_pos((e - 1) as nat);
}

/// A normal sample without a sign whose fraction is not zero, and the
/// pattern before it, share the weight of their last bit.
proof fn lemma_neighbour_units(t: u32)
    requires
        HIDDEN_BIT <= t < INFINITY_BITS,
        t % HIDDEN_BIT >= 1,
    ensures
        units(t) == (HIDDEN_BIT + t % HIDDEN_BIT) * pow2((t / HIDDEN_BIT - 1) as nat),
        units((t - 1) as u32) == (HIDDEN_BIT + t % HIDDEN_BIT - 1) * pow2(
            (t / HIDDEN_BIT - 1) as nat,
        ),
{
}

/// The test of the power segment, divided by the fifth power of `p`:
/// for the value `m * p` units, where one unit of value is `p * c` units.
proof fn lemma_scaled_reach(m: int, p: int, c: int, k: int)
    requires
        0 < p,
        unit() == p * c,
    ensures
        power_reaches(m * p, k) <==> twelfth(10761) * fifth(m) >= twelfth(40 * k + 541) * fifth(
            c,
        ),
{
    lemma_twelfth(10761);
    lemma_twelfth(40 * k + 541);
    lemma_fifth(m);
    lemma_fifth(c);
    lemma_pow_distributes(m, p, 5);
    lemma_pow_distributes(p, c, 5);
    lemma_pow_positive(p, 5);
    let scale = pow(p, 5);
    let target = pow(40 * k + 541, 12);
    let rest = pow(c, 5);
    lemma_mul_is_associative(pow(10761, 12), pow(m, 5), scale);
    assert(target * (scale * rest) == (target * rest) * scale) by (nonlinear_arith);
    lemma_cancel_positive(pow(10761, 12) * pow(m, 5), target * rest, scale);
}

/// The test of the linear segment, divided by `p`: for the value `m * p`
/// units, where one unit of value is `p * c` units.
proof fn lemma_scaled_linear(m: int, p: int, c: int, k: int)
    requires
        0 < p,
        0 < c,
        unit() == p * c,
    ensures
        linear_code(m * p) >= k <==> 32946 * m + 5 * c >= 10 * k * c,
{
    let x = 32946 * (m * p) + 5 * unit();
    let d = 10 * unit();
    assert(x / d >= k <==> x >= k * d) by (nonlinear_arith)
        requires
            d > 0,
    ;
    assert(x == (32946 * m + 5 * c) * p) by (nonlinear_arith)
        requires
            x == 32946 * (m * p) + 5 * (p * c),
    ;
    assert(k * d == (10 * k * c) * p) by (nonlinear_arith)
        requires
            d == 10 * (p * c),
    ;
    lemma_cancel_positive(32946 * m + 5 * c, 10 * k * c, p);
}

/// Among finite samples without a sign, a larger pattern never has a
/// smaller code.
proof fn lemma_pattern_order(a: u32, b: u32)
    requires
        a <= b < INFINITY_BITS,
    ensures
        srgb_byte(a) <= srgb_byte(b),
{
    if a < b {
        lemma_magnitude_units_increasing(a, b);
    }
    lemma_encode_units_increases(units(a), units(b));
}

/// What the table promises: the entry of code `k` has a code of at least
/// `k`, and the pattern before it has a smaller one.
proof fn lemma_threshold(k: int)
    requires
        1 <= k <= 255,
    ensures
        0 < THRESHOLDS[k] < INFINITY_BITS,
        srgb_byte(THRESHOLDS[k]) >= k,
        srgb_byte((THRESHOLDS[k] - 1) as u32) < k,
{
    lemma_entry_exact(k);
    reveal(entry_exact);
    let t = THRESHOLDS[k];
    let before = (t - 1) as u32;
    let e = entry_exponent(k);
    let m = entry_significand(k);
    let c = coscale(e);
    let p = pow2((e - 1) as nat) as int;
    lemma_coscale(e);
    lemma_neighbour_units(t);
    lemma_magnitude_units_increasing(before, t);
    if k <= 10 {
        if t < KNEE_BITS {
            lemma_magnitude_units_increasing(t, KNEE_BITS);
        }
        lemma_scaled_linear(m, p, c, k);
        lemma_scaled_linear(m - 1, p, c, k);
    } else {
        lemma_magnitude_units_increasing(KNEE_BITS, before);
        lemma_scaled_reach(m, p, c, k);
        lemma_scaled_reach(m - 1, p, c, k);
        lemma_power_code_at_least(units(t), 255, k);
        lemma_power_code_below(units(before), 255, k);
    }
}

/// The sRGB code of one linear-light sample, given by its binary32
/// pattern.
pub fn encode_sample(bits: u32) -> (code: u8)
    ensures
        code == srgb_byte(bits),
{
    if bits >= SIGN_BIT {
        proof {
            lemma_nonpositive_code(bits);
        }
        return 0;
    }
    if bits >= INFINITY_BITS {
        return if bits == INFINITY_BITS {
            255
        } else {
            0
        };
    }
    let mut low: usize = 0;
    let mut high: usize = 256;
    while high - low > 1
        invariant
            low < high <= 256,
            bits < INFINITY_BITS,
            low == 0 || THRESHOLDS[low as int] <= bits,
            high == 256 || bits < THRESHOLDS[high as int],
        decreases high - low,
    {
        let middle: usize = low + (high - low) / 2;
        if THRESHOLDS[middle] <= bits {
            low = middle;
        } else {
            high = middle;
        }
    }
    proof {
        lemma_srgb_byte_range(bits);
        if low >= 1 {
            lemma_threshold(low as int);
            lemma_pattern_order(THRESHOLDS[low as int], bits);
        }
        if high <= 255 {
            lemma_threshold(high as int);
            lemma_pattern_order(bits, (THRESHOLDS[high as int] - 1) as u32);
        }
    }
    low as u8
}

/// A sample with the sign bit has the code 0, whether it is a negative
/// value, negative zero, negative infinity or a NaN.
proof fn lemma_nonpositive_code(bits: u32)
    requires
        bits >= SIGN_BIT,
    ensures
        srgb_byte(bits) == 0,
{
    if is_finite(bits) {
        lemma_magnitude_units_nonnegative(bits);
        lemma_knee_units();
        let u = units(bits);
        assert((32946 * u + 5 * unit()) / (10 * unit()) <= 0) by (nonlinear_arith)
            requires
                u <= 0,
                unit() > 0,
        ;
    }
}

} // verus!
