use linear_srgb::encode::encode_sample;

/// The code of a sample given as a number.
fn code_of(v: f32) -> u8 {
    encode_sample(v.to_bits())
}

/// The rule in double precision, which is exact enough wherever the scaled
/// value is not within a billionth of a half.
fn formula(v: f32) -> u8 {
    let v = v as f64;
    let encoded = if v <= 0.0031308 {
        12.92 * v
    } else {
        1.055 * v.powf(1.0 / 2.4) - 0.055
    };
    (encoded.clamp(0.0, 1.0) * 255.0).round() as u8
}

/// The rule in single precision from end to end.
fn single_precision(v: f32) -> u8 {
    let encoded = if v <= 0.0031308 {
        12.92 * v
    } else {
        1.055 * v.powf(1.0 / 2.4) - 0.055
    };
    (encoded.clamp(0.0, 1.0) * 255.0).round() as u8
}

/// The smallest pattern from 0 to that of 1.0 whose code is at least `k`.
fn threshold(k: u8) -> u32 {
    let mut low: u32 = 0;
    let mut high: u32 = 1.0f32.to_bits();
    while high - low > 1 {
        let middle = low + (high - low) / 2;
        if encode_sample(middle) >= k {
            high = middle;
        } else {
            low = middle;
        }
    }
    high
}

#[test]
fn zero_encodes_to_zero() {
    assert_eq!(code_of(0.0), 0);
    assert_eq!(code_of(-0.0), 0);
    assert_eq!(encode_sample(0x0000_0000), 0);
    assert_eq!(encode_sample(0x8000_0000), 0);
}

#[test]
fn one_encodes_to_full_scale() {
    assert_eq!(code_of(1.0), 255);
    assert_eq!(encode_sample(0x3f80_0000), 255);
}

#[test]
fn knee_takes_the_linear_segment() {
    let knee: f32 = 0.0031308;
    assert_eq!(knee.to_bits(), 0x3b4d_2e1c);
    let linear = (12.92 * knee as f64 * 255.0).round() as u8;
    assert_eq!(linear, 10);
    assert_eq!(code_of(knee), linear);
}

#[test]
fn segments_meet_at_the_knee() {
    let knee: f32 = 0.0031308;
    let above = f32::from_bits(knee.to_bits() + 1);
    let power = ((1.055 * (above as f64).powf(1.0 / 2.4) - 0.055) * 255.0).round() as u8;
    assert_eq!(power, 10);
    assert_eq!(code_of(above), power);
    assert!(code_of(above) - code_of(knee) <= 1);
}

#[test]
fn negative_samples_clamp_to_zero() {
    assert_eq!(code_of(-1.0), 0);
    assert_eq!(code_of(-0.5), 0);
    assert_eq!(code_of(-0.001), 0);
    assert_eq!(code_of(-1.0e-40), 0);
    assert_eq!(code_of(f32::MIN), 0);
    assert_eq!(code_of(f32::NEG_INFINITY), 0);
}

#[test]
fn large_samples_clamp_to_full_scale() {
    assert_eq!(code_of(2.0), 255);
    assert_eq!(code_of(f32::from_bits(0x3f80_0001)), 255);
    assert_eq!(code_of(1.0e10), 255);
    assert_eq!(code_of(f32::MAX), 255);
    assert_eq!(code_of(f32::INFINITY), 255);
}

#[test]
fn nan_encodes_to_zero() {
    assert_eq!(code_of(f32::NAN), 0);
    assert_eq!(encode_sample(0x7fc0_0000), 0);
    assert_eq!(encode_sample(0x7f80_0001), 0);
    assert_eq!(encode_sample(0x7fff_ffff), 0);
    assert_eq!(encode_sample(0xffc0_0000), 0);
    assert_eq!(encode_sample(0xff80_0001), 0);
}

#[test]
fn subnormal_samples_encode_to_zero() {
    assert_eq!(encode_sample(0x0000_0001), 0);
    assert_eq!(encode_sample(0x007f_ffff), 0);
    assert_eq!(code_of(f32::MIN_POSITIVE), 0);
}

#[test]
fn known_codes() {
    let cases: [(f32, u8); 19] = [
        (0.0, 0),
        (0.0001, 0),
        (0.001, 3),
        (0.002, 7),
        (0.003, 10),
        (0.0031308, 10),
        (0.004, 13),
        (0.01, 25),
        (0.05, 63),
        (0.1, 89),
        (0.18, 118),
        (0.2, 124),
        (0.25, 137),
        (0.5, 188),
        (0.75, 225),
        (0.9, 243),
        (0.99, 254),
        (0.999, 255),
        (1.0, 255),
    ];
    for (v, code) in cases {
        assert_eq!(code_of(v), code, "sample {}", v);
    }
}

#[test]
fn half_is_188() {
    // 1.055 * 0.5^(1/2.4) - 0.055 = 0.73536, and 255 times that is 187.52.
    let scaled = (1.055 * 0.5f64.powf(1.0 / 2.4) - 0.055) * 255.0;
    assert!(187.51 < scaled && scaled < 187.52);
    assert_eq!(code_of(0.5), 188);
}

#[test]
fn tiny_samples_follow_the_formula() {
    let mut bits: u32 = 0;
    while bits <= 0x3900_0000 {
        let v = f32::from_bits(bits);
        assert_eq!(encode_sample(bits), formula(v), "pattern {:#010x}", bits);
        bits += 0x0010_0003;
    }
}

#[test]
fn linear_segment_follows_the_formula() {
    let mut bits: u32 = 0x3900_0000;
    while bits <= 0x3b4d_2e1c {
        let v = f32::from_bits(bits);
        let expected = (12.92 * v as f64 * 255.0).round() as u8;
        assert_eq!(encode_sample(bits), expected, "pattern {:#010x}", bits);
        bits += 0x1005;
    }
}

#[test]
fn power_segment_follows_the_formula() {
    let mut bits: u32 = 0x3b4d_2e1d;
    while bits <= 0x3f80_0000 {
        let v = f32::from_bits(bits) as f64;
        let expected = ((1.055 * v.powf(1.0 / 2.4) - 0.055) * 255.0).round() as u8;
        assert_eq!(encode_sample(bits), expected, "pattern {:#010x}", bits);
        bits += 0x3001;
    }
}

#[test]
fn samples_above_one_follow_the_formula() {
    let mut bits: u32 = 0x3f80_0000;
    while bits <= 0x7f7f_ffff {
        let v = f32::from_bits(bits);
        assert_eq!(encode_sample(bits), formula(v), "pattern {:#010x}", bits);
        assert_eq!(encode_sample(bits), 255);
        bits += 0x0010_0003;
    }
}

#[test]
fn codes_never_decrease() {
    let mut previous = encode_sample(0);
    let mut bits: u32 = 0;
    while bits <= 0x7f80_0000 {
        let code = encode_sample(bits);
        assert!(previous <= code, "pattern {:#010x}", bits);
        previous = code;
        bits += 0x1003;
    }
    assert_eq!(previous, 255);
}

#[test]
fn codes_never_decrease_between_chosen_samples() {
    let samples: [f32; 14] = [
        f32::NEG_INFINITY,
        -3.0,
        -0.0,
        0.0,
        1.0e-6,
        0.0015,
        0.0031308,
        0.0031309,
        0.02,
        0.3,
        0.7,
        1.0,
        5.0,
        f32::INFINITY,
    ];
    for pair in samples.windows(2) {
        assert!(pair[0] <= pair[1]);
        assert!(code_of(pair[0]) <= code_of(pair[1]), "{} and {}", pair[0], pair[1]);
    }
}

#[test]
fn every_code_is_reached() {
    let mut seen = [false; 256];
    let mut bits: u32 = 0;
    while bits <= 0x3f80_0000 {
        seen[encode_sample(bits) as usize] = true;
        bits += 0x0101;
    }
    assert!(seen.iter().all(|&s| s));
}

#[test]
fn every_threshold_is_where_the_formula_puts_it() {
    for k in 1..=255u8 {
        let at = threshold(k);
        assert_eq!(encode_sample(at), k, "code {}", k);
        assert_eq!(encode_sample(at - 1), k - 1, "code {}", k);
        assert_eq!(formula(f32::from_bits(at)), k, "code {}", k);
        assert_eq!(formula(f32::from_bits(at - 1)), k - 1, "code {}", k);
    }
}

#[test]
fn first_and_last_thresholds() {
    assert_eq!(threshold(1), 0x391f_22b4);
    assert_eq!(threshold(10), 0x3b3c_f936);
    assert_eq!(threshold(11), 0x3b50_f2d1);
    assert_eq!(threshold(255), 0x3f7e_dc0e);
}

#[test]
fn rounding_is_exact_just_below_a_half() {
    // 3294.6 times this sample is 3.49999989: below the half, though two
    // roundings in single precision carry it up to 3.5.
    let bits: u32 = 0x3a8b_3e5d;
    let scaled = 3294.6 * f32::from_bits(bits) as f64;
    assert!(scaled < 3.5);
    assert!(scaled > 3.4999);
    assert_eq!(encode_sample(bits), 3);
    assert_eq!(encode_sample(bits + 1), 4);
}

#[test]
fn single_precision_is_within_one_code() {
    let mut bits: u32 = 0x3800_0000;
    while bits <= 0x3f80_0000 {
        let exact = encode_sample(bits) as i32;
        let single = single_precision(f32::from_bits(bits)) as i32;
        assert!((exact - single).abs() <= 1, "pattern {:#010x}", bits);
        bits += 0x3001;
    }
}

#[test]
fn sign_bit_alone_decides_for_negative_patterns() {
    let mut bits: u32 = 0x8000_0000;
    loop {
        assert_eq!(encode_sample(bits), 0, "pattern {:#010x}", bits);
        if bits > 0xffff_ffff - 0x0010_0003 {
            break;
        }
        bits += 0x0010_0003;
    }
    assert_eq!(encode_sample(0xffff_ffff), 0);
}
