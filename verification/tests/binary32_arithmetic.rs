//! The bit-pattern arithmetic, held against the machine's own single-precision
//! arithmetic.

use edge_worker::binary32::Binary32;

fn b(x: f32) -> Binary32 {
    Binary32::from_bits(x.to_bits())
}

fn same(expected: f32, got: Binary32) -> bool {
    if expected.is_nan() {
        got.is_nan()
    } else {
        expected.to_bits() == got.to_bits()
    }
}

/// A fixed, well-mixed sequence of 32-bit patterns.
fn next_pattern(state: &mut u64) -> u32 {
    *state = state.wrapping_mul(6364136223846793005).wrapping_add(1442695040888963407);
    (*state >> 32) as u32
}

fn special_values() -> Vec<f32> {
    vec![
        0.0,
        -0.0,
        1.0,
        -1.0,
        0.1,
        0.5,
        2.0,
        255.0,
        256.0,
        0.3,
        0.7,
        0.8,
        1.5,
        100.0,
        1.0e-40,
        -1.0e-40,
        f32::MIN_POSITIVE,
        f32::MAX,
        f32::MIN,
        f32::EPSILON,
        f32::INFINITY,
        f32::NEG_INFINITY,
        f32::NAN,
        f32::from_bits(1),
        f32::from_bits(0x007f_ffff),
        f32::from_bits(0x0080_0001),
        f32::from_bits(0x7f7f_ffff),
        f32::from_bits(0x3f7f_ffff),
        f32::from_bits(0x3f80_0001),
        16777216.0,
        16777217.0,
        3.4e38,
        1.0e-38,
    ]
}

#[test]
fn addition_matches_hardware_on_special_values() {
    let values = special_values();
    for &x in values.iter() {
        for &y in values.iter() {
            assert!(same(x + y, b(x).add(b(y))), "{:?} + {:?}", x, y);
        }
    }
}

#[test]
fn subtraction_matches_hardware_on_special_values() {
    let values = special_values();
    for &x in values.iter() {
        for &y in values.iter() {
            assert!(same(x - y, b(x).sub(b(y))), "{:?} - {:?}", x, y);
        }
    }
}

#[test]
fn multiplication_matches_hardware_on_special_values() {
    let values = special_values();
    for &x in values.iter() {
        for &y in values.iter() {
            assert!(same(x * y, b(x).mul(b(y))), "{:?} * {:?}", x, y);
        }
    }
}

#[test]
fn comparison_matches_hardware_on_special_values() {
    let values = special_values();
    for &x in values.iter() {
        for &y in values.iter() {
            assert_eq!(x < y, b(x).lt(b(y)), "{:?} < {:?}", x, y);
            assert_eq!(x > y, b(x).gt(b(y)), "{:?} > {:?}", x, y);
        }
    }
}

#[test]
fn arithmetic_matches_hardware_on_mixed_patterns() {
    let mut state: u64 = 0x1234_5678_9abc_def0;
    let mut round: u32 = 0;
    while round < 200_000 {
        let x = f32::from_bits(next_pattern(&mut state));
        let y = f32::from_bits(next_pattern(&mut state));
        assert!(same(x + y, b(x).add(b(y))), "{:?} + {:?}", x, y);
        assert!(same(x - y, b(x).sub(b(y))), "{:?} - {:?}", x, y);
        assert!(same(x * y, b(x).mul(b(y))), "{:?} * {:?}", x, y);
        assert_eq!(x < y, b(x).lt(b(y)), "{:?} < {:?}", x, y);
        round += 1;
    }
}

#[test]
fn addition_matches_hardware_on_close_exponents() {
    // Operands whose exponents differ by little, where rounding and
    // cancellation happen.
    let mut state: u64 = 0x0fed_cba9_8765_4321;
    let mut round: u32 = 0;
    while round < 200_000 {
        let first = next_pattern(&mut state);
        let second = next_pattern(&mut state);
        let exponent = (first >> 23) & 0xff;
        let shift = second % 60;
        let other_exponent = (exponent + 30).saturating_sub(shift).min(254);
        let y_bits = (second & 0x807f_ffff) | (other_exponent << 23);
        let x = f32::from_bits(first);
        let y = f32::from_bits(y_bits);
        assert!(same(x + y, b(x).add(b(y))), "{:?} + {:?}", x, y);
        assert!(same(x - y, b(x).sub(b(y))), "{:?} - {:?}", x, y);
        round += 1;
    }
}

#[test]
fn multiplication_matches_hardware_near_the_subnormal_range() {
    let mut state: u64 = 0x5555_aaaa_3333_cccc;
    let mut round: u32 = 0;
    while round < 200_000 {
        let first = next_pattern(&mut state);
        let second = next_pattern(&mut state);
        // Exponents that sum to about the least normal exponent.
        let e1 = (first >> 23) & 0x7f;
        let e2 = 0x7f - e1 + (second >> 29);
        let x = f32::from_bits((first & 0x807f_ffff) | (e1 << 23));
        let y = f32::from_bits((second & 0x807f_ffff) | ((e2 & 0xff) << 23));
        assert!(same(x * y, b(x).mul(b(y))), "{:?} * {:?}", x, y);
        round += 1;
    }
}

#[test]
fn arithmetic_matches_hardware_on_tiny_numbers() {
    // Zeros, subnormals and the least normal numbers.
    let mut state: u64 = 0x7777_1111_9999_2222;
    let mut round: u32 = 0;
    while round < 200_000 {
        let first = next_pattern(&mut state);
        let second = next_pattern(&mut state);
        let x = f32::from_bits(first & 0x81ff_ffff);
        let y = f32::from_bits(second & 0x81ff_ffff);
        assert!(same(x + y, b(x).add(b(y))), "{:?} + {:?}", x, y);
        assert!(same(x - y, b(x).sub(b(y))), "{:?} - {:?}", x, y);
        assert!(same(x * y, b(x).mul(b(y))), "{:?} * {:?}", x, y);
        assert_eq!(x < y, b(x).lt(b(y)), "{:?} < {:?}", x, y);
        round += 1;
    }
}

#[test]
fn arithmetic_matches_hardware_on_huge_numbers() {
    // The largest finite numbers, infinities and NaNs.
    let mut state: u64 = 0x2468_ace0_1357_9bdf;
    let mut round: u32 = 0;
    while round < 200_000 {
        let first = next_pattern(&mut state);
        let second = next_pattern(&mut state);
        let x = f32::from_bits(first | 0x7e00_0000);
        let y = f32::from_bits(second | 0x7e00_0000);
        assert!(same(x + y, b(x).add(b(y))), "{:?} + {:?}", x, y);
        assert!(same(x - y, b(x).sub(b(y))), "{:?} - {:?}", x, y);
        assert_eq!(x < y, b(x).lt(b(y)), "{:?} < {:?}", x, y);
        // Products that land about the largest finite number.
        let z = f32::from_bits((second & 0x807f_ffff) | 0x4000_0000 | ((second >> 9) & 0x0080_0000));
        assert!(same(x * z, b(x).mul(b(z))), "{:?} * {:?}", x, z);
        round += 1;
    }
}

#[test]
fn ties_round_to_the_even_significand() {
    // 2^24 + 1 lies midway between 2^24 and 2^24 + 2.
    assert_eq!(b(16777216.0).add(b(1.0)).to_bits(), 16777216.0f32.to_bits());
    // 2^24 + 3 lies midway between 2^24 + 2 and 2^24 + 4.
    assert_eq!(b(16777218.0).add(b(1.0)).to_bits(), 16777220.0f32.to_bits());
    // Half of the least subnormal rounds to zero, one and a half of it to two.
    let least = f32::from_bits(1);
    assert_eq!(b(least).mul(b(0.5)).to_bits(), 0);
    assert_eq!(b(f32::from_bits(3)).mul(b(0.5)).to_bits(), 2);
    // The largest finite number and a half unit in its last place overflow.
    assert_eq!(b(f32::MAX).add(b(f32::from_bits(0x7300_0000))).to_bits(), f32::INFINITY.to_bits());
    assert_eq!(b(f32::MAX).add(b(f32::from_bits(0x72ff_ffff))).to_bits(), f32::MAX.to_bits());
    // Exact cancellation gives a positive zero, unless both operands are negative zeros.
    assert_eq!(b(1.5).sub(b(1.5)).to_bits(), 0);
    assert_eq!(b(-1.5).add(b(1.5)).to_bits(), 0);
    assert_eq!(b(-0.0).add(b(-0.0)).to_bits(), 0x8000_0000);
    assert_eq!(b(-0.0).add(b(0.0)).to_bits(), 0);
    // Infinity minus infinity and zero times infinity are not numbers.
    assert!(b(f32::INFINITY).sub(b(f32::INFINITY)).is_nan());
    assert!(b(0.0).mul(b(f32::NEG_INFINITY)).is_nan());
}

#[test]
fn bytes_convert_exactly() {
    let mut n: u32 = 0;
    while n < 256 {
        let byte = n as u8;
        assert_eq!((byte as f32).to_bits(), Binary32::from_u8(byte).to_bits());
        n += 1;
    }
}

#[test]
fn byte_fractions_match_hardware_division() {
    let mut n: u32 = 0;
    while n < 256 {
        let byte = n as u8;
        let expected = byte as f32 / 255.0;
        assert_eq!(expected.to_bits(), Binary32::from_byte_fraction(byte).to_bits(), "{}", n);
        n += 1;
    }
}

#[test]
fn conversion_to_byte_truncates_and_saturates() {
    let values: Vec<f32> = vec![
        0.0, -0.0, 0.5, 0.999, 1.0, 1.5, 126.99999, 127.0, 127.5, 254.0, 254.99998, 255.0,
        255.5, 256.0, 1000.0, -0.5, -1.0, -300.0, 1.0e-40, 3.0e38,
        f32::INFINITY, f32::NEG_INFINITY, f32::NAN,
    ];
    for &x in values.iter() {
        assert_eq!(x as u8, b(x).to_u8(), "{:?}", x);
    }
    let mut state: u64 = 0x0bad_cafe_dead_beef;
    let mut round: u32 = 0;
    while round < 200_000 {
        let x = f32::from_bits(next_pattern(&mut state));
        assert_eq!(x as u8, b(x).to_u8(), "{:?}", x);
        round += 1;
    }
    // Numbers around the byte range.
    let mut quarter: u32 = 0;
    while quarter < 1100 {
        let x = quarter as f32 * 0.25;
        assert_eq!(x as u8, b(x).to_u8(), "{:?}", x);
        quarter += 1;
    }
}

#[test]
fn negation_and_absolute_value_match_hardware() {
    for &x in special_values().iter() {
        assert!(same(-x, b(x).neg()), "-{:?}", x);
        assert!(same(x.abs(), b(x).abs()), "|{:?}|", x);
    }
}

#[test]
fn classification_matches_hardware() {
    for &x in special_values().iter() {
        assert_eq!(x.is_nan(), b(x).is_nan());
        assert_eq!(x.is_infinite(), b(x).is_infinite());
        assert_eq!(x == 0.0, b(x).is_zero());
        assert_eq!(x.is_sign_negative(), b(x).is_sign_negative());
    }
}

#[test]
fn constants_have_their_values() {
    assert_eq!(1.0f32.to_bits(), Binary32::one().to_bits());
    assert_eq!(0.0f32.to_bits(), Binary32::zero(false).to_bits());
    assert_eq!((-0.0f32).to_bits(), Binary32::zero(true).to_bits());
    assert_eq!(f32::INFINITY.to_bits(), Binary32::infinity(false).to_bits());
    assert_eq!(f32::NEG_INFINITY.to_bits(), Binary32::infinity(true).to_bits());
    assert!(f32::from_bits(Binary32::nan().to_bits()).is_nan());
}
