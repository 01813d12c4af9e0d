use signal_pipeline::binary32::{
    divided_by, finite, nan, parts, plus, INFINITY, QUIET_NAN, SIGN_BIT,
};

fn same(expected: f32, got: u32) -> bool {
    if expected.is_nan() {
        got == QUIET_NAN
    } else {
        expected.to_bits() == got
    }
}

#[test]
fn plus_matches_hardware_on_random_patterns() {
    let mut rng = fastrand::Rng::with_seed(0x5eed);
    for _ in 0..400_000 {
        let a = rng.u32(..);
        let b = rng.u32(..);
        let expected = f32::from_bits(a) + f32::from_bits(b);
        assert!(same(expected, plus(a, b)), "{:#010x} + {:#010x}", a, b);
    }
}

#[test]
fn plus_matches_hardware_on_close_exponents() {
    let mut rng = fastrand::Rng::with_seed(7);
    for _ in 0..400_000 {
        let a = rng.u32(..);
        let shift = rng.u32(0..60);
        let field = ((a >> 23) & 0xff).saturating_sub(shift.saturating_sub(30));
        let b = (rng.u32(..) & 0x807f_ffff) | (field << 23);
        let expected = f32::from_bits(a) + f32::from_bits(b);
        assert!(same(expected, plus(a, b)), "{:#010x} + {:#010x}", a, b);
    }
}

#[test]
fn plus_handles_zeros_and_infinities() {
    let zero = 0.0f32.to_bits();
    let minus_zero = (-0.0f32).to_bits();
    assert_eq!(plus(zero, minus_zero), zero);
    assert_eq!(plus(minus_zero, minus_zero), minus_zero);
    assert_eq!(plus(1.5f32.to_bits(), (-1.5f32).to_bits()), zero);
    let inf = f32::INFINITY.to_bits();
    let minus_inf = f32::NEG_INFINITY.to_bits();
    assert_eq!(plus(inf, minus_inf), QUIET_NAN);
    assert_eq!(plus(inf, 1.0f32.to_bits()), inf);
    assert_eq!(plus(1.0f32.to_bits(), minus_inf), minus_inf);
    assert_eq!(plus(f32::MAX.to_bits(), f32::MAX.to_bits()), inf);
    assert_eq!(plus(f32::NAN.to_bits(), 1.0f32.to_bits()), QUIET_NAN);
}

#[test]
fn plus_gives_documented_values() {
    assert_eq!(plus(20.0f32.to_bits(), 0.5f32.to_bits()), 20.5f32.to_bits());
    assert_eq!(plus((-20.0f32).to_bits(), 0.25f32.to_bits()), (-19.75f32).to_bits());
    // 1 + 2^-24 is a tie and goes to the even neighbour, 1.
    assert_eq!(plus(1.0f32.to_bits(), 0x3380_0000), 1.0f32.to_bits());
    // 1 + 3 * 2^-24 is a tie and goes to the even neighbour, 1 + 2^-22.
    assert_eq!(plus(1.0f32.to_bits(), 0x3440_0000), 0x3f80_0002);
}

#[test]
fn divided_by_matches_hardware() {
    let mut rng = fastrand::Rng::with_seed(99);
    for _ in 0..300_000 {
        let a = rng.u32(..);
        let count = if rng.bool() { rng.u32(1..=8) } else { rng.u32(1..=0xff_ffff) };
        let expected = f32::from_bits(a) / count as f32;
        assert!(same(expected, divided_by(a, count as u64)), "{:#010x} / {}", a, count);
    }
}

#[test]
fn divided_by_rounds_subnormal_results() {
    for a in 0u32..4096 {
        for count in 1u32..=8 {
            let expected = f32::from_bits(a) / count as f32;
            assert_eq!(expected.to_bits(), divided_by(a, count as u64));
            let negative = a | 0x8000_0000;
            let expected = f32::from_bits(negative) / count as f32;
            assert_eq!(expected.to_bits(), divided_by(negative, count as u64));
        }
    }
}

#[test]
fn parts_take_a_pattern_apart() {
    let one = parts(1.0f32.to_bits());
    assert!(!one.negative);
    assert_eq!(one.significand, 0x80_0000);
    assert_eq!(one.scale, 126);
    let high = parts(20.0f32.to_bits());
    assert_eq!((high.negative, high.significand, high.scale), (false, 0xa0_0000, 130));
    let low = parts((-20.0f32).to_bits());
    assert_eq!((low.negative, low.significand, low.scale), (true, 0xa0_0000, 130));
    let least = parts(1);
    assert_eq!((least.negative, least.significand, least.scale), (false, 1, 0));
    let zero = parts(SIGN_BIT);
    assert_eq!((zero.negative, zero.significand, zero.scale), (true, 0, 0));
    let most = parts(f32::MAX.to_bits());
    assert_eq!((most.negative, most.significand, most.scale), (false, 0xff_ffff, 253));
}

#[test]
fn finite_and_nan_tell_the_classes_apart() {
    assert!(finite(0) && finite(SIGN_BIT) && finite(1) && finite(f32::MAX.to_bits()));
    assert!(!finite(INFINITY) && !finite(f32::NEG_INFINITY.to_bits()) && !finite(QUIET_NAN));
    assert!(nan(QUIET_NAN) && nan(0x7f80_0001) && nan(0xffff_ffff));
    assert!(!nan(INFINITY) && !nan(0) && !nan(f32::MIN.to_bits()));
    assert_eq!(INFINITY, f32::INFINITY.to_bits());
    assert_eq!(SIGN_BIT, (-0.0f32).to_bits());
    assert!(f32::from_bits(QUIET_NAN).is_nan());
}

#[test]
fn divided_by_zero_follows_the_standard() {
    assert_eq!(divided_by(1.0f32.to_bits(), 0), f32::INFINITY.to_bits());
    assert_eq!(divided_by((-1.0f32).to_bits(), 0), f32::NEG_INFINITY.to_bits());
    assert_eq!(divided_by(0, 0), QUIET_NAN);
    assert_eq!(divided_by(SIGN_BIT, 0), QUIET_NAN);
    assert_eq!(divided_by(INFINITY, 0), INFINITY);
    assert_eq!(divided_by(QUIET_NAN, 0), QUIET_NAN);
    assert!((0.0f32 / 0.0).is_nan());
}

#[test]
fn divided_by_takes_large_counts() {
    let mut rng = fastrand::Rng::with_seed(31);
    for _ in 0..100_000 {
        let a = rng.u32(..);
        let shift = rng.u32(0..40);
        let count = 1u64 << shift;
        let expected = f32::from_bits(a) / count as f32;
        assert!(same(expected, divided_by(a, count)), "{:#010x} / {}", a, count);
    }
    let expected = f32::MAX / 18446744073709551616.0;
    assert_eq!(divided_by(f32::MAX.to_bits(), u64::MAX), expected.to_bits());
}
