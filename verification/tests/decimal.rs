use signal_pipeline::decimal::format_fixed7;

fn text(value: f32) -> String {
    String::from_utf8(format_fixed7(value.to_bits())).unwrap()
}

#[test]
fn fixed7_writes_seven_fractional_digits() {
    assert_eq!(text(1.2345678), "1.2345678");
    assert_eq!(text(1.1111112), "1.1111112");
    assert_eq!(text(1.125), "1.1250000");
    assert_eq!(text(0.0), "0.0000000");
    assert_eq!(text(20.0), "20.0000000");
    assert_eq!(text(-20.0), "-20.0000000");
    assert_eq!(text(0.5), "0.5000000");
    assert_eq!(text(-0.0872665), "-0.0872665");
}

#[test]
fn fixed7_writes_the_value_that_the_pattern_holds() {
    // The binary32 number nearest to 1.1111111 is 1.11111104488372802734375.
    assert_eq!(1.1111111f32.to_bits(), 0x3f8e_38e3);
    assert_eq!(text(1.1111111), "1.1111110");
    assert_eq!(text(1.1111111), format!("{:.7}", 1.1111111f32));
}

#[test]
fn fixed7_rounds_ties_to_even() {
    // 2^-8 = 0.00390625 lies half way between two texts.
    assert_eq!(text(0.00390625), "0.0039062");
    // 3 * 2^-8 = 0.01171875 lies half way too, and goes up to the even digit.
    assert_eq!(text(0.01171875), "0.0117188");
    assert_eq!(text(-0.00390625), "-0.0039062");
}

#[test]
fn fixed7_keeps_the_sign_of_what_rounds_to_zero() {
    assert_eq!(text(-0.0), "-0.0000000");
    assert_eq!(text(-1.0e-9), "-0.0000000");
    assert_eq!(text(1.0e-9), "0.0000000");
    assert_eq!(text(f32::from_bits(1)), "0.0000000");
}

#[test]
fn fixed7_writes_the_largest_number_in_full() {
    assert_eq!(text(f32::MAX), "340282346638528859811704183484516925440.0000000");
    assert_eq!(text(f32::MIN), "-340282346638528859811704183484516925440.0000000");
    assert_eq!(text(f32::MIN).len(), 48);
    assert_eq!(text(16777216.0), "16777216.0000000");
}

#[test]
fn fixed7_names_what_is_not_a_number() {
    assert_eq!(text(f32::NAN), "NaN");
    assert_eq!(text(-f32::NAN), "NaN");
    assert_eq!(text(f32::INFINITY), "inf");
    assert_eq!(text(f32::NEG_INFINITY), "-inf");
}

#[test]
fn fixed7_agrees_with_the_standard_formatter() {
    let mut rng = fastrand::Rng::with_seed(2024);
    for _ in 0..200_000 {
        let bits = rng.u32(..);
        let value = f32::from_bits(bits);
        assert_eq!(text(value), format!("{:.7}", value), "{:#010x}", bits);
    }
}

#[test]
fn fixed7_agrees_with_the_standard_formatter_near_one() {
    let mut rng = fastrand::Rng::with_seed(11);
    for _ in 0..200_000 {
        let field = rng.u32(90..140);
        let bits = (rng.u32(..) & 0x807f_ffff) | (field << 23);
        let value = f32::from_bits(bits);
        assert_eq!(text(value), format!("{:.7}", value), "{:#010x}", bits);
    }
    for numerator in 0u32..4096 {
        let value = numerator as f32 / 256.0;
        assert_eq!(text(value), format!("{:.7}", value));
    }
}
