use signal_pipeline::filter::{average, FilterStage, SINE_CAPACITY, SQUARE_CAPACITY};
use signal_pipeline::generator::SineGenerator;
use signal_pipeline::sample::{PublishedSample, RawSample, SignalKind};

fn float_mean(values: &[f32]) -> f32 {
    values.iter().sum::<f32>() / values.len() as f32
}

fn filtered(sample: PublishedSample) -> f32 {
    f32::from_bits(sample.filtered())
}

#[test]
fn capacities_are_eight_and_four() {
    assert_eq!(SINE_CAPACITY, 8);
    assert_eq!(SQUARE_CAPACITY, 4);
}

#[test]
fn sine_without_noise_is_averaged_over_eight_ticks() {
    let mut generator = SineGenerator::new();
    let mut stage = FilterStage::new();
    let mut raws = Vec::new();
    let mut last = None;
    for tick in 1..=8u32 {
        let angle = f32::from_bits(generator.tick(0.0f32.to_bits()));
        assert!((angle - 0.0872665 * tick as f32).abs() < 1.0e-6);
        let raw = libm::sinf(angle);
        raws.push(raw);
        last = Some(stage.process(RawSample::Sine(raw.to_bits())));
    }
    let out = last.unwrap();
    assert_eq!(out.kind(), SignalKind::Sine);
    assert_eq!(out.raw(), raws[7].to_bits());
    assert_eq!(out.filtered(), float_mean(&raws).to_bits());
    let ideal: f64 = (1..=8).map(|k| (0.0872665f64 * k as f64).sin()).sum::<f64>() / 8.0;
    assert!((filtered(out) as f64 - ideal).abs() < 1.0e-6);
}

#[test]
fn partial_fill_divides_by_the_number_held() {
    let mut stage = FilterStage::new();
    let values = [1.5f32, -0.25, 3.0];
    let first = stage.process(RawSample::Sine(values[0].to_bits()));
    assert_eq!(filtered(first), 1.5);
    let second = stage.process(RawSample::Sine(values[1].to_bits()));
    assert_eq!(filtered(second), 0.625);
    let third = stage.process(RawSample::Sine(values[2].to_bits()));
    assert_eq!(filtered(third).to_bits(), ((1.5f32 - 0.25 + 3.0) / 3.0).to_bits());
    assert_ne!(filtered(third), (1.5f32 - 0.25 + 3.0) / 8.0);
}

#[test]
fn constant_input_comes_out_unchanged() {
    for &value in &[0.0f32, 0.5, -20.0, 20.0, 1.0, -0.75, 1024.0] {
        let mut stage = FilterStage::new();
        for _ in 0..20 {
            let sine = stage.process(RawSample::Sine(value.to_bits()));
            assert_eq!(sine.filtered(), value.to_bits());
            let square = stage.process(RawSample::Square(value.to_bits()));
            assert_eq!(square.filtered(), value.to_bits());
        }
    }
}

#[test]
fn constant_square_input_comes_out_unchanged_whatever_the_value() {
    let mut rng = fastrand::Rng::with_seed(1234);
    for _ in 0..20_000 {
        let bits = rng.u32(..);
        let value = f32::from_bits(bits);
        if !(value * 4.0).is_finite() {
            continue;
        }
        let mut stage = FilterStage::new();
        let mut last = 0;
        for _ in 0..6 {
            last = stage.process(RawSample::Square(bits)).filtered();
        }
        assert_eq!(last, bits, "{:#010x}", bits);
    }
}

#[test]
fn constant_input_with_a_full_significand_may_round() {
    // Eight copies of 1 + 2^-22 add up, each sum rounded, to 8 + 2^-20.
    let value = f32::from_bits(0x3f80_0002);
    let mut stage = FilterStage::new();
    let mut last = 0;
    for _ in 0..8 {
        last = stage.process(RawSample::Sine(value.to_bits())).filtered();
    }
    assert_eq!(last, float_mean(&[value; 8]).to_bits());
    assert_eq!(last, 0x3f80_0001);
}

#[test]
fn full_history_forgets_the_oldest_value() {
    let mut stage = FilterStage::new();
    for k in 1..=4 {
        stage.process(RawSample::Square((k as f32).to_bits()));
    }
    // 5 overwrites 1: the history holds 5, 2, 3, 4.
    let out = stage.process(RawSample::Square(5.0f32.to_bits()));
    assert_eq!(filtered(out), 3.5);
    let out = stage.process(RawSample::Square(6.0f32.to_bits()));
    assert_eq!(filtered(out), 4.5);
    let mut sine = FilterStage::new();
    for k in 1..=8 {
        sine.process(RawSample::Sine((k as f32).to_bits()));
    }
    let out = sine.process(RawSample::Sine(17.0f32.to_bits()));
    assert_eq!(filtered(out), 6.5);
}

#[test]
fn waveforms_do_not_share_history() {
    let mut stage = FilterStage::new();
    let a = stage.process(RawSample::Sine(1.0f32.to_bits()));
    let b = stage.process(RawSample::Square((-20.0f32).to_bits()));
    let c = stage.process(RawSample::Sine(3.0f32.to_bits()));
    let d = stage.process(RawSample::Square(20.0f32.to_bits()));
    assert_eq!(a, PublishedSample::Sine(1.0f32.to_bits(), 1.0f32.to_bits()));
    assert_eq!(b, PublishedSample::Square((-20.0f32).to_bits(), (-20.0f32).to_bits()));
    assert_eq!(c, PublishedSample::Sine(3.0f32.to_bits(), 2.0f32.to_bits()));
    assert_eq!(d, PublishedSample::Square(20.0f32.to_bits(), 0.0f32.to_bits()));
}

#[test]
fn filter_agrees_with_float_arithmetic_in_storage_order() {
    let mut rng = fastrand::Rng::with_seed(77);
    let mut stage = FilterStage::new();
    let mut sine = [0.0f32; 8];
    let mut square = [0.0f32; 4];
    let mut sine_count = 0usize;
    let mut square_count = 0usize;
    for _ in 0..5000 {
        let value = (rng.f32() - 0.5) * 40.0;
        if rng.bool() {
            sine[sine_count % 8] = value;
            sine_count += 1;
            let held = sine_count.min(8);
            let out = stage.process(RawSample::Sine(value.to_bits()));
            assert_eq!(out.filtered(), float_mean(&sine[..held]).to_bits());
        } else {
            square[square_count % 4] = value;
            square_count += 1;
            let held = square_count.min(4);
            let out = stage.process(RawSample::Square(value.to_bits()));
            assert_eq!(out.filtered(), float_mean(&square[..held]).to_bits());
        }
    }
}

#[test]
fn average_of_no_values_is_not_a_number() {
    let none: Vec<u32> = Vec::new();
    assert!(f32::from_bits(average(&none)).is_nan());
}

#[test]
fn average_of_one_value_is_the_value() {
    assert_eq!(average(&vec![0.3f32.to_bits()]), 0.3f32.to_bits());
    assert_eq!(average(&vec![(-0.0f32).to_bits()]), (-0.0f32).to_bits());
    assert_eq!(
        average(&vec![1.0f32.to_bits(), 2.0f32.to_bits(), 4.0f32.to_bits()]),
        (7.0f32 / 3.0).to_bits()
    );
}
