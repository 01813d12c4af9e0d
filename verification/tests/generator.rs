use signal_pipeline::generator::{
    SineGenerator, SquareGenerator, CYCLE_TICKS, HIGH_LEVEL, HIGH_TICKS, LOW_LEVEL, PHASE_STEP,
    TICK_MILLIS,
};
use signal_pipeline::sample::RawSample;

fn square_value(sample: RawSample) -> f32 {
    match sample {
        RawSample::Square(bits) => f32::from_bits(bits),
        RawSample::Sine(_) => panic!("a square generator made a sine sample"),
    }
}

#[test]
fn constants_are_the_documented_numbers() {
    assert_eq!(f32::from_bits(HIGH_LEVEL), 20.0);
    assert_eq!(f32::from_bits(LOW_LEVEL), -20.0);
    assert_eq!(PHASE_STEP, 0.0872665f32.to_bits());
    assert_eq!(CYCLE_TICKS, 20);
    assert_eq!(HIGH_TICKS, 10);
    assert_eq!(TICK_MILLIS, 200);
}

#[test]
fn square_without_noise_runs_through_the_cycle() {
    let mut generator = SquareGenerator::new();
    let zero = 0.0f32.to_bits();
    for tick in 1..=10 {
        assert_eq!(square_value(generator.tick(zero)), 20.0, "tick {}", tick);
    }
    for tick in 11..=20 {
        assert_eq!(square_value(generator.tick(zero)), -20.0, "tick {}", tick);
    }
    assert_eq!(square_value(generator.tick(zero)), 20.0);
}

#[test]
fn square_has_ten_high_ticks_in_every_cycle() {
    let mut generator = SquareGenerator::new();
    let zero = 0.0f32.to_bits();
    for cycle in 0..50 {
        let mut high = 0;
        for place in 1..=20 {
            let value = square_value(generator.tick(zero));
            if value == 20.0 {
                high += 1;
                assert!(place <= 10, "cycle {} place {}", cycle, place);
            } else {
                assert_eq!(value, -20.0);
                assert!(place > 10, "cycle {} place {}", cycle, place);
            }
        }
        assert_eq!(high, 10);
    }
}

#[test]
fn square_adds_the_noise_to_the_plateau() {
    let mut rng = fastrand::Rng::with_seed(42);
    let mut generator = SquareGenerator::new();
    for tick in 0..2000u32 {
        let noise = rng.f32();
        let plateau = if tick % 20 < 10 { 20.0f32 } else { -20.0f32 };
        let value = square_value(generator.tick(noise.to_bits()));
        assert_eq!(value.to_bits(), (plateau + noise).to_bits());
        if plateau > 0.0 {
            assert!((20.0..=21.0).contains(&value));
        } else {
            assert!((-20.0..=-19.0).contains(&value));
        }
    }
}

#[test]
fn sine_phase_grows_by_the_step_each_tick() {
    let mut generator = SineGenerator::new();
    assert_eq!(generator.phase(), 0.0f32.to_bits());
    let mut phase = 0.0f32;
    for tick in 1..=200u32 {
        let angle = generator.tick(0.0f32.to_bits());
        phase += 0.0872665;
        assert_eq!(angle, phase.to_bits());
        assert_eq!(generator.phase(), phase.to_bits());
        assert!((phase - 0.0872665 * tick as f32).abs() < 1.0e-4);
    }
}

#[test]
fn sine_angle_is_the_phase_plus_the_noise() {
    let mut rng = fastrand::Rng::with_seed(3);
    let mut generator = SineGenerator::new();
    let mut phase = 0.0f32;
    let mut last = 0.0f32;
    for _ in 0..1000 {
        let noise = rng.f32();
        let angle = generator.tick(noise.to_bits());
        phase += 0.0872665;
        assert!(phase > last);
        last = phase;
        assert_eq!(angle, (phase + noise).to_bits());
        let sample = RawSample::Sine(libm::sinf(f32::from_bits(angle)).to_bits());
        assert_eq!(sample.value(), libm::sinf(phase + noise).to_bits());
    }
}
