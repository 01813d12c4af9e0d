use signal_pipeline::publisher::{
    header_line, sample_line, Publisher, PublisherAction, PublisherEvent, PublisherPhase,
    LINE_CAPACITY,
};
use signal_pipeline::sample::PublishedSample;

fn written(action: PublisherAction) -> Vec<u8> {
    match action {
        PublisherAction::Write(bytes) => bytes,
        other => panic!("expected a write, got {:?}", other),
    }
}

#[test]
fn header_is_the_fixed_line() {
    assert_eq!(header_line(), b"SIG;DIRTY;CLEAN\r\n".to_vec());
}

#[test]
fn sine_line_has_seven_fractional_digits() {
    let sample = PublishedSample::Sine(1.2345678f32.to_bits(), 1.1111112f32.to_bits());
    assert_eq!(sample_line(sample), b"SINE;1.2345678;1.1111112\r\n".to_vec());
}

#[test]
fn sine_line_writes_the_values_that_the_patterns_hold() {
    // The binary32 number nearest to 1.1111111 is 1.11111104488372802734375,
    // so its seventh fractional digit is 0.
    let sample = PublishedSample::Sine(1.2345678f32.to_bits(), 1.1111111f32.to_bits());
    assert_eq!(sample_line(sample), b"SINE;1.2345678;1.1111110\r\n".to_vec());
    let standard = format!("SINE;{:.7};{:.7}\r\n", 1.2345678f32, 1.1111111f32);
    assert_eq!(sample_line(sample), standard.into_bytes());
}

#[test]
fn square_line_carries_the_sign() {
    let sample = PublishedSample::Square((-19.5f32).to_bits(), 0.25f32.to_bits());
    assert_eq!(sample_line(sample), b"SQUARE;-19.5000000;0.2500000\r\n".to_vec());
}

#[test]
fn line_agrees_with_the_standard_formatter() {
    let mut rng = fastrand::Rng::with_seed(8);
    for _ in 0..50_000 {
        let raw = f32::from_bits(rng.u32(..));
        let filtered = f32::from_bits(rng.u32(..));
        let sine = PublishedSample::Sine(raw.to_bits(), filtered.to_bits());
        let expected = format!("SINE;{:.7};{:.7}\r\n", raw, filtered);
        assert_eq!(sample_line(sine), expected.into_bytes());
        let square = PublishedSample::Square(raw.to_bits(), filtered.to_bits());
        let expected = format!("SQUARE;{:.7};{:.7}\r\n", raw, filtered);
        assert_eq!(sample_line(square), expected.into_bytes());
    }
}

#[test]
fn longest_line_fills_the_capacity() {
    let sample = PublishedSample::Square(f32::MIN.to_bits(), f32::MIN.to_bits());
    assert_eq!(sample_line(sample).len(), LINE_CAPACITY);
    assert_eq!(LINE_CAPACITY, 106);
}

#[test]
fn publisher_writes_the_header_then_a_line_per_sample() {
    let mut publisher = Publisher::new();
    assert_eq!(publisher.phase(), PublisherPhase::Unstarted);
    let mut stream = written(publisher.step(PublisherEvent::Started));
    assert_eq!(publisher.phase(), PublisherPhase::WritingHeader);
    for k in 0..3 {
        assert!(matches!(publisher.step(PublisherEvent::Written), PublisherAction::Receive));
        assert_eq!(publisher.phase(), PublisherPhase::AwaitingSample);
        let sample = PublishedSample::Sine((k as f32).to_bits(), 0.5f32.to_bits());
        stream.extend(written(publisher.step(PublisherEvent::Sample(sample))));
        assert_eq!(publisher.phase(), PublisherPhase::WritingLine);
    }
    let expected = "SIG;DIRTY;CLEAN\r\nSINE;0.0000000;0.5000000\r\nSINE;1.0000000;0.5000000\r\n\
                    SINE;2.0000000;0.5000000\r\n";
    assert_eq!(String::from_utf8(stream).unwrap(), expected);
}

#[test]
fn publisher_halts_for_good_when_a_write_fails() {
    let mut publisher = Publisher::new();
    written(publisher.step(PublisherEvent::Started));
    assert!(matches!(publisher.step(PublisherEvent::WriteFailed), PublisherAction::Halt));
    assert_eq!(publisher.phase(), PublisherPhase::Halted);
    let sample = PublishedSample::Sine(0, 0);
    assert!(matches!(publisher.step(PublisherEvent::Sample(sample)), PublisherAction::Halt));
    assert!(matches!(publisher.step(PublisherEvent::Started), PublisherAction::Halt));
    assert!(matches!(publisher.step(PublisherEvent::Written), PublisherAction::Halt));
    assert_eq!(publisher.phase(), PublisherPhase::Halted);
}

#[test]
fn publisher_halts_on_an_event_out_of_turn() {
    let mut publisher = Publisher::new();
    let sample = PublishedSample::Square(0, 0);
    assert!(matches!(publisher.step(PublisherEvent::Sample(sample)), PublisherAction::Halt));
    let mut publisher = Publisher::new();
    written(publisher.step(PublisherEvent::Started));
    assert!(matches!(publisher.step(PublisherEvent::Started), PublisherAction::Halt));
    let mut publisher = Publisher::new();
    written(publisher.step(PublisherEvent::Started));
    publisher.step(PublisherEvent::Written);
    assert!(matches!(publisher.step(PublisherEvent::Written), PublisherAction::Halt));
}
