use signal_pipeline::sample::{PublishedSample, RawSample, SignalKind};

#[test]
fn raw_sample_keeps_its_tag_and_value() {
    let sine = RawSample::new(SignalKind::Sine, 7);
    assert_eq!(sine, RawSample::Sine(7));
    assert_eq!(sine.kind(), SignalKind::Sine);
    assert_eq!(sine.value(), 7);
    let square = RawSample::new(SignalKind::Square, 9);
    assert_eq!(square, RawSample::Square(9));
    assert_eq!(square.kind(), SignalKind::Square);
    assert_eq!(square.value(), 9);
}

#[test]
fn published_sample_keeps_the_tag_of_the_raw_sample() {
    let sine = PublishedSample::new(RawSample::Sine(1), 2);
    assert_eq!(sine, PublishedSample::Sine(1, 2));
    assert_eq!((sine.kind(), sine.raw(), sine.filtered()), (SignalKind::Sine, 1, 2));
    let square = PublishedSample::new(RawSample::Square(3), 4);
    assert_eq!(square, PublishedSample::Square(3, 4));
    assert_eq!((square.kind(), square.raw(), square.filtered()), (SignalKind::Square, 3, 4));
}
