use signal_pipeline::filter::FilterStage;
use signal_pipeline::link::{PublishLink, SampleLink, LINK_CAPACITY};
use signal_pipeline::pipeline::{FilterProgress, Pipeline};
use signal_pipeline::sample::{PublishedSample, RawSample};

fn sine(value: f32) -> RawSample {
    RawSample::Sine(value.to_bits())
}

fn square(value: f32) -> RawSample {
    RawSample::Square(value.to_bits())
}

#[test]
fn link_gives_out_in_the_order_of_the_sends() {
    let mut link = SampleLink::new();
    assert_eq!(LINK_CAPACITY, 4);
    assert_eq!(link.receive(), None);
    assert_eq!(link.send(sine(1.0)), Ok(()));
    assert_eq!(link.send(square(2.0)), Ok(()));
    assert_eq!(link.receive(), Some(sine(1.0)));
    assert_eq!(link.send(sine(3.0)), Ok(()));
    assert_eq!(link.receive(), Some(square(2.0)));
    assert_eq!(link.receive(), Some(sine(3.0)));
    assert_eq!(link.receive(), None);
}

#[test]
fn full_link_hands_the_message_back() {
    let mut link = SampleLink::new();
    for k in 0..4 {
        assert_eq!(link.send(sine(k as f32)), Ok(()));
    }
    assert_eq!(link.send(sine(9.0)), Err(sine(9.0)));
    assert_eq!(link.send(square(9.0)), Err(square(9.0)));
    assert_eq!(link.receive(), Some(sine(0.0)));
    assert_eq!(link.send(sine(9.0)), Ok(()));
    assert_eq!(link.send(sine(10.0)), Err(sine(10.0)));
    for expected in [1.0f32, 2.0, 3.0, 9.0] {
        assert_eq!(link.receive(), Some(sine(expected)));
    }
    assert_eq!(link.receive(), None);
}

#[test]
fn publish_link_is_first_in_first_out_with_four_places() {
    let mut link = PublishLink::new();
    let sample = |k: u32| PublishedSample::Square(k, k + 100);
    assert_eq!(link.receive(), None);
    for k in 0..4 {
        assert_eq!(link.send(sample(k)), Ok(()));
    }
    assert_eq!(link.send(sample(4)), Err(sample(4)));
    for k in 0..4 {
        assert_eq!(link.receive(), Some(sample(k)));
    }
    assert_eq!(link.receive(), None);
}

#[test]
fn pipeline_delivers_what_the_filter_publishes_in_order() {
    let mut pipeline = Pipeline::new();
    let mut reference = FilterStage::new();
    let mut rng = fastrand::Rng::with_seed(5);
    let mut expected = Vec::new();
    let mut delivered = Vec::new();
    for _ in 0..20_000 {
        match rng.u32(0..3) {
            0 => {
                let value = (rng.f32() - 0.5) * 4.0;
                let raw = if rng.bool() { sine(value) } else { square(value) };
                match pipeline.offer(raw) {
                    Ok(()) => expected.push(reference.process(raw)),
                    Err(back) => assert_eq!(back, raw),
                }
            }
            1 => {
                pipeline.run_filter();
            }
            _ => {
                if let Some(sample) = pipeline.take() {
                    delivered.push(sample);
                }
            }
        }
    }
    assert!(delivered.len() > 1000);
    assert_eq!(delivered[..], expected[..delivered.len()]);
}

#[test]
fn pipeline_stalls_the_generator_when_four_samples_wait() {
    let mut pipeline = Pipeline::new();
    for k in 0..4 {
        assert_eq!(pipeline.offer(sine(k as f32)), Ok(()));
    }
    assert_eq!(pipeline.offer(sine(4.0)), Err(sine(4.0)));
    assert_eq!(pipeline.run_filter(), FilterProgress::Moved);
    assert_eq!(pipeline.offer(sine(4.0)), Ok(()));
    assert_eq!(pipeline.offer(sine(5.0)), Err(sine(5.0)));
}

#[test]
fn pipeline_stalls_the_filter_when_four_samples_are_ready() {
    let mut pipeline = Pipeline::new();
    assert_eq!(pipeline.run_filter(), FilterProgress::Idle);
    assert_eq!(pipeline.take(), None);
    let mut sent = 0;
    for round in 0..5 {
        for _ in 0..4 {
            if pipeline.offer(square(sent as f32)).is_ok() {
                sent += 1;
            }
        }
        if round < 1 {
            for _ in 0..4 {
                assert_eq!(pipeline.run_filter(), FilterProgress::Moved);
            }
        }
    }
    // Four are ready, four wait: the next step takes one raw sample and then
    // has to hold its result back.
    assert_eq!(sent, 8);
    assert_eq!(pipeline.run_filter(), FilterProgress::Stalled);
    assert_eq!(pipeline.run_filter(), FilterProgress::Stalled);
    assert_eq!(pipeline.offer(square(8.0)), Ok(()));
    let first = pipeline.take().unwrap();
    assert_eq!(first, PublishedSample::Square(0.0f32.to_bits(), 0.0f32.to_bits()));
    assert_eq!(pipeline.run_filter(), FilterProgress::Moved);
    let mut raws = Vec::new();
    loop {
        pipeline.run_filter();
        match pipeline.take() {
            Some(sample) => raws.push(f32::from_bits(sample.raw())),
            None => break,
        }
    }
    assert_eq!(raws, vec![1.0, 2.0, 3.0, 4.0, 5.0, 6.0, 7.0, 8.0]);
}
