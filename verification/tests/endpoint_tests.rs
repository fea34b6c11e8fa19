use rume::{InputEndpointBuilder, InputEndpointKind, OutputEndpoint, Processor, Sample};

fn enc(x: f64) -> Sample {
    Sample { raw: (x * 4294967296.0_f64).round() as i64 }
}

#[test]
fn input_endpoint_with_init_is_initialised() {
    let init_value = enc(3.14);
    let endpoint = InputEndpointBuilder::new().init(init_value).build();
    assert_eq!(endpoint.output_value(), init_value);
}

#[test]
fn input_endpoint_with_range_is_clamped() {
    let min_value = enc(-1.0);
    let max_value = enc(10.0);
    let value_in_range = enc(3.14);
    let value_above_range = enc(110.0);
    let value_bellow_range = enc(-11.0);

    let mut endpoint = InputEndpointBuilder::new().range(min_value, max_value).build();

    let mut test_value_passing = |value_to_pass: Sample, expected: Sample| {
        endpoint.enqueue(value_to_pass).unwrap();
        endpoint.process();
        assert_eq!(endpoint.output_value(), expected);
    };

    test_value_passing(value_in_range, value_in_range);
    test_value_passing(value_above_range, max_value);
    test_value_passing(value_bellow_range, min_value);
}

#[test]
fn input_endpoint_with_smoothing_is_smooth() {
    let init_value = enc(-53.1);
    const SMOOTHING: u32 = 10;
    let target_value = enc(-100.92);

    // This test only considers one direction of movement; inverting the
    // signs tests the opposite direction.
    assert!(init_value.raw.abs() < target_value.raw.abs());

    let mut endpoint = InputEndpointBuilder::new().init(init_value).smooth(SMOOTHING).build();

    endpoint.enqueue(target_value).unwrap();

    endpoint.process();
    assert_eq!(endpoint.output_value(), init_value);

    for _ in 0..SMOOTHING {
        endpoint.process();
        let value = endpoint.output_value();
        assert!(value.raw.abs() < target_value.raw.abs());
        assert!(value.raw.abs() > init_value.raw.abs());
    }

    endpoint.process();
    assert_eq!(endpoint.output_value(), target_value);
}

#[test]
fn input_endpoint_as_trigger_falls_back_to_zero() {
    let trigger_value = enc(1000.0);

    let mut endpoint = InputEndpointBuilder::new().kind(InputEndpointKind::Trigger).build();

    endpoint.enqueue(trigger_value).unwrap();

    endpoint.process();
    assert_eq!(endpoint.output_value(), trigger_value);

    endpoint.process();
    assert_eq!(endpoint.output_value(), enc(0.0));
}

#[test]
fn ranged_smoothing_stays_inside_the_range() {
    let lo = enc(0.0);
    let hi = enc(1.0);
    let mut endpoint = InputEndpointBuilder::new().range(lo, hi).smooth(4).build();
    // the target is clamped before the ramp starts; every ramp value lies
    // inside the range
    endpoint.enqueue(enc(5.0)).unwrap();
    let mut last = endpoint.output_value();
    for _ in 0..6 {
        endpoint.process();
        let v = endpoint.output_value();
        assert!(lo.raw <= v.raw && v.raw <= hi.raw);
        assert!(last.raw <= v.raw);
        last = v;
    }
    assert_eq!(endpoint.output_value(), hi);
}

#[test]
fn follow_endpoint_holds_the_last_value() {
    let mut endpoint = InputEndpointBuilder::new().build();
    endpoint.enqueue(enc(2.5)).unwrap();
    endpoint.process();
    assert_eq!(endpoint.output_value(), enc(2.5));
    endpoint.process();
    assert_eq!(endpoint.output_value(), enc(2.5));
}

#[test]
fn full_input_stream_reports_the_value_back() {
    let mut endpoint = InputEndpointBuilder::new().build();
    for i in 0..256 {
        assert!(endpoint.enqueue(Sample { raw: i }).is_ok());
    }
    assert_eq!(endpoint.enqueue(Sample { raw: 256 }), Err(Sample { raw: 256 }));
}

#[test]
fn one_value_is_consumed_per_sample_in_order() {
    let mut endpoint = InputEndpointBuilder::new().build();
    for i in 1..=5 {
        endpoint.enqueue(Sample { raw: i }).unwrap();
    }
    for i in 1..=5 {
        endpoint.process();
        assert_eq!(endpoint.output_value(), Sample { raw: i });
    }
}

#[test]
fn empty_output_stream_yields_nothing() {
    let mut endpoint = OutputEndpoint::new();
    assert_eq!(endpoint.dequeue(), None);
    endpoint.set_input(enc(1.5));
    assert_eq!(endpoint.dequeue(), Some(enc(1.5)));
    assert_eq!(endpoint.dequeue(), None);
}

#[test]
fn full_output_stream_drops_new_values() {
    let mut endpoint = OutputEndpoint::new();
    for i in 0..2048 {
        endpoint.set_input(Sample { raw: i });
    }
    endpoint.set_input(Sample { raw: 5000 });
    let mut last = Sample { raw: -1 };
    let mut count = 0;
    while let Some(v) = endpoint.dequeue() {
        last = v;
        count += 1;
    }
    assert_eq!(count, 2048);
    assert_eq!(last, Sample { raw: 2047 });
}
