use rume::{
    make_processor, BuildError, DummyProcessor, InputEndpointBuilder, MultiInProcessor,
    MultiOutProcessor, OutputEndpoint, ProcUnit, Processor, Renderable, Sample, SharedProc,
    SignalChainBuilder, Value,
};

fn enc(x: f64) -> Sample {
    Sample { raw: (x * 4294967296.0_f64).round() as i64 }
}

fn dummy(id: usize) -> SharedProc {
    make_processor(id, ProcUnit::Dummy(DummyProcessor::new()))
}

/// A linear chain of `num_processors` distinct pass-through processors,
/// connected in order.
fn make_chain(num_processors: usize) -> (rume::SignalChain, Vec<SharedProc>) {
    let mut processors = Vec::new();
    for i in 0..num_processors {
        processors.push(dummy(i));
    }
    let mut builder = SignalChainBuilder::default();
    for p in &processors {
        builder = builder.processor(p.clone());
    }
    for i in 0..num_processors - 1 {
        builder = builder.connection(
            processors[i].output_port(0),
            processors[i + 1].input_port(0),
        );
    }
    (builder.build().unwrap(), processors)
}

#[test]
fn empty_chain_does_not_panic() {
    let mut chain = SignalChainBuilder::default().build().unwrap();
    chain.prepare(48_000.into());
    chain.process();
}

#[test]
fn single_processor_chain_does_not_panic() {
    let mut chain = SignalChainBuilder::default().processor(dummy(0)).build().unwrap();
    chain.prepare(48_000.into());
    chain.process();
}

#[test]
fn single_connection_chain_does_not_panic() {
    let (mut chain, _) = make_chain(2);
    chain.prepare(48_000.into());
    chain.process();
}

#[test]
fn data_is_passed_through_the_signal_chain() {
    const NUM_PROCESSORS: usize = 30;
    let value_to_pass = enc(1.0);

    let (mut chain, processors) = make_chain(NUM_PROCESSORS);
    chain.prepare(48_000.into());

    for proc in &processors {
        assert_eq!(chain.get_output(proc, 0), Sample { raw: 0 });
    }

    chain.set_input(&processors[0], 0, value_to_pass);

    chain.render(1);

    for proc in &processors {
        assert_eq!(chain.get_output(proc, 0), value_to_pass);
    }
}

#[test]
fn data_injection_mid_chain_is_overwritten_by_first_input() {
    const NUM_PROCESSORS: usize = 20;
    let value_to_pass = enc(1.0);
    let value_to_inject = enc(2.0);

    let (mut chain, processors) = make_chain(NUM_PROCESSORS);
    chain.prepare(48_000.into());

    for proc in &processors {
        assert_eq!(chain.get_output(proc, 0), Sample { raw: 0 });
    }

    chain.set_input(&processors[2], 0, value_to_inject);
    chain.set_input(&processors[0], 0, value_to_pass);

    chain.render(1);

    for proc in &processors {
        assert_eq!(chain.get_output(proc, 0), value_to_pass);
    }
}

#[test]
fn processors_added_in_reverse_order_are_sorted() {
    const NUM_PROCESSORS: usize = 20;
    let value_to_pass = enc(1.0);

    let mut processors = Vec::new();
    for i in 0..NUM_PROCESSORS {
        processors.push(dummy(i));
    }
    let mut builder = SignalChainBuilder::default();
    for i in (0..NUM_PROCESSORS).rev() {
        builder = builder.processor(processors[i].clone());
    }
    for i in 0..NUM_PROCESSORS - 1 {
        builder = builder.connection(
            processors[i].output_port(0),
            processors[i + 1].input_port(0),
        );
    }
    let mut chain = builder.build().unwrap();

    chain.prepare(48_000.into());
    chain.set_input(&processors[0], 0, value_to_pass);
    chain.render(1);

    for (i, proc) in processors.iter().enumerate() {
        assert_eq!(chain.index_of(proc), Some(i));
        assert_eq!(chain.get_output(proc, 0), value_to_pass);
    }
}

#[test]
fn multiple_io_unsorted_gets_sorted() {
    let value_to_pass = enc(1.0);

    let input = dummy(0);
    let mid = dummy(1);
    let output = dummy(2);
    let multi_in = make_processor(3, ProcUnit::MultiIn(MultiInProcessor::new()));
    let multi_out = make_processor(4, ProcUnit::MultiOut(MultiOutProcessor::new()));

    let mut builder = SignalChainBuilder::default();
    builder = builder
        .processor(input.clone())
        .processor(multi_out.clone())
        .connection(input.output_port(0), multi_out.input_port(0))
        .processor(multi_out.clone())
        .processor(multi_in.clone())
        .connection(multi_out.output_port(0), multi_in.input_port(0))
        .processor(multi_out.clone())
        .processor(mid.clone())
        .connection(multi_out.output_port(1), mid.input_port(0))
        .processor(multi_out.clone())
        .processor(multi_in.clone())
        .connection(multi_out.output_port(2), multi_in.input_port(2))
        .processor(multi_in.clone())
        .processor(output.clone())
        .connection(multi_in.output_port(0), output.input_port(0));
    let mut chain = builder.build().unwrap();

    chain.prepare(48_000.into());

    chain.set_input(&input, 0, value_to_pass);

    chain.render(1);

    assert_eq!(chain.get_output(&output, 0), value_to_pass);
    assert_eq!(chain.get_output(&mid, 0), value_to_pass);
}

#[test]
fn identity_passthrough_streams_in_order() {
    let input = make_processor(0, ProcUnit::Input(InputEndpointBuilder::new().build()));
    let output = make_processor(1, ProcUnit::Output(OutputEndpoint::new()));
    let mut chain = SignalChainBuilder::default()
        .processor(input.clone())
        .processor(output.clone())
        .connection(input.output_port(0), output.input_port(0))
        .build()
        .unwrap();
    chain.prepare(48_000.into());

    chain.enqueue_input(0, enc(1.0)).unwrap();
    chain.enqueue_input(0, enc(2.0)).unwrap();
    chain.enqueue_input(0, enc(3.0)).unwrap();
    chain.render(3);

    assert_eq!(chain.dequeue_output(1), Some(enc(1.0)));
    assert_eq!(chain.dequeue_output(1), Some(enc(2.0)));
    assert_eq!(chain.dequeue_output(1), Some(enc(3.0)));
    assert_eq!(chain.dequeue_output(1), None);
}

#[test]
fn silent_sine_renders_zeros() {
    // a wavetable of one sine cycle, driven at zero frequency and half
    // amplitude: the phase never advances, so every sample reads zero
    let mut table = Vec::new();
    for i in 0..256 {
        let x = (i as f64) / 256.0;
        table.push(enc((x * 2.0 * std::f64::consts::PI).sin()));
    }
    let freq = make_processor(0, ProcUnit::Value(Value::new(enc(0.0))));
    let amp = make_processor(1, ProcUnit::Value(Value::new(enc(0.5))));
    let sine = make_processor(2, ProcUnit::Sine(rume::Sine::new(table)));
    let out = make_processor(3, ProcUnit::Output(OutputEndpoint::new()));

    let mut chain = SignalChainBuilder::default()
        .processor(freq.clone())
        .processor(amp.clone())
        .processor(sine.clone())
        .processor(out.clone())
        .connection(freq.output_port(0), sine.input_port(0))
        .connection(amp.output_port(0), sine.input_port(1))
        .connection(sine.output_port(0), out.input_port(0))
        .build()
        .unwrap();

    chain.prepare(48_000.into());
    chain.render(10);
    for _ in 0..10 {
        assert_eq!(chain.dequeue_output(3), Some(enc(0.0)));
    }
}

#[test]
fn reverse_insertion_gets_sorted() {
    let a = dummy(10);
    let b = dummy(11);
    let c = dummy(12);
    let mut chain = SignalChainBuilder::default()
        .processor(b.clone())
        .processor(c.clone())
        .processor(a.clone())
        .connection(a.output_port(0), b.input_port(0))
        .connection(b.output_port(0), c.input_port(0))
        .build()
        .unwrap();

    assert_eq!(chain.index_of(&a), Some(0));
    assert_eq!(chain.index_of(&b), Some(1));
    assert_eq!(chain.index_of(&c), Some(2));

    chain.prepare(48_000.into());
    chain.set_input(&a, 0, enc(1.0));
    chain.render(1);
    assert_eq!(chain.get_output(&c, 0), enc(1.0));
}

#[test]
fn multi_fanout_reaches_all_consumers_same_sample() {
    let m = make_processor(0, ProcUnit::MultiOut(MultiOutProcessor::new()));
    let d1 = dummy(1);
    let d2 = dummy(2);
    let d3 = dummy(3);
    let mut chain = SignalChainBuilder::default()
        .processor(m.clone())
        .processor(d1.clone())
        .processor(d2.clone())
        .processor(d3.clone())
        .connection(m.output_port(0), d1.input_port(0))
        .connection(m.output_port(1), d2.input_port(0))
        .connection(m.output_port(2), d3.input_port(0))
        .build()
        .unwrap();
    chain.prepare(48_000.into());
    chain.set_input(&m, 0, enc(4.5));
    chain.render(1);
    assert_eq!(chain.get_output(&d1, 0), enc(4.5));
    assert_eq!(chain.get_output(&d2, 0), enc(4.5));
    assert_eq!(chain.get_output(&d3, 0), enc(4.5));
}

#[test]
fn cyclic_connections_are_rejected() {
    let a = dummy(0);
    let b = dummy(1);
    let c = dummy(2);
    let built = SignalChainBuilder::default()
        .processor(a.clone())
        .processor(b.clone())
        .processor(c.clone())
        .connection(a.output_port(0), b.input_port(0))
        .connection(b.output_port(0), c.input_port(0))
        .connection(c.output_port(0), a.input_port(0))
        .build();
    assert!(matches!(built, Err(BuildError::CycleDetected)));
}

#[test]
fn self_connection_is_a_cycle() {
    let a = dummy(0);
    let built = SignalChainBuilder::default()
        .processor(a.clone())
        .connection(a.output_port(0), a.input_port(0))
        .build();
    assert!(matches!(built, Err(BuildError::CycleDetected)));
}

#[test]
fn smoothing_ramp_through_a_chain() {
    let input = make_processor(
        0,
        ProcUnit::Input(InputEndpointBuilder::new().init(enc(0.0)).smooth(4).build()),
    );
    let output = make_processor(1, ProcUnit::Output(OutputEndpoint::new()));
    let mut chain = SignalChainBuilder::default()
        .processor(input.clone())
        .processor(output.clone())
        .connection(input.output_port(0), output.input_port(0))
        .build()
        .unwrap();
    chain.prepare(48_000.into());

    chain.enqueue_input(0, enc(1.0)).unwrap();
    chain.render(6);

    // the arrival sample still shows the start; the ramp then climbs by a
    // quarter per sample and holds at the target
    let expected = [0.0, 0.25, 0.5, 0.75, 1.0, 1.0];
    for e in expected {
        assert_eq!(chain.dequeue_output(1), Some(enc(e)));
    }
}

#[test]
fn enqueue_outside_an_input_endpoint_is_refused() {
    let a = dummy(0);
    let mut chain = SignalChainBuilder::default().processor(a.clone()).build().unwrap();
    chain.prepare(48_000.into());
    // a pass-through unit has no stream; an unknown identity has no unit
    assert_eq!(chain.enqueue_input(0, enc(1.0)), Err(enc(1.0)));
    assert_eq!(chain.enqueue_input(9, enc(1.0)), Err(enc(1.0)));
    assert_eq!(chain.dequeue_output(0), None);
    assert_eq!(chain.dequeue_output(9), None);
    assert_eq!(chain.get_output(&dummy(9), 0), enc(0.0));
}

#[test]
fn adding_a_processor_twice_builds_the_same_chain() {
    let a = dummy(0);
    let b = dummy(1);
    let once = SignalChainBuilder::default()
        .processor(a.clone())
        .processor(b.clone())
        .build()
        .unwrap();
    let twice = SignalChainBuilder::default()
        .processor(a.clone())
        .processor(a.clone())
        .processor(b.clone())
        .build()
        .unwrap();
    assert_eq!(once.len(), 2);
    assert_eq!(twice.len(), 2);
    assert_eq!(twice.index_of(&a), once.index_of(&a));
    assert_eq!(twice.index_of(&b), once.index_of(&b));
}

#[test]
fn adding_a_connection_twice_keeps_one_edge() {
    let a = dummy(0);
    let b = dummy(1);
    let c = dummy(2);
    // the duplicated edge transfers once; values keep flowing a -> b -> c
    let mut chain = SignalChainBuilder::default()
        .processor(a.clone())
        .processor(b.clone())
        .processor(c.clone())
        .connection(a.output_port(0), b.input_port(0))
        .connection(a.output_port(0), b.input_port(0))
        .connection(b.output_port(0), c.input_port(0))
        .build()
        .unwrap();
    chain.prepare(48_000.into());
    chain.set_input(&a, 0, enc(7.0));
    chain.render(1);
    assert_eq!(chain.get_output(&c, 0), enc(7.0));
}
