use rume::{make_processor, ConnectedProcessors, DummyProcessor, ProcUnit, SharedProc};

fn dummy(id: usize) -> SharedProc {
    make_processor(id, ProcUnit::Dummy(DummyProcessor::new()))
}

#[test]
fn pushing_same_proc_only_adds_the_first() {
    let (a, b) = (dummy(0), dummy(1));
    let mut processors = ConnectedProcessors::new();
    processors.push(a.clone());
    processors.push(a.clone());
    processors.push(b.clone());

    assert_eq!(processors.len(), 2);
    assert_eq!(processors.index_of(&a).unwrap(), 0);
    assert_eq!(processors.index_of(&b).unwrap(), 1);
}

#[test]
fn reordering_processors_swaps_their_positions() {
    const NUM_PROCESSORS: usize = 6;

    let mut dummies = Vec::<SharedProc>::with_capacity(NUM_PROCESSORS);
    let mut processors = ConnectedProcessors::new();

    for i in 0..NUM_PROCESSORS {
        let d = dummy(i);
        dummies.push(d.clone());
        processors.push(d.clone())
    }

    for (i, d) in dummies.iter().enumerate() {
        assert_eq!(processors.index_of(d), Some(i))
    }

    processors.swap(0, 3);
    processors.swap(1, 5);
    processors.swap(2, 4);

    assert_eq!(processors.len(), NUM_PROCESSORS);
    assert_eq!(processors.index_of(&dummies[0]), Some(3));
    assert_eq!(processors.index_of(&dummies[1]), Some(5));
    assert_eq!(processors.index_of(&dummies[2]), Some(4));
}

#[test]
fn it_works() {
    assert_eq!(2 + 2, 4);
}
