use rume::{GraphOutputs, ProcessorDecl, ProcessorsDecl};

#[test]
fn processors_init_emits_one_line_per_declaration() {
    let decl = ProcessorsDecl {
        decls: vec![
            ProcessorDecl {
                name: String::from("lfo"),
                initialiser: String::from("rume::ProcUnit::Value(rume::Value::new(low))"),
            },
            ProcessorDecl {
                name: String::from("osc"),
                initialiser: String::from("rume::ProcUnit::Sine(rume::Sine::new(table))"),
            },
        ],
    };
    let expected = "\tlet lfo = rume::make_processor(lfo_id, rume::ProcUnit::Value(rume::Value::new(low)));\n\
                    \tlet osc = rume::make_processor(osc_id, rume::ProcUnit::Sine(rume::Sine::new(table)));\n";
    assert_eq!(decl.to_processors_init(), expected);
}

#[test]
fn processors_init_of_nothing_is_empty() {
    let decl = ProcessorsDecl { decls: vec![] };
    assert_eq!(decl.to_processors_init(), "");
}

#[test]
fn output_endpoints_init_emits_one_line_per_name() {
    let outs = GraphOutputs { names: vec![String::from("audio")] };
    let expected = "\tlet audio = rume::make_processor(audio_id, rume::ProcUnit::Output(rume::OutputEndpoint::new()));\n";
    assert_eq!(outs.to_endpoints_init(), expected);
}

#[test]
fn outputs_struct_decl_lists_every_name() {
    let outs = GraphOutputs {
        names: vec![String::from("left"), String::from("right")],
    };
    let expected = "\npub struct Outputs {\n\tpub left: usize,\n\tpub right: usize,\n}\n";
    assert_eq!(outs.to_struct_decl(), expected);
}

#[test]
fn outputs_struct_init_lists_every_name() {
    let outs = GraphOutputs {
        names: vec![String::from("left"), String::from("right")],
    };
    let expected = "Outputs {left: left_id, right: right_id, }";
    assert_eq!(outs.to_struct_init(), expected);
}
