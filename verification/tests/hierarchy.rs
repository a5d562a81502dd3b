use general_mna::hierarchy::flatten;
use general_mna::netlist::{BlockInstance, ElementInstance, Statement, Subckt};

fn element(letter: char, name: &str, nodes: &[&str]) -> Statement {
    Statement::ElementInstance(ElementInstance {
        device_letter: letter,
        name: name.to_string(),
        nodes: nodes.iter().map(|s| s.to_string()).collect(),
        raw_params: vec!["100".to_string()],
        subckt_name: None,
        span: 1..2,
    })
}

fn x_call(name: &str, nodes: &[&str], subckt: &str) -> Statement {
    Statement::ElementInstance(ElementInstance {
        device_letter: 'X',
        name: name.to_string(),
        nodes: nodes.iter().map(|s| s.to_string()).collect(),
        raw_params: vec![],
        subckt_name: Some(subckt.to_string()),
        span: 1..2,
    })
}

fn subckt(name: &str, ports: &[&str]) -> Statement {
    Statement::Subckt(Subckt {
        name: name.to_string(),
        nodes: ports.iter().map(|s| s.to_string()).collect(),
    })
}

fn ends(name: &str) -> Statement {
    Statement::Ends(Some(name.to_string()), 1..2)
}

#[test]
fn a_single_instance_expands_with_dotted_path_names() {
    let statements = vec![
        subckt("div", &["a", "b"]),
        element('R', "R1", &["a", "mid"]),
        element('R', "R2", &["mid", "b"]),
        ends("div"),
        x_call("X1", &["vin", "0"], "div"),
    ];
    let flat = flatten(&statements).unwrap();
    assert_eq!(flat.len(), 2);
    let names: Vec<&str> = flat
        .iter()
        .map(|s| match s {
            Statement::ElementInstance(ei) => ei.name.as_str(),
            _ => panic!("expected ElementInstance"),
        })
        .collect();
    assert_eq!(names, vec!["X1.R1", "X1.R2"]);
    let Statement::ElementInstance(r1) = &flat[0] else {
        unreachable!()
    };
    assert_eq!(r1.nodes, vec!["vin", "X1.mid"]);
    let Statement::ElementInstance(r2) = &flat[1] else {
        unreachable!()
    };
    assert_eq!(r2.nodes, vec!["X1.mid", "0"]);
}

#[test]
fn two_instances_of_the_same_subckt_get_distinct_internal_names() {
    let statements = vec![
        subckt("div", &["a", "b"]),
        element('R', "R1", &["a", "mid"]),
        element('R', "R2", &["mid", "b"]),
        ends("div"),
        x_call("X1", &["n1", "0"], "div"),
        x_call("X2", &["n2", "0"], "div"),
    ];
    let flat = flatten(&statements).unwrap();
    assert_eq!(flat.len(), 4);
    let Statement::ElementInstance(x1_r1) = &flat[0] else {
        unreachable!()
    };
    let Statement::ElementInstance(x2_r1) = &flat[2] else {
        unreachable!()
    };
    assert_eq!(x1_r1.nodes[1], "X1.mid");
    assert_eq!(x2_r1.nodes[1], "X2.mid");
    assert_ne!(x1_r1.name, x2_r1.name);
}

#[test]
fn nested_subckt_instantiation_composes_the_dotted_path() {
    let statements = vec![
        subckt("inner", &["p", "q"]),
        element('R', "R1", &["p", "q"]),
        ends("inner"),
        subckt("outer", &["a", "b"]),
        x_call("XI", &["a", "b"], "inner"),
        ends("outer"),
        x_call("X1", &["vin", "0"], "outer"),
    ];
    let flat = flatten(&statements).unwrap();
    assert_eq!(flat.len(), 1);
    let Statement::ElementInstance(r1) = &flat[0] else {
        unreachable!()
    };
    assert_eq!(r1.name, "X1.XI.R1");
    assert_eq!(r1.nodes, vec!["vin", "0"]);
}

#[test]
fn ground_inside_a_subckt_body_stays_the_global_reference_not_a_private_node() {
    // A capacitor whose far terminal is "0" inside the body must resolve to the real,
    // globally-shared ground -- not a per-instance private node -- or it silently floats
    // (open-circuits), decoupled from the rest of the circuit and from other instances'
    // own "0" references.
    let statements = vec![
        subckt("rc_leg", &["in", "out"]),
        element('R', "R1", &["in", "out"]),
        element('C', "C1", &["out", "0"]),
        ends("rc_leg"),
        x_call("X1", &["vin", "mid"], "rc_leg"),
        x_call("X2", &["mid", "vout"], "rc_leg"),
    ];
    let flat = flatten(&statements).unwrap();
    let grounded: Vec<&str> = flat
        .iter()
        .filter_map(|s| match s {
            Statement::ElementInstance(ei) if ei.name.ends_with(".C1") => {
                Some(ei.nodes[1].as_str())
            }
            _ => None,
        })
        .collect();
    assert_eq!(grounded, vec!["0", "0"]);
}

#[test]
fn a_recursive_subckt_is_rejected_not_infinite_looped() {
    let statements = vec![
        subckt("loop", &["a"]),
        x_call("X1", &["a"], "loop"),
        ends("loop"),
        x_call("XTOP", &["n"], "loop"),
    ];
    let err = flatten(&statements).unwrap_err();
    assert!(err.contains("recursive"), "unexpected error: {err}");
}

#[test]
fn an_undefined_subckt_reference_is_a_clear_error() {
    let statements = vec![x_call("X1", &["a", "b"], "nope")];
    let err = flatten(&statements).unwrap_err();
    assert!(err.contains("undefined subcircuit"), "unexpected: {err}");
}

#[test]
fn a_node_count_mismatch_is_a_clear_error() {
    let statements = vec![
        subckt("div", &["a", "b"]),
        element('R', "R1", &["a", "b"]),
        ends("div"),
        x_call("X1", &["only_one"], "div"),
    ];
    let err = flatten(&statements).unwrap_err();
    assert!(err.contains("node(s)"), "unexpected error: {err}");
}

#[test]
fn a_block_statement_inside_a_subckt_body_is_mangled_and_its_signal_refs_rewritten() {
    let statements = vec![
        subckt("reg", &["vin", "vout"]),
        Statement::BlockInstance(BlockInstance {
            name: "DUTY".to_string(),
            fields: vec![("kind".to_string(), "const".to_string())],
            span: 1..2,
        }),
        Statement::BlockInstance(BlockInstance {
            name: "MOD".to_string(),
            fields: vec![
                ("kind".to_string(), "pwm".to_string()),
                ("in".to_string(), "DUTY".to_string()),
            ],
            span: 1..2,
        }),
        ends("reg"),
        x_call("X1", &["vin", "vout"], "reg"),
    ];
    let flat = flatten(&statements).unwrap();
    assert_eq!(flat.len(), 2);
    let Statement::BlockInstance(duty) = &flat[0] else {
        unreachable!()
    };
    assert_eq!(duty.name, "X1.DUTY");
    let Statement::BlockInstance(modu) = &flat[1] else {
        unreachable!()
    };
    assert_eq!(modu.name, "X1.MOD");
    let in_field = modu.fields.iter().find(|(k, _)| k == "in").unwrap();
    assert_eq!(in_field.1, "X1.DUTY");
}
