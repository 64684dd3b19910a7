use layered_circuit::circuit::{BristolCircuit, LayeredCircuit};
use layered_circuit::error::CircuitError;
use layered_circuit::gate::{ingest_bristol_gates, BinaryOp, Gate, GateRecord, UnaryOp};
use layered_circuit::label::io_labels;
use layered_circuit::layering::separate_layers;

fn rec(op: &str, inputs: Vec<usize>, outputs: Vec<usize>) -> GateRecord {
    GateRecord { op: op.to_string(), inputs, outputs }
}

/// A 4-bit "greater than 10" circuit: inputs x at wires 0..4 (weights
/// 8, 4, 2, 1), output main at wire 6. x > 10 iff b8 and (b4 or (b2 and b1)).
fn gt10_source() -> BristolCircuit {
    BristolCircuit {
        wire_count: 7,
        gates: vec![
            rec("AND", vec![2, 3], vec![4]),
            rec("OR", vec![1, 4], vec![5]),
            rec("AND", vec![0, 5], vec![6]),
        ],
        input_name_to_wire_index: vec![("x".to_string(), 0)],
        output_name_to_wire_index: vec![("main".to_string(), 6)],
        input_widths: vec![4],
        output_widths: vec![1],
        constant_count: 0,
    }
}

#[test]
fn gt10_builds_three_layers() {
    let lc = LayeredCircuit::from_bristol(&gt10_source()).unwrap();
    assert_eq!(lc.wire_count, 7);
    assert_eq!(lc.layers.len(), 3);
    assert_eq!(
        lc.layers[0].gates,
        vec![Gate::Binary { op: BinaryOp::And, a: 2, b: 3, out: 4 }]
    );
    assert_eq!(
        lc.layers[1].gates,
        vec![Gate::Binary { op: BinaryOp::Or, a: 1, b: 4, out: 5 }]
    );
    assert_eq!(
        lc.layers[2].gates,
        vec![Gate::Binary { op: BinaryOp::And, a: 0, b: 5, out: 6 }]
    );
}

#[test]
fn gt10_prunes_every_non_output_wire_once() {
    let lc = LayeredCircuit::from_bristol(&gt10_source()).unwrap();
    // Wires 2 and 3 die with the first layer, 1 and 4 with the second, 0 and
    // 5 with the third; the output wire 6 is never pruned.
    assert_eq!(lc.layers[0].prunes, vec![2, 3]);
    assert_eq!(lc.layers[1].prunes, vec![1, 4]);
    assert_eq!(lc.layers[2].prunes, vec![0, 5]);
    let total: usize = lc.layers.iter().map(|l| l.prunes.len()).sum();
    assert_eq!(total, lc.wire_count - 1);
    let mut seen = vec![false; lc.wire_count];
    for layer in &lc.layers {
        for &p in &layer.prunes {
            assert!(!seen[p], "wire pruned twice");
            assert!(p != 6, "output wire pruned");
            seen[p] = true;
        }
    }
}

#[test]
fn every_gate_lands_in_exactly_one_layer() {
    let source = gt10_source();
    let lc = LayeredCircuit::from_bristol(&source).unwrap();
    let scheduled: usize = lc.layers.iter().map(|l| l.gates.len()).sum();
    assert_eq!(scheduled, source.gates.len());
}

#[test]
fn layer_gates_read_only_earlier_wires() {
    let lc = LayeredCircuit::from_bristol(&gt10_source()).unwrap();
    let mut resolved = vec![true, true, true, true, false, false, false];
    for layer in &lc.layers {
        for gate in &layer.gates {
            match *gate {
                Gate::Unary { in_, out, .. } => {
                    assert!(resolved[in_]);
                    assert!(!resolved[out]);
                }
                Gate::Binary { a, b, out, .. } => {
                    assert!(resolved[a]);
                    assert!(resolved[b]);
                    assert!(!resolved[out]);
                }
            }
        }
        for gate in &layer.gates {
            resolved[gate.out()] = true;
        }
    }
}

#[test]
fn ingest_maps_records_in_order() {
    let records = vec![
        rec("XOR", vec![0, 1], vec![2]),
        rec("NOT", vec![2], vec![3]),
        rec("COPY", vec![3], vec![4]),
    ];
    let gates = ingest_bristol_gates(&records).unwrap();
    assert_eq!(
        gates,
        vec![
            Gate::Binary { op: BinaryOp::Xor, a: 0, b: 1, out: 2 },
            Gate::Unary { op: UnaryOp::Not, in_: 2, out: 3 },
            Gate::Unary { op: UnaryOp::Copy, in_: 3, out: 4 },
        ]
    );
}

#[test]
fn unsupported_operator_is_rejected_by_name() {
    let mut source = gt10_source();
    source.gates[1] = rec("NAND", vec![1, 4], vec![5]);
    let err = LayeredCircuit::from_bristol(&source).unwrap_err();
    assert!(matches!(err, CircuitError::UnsupportedOperator { op } if op == "NAND"));
}

#[test]
fn constants_are_unsupported() {
    let mut source = gt10_source();
    source.constant_count = 1;
    let err = LayeredCircuit::from_bristol(&source).unwrap_err();
    assert!(matches!(err, CircuitError::UnsupportedFeature));
}

#[test]
fn label_width_mismatch_is_rejected() {
    let mut source = gt10_source();
    source.input_widths = vec![4, 4];
    let err = LayeredCircuit::from_bristol(&source).unwrap_err();
    assert!(matches!(err, CircuitError::LabelWidthMismatch));
}

#[test]
fn cyclic_gate_list_is_rejected() {
    // The NOT gate reads its own output, so it can never become ready.
    let source = BristolCircuit {
        wire_count: 2,
        gates: vec![rec("NOT", vec![1], vec![1])],
        input_name_to_wire_index: vec![("x".to_string(), 0)],
        output_name_to_wire_index: vec![("main".to_string(), 1)],
        input_widths: vec![1],
        output_widths: vec![1],
        constant_count: 0,
    };
    let err = LayeredCircuit::from_bristol(&source).unwrap_err();
    assert!(matches!(err, CircuitError::SchedulingInvariantViolation));
}

#[test]
fn out_of_range_wire_is_rejected() {
    let source = BristolCircuit {
        wire_count: 2,
        gates: vec![rec("NOT", vec![0], vec![9])],
        input_name_to_wire_index: vec![("x".to_string(), 0)],
        output_name_to_wire_index: vec![("main".to_string(), 1)],
        input_widths: vec![1],
        output_widths: vec![1],
        constant_count: 0,
    };
    let err = LayeredCircuit::from_bristol(&source).unwrap_err();
    assert!(matches!(err, CircuitError::SchedulingInvariantViolation));
}

#[test]
fn labels_are_ordered_by_starting_wire() {
    let pairs = vec![("y".to_string(), 4), ("x".to_string(), 0)];
    let widths = vec![4, 4];
    let labels = io_labels(&pairs, &widths).unwrap();
    assert_eq!(labels.len(), 2);
    assert_eq!(labels[0].name, "x");
    assert_eq!(labels[0].start, 0);
    assert_eq!(labels[0].bits, 4);
    assert_eq!(labels[1].name, "y");
    assert_eq!(labels[1].start, 4);
    assert_eq!(labels[1].bits, 4);
}

#[test]
fn io_labels_reject_count_mismatch() {
    let pairs = vec![("x".to_string(), 0)];
    let widths = vec![1, 1];
    let err = io_labels(&pairs, &widths).unwrap_err();
    assert!(matches!(err, CircuitError::LabelWidthMismatch));
}

#[test]
fn zero_gate_circuit_has_zero_layers() {
    let source = BristolCircuit {
        wire_count: 2,
        gates: vec![],
        input_name_to_wire_index: vec![("x".to_string(), 0)],
        output_name_to_wire_index: vec![("main".to_string(), 0)],
        input_widths: vec![2],
        output_widths: vec![2],
        constant_count: 0,
    };
    let lc = LayeredCircuit::from_bristol(&source).unwrap();
    assert_eq!(lc.layers.len(), 0);
}

#[test]
fn separate_layers_rejects_unused_wires() {
    // Wire 2 is neither read nor an output, so it is never freed and the
    // liveness count cannot match.
    let gates = vec![Gate::Unary { op: UnaryOp::Not, in_: 0, out: 1 }];
    let r = separate_layers(&gates, 3, vec![0], vec![1]);
    assert!(matches!(r, Err(CircuitError::SchedulingInvariantViolation)));
}

#[test]
fn separate_layers_schedules_a_chain() {
    let gates = vec![
        Gate::Unary { op: UnaryOp::Not, in_: 0, out: 1 },
        Gate::Unary { op: UnaryOp::Copy, in_: 1, out: 2 },
    ];
    let layers = separate_layers(&gates, 3, vec![0], vec![2]).unwrap();
    assert_eq!(layers.len(), 2);
    assert_eq!(layers[0].gates, vec![gates[0]]);
    assert_eq!(layers[1].gates, vec![gates[1]]);
    assert_eq!(layers[0].prunes, vec![0]);
    assert_eq!(layers[1].prunes, vec![1]);
}

#[test]
fn error_descriptions_match() {
    assert_eq!(
        CircuitError::UnsupportedFeature.describe(),
        "Bristol constants are not supported"
    );
    assert_eq!(
        CircuitError::LabelWidthMismatch.describe(),
        "Mismatch between input/output count and widths"
    );
    assert_eq!(
        CircuitError::InputLengthMismatch { name: "x".to_string() }.describe(),
        "Input length mismatch"
    );
}

#[test]
fn zero_gates_layer_into_zero_layers() {
    let layers = separate_layers(&vec![], 2, vec![0, 1], vec![0, 1]).unwrap();
    assert_eq!(layers.len(), 0);
}

#[test]
fn prunes_happen_at_the_last_consumer() {
    // Wire 1 is read by layer 1 (the COPY) and layer 2 (the AND): it must be
    // pruned exactly in layer 2, neither earlier nor later.
    let source = BristolCircuit {
        wire_count: 4,
        gates: vec![
            rec("NOT", vec![0], vec![1]),
            rec("COPY", vec![1], vec![2]),
            rec("AND", vec![1, 2], vec![3]),
        ],
        input_name_to_wire_index: vec![("x".to_string(), 0)],
        output_name_to_wire_index: vec![("main".to_string(), 3)],
        input_widths: vec![1],
        output_widths: vec![1],
        constant_count: 0,
    };
    let lc = LayeredCircuit::from_bristol(&source).unwrap();
    assert_eq!(lc.layers.len(), 3);
    assert_eq!(lc.layers[0].prunes, vec![0]);
    assert_eq!(lc.layers[1].prunes, Vec::<usize>::new());
    assert_eq!(lc.layers[2].prunes, vec![1, 2]);
}
