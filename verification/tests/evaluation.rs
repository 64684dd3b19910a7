use layered_circuit::circuit::{BristolCircuit, LayeredCircuit};
use layered_circuit::error::CircuitError;
use layered_circuit::eval::Mod2;
use layered_circuit::gate::GateRecord;
use layered_circuit::label::CircuitLabel;
use layered_circuit::layering::Layer;
use layered_circuit::gate::{Gate, UnaryOp};

fn rec(op: &str, inputs: Vec<usize>, outputs: Vec<usize>) -> GateRecord {
    GateRecord { op: op.to_string(), inputs, outputs }
}

fn gt10_source() -> BristolCircuit {
    BristolCircuit {
        wire_count: 7,
        gates: vec![
            rec("AND", vec![2, 3], vec![4]),
            rec("OR", vec![1, 4], vec![5]),
            rec("AND", vec![0, 5], vec![6]),
        ],
        input_name_to_wire_index: vec![("x".to_string(), 0)],
        output_name_to_wire_index: vec![("main".to_string(), 6)],
        input_widths: vec![4],
        output_widths: vec![1],
        constant_count: 0,
    }
}

/// A reference interpreter: evaluates the flat gate records one by one in
/// their original order over a dense wire table.
fn reference_eval(source: &BristolCircuit, x: &[bool]) -> Vec<bool> {
    let mut wires: Vec<Option<bool>> = vec![None; source.wire_count];
    let (name, start) = (&source.input_name_to_wire_index[0].0, source.input_name_to_wire_index[0].1);
    assert_eq!(name, "x");
    for (i, &bit) in x.iter().enumerate() {
        wires[start + i] = Some(bit);
    }
    for gate in &source.gates {
        let value = match gate.op.as_str() {
            "AND" => wires[gate.inputs[0]].unwrap() & wires[gate.inputs[1]].unwrap(),
            "OR" => wires[gate.inputs[0]].unwrap() | wires[gate.inputs[1]].unwrap(),
            "XOR" => wires[gate.inputs[0]].unwrap() ^ wires[gate.inputs[1]].unwrap(),
            "NOT" => !wires[gate.inputs[0]].unwrap(),
            "COPY" => wires[gate.inputs[0]].unwrap(),
            other => panic!("unexpected operator {}", other),
        };
        wires[gate.outputs[0]] = Some(value);
    }
    let out_start = source.output_name_to_wire_index[0].1;
    (0..source.output_widths[0]).map(|i| wires[out_start + i].unwrap()).collect()
}

#[test]
fn gt10_on_twelve_is_true() {
    // x = [1, 1, 0, 0] with weights 8, 4, 2, 1 encodes 12, and 12 > 10.
    let lc = LayeredCircuit::from_bristol(&gt10_source()).unwrap();
    let inputs = vec![("x".to_string(), vec![true, true, false, false])];
    let outputs = lc.eval(&inputs).unwrap();
    assert_eq!(outputs.len(), 1);
    assert_eq!(outputs[0].0, "main");
    assert_eq!(outputs[0].1, vec![true]);
}

#[test]
fn gt10_on_ten_is_false() {
    // x = [1, 0, 1, 0] encodes 10, and 10 is not greater than 10.
    let lc = LayeredCircuit::from_bristol(&gt10_source()).unwrap();
    let inputs = vec![("x".to_string(), vec![true, false, true, false])];
    let outputs = lc.eval(&inputs).unwrap();
    assert_eq!(outputs[0].1, vec![false]);
}

#[test]
fn gt10_matches_reference_on_all_inputs() {
    let source = gt10_source();
    let lc = LayeredCircuit::from_bristol(&source).unwrap();
    for value in 0..16u32 {
        let bits: Vec<bool> = (0..4).map(|i| value & (8 >> i) != 0).collect();
        let expected = reference_eval(&source, &bits);
        assert_eq!(expected, vec![value > 10], "reference disagrees at {}", value);
        let outputs = lc.eval(&vec![("x".to_string(), bits)]).unwrap();
        assert_eq!(outputs[0].1, expected, "layered evaluation differs at {}", value);
    }
}

#[test]
fn single_and_gate_round_trip() {
    // A 2-bit input x = [true, false] and one AND gate: layered evaluation
    // must equal direct gate-by-gate evaluation in original order.
    let source = BristolCircuit {
        wire_count: 3,
        gates: vec![rec("AND", vec![0, 1], vec![2])],
        input_name_to_wire_index: vec![("x".to_string(), 0)],
        output_name_to_wire_index: vec![("main".to_string(), 2)],
        input_widths: vec![2],
        output_widths: vec![1],
        constant_count: 0,
    };
    let lc = LayeredCircuit::from_bristol(&source).unwrap();
    let bits = vec![true, false];
    let expected = reference_eval(&source, &bits);
    let outputs = lc.eval(&vec![("x".to_string(), bits)]).unwrap();
    assert_eq!(outputs[0].1, expected);
    assert_eq!(outputs[0].1, vec![false]);
}

#[test]
fn mod2_agrees_with_plain_booleans() {
    // The same schedule evaluated over plain booleans and over integers mod 2
    // must encode the same bits: the evaluator never special-cases the type.
    let lc = LayeredCircuit::from_bristol(&gt10_source()).unwrap();
    for value in 0..16u32 {
        let bits: Vec<bool> = (0..4).map(|i| value & (8 >> i) != 0).collect();
        let bool_out = lc.eval(&vec![("x".to_string(), bits.clone())]).unwrap();
        // Use values 2 and 3 as well as 0 and 1: only parity matters.
        let mod2_bits: Vec<Mod2> = bits
            .iter()
            .enumerate()
            .map(|(i, &b)| Mod2 { val: (if b { 1 } else { 0 }) + 2 * (i as u8 % 2) })
            .collect();
        let mod2_out = lc.eval(&vec![("x".to_string(), mod2_bits)]).unwrap();
        assert_eq!(bool_out[0].0, mod2_out[0].0);
        let decoded: Vec<bool> = mod2_out[0].1.iter().map(|m| m.val % 2 == 1).collect();
        assert_eq!(decoded, bool_out[0].1);
    }
}

#[test]
fn short_input_fails_naming_x() {
    // Supplying x with 3 values when the label declares 4 bits must fail
    // with a length mismatch naming x, not silently truncate or pad.
    let lc = LayeredCircuit::from_bristol(&gt10_source()).unwrap();
    let inputs = vec![("x".to_string(), vec![true, true, false])];
    let err = lc.eval(&inputs).unwrap_err();
    assert!(matches!(err, CircuitError::InputLengthMismatch { name } if name == "x"));
}

#[test]
fn missing_input_fails_naming_x() {
    let lc = LayeredCircuit::from_bristol(&gt10_source()).unwrap();
    let inputs: Vec<(String, Vec<bool>)> = vec![("y".to_string(), vec![true])];
    let err = lc.eval(&inputs).unwrap_err();
    assert!(matches!(err, CircuitError::InputLengthMismatch { name } if name == "x"));
}

#[test]
fn not_and_copy_chain_evaluates() {
    let source = BristolCircuit {
        wire_count: 3,
        gates: vec![rec("NOT", vec![0], vec![1]), rec("COPY", vec![1], vec![2])],
        input_name_to_wire_index: vec![("x".to_string(), 0)],
        output_name_to_wire_index: vec![("main".to_string(), 2)],
        input_widths: vec![1],
        output_widths: vec![1],
        constant_count: 0,
    };
    let lc = LayeredCircuit::from_bristol(&source).unwrap();
    let outputs = lc.eval(&vec![("x".to_string(), vec![true])]).unwrap();
    assert_eq!(outputs[0].1, vec![false]);
    let outputs = lc.eval(&vec![("x".to_string(), vec![false])]).unwrap();
    assert_eq!(outputs[0].1, vec![true]);
}

#[test]
fn xor_truth_table() {
    let source = BristolCircuit {
        wire_count: 3,
        gates: vec![rec("XOR", vec![0, 1], vec![2])],
        input_name_to_wire_index: vec![("x".to_string(), 0)],
        output_name_to_wire_index: vec![("main".to_string(), 2)],
        input_widths: vec![2],
        output_widths: vec![1],
        constant_count: 0,
    };
    let lc = LayeredCircuit::from_bristol(&source).unwrap();
    for (a, b) in [(false, false), (false, true), (true, false), (true, true)] {
        let outputs = lc.eval(&vec![("x".to_string(), vec![a, b])]).unwrap();
        assert_eq!(outputs[0].1, vec![a != b]);
    }
}

#[test]
fn zero_gate_circuit_passes_inputs_through() {
    let source = BristolCircuit {
        wire_count: 2,
        gates: vec![],
        input_name_to_wire_index: vec![("x".to_string(), 0)],
        output_name_to_wire_index: vec![("main".to_string(), 0)],
        input_widths: vec![2],
        output_widths: vec![2],
        constant_count: 0,
    };
    let lc = LayeredCircuit::from_bristol(&source).unwrap();
    let outputs = lc.eval(&vec![("x".to_string(), vec![true, false])]).unwrap();
    assert_eq!(outputs[0].1, vec![true, false]);
}

#[test]
fn schedule_is_reusable_across_evaluations() {
    let lc = LayeredCircuit::from_bristol(&gt10_source()).unwrap();
    let first = lc.eval(&vec![("x".to_string(), vec![true, true, true, true])]).unwrap();
    assert_eq!(first[0].1, vec![true]);
    let second = lc.eval(&vec![("x".to_string(), vec![false, true, true, true])]).unwrap();
    assert_eq!(second[0].1, vec![false]);
}

#[test]
fn broken_schedule_reports_missing_wire() {
    // A hand-built schedule whose gate reads a wire nothing resolves.
    let lc = LayeredCircuit {
        wire_count: 2,
        inputs: vec![CircuitLabel { name: "x".to_string(), start: 0, bits: 1 }],
        outputs: vec![CircuitLabel { name: "main".to_string(), start: 1, bits: 1 }],
        layers: vec![Layer {
            gates: vec![Gate::Unary { op: UnaryOp::Not, in_: 5, out: 1 }],
            prunes: vec![],
        }],
    };
    let err = lc.eval(&vec![("x".to_string(), vec![true])]).unwrap_err();
    assert!(matches!(err, CircuitError::MissingWireValue));
}

#[test]
fn output_wire_read_by_a_gate_is_retained() {
    // Wire 1 is both a declared output and an operand of the second gate, so
    // it must never be pruned and must still hold its value at read-out.
    let source = BristolCircuit {
        wire_count: 3,
        gates: vec![rec("NOT", vec![0], vec![1]), rec("NOT", vec![1], vec![2])],
        input_name_to_wire_index: vec![("x".to_string(), 0)],
        output_name_to_wire_index: vec![("a".to_string(), 1), ("b".to_string(), 2)],
        input_widths: vec![1],
        output_widths: vec![1, 1],
        constant_count: 0,
    };
    let lc = LayeredCircuit::from_bristol(&source).unwrap();
    for layer in &lc.layers {
        assert!(!layer.prunes.contains(&1));
        assert!(!layer.prunes.contains(&2));
    }
    let total: usize = lc.layers.iter().map(|l| l.prunes.len()).sum();
    assert_eq!(total, 1);
    let outputs = lc.eval(&vec![("x".to_string(), vec![true])]).unwrap();
    assert_eq!(outputs.len(), 2);
    assert_eq!(outputs[0], ("a".to_string(), vec![false]));
    assert_eq!(outputs[1], ("b".to_string(), vec![true]));
}

#[test]
fn independent_gates_share_one_layer() {
    let source = BristolCircuit {
        wire_count: 4,
        gates: vec![rec("NOT", vec![0], vec![2]), rec("NOT", vec![1], vec![3])],
        input_name_to_wire_index: vec![("x".to_string(), 0)],
        output_name_to_wire_index: vec![("main".to_string(), 2)],
        input_widths: vec![2],
        output_widths: vec![2],
        constant_count: 0,
    };
    let lc = LayeredCircuit::from_bristol(&source).unwrap();
    assert_eq!(lc.layers.len(), 1);
    assert_eq!(lc.layers[0].gates.len(), 2);
    let outputs = lc.eval(&vec![("x".to_string(), vec![true, false])]).unwrap();
    assert_eq!(outputs[0].1, vec![false, true]);
}

#[test]
fn inputs_are_looked_up_by_name_not_position() {
    let source = BristolCircuit {
        wire_count: 3,
        gates: vec![rec("AND", vec![0, 1], vec![2])],
        input_name_to_wire_index: vec![("x".to_string(), 0), ("y".to_string(), 1)],
        output_name_to_wire_index: vec![("main".to_string(), 2)],
        input_widths: vec![1, 1],
        output_widths: vec![1],
        constant_count: 0,
    };
    let lc = LayeredCircuit::from_bristol(&source).unwrap();
    // Supply the assignments in the opposite order to the declarations.
    let inputs = vec![("y".to_string(), vec![true]), ("x".to_string(), vec![true])];
    let outputs = lc.eval(&inputs).unwrap();
    assert_eq!(outputs[0].1, vec![true]);
    let inputs = vec![("y".to_string(), vec![false]), ("x".to_string(), vec![true])];
    let outputs = lc.eval(&inputs).unwrap();
    assert_eq!(outputs[0].1, vec![false]);
}
