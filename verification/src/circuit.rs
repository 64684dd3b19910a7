use vstd::prelude::*;

use crate::error::CircuitError;
use crate::gate::GateRecord;
use crate::gate::ingest_bristol_gates;
use crate::gate::op_supported;
use crate::gate::record_arity_ok;
use crate::gate::records_gates;
use crate::label::CircuitLabel;
use crate::label::io_labels;
use crate::label::io_wires;
use crate::label::labels_resolved;
use crate::label::labels_wires;
use crate::layering::Layer;
use crate::layering::layers_gates;
use crate::layering::layers_in_range;
use crate::layering::layers_prunes;
use crate::layering::level_synchronous;
use crate::layering::prune_timing_ok;
use crate::layering::prunes_ok;
use crate::layering::separate_layers;
use crate::layering::topo_valid;

verus! {

/// A flat circuit in the Bristol representation, as the upstream compiler
/// emits it: a topologically unordered gate list over `wire_count` numbered
/// wires, with named input and output wire ranges given as name-to-starting-
/// index pairs plus ordered per-name bit widths, and a count of declared
/// constants (which this core requires to be zero).
#[derive(Debug)]
pub struct BristolCircuit {
    pub wire_count: usize,
    pub gates: Vec<GateRecord>,
    pub input_name_to_wire_index: Vec<(String, usize)>,
    pub output_name_to_wire_index: Vec<(String, usize)>,
    pub input_widths: Vec<usize>,
    pub output_widths: Vec<usize>,
    pub constant_count: usize,
}

/// Every label's wire range fits below `wire_count`.
pub open spec fn labels_fit(labels: Seq<CircuitLabel>, wire_count: usize) -> bool {
    forall|j: int|
        0 <= j < labels.len() ==> (#[trigger] labels[j]).start + labels[j].bits <= wire_count
}

/// A flat gate list scheduled into layers: every gate of a layer depends only
/// on wires resolved by earlier layers or by the primary inputs, and each
/// layer lists the wires that die after it runs.
///
/// A `LayeredCircuit` is built once and is thereafter read-only; it may be
/// evaluated repeatedly with different input assignments.
#[derive(Debug)]
pub struct LayeredCircuit {
    pub wire_count: usize,
    pub inputs: Vec<CircuitLabel>,
    pub outputs: Vec<CircuitLabel>,
    pub layers: Vec<Layer>,
}

impl LayeredCircuit {
    /// What construction from a source circuit guarantees of the result.
    pub open spec fn built_from(self, source: BristolCircuit) -> bool {
        &&& source.constant_count == 0
        &&& self.wire_count == source.wire_count
        &&& labels_resolved(source.input_name_to_wire_index@, source.input_widths@, self.inputs@)
        &&& labels_resolved(
            source.output_name_to_wire_index@,
            source.output_widths@,
            self.outputs@,
        )
        &&& labels_fit(self.inputs@, self.wire_count)
        &&& labels_fit(self.outputs@, self.wire_count)
        &&& layers_gates(self.layers@).to_multiset() == records_gates(
            source.gates@,
        ).to_multiset()
        &&& topo_valid(labels_wires(self.inputs@), self.layers@)
        &&& layers_in_range(self.layers@, self.wire_count)
        &&& forall|k: int|
            0 <= k < self.layers@.len() ==> (#[trigger] self.layers@[k]).gates@.len() > 0
        &&& layers_prunes(self.layers@).no_duplicates()
        &&& prunes_ok(
            layers_prunes(self.layers@),
            self.wire_count,
            labels_wires(self.outputs@),
        )
        &&& prune_timing_ok(self.layers@)
        &&& level_synchronous(labels_wires(self.inputs@), self.layers@)
        &&& layers_prunes(self.layers@).len() + labels_wires(self.outputs@).len()
            == self.wire_count
    }

    /// Builds a layered circuit from a flat Bristol circuit. Construction
    /// validates the source and fails fatally rather than returning any
    /// partial circuit:
    ///
    /// - `UnsupportedFeature` exactly when the source declares constants;
    /// - `LabelWidthMismatch` exactly when, with no constants declared, an
    ///   input or output name count differs from its width count;
    /// - `UnsupportedOperator` exactly when, with the above checks passed,
    ///   some gate record names an operator outside AND, OR, XOR, NOT and
    ///   COPY (the first such operator is named);
    /// - `SchedulingInvariantViolation` when no valid layering exists
    ///   (out-of-range wires, cyclic or duplicated assignments, or wires
    ///   never freed).
    ///
    /// On success the result satisfies `built_from` for this source: every
    /// gate scheduled in exactly one layer, topological validity, level
    /// synchrony, every non-output wire pruned exactly once, and each wire
    /// released exactly at its last consumer's layer. A gate-free source
    /// whose resolved labels fit the wire count, with its outputs covering
    /// every wire, is always accepted.
    pub fn from_bristol(bristol_circuit: &BristolCircuit) -> (r: Result<
        LayeredCircuit,
        CircuitError,
    >)
        requires
            forall|i: int|
                0 <= i < bristol_circuit.gates@.len() ==> #[trigger] record_arity_ok(
                    bristol_circuit.gates@[i],
                ),
        ensures
            match r {
                Ok(lc) => lc.built_from(*bristol_circuit),
                Err(e) => match e {
                    CircuitError::UnsupportedFeature => bristol_circuit.constant_count != 0,
                    CircuitError::LabelWidthMismatch => {
                        &&& bristol_circuit.constant_count == 0
                        &&& {
                            ||| bristol_circuit.input_name_to_wire_index@.len()
                                != bristol_circuit.input_widths@.len()
                            ||| bristol_circuit.output_name_to_wire_index@.len()
                                != bristol_circuit.output_widths@.len()
                        }
                    },
                    CircuitError::UnsupportedOperator { op } => {
                        &&& bristol_circuit.constant_count == 0
                        &&& bristol_circuit.input_name_to_wire_index@.len()
                            == bristol_circuit.input_widths@.len()
                        &&& bristol_circuit.output_name_to_wire_index@.len()
                            == bristol_circuit.output_widths@.len()
                        &&& exists|i: int|
                            {
                                &&& 0 <= i < bristol_circuit.gates@.len()
                                &&& !op_supported(#[trigger] bristol_circuit.gates@[i].op@)
                                &&& op@ == bristol_circuit.gates@[i].op@
                                &&& forall|t: int|
                                    0 <= t < i ==> op_supported(
                                        #[trigger] bristol_circuit.gates@[t].op@,
                                    )
                            }
                    },
                    CircuitError::SchedulingInvariantViolation => {
                        &&& bristol_circuit.constant_count == 0
                        &&& bristol_circuit.input_name_to_wire_index@.len()
                            == bristol_circuit.input_widths@.len()
                        &&& bristol_circuit.output_name_to_wire_index@.len()
                            == bristol_circuit.output_widths@.len()
                    },
                    _ => false,
                },
            },
            ({
                &&& bristol_circuit.constant_count == 0
                &&& bristol_circuit.gates@.len() == 0
                &&& bristol_circuit.input_name_to_wire_index@.len()
                    == bristol_circuit.input_widths@.len()
                &&& bristol_circuit.output_name_to_wire_index@.len()
                    == bristol_circuit.output_widths@.len()
                &&& forall|labels: Seq<CircuitLabel>|
                    labels_resolved(
                        bristol_circuit.input_name_to_wire_index@,
                        bristol_circuit.input_widths@,
                        labels,
                    ) ==> #[trigger] labels_fit(labels, bristol_circuit.wire_count)
                &&& forall|labels: Seq<CircuitLabel>|
                    labels_resolved(
                        bristol_circuit.output_name_to_wire_index@,
                        bristol_circuit.output_widths@,
                        labels,
                    ) ==> #[trigger] labels_fit(labels, bristol_circuit.wire_count)
                        && labels_wires(labels).len() == bristol_circuit.wire_count
            }) ==> r is Ok,
    {
        if bristol_circuit.constant_count != 0 {
            return Err(CircuitError::UnsupportedFeature);
        }

        let inputs = match io_labels(
            &bristol_circuit.input_name_to_wire_index,
            &bristol_circuit.input_widths,
        ) {
            Ok(labels) => labels,
            Err(e) => { return Err(e) },
        };
        let outputs = match io_labels(
            &bristol_circuit.output_name_to_wire_index,
            &bristol_circuit.output_widths,
        ) {
            Ok(labels) => labels,
            Err(e) => { return Err(e) },
        };

        let wire_count = bristol_circuit.wire_count;
        if !labels_within(&inputs, wire_count) || !labels_within(&outputs, wire_count) {
            return Err(CircuitError::SchedulingInvariantViolation);
        }

        proof {
            lemma_labels_wires_fit(inputs@, wire_count);
            lemma_labels_wires_fit(outputs@, wire_count);
        }
        let input_wires = io_wires(&inputs);
        let output_wires = io_wires(&outputs);

        let gates = match ingest_bristol_gates(&bristol_circuit.gates) {
            Ok(gates) => gates,
            Err(e) => { return Err(e) },
        };

        let layers = match separate_layers(&gates, wire_count, input_wires, output_wires) {
            Ok(layers) => layers,
            Err(e) => { return Err(e) },
        };

        Ok(LayeredCircuit { wire_count, inputs, outputs, layers })
    }
}

/// Labels whose ranges fit below the wire count cover only in-range wires.
proof fn lemma_labels_wires_fit(labels: Seq<CircuitLabel>, wire_count: usize)
    requires
        labels_fit(labels, wire_count),
    ensures
        forall|t: int|
            0 <= t < labels_wires(labels).len() ==> #[trigger] labels_wires(labels)[t]
                < wire_count,
    decreases labels.len(),
{
    if labels.len() > 0 {
        let prefix = labels.drop_last();
        assert forall|j: int| 0 <= j < prefix.len() implies (#[trigger] prefix[j]).start
            + prefix[j].bits <= wire_count by {
            assert(prefix[j] == labels[j]);
        }
        lemma_labels_wires_fit(prefix, wire_count);
        let last = labels.last();
        assert(last == labels[labels.len() - 1]);
        assert forall|t: int| 0 <= t < labels_wires(labels).len() implies #[trigger] labels_wires(
            labels,
        )[t] < wire_count by {
            let base = labels_wires(prefix);
            if t >= base.len() {
                assert(labels_wires(labels)[t] == crate::label::label_wires(last)[t - base.len()]);
            }
        }
    }
}

/// Whether every label's wire range lies within the circuit's wire count.
fn labels_within(labels: &Vec<CircuitLabel>, wire_count: usize) -> (r: bool)
    ensures
        r == labels_fit(labels@, wire_count),
{
    let n = labels.len();
    for j in 0..n
        invariant
            n == labels@.len(),
            forall|t: int|
                0 <= t < j ==> (#[trigger] labels@[t]).start + labels@[t].bits <= wire_count,
    {
        let lab = &labels[j];
        if lab.bits > wire_count || lab.start > wire_count - lab.bits {
            proof {
                assert(!labels_fit(labels@, wire_count));
            }
            return false;
        }
    }
    true
}

} // verus!
