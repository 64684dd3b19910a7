use vstd::prelude::*;

use crate::error::CircuitError;

verus! {

/// A unary boolean operator.
#[derive(Clone, Copy, Debug, PartialEq, Eq, Structural)]
pub enum UnaryOp {
    Not,
    Copy,
}

/// A binary boolean operator.
#[derive(Clone, Copy, Debug, PartialEq, Eq, Structural)]
pub enum BinaryOp {
    And,
    Or,
    Xor,
}

/// One boolean operation connecting operand wires to one output wire.
///
/// Gates are immutable once ingested. Across a well-formed circuit the output
/// wires of all gates are pairwise distinct (single-assignment wires).
#[derive(Clone, Copy, Debug, PartialEq, Eq, Structural)]
pub enum Gate {
    Unary { op: UnaryOp, in_: usize, out: usize },
    Binary { op: BinaryOp, a: usize, b: usize, out: usize },
}

impl Gate {
    /// The operand wires, in declaration order.
    pub open spec fn spec_inputs(self) -> Seq<usize> {
        match self {
            Gate::Unary { in_, .. } => seq![in_],
            Gate::Binary { a, b, .. } => seq![a, b],
        }
    }

    /// The output wire.
    pub open spec fn spec_out(self) -> usize {
        match self {
            Gate::Unary { out, .. } => out,
            Gate::Binary { out, .. } => out,
        }
    }

    /// The operand wires as a vector.
    pub fn inputs(&self) -> (r: Vec<usize>)
        ensures
            r@ == self.spec_inputs(),
    {
        match self {
            Gate::Unary { in_, .. } => {
                let r = vec![*in_];
                assert(r@ =~= self.spec_inputs());
                r
            },
            Gate::Binary { a, b, .. } => {
                let r = vec![*a, *b];
                assert(r@ =~= self.spec_inputs());
                r
            },
        }
    }

    /// The output wire.
    pub fn out(&self) -> (r: usize)
        ensures
            r == self.spec_out(),
    {
        match self {
            Gate::Unary { out, .. } => *out,
            Gate::Binary { out, .. } => *out,
        }
    }
}

/// One externally defined gate record, as the flat circuit format supplies
/// it: an operator name plus input and output wire index lists.
#[derive(Debug, Clone)]
pub struct GateRecord {
    pub op: String,
    pub inputs: Vec<usize>,
    pub outputs: Vec<usize>,
}

/// Whether an operator name is one this core supports.
pub open spec fn op_supported(op: Seq<char>) -> bool {
    ||| op == "XOR"@
    ||| op == "AND"@
    ||| op == "OR"@
    ||| op == "NOT"@
    ||| op == "COPY"@
}

/// Whether a record carries the wire indices its operator requires: two
/// inputs and one output for a binary operator, one input and one output for
/// a unary one. The source format guarantees this of every record it emits.
pub open spec fn record_arity_ok(r: GateRecord) -> bool {
    &&& ((r.op@ == "XOR"@ || r.op@ == "AND"@ || r.op@ == "OR"@) ==> r.inputs@.len() >= 2
        && r.outputs@.len() >= 1)
    &&& ((r.op@ == "NOT"@ || r.op@ == "COPY"@) ==> r.inputs@.len() >= 1 && r.outputs@.len() >= 1)
}

/// The canonical gate a supported record stands for. Meaningful only when
/// `op_supported(r.op@)` and `record_arity_ok(r)` hold.
pub open spec fn record_gate(r: GateRecord) -> Gate {
    if r.op@ == "XOR"@ {
        Gate::Binary { op: BinaryOp::Xor, a: r.inputs@[0], b: r.inputs@[1], out: r.outputs@[0] }
    } else if r.op@ == "AND"@ {
        Gate::Binary { op: BinaryOp::And, a: r.inputs@[0], b: r.inputs@[1], out: r.outputs@[0] }
    } else if r.op@ == "OR"@ {
        Gate::Binary { op: BinaryOp::Or, a: r.inputs@[0], b: r.inputs@[1], out: r.outputs@[0] }
    } else if r.op@ == "NOT"@ {
        Gate::Unary { op: UnaryOp::Not, in_: r.inputs@[0], out: r.outputs@[0] }
    } else {
        Gate::Unary { op: UnaryOp::Copy, in_: r.inputs@[0], out: r.outputs@[0] }
    }
}

/// The canonical gates of a whole record list, positionally.
pub open spec fn records_gates(records: Seq<GateRecord>) -> Seq<Gate> {
    records.map_values(|r: GateRecord| record_gate(r))
}

/// Maps each source gate record to its canonical gate, preserving order
/// (source gate `i` becomes logical gate `i`). Fails on the first record
/// whose operator name is unsupported, naming that operator.
pub fn ingest_bristol_gates(records: &Vec<GateRecord>) -> (r: Result<Vec<Gate>, CircuitError>)
    requires
        forall|i: int| 0 <= i < records@.len() ==> #[trigger] record_arity_ok(records@[i]),
    ensures
        match r {
            Ok(gates) => {
                &&& gates@ == records_gates(records@)
                &&& forall|i: int|
                    0 <= i < records@.len() ==> #[trigger] op_supported(records@[i].op@)
            },
            Err(e) => {
                &&& e matches CircuitError::UnsupportedOperator { op }
                &&& exists|i: int|
                    {
                        &&& 0 <= i < records@.len()
                        &&& !op_supported(#[trigger] records@[i].op@)
                        &&& op@ == records@[i].op@
                        &&& forall|t: int| 0 <= t < i ==> op_supported(#[trigger] records@[t].op@)
                    }
            },
        },
{
    let xor_name = "XOR".to_owned();
    let and_name = "AND".to_owned();
    let or_name = "OR".to_owned();
    let not_name = "NOT".to_owned();
    let copy_name = "COPY".to_owned();
    let mut gates: Vec<Gate> = Vec::new();
    let n = records.len();
    for i in 0..n
        invariant
            n == records@.len(),
            forall|t: int| 0 <= t < n ==> #[trigger] record_arity_ok(records@[t]),
            xor_name@ == "XOR"@,
            and_name@ == "AND"@,
            or_name@ == "OR"@,
            not_name@ == "NOT"@,
            copy_name@ == "COPY"@,
            gates@.len() == i,
            forall|t: int| 0 <= t < i ==> gates@[t] == record_gate(records@[t]),
            forall|t: int| 0 <= t < i ==> op_supported(#[trigger] records@[t].op@),
    {
        let record = &records[i];
        proof {
            assert(record_arity_ok(records@[i as int]));
        }
        let gate: Gate = if record.op == xor_name {
            Gate::Binary { op: BinaryOp::Xor, a: record.inputs[0], b: record.inputs[1], out: record.outputs[0] }
        } else if record.op == and_name {
            Gate::Binary { op: BinaryOp::And, a: record.inputs[0], b: record.inputs[1], out: record.outputs[0] }
        } else if record.op == or_name {
            Gate::Binary { op: BinaryOp::Or, a: record.inputs[0], b: record.inputs[1], out: record.outputs[0] }
        } else if record.op == not_name {
            Gate::Unary { op: UnaryOp::Not, in_: record.inputs[0], out: record.outputs[0] }
        } else if record.op == copy_name {
            Gate::Unary { op: UnaryOp::Copy, in_: record.inputs[0], out: record.outputs[0] }
        } else {
            return Err(CircuitError::UnsupportedOperator { op: record.op.clone() });
        };
        gates.push(gate);
    }
    proof {
        assert(gates@ =~= records_gates(records@));
    }
    Ok(gates)
}

} // verus!
