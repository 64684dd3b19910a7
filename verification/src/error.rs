use vstd::prelude::*;

verus! {

/// The failure modes of circuit construction and evaluation.
///
/// Every error is fatal at its point of detection: a failed construction
/// returns no partially built circuit, and a failed evaluation aborts that
/// call only, leaving the schedule valid and reusable.
#[derive(Debug, Clone)]
pub enum CircuitError {
    /// The source circuit declares constants, which this core does not
    /// support.
    UnsupportedFeature,
    /// A gate record names an operator outside AND, OR, XOR, NOT and COPY.
    UnsupportedOperator { op: String },
    /// The number of declared input or output names differs from the number
    /// of declared bit widths.
    LabelWidthMismatch,
    /// A supplied input's value count differs from its declared bit width;
    /// `name` identifies the offending input.
    InputLengthMismatch { name: String },
    /// The layering checks failed: the source gate list is malformed
    /// (cyclic, not single-assignment, or referring to out-of-range wires).
    SchedulingInvariantViolation,
    /// An operand or output wire had no resolved value during evaluation.
    MissingWireValue,
}

impl CircuitError {
    /// A short description of the error, for diagnostics.
    pub fn describe(&self) -> (r: &'static str)
        ensures
            r@.len() > 0,
            self is UnsupportedFeature ==> r@ == "Bristol constants are not supported"@,
            self is UnsupportedOperator ==> r@ == "Unsupported gate operation"@,
            self is LabelWidthMismatch ==> r@ == "Mismatch between input/output count and widths"@,
            self is InputLengthMismatch ==> r@ == "Input length mismatch"@,
            self is SchedulingInvariantViolation ==> r@ == "Scheduling invariant violation"@,
            self is MissingWireValue ==> r@ == "Missing wire value"@,
    {
        let msg = match self {
            CircuitError::UnsupportedFeature => "Bristol constants are not supported",
            CircuitError::UnsupportedOperator { .. } => "Unsupported gate operation",
            CircuitError::LabelWidthMismatch => "Mismatch between input/output count and widths",
            CircuitError::InputLengthMismatch { .. } => "Input length mismatch",
            CircuitError::SchedulingInvariantViolation => "Scheduling invariant violation",
            CircuitError::MissingWireValue => "Missing wire value",
        };
        proof {
            reveal_strlit("Bristol constants are not supported");
            reveal_strlit("Unsupported gate operation");
            reveal_strlit("Mismatch between input/output count and widths");
            reveal_strlit("Input length mismatch");
            reveal_strlit("Scheduling invariant violation");
            reveal_strlit("Missing wire value");
        }
        msg
    }
}

} // verus!
