use vstd::prelude::*;
use crate::analysis::TransferFunctionError;

verus! {

/// Where a prepared specification takes its value from: its own candidate
/// expression, the transfer function of its testbench, or a composition.
#[derive(Debug, Clone, PartialEq)]
pub enum PreparedSpecSource {
    CandidateExpression { expression: String },
    TransferFunction { expression: String },
    Composed,
}

/// Why a specification could not be prepared.
#[derive(Debug, Clone, PartialEq, Eq)]
pub enum SpecPrepareError {
    UnsupportedSource { source: &'static str },
    TransferFunction(TransferFunctionError),
    MnaAnalysis { reason: String },
    MissingMnaSolution,
}

impl From<TransferFunctionError> for SpecPrepareError {
    fn from(error: TransferFunctionError) -> (r: Self) {
        SpecPrepareError::TransferFunction(error)
    }
}

impl vstd::std_specs::convert::FromSpecImpl<TransferFunctionError> for SpecPrepareError {
    open spec fn obeys_from_spec() -> bool {
        true
    }

    open spec fn from_spec(v: TransferFunctionError) -> Self {
        SpecPrepareError::TransferFunction(v)
    }
}

} // verus!
