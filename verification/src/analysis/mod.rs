pub mod circuit_mna;
pub mod output;

pub use circuit_mna::{
    transfer_function_expression, CircuitMnaAnalysis, CircuitMnaAnalysisError,
    TransferFunctionError,
};
pub use output::{
    CircuitMnaOutput, CircuitMnaReportsOutput, EquationOutput, NodeOutput, NodeVariableOutput,
    SolutionOutput,
};
