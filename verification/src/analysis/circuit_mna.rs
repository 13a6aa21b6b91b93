use vstd::prelude::*;
use crate::macro_model::render::MacroRenderError;
use crate::mna::mna::{solution_of, variable_for_name, MnaError, MnaResult, MnaSolveResult};
use crate::netlist::small_signal::SmallSignalRenderError;
use crate::text::{push_str, string_from};

verus! {

/// A filesystem path of the standard library, carried through unchanged.
#[verifier::external_type_specification]
#[verifier::external_body]
pub struct ExPathBuf(std::path::PathBuf);

/// The analysis of a circuit: its small-signal netlist, where the netlist
/// and its numbered form were written, the system and, when asked for, its
/// solution.
#[derive(Debug)]
pub struct CircuitMnaAnalysis {
    pub small_signal_netlist: String,
    pub spice_path: std::path::PathBuf,
    pub cir_path: std::path::PathBuf,
    pub mna: MnaResult,
    pub solution: Option<MnaSolveResult>,
}

/// Why an analysis failed.
#[derive(Debug)]
pub enum CircuitMnaAnalysisError {
    Io(std::io::Error),
    SmallSignalRender(SmallSignalRenderError),
    MacroRender(MacroRenderError),
    Mna(MnaError),
}

/// Why a transfer function could not be formed.
#[derive(Debug, Clone, PartialEq, Eq)]
pub enum TransferFunctionError {
    MissingInputNode { node: String },
    MissingOutputNode { node: String },
    MissingInputSolution { variable: String },
    MissingOutputSolution { variable: String },
}

/// A transfer-function error, by its text.
pub enum TransferFunctionErrorText {
    MissingInputNode { node: Seq<char> },
    MissingOutputNode { node: Seq<char> },
    MissingInputSolution { variable: Seq<char> },
    MissingOutputSolution { variable: Seq<char> },
}

impl View for TransferFunctionError {
    type V = TransferFunctionErrorText;

    open spec fn view(&self) -> TransferFunctionErrorText {
        match self {
            TransferFunctionError::MissingInputNode { node } =>
                TransferFunctionErrorText::MissingInputNode { node: node@ },
            TransferFunctionError::MissingOutputNode { node } =>
                TransferFunctionErrorText::MissingOutputNode { node: node@ },
            TransferFunctionError::MissingInputSolution { variable } =>
                TransferFunctionErrorText::MissingInputSolution { variable: variable@ },
            TransferFunctionError::MissingOutputSolution { variable } =>
                TransferFunctionErrorText::MissingOutputSolution { variable: variable@ },
        }
    }
}

/// The transfer function from `input` to `output`: the output node's solved
/// voltage over the input node's, `(out)/(in)`; the first missing node or
/// solution otherwise.
pub open spec fn transfer_function_spec(
    nodes: Seq<(Seq<char>, nat)>,
    solutions: Seq<(Seq<char>, Seq<char>)>,
    input: Seq<char>,
    output: Seq<char>,
) -> Result<Seq<char>, TransferFunctionErrorText> {
    match variable_for_name(nodes, input) {
        None => Err(TransferFunctionErrorText::MissingInputNode { node: input }),
        Some(vin) => match variable_for_name(nodes, output) {
            None => Err(TransferFunctionErrorText::MissingOutputNode { node: output }),
            Some(vout) => match solution_of(solutions, vin) {
                None => Err(TransferFunctionErrorText::MissingInputSolution { variable: vin }),
                Some(ein) => match solution_of(solutions, vout) {
                    None => Err(TransferFunctionErrorText::MissingOutputSolution { variable: vout }),
                    Some(eout) => Ok(seq!['('] + eout + ")/("@ + ein + seq![')']),
                },
            },
        },
    }
}

/// Calls `Path::display` and writes the result out; non-UTF-8 parts of the
/// path are replaced, so the contract does not say what the text is.
#[verifier::external_body]
pub(crate) fn path_display(p: &std::path::PathBuf) -> String {
    p.display().to_string()
}

/// The transfer function from `input_node` to `output_node` given the
/// solved system.
pub fn transfer_function_expression(
    mna: &MnaResult,
    solution: &MnaSolveResult,
    input_node: &str,
    output_node: &str,
) -> (r: Result<String, TransferFunctionError>)
    ensures
        match r {
            Ok(s) => transfer_function_spec(mna.nodes@, solution@, input_node@, output_node@)
                == Ok::<Seq<char>, TransferFunctionErrorText>(s@),
            Err(e) => transfer_function_spec(mna.nodes@, solution@, input_node@, output_node@)
                == Err::<Seq<char>, TransferFunctionErrorText>(e@),
        },
{
    let input_variable = match mna.variable_for_node_name(input_node) {
        Some(v) => v,
        None => {
            return Err(TransferFunctionError::MissingInputNode { node: string_from(input_node) });
        },
    };
    let output_variable = match mna.variable_for_node_name(output_node) {
        Some(v) => v,
        None => {
            return Err(TransferFunctionError::MissingOutputNode { node: string_from(output_node) });
        },
    };
    let input_expression = match solution.get(input_variable.as_str()) {
        Some(e) => e,
        None => {
            return Err(TransferFunctionError::MissingInputSolution { variable: input_variable });
        },
    };
    let output_expression = match solution.get(output_variable.as_str()) {
        Some(e) => e,
        None => {
            return Err(TransferFunctionError::MissingOutputSolution { variable: output_variable });
        },
    };
    let mut s = String::new();
    s.push('(');
    push_str(&mut s, output_expression.as_str());
    push_str(&mut s, ")/(");
    push_str(&mut s, input_expression.as_str());
    s.push(')');
    assert(s@ =~= seq!['('] + output_expression@ + ")/("@ + input_expression@ + seq![')']);
    Ok(s)
}

} // verus!
