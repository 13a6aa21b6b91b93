use vstd::prelude::*;
use crate::circuit::Circuit;
use crate::text::string_from;

verus! {

/// A macro: a circuit of primitives and other macros behind named ports,
/// rendered as a subcircuit.
#[derive(Debug, Clone, PartialEq, Eq)]
pub struct MacroModel {
    pub name: String,
    pub subckt_name: String,
    pub ports: Vec<MacroPort>,
    pub circuit: Circuit,
    pub metadata: MacroMetadata,
    pub small_signal: Option<MacroSmallSignalModel>,
}

/// A port of a macro and its role.
#[derive(Debug, Clone, PartialEq, Eq)]
pub struct MacroPort {
    pub name: String,
    pub role: MacroPortRole,
}

/// The role of a macro port.
#[derive(Debug, Clone, Copy, PartialEq, Eq)]
pub enum MacroPortRole {
    Input,
    Output,
    Inout,
    Bias,
    Supply,
    Ground,
}

/// The version and description of a macro.
#[derive(Debug, Clone, PartialEq, Eq)]
pub struct MacroMetadata {
    pub version: String,
    pub description: Option<String>,
}

/// A compact small-signal model of a macro: element line templates.
#[derive(Debug, Clone, PartialEq, Eq)]
pub struct MacroSmallSignalModel {
    pub elements: Vec<MacroSmallSignalElement>,
}

/// One element line of a compact model; `{instance}` and `{<port>}` stand
/// for the instance path and the nets on the ports.
#[derive(Debug, Clone, PartialEq, Eq)]
pub struct MacroSmallSignalElement {
    pub template: String,
}

impl MacroModel {
    /// A macro whose subcircuit has the macro's name, with default metadata.
    pub fn new(name: &str, ports: Vec<MacroPort>, circuit: Circuit) -> (r: Self)
        ensures
            r.name@ == name@,
            r.subckt_name@ == name@,
            r.ports == ports,
            r.circuit == circuit,
            r.metadata.version@ == "1.0"@,
            r.metadata.description is None,
            r.small_signal is None,
    {
        MacroModel {
            name: string_from(name),
            subckt_name: string_from(name),
            ports,
            circuit,
            metadata: MacroMetadata::default(),
            small_signal: None,
        }
    }
}

impl MacroPort {
    pub fn new(name: &str, role: MacroPortRole) -> (r: Self)
        ensures
            r.name@ == name@,
            r.role == role,
    {
        MacroPort { name: string_from(name), role }
    }
}

impl Default for MacroMetadata {
    /// Version `1.0`, no description.
    fn default() -> (r: Self)
        ensures
            r.version@ == "1.0"@,
            r.description is None,
    {
        MacroMetadata { version: string_from("1.0"), description: None }
    }
}

} // verus!
