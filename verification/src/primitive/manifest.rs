use vstd::prelude::*;
use crate::primitive::small_signal::SmallSignalModel;

verus! {

/// What a primitive's manifest gives the circuit logic: its name, the
/// subcircuit that implements it, its pins in order and its small-signal
/// model.
#[derive(Debug, Clone, PartialEq, Eq)]
pub struct PrimitiveManifest {
    pub name: String,
    pub version: String,
    pub description: Option<String>,
    pub subckt_name: String,
    pub pins: Vec<Pin>,
    pub files: PrimitiveFiles,
    pub small_signal: Option<SmallSignalModel>,
    pub transistor_type: Option<String>,
}

/// A pin of a primitive and its role.
#[derive(Debug, Clone, PartialEq, Eq)]
pub struct Pin {
    pub name: String,
    pub role: PinRole,
}

/// The role of a pin.
#[derive(Debug, Clone, Copy, PartialEq, Eq)]
pub enum PinRole {
    Input,
    Output,
    Bias,
    Supply,
    Internal,
}

/// The files of a primitive, relative to its directory.
#[derive(Debug, Clone, PartialEq, Eq)]
pub struct PrimitiveFiles {
    pub netlist: String,
    pub build: Option<String>,
    pub symbol: Option<String>,
}

/// The shape a primitive is drawn as.
#[derive(Debug, Clone, Copy, PartialEq, Eq)]
pub enum PrimitiveShape {
    Box,
}

/// The side of a symbol a pin is drawn on.
#[derive(Debug, Clone, Copy, PartialEq, Eq)]
pub enum SymbolPinSide {
    Left,
    Right,
    Top,
    Bottom,
}

} // verus!
