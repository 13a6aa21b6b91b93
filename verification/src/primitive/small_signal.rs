use vstd::prelude::*;

verus! {

/// The small-signal model of a primitive: one transistor-like branch each.
#[derive(Debug, Clone, PartialEq, Eq)]
pub struct SmallSignalModel {
    pub branches: Vec<SmallSignalBranch>,
}

/// A branch of a small-signal model and the pins at its drain, gate and
/// source.
#[derive(Debug, Clone, PartialEq, Eq)]
pub struct SmallSignalBranch {
    pub name: String,
    pub vd: String,
    pub vg: String,
    pub vs: String,
}

} // verus!
