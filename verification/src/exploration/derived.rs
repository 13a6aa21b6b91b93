use vstd::prelude::*;
use crate::exploration::candidate::CandidateEvaluationError;
use crate::exploration::table::ExplorationTableError;
use crate::text::string_from;

verus! {

/// A column to add to a table: its name and the expression that gives each
/// row's value.
#[derive(Debug, Clone, PartialEq, Eq)]
pub struct DerivedColumnSpec {
    pub name: String,
    pub expression: String,
}

impl DerivedColumnSpec {
    pub fn new(name: &str, expression: &str) -> (r: Self)
        ensures
            r.name@ == name@,
            r.expression@ == expression@,
    {
        DerivedColumnSpec { name: string_from(name), expression: string_from(expression) }
    }
}

/// Why a derived column could not be added.
#[derive(Debug, Clone, PartialEq, Eq)]
pub enum DerivedColumnError {
    EmptyName,
    DuplicateColumn { column: String },
    Evaluation(CandidateEvaluationError),
    Table(ExplorationTableError),
}

impl From<CandidateEvaluationError> for DerivedColumnError {
    fn from(error: CandidateEvaluationError) -> (r: Self) {
        DerivedColumnError::Evaluation(error)
    }
}

impl vstd::std_specs::convert::FromSpecImpl<CandidateEvaluationError> for DerivedColumnError {
    open spec fn obeys_from_spec() -> bool {
        true
    }

    open spec fn from_spec(v: CandidateEvaluationError) -> Self {
        DerivedColumnError::Evaluation(v)
    }
}

impl From<ExplorationTableError> for DerivedColumnError {
    fn from(error: ExplorationTableError) -> (r: Self) {
        DerivedColumnError::Table(error)
    }
}

impl vstd::std_specs::convert::FromSpecImpl<ExplorationTableError> for DerivedColumnError {
    open spec fn obeys_from_spec() -> bool {
        true
    }

    open spec fn from_spec(v: ExplorationTableError) -> Self {
        DerivedColumnError::Table(v)
    }
}

} // verus!
