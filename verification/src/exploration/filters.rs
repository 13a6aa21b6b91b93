use vstd::prelude::*;

verus! {

/// When a filter applies: to the axes before candidates are built, to the
/// candidates before they are evaluated, or to the evaluated table.
#[derive(Debug, Clone, Copy, PartialEq, Eq)]
pub enum FilterPhase {
    AxisPreEvaluation,
    CandidatePreEvaluation,
    PostEvaluation,
}

/// Why the conditions of specification results could not be combined.
#[derive(Debug, Clone, PartialEq, Eq)]
pub enum FilterConditionsError {
    EmptySpecifications,
    LengthMismatch { specification: String, expected: usize, actual: usize },
}

/// Why known columns could not be filtered.
#[derive(Debug, Clone, PartialEq, Eq)]
pub enum FilterKnownColumnsError {
    EmptyColumns,
    MissingColumn { column: String },
    ColumnLengthMismatch { column: String, expected: usize, actual: usize },
}

/// Why columns could not be compared for equality.
#[derive(Debug, Clone, PartialEq, Eq)]
pub enum FilterEqualColumnsError {
    EmptyColumns,
    MissingColumn { column: String },
    ColumnLengthMismatch { column: String, expected: usize, actual: usize },
}

/// Why a candidate axis could not be filtered.
#[derive(Debug, Clone, PartialEq, Eq)]
pub enum AxisFilterError {
    EmptyAxis { axis: String },
}

/// Why candidates could not be filtered.
#[derive(Debug, Clone, PartialEq, Eq)]
pub enum CandidateFilterError {
    EqualColumns(FilterEqualColumnsError),
    MissingColumn { column: String },
}

impl From<FilterEqualColumnsError> for CandidateFilterError {
    fn from(error: FilterEqualColumnsError) -> (r: Self) {
        CandidateFilterError::EqualColumns(error)
    }
}

impl vstd::std_specs::convert::FromSpecImpl<FilterEqualColumnsError> for CandidateFilterError {
    open spec fn obeys_from_spec() -> bool {
        true
    }

    open spec fn from_spec(v: FilterEqualColumnsError) -> Self {
        CandidateFilterError::EqualColumns(v)
    }
}

} // verus!
