pub mod candidate;
pub mod derived;
pub mod dfs;
pub mod filters;
pub mod hierarchy;
pub mod io;
pub mod prepare;
pub mod spec;
pub mod table;

pub use dfs::{
    run_hierarchical_dfs, DfsStop, HierarchyDfsNodeShape, HierarchyDfsOracle, HierarchyDfsOutcome,
    HierarchyDfsShape,
};
pub use hierarchy::{
    candidate_column_name, child_interface_source_column, compact_parameter_column_name,
    plan_submacro_candidate_columns, plan_submacro_conditions, sanitize_hierarchy_event_name,
    CompactOutputBinding, ExplorationOutput, PlannedSubmacroCondition,
    HierarchyDfsChild, HierarchyDfsError, HierarchyDfsEvent, SubmacroCandidateError,
    SubmacroConditionError, InterfaceVariable, SubmacroConditionRule,
    SubmacroConditionSource,
};
pub use spec::{
    DutRef,
    CircuitView, SpecParameter, SpecSource, TestbenchElement, TestbenchSpec,
};
pub use io::{resolve_testbench, testbench_map, ExplorationIoError, TestbenchMap};
pub use table::{filter_columns_by_mask, ExplorationTableError};
pub use candidate::{
    candidate_columns, candidate_points_from_columns, candidate_value, generate_combinations, generate_grid, CandidateEvaluationError, CandidateGenerationError,
    CandidateSetBuildError,
};
pub use derived::{DerivedColumnError, DerivedColumnSpec};
pub use filters::{
    AxisFilterError, CandidateFilterError, FilterConditionsError, FilterEqualColumnsError,
    FilterKnownColumnsError, FilterPhase,
};
pub use prepare::{PreparedSpecSource, SpecPrepareError};
