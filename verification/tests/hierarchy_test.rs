use libsstadex::exploration::dfs::{record_descent, record_evaluation};
use libsstadex::exploration::{candidate_column_name, child_interface_source_column};
use libsstadex::exploration::{
    plan_submacro_candidate_columns, plan_submacro_conditions, run_hierarchical_dfs,
    CompactOutputBinding, DfsStop, HierarchyDfsChild, HierarchyDfsError, HierarchyDfsEvent,
    HierarchyDfsNodeShape, HierarchyDfsOracle, HierarchyDfsShape, InterfaceVariable,
    SubmacroCandidateError, SubmacroConditionError, SubmacroConditionRule,
    SubmacroConditionSource,
};

#[derive(Debug, Clone, PartialEq)]
struct Table {
    columns: Vec<(String, Vec<f64>)>,
    row_count: usize,
}

fn table(columns: Vec<(&str, Vec<f64>)>) -> Table {
    let row_count = columns.first().map(|(_, values)| values.len()).unwrap_or(0);
    Table {
        columns: columns
            .into_iter()
            .map(|(name, values)| (name.to_string(), values))
            .collect(),
        row_count,
    }
}

/// What a node of the hierarchy knows besides its children.
#[derive(Default, Clone)]
struct NodeInfo {
    rules: Vec<SubmacroConditionRule>,
    interface_variables: Vec<InterfaceVariable>,
    compact_outputs: Vec<CompactOutputBinding>,
    pre_build_columns: Vec<String>,
}

/// Candidate points built from a table by a column plan.
fn candidate_points(plan: &[(String, usize)], table: &Table) -> Vec<Vec<(String, f64)>> {
    (0..table.row_count)
        .map(|row| {
            plan.iter()
                .map(|(name, source)| (name.clone(), table.columns[*source].1[row]))
                .collect()
        })
        .collect()
}

fn point_value(point: &[(String, f64)], name: &str) -> Option<f64> {
    point.iter().find(|(key, _)| key == name).map(|(_, value)| *value)
}

struct TestOracle<F> {
    infos: Vec<(String, NodeInfo)>,
    evaluate: F,
    requests: Vec<(String, String, usize, usize)>,
}

impl<F> TestOracle<F> {
    fn info(&self, macro_name: &str) -> NodeInfo {
        self.infos
            .iter()
            .find(|(name, _)| name == macro_name)
            .map(|(_, info)| info.clone())
            .unwrap_or_default()
    }
}

impl<F> HierarchyDfsOracle for TestOracle<F>
where
    F: FnMut(&str, &str) -> Result<Table, String>,
{
    type Table = Table;
    type Constraints = (usize, usize);
    type CandidateSet = Vec<Vec<(String, f64)>>;
    type EvaluationFailure = String;
    type ConditionFailure = SubmacroConditionError;
    type CandidateFailure = SubmacroCandidateError;

    fn unconstrained(&mut self) -> (usize, usize) {
        (0, 0)
    }

    fn evaluate(
        &mut self,
        macro_name: &str,
        event: &str,
        child_candidate_sets: &Vec<Self::CandidateSet>,
        inherited_constraints: &(usize, usize),
    ) -> Result<(Table, usize), String> {
        self.requests.push((
            macro_name.to_string(),
            event.to_string(),
            child_candidate_sets.len(),
            inherited_constraints.0,
        ));
        let table = (self.evaluate)(macro_name, event)?;
        let rows = table.row_count;
        Ok((table, rows))
    }

    fn resolve_child(
        &mut self,
        parent_macro: &str,
        instance_name: &str,
        child_macro: &str,
        parent_table: &Table,
    ) -> Result<((usize, usize), usize, usize), SubmacroConditionError> {
        let parent = self.info(parent_macro);
        let child = self.info(child_macro);
        let plan = plan_submacro_conditions(
            instance_name,
            &parent.rules,
            &child.interface_variables,
            &child.pre_build_columns,
        );
        for planned in &plan {
            if let SubmacroConditionSource::AllowedValuesFromParent { column }
            | SubmacroConditionSource::RangeFromParent { column } = &parent.rules[planned.rule].source
            {
                if !parent_table.columns.iter().any(|(name, _)| name == column) {
                    return Err(SubmacroConditionError::MissingParentColumn {
                        column: column.clone(),
                    });
                }
            }
        }
        let pre = plan.iter().filter(|planned| planned.pre_build).count();
        let filters = plan.len() - pre;
        Ok(((pre, filters), pre, filters))
    }

    fn collect_child(
        &mut self,
        instance_name: &str,
        child_macro: &str,
        child_table: &Table,
    ) -> Result<Self::CandidateSet, SubmacroCandidateError> {
        let child = self.info(child_macro);
        let names: Vec<String> = child_table.columns.iter().map(|(name, _)| name.clone()).collect();
        let plan = plan_submacro_candidate_columns(
            instance_name,
            &child.compact_outputs,
            &child.interface_variables,
            &names,
        )?;
        Ok(candidate_points(&plan, child_table))
    }
}

fn node(macro_name: &str, children: Vec<(&str, &str)>) -> HierarchyDfsNodeShape {
    HierarchyDfsNodeShape::new(
        macro_name,
        children
            .into_iter()
            .map(|(instance, child)| HierarchyDfsChild::new(instance, child))
            .collect(),
    )
}

#[test]
fn dfs_runner_descends_child_and_refreshes_parent() {
    let top_info = NodeInfo {
        rules: vec![SubmacroConditionRule::new(
            "xcs_macro",
            "vout",
            SubmacroConditionSource::AllowedValuesFromParent {
                column: "parent_vout".to_string(),
            },
        )],
        ..NodeInfo::default()
    };
    let child_info = NodeInfo {
        interface_variables: vec![InterfaceVariable::new("vout", "xcs.voutp")],
        compact_outputs: vec![CompactOutputBinding::new("bias_current", "isource")],
        pre_build_columns: vec!["xcs.voutp".to_string()],
        ..NodeInfo::default()
    };
    let shape = HierarchyDfsShape::new(
        "ota",
        vec![
            node("ota", vec![("xcs_macro", "current_source")]),
            node("current_source", vec![]),
        ],
    );
    let mut oracle = TestOracle {
        infos: vec![
            ("ota".to_string(), top_info),
            ("current_source".to_string(), child_info),
        ],
        evaluate: |macro_name: &str, _event: &str| match macro_name {
            "ota" => Ok(table(vec![("parent_vout", vec![0.6])])),
            "current_source" => Ok(table(vec![
                ("bias_current", vec![1.0]),
                ("xcs.voutp", vec![0.6]),
            ])),
            _ => Err("unexpected request".to_string()),
        },
        requests: Vec::new(),
    };

    let run = run_hierarchical_dfs(&shape, &mut oracle).unwrap();

    assert_eq!(run.results_by_macro[run.top].1.row_count, 1);
    assert_eq!(run.results_by_macro[run.top].0, "ota");
    assert!(run.events.iter().any(|event| matches!(
        event,
        HierarchyDfsEvent::Evaluate { macro_name, event, candidate_sets: 1, .. }
            if macro_name == "ota" && event == "after_child_xcs_macro"
    )));
    assert!(run.results_by_macro.iter().any(|(name, _)| name == "ota"));
    assert!(run
        .results_by_macro
        .iter()
        .any(|(name, _)| name == "current_source"));
    assert!(oracle
        .requests
        .contains(&("current_source".to_string(), "initial".to_string(), 0, 1)));
    assert!(oracle
        .requests
        .contains(&("ota".to_string(), "after_child_xcs_macro".to_string(), 1, 0)));
    assert!(run.events.iter().any(|event| matches!(
        event,
        HierarchyDfsEvent::RefreshParent {
            macro_name,
            instance_name,
            rows: 1,
        } if macro_name == "ota" && instance_name == "xcs_macro"
    )));
}

#[test]
fn dfs_runner_visits_second_child_after_first_refresh() {
    let leaf_info = NodeInfo {
        compact_outputs: vec![CompactOutputBinding::new("bias_current", "isource")],
        ..NodeInfo::default()
    };
    let shape = HierarchyDfsShape::new(
        "top",
        vec![
            node("top", vec![("x1", "first"), ("x2", "second")]),
            node("first", vec![]),
            node("second", vec![]),
        ],
    );
    let mut oracle = TestOracle {
        infos: vec![
            ("first".to_string(), leaf_info.clone()),
            ("second".to_string(), leaf_info),
        ],
        evaluate: |macro_name: &str, _event: &str| {
            if macro_name == "first" || macro_name == "second" {
                Ok(table(vec![("bias_current", vec![1.0])]))
            } else {
                Ok(table(vec![("parent_vout", vec![0.6])]))
            }
        },
        requests: Vec::new(),
    };

    run_hierarchical_dfs(&shape, &mut oracle).unwrap();

    let top_candidate_counts: Vec<(String, usize)> = oracle
        .requests
        .iter()
        .filter(|(macro_name, _, _, _)| macro_name == "top")
        .map(|(_, event, sets, _)| (event.clone(), *sets))
        .collect();
    assert_eq!(
        top_candidate_counts,
        vec![
            ("initial".to_string(), 0),
            ("after_child_x1".to_string(), 1),
            ("after_child_x2".to_string(), 2),
            ("final".to_string(), 2),
        ]
    );
}

#[test]
fn dfs_runner_reports_cycles() {
    let shape = HierarchyDfsShape::new(
        "top",
        vec![
            node("top", vec![("xchild", "child")]),
            node("child", vec![("xtop", "top")]),
        ],
    );
    let mut oracle = TestOracle {
        infos: Vec::new(),
        evaluate: |_: &str, _: &str| Ok(table(vec![("value", vec![1.0])])),
        requests: Vec::new(),
    };

    let error = HierarchyDfsError::from_stop(run_hierarchical_dfs(&shape, &mut oracle).err().unwrap());

    assert_eq!(
        error,
        HierarchyDfsError::Cycle {
            macro_name: "top".to_string(),
        }
    );
}

#[test]
fn dfs_runner_reports_missing_child_node() {
    let shape = HierarchyDfsShape::new("top", vec![node("top", vec![("x1", "absent")])]);
    let mut oracle = TestOracle {
        infos: Vec::new(),
        evaluate: |_: &str, _: &str| Ok(table(vec![("value", vec![1.0])])),
        requests: Vec::new(),
    };

    let error = HierarchyDfsError::from_stop(run_hierarchical_dfs(&shape, &mut oracle).err().unwrap());

    assert_eq!(
        error,
        HierarchyDfsError::MissingNode {
            macro_name: "absent".to_string(),
        }
    );
}

#[test]
fn dfs_runner_reports_missing_top_node() {
    let shape = HierarchyDfsShape::new("top", vec![node("other", vec![])]);
    let mut oracle = TestOracle {
        infos: Vec::new(),
        evaluate: |_: &str, _: &str| Ok(table(vec![("value", vec![1.0])])),
        requests: Vec::new(),
    };

    assert_eq!(
        HierarchyDfsError::from_stop(run_hierarchical_dfs(&shape, &mut oracle).err().unwrap()),
        HierarchyDfsError::MissingNode {
            macro_name: "top".to_string(),
        }
    );
}

#[test]
fn dfs_runner_passes_evaluation_errors_on() {
    let shape = HierarchyDfsShape::new("top", vec![node("top", vec![])]);
    let mut oracle = TestOracle {
        infos: Vec::new(),
        evaluate: |_: &str, event: &str| {
            if event == "final" {
                Err("no data".to_string())
            } else {
                Ok(table(vec![("value", vec![1.0])]))
            }
        },
        requests: Vec::new(),
    };

    assert_eq!(
        HierarchyDfsError::from_stop(run_hierarchical_dfs(&shape, &mut oracle).err().unwrap()),
        HierarchyDfsError::Evaluation {
            macro_name: "top".to_string(),
            event: "final".to_string(),
            message: "no data".to_string(),
        }
    );
}

#[test]
fn dfs_runner_revisits_a_shared_child_without_a_cycle() {
    let leaf_info = NodeInfo {
        compact_outputs: vec![CompactOutputBinding::new("value", "p")],
        ..NodeInfo::default()
    };
    let shape = HierarchyDfsShape::new(
        "top",
        vec![
            node("top", vec![("xa", "leaf"), ("xb", "leaf")]),
            node("leaf", vec![]),
        ],
    );
    let mut oracle = TestOracle {
        infos: vec![("leaf".to_string(), leaf_info)],
        evaluate: |_: &str, _: &str| Ok(table(vec![("value", vec![1.0, 2.0])])),
        requests: Vec::new(),
    };

    let run = run_hierarchical_dfs(&shape, &mut oracle).unwrap();

    let kinds: Vec<String> = run
        .events
        .iter()
        .map(|event| match event {
            HierarchyDfsEvent::Enter { macro_name, level, .. } => format!("enter {macro_name} {level}"),
            HierarchyDfsEvent::Evaluate { macro_name, event, candidate_sets, rows } => {
                format!("evaluate {macro_name} {event} {candidate_sets} {rows}")
            }
            HierarchyDfsEvent::Descend { instance_name, child_macro, .. } => {
                format!("descend {instance_name} {child_macro}")
            }
            HierarchyDfsEvent::RefreshParent { macro_name, instance_name, .. } => {
                format!("refresh {macro_name} {instance_name}")
            }
            HierarchyDfsEvent::Leave { macro_name, level, .. } => format!("leave {macro_name} {level}"),
        })
        .collect();
    assert_eq!(
        kinds,
        vec![
            "enter top 0",
            "evaluate top initial 0 2",
            "descend xa leaf",
            "enter leaf 1",
            "evaluate leaf initial 0 2",
            "evaluate leaf final 0 2",
            "leave leaf 1",
            "evaluate top after_child_xa 1 2",
            "refresh top xa",
            "descend xb leaf",
            "enter leaf 1",
            "evaluate leaf initial 0 2",
            "evaluate leaf final 0 2",
            "leave leaf 1",
            "evaluate top after_child_xb 2 2",
            "refresh top xb",
            "evaluate top final 2 2",
            "leave top 0",
        ]
    );
    assert_eq!(run.results_by_macro.len(), 2);
}

#[test]
fn keeps_the_last_node_of_each_macro() {
    let shape = HierarchyDfsShape::new(
        "top",
        vec![
            node("top", vec![("x1", "absent")]),
            node("top", vec![]),
        ],
    );
    let mut oracle = TestOracle {
        infos: Vec::new(),
        evaluate: |_: &str, _: &str| Ok(table(vec![("value", vec![1.0])])),
        requests: Vec::new(),
    };

    assert!(run_hierarchical_dfs(&shape, &mut oracle).is_ok());
}

#[test]
fn maps_submacro_results_to_compact_candidate_set() {
    let table = table(vec![
        ("bias_current", vec![1.0, 2.0]),
        ("xcs.width_m1", vec![3.0, 4.0]),
        ("xcs.length__m1", vec![0.15, 0.2]),
        ("gain", vec![10.0, 20.0]),
    ]);
    let names: Vec<String> = table.columns.iter().map(|(name, _)| name.clone()).collect();
    let bindings = vec![CompactOutputBinding::new("bias_current", "isource")];

    let plan = plan_submacro_candidate_columns("xcs_macro", &bindings, &Vec::new(), &names).unwrap();
    let points = candidate_points(&plan, &table);

    assert_eq!(point_value(&points[0], "isource__xcs_macro"), Some(1.0));
    assert_eq!(point_value(&points[1], "isource__xcs_macro"), Some(2.0));
    assert_eq!(point_value(&points[0], "xcs_macro.xcs.width_m1"), Some(3.0));
    assert_eq!(point_value(&points[1], "xcs_macro.xcs.length__m1"), Some(0.2));
    assert_eq!(point_value(&points[0], "xcs_macro.gain"), None);
}

#[test]
fn maps_submacro_results_without_sizing_columns() {
    let table = table(vec![("bias_current", vec![1.0])]);
    let names: Vec<String> = table.columns.iter().map(|(name, _)| name.clone()).collect();
    let bindings = vec![CompactOutputBinding::new("bias_current", "isource")];

    let plan = plan_submacro_candidate_columns("xcs_macro", &bindings, &Vec::new(), &names).unwrap();
    let points = candidate_points(&plan, &table);

    assert_eq!(points[0].len(), 1);
    assert_eq!(point_value(&points[0], "isource__xcs_macro"), Some(1.0));
}

#[test]
fn maps_submacro_interface_variables_to_public_instance_columns() {
    let table = table(vec![
        ("bias_current", vec![1.0, 2.0]),
        ("xcs.voutp", vec![0.8, 0.9]),
    ]);
    let names: Vec<String> = table.columns.iter().map(|(name, _)| name.clone()).collect();
    let bindings = vec![CompactOutputBinding::new("bias_current", "isource")];
    let interfaces = vec![InterfaceVariable::new("vout", "xcs.voutp")];

    let plan = plan_submacro_candidate_columns("xcs_macro", &bindings, &interfaces, &names).unwrap();
    let points = candidate_points(&plan, &table);

    assert_eq!(point_value(&points[0], "xcs_macro.vout"), Some(0.8));
    assert_eq!(point_value(&points[1], "xcs_macro.vout"), Some(0.9));
}

#[test]
fn reports_missing_compact_output_source_column() {
    let names = vec!["gain".to_string()];
    let bindings = vec![CompactOutputBinding::new("bias_current", "isource")];

    let error =
        plan_submacro_candidate_columns("xcs_macro", &bindings, &Vec::new(), &names).unwrap_err();

    assert_eq!(
        error,
        SubmacroCandidateError::MissingColumn {
            column: "bias_current".to_string(),
        }
    );
}

#[test]
fn reports_empty_compact_bindings() {
    let names = vec!["gain".to_string()];

    assert_eq!(
        plan_submacro_candidate_columns("xcs_macro", &Vec::new(), &Vec::new(), &names).unwrap_err(),
        SubmacroCandidateError::EmptyBindings
    );
}

#[test]
fn plans_submacro_conditions_through_interface_and_pre_build_columns() {
    let rules = vec![
        SubmacroConditionRule::new(
            "xcs_macro",
            "vout",
            SubmacroConditionSource::AllowedValuesFromParent {
                column: "parent_vout".to_string(),
            },
        ),
        SubmacroConditionRule::new(
            "other",
            "vout",
            SubmacroConditionSource::RangeFromParent {
                column: "parent_vout".to_string(),
            },
        ),
        SubmacroConditionRule::new(
            "xcs_macro",
            "xcs.ibias",
            SubmacroConditionSource::FixedRange {
                min: Some("0.2".to_string()),
                max: None,
            },
        ),
    ];
    let interfaces = vec![InterfaceVariable::new("vout", "xcs.voutp")];
    let pre_build = vec!["xcs.voutp".to_string()];

    let plan = plan_submacro_conditions("xcs_macro", &rules, &interfaces, &pre_build);

    assert_eq!(plan.len(), 2);
    assert_eq!(plan[0].rule, 0);
    assert_eq!(plan[0].target_column, "xcs.voutp");
    assert!(plan[0].pre_build);
    assert_eq!(plan[1].rule, 2);
    assert_eq!(plan[1].target_column, "xcs.ibias");
    assert!(!plan[1].pre_build);
}

#[test]
fn records_an_evaluation_or_its_error() {
    let mut events = Vec::new();
    let kept = record_evaluation::<&str, String, (), ()>(&mut events, "ota", "initial", 0, Ok(("table", 3)))
        .unwrap();
    assert_eq!(kept, ("table", 3));
    assert_eq!(
        events,
        vec![HierarchyDfsEvent::Evaluate {
            macro_name: "ota".to_string(),
            event: "initial".to_string(),
            candidate_sets: 0,
            rows: 3,
        }]
    );

    let error = record_evaluation::<&str, String, (), ()>(
        &mut events,
        "ota",
        "final",
        2,
        Err("no data".to_string()),
    )
    .unwrap_err();
    assert_eq!(
        error,
        DfsStop::Evaluation {
            macro_name: "ota".to_string(),
            event: "final".to_string(),
            failure: "no data".to_string(),
        }
    );
    assert_eq!(events.len(), 1);
}

#[test]
fn records_a_descent_or_its_condition_error() {
    let mut events = Vec::new();
    let kept = record_descent::<&str, String, SubmacroConditionError, ()>(
        &mut events,
        "ota",
        "xcs",
        "current_source",
        0,
        Ok(("c", 1, 2)),
    )
    .unwrap();
    assert_eq!(kept, ("c", 1, 2));
    assert_eq!(
        events,
        vec![HierarchyDfsEvent::Descend {
            parent_macro: "ota".to_string(),
            instance_name: "xcs".to_string(),
            child_macro: "current_source".to_string(),
            level: 0,
            pre_build_constraints: 1,
            filters: 2,
        }]
    );

    let missing = SubmacroConditionError::MissingParentColumn {
        column: "vout".to_string(),
    };
    let error = record_descent::<&str, String, SubmacroConditionError, ()>(
        &mut events,
        "ota",
        "xcs",
        "cs",
        0,
        Err(missing.clone()),
    )
    .unwrap_err();
    assert_eq!(error, DfsStop::Condition(missing));
    assert_eq!(events.len(), 1);
}

#[test]
fn names_candidate_and_interface_columns() {
    assert_eq!(candidate_column_name("xcs_macro", "vout"), "xcs_macro.vout");
    let interfaces = vec![
        InterfaceVariable::new("vout", "xcs.voutp"),
        InterfaceVariable::new("vout", "other"),
    ];
    assert_eq!(child_interface_source_column(&interfaces, "vout"), "xcs.voutp");
    assert_eq!(child_interface_source_column(&interfaces, "ibias"), "ibias");
}

#[test]
fn keeps_each_macros_final_table_as_its_result() {
    let leaf_info = NodeInfo {
        compact_outputs: vec![CompactOutputBinding::new("value", "p")],
        ..NodeInfo::default()
    };
    let shape = HierarchyDfsShape::new(
        "top",
        vec![node("top", vec![("xa", "leaf")]), node("leaf", vec![])],
    );
    let mut oracle = TestOracle {
        infos: vec![("leaf".to_string(), leaf_info)],
        evaluate: |_: &str, event: &str| {
            if event == "final" {
                Ok(table(vec![("value", vec![1.0, 2.0, 3.0])]))
            } else {
                Ok(table(vec![("value", vec![1.0])]))
            }
        },
        requests: Vec::new(),
    };

    let run = run_hierarchical_dfs(&shape, &mut oracle).unwrap();

    assert_eq!(run.results_by_macro[run.top].0, "top");
    for (_, table) in &run.results_by_macro {
        assert_eq!(table.row_count, 3);
    }
}

struct RecordingOracle {
    evaluated: Vec<(String, String, usize)>,
    collected: Vec<usize>,
}

impl HierarchyDfsOracle for RecordingOracle {
    type Table = usize;
    type Constraints = usize;
    type CandidateSet = usize;
    type EvaluationFailure = String;
    type ConditionFailure = String;
    type CandidateFailure = String;

    fn unconstrained(&mut self) -> usize {
        7
    }

    fn evaluate(
        &mut self,
        macro_name: &str,
        event: &str,
        _child_candidate_sets: &Vec<usize>,
        inherited_constraints: &usize,
    ) -> Result<(usize, usize), String> {
        self.evaluated
            .push((macro_name.to_string(), event.to_string(), *inherited_constraints));
        let rows = if event == "final" { 3 } else { 1 };
        Ok((rows, rows))
    }

    fn resolve_child(
        &mut self,
        _parent_macro: &str,
        _instance_name: &str,
        _child_macro: &str,
        parent_table: &usize,
    ) -> Result<(usize, usize, usize), String> {
        Ok((100 + *parent_table, 0, 0))
    }

    fn collect_child(
        &mut self,
        _instance_name: &str,
        _child_macro: &str,
        child_table: &usize,
    ) -> Result<usize, String> {
        self.collected.push(*child_table);
        Ok(*child_table)
    }
}

#[test]
fn hands_on_resolved_conditions_and_final_child_tables() {
    let shape = HierarchyDfsShape::new(
        "top",
        vec![node("top", vec![("xa", "leaf")]), node("leaf", vec![])],
    );
    let mut oracle = RecordingOracle { evaluated: Vec::new(), collected: Vec::new() };

    let run = run_hierarchical_dfs(&shape, &mut oracle).unwrap();

    let expected: Vec<(String, String, usize)> = vec![
        ("top".to_string(), "initial".to_string(), 7),
        ("leaf".to_string(), "initial".to_string(), 101),
        ("leaf".to_string(), "final".to_string(), 101),
        ("top".to_string(), "after_child_xa".to_string(), 7),
        ("top".to_string(), "final".to_string(), 7),
    ];
    assert_eq!(oracle.evaluated, expected);
    assert_eq!(oracle.collected, vec![3]);
    assert_eq!(run.results_by_macro[run.top].1, 3);
}
