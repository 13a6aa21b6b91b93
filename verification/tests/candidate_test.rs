use libsstadex::exploration::{
    candidate_columns, candidate_points_from_columns, candidate_value, filter_columns_by_mask,
    generate_combinations, generate_grid,
    CandidateGenerationError, CandidateSetBuildError, ExplorationTableError,
};

fn point(values: Vec<(&str, f64)>) -> Vec<(String, f64)> {
    values
        .into_iter()
        .map(|(name, value)| (name.to_string(), value))
        .collect()
}

fn get(point: &[(String, f64)], name: &str) -> Option<f64> {
    point.iter().find(|(key, _)| key == name).map(|(_, value)| *value)
}

#[test]
fn generates_candidate_grid_from_axes() {
    let axes = vec![
        ("W".to_string(), vec![1.0, 2.0]),
        ("L".to_string(), vec![3.0, 4.0]),
    ];

    let candidates = generate_grid(&axes).unwrap();

    assert_eq!(
        candidates,
        vec![
            point(vec![("W", 1.0), ("L", 3.0)]),
            point(vec![("W", 1.0), ("L", 4.0)]),
            point(vec![("W", 2.0), ("L", 3.0)]),
            point(vec![("W", 2.0), ("L", 4.0)]),
        ]
    );
}

#[test]
fn generates_single_empty_candidate_for_no_axes() {
    let axes: Vec<(String, Vec<f64>)> = Vec::new();
    assert_eq!(generate_grid(&axes).unwrap(), vec![Vec::new()]);
}

#[test]
fn reports_empty_axis() {
    let axes: Vec<(String, Vec<f64>)> = vec![("W".to_string(), Vec::new())];

    assert_eq!(
        generate_grid(&axes),
        Err(CandidateGenerationError::EmptyAxis {
            axis: "W".to_string(),
        })
    );
}

#[test]
fn reports_the_first_empty_axis() {
    let axes: Vec<(String, Vec<f64>)> = vec![
        ("W".to_string(), vec![1.0]),
        ("L".to_string(), Vec::new()),
        ("M".to_string(), Vec::new()),
    ];

    assert_eq!(
        generate_grid(&axes),
        Err(CandidateGenerationError::EmptyAxis {
            axis: "L".to_string(),
        })
    );
}

#[test]
fn generates_candidate_combinations_from_sets() {
    let xdp = (
        "xdp".to_string(),
        vec![
            point(vec![("xdp.gm", 1.0), ("xdp.ro", 10.0)]),
            point(vec![("xdp.gm", 2.0), ("xdp.ro", 20.0)]),
        ],
    );
    let xcm = ("xcm".to_string(), vec![point(vec![("xcm.gm", 3.0)])]);

    let candidates = generate_combinations(&vec![xdp, xcm]).unwrap();

    assert_eq!(
        candidates,
        vec![
            point(vec![("xdp.gm", 1.0), ("xdp.ro", 10.0), ("xcm.gm", 3.0)]),
            point(vec![("xdp.gm", 2.0), ("xdp.ro", 20.0), ("xcm.gm", 3.0)]),
        ]
    );
}

#[test]
fn preserves_values_within_each_candidate_set_point() {
    let primitive = (
        "primitive".to_string(),
        vec![
            point(vec![("gm", 1.0), ("ro", 10.0)]),
            point(vec![("gm", 2.0), ("ro", 20.0)]),
        ],
    );

    let candidates = generate_combinations(&vec![primitive]).unwrap();

    assert_eq!(get(&candidates[0], "gm"), Some(1.0));
    assert_eq!(get(&candidates[0], "ro"), Some(10.0));
    assert_eq!(get(&candidates[1], "gm"), Some(2.0));
    assert_eq!(get(&candidates[1], "ro"), Some(20.0));
}

#[test]
fn reports_empty_candidate_set() {
    let sets: Vec<(String, Vec<Vec<(String, f64)>>)> = vec![("xdp".to_string(), Vec::new())];

    assert_eq!(
        generate_combinations(&sets),
        Err(CandidateGenerationError::EmptySet {
            set: "xdp".to_string(),
        })
    );
}

fn columns(values: Vec<(&str, Vec<f64>)>) -> Vec<(String, Vec<f64>)> {
    values
        .into_iter()
        .map(|(name, values)| (name.to_string(), values))
        .collect()
}

fn column<'a>(columns: &'a [(String, Vec<f64>)], name: &str) -> &'a Vec<f64> {
    &columns.iter().find(|(key, _)| key == name).unwrap().1
}

#[test]
fn builds_candidate_set_from_columns() {
    let columns = columns(vec![("gm", vec![1.0, 2.0]), ("ro", vec![10.0, 20.0])]);

    let points = candidate_points_from_columns(&columns).unwrap();

    assert_eq!(
        points,
        vec![
            point(vec![("gm", 1.0), ("ro", 10.0)]),
            point(vec![("gm", 2.0), ("ro", 20.0)]),
        ]
    );
}

#[test]
fn reports_empty_columns_when_building_candidate_set() {
    let columns: Vec<(String, Vec<f64>)> = Vec::new();
    assert_eq!(
        candidate_points_from_columns(&columns),
        Err(CandidateSetBuildError::EmptyColumns)
    );
}

#[test]
fn reports_column_length_mismatch_when_building_candidate_set() {
    let columns = columns(vec![("gm", vec![1.0, 2.0]), ("ro", vec![10.0])]);

    assert_eq!(
        candidate_points_from_columns(&columns),
        Err(CandidateSetBuildError::ColumnLengthMismatch {
            column: "ro".to_string(),
            expected: 2,
            actual: 1,
        })
    );
}

#[test]
fn assembles_filtered_table_from_columns() {
    let all = columns(vec![
        ("w", vec![1.0, 2.0, 3.0]),
        ("l", vec![4.0, 5.0, 6.0]),
        ("gain", vec![10.0, 20.0, 30.0]),
        ("gm", vec![0.1, 0.2, 0.3]),
    ]);
    let mask = vec![true, false, true];

    let (table, row_count) = filter_columns_by_mask(&all, &mask).unwrap();

    assert_eq!(row_count, 2);
    assert_eq!(column(&table, "w"), &vec![1.0, 3.0]);
    assert_eq!(column(&table, "l"), &vec![4.0, 6.0]);
    assert_eq!(column(&table, "gain"), &vec![10.0, 30.0]);
    assert_eq!(column(&table, "gm"), &vec![0.1, 0.3]);
}

#[test]
fn reports_column_mask_length_mismatch() {
    let all = columns(vec![("w", vec![1.0, 2.0])]);
    let mask = vec![true, false, true];

    assert_eq!(
        filter_columns_by_mask(&all, &mask),
        Err(ExplorationTableError::MaskLengthMismatch {
            column: "w".to_string(),
            mask_len: 3,
            values_len: 2,
        })
    );
}

#[test]
fn allows_empty_column_groups() {
    let all: Vec<(String, Vec<f64>)> = Vec::new();
    let mask = vec![true, false, true];
    let (table, row_count) = filter_columns_by_mask(&all, &mask).unwrap();

    assert_eq!(row_count, 2);
    assert!(table.is_empty());
}

#[test]
fn gets_candidate_point_value_by_name() {
    let point = point(vec![("W_diff", 1.0), ("L_diff", 2.0)]);

    assert_eq!(candidate_value(&point, "W_diff"), Some(1.0));
    assert_eq!(candidate_value(&point, "missing"), None);
}

#[test]
fn converts_candidate_points_to_columns() {
    let points = vec![
        point(vec![("W", 1.0), ("L", 3.0)]),
        point(vec![("W", 2.0), ("L", 4.0)]),
    ];

    assert_eq!(
        candidate_columns(&points),
        vec![
            ("W".to_string(), vec![1.0, 2.0]),
            ("L".to_string(), vec![3.0, 4.0]),
        ]
    );
}

#[test]
fn converts_empty_candidate_points_to_empty_columns() {
    let points: Vec<Vec<(String, f64)>> = Vec::new();
    assert!(candidate_columns(&points).is_empty());
}

#[test]
fn skips_candidates_without_the_first_candidates_names() {
    let points = vec![
        point(vec![("W", 1.0), ("L", 3.0)]),
        point(vec![("W", 2.0)]),
    ];

    assert_eq!(
        candidate_columns(&points),
        vec![
            ("W".to_string(), vec![1.0, 2.0]),
            ("L".to_string(), vec![3.0]),
        ]
    );
}

#[test]
fn turns_candidates_back_into_their_columns() {
    let columns = vec![
        ("W".to_string(), vec![1.0, 2.0, 3.0]),
        ("L".to_string(), vec![4.0, 5.0, 6.0]),
    ];

    let points = candidate_points_from_columns(&columns).unwrap();

    assert_eq!(candidate_columns(&points), columns);
}
