use libsstadex::analysis::{
    transfer_function_expression, CircuitMnaAnalysis, CircuitMnaOutput, TransferFunctionError,
};
use libsstadex::mna::mna::{MnaResult, MnaSolveResult};
use libsstadex::mna::spice_parser::NodeMap;

fn synthetic_mna_result() -> MnaResult {
    MnaResult {
        report: String::new(),
        a: Vec::new(),
        x: Vec::new(),
        z: Vec::new(),
        nodes: NodeMap::from_entries(vec![
                ("0".to_string(), 0),
                ("VOUT".to_string(), 1),
                ("VIN".to_string(), 2),
            ]).unwrap(),
    }
}

#[test]
fn extracts_transfer_function_expression_from_mna_solution() {
    let mna = synthetic_mna_result();
    let solution = MnaSolveResult::from_pairs(vec![
            ("v1".to_string(), "gm*ro*vin".to_string()),
            ("v2".to_string(), "vin".to_string()),
        ]).unwrap();

    assert_eq!(
        transfer_function_expression(&mna, &solution, "VIN", "VOUT").unwrap(),
        "(gm*ro*vin)/(vin)"
    );
}

#[test]
fn reports_missing_transfer_function_node() {
    let mna = synthetic_mna_result();
    let solution = MnaSolveResult::from_pairs(Vec::new()).unwrap();

    assert_eq!(
        transfer_function_expression(&mna, &solution, "MISSING", "VOUT"),
        Err(TransferFunctionError::MissingInputNode { node: "MISSING".to_string() })
    );
    assert_eq!(
        transfer_function_expression(&mna, &solution, "VIN", "MISSING"),
        Err(TransferFunctionError::MissingOutputNode { node: "MISSING".to_string() })
    );
}

#[test]
fn reports_missing_transfer_function_solution() {
    let mna = synthetic_mna_result();
    let solution = MnaSolveResult::from_pairs(vec![("v2".to_string(), "vin".to_string())]).unwrap();

    assert_eq!(
        transfer_function_expression(&mna, &solution, "VIN", "VOUT"),
        Err(TransferFunctionError::MissingOutputSolution { variable: "v1".to_string() })
    );
}

#[test]
fn reports_missing_input_solution() {
    let mna = synthetic_mna_result();
    let solution = MnaSolveResult::from_pairs(vec![("v1".to_string(), "vout".to_string())]).unwrap();

    assert_eq!(
        transfer_function_expression(&mna, &solution, "VIN", "VOUT"),
        Err(TransferFunctionError::MissingInputSolution { variable: "v2".to_string() })
    );
}

#[test]
fn ground_node_has_no_transfer_function_variable() {
    let mna = synthetic_mna_result();
    let solution = MnaSolveResult::from_pairs(vec![("v1".to_string(), "x".to_string())]).unwrap();

    assert_eq!(
        transfer_function_expression(&mna, &solution, "0", "VOUT"),
        Err(TransferFunctionError::MissingInputNode { node: "0".to_string() })
    );
}

#[test]
fn lists_nodes_and_solutions_in_strictly_increasing_order() {
    let mna = MnaResult {
        report: String::new(),
        a: Vec::new(),
        x: Vec::new(),
        z: Vec::new(),
        nodes: NodeMap::from_entries(vec![
                ("VOUT".to_string(), 2),
                ("0".to_string(), 0),
                ("VIN".to_string(), 1),
            ]).unwrap(),
    };
    let analysis = CircuitMnaAnalysis {
        small_signal_netlist: String::new(),
        spice_path: std::path::PathBuf::from("a.spice"),
        cir_path: std::path::PathBuf::from("a.cir"),
        mna,
        solution: Some(MnaSolveResult::from_pairs(vec![
                ("v2".to_string(), "b".to_string()),
                ("v1".to_string(), "a".to_string()),
                ("I_V1".to_string(), "c".to_string()),
            ]).unwrap()),
    };
    let out = CircuitMnaOutput::from_analysis(&analysis);
    let numbers: Vec<usize> = out.nodes.iter().map(|n| n.number).collect();
    assert_eq!(numbers, vec![0, 1, 2]);
    let names: Vec<String> = out
        .solution
        .unwrap()
        .iter()
        .map(|s| s.variable.clone())
        .collect();
    assert_eq!(names, vec!["I_V1".to_string(), "v1".to_string(), "v2".to_string()]);
}
