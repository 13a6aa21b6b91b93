use libsstadex::mna::mna::{
    mna_from_netlist, mna_from_netlist_in_range, parse_solver_output, solver_arguments, MnaError, MnaResult, MnaSolveResult,
    NodeVariable,
};
use libsstadex::mna::expr::Expr;
use libsstadex::mna::pretty::{pretty_solutions, pretty_system};
use libsstadex::mna::spice_parser::{convert_spice_lines, spice_line_ok, NodeMap};

fn lines(text: &str) -> Vec<String> {
    text.lines().map(|l| l.to_string()).collect()
}

#[test]
fn converts_spice_nets_to_numbers() {
    let (out, nodes) = convert_spice_lines(&lines(
        "* prerendered small-signal netlist\nVin VIN vss 1\nR1 VOUT vss ro\nG1 VOUT vss VIN vss gm\n\n.end\n",
    ));

    assert_eq!(out, vec!["Vin 1 0 1", "R1 2 0 ro", "G1 2 0 1 0 gm"]);
    assert_eq!(
        *nodes.entries(),
        vec![("VIN".to_string(), 1), ("vss".to_string(), 0), ("VOUT".to_string(), 2)]
    );
}

#[test]
fn keeps_other_lines_and_drops_extra_tokens() {
    let (out, nodes) = convert_spice_lines(&lines("R1  a   b  r  extra\n  X1 a b sub\nK1 L1 L2 k\n"));

    assert_eq!(out, vec!["R1 1 2 r", "  X1 a b sub", "K1 L1 L2 k"]);
    assert_eq!(*nodes.entries(), vec![("a".to_string(), 1), ("b".to_string(), 2)]);
}

#[test]
fn reports_node_map_by_number() {
    let map = NodeMap::from_entries(vec![("VOUT".to_string(), 2), ("vss".to_string(), 0), ("VIN".to_string(), 1)]).unwrap();

    assert_eq!(
        map.to_string(),
        "SPICE parser report\n===================\nNumber of nodes: 3\n\nNode name            Node number\n---------            -----------\nvss                  0\nVIN                  1\nVOUT                 2\n"
    );
}

fn result_with_nodes() -> MnaResult {
    MnaResult {
        report: String::new(),
        a: Vec::new(),
        x: Vec::new(),
        z: Vec::new(),
        nodes: NodeMap::from_entries(vec![
                ("VOUT".to_string(), 2),
                ("vss".to_string(), 0),
                ("VIN".to_string(), 1),
            ]).unwrap(),
    }
}

#[test]
fn maps_variables_and_node_names() {
    let mna = result_with_nodes();

    assert_eq!(mna.variable_for_node_name("VOUT").as_deref(), Some("v2"));
    assert_eq!(mna.variable_for_node_name("vss"), None);
    assert_eq!(mna.variable_for_node_name("missing"), None);
    assert_eq!(mna.node_name_for_variable("v1"), Some("VIN"));
    assert_eq!(mna.node_name_for_variable("v+2"), Some("VOUT"));
    assert_eq!(mna.node_name_for_variable("v9"), None);
    assert_eq!(mna.node_name_for_variable("x1"), None);
    assert_eq!(
        mna.node_variables(),
        vec![
            NodeVariable {
                variable: "v1".to_string(),
                node_name: "VIN".to_string(),
                node_number: 1,
            },
            NodeVariable {
                variable: "v2".to_string(),
                node_name: "VOUT".to_string(),
                node_number: 2,
            },
        ]
    );
}

#[test]
fn analyses_a_converted_netlist() {
    let (out, nodes) = convert_spice_lines(&lines("Vin VIN vss 1\nR1 VOUT vss ro\nG1 VOUT vss VIN vss gm\n"));
    let content = out.join("\n");
    let mna = mna_from_netlist(nodes, &content).unwrap();

    assert_eq!(mna.variable_for_node_name("VIN").as_deref(), Some("v1"));
    assert_eq!(mna.variable_for_node_name("VOUT").as_deref(), Some("v2"));
    assert!(mna.a.iter().flatten().any(|expr| expr.to_string().contains("gm")));
}

#[test]
fn analysis_errors_carry_the_netlist_error() {
    let result = mna_from_netlist(NodeMap::from_entries(Vec::new()).unwrap(), "Q1 1 0 1\n");

    assert!(matches!(result, Err(MnaError::SymMna(_))));
}

#[test]
fn reads_solver_output() {
    let solved = parse_solver_output("v1\tgm*ro*vin\n\nv2\tvin\r\nv1\tx\n").unwrap();

    assert_eq!(
        solved,
        MnaSolveResult::from_pairs(vec![("v1".to_string(), "x".to_string()), ("v2".to_string(), "vin".to_string())]).unwrap()
    );
    assert_eq!(solved.get("v2").map(|s| s.as_str()), Some("vin"));
    assert_eq!(solved.get("v3"), None);
}

#[test]
fn reports_invalid_solver_line() {
    match parse_solver_output("v1\tx\nnonsense\n") {
        Err(MnaError::PythonSolve(message)) => {
            assert_eq!(message, "invalid SymPy solver output line: nonsense")
        },
        other => panic!("unexpected {:?}", other),
    }
}

#[test]
fn writes_solver_arguments() {
    let a = vec![vec![Expr::symbol("a'b"), Expr::zero()], vec![Expr::symbol("c\\d"), Expr::one()]];
    let x = vec![Expr::symbol("v1"), Expr::symbol("v2")];
    let z = vec![Expr::zero()];
    let (am, xm, zm) = solver_arguments(&a, &x, &z);

    assert_eq!(am, "[['a\\'b', '0'], ['c\\\\d', '1']]");
    assert_eq!(xm, "['v1', 'v2']");
    assert_eq!(zm, "['0']");
}

#[test]
fn writes_the_system_and_solutions() {
    let a = vec![
        vec![Expr::symbol("g"), Expr::one().neg(), Expr::zero()],
        vec![Expr::one(), Expr::zero()],
    ];
    let x = vec![Expr::symbol("v1"), Expr::symbol("v2")];
    let z = vec![Expr::symbol("i")];

    assert_eq!(
        pretty_system(&a, &x, &z),
        "MNA system\n==========\n\neq_1: (g)·v1 + -v2 = i\neq_2: v1 = <missing rhs>\n"
    );
    assert_eq!(pretty_system(&Vec::new(), &x, &z), "MNA system\n==========\n\n<empty system>\n");
    assert_eq!(
        pretty_solutions(&vec![("v2".to_string(), "b".to_string()), ("v1".to_string(), "a".to_string())]),
        "MNA solutions\n=============\n\nv1 = a\nv2 = b\n"
    );
    assert_eq!(pretty_solutions(&Vec::new()), "MNA solutions\n=============\n\n<empty solutions>\n");
}

#[test]
fn checks_that_spice_lines_have_their_fields() {
    assert!(spice_line_ok("R1 a b 1k"));
    assert!(!spice_line_ok("R1 a b"));
    assert!(spice_line_ok("G1 a b c d gm"));
    assert!(!spice_line_ok("G1 a b c d"));
    assert!(spice_line_ok("   "));
    assert!(spice_line_ok("* comment"));
}

#[test]
fn analyses_only_netlists_whose_stamps_stay_in_range() {
    let nodes = NodeMap::from_entries(vec![("0".to_string(), 0), ("A".to_string(), 1)]).unwrap();
    assert!(mna_from_netlist_in_range(nodes.clone(), "R1 1 0 1\nG1 1 0 5 0 gm\n").is_none());
    let result = mna_from_netlist_in_range(nodes, "R1 1 0 1\nI1 1 0 1\n")
        .unwrap()
        .unwrap();
    assert_eq!(result.x.len(), 1);
    assert_eq!(result.nodes.entries().len(), 2);
}

#[test]
fn refuses_maps_and_solutions_that_repeat_a_name() {
    assert!(NodeMap::from_entries(vec![("A".to_string(), 1), ("A".to_string(), 2)]).is_none());
    let map = NodeMap::from_entries(vec![("A".to_string(), 1), ("B".to_string(), 2)]).unwrap();
    assert_eq!(map.entries().len(), 2);
    assert!(MnaSolveResult::from_pairs(vec![
        ("v1".to_string(), "a".to_string()),
        ("v1".to_string(), "b".to_string()),
    ])
    .is_none());
    let sol = MnaSolveResult::from_pairs(vec![("v1".to_string(), "a".to_string())]).unwrap();
    assert_eq!(sol.solutions()[0].1, "a");
}
