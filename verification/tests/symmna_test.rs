use libsstadex::mna::expr::Expr;
use libsstadex::mna::symmna::{smna, smna_in_range, smna_lines, SmnaError};

#[test]
fn builds_resistor_current_source_mna() {
    let result = smna("R1 1 0 1000\nI1 1 0 0.001\n").unwrap();

    assert_eq!(result.a[0][0].to_string(), "1/R1");
    assert_eq!(result.x[0].to_string(), "v1");
    assert_eq!(result.z[0].to_string(), "-I1");
}

#[test]
fn builds_voltage_source_unknown_current() {
    let result = smna("R1 1 0 1000\nV1 1 0 1\n").unwrap();

    assert_eq!(result.a.len(), 2);
    assert_eq!(result.a[0][1].to_string(), "1");
    assert_eq!(result.a[1][0].to_string(), "1");
    assert_eq!(result.x[1].to_string(), "I_V1");
    assert_eq!(result.z[1].to_string(), "V1");
}

#[test]
fn reports_the_netlist() {
    let result = smna("* title\nR1 1 2 1k\nr2 2 0 2k\nV1 1 0 1\n").unwrap();

    assert_eq!(
        result.report,
        "Net list report\n\
number of lines in netlist: 3\n\
number of branches: 3\n\
number of nodes: 2\n\
number of unknown currents: 1\n\
number of RLC (passive components): 2\n\
number of inductors: 0\n\
number of independent voltage sources: 1\n\
number of independent current sources: 0\n\
number of op amps: 0\n\
number of E - VCVS: 0\n\
number of G - VCCS: 0\n\
number of F - CCCS: 0\n\
number of H - CCVS: 0\n\
number of K - Coupled inductors: 0\n"
    );
    assert_eq!(result.df[0].element, "V1");
    assert_eq!(result.df[2].element, "R2");
}

#[test]
fn stamps_a_voltage_divider() {
    let result = smna("V1 1 0 vin\nR1 1 2 r1\nR2 2 0 r2\n").unwrap();
    let a: Vec<Vec<String>> =
        result.a.iter().map(|row| row.iter().map(Expr::to_string).collect()).collect();

    assert_eq!(
        a,
        vec![
            vec!["1/R1".to_string(), "-1/R1".to_string(), "1".to_string()],
            vec!["-1/R1".to_string(), "(1/R1 + 1/R2)".to_string(), "0".to_string()],
            vec!["1".to_string(), "0".to_string(), "0".to_string()],
        ]
    );
    let z: Vec<String> = result.z.iter().map(Expr::to_string).collect();
    assert_eq!(z, vec!["0".to_string(), "0".to_string(), "V1".to_string()]);
    let x: Vec<String> = result.x.iter().map(Expr::to_string).collect();
    assert_eq!(x, vec!["v1".to_string(), "v2".to_string(), "I_V1".to_string()]);
}

#[test]
fn stamps_capacitor_and_vccs() {
    let result = smna("C1 1 0 c\nG1 1 0 2 0 gm\nR1 2 0 r\nI1 0 2 i\n").unwrap();

    assert_eq!(result.a[0][0].to_string(), "s*C1");
    assert_eq!(result.a[0][1].to_string(), "gm");
    assert_eq!(result.a[1][1].to_string(), "1/R1");
    assert_eq!(result.z[1].to_string(), "I1");
}

#[test]
fn reports_unknown_element() {
    assert_eq!(
        smna("R1 1 0 1\nQ1 1 2 3\n").unwrap_err(),
        SmnaError::UnknownElement { line: 1, content: "Q1 1 2 3".to_string() }
    );
}

#[test]
fn reports_bad_token_count() {
    assert_eq!(
        smna("R1 1 0\n").unwrap_err(),
        SmnaError::BadTokenCount {
            line: 0,
            content: "R1 1 0".to_string(),
            expected: 4,
            actual: 3,
        }
    );
}

#[test]
fn reports_bad_node() {
    assert_eq!(
        smna("R1 a 0 1\n").unwrap_err(),
        SmnaError::BadNode { token: "a".to_string() }
    );
}

#[test]
fn reports_missing_node() {
    assert_eq!(smna("R1 1 3 1\n").unwrap_err(), SmnaError::MissingNode { node: 2 });
}

#[test]
fn reports_missing_controlling_branch() {
    assert_eq!(
        smna("R1 1 0 1\nF1 1 0 Vx 2\n").unwrap_err(),
        SmnaError::MissingBranch { name: "Vx".to_string() }
    );
}

#[test]
fn checks_controlling_nodes_against_node_count() {
    assert!(smna_in_range("R1 1 0 1\nG1 1 0 2 0 gm\nR2 2 0 1\n"));
    assert!(!smna_in_range("R1 1 0 1\nG1 1 0 5 0 gm\n"));
    assert!(smna_in_range("Q1 1 0 1\n"));
}

#[test]
fn expression_texts_simplify_identities() {
    let zero = Expr::zero();
    let one = Expr::one();
    let a = Expr::symbol("a");

    assert_eq!(a.add(&zero).to_string(), "a");
    assert_eq!(zero.sub(&a).to_string(), "-a");
    assert_eq!(a.mul(&one).to_string(), "a");
    assert_eq!(a.mul(&zero).to_string(), "0");
    assert_eq!(one.reciprocal().to_string(), "1");
    assert_eq!(zero.neg().to_string(), "0");
    assert_eq!(a.add(&Expr::symbol("b")).to_string(), "(a + b)");
    assert_eq!(a.sub(&Expr::symbol("b")).to_string(), "(a - b)");
}

#[test]
fn builds_a_square_system() {
    let result = smna("R1 1 2 1k\nL1 2 0 1m\nV1 1 0 1\nE1 3 0 1 2 10\nR2 3 0 1k\n").unwrap();

    let unknowns = result.x.len();
    assert_eq!(unknowns, 3 + 3);
    assert_eq!(result.z.len(), unknowns);
    assert_eq!(result.a.len(), unknowns);
    assert!(result.a.iter().all(|row| row.len() == unknowns));
}

#[test]
fn analyses_prepared_lines_as_the_netlist() {
    let lines = vec!["R1 1 0 1000".to_string(), "I1 1 0 0.001".to_string()];
    let result = smna_lines(&lines).unwrap();

    assert_eq!(result.a[0][0].to_string(), "1/R1");
    assert_eq!(result.x[0].to_string(), "v1");
    assert_eq!(result.z[0].to_string(), "-I1");
    let whole = smna("r1 1 0 1000\n* note\nI1 1 0 0.001\n").unwrap();
    assert_eq!(whole.report, result.report);
}
