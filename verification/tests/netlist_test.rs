use libsstadex::catalog::PrimitiveCatalog;
use libsstadex::circuit::{Circuit, CircuitValidationError, Connection, Instance, PinRef};
use libsstadex::exploration::{SpecSource, TestbenchElement, TestbenchSpec};
use libsstadex::netlist::{
    render_circuit_netlist, render_small_signal_netlist, render_spec_testbenches,
    render_testbench_small_signal_netlist,
    NetlistRenderError, SmallSignalRenderError,
};
use libsstadex::primitive::manifest::{Pin, PinRole, PrimitiveFiles, PrimitiveManifest};
use libsstadex::primitive::small_signal::{SmallSignalBranch, SmallSignalModel};

fn pins() -> Vec<Pin> {
    vec![
        Pin { name: "VINP".to_string(), role: PinRole::Input },
        Pin { name: "VINN".to_string(), role: PinRole::Input },
        Pin { name: "VOUTP".to_string(), role: PinRole::Output },
        Pin { name: "VOUTN".to_string(), role: PinRole::Output },
        Pin { name: "VTAIL".to_string(), role: PinRole::Bias },
    ]
}

fn manifest(small_signal: Option<SmallSignalModel>) -> PrimitiveManifest {
    PrimitiveManifest {
        name: "simplediffpair".to_string(),
        version: "1.0".to_string(),
        description: None,
        subckt_name: "simplediffpair".to_string(),
        pins: pins(),
        files: PrimitiveFiles {
            netlist: "netlist/netlist.spice".to_string(),
            build: None,
            symbol: None,
        },
        small_signal,
        transistor_type: None,
    }
}

fn catalog_with_simplediffpair() -> PrimitiveCatalog {
    let mut catalog = PrimitiveCatalog::new();
    catalog.register(manifest(Some(SmallSignalModel {
        branches: vec![
            SmallSignalBranch {
                name: "m1".to_string(),
                vd: "VOUTP".to_string(),
                vg: "VINP".to_string(),
                vs: "VTAIL".to_string(),
            },
            SmallSignalBranch {
                name: "m2".to_string(),
                vd: "VOUTN".to_string(),
                vg: "VINN".to_string(),
                vs: "VTAIL".to_string(),
            },
        ],
    })));
    catalog
}

fn ota_circuit() -> Circuit {
    let mut circuit = Circuit::new("ota");
    circuit.add_instance(Instance::new("xdp", "simplediffpair"));
    circuit.connect(Connection::new(PinRef::new("xdp", "VINP"), "VINP"));
    circuit.connect(Connection::new(PinRef::new("xdp", "VINN"), "VINN"));
    circuit.connect(Connection::new(PinRef::new("xdp", "VOUTP"), "VOUT"));
    circuit.connect(Connection::new(PinRef::new("xdp", "VOUTN"), "N1"));
    circuit.connect(Connection::new(PinRef::new("xdp", "VTAIL"), "IBIAS"));
    circuit
}

#[test]
fn renders_instance_lines_in_pin_order() {
    let catalog = catalog_with_simplediffpair();
    let circuit = ota_circuit();

    let netlist = render_circuit_netlist(&circuit, &catalog).unwrap();

    assert!(netlist.contains("* Circuit: ota"));
    assert!(netlist.contains("Xxdp VINP VINN VOUT N1 IBIAS simplediffpair"));
    assert_eq!(netlist, "* Circuit: ota\nXxdp VINP VINN VOUT N1 IBIAS simplediffpair\n");
}

#[test]
fn reports_unconnected_pin() {
    let catalog = catalog_with_simplediffpair();
    let mut circuit = Circuit::new("ota");

    circuit.add_instance(Instance::new("xdp", "simplediffpair"));
    circuit.connect(Connection::new(PinRef::new("xdp", "VINP"), "VINP"));

    let error = render_circuit_netlist(&circuit, &catalog).unwrap_err();

    assert_eq!(
        error,
        NetlistRenderError::UnconnectedPin { instance: "xdp".to_string(), pin: "VINN".to_string() }
    );
}

#[test]
fn reports_invalid_circuit_before_rendering() {
    let catalog = catalog_with_simplediffpair();
    let mut circuit = ota_circuit();
    circuit.add_instance(Instance::macro_instance("xm", "mirror"));

    assert_eq!(
        render_circuit_netlist(&circuit, &catalog).unwrap_err(),
        NetlistRenderError::InvalidCircuit(vec![CircuitValidationError::UnknownMacro {
            instance: "xm".to_string(),
            macro_name: "mirror".to_string(),
        }])
    );
}

#[test]
fn renders_small_signal_elements_for_branches() {
    let catalog = catalog_with_simplediffpair();
    let circuit = ota_circuit();

    let netlist = render_small_signal_netlist(&circuit, &catalog).unwrap();

    assert!(netlist.contains("* Small-signal circuit: ota"));
    assert!(netlist.contains("R_ro__xdp__m1 VOUT IBIAS ro__xdp__m1"));
    assert!(netlist.contains("G_gm__xdp__m1 VOUT IBIAS VINP IBIAS gm__xdp__m1"));
    assert!(netlist.contains("R_ro__xdp__m2 N1 IBIAS ro__xdp__m2"));
    assert!(netlist.contains("G_gm__xdp__m2 N1 IBIAS VINN IBIAS gm__xdp__m2"));
    assert_eq!(
        netlist,
        "* Small-signal circuit: ota\n\n* instance xdp (simplediffpair)\n\
R_ro__xdp__m1 VOUT IBIAS ro__xdp__m1\nG_gm__xdp__m1 VOUT IBIAS VINP IBIAS gm__xdp__m1\n\
R_ro__xdp__m2 N1 IBIAS ro__xdp__m2\nG_gm__xdp__m2 N1 IBIAS VINN IBIAS gm__xdp__m2\n"
    );
}

#[test]
fn reports_missing_small_signal_model() {
    let mut catalog = PrimitiveCatalog::new();
    catalog.register(manifest(None));
    let circuit = ota_circuit();

    let error = render_small_signal_netlist(&circuit, &catalog).unwrap_err();

    assert_eq!(
        error,
        SmallSignalRenderError::MissingSmallSignalModel { primitive: "simplediffpair".to_string() }
    );
}

#[test]
fn reports_missing_branch_pin() {
    let catalog = catalog_with_simplediffpair();
    let mut circuit = Circuit::new("ota");
    circuit.add_instance(Instance::new("xdp", "simplediffpair"));
    circuit.connect(Connection::new(PinRef::new("xdp", "VOUTP"), "VOUT"));

    assert_eq!(
        render_small_signal_netlist(&circuit, &catalog).unwrap_err(),
        SmallSignalRenderError::MissingBranchPin {
            instance: "xdp".to_string(),
            branch: "m1".to_string(),
            pin: "VINP".to_string(),
        }
    );
}

#[test]
fn renders_small_signal_netlist_with_testbench_body() {
    let catalog = catalog_with_simplediffpair();
    let circuit = ota_circuit();

    let testbench = TestbenchSpec::new("gain")
        .with_element(TestbenchElement::VoltageSource {
            name: "Vin".to_string(),
            nplus: "VINP".to_string(),
            nminus: "VINN".to_string(),
            value: "ac 1".to_string(),
        })
        .with_extra_body(".ac dec 10 1 1e9");

    let netlist = render_testbench_small_signal_netlist(&circuit, &catalog, &testbench).unwrap();

    assert!(netlist.contains("G_gm__xdp__m1 VOUT IBIAS VINP IBIAS gm__xdp__m1"));
    assert!(netlist.contains("* testbench gain"));
    assert!(netlist.contains("Vin VINP VINN ac 1"));
    assert!(netlist.contains(".ac dec 10 1 1e9"));
    assert!(netlist.ends_with("\n\n* testbench gain\nVin VINP VINN ac 1\n.ac dec 10 1 1e9\n"));
}

#[test]
fn renders_small_signal_netlist_without_empty_testbench_body() {
    let catalog = catalog_with_simplediffpair();
    let circuit = ota_circuit();

    let netlist =
        render_testbench_small_signal_netlist(&circuit, &catalog, &TestbenchSpec::new("gain"))
            .unwrap();

    assert!(netlist.contains("* Small-signal circuit: ota"));
    assert!(!netlist.contains("* testbench gain"));
}

fn transfer(testbench: &str) -> SpecSource {
    SpecSource::TransferFunction {
        testbench: TestbenchSpec::new(testbench),
        input: "VINP".to_string(),
        output: "VOUT".to_string(),
    }
}

#[test]
fn renders_each_spec_testbench_once_in_order() {
    let catalog = catalog_with_simplediffpair();
    let circuit = ota_circuit();
    let sources = vec![
        transfer("gain"),
        SpecSource::Composed,
        transfer("psrr"),
        transfer("gain"),
    ];

    let names = render_spec_testbenches(&circuit, &catalog, &sources).unwrap();

    assert_eq!(names, vec!["gain".to_string(), "psrr".to_string()]);
    assert_eq!(
        render_spec_testbenches(&circuit, &catalog, &vec![SpecSource::Composed]).unwrap(),
        Vec::<String>::new()
    );
}

#[test]
fn stops_spec_testbenches_at_the_first_render_error() {
    let catalog = catalog_with_simplediffpair();
    let mut circuit = Circuit::new("ota");
    circuit.add_instance(Instance::new("xdp", "simplediffpair"));
    circuit.connect(Connection::new(PinRef::new("xdp", "VOUTP"), "VOUT"));

    assert_eq!(
        render_spec_testbenches(&circuit, &catalog, &vec![transfer("gain")]).unwrap_err(),
        render_small_signal_netlist(&circuit, &catalog).unwrap_err()
    );
    assert!(render_spec_testbenches(&circuit, &catalog, &vec![SpecSource::Composed]).is_ok());
}
