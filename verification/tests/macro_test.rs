use libsstadex::catalog::PrimitiveCatalog;
use libsstadex::circuit::{Circuit, Connection, Instance, PinRef};
use libsstadex::macro_model::{
    validate_macro_catalog, validate_macro_model, MacroCatalog, MacroMetadata, MacroModel, MacroPort, MacroPortRole,
    MacroValidationError,
};
use libsstadex::primitive::manifest::{Pin, PinRole, PrimitiveFiles, PrimitiveManifest};

fn current_source_catalog() -> PrimitiveCatalog {
    let mut catalog = PrimitiveCatalog::new();
    catalog.register(PrimitiveManifest {
        name: "simplecurrentsource".to_string(),
        version: "1.0".to_string(),
        description: None,
        subckt_name: "simplecurrentsource".to_string(),
        pins: vec![
            Pin { name: "VBIAS".to_string(), role: PinRole::Bias },
            Pin { name: "VOUT".to_string(), role: PinRole::Output },
            Pin { name: "VSS".to_string(), role: PinRole::Supply },
        ],
        files: PrimitiveFiles { netlist: "netlist/netlist.spice".to_string(), build: None, symbol: None },
        small_signal: None,
        transistor_type: Some("nmos".to_string()),
    });
    catalog
}

#[test]
fn reports_unknown_primitive_pin() {
    let primitive_catalog = current_source_catalog();
    let macro_catalog = MacroCatalog::new();
    let mut circuit = Circuit::new("bad_macro");
    circuit.add_instance(Instance::primitive("xcs", "simplecurrentsource"));
    circuit.connect(Connection::new(PinRef::new("xcs", "NOPE"), "VOUT"));
    let macro_model =
        MacroModel::new("bad_macro", vec![MacroPort::new("VOUT", MacroPortRole::Output)], circuit);

    let errors = validate_macro_model(&macro_model, &primitive_catalog, &macro_catalog);

    assert!(errors.contains(&MacroValidationError::UnknownPin {
        macro_name: "bad_macro".to_string(),
        instance: "xcs".to_string(),
        block: "simplecurrentsource".to_string(),
        pin: "NOPE".to_string(),
    }));
}

#[test]
fn validates_current_source_macro() {
    let primitive_catalog = current_source_catalog();
    let macro_catalog = MacroCatalog::new();
    let mut circuit = Circuit::new("current_source");
    circuit.add_instance(Instance::primitive("xcs", "simplecurrentsource"));
    circuit.connect(Connection::new(PinRef::new("xcs", "VBIAS"), "VBIAS"));
    circuit.connect(Connection::new(PinRef::new("xcs", "VOUT"), "VOUT"));
    circuit.connect(Connection::new(PinRef::new("xcs", "VSS"), "VSS"));
    let macro_model = MacroModel::new(
        "current_source",
        vec![
            MacroPort::new("VOUT", MacroPortRole::Output),
            MacroPort::new("VSS", MacroPortRole::Ground),
            MacroPort::new("VBIAS", MacroPortRole::Bias),
        ],
        circuit,
    );

    assert_eq!(validate_macro_model(&macro_model, &primitive_catalog, &macro_catalog), Vec::new());
}

#[test]
fn reports_macro_errors_in_order() {
    let primitive_catalog = current_source_catalog();
    let mut macro_catalog = MacroCatalog::new();
    let mut child_circuit = Circuit::new("child");
    child_circuit.connect(Connection::new(PinRef::new("x", "P"), "P"));
    macro_catalog.register(MacroModel::new(
        "child",
        vec![MacroPort::new("P", MacroPortRole::Inout)],
        child_circuit,
    ));
    let mut circuit = Circuit::new("top");
    circuit.add_instance(Instance::macro_instance("xc", "child"));
    circuit.add_instance(Instance::macro_instance("xc", "nothere"));
    circuit.add_instance(Instance::primitive("xp", "missingprim"));
    circuit.connect(Connection::new(PinRef::new("xc", "Q"), "A"));
    let macro_model = MacroModel::new(
        "top",
        vec![
            MacroPort::new("A", MacroPortRole::Input),
            MacroPort::new("A", MacroPortRole::Input),
            MacroPort::new("B", MacroPortRole::Output),
        ],
        circuit,
    );

    assert_eq!(
        validate_macro_model(&macro_model, &primitive_catalog, &macro_catalog),
        vec![
            MacroValidationError::DuplicatePort { macro_name: "top".to_string(), port: "A".to_string() },
            MacroValidationError::MissingPublicPortNet {
                macro_name: "top".to_string(),
                port: "B".to_string(),
            },
            MacroValidationError::DuplicateInstance {
                macro_name: "top".to_string(),
                instance: "xc".to_string(),
            },
            MacroValidationError::UnknownMacro {
                macro_name: "top".to_string(),
                instance: "xc".to_string(),
                referenced_macro: "nothere".to_string(),
            },
            MacroValidationError::UnknownPrimitive {
                macro_name: "top".to_string(),
                instance: "xp".to_string(),
                primitive: "missingprim".to_string(),
            },
            MacroValidationError::UnknownPin {
                macro_name: "top".to_string(),
                instance: "xc".to_string(),
                block: "child".to_string(),
                pin: "Q".to_string(),
            },
        ]
    );
}

#[test]
fn new_macro_takes_default_metadata() {
    let model = MacroModel::new("m", Vec::new(), Circuit::new("m"));

    assert_eq!(model.subckt_name, "m");
    assert_eq!(model.metadata, MacroMetadata { version: "1.0".to_string(), description: None });
    assert_eq!(model.metadata, MacroMetadata::default());
    assert!(model.small_signal.is_none());
}

fn macro_with_macro_instance(name: &str, instance: &str, referenced_macro: &str) -> MacroModel {
    let mut circuit = Circuit::new(name);
    circuit.add_instance(Instance::macro_instance(instance, referenced_macro));
    circuit.connect(Connection::new(PinRef::new(instance, "P"), "P"));
    MacroModel::new(name, vec![MacroPort::new("P", MacroPortRole::Inout)], circuit)
}

#[test]
fn reports_macro_dependency_cycle() {
    let primitive_catalog = PrimitiveCatalog::new();
    let mut macro_catalog = MacroCatalog::new();

    macro_catalog.register(macro_with_macro_instance("a", "xb", "b"));
    macro_catalog.register(macro_with_macro_instance("b", "xc", "c"));
    macro_catalog.register(macro_with_macro_instance("c", "xa", "a"));

    let errors = validate_macro_catalog(&macro_catalog, &primitive_catalog);

    assert!(errors.iter().any(|error| matches!(error, MacroValidationError::CyclicDependency { path } if path == &vec![
        "a".to_string(),
        "b".to_string(),
        "c".to_string(),
        "a".to_string()
    ] || path == &vec![
        "b".to_string(),
        "c".to_string(),
        "a".to_string(),
        "b".to_string()
    ] || path == &vec![
        "c".to_string(),
        "a".to_string(),
        "b".to_string(),
        "c".to_string()
    ])));
}

#[test]
fn reports_catalog_errors_then_each_cycle_once() {
    let primitive_catalog = PrimitiveCatalog::new();
    let mut macro_catalog = MacroCatalog::new();
    macro_catalog.register(macro_with_macro_instance("b", "xa", "a"));
    macro_catalog.register(macro_with_macro_instance("a", "xb", "b"));
    macro_catalog.register(macro_with_macro_instance("self_user", "xs", "self_user"));
    macro_catalog.register(macro_with_macro_instance("lonely", "xn", "nowhere"));

    let errors = validate_macro_catalog(&macro_catalog, &primitive_catalog);

    assert_eq!(
        errors,
        vec![
            MacroValidationError::UnknownMacro {
                macro_name: "lonely".to_string(),
                instance: "xn".to_string(),
                referenced_macro: "nowhere".to_string(),
            },
            MacroValidationError::CyclicDependency {
                path: vec!["a".to_string(), "b".to_string(), "a".to_string()],
            },
            MacroValidationError::CyclicDependency {
                path: vec!["self_user".to_string(), "self_user".to_string()],
            },
        ]
    );
}

#[test]
fn reports_no_cycle_for_a_catalog_without_one() {
    let primitive_catalog = PrimitiveCatalog::new();
    let mut macro_catalog = MacroCatalog::new();
    macro_catalog.register(macro_with_macro_instance("top", "xm", "mid"));
    macro_catalog.register(macro_with_macro_instance("mid", "xl", "leaf"));
    macro_catalog.register(macro_with_macro_instance("other", "xl", "leaf"));
    let mut leaf_circuit = Circuit::new("leaf");
    leaf_circuit.connect(Connection::new(PinRef::new("x", "P"), "P"));
    macro_catalog.register(MacroModel::new("leaf", vec![MacroPort::new("P", MacroPortRole::Inout)], leaf_circuit));

    let errors = validate_macro_catalog(&macro_catalog, &primitive_catalog);

    assert!(!errors.iter().any(|error| matches!(error, MacroValidationError::CyclicDependency { .. })));
}
