use libsstadex::catalog::PrimitiveCatalog;
use libsstadex::circuit::{
    validate_circuit, BlockKind, BlockRef, Circuit, CircuitValidationError, Connection, Instance,
    PinRef,
};
use libsstadex::primitive::manifest::{Pin, PinRole, PrimitiveFiles, PrimitiveManifest};

fn catalog_with_simplediffpair() -> PrimitiveCatalog {
    let mut catalog = PrimitiveCatalog::new();

    catalog.register(PrimitiveManifest {
        name: "simplediffpair".to_string(),
        version: "1.0".to_string(),
        description: None,
        subckt_name: "simplediffpair".to_string(),
        pins: vec![
            Pin { name: "VINP".to_string(), role: PinRole::Input },
            Pin { name: "VOUTP".to_string(), role: PinRole::Output },
        ],
        files: PrimitiveFiles {
            netlist: "netlist/netlist.spice".to_string(),
            build: None,
            symbol: None,
        },
        small_signal: None,
        transistor_type: None,
    });

    catalog
}

#[test]
fn creates_circuit_with_instance_and_connection() {
    let mut circuit = Circuit::new("ota_1stage");

    circuit.add_instance(Instance::new("xdp", "simplediffpair"));
    circuit.connect(Connection::new(PinRef::new("xdp", "VOUTP"), "VOUT"));

    assert_eq!(circuit.name, "ota_1stage");
    assert_eq!(circuit.instances.len(), 1);
    assert_eq!(circuit.connections.len(), 1);
    assert_eq!(circuit.instances[0].id, "xdp");
    assert_eq!(circuit.connections[0].net, "VOUT");
}

#[test]
fn validates_valid_circuit() {
    let catalog = catalog_with_simplediffpair();
    let mut circuit = Circuit::new("ota");

    circuit.add_instance(Instance::new("xdp", "simplediffpair"));
    circuit.connect(Connection::new(PinRef::new("xdp", "VINP"), "VINP"));
    circuit.connect(Connection::new(PinRef::new("xdp", "VOUTP"), "VOUT"));

    assert!(validate_circuit(&circuit, &catalog).is_empty());
}

#[test]
fn reports_circuit_validation_errors() {
    let catalog = catalog_with_simplediffpair();
    let mut circuit = Circuit::new("ota");

    circuit.add_instance(Instance::new("xdp", "simplediffpair"));
    circuit.add_instance(Instance::new("xdp", "unknownprimitive"));
    circuit.connect(Connection::new(PinRef::new("xmissing", "VINP"), "VINP"));
    circuit.connect(Connection::new(PinRef::new("xdp", "NOPE"), "VOUT"));

    let errors = validate_circuit(&circuit, &catalog);

    assert!(errors.contains(&CircuitValidationError::DuplicateInstance { id: "xdp".to_string() }));
    assert!(errors.contains(&CircuitValidationError::UnknownPrimitive {
        instance: "xdp".to_string(),
        primitive: "unknownprimitive".to_string(),
    }));
    assert!(errors.contains(&CircuitValidationError::UnknownInstance {
        instance: "xmissing".to_string(),
    }));
    assert!(errors.contains(&CircuitValidationError::UnknownPin {
        instance: "xdp".to_string(),
        primitive: "simplediffpair".to_string(),
        pin: "NOPE".to_string(),
    }));
}

#[test]
fn reports_validation_errors_in_order() {
    let catalog = catalog_with_simplediffpair();
    let mut circuit = Circuit::new("ota");

    circuit.add_instance(Instance::new("xdp", "simplediffpair"));
    circuit.add_instance(Instance::macro_instance("xm", "mirror"));
    circuit.add_instance(Instance::new("xdp", "simplediffpair"));
    circuit.connect(Connection::new(PinRef::new("xm", "A"), "N1"));

    assert_eq!(
        validate_circuit(&circuit, &catalog),
        vec![
            CircuitValidationError::UnknownMacro {
                instance: "xm".to_string(),
                macro_name: "mirror".to_string(),
            },
            CircuitValidationError::DuplicateInstance { id: "xdp".to_string() },
        ]
    );
}

#[test]
fn instance_kinds_name_their_blocks() {
    let primitive = Instance::primitive("xdp", "simplediffpair");
    let macro_instance = Instance::macro_instance("xcs", "current_source");
    let legacy = Instance {
        id: "xold".to_string(),
        block: BlockRef::LegacyPrimitive { primitive: "simplediffpair".to_string() },
    };

    assert_eq!(primitive.primitive_name(), Some("simplediffpair"));
    assert_eq!(primitive.macro_name(), None);
    assert_eq!(macro_instance.primitive_name(), None);
    assert_eq!(macro_instance.macro_name(), Some("current_source"));
    assert_eq!(legacy.primitive_name(), Some("simplediffpair"));
    assert_eq!(legacy.macro_name(), None);
    assert_eq!(
        macro_instance.block,
        BlockRef::Block { block: BlockKind::Macro { name: "current_source".to_string() } }
    );
}

#[test]
fn registers_and_lists_primitives() {
    let catalog = catalog_with_simplediffpair();

    assert!(catalog.contains("simplediffpair"));
    assert_eq!(
        catalog.get("simplediffpair").map(|primitive| primitive.subckt_name.as_str()),
        Some("simplediffpair")
    );
    assert_eq!(catalog.list().len(), 1);
}

#[test]
fn catalog_replaces_and_orders_primitives() {
    let mut catalog = catalog_with_simplediffpair();
    let mut other = catalog.get("simplediffpair").unwrap().clone();
    other.name = "amp".to_string();
    catalog.register(other);
    let mut replaced = catalog.get("simplediffpair").unwrap().clone();
    replaced.subckt_name = "diffpair_v2".to_string();
    catalog.register(replaced);

    let names: Vec<&str> = catalog.list().iter().map(|p| p.name.as_str()).collect();
    assert_eq!(names, vec!["amp", "simplediffpair"]);
    assert_eq!(catalog.get("simplediffpair").unwrap().subckt_name, "diffpair_v2");
    assert!(!catalog.contains("missing"));
}
