use libsstadex::catalog::PrimitiveCatalog;
use libsstadex::circuit::{Circuit, Connection, Instance, PinRef};
use libsstadex::exploration::{DutRef, TestbenchElement, TestbenchSpec};
use libsstadex::macro_model::{
    render_macro_compact_small_signal_netlist, render_macro_netlist,
    render_macro_small_signal_netlist, render_macro_small_signal_netlist_with_mode,
    render_macro_subckt, render_macro_testbench_small_signal_netlist,
    render_macro_testbench_small_signal_netlist_with_mode, MacroCatalog, MacroModel, MacroPort,
    MacroPortRole, MacroRenderError, MacroSmallSignalElement, MacroSmallSignalMode,
    MacroSmallSignalModel, MacroValidationError,
};
use libsstadex::primitive::manifest::{Pin, PinRole, PrimitiveFiles, PrimitiveManifest};
use libsstadex::primitive::small_signal::{SmallSignalBranch, SmallSignalModel};

fn branch(name: &str, vd: &str, vg: &str, vs: &str) -> SmallSignalBranch {
    SmallSignalBranch {
        name: name.to_string(),
        vd: vd.to_string(),
        vg: vg.to_string(),
        vs: vs.to_string(),
    }
}

fn primitive(name: &str, pins: &[(&str, PinRole)], branches: Vec<SmallSignalBranch>) -> PrimitiveManifest {
    PrimitiveManifest {
        name: name.to_string(),
        version: "1.0".to_string(),
        description: None,
        subckt_name: name.to_string(),
        pins: pins
            .iter()
            .map(|(pin, role)| Pin { name: pin.to_string(), role: *role })
            .collect(),
        files: PrimitiveFiles { netlist: "netlist/netlist.spice".to_string(), build: None, symbol: None },
        small_signal: Some(SmallSignalModel { branches }),
        transistor_type: None,
    }
}

/// The primitives of the analog library that the macros below use.
fn primitive_catalog() -> PrimitiveCatalog {
    let mut catalog = PrimitiveCatalog::new();
    catalog.register(primitive(
        "simplecurrentsource",
        &[("VBIAS", PinRole::Bias), ("VOUT", PinRole::Output), ("VSS", PinRole::Supply)],
        vec![branch("m1", "VOUT", "VBIAS", "VSS")],
    ));
    catalog.register(primitive(
        "simplediffpair",
        &[
            ("VINP", PinRole::Input),
            ("VINN", PinRole::Input),
            ("VOUTP", PinRole::Output),
            ("VOUTN", PinRole::Output),
            ("VTAIL", PinRole::Bias),
        ],
        vec![branch("m1", "VOUTP", "VINP", "VTAIL"), branch("m2", "VOUTN", "VINN", "VTAIL")],
    ));
    catalog.register(primitive(
        "simplecurrentmirror",
        &[("VIN", PinRole::Input), ("VOUT", PinRole::Output), ("VDD", PinRole::Supply)],
        vec![branch("m1", "VOUT", "VIN", "VDD"), branch("m2", "VIN", "VIN", "VDD")],
    ));
    catalog
}

fn connect(circuit: &mut Circuit, instance: &str, pin: &str, net: &str) {
    circuit.connect(Connection::new(PinRef::new(instance, pin), net));
}

/// The current source macro, with its compact small-signal model.
fn current_source() -> MacroModel {
    let mut circuit = Circuit::new("current_source");
    circuit.add_instance(Instance::primitive("xcs", "simplecurrentsource"));
    connect(&mut circuit, "xcs", "VBIAS", "VBIAS");
    connect(&mut circuit, "xcs", "VOUT", "VOUT");
    connect(&mut circuit, "xcs", "VSS", "VSS");
    let mut model = MacroModel::new(
        "current_source",
        vec![
            MacroPort::new("VOUT", MacroPortRole::Output),
            MacroPort::new("VSS", MacroPortRole::Ground),
            MacroPort::new("VBIAS", MacroPortRole::Bias),
        ],
        circuit,
    );
    model.small_signal = Some(MacroSmallSignalModel {
        elements: vec![MacroSmallSignalElement {
            template: "I_isource__{instance} {VOUT} {VSS} isource__{instance}".to_string(),
        }],
    });
    model
}

/// The one-stage OTA: a differential pair, a current mirror and a nested
/// current source macro.
fn ota_1stage() -> MacroModel {
    let mut circuit = Circuit::new("ota_1stage");
    circuit.add_instance(Instance::primitive("xdp", "simplediffpair"));
    circuit.add_instance(Instance::primitive("xcm", "simplecurrentmirror"));
    circuit.add_instance(Instance::macro_instance("xcs_macro", "current_source"));
    connect(&mut circuit, "xdp", "VINP", "VINP");
    connect(&mut circuit, "xdp", "VINN", "VINN");
    connect(&mut circuit, "xdp", "VOUTP", "VOUT");
    connect(&mut circuit, "xdp", "VOUTN", "N1");
    connect(&mut circuit, "xdp", "VTAIL", "IBIAS");
    connect(&mut circuit, "xcm", "VIN", "N1");
    connect(&mut circuit, "xcm", "VOUT", "VOUT");
    connect(&mut circuit, "xcm", "VDD", "VDD");
    connect(&mut circuit, "xcs_macro", "VOUT", "IBIAS");
    connect(&mut circuit, "xcs_macro", "VSS", "VSS");
    connect(&mut circuit, "xcs_macro", "VBIAS", "VBIAS");
    MacroModel::new(
        "ota_1stage",
        vec![
            MacroPort::new("VINP", MacroPortRole::Input),
            MacroPort::new("VINN", MacroPortRole::Input),
            MacroPort::new("VOUT", MacroPortRole::Output),
            MacroPort::new("VDD", MacroPortRole::Supply),
            MacroPort::new("VSS", MacroPortRole::Ground),
            MacroPort::new("VBIAS", MacroPortRole::Bias),
        ],
        circuit,
    )
}

fn macro_catalog() -> MacroCatalog {
    let mut catalog = MacroCatalog::new();
    catalog.register(current_source());
    catalog.register(ota_1stage());
    catalog
}

fn parent_macro_with_child() -> MacroModel {
    let mut circuit = Circuit::new("parent_macro");
    circuit.add_instance(Instance::macro_instance("xchild", "current_source"));
    circuit.connect(Connection::new(PinRef::new("xchild", "VOUT"), "OUT"));
    circuit.connect(Connection::new(PinRef::new("xchild", "VSS"), "0"));
    circuit.connect(Connection::new(PinRef::new("xchild", "VBIAS"), "BIAS"));

    MacroModel::new(
        "parent_macro",
        vec![
            MacroPort::new("OUT", MacroPortRole::Output),
            MacroPort::new("0", MacroPortRole::Ground),
            MacroPort::new("BIAS", MacroPortRole::Bias),
        ],
        circuit,
    )
}

#[test]
fn renders_current_source_subckt() {
    let primitive_catalog = primitive_catalog();
    let macro_catalog = macro_catalog();
    let macro_model = current_source();

    let netlist = render_macro_subckt(&macro_model, &primitive_catalog, &macro_catalog).unwrap();

    assert!(netlist.contains(".subckt current_source VOUT VSS VBIAS"));
    assert!(netlist.contains("Xxcs VBIAS VOUT VSS simplecurrentsource"));
    assert!(netlist.contains(".ends current_source"));
}

#[test]
fn renders_subckt_text_exactly() {
    let netlist =
        render_macro_subckt(&current_source(), &primitive_catalog(), &macro_catalog()).unwrap();

    assert_eq!(
        netlist,
        ".subckt current_source VOUT VSS VBIAS\nXxcs VBIAS VOUT VSS simplecurrentsource\n.ends current_source\n"
    );
}

#[test]
fn renders_nested_macro_dependencies_before_parent() {
    let primitive_catalog = primitive_catalog();
    let child = current_source();
    let parent = parent_macro_with_child();
    let mut macro_catalog = MacroCatalog::new();
    macro_catalog.register(child);
    macro_catalog.register(parent.clone());
    assert!(macro_catalog.renders_finitely(&parent, false));

    let netlist = render_macro_netlist(&parent, &primitive_catalog, &macro_catalog).unwrap();
    let child_index = netlist.find(".subckt current_source").unwrap();
    let parent_index = netlist.find(".subckt parent_macro").unwrap();

    assert!(child_index < parent_index);
    assert!(netlist.contains("Xxchild OUT 0 BIAS current_source"));
}

#[test]
fn renders_each_dependency_once() {
    let primitive_catalog = primitive_catalog();
    let mut circuit = Circuit::new("twice");
    circuit.add_instance(Instance::macro_instance("xa", "current_source"));
    circuit.add_instance(Instance::macro_instance("xb", "current_source"));
    for instance in ["xa", "xb"] {
        connect(&mut circuit, instance, "VOUT", "OUT");
        connect(&mut circuit, instance, "VSS", "GND");
        connect(&mut circuit, instance, "VBIAS", "BIAS");
    }
    let twice = MacroModel::new(
        "twice",
        vec![
            MacroPort::new("OUT", MacroPortRole::Output),
            MacroPort::new("GND", MacroPortRole::Ground),
            MacroPort::new("BIAS", MacroPortRole::Bias),
        ],
        circuit,
    );
    let macro_catalog = macro_catalog();

    let netlist = render_macro_netlist(&twice, &primitive_catalog, &macro_catalog).unwrap();

    assert_eq!(
        netlist,
        ".subckt current_source VOUT VSS VBIAS\nXxcs VBIAS VOUT VSS simplecurrentsource\n.ends current_source\n\n\
         .subckt twice OUT GND BIAS\nXxa OUT GND BIAS current_source\nXxb OUT GND BIAS current_source\n.ends twice\n"
    );
}

#[test]
fn renders_ota_1stage_with_current_source_dependency() {
    let primitive_catalog = primitive_catalog();
    let macro_catalog = macro_catalog();
    let ota = macro_catalog.get("ota_1stage").expect("ota_1stage macro should load");

    let netlist = render_macro_netlist(ota, &primitive_catalog, &macro_catalog).unwrap();

    assert!(netlist.contains(".subckt current_source VOUT VSS VBIAS"));
    assert!(netlist.contains(".subckt ota_1stage VINP VINN VOUT VDD VSS VBIAS"));
    assert!(netlist.contains("Xxdp VINP VINN VOUT N1 IBIAS simplediffpair"));
    assert!(netlist.contains("Xxcm N1 VOUT VDD simplecurrentmirror"));
    assert!(netlist.contains("Xxcs_macro IBIAS VSS VBIAS current_source"));
}

#[test]
fn reports_invalid_macro_before_rendering() {
    let mut broken = current_source();
    broken.ports.push(MacroPort::new("FLOATING", MacroPortRole::Inout));

    let error = render_macro_subckt(&broken, &primitive_catalog(), &macro_catalog()).unwrap_err();

    assert_eq!(
        error,
        MacroRenderError::InvalidMacro(vec![MacroValidationError::MissingPublicPortNet {
            macro_name: "current_source".to_string(),
            port: "FLOATING".to_string(),
        }])
    );
}

#[test]
fn reports_missing_connected_pin() {
    let mut circuit = Circuit::new("half");
    circuit.add_instance(Instance::primitive("xcs", "simplecurrentsource"));
    connect(&mut circuit, "xcs", "VBIAS", "B");
    connect(&mut circuit, "xcs", "VOUT", "O");
    let half = MacroModel::new(
        "half",
        vec![MacroPort::new("B", MacroPortRole::Bias), MacroPort::new("O", MacroPortRole::Output)],
        circuit,
    );

    let error = render_macro_subckt(&half, &primitive_catalog(), &macro_catalog()).unwrap_err();

    assert_eq!(
        error,
        MacroRenderError::MissingConnectedPin {
            macro_name: "half".to_string(),
            instance: "xcs".to_string(),
            pin: "VSS".to_string(),
        }
    );
}

#[test]
fn renders_ota_1stage_small_signal_with_compact_nested_macro_by_default() {
    let primitive_catalog = primitive_catalog();
    let macro_catalog = macro_catalog();
    let ota = macro_catalog.get("ota_1stage").expect("ota_1stage macro should load");

    let netlist =
        render_macro_small_signal_netlist(ota, &primitive_catalog, &macro_catalog).unwrap();

    assert!(netlist.contains("* Small-signal macro: ota_1stage"));
    assert!(netlist.contains("R_ro__xdp__m1 VOUT IBIAS ro__xdp__m1"));
    assert!(netlist.contains("G_gm__xdp__m1 VOUT IBIAS VINP IBIAS gm__xdp__m1"));
    assert!(netlist.contains("R_ro__xcm__m1 VOUT VDD ro__xcm__m1"));
    assert!(netlist.contains("I_isource__xcs_macro IBIAS VSS isource__xcs_macro"));
    assert!(!netlist.contains("I_isource__xcs_macro__xcs__m1"));
}

#[test]
fn renders_current_source_compact_small_signal_model() {
    let primitive_catalog = primitive_catalog();
    let macro_catalog = macro_catalog();
    let current_source = macro_catalog.get("current_source").expect("current_source macro should load");

    let netlist =
        render_macro_compact_small_signal_netlist(current_source, &primitive_catalog, &macro_catalog)
            .unwrap();

    assert!(netlist.contains("* Compact small-signal macro: current_source"));
    assert!(netlist.contains("I_isource__current_source VOUT VSS isource__current_source"));
}

#[test]
fn renders_compact_model_text_exactly() {
    let netlist = render_macro_compact_small_signal_netlist(
        &current_source(),
        &primitive_catalog(),
        &macro_catalog(),
    )
    .unwrap();

    assert_eq!(
        netlist,
        "* Compact small-signal macro: current_source\nI_isource__current_source VOUT VSS isource__current_source\n"
    );
}

#[test]
fn fills_every_placeholder_of_a_template() {
    let mut model = current_source();
    model.small_signal = Some(MacroSmallSignalModel {
        elements: vec![MacroSmallSignalElement {
            template: "{VOUT}{VOUT} {instance}{instance} {VBIAS} {UNKNOWN} {{VSS}}".to_string(),
        }],
    });

    let netlist =
        render_macro_compact_small_signal_netlist(&model, &primitive_catalog(), &MacroCatalog::new())
            .unwrap();

    assert_eq!(
        netlist,
        "* Compact small-signal macro: current_source\nVOUTVOUT current_sourcecurrent_source VBIAS {UNKNOWN} {VSS}\n"
    );
}

#[test]
fn renders_top_level_small_signal_with_selected_mode() {
    let primitive_catalog = primitive_catalog();
    let macro_catalog = macro_catalog();
    let current_source = macro_catalog.get("current_source").expect("current_source macro should load");
    let ota = macro_catalog.get("ota_1stage").expect("ota_1stage macro should load");

    let compact_current_source = render_macro_small_signal_netlist_with_mode(
        current_source,
        &primitive_catalog,
        &macro_catalog,
        MacroSmallSignalMode::CompactWhenAvailable,
    )
    .unwrap();
    assert!(
        compact_current_source.contains("* Compact small-signal macro: current_source"),
        "{compact_current_source}"
    );
    assert!(compact_current_source.contains("I_isource__current_source VOUT VSS isource__current_source"));

    let expanded_ota = render_macro_small_signal_netlist_with_mode(
        ota,
        &primitive_catalog,
        &macro_catalog,
        MacroSmallSignalMode::CompactWhenAvailable,
    )
    .unwrap();
    assert!(expanded_ota.contains("* Small-signal macro: ota_1stage"));
    assert!(expanded_ota.contains("I_isource__xcs_macro IBIAS VSS isource__xcs_macro"));
    assert!(!expanded_ota.contains("I_isource__xcs_macro__xcs__m1"));

    let fully_expanded_ota = render_macro_small_signal_netlist_with_mode(
        ota,
        &primitive_catalog,
        &macro_catalog,
        MacroSmallSignalMode::Expand,
    )
    .unwrap();
    assert!(fully_expanded_ota.contains("R_ro__xcs_macro__xcs__m1 IBIAS VSS ro__xcs_macro__xcs__m1"));
    assert!(fully_expanded_ota
        .contains("G_gm__xcs_macro__xcs__m1 IBIAS VSS VBIAS VSS gm__xcs_macro__xcs__m1"));

    let compact_error = render_macro_small_signal_netlist_with_mode(
        ota,
        &primitive_catalog,
        &macro_catalog,
        MacroSmallSignalMode::Compact,
    )
    .unwrap_err();
    assert_eq!(
        compact_error,
        MacroRenderError::MissingCompactSmallSignalModel { macro_name: "ota_1stage".to_string() }
    );
}

#[test]
fn renders_expanded_small_signal_text_exactly() {
    let primitive_catalog = primitive_catalog();
    let macro_catalog = macro_catalog();

    let netlist = render_macro_small_signal_netlist_with_mode(
        &ota_1stage(),
        &primitive_catalog,
        &macro_catalog,
        MacroSmallSignalMode::Expand,
    )
    .unwrap();

    assert_eq!(
        netlist,
        "* Small-signal macro: ota_1stage\n\
         \n\
         * instance xdp (simplediffpair)\n\
         R_ro__xdp__m1 VOUT IBIAS ro__xdp__m1\n\
         G_gm__xdp__m1 VOUT IBIAS VINP IBIAS gm__xdp__m1\n\
         R_ro__xdp__m2 N1 IBIAS ro__xdp__m2\n\
         G_gm__xdp__m2 N1 IBIAS VINN IBIAS gm__xdp__m2\n\
         \n\
         * instance xcm (simplecurrentmirror)\n\
         R_ro__xcm__m1 VOUT VDD ro__xcm__m1\n\
         G_gm__xcm__m1 VOUT VDD N1 VDD gm__xcm__m1\n\
         R_ro__xcm__m2 N1 VDD ro__xcm__m2\n\
         G_gm__xcm__m2 N1 VDD N1 VDD gm__xcm__m2\n\
         \n\
         * nested macro instance xcs_macro\n\
         \n\
         * instance xcs_macro__xcs (simplecurrentsource)\n\
         R_ro__xcs_macro__xcs__m1 IBIAS VSS ro__xcs_macro__xcs__m1\n\
         G_gm__xcs_macro__xcs__m1 IBIAS VSS VBIAS VSS gm__xcs_macro__xcs__m1\n"
    );
}

#[test]
fn reports_missing_small_signal_model_of_a_primitive() {
    let mut primitive_catalog = primitive_catalog();
    let mut bare = primitive(
        "simplecurrentsource",
        &[("VBIAS", PinRole::Bias), ("VOUT", PinRole::Output), ("VSS", PinRole::Supply)],
        Vec::new(),
    );
    bare.small_signal = None;
    primitive_catalog.register(bare);
    let mut macro_model = current_source();
    macro_model.small_signal = None;

    let error =
        render_macro_small_signal_netlist(&macro_model, &primitive_catalog, &MacroCatalog::new())
            .unwrap_err();

    assert_eq!(
        error,
        MacroRenderError::MissingSmallSignalModel { primitive: "simplecurrentsource".to_string() }
    );
}

#[test]
fn renders_macro_testbench_small_signal_netlist() {
    let primitive_catalog = primitive_catalog();
    let macro_catalog = macro_catalog();
    let testbench = TestbenchSpec::new("ota_gain")
        .with_macro_dut("ota_1stage")
        .with_element(TestbenchElement::VoltageSource {
            name: "Vdd".to_string(),
            nplus: "VDD".to_string(),
            nminus: "VSS".to_string(),
            value: "0".to_string(),
        })
        .with_element(TestbenchElement::VoltageSource {
            name: "Vin".to_string(),
            nplus: "VINP".to_string(),
            nminus: "VSS".to_string(),
            value: "1".to_string(),
        });

    let netlist =
        render_macro_testbench_small_signal_netlist(&testbench, &primitive_catalog, &macro_catalog)
            .unwrap();

    assert!(netlist.contains("I_isource__xcs_macro IBIAS VSS isource__xcs_macro"));
    assert!(!netlist.contains("G_gm__xcs_macro__xcs__m1"));
    assert!(netlist.contains("* testbench ota_gain"));
    assert!(netlist.contains("Vdd VDD VSS 0"));
    assert!(netlist.contains("Vin VINP VSS 1"));

    let expanded_netlist = render_macro_testbench_small_signal_netlist_with_mode(
        &testbench,
        &primitive_catalog,
        &macro_catalog,
        MacroSmallSignalMode::Expand,
    )
    .unwrap();
    assert!(expanded_netlist
        .contains("G_gm__xcs_macro__xcs__m1 IBIAS VSS VBIAS VSS gm__xcs_macro__xcs__m1"));

    let current_source_testbench = TestbenchSpec::new("current_source_gain")
        .with_macro_dut("current_source")
        .with_element(TestbenchElement::VoltageSource {
            name: "Vbias".to_string(),
            nplus: "VBIAS".to_string(),
            nminus: "VSS".to_string(),
            value: "1".to_string(),
        });
    let current_source_netlist = render_macro_testbench_small_signal_netlist(
        &current_source_testbench,
        &primitive_catalog,
        &macro_catalog,
    )
    .unwrap();

    assert!(current_source_netlist.contains("* Small-signal macro: current_source"));
    assert!(
        current_source_netlist.contains("R_ro__xcs__m1 VOUT VSS ro__xcs__m1"),
        "{current_source_netlist}"
    );
    assert!(
        current_source_netlist.contains("G_gm__xcs__m1 VOUT VSS VBIAS VSS gm__xcs__m1"),
        "{current_source_netlist}"
    );
    assert!(!current_source_netlist.contains("I_isource__current_source"));

    let compact_current_source_netlist = render_macro_testbench_small_signal_netlist_with_mode(
        &current_source_testbench,
        &primitive_catalog,
        &macro_catalog,
        MacroSmallSignalMode::Compact,
    )
    .unwrap();
    assert!(compact_current_source_netlist
        .contains("I_isource__current_source VOUT VSS isource__current_source"));
    assert!(!compact_current_source_netlist.contains("G_gm__xcs__m1"));
}

#[test]
fn renders_testbench_after_macro_text_exactly() {
    let testbench = TestbenchSpec::new("bias")
        .with_macro_dut("current_source")
        .with_element(TestbenchElement::Resistor {
            name: "Rl".to_string(),
            n1: "VOUT".to_string(),
            n2: "VSS".to_string(),
            value: "1k".to_string(),
        });

    let netlist = render_macro_testbench_small_signal_netlist_with_mode(
        &testbench,
        &primitive_catalog(),
        &macro_catalog(),
        MacroSmallSignalMode::Compact,
    )
    .unwrap();

    assert_eq!(
        netlist,
        "* Compact small-signal macro: current_source\nI_isource__current_source VOUT VSS isource__current_source\n\n* testbench bias\nRl VOUT VSS 1k\n"
    );
}

#[test]
fn reports_missing_testbench_dut_for_macro_testbench_render() {
    let primitive_catalog = primitive_catalog();
    let macro_catalog = macro_catalog();
    let testbench = TestbenchSpec::new("legacy_gain");

    let error =
        render_macro_testbench_small_signal_netlist(&testbench, &primitive_catalog, &macro_catalog)
            .unwrap_err();

    assert_eq!(
        error,
        MacroRenderError::MissingTestbenchDut { testbench: "legacy_gain".to_string() }
    );
}

#[test]
fn reports_circuit_dut_and_unknown_macro_dut() {
    let mut testbench = TestbenchSpec::new("tb");
    testbench.dut = Some(DutRef::Circuit("amp".to_string()));
    let error =
        render_macro_testbench_small_signal_netlist(&testbench, &primitive_catalog(), &macro_catalog())
            .unwrap_err();
    assert_eq!(
        error,
        MacroRenderError::UnsupportedCircuitDut { testbench: "tb".to_string(), circuit: "amp".to_string() }
    );

    let testbench = TestbenchSpec::new("tb").with_macro_dut("nothere");
    let error =
        render_macro_testbench_small_signal_netlist(&testbench, &primitive_catalog(), &macro_catalog())
            .unwrap_err();
    assert_eq!(error, MacroRenderError::MissingMacro { macro_name: "nothere".to_string() });
}

fn macro_with_macro_instance(name: &str, instance: &str, referenced_macro: &str) -> MacroModel {
    let mut circuit = Circuit::new(name);
    circuit.add_instance(Instance::macro_instance(instance, referenced_macro));
    circuit.connect(Connection::new(PinRef::new(instance, "P"), "P"));
    MacroModel::new(name, vec![MacroPort::new("P", MacroPortRole::Inout)], circuit)
}

#[test]
fn tells_whether_rendering_ends() {
    let mut catalog = MacroCatalog::new();
    catalog.register(macro_with_macro_instance("a", "xb", "b"));
    catalog.register(macro_with_macro_instance("b", "xc", "c"));
    catalog.register(macro_with_macro_instance("c", "xa", "a"));
    let mut leaf_circuit = Circuit::new("leaf");
    leaf_circuit.connect(Connection::new(PinRef::new("x", "P"), "P"));
    catalog.register(MacroModel::new("leaf", vec![MacroPort::new("P", MacroPortRole::Inout)], leaf_circuit));
    let top = macro_with_macro_instance("top", "xl", "leaf");
    let looping = macro_with_macro_instance("looping", "xa", "a");

    assert!(catalog.renders_finitely(&top, false));
    assert!(!catalog.renders_finitely(&looping, false));
    assert!(macro_catalog().renders_finitely(&ota_1stage(), false));

    let mut with_model = macro_with_macro_instance("c", "xa", "a");
    with_model.small_signal = Some(MacroSmallSignalModel { elements: Vec::new() });
    catalog.register(with_model);
    assert!(!catalog.renders_finitely(&looping, false));
    assert!(catalog.renders_finitely(&looping, true));
}

#[test]
fn reports_missing_primitive_of_an_expanded_nested_macro() {
    let mut circuit = Circuit::new("ghost_source");
    circuit.add_instance(Instance::primitive("xg", "nosuchprimitive"));
    connect(&mut circuit, "xg", "A", "P");
    let ghost_source =
        MacroModel::new("ghost_source", vec![MacroPort::new("P", MacroPortRole::Inout)], circuit);
    let top = {
        let mut circuit = Circuit::new("top");
        circuit.add_instance(Instance::macro_instance("xs", "ghost_source"));
        connect(&mut circuit, "xs", "P", "N");
        MacroModel::new("top", vec![MacroPort::new("N", MacroPortRole::Inout)], circuit)
    };
    let mut macro_catalog = MacroCatalog::new();
    macro_catalog.register(ghost_source);

    let error = render_macro_small_signal_netlist_with_mode(
        &top,
        &primitive_catalog(),
        &macro_catalog,
        MacroSmallSignalMode::Expand,
    )
    .unwrap_err();
    assert_eq!(error, MacroRenderError::MissingPrimitive { primitive: "nosuchprimitive".to_string() });

    let error = render_macro_netlist(&top, &primitive_catalog(), &macro_catalog).unwrap_err();
    assert!(matches!(error, MacroRenderError::InvalidMacro(_)));
}

#[test]
fn reports_missing_macro_below_a_dependency() {
    let middle = {
        let mut circuit = Circuit::new("middle");
        circuit.add_instance(Instance::macro_instance("xl", "lost"));
        connect(&mut circuit, "xl", "P", "P");
        MacroModel::new("middle", vec![MacroPort::new("P", MacroPortRole::Inout)], circuit)
    };
    let top = {
        let mut circuit = Circuit::new("top");
        circuit.add_instance(Instance::macro_instance("xm", "middle"));
        connect(&mut circuit, "xm", "P", "N");
        MacroModel::new("top", vec![MacroPort::new("N", MacroPortRole::Inout)], circuit)
    };
    let mut macro_catalog = MacroCatalog::new();
    macro_catalog.register(middle);

    let error = render_macro_netlist(&top, &primitive_catalog(), &macro_catalog).unwrap_err();

    assert_eq!(error, MacroRenderError::MissingMacro { macro_name: "lost".to_string() });
}
