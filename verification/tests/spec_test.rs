use libsstadex::exploration::{CircuitView, SpecParameter, TestbenchElement, TestbenchSpec};

#[test]
fn creates_testbench_with_elements() {
    let testbench = TestbenchSpec::new("pm")
        .with_element(TestbenchElement::CurrentSource {
            name: "Ibias".to_string(),
            nplus: "VDD".to_string(),
            nminus: "IBIAS".to_string(),
            value: "10u".to_string(),
        })
        .with_element(TestbenchElement::Capacitor {
            name: "Cload".to_string(),
            n1: "VOUT".to_string(),
            n2: "0".to_string(),
            value: "1p".to_string(),
        });

    assert_eq!(testbench.name, "pm");
    assert_eq!(testbench.view, CircuitView::SmallSignal);
    assert_eq!(testbench.elements.len(), 2);
    assert_eq!(testbench.extra_body, None);
}

#[test]
fn renders_testbench_elements_to_spice() {
    assert_eq!(
        TestbenchElement::VoltageSource {
            name: "Vin".to_string(),
            nplus: "VIN".to_string(),
            nminus: "0".to_string(),
            value: "ac 1".to_string(),
        }
        .to_spice(),
        "Vin VIN 0 ac 1"
    );
    assert_eq!(
        TestbenchElement::CurrentSource {
            name: "Ibias".to_string(),
            nplus: "VDD".to_string(),
            nminus: "IBIAS".to_string(),
            value: "10u".to_string(),
        }
        .to_spice(),
        "Ibias VDD IBIAS 10u"
    );
    assert_eq!(
        TestbenchElement::Resistor {
            name: "Rload".to_string(),
            n1: "VOUT".to_string(),
            n2: "0".to_string(),
            value: "1k".to_string(),
        }
        .to_spice(),
        "Rload VOUT 0 1k"
    );
    assert_eq!(
        TestbenchElement::Capacitor {
            name: "Cload".to_string(),
            n1: "VOUT".to_string(),
            n2: "0".to_string(),
            value: "1p".to_string(),
        }
        .to_spice(),
        "Cload VOUT 0 1p"
    );
}

#[test]
fn renders_testbench_body_lines() {
    let testbench = TestbenchSpec::new("gain")
        .with_element(TestbenchElement::VoltageSource {
            name: "Vin".to_string(),
            nplus: "VIN".to_string(),
            nminus: "0".to_string(),
            value: "ac 1".to_string(),
        })
        .with_element(TestbenchElement::Resistor {
            name: "Rload".to_string(),
            n1: "VOUT".to_string(),
            n2: "0".to_string(),
            value: "1k".to_string(),
        });

    assert_eq!(
        testbench.body_lines(),
        vec!["Vin VIN 0 ac 1".to_string(), "Rload VOUT 0 1k".to_string()]
    );
    assert_eq!(testbench.body_text(), "Vin VIN 0 ac 1\nRload VOUT 0 1k");
}

#[test]
fn renders_testbench_body_with_extra_body() {
    let testbench = TestbenchSpec::new("gain")
        .with_element(TestbenchElement::VoltageSource {
            name: "Vin".to_string(),
            nplus: "VIN".to_string(),
            nminus: "0".to_string(),
            value: "ac 1".to_string(),
        })
        .with_extra_body("\n.ac dec 10 1 1e9\n");

    assert_eq!(testbench.body_text(), "Vin VIN 0 ac 1\n.ac dec 10 1 1e9");
}

#[test]
fn blank_extra_body_adds_no_line() {
    let testbench = TestbenchSpec::new("gain").with_extra_body("  \n ");

    assert_eq!(testbench.body_text(), "");
    assert_eq!(testbench.extra_body, Some("  \n ".to_string()));
}

#[test]
fn creates_spec_parameter() {
    let parameter = SpecParameter::new("gm", "2*id/vov");

    assert_eq!(parameter.name, "gm");
    assert_eq!(parameter.value, "2*id/vov");
}
