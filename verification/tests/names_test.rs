use libsstadex::exploration::{compact_parameter_column_name, sanitize_hierarchy_event_name};
use libsstadex::exploration::hierarchy::is_sizing_column;
use libsstadex::netlist::{small_signal_element_name, small_signal_param_name};

#[test]
fn builds_small_signal_param_name() {
    assert_eq!(small_signal_param_name("gm", "xdp", "m1"), "gm__xdp__m1");
    assert_eq!(small_signal_param_name("ro", "xcm", "m2"), "ro__xcm__m2");
}

#[test]
fn builds_small_signal_element_name() {
    assert_eq!(small_signal_element_name("G", "gm", "xdp", "m1"), "G_gm__xdp__m1");
    assert_eq!(small_signal_element_name("R", "ro", "xdp", "m1"), "R_ro__xdp__m1");
}

#[test]
fn sanitizes_basic_separators() {
    assert_eq!(small_signal_param_name("g-m", "x-dp", "m-1"), "g_m__x_dp__m_1");
}

#[test]
fn trims_name_parts() {
    assert_eq!(small_signal_param_name(" gm ", "\txdp", "m1\n"), "gm__xdp__m1");
}

#[test]
fn sanitizes_hierarchy_event_names() {
    assert_eq!(sanitize_hierarchy_event_name("x cs.1-a"), "x_cs_1-a");
    assert_eq!(sanitize_hierarchy_event_name(""), "event");
    assert_eq!(sanitize_hierarchy_event_name("é"), "_");
}

#[test]
fn builds_compact_parameter_column_names() {
    assert_eq!(compact_parameter_column_name(" gm-eff ", "x-cs"), "gm_eff__x_cs");
}

#[test]
fn recognises_sizing_columns() {
    assert!(is_sizing_column("width_m1"));
    assert!(is_sizing_column("xcs.length__m2"));
    assert!(!is_sizing_column("width.gm"));
    assert!(!is_sizing_column("gm_width_m1"));
    assert!(!is_sizing_column("width"));
}
