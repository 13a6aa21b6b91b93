pub mod expr;
pub mod mna;
pub mod netlist_spec;
pub mod pretty;
pub mod spice_parser;
pub mod symmna;
