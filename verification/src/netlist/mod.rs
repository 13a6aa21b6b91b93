pub mod names;
pub mod render;
pub mod small_signal;

pub use names::{small_signal_element_name, small_signal_param_name};
pub use render::{render_circuit_netlist, NetlistRenderError};
pub use small_signal::{
    render_small_signal_netlist, render_spec_testbenches, render_testbench_small_signal_netlist,
    SmallSignalRenderError,
};
