pub mod catalog;
pub mod cycles;
pub mod model;
pub mod render;
pub mod small_signal;
pub mod validation;

pub use catalog::MacroCatalog;
pub use model::{
    MacroMetadata, MacroModel, MacroPort, MacroPortRole, MacroSmallSignalElement,
    MacroSmallSignalModel,
};
pub use render::{render_macro_netlist, render_macro_subckt, MacroRenderError, MacroSmallSignalMode};
pub use small_signal::{
    render_macro_compact_small_signal_netlist, render_macro_small_signal_netlist,
    render_macro_small_signal_netlist_with_mode, render_macro_testbench_small_signal_netlist,
    render_macro_testbench_small_signal_netlist_with_mode,
};
pub use validation::{validate_macro_catalog, validate_macro_model, MacroValidationError};
