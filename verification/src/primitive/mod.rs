pub mod manifest;
pub mod small_signal;
