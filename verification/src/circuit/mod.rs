pub mod circuit;
pub mod connection;
pub mod instance;
pub mod validation;

pub use circuit::Circuit;
pub use connection::{Connection, PinRef};
pub use instance::{BlockKind, BlockRef, Instance};
pub use validation::{validate_circuit, CircuitValidationError};
