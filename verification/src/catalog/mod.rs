pub mod primitive_catalog;
pub mod primitive_loader;

pub use primitive_catalog::PrimitiveCatalog;
pub use primitive_loader::{PrimitiveLoadError, RawPort, RawPrimitiveFiles, RawPrimitiveManifest};
