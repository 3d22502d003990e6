//! Structural diff and patch: compute a keyed description of how one value
//! differs from another, and apply such a description to a value.

pub mod codec;
pub mod error;
pub mod patchwork;
pub mod patch;
pub mod path;
pub mod validator;

pub use error::StrainError;
pub use patchwork::{Decode, Historic, Patchwork};
pub use patch::Patch;
pub use path::Path;
pub use validator::{Validator, ValueKind};
