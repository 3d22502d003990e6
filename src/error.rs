//! The errors that building or applying a patch can return.

use vstd::prelude::*;

verus! {

/// Why an operation on a patch failed.
#[derive(Debug, Clone, Copy, PartialEq, Eq, Structural)]
pub enum StrainError {
    /// A value could not be converted between its native form and its encoding.
    ConversionError,
    /// The patch's validator rejected a path and value.
    ValidationError,
    /// A path does not name any part of the value it is applied to.
    UnknownPathError,
    /// A stored value did not decode into the type of its target.
    DecodeError,
}

} // verus!
