//! What can go wrong.

use vstd::prelude::*;

verus! {

/// Why an operation was refused.
#[derive(Debug, Clone, Copy, PartialEq, Eq)]
pub enum Error {
    /// The request lies outside the surface, or a size does not fit the machine.
    OutOfBounds,
    /// A buffer is shorter than the surface it should hold.
    TruncatedData,
    /// The format is not one that the operation handles.
    UnsupportedFormat,
    /// A field holds a value that the operation does not admit.
    InvalidField(&'static str),
}

} // verus!
