//! The library's error type.
use vstd::prelude::*;

verus! {

/// The ways an operation of the library can fail.
#[derive(Debug)]
pub enum AppError {
    /// The entity asked for does not exist.
    NotFound(String),
    /// The input data is malformed, or breaks a uniqueness rule of the store.
    InvalidFormat(String),
    /// Filesystem access failed.
    Io(String),
    /// A failure not attributable to the input.
    Internal(String),
}

impl AppError {
    /// Whether this is an `InvalidFormat` error.
    pub open spec fn is_invalid_format(&self) -> bool {
        self is InvalidFormat
    }
}

} // verus!
