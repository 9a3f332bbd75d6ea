//! The library's error type.
use vstd::prelude::*;

verus! {

/// Why an operation failed.
#[derive(Debug)]
pub enum KreuzbergError {
    /// The input could not be parsed.
    Parsing(String),
    /// The input or a setting is invalid.
    Validation(String),
    /// A required component (a model, a runtime library) is not available.
    MissingDependency(String),
    /// A file could not be read or written.
    Io(String),
}

} // verus!
