//! The errors of a query.

use vstd::prelude::*;

verus! {

/// What can go wrong when finding subclasses.
#[derive(Debug, Clone, PartialEq, Eq)]
pub enum Error {
    /// The class name is defined in more than one module.
    AmbiguousClassName { name: String, candidates: Vec<String> },
    /// No class of that name was found (in the given module, if one was given).
    ClassNotFound { name: String, module_name: Option<String> },
    /// Reading the source tree failed.
    IoError { message: String },
    /// A file could not be parsed.
    ParseError { file: String, error: String },
}

} // verus!
