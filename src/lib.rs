//! Finds the subclasses and parent classes of a Python class across a source tree.
//!
//! The library indexes class definitions and normalized imports, resolves base-class
//! references through imports and package re-exports, builds the inheritance graph
//! and answers direct and transitive queries over it.

pub mod cache;
pub mod error;
pub mod finder;
pub mod graph;
pub mod index;
pub mod names;
pub mod parser;
pub mod registry;
pub mod render;
pub mod utils;

pub use error::Error;
pub use finder::{ClassReference, SearchMode, SubclassFinder};
pub use graph::InheritanceGraph;
pub use registry::{ClassId, Registry};
