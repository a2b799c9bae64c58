//! Structural code search over syntax trees.
//!
//! Given a target language and a declarative pattern over that language's
//! syntax, the library matches the pattern against parsed source files and
//! produces deterministic output in one of three shapes: structured JSON
//! records, raw matched text, or a list of files containing a match.
//!
//! The parsing and pattern-matching engine itself is an external capability;
//! this crate verifies the logic around it: capture filtering, record
//! construction, result aggregation with claim-based deduplication, the
//! deterministic final ordering, and the output formatting.

pub mod aggregate;
pub mod config;
pub mod engine;
pub mod json;
pub mod language;
pub mod records;
pub mod sorting;
pub mod text;

pub use language::Language;
