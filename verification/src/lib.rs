//! Flattening of hierarchical configuration trees into `NAME=VALUE` lines for
//! consumption as environment variables.
//!
//! Nested object keys and array indices are upper-cased and joined with a
//! double underscore; every leaf below the root contributes one line.

pub mod flatten;
pub mod json;
pub mod laws;
pub mod name;
pub mod output;
pub mod value;
