//! Helpers on sequences, strings and paths.
pub mod path;
pub mod position;
pub mod string;
