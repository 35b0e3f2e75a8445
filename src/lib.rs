//! Parsing of unified-diff text into file deltas and hunks that keep
//! enough verbatim text to render the input back exactly.

pub mod text;
pub mod diff;
pub mod grammar;
pub mod parser;
pub mod laws;
