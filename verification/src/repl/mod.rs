//! Commands of the interactive prompt.
pub mod parser;
