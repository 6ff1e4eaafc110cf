//! Sol: reading, checking and counting solkattu compositions.
pub mod ast;
pub mod calc;
pub mod parse;
pub mod math;
pub mod parser;
pub mod text;
pub mod tokenize;
pub mod repl;
pub mod shape;
pub mod sys;
