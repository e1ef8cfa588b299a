//! A validating parser and pretty printer for a plain-text structured log
//! line format (`TIMESTAMP LEVEL MODULE: MESSAGE [| FIELD ...]`).

pub mod text;
pub mod timestamp;
pub mod names;
pub mod parser;
pub mod fields;
pub mod pretty;
pub mod lint;
pub mod laws;
