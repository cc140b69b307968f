//! Benchmark output formats.
//!
//! The formats here produce text. Where the text goes, a file or the
//! console, is the business of the program that asked for it.

pub mod dat;
pub mod stdout;

pub use crate::format::dat::DatFormat;
pub use crate::format::stdout::StdoutFormat;
