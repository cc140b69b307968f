//! Terminal emulator throughput benchmarking: workload assembly, the pass
//! schedule of a benchmark run, and descriptive statistics over the
//! measured durations.
//!
//! Everything here computes on plain values. Reading producers, walking
//! directories, clocks and the output sink belong to the program that
//! drives this library.

pub mod bench;
pub mod cli;
pub mod context;
pub mod discover;
pub mod format;
pub mod pattern;
pub mod result;
pub mod run;
pub mod template;
pub mod text;
