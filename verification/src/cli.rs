//! What a run is configured with.

use vstd::prelude::*;

verus! {

/// The settings of a run.
pub struct Config {
    /// Do not print results to stdout.
    pub silent: bool,
    /// Benchmark source directories.
    pub benchmarks: Vec<std::path::PathBuf>,
    /// Number of warmup iterations.
    pub warmup: usize,
    /// Minimum number of bytes per benchmark sample.
    pub min_bytes: usize,
    /// Maximum number of samples per benchmark.
    pub max_samples: Option<usize>,
    /// Maximum number of seconds per benchmark.
    pub max_secs: u64,
    /// Output results to a Gnuplot compatible DAT file.
    pub dat: Option<std::path::PathBuf>,
}

} // verus!
