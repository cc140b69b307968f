//! Output benchmark results to stdout.

use vstd::prelude::*;
use vstd::string::*;

use crate::bench::percentile_of;
use crate::bench::Results;
use crate::bench::ResultsView;
use crate::text::decimal;
use crate::text::decimal_string;

verus! {

/// The line that opens the report.
pub open spec fn heading_text() -> Seq<char> {
    "Results:\n"@
}

/// The part of the report on one benchmark: an empty line, a line with the
/// name, the number of samples and the size of a pass, and a line with the
/// mean, the 90th percentile and the standard deviation in milliseconds.
///
/// `size_mib`, `mean` and `stddev` are rendered numbers, taken as they are.
pub open spec fn entry_text(
    result: ResultsView,
    size_mib: Seq<char>,
    mean: Seq<char>,
    stddev: Seq<char>,
) -> Seq<char> {
    "\n  "@ + result.name + " ("@ + decimal(result.samples.len()) + " samples @ "@ + size_mib
        + " MiB):\n    "@ + mean + "ms avg (90% < "@ + decimal(
        percentile_of(result.samples, 90) as nat,
    ) + "ms) +-"@ + stddev + "ms\n"@
}

/// Text stdout format.
pub struct StdoutFormat;

impl StdoutFormat {
    /// The line that opens the report.
    pub fn heading(&self) -> (text: &'static str)
        ensures
            text@ == heading_text(),
    {
        "Results:\n"
    }

    /// The part of the report on `result`. The size of a pass in MiB, the
    /// mean and the standard deviation are not whole numbers; they come
    /// rendered from the caller.
    pub fn entry(&self, result: &Results, size_mib: &str, mean: &str, stddev: &str) -> (text: String)
        ensures
            text@ == entry_text(result@, size_mib@, mean@, stddev@),
    {
        let sample_count = decimal_string(result.sample_count());
        let percentile = decimal_string(result.percentile(90));
        let mut text = String::from_str("\n  ");
        text.append(result.name());
        text.append(" (");
        text.append(sample_count.as_str());
        text.append(" samples @ ");
        text.append(size_mib);
        text.append(" MiB):\n    ");
        text.append(mean);
        text.append("ms avg (90% < ");
        text.append(percentile.as_str());
        text.append("ms) +-");
        text.append(stddev);
        text.append("ms\n");
        text
    }
}

} // verus!
