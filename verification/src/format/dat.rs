//! Gnuplot .dat file format.

use vstd::prelude::*;
use vstd::string::*;

use crate::bench::Results;
use crate::text::decimal;
use crate::text::decimal_string;

verus! {

/// The names of `results`, each followed by a blank.
pub open spec fn names_of(results: Seq<Results>) -> Seq<char>
    decreases results.len(),
{
    if results.len() == 0 {
        Seq::empty()
    } else {
        names_of(results.drop_last()) + results.last()@.name + seq![' ']
    }
}

/// What stands in the column of `result` in row `row`: the sample of that
/// index, or the placeholder `_` where the series has ended.
pub open spec fn cell_of(result: Results, row: int) -> Seq<char> {
    if 0 <= row < result@.samples.len() {
        decimal(result@.samples[row] as nat)
    } else {
        seq!['_']
    }
}

/// The cells of row `row`, one for each of `results`, each followed by a
/// blank.
pub open spec fn cells_of(results: Seq<Results>, row: int) -> Seq<char>
    decreases results.len(),
{
    if results.len() == 0 {
        Seq::empty()
    } else {
        cells_of(results.drop_last(), row) + cell_of(results.last(), row) + seq![' ']
    }
}

/// The first `rows` rows, each ended by a line break.
pub open spec fn rows_of(results: Seq<Results>, rows: nat) -> Seq<char>
    decreases rows,
{
    if rows == 0 {
        Seq::empty()
    } else {
        rows_of(results, (rows - 1) as nat) + cells_of(results, rows - 1) + seq!['\n']
    }
}

/// The number of samples in the longest series of `results`.
pub open spec fn longest_of(results: Seq<Results>) -> nat
    decreases results.len(),
{
    if results.len() == 0 {
        0
    } else if results.last()@.samples.len() > longest_of(results.drop_last()) {
        results.last()@.samples.len()
    } else {
        longest_of(results.drop_last())
    }
}

/// The table of `results`: a header line with the names, then one line for
/// each sample index up to the longest series.
pub open spec fn cols_of(results: Seq<Results>) -> Seq<char> {
    names_of(results) + seq!['\n'] + rows_of(results, longest_of(results))
}

/// DAT file format.
pub struct DatFormat {
    path: std::path::PathBuf,
}

impl DatFormat {
    /// The format that writes to the file at `path`.
    pub fn new(path: std::path::PathBuf) -> (format: Self)
        ensures
            format.spec_path() == path,
    {
        Self { path }
    }

    /// Where the table is to be written.
    pub closed spec fn spec_path(&self) -> std::path::PathBuf {
        self.path
    }

    /// Where the table is to be written.
    pub fn path(&self) -> (path: &std::path::PathBuf)
        ensures
            *path == self.spec_path(),
    {
        &self.path
    }

    /// The text of the file: the table of `results`.
    pub fn format(&self, results: &[Results]) -> (text: String)
        ensures
            text@ == cols_of(results@),
    {
        results_to_cols(results)
    }
}

/// The number of samples in the longest series of `results`.
fn longest(results: &[Results]) -> (rows: usize)
    ensures
        rows == longest_of(results@),
{
    let mut rows: usize = 0;
    let mut k: usize = 0;
    while k < results.len()
        invariant
            k <= results@.len(),
            rows == longest_of(results@.take(k as int)),
        decreases results@.len() - k,
    {
        assert(results@.take(k + 1).drop_last() == results@.take(k as int));
        let count = results[k].sample_count();
        if count > rows {
            rows = count;
        }
        k += 1;
    }
    assert(results@.take(k as int) == results@);
    rows
}

/// Convert results to a string with multiple columns.
pub fn results_to_cols(results: &[Results]) -> (output: String)
    ensures
        output@ == cols_of(results@),
{
    proof {
        reveal_strlit(" ");
        reveal_strlit("\n");
        reveal_strlit("_");
    }
    let mut output = String::new();

    // Write column headers.
    let mut k: usize = 0;
    while k < results.len()
        invariant
            k <= results@.len(),
            output@ == names_of(results@.take(k as int)),
            " "@ == seq![' '],
        decreases results@.len() - k,
    {
        assert(results@.take(k + 1).drop_last() == results@.take(k as int));
        output.append(results[k].name());
        output.append(" ");
        k += 1;
    }
    assert(results@.take(k as int) == results@);
    output.append("\n");

    // Write benchmark results.
    let max_samples = longest(results);
    let mut i: usize = 0;
    while i < max_samples
        invariant
            i <= max_samples,
            output@ == names_of(results@) + seq!['\n'] + rows_of(results@, i as nat),
            " "@ == seq![' '],
            "\n"@ == seq!['\n'],
            "_"@ == seq!['_'],
        decreases max_samples - i,
    {
        let ghost before = output@;
        let mut k: usize = 0;
        while k < results.len()
            invariant
                k <= results@.len(),
                output@ == before + cells_of(results@.take(k as int), i as int),
                " "@ == seq![' '],
                "_"@ == seq!['_'],
            decreases results@.len() - k,
        {
            assert(results@.take(k + 1).drop_last() == results@.take(k as int));
            // Convert sample to string, using `_` as placeholder value.
            let samples = results[k].samples();
            if i < samples.len() {
                let sample = decimal_string(samples[i]);
                output.append(sample.as_str());
            } else {
                output.append("_");
            }
            output.append(" ");
            k += 1;
        }
        assert(results@.take(k as int) == results@);
        output.append("\n");
        i += 1;
    }

    output
}

} // verus!
