use std::path::PathBuf;

use vtebench::bench::Results;
use vtebench::format::dat::results_to_cols;
use vtebench::format::DatFormat;
use vtebench::format::StdoutFormat;

#[test]
fn format_results() {
    let results1 = Results::new("one".into(), 3, vec![1, 2, 3]);
    let results2 = Results::new("two".into(), 3, vec![3, 2]);

    let formatted = results_to_cols(&[results1, results2]);

    assert_eq!(formatted, "one two \n1 3 \n2 2 \n3 _ \n");
}

#[test]
fn format_no_results() {
    assert_eq!(results_to_cols(&[]), "\n");
}

#[test]
fn format_pads_every_shorter_series() {
    let a = Results::new("a".into(), 1, vec![10]);
    let b = Results::new("b".into(), 1, vec![]);
    let c = Results::new("c".into(), 1, vec![7, 1234567890, 0]);
    assert_eq!(results_to_cols(&[a, b, c]), "a b c \n10 0 7 \n_ _ 1234567890 \n_ _ 0 \n");
}

#[test]
fn dat_format_renders_the_table() {
    let format = DatFormat::new(PathBuf::from("out/results.dat"));
    assert_eq!(format.path(), &PathBuf::from("out/results.dat"));
    let results = [Results::new("x".into(), 1, vec![usize::MAX])];
    assert_eq!(format.format(&results), format!("x \n{} \n", usize::MAX));
}

#[test]
fn stdout_report_lays_out_an_entry() {
    let result = Results::new("dense_cells".into(), 1048576, vec![1, 2, 3, 4, 5, 6, 7, 8, 9, 10]);
    assert_eq!(StdoutFormat.heading(), "Results:\n");
    assert_eq!(
        StdoutFormat.entry(&result, "1", "5.5", "3.03"),
        "\n  dense_cells (10 samples @ 1 MiB):\n    5.5ms avg (90% < 9ms) +-3.03ms\n"
    );
}
