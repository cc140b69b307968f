use std::path::PathBuf;

use vtebench::bench::find_benchmarks;
use vtebench::bench::Benchmark;
use vtebench::bench::BenchmarkLoader;
use vtebench::bench::Error;
use vtebench::discover::name_before;
use vtebench::discover::FoundFile;
use vtebench::run::SinkOp;

fn found(directory: &str, file_name: &str, path: &str) -> FoundFile {
    FoundFile {
        file_name: file_name.to_string(),
        directory: Some(directory.to_string()),
        path: PathBuf::from(path),
    }
}

#[test]
fn short_body_is_repeated_in_full() {
    let bench = Benchmark::new("b".into(), None, Some(b"abc".to_vec()), 7).unwrap();
    assert_eq!(bench.body(), b"abcabcabc");
    assert_eq!(bench.setup(), b"");
    assert_eq!(bench.name(), "b");
}

#[test]
fn body_at_the_floor_is_kept_once() {
    let bench = Benchmark::new("b".into(), Some(b"s".to_vec()), Some(b"abcd".to_vec()), 4).unwrap();
    assert_eq!(bench.body(), b"abcd");
    assert_eq!(bench.setup(), b"s");
    let bench = Benchmark::new("b".into(), None, Some(b"abcd".to_vec()), 5).unwrap();
    assert_eq!(bench.body(), b"abcdabcd");
    let bench = Benchmark::new("b".into(), None, Some(b"abcd".to_vec()), 1).unwrap();
    assert_eq!(bench.body(), b"abcd");
}

#[test]
fn replicated_length_is_the_least_multiple() {
    for len in 1usize..=7 {
        for floor in 1usize..=40 {
            let body = vec![b'x'; len];
            let bench = Benchmark::new("m".into(), None, Some(body), floor).unwrap();
            let got = bench.body().len();
            assert_eq!(got % len, 0);
            assert!(got >= floor);
            assert!(got - len < floor);
            assert_eq!(got / len, (floor + len - 1) / len);
        }
    }
}

#[test]
fn empty_body_is_rejected_whatever_the_setup() {
    assert!(matches!(Benchmark::new("e".into(), None, Some(Vec::new()), 10), Err(Error::Empty)));
    assert!(matches!(
        Benchmark::new("e".into(), Some(b"setup output".to_vec()), Some(Vec::new()), 10),
        Err(Error::Empty)
    ));
    assert!(matches!(Benchmark::new("e".into(), Some(b"x".to_vec()), None, 10), Err(Error::Empty)));
}

#[test]
fn zero_floor_is_rejected() {
    assert!(matches!(Benchmark::new("z".into(), None, Some(b"abc".to_vec()), 0), Err(Error::Empty)));
}

#[test]
fn empty_error_describes_itself() {
    assert_eq!(Error::Empty.description(), "empty benchmark");
}

#[test]
fn loader_hands_its_parts_out() {
    let loader = BenchmarkLoader::new(
        "dir".into(),
        Some(PathBuf::from("dir/setup")),
        PathBuf::from("dir/benchmark"),
    );
    assert_eq!(loader.name(), "dir");
    assert_eq!(loader.setup_path(), Some(&PathBuf::from("dir/setup")));
    assert_eq!(loader.bench_path(), &PathBuf::from("dir/benchmark"));
    let bench = loader.load(Some(b"S".to_vec()), Some(b"xy".to_vec()), 3).unwrap();
    assert_eq!(bench.name(), "dir");
    assert_eq!(bench.setup(), b"S");
    assert_eq!(bench.body(), b"xyxy");
}

#[test]
fn loader_without_setup_ignores_setup_output() {
    let loader = BenchmarkLoader::new("dir".into(), None, PathBuf::from("dir/benchmark"));
    assert_eq!(loader.setup_path(), None);
    let bench = loader.load(Some(b"stray".to_vec()), Some(b"xy".to_vec()), 1).unwrap();
    assert_eq!(bench.setup(), b"");
    assert_eq!(bench.body(), b"xy");
}

#[test]
fn loader_rejects_a_failed_body_producer() {
    let loader = BenchmarkLoader::new("dir".into(), None, PathBuf::from("dir/benchmark"));
    assert!(matches!(loader.load(None, None, 1), Err(Error::Empty)));
    let loader = BenchmarkLoader::new("dir".into(), None, PathBuf::from("dir/benchmark"));
    assert!(matches!(loader.load(None, Some(b"x".to_vec()), 0), Err(Error::Empty)));
}

#[test]
fn payloads_of_a_pass() {
    let bench = Benchmark::new("p".into(), Some(b"SET".to_vec()), Some(b"body".to_vec()), 1).unwrap();
    assert_eq!(bench.payload(SinkOp::Reset), Some(&b"\x1bc"[..]));
    assert_eq!(bench.payload(SinkOp::Setup), Some(&b"SET"[..]));
    assert_eq!(bench.payload(SinkOp::Body), Some(&b"body"[..]));
    assert_eq!(bench.payload(SinkOp::Flush), None);
    assert_eq!(bench.payload(SinkOp::StartClock), None);
    assert_eq!(bench.payload(SinkOp::StopClock), None);
}

#[test]
fn benchmarks_come_out_sorted_by_name() {
    let loaders = find_benchmarks(vec![
        found("zeta", "benchmark", "/b/zeta/benchmark"),
        found("alpha", "setup", "/b/alpha/setup"),
        found("mid", "benchmark", "/b/mid/benchmark"),
        found("alpha", "benchmark", "/b/alpha/benchmark"),
    ]);
    let names: Vec<&str> = loaders.iter().map(|l| l.name()).collect();
    assert_eq!(names, vec!["alpha", "mid", "zeta"]);
    assert_eq!(loaders[0].setup_path(), Some(&PathBuf::from("/b/alpha/setup")));
    assert_eq!(loaders[0].bench_path(), &PathBuf::from("/b/alpha/benchmark"));
    assert_eq!(loaders[1].setup_path(), None);
    assert_eq!(loaders[2].bench_path(), &PathBuf::from("/b/zeta/benchmark"));
}

#[test]
fn setup_alone_makes_no_benchmark() {
    let loaders = find_benchmarks(vec![
        found("only_setup", "setup", "/b/only_setup/setup"),
        found("full", "benchmark", "/b/full/benchmark"),
    ]);
    assert_eq!(loaders.len(), 1);
    assert_eq!(loaders[0].name(), "full");
}

#[test]
fn other_files_and_rootless_files_are_passed_over() {
    let loaders = find_benchmarks(vec![
        found("a", "README", "/b/a/README"),
        found("a", "benchmark.sh", "/b/a/benchmark.sh"),
        FoundFile { file_name: "benchmark".into(), directory: None, path: PathBuf::from("benchmark") },
    ]);
    assert!(loaders.is_empty());
    assert!(find_benchmarks(Vec::new()).is_empty());
}

#[test]
fn the_file_met_last_wins() {
    let loaders = find_benchmarks(vec![
        found("same", "benchmark", "/first/same/benchmark"),
        found("same", "setup", "/first/same/setup"),
        found("same", "benchmark", "/second/same/benchmark"),
    ]);
    assert_eq!(loaders.len(), 1);
    assert_eq!(loaders[0].bench_path(), &PathBuf::from("/second/same/benchmark"));
    assert_eq!(loaders[0].setup_path(), Some(&PathBuf::from("/first/same/setup")));
}

#[test]
fn names_compare_as_strings_do() {
    let names = ["", "a", "A", "ab", "b", "é", "z", "日本", "a b", "a-b", "10", "9"];
    for a in names {
        for b in names {
            assert_eq!(name_before(a, b), a < b, "{:?} {:?}", a, b);
        }
    }
}

#[test]
fn many_directories_are_ordered() {
    let mut files = Vec::new();
    for i in (0..50).rev() {
        files.push(found(&format!("bench{:02}", (i * 7) % 50), "benchmark", &format!("/p/{}", i)));
    }
    let loaders = find_benchmarks(files);
    assert_eq!(loaders.len(), 50);
    for i in 0..50 {
        assert_eq!(loaders[i].name(), format!("bench{:02}", i));
    }
}
