use vtebench::bench::Results;

fn new_results(samples: Vec<usize>) -> Results {
    Results::new(String::new(), 0, samples)
}

fn float_eq(f1: f64, f2: f64) {
    if (f1 - f2).abs() >= f64::EPSILON {
        panic!("float assertion failed: {} != {}", f1, f2);
    }
}

#[test]
fn max() {
    let results = new_results(vec![6, 3, 1, 9, 8]);
    assert_eq!(results.max(), 9);
}

#[test]
fn min() {
    let results = new_results(vec![6, 3, 1, 9, 8]);
    assert_eq!(results.min(), 1);
}

#[test]
fn mean() {
    let results = new_results(vec![20, 30, 40, 80, 100, 100]);
    let mean = results.mean();
    assert_eq!(mean.num, 370);
    assert_eq!(mean.den, 6);
    float_eq(mean.num as f64 / mean.den as f64, 61.666666666666664);
}

#[test]
fn median() {
    let results = new_results(vec![20, 30, 55, 60, 100, 100]);
    let median = results.median();
    float_eq(median.num as f64 / median.den as f64, 57.5);

    let results = new_results(vec![20, 30, 40, 60, 80, 100, 100]);
    let median = results.median();
    float_eq(median.num as f64 / median.den as f64, 60.);
}

#[test]
fn percentile() {
    let results = new_results(vec![1, 2, 3, 4, 5, 6, 7, 8, 9, 10]);
    assert_eq!(results.percentile(110), 10);
    assert_eq!(results.percentile(100), 10);
    assert_eq!(results.percentile(90), 9);
    assert_eq!(results.percentile(80), 8);
    assert_eq!(results.percentile(70), 7);
    assert_eq!(results.percentile(60), 6);
    assert_eq!(results.percentile(50), 5);
    assert_eq!(results.percentile(40), 4);
    assert_eq!(results.percentile(30), 3);
    assert_eq!(results.percentile(20), 2);
    assert_eq!(results.percentile(10), 1);
    assert_eq!(results.percentile(0), 1);
}

fn as_float(ratio: vtebench::bench::Ratio) -> f64 {
    ratio.num as f64 / ratio.den as f64
}

#[test]
fn variance() {
    let results = new_results(vec![4, 8, 8, 8, 10, 10]);
    float_eq(as_float(results.variance().unwrap()), 4.8);

    let results = new_results(vec![3]);
    float_eq(as_float(results.variance().unwrap()), 0.);
}

#[test]
fn stddev() {
    let results = new_results(vec![4, 8, 8, 8, 10, 10]);
    float_eq(as_float(results.variance().unwrap()).sqrt(), 2.1908902300206643);

    let results = new_results(vec![3]);
    float_eq(as_float(results.variance().unwrap()).sqrt(), 0.);
}

#[test]
fn variance_is_an_exact_quotient() {
    let variance = new_results(vec![4, 8, 8, 8, 10, 10]).variance().unwrap();
    assert_eq!((variance.num, variance.den), (144, 30));
    let variance = new_results(vec![1, 2]).variance().unwrap();
    assert_eq!((variance.num, variance.den), (1, 2));
    let variance = new_results(vec![]).variance().unwrap();
    assert_eq!((variance.num, variance.den), (0, 1));
}

#[test]
fn variance_of_equal_samples_is_zero() {
    for len in 1..20 {
        for value in [0usize, 1, 7, 1 << 20, 1 << 40] {
            let variance = new_results(vec![value; len]).variance().unwrap();
            assert_eq!(variance.num, 0);
            assert!(variance.den >= 1);
        }
    }
}

#[test]
fn variance_gives_up_beyond_128_bits() {
    assert!(new_results(vec![usize::MAX, usize::MAX]).variance().is_none());
    assert!(new_results(vec![usize::MAX, 0]).variance().is_none());
    assert!(new_results(vec![usize::MAX]).variance().is_some());
    let modest = new_results(vec![1 << 31, 0, 1 << 31]).variance().unwrap();
    assert_eq!(modest.den, 6);
    assert_eq!(modest.num, 3 * (2u128 << 62) - (1u128 << 64));
}

#[test]
fn empty_samples_become_a_single_zero() {
    let results = Results::new("name".to_string(), 42, Vec::new());
    assert_eq!(results.samples(), &[0]);
    assert_eq!(results.sample_count(), 1);
    assert_eq!(results.min(), 0);
    assert_eq!(results.max(), 0);
    assert_eq!(results.percentile(50), 0);
    assert_eq!(results.bench_size(), 42);
    assert_eq!(results.name(), "name");
    let mean = results.mean();
    assert_eq!((mean.num, mean.den), (0, 1));
}

#[test]
fn samples_keep_their_order() {
    let results = new_results(vec![6, 3, 1, 9, 8]);
    assert_eq!(results.samples(), &[6, 3, 1, 9, 8]);
    assert_eq!(results.sample_count(), 5);
}

#[test]
fn centre_lies_between_the_extrema() {
    let series: Vec<Vec<usize>> = vec![
        vec![5],
        vec![2, 9],
        vec![9, 2, 2],
        vec![6, 3, 1, 9, 8],
        vec![0, usize::MAX],
        vec![usize::MAX, usize::MAX, usize::MAX],
        vec![10, 10, 10, 11],
    ];
    for samples in series {
        let results = new_results(samples);
        let (min, max) = (results.min() as u128, results.max() as u128);
        let median = results.median();
        assert_eq!(median.den, 2);
        assert!(min * median.den <= median.num && median.num <= max * median.den);
        let mean = results.mean();
        assert!(min * mean.den <= mean.num && mean.num <= max * mean.den);
    }
}

#[test]
fn median_of_unsorted_samples() {
    let median = new_results(vec![100, 20, 60, 30]).median();
    assert_eq!((median.num, median.den), (90, 2));
    let median = new_results(vec![100, 20, 60]).median();
    assert_eq!((median.num, median.den), (120, 2));
}

#[test]
fn percentile_ends_are_the_extrema() {
    let series: Vec<Vec<usize>> =
        vec![vec![5], vec![9, 2], vec![6, 3, 1, 9, 8], vec![3, 3, 3], vec![usize::MAX, 0, 7]];
    for samples in series {
        let results = new_results(samples);
        assert_eq!(results.percentile(0), results.min());
        assert_eq!(results.percentile(100), results.max());
        assert_eq!(results.percentile(101), results.max());
        assert_eq!(results.percentile(usize::MAX), results.max());
    }
}

#[test]
fn percentile_rounds_the_rank_up() {
    let results = new_results(vec![40, 10, 30, 20]);
    assert_eq!(results.percentile(1), 10);
    assert_eq!(results.percentile(25), 10);
    assert_eq!(results.percentile(26), 20);
    assert_eq!(results.percentile(50), 20);
    assert_eq!(results.percentile(51), 30);
    assert_eq!(results.percentile(75), 30);
    assert_eq!(results.percentile(76), 40);
    assert_eq!(results.percentile(99), 40);
}
