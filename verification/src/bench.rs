//! Benchmark execution and analysis.

use vstd::prelude::*;
use vstd::relations::*;
use vstd::seq_lib::*;

pub use crate::discover::find_benchmarks;
use crate::run::pass;
use crate::run::pass_ops;
use crate::run::pending;
use crate::run::reset_sequence;
use crate::run::start_of;
use crate::run::Action;
use crate::run::Run;
use crate::run::SinkOp;

verus! {

/// The order in which samples are ranked.
pub open spec fn sample_leq() -> spec_fn(usize, usize) -> bool {
    |a: usize, b: usize| a <= b
}

/// `s` never decreases from one position to the next.
pub open spec fn ascending(s: Seq<usize>) -> bool {
    forall|i: int, j: int| 0 <= i < j < s.len() ==> s[i] <= s[j]
}

/// The samples of `s` in ascending order.
pub open spec fn ranked(s: Seq<usize>) -> Seq<usize> {
    s.sort_by(sample_leq())
}

/// Smallest element of `s`, and 0 for the empty sequence.
pub open spec fn min_of(s: Seq<usize>) -> usize
    decreases s.len(),
{
    if s.len() == 0 {
        0
    } else if s.len() == 1 {
        s[0]
    } else if s.last() < min_of(s.drop_last()) {
        s.last()
    } else {
        min_of(s.drop_last())
    }
}

/// Largest element of `s`, and 0 for the empty sequence.
pub open spec fn max_of(s: Seq<usize>) -> usize
    decreases s.len(),
{
    if s.len() == 0 {
        0
    } else if s.last() > max_of(s.drop_last()) {
        s.last()
    } else {
        max_of(s.drop_last())
    }
}

/// Sum of the elements of `s`.
pub open spec fn sum_of(s: Seq<usize>) -> int
    decreases s.len(),
{
    if s.len() == 0 {
        0
    } else {
        sum_of(s.drop_last()) + s.last()
    }
}

/// Sum of the squares of the elements of `s`.
pub open spec fn sum_sq_of(s: Seq<usize>) -> int
    decreases s.len(),
{
    if s.len() == 0 {
        0
    } else {
        sum_sq_of(s.drop_last()) + s.last() * s.last()
    }
}

/// The spread of `s`: its length times the sum of its squares, less the
/// square of its sum. It is the sum of the squared deviations from the mean,
/// times the length.
pub open spec fn spread_of(s: Seq<usize>) -> int {
    s.len() * sum_sq_of(s) - sum_of(s) * sum_of(s)
}

/// The sample variance of `s` as a dividend and a divisor: the sum of the
/// squared deviations from the mean over one less than the number of
/// samples, and 0 for fewer than two samples.
pub open spec fn variance_of(s: Seq<usize>) -> (int, int) {
    if s.len() < 2 {
        (0, 1)
    } else {
        (spread_of(s), s.len() * (s.len() - 1))
    }
}

/// Position in the ranked samples that `percentile` selects among `count`
/// samples: the rank `ceil(count * p / 100)` with `p` capped at 100, counted
/// from zero and never below the first position.
pub open spec fn percentile_rank(count: nat, percentile: nat) -> nat {
    let p = if percentile > 100 {
        100
    } else {
        percentile
    };
    let rank = (count * p + 99) / 100;
    if rank == 0 {
        0
    } else {
        (rank - 1) as nat
    }
}

/// The sample below which `percentile` percent of `s` lie.
pub open spec fn percentile_of(s: Seq<usize>, percentile: nat) -> usize {
    ranked(s)[percentile_rank(s.len(), percentile) as int]
}

/// The two middle elements of the ranked samples; one element twice when
/// the count is odd.
pub open spec fn middle_of(s: Seq<usize>) -> (usize, usize) {
    (ranked(s)[(s.len() - 1) / 2], ranked(s)[s.len() as int / 2])
}

/// An exact quotient of two naturals, standing for `num / den`.
#[derive(Clone, Copy, Debug)]
pub struct Ratio {
    /// Dividend.
    pub num: u128,
    /// Divisor; never zero in a ratio this library hands out.
    pub den: u128,
}

impl Ratio {
    /// `self <= n`, as rational numbers.
    pub open spec fn at_most(self, n: int) -> bool {
        self.num <= n * self.den
    }

    /// `self >= n`, as rational numbers.
    pub open spec fn at_least(self, n: int) -> bool {
        self.num >= n * self.den
    }
}

/// What a recorded series has to be once a run has produced it: the
/// measured samples, or the single sentinel 0 when nothing was measured.
pub open spec fn recorded(samples: Seq<usize>) -> Seq<usize> {
    if samples.len() == 0 {
        seq![0usize]
    } else {
        samples
    }
}

/// Mathematical content of a [`Results`] value.
pub struct ResultsView {
    /// Name of the benchmark.
    pub name: Seq<char>,
    /// Number of bytes in one pass of the benchmark.
    pub bench_size: usize,
    /// Samples in the order they were measured; never empty.
    pub samples: Seq<usize>,
}

/// Benchmark results.
pub struct Results {
    /// Sorted samples for calculations like median.
    sorted_samples: Vec<usize>,
    /// Samples ordered chronologically.
    samples: Vec<usize>,
    /// Number of bytes in one sample of the benchmark.
    bench_size: usize,
    /// Name of the benchmark.
    name: String,
}

impl View for Results {
    type V = ResultsView;

    closed spec fn view(&self) -> ResultsView {
        ResultsView { name: self.name@, bench_size: self.bench_size, samples: self.samples@ }
    }
}

/// Sorts `v` in place with the standard library's `sort_unstable` on
/// slices. Trusted: afterwards `v` holds the same elements, each as often as
/// before, in ascending order.
#[verifier::external_body]
fn sort_ascending(v: &mut Vec<usize>)
    ensures
        final(v)@.to_multiset() == old(v)@.to_multiset(),
        ascending(final(v)@),
{
    v.sort_unstable();
}

/// `<=` on samples is a total order.
pub proof fn lemma_sample_leq_total()
    ensures
        total_ordering(sample_leq()),
{
}

/// An ascending rearrangement of `s` is `ranked(s)`: there is only one.
pub proof fn lemma_ranked_unique(s: Seq<usize>, t: Seq<usize>)
    requires
        ascending(t),
        t.to_multiset() == s.to_multiset(),
    ensures
        t == ranked(s),
{
    lemma_sample_leq_total();
    s.lemma_sort_by_ensures(sample_leq());
    assert(sorted_by(t, sample_leq()));
    lemma_sorted_unique(t, ranked(s), sample_leq());
}

/// Ranking rearranges: `ranked(s)` is ascending and holds exactly the
/// elements of `s`, each as often as `s` does.
pub proof fn lemma_ranked(s: Seq<usize>)
    ensures
        ascending(ranked(s)),
        ranked(s).to_multiset() == s.to_multiset(),
        ranked(s).len() == s.len(),
        forall|x: usize| s.contains(x) <==> ranked(s).contains(x),
{
    lemma_sample_leq_total();
    s.lemma_sort_by_ensures(sample_leq());
    s.to_multiset_ensures();
    ranked(s).to_multiset_ensures();
    assert forall|x: usize| s.contains(x) <==> ranked(s).contains(x) by {
        assert(s.contains(x) <==> s.to_multiset().count(x) > 0);
        assert(ranked(s).contains(x) <==> ranked(s).to_multiset().count(x) > 0);
    }
    assert(ascending(ranked(s))) by {
        assert forall|i: int, j: int| 0 <= i < j < ranked(s).len() implies ranked(s)[i] <= ranked(
            s,
        )[j] by {
            assert(sample_leq()(ranked(s)[i], ranked(s)[j]));
        }
    }
}

/// The minimum of a non-empty series is one of its elements and no element
/// is smaller.
pub proof fn lemma_min_of(s: Seq<usize>)
    requires
        s.len() >= 1,
    ensures
        s.contains(min_of(s)),
        forall|i: int| 0 <= i < s.len() ==> min_of(s) <= s[i],
    decreases s.len(),
{
    if s.len() == 1 {
        assert(s[0] == min_of(s));
    } else {
        let head = s.drop_last();
        lemma_min_of(head);
        let k = choose|k: int| 0 <= k < head.len() && head[k] == min_of(head);
        assert(s[k] == head[k]);
        assert(s[s.len() - 1] == s.last());
        assert forall|i: int| 0 <= i < s.len() implies min_of(s) <= s[i] by {
            if i < head.len() {
                assert(head[i] == s[i]);
            }
        }
    }
}

/// The maximum of a non-empty series is one of its elements and no element
/// is larger.
pub proof fn lemma_max_of(s: Seq<usize>)
    requires
        s.len() >= 1,
    ensures
        s.contains(max_of(s)),
        forall|i: int| 0 <= i < s.len() ==> s[i] <= max_of(s),
    decreases s.len(),
{
    if s.len() == 1 {
        assert(max_of(s.drop_last()) == 0);
        assert(s[0] == max_of(s));
    } else {
        let head = s.drop_last();
        lemma_max_of(head);
        let k = choose|k: int| 0 <= k < head.len() && head[k] == max_of(head);
        assert(s[k] == head[k]);
        assert(s[s.len() - 1] == s.last());
        assert forall|i: int| 0 <= i < s.len() implies s[i] <= max_of(s) by {
            if i < head.len() {
                assert(head[i] == s[i]);
            }
        }
    }
}

/// Every ranked sample lies between the minimum and the maximum, and the
/// ranking starts at the minimum and ends at the maximum.
pub proof fn lemma_ranked_within_extrema(s: Seq<usize>)
    requires
        s.len() >= 1,
    ensures
        ranked(s).len() == s.len(),
        ranked(s)[0] == min_of(s),
        ranked(s)[s.len() - 1] == max_of(s),
        forall|i: int| 0 <= i < s.len() ==> min_of(s) <= #[trigger] ranked(s)[i] <= max_of(s),
{
    let r = ranked(s);
    lemma_ranked(s);
    lemma_min_of(s);
    lemma_max_of(s);
    assert forall|i: int| 0 <= i < s.len() implies min_of(s) <= #[trigger] r[i] <= max_of(s) by {
        assert(r.contains(r[i]));
        assert(s.contains(r[i]));
        let k = choose|k: int| 0 <= k < s.len() && s[k] == r[i];
        assert(min_of(s) <= s[k] <= max_of(s));
    }
    assert(r.contains(min_of(s)));
    let lo = choose|k: int| 0 <= k < r.len() && r[k] == min_of(s);
    assert(r[0] <= r[lo]);
    assert(r.contains(max_of(s)));
    let hi = choose|k: int| 0 <= k < r.len() && r[k] == max_of(s);
    assert(r[hi] <= r[r.len() - 1]);
}

/// The sum of a series lies between its length times its minimum and its
/// length times its maximum.
pub proof fn lemma_sum_within_extrema(s: Seq<usize>)
    ensures
        s.len() * min_of(s) <= sum_of(s) <= s.len() * max_of(s),
    decreases s.len(),
{
    if s.len() == 0 {
    } else if s.len() == 1 {
        assert(s.drop_last().len() == 0);
        assert(sum_of(s.drop_last()) == 0);
    } else {
        let head = s.drop_last();
        lemma_sum_within_extrema(head);
        let n = head.len() as int;
        let lo = min_of(s) as int;
        let hi = max_of(s) as int;
        assert(lo <= min_of(head));
        assert(max_of(head) <= hi);
        assert(n * lo <= n * min_of(head)) by (nonlinear_arith)
            requires
                n >= 0,
                lo <= min_of(head),
        ;
        assert(n * max_of(head) <= n * hi) by (nonlinear_arith)
            requires
                n >= 0,
                max_of(head) <= hi,
        ;
        assert((n + 1) * lo == n * lo + lo) by (nonlinear_arith);
        assert((n + 1) * hi == n * hi + hi) by (nonlinear_arith);
    }
}

/// The percentile rank never leaves the series: it is a valid position for
/// every non-empty sample count.
pub proof fn lemma_percentile_rank_in_range(count: nat, percentile: nat)
    requires
        count >= 1,
    ensures
        percentile_rank(count, percentile) < count,
        percentile >= 100 ==> percentile_rank(count, percentile) == count - 1,
        percentile == 0 ==> percentile_rank(count, percentile) == 0,
{
    let p: nat = if percentile > 100 {
        100
    } else {
        percentile
    };
    assert(count * p <= count * 100) by (nonlinear_arith)
        requires
            p <= 100,
    ;
    assert(count * p >= 0) by (nonlinear_arith);
    if percentile == 0 {
        assert(count * p == 0) by (nonlinear_arith)
            requires
                p == 0,
        ;
    }
}

/// The squared deviations of `s` from any number `x` add up to no less than
/// zero; written out, that sum is the sum of squares, less twice `x` times
/// the sum, plus the length times the square of `x`.
pub proof fn lemma_deviations_nonnegative(s: Seq<usize>, x: int)
    ensures
        sum_sq_of(s) - 2 * x * sum_of(s) + s.len() * (x * x) >= 0,
    decreases s.len(),
{
    if s.len() == 0 {
        assert(s.len() * (x * x) == 0) by (nonlinear_arith)
            requires
                s.len() == 0,
        ;
        assert(2 * x * sum_of(s) == 0) by (nonlinear_arith)
            requires
                sum_of(s) == 0,
        ;
    } else {
        let head = s.drop_last();
        let y = s.last() as int;
        lemma_deviations_nonnegative(head, x);
        let q = sum_sq_of(head);
        let t = sum_of(head);
        let k = head.len() as int;
        assert((q + y * y) - 2 * x * (t + y) + (k + 1) * (x * x) == (q - 2 * x * t + k * (x * x))
            + (y - x) * (y - x)) by (nonlinear_arith);
        assert((y - x) * (y - x) >= 0) by (nonlinear_arith);
    }
}

/// The spread of a series is never negative.
pub proof fn lemma_spread_nonnegative(s: Seq<usize>)
    ensures
        spread_of(s) >= 0,
    decreases s.len(),
{
    if s.len() == 0 {
        assert(s.len() * sum_sq_of(s) == 0) by (nonlinear_arith)
            requires
                s.len() == 0,
        ;
        assert(sum_of(s) * sum_of(s) == 0) by (nonlinear_arith)
            requires
                sum_of(s) == 0,
        ;
    } else {
        let head = s.drop_last();
        let x = s.last() as int;
        lemma_spread_nonnegative(head);
        lemma_deviations_nonnegative(head, x);
        let q = sum_sq_of(head);
        let t = sum_of(head);
        let k = head.len() as int;
        assert((k + 1) * (q + x * x) - (t + x) * (t + x) == (k * q - t * t) + (q - 2 * x * t + k * (
        x * x))) by (nonlinear_arith);
    }
}

/// The sum of squares only grows as a series goes on.
pub proof fn lemma_sum_sq_grows(s: Seq<usize>, i: int)
    requires
        0 <= i <= s.len(),
    ensures
        0 <= sum_sq_of(s.take(i)) <= sum_sq_of(s),
    decreases s.len() - i,
{
    if i == s.len() {
        assert(s.take(i) == s);
        lemma_sum_sq_nonnegative(s);
    } else {
        lemma_sum_sq_grows(s, i + 1);
        assert(s.take(i + 1).drop_last() == s.take(i));
        assert(s.take(i + 1).last() * s.take(i + 1).last() >= 0) by (nonlinear_arith);
        lemma_sum_sq_nonnegative(s.take(i));
    }
}

/// A sum of squares is never negative.
pub proof fn lemma_sum_sq_nonnegative(s: Seq<usize>)
    ensures
        sum_sq_of(s) >= 0,
    decreases s.len(),
{
    if s.len() > 0 {
        lemma_sum_sq_nonnegative(s.drop_last());
        assert(s.last() * s.last() >= 0) by (nonlinear_arith);
    }
}

/// A series of equal samples sums to its length times the sample, and its
/// squares to the length times the square.
pub proof fn lemma_sums_of_constant(s: Seq<usize>, c: usize)
    requires
        forall|i: int| 0 <= i < s.len() ==> s[i] == c,
    ensures
        sum_of(s) == s.len() * c,
        sum_sq_of(s) == s.len() * (c * c),
    decreases s.len(),
{
    if s.len() == 0 {
        assert(s.len() * c == 0) by (nonlinear_arith)
            requires
                s.len() == 0,
        ;
        assert(s.len() * (c * c) == 0) by (nonlinear_arith)
            requires
                s.len() == 0,
        ;
    } else {
        let head = s.drop_last();
        assert forall|i: int| 0 <= i < head.len() implies head[i] == c by {
            assert(head[i] == s[i]);
        }
        lemma_sums_of_constant(head, c);
        let k = head.len() as int;
        assert(s.last() == c);
        assert((k + 1) * c == k * c + c) by (nonlinear_arith);
        assert((k + 1) * (c * c) == k * (c * c) + c * c) by (nonlinear_arith);
    }
}

/// The variance is zero for fewer than two samples and for samples that are
/// all equal.
pub proof fn lemma_variance_zero(s: Seq<usize>)
    requires
        s.len() <= 1 || forall|i: int, j: int| 0 <= i < s.len() && 0 <= j < s.len() ==> s[i] == s[j],
    ensures
        variance_of(s).0 == 0,
        variance_of(s).1 >= 1,
{
    if s.len() >= 2 {
        let c = s[0];
        lemma_sums_of_constant(s, c);
        let n = s.len() as int;
        assert(n * (n * (c * c)) - (n * c) * (n * c) == 0) by (nonlinear_arith);
        assert(n * (n - 1) >= 1) by (nonlinear_arith)
            requires
                n >= 2,
        ;
    }
}

/// The median and the mean of a non-empty series lie between its minimum
/// and its maximum. Both are stated without division: twice the median is
/// the sum of the two middle ranked samples, and the mean times the number
/// of samples is their sum.
pub proof fn lemma_median_and_mean_within_extrema(s: Seq<usize>)
    requires
        s.len() >= 1,
    ensures
        2 * min_of(s) <= middle_of(s).0 + middle_of(s).1 <= 2 * max_of(s),
        middle_of(s).0 <= middle_of(s).1,
        s.len() * min_of(s) <= sum_of(s) <= s.len() * max_of(s),
{
    lemma_ranked_within_extrema(s);
    lemma_ranked(s);
    lemma_sum_within_extrema(s);
    let low = (s.len() - 1) / 2;
    let high = s.len() as int / 2;
    assert(min_of(s) <= ranked(s)[low] <= max_of(s));
    assert(min_of(s) <= ranked(s)[high] <= max_of(s));
}

/// The 0th percentile of a non-empty series is its minimum, and the 100th
/// percentile, like every higher one, is its maximum.
pub proof fn lemma_percentile_extrema(s: Seq<usize>, percentile: nat)
    requires
        s.len() >= 1,
    ensures
        percentile_of(s, 0) == min_of(s),
        percentile_of(s, 100) == max_of(s),
        percentile >= 100 ==> percentile_of(s, percentile) == max_of(s),
{
    lemma_ranked_within_extrema(s);
    lemma_percentile_rank_in_range(s.len(), 0);
    lemma_percentile_rank_in_range(s.len(), 100);
    lemma_percentile_rank_in_range(s.len(), percentile);
}

impl Results {
    #[verifier::type_invariant]
    spec fn well_formed(&self) -> bool {
        &&& self.samples@.len() >= 1
        &&& self.sorted_samples@ == ranked(self.samples@)
    }

    /// The results of a benchmark of `bench_size` bytes a pass, with the
    /// samples in the order in which they were measured.
    pub fn new(name: String, bench_size: usize, samples: Vec<usize>) -> (results: Self)
        ensures
            results@.name == name@,
            results@.bench_size == bench_size,
            results@.samples == recorded(samples@),
    {
        let mut samples = samples;
        // Assure the vector is never empty to simplify the math.
        if samples.is_empty() {
            samples.push(0);
        }
        let mut sorted_samples = samples.clone();
        assert(sorted_samples@ == samples@);
        sort_ascending(&mut sorted_samples);
        proof {
            lemma_ranked_unique(samples@, sorted_samples@);
        }
        Results { sorted_samples, samples, bench_size, name }
    }

    /// Name of the benchmark.
    pub fn name(&self) -> (name: &str)
        ensures
            name@ == self@.name,
    {
        self.name.as_str()
    }

    /// All recorded samples.
    pub fn samples(&self) -> (samples: &[usize])
        ensures
            samples@ == self@.samples,
            samples@.len() >= 1,
    {
        proof {
            use_type_invariant(self);
        }
        self.samples.as_slice()
    }

    /// Size of the benchmark in bytes.
    pub fn bench_size(&self) -> (size: usize)
        ensures
            size == self@.bench_size,
    {
        self.bench_size
    }

    /// Number of samples taken.
    pub fn sample_count(&self) -> (count: usize)
        ensures
            count == self@.samples.len(),
            count >= 1,
    {
        proof {
            use_type_invariant(self);
        }
        self.samples.len()
    }

    /// Fastest benchmark sample in milliseconds.
    pub fn min(&self) -> (fastest: usize)
        ensures
            fastest == min_of(self@.samples),
    {
        let mut fastest: usize = 0;
        let mut i: usize = 0;
        while i < self.samples.len()
            invariant
                i <= self.samples@.len(),
                fastest == min_of(self.samples@.take(i as int)),
            decreases self.samples@.len() - i,
        {
            assert(self.samples@.take(i + 1).drop_last() == self.samples@.take(i as int));
            if i == 0 || self.samples[i] < fastest {
                fastest = self.samples[i];
            }
            i += 1;
        }
        assert(self.samples@.take(i as int) == self.samples@);
        fastest
    }

    /// Slowest benchmark sample in milliseconds.
    pub fn max(&self) -> (slowest: usize)
        ensures
            slowest == max_of(self@.samples),
    {
        let mut slowest: usize = 0;
        let mut i: usize = 0;
        while i < self.samples.len()
            invariant
                i <= self.samples@.len(),
                slowest == max_of(self.samples@.take(i as int)),
            decreases self.samples@.len() - i,
        {
            assert(self.samples@.take(i + 1).drop_last() == self.samples@.take(i as int));
            if self.samples[i] > slowest {
                slowest = self.samples[i];
            }
            i += 1;
        }
        assert(self.samples@.take(i as int) == self.samples@);
        slowest
    }
    /// Mean execution time per sample in milliseconds, as the exact quotient
    /// of the sum of the samples and their count.
    pub fn mean(&self) -> (mean: Ratio)
        ensures
            mean.num == sum_of(self@.samples),
            mean.den == self@.samples.len(),
            mean.den >= 1,
            mean.at_least(min_of(self@.samples) as int),
            mean.at_most(max_of(self@.samples) as int),
    {
        proof {
            use_type_invariant(self);
        }
        let mut total: u128 = 0;
        let mut i: usize = 0;
        while i < self.samples.len()
            invariant
                i <= self.samples@.len(),
                total == sum_of(self.samples@.take(i as int)),
                total <= i * 0xffff_ffff_ffff_ffff,
            decreases self.samples@.len() - i,
        {
            assert(self.samples@.take(i + 1).drop_last() == self.samples@.take(i as int));
            total = total + self.samples[i] as u128;
            i += 1;
        }
        assert(self.samples@.take(i as int) == self.samples@);
        proof {
            lemma_sum_within_extrema(self.samples@);
            let n = self.samples@.len() as int;
            assert(n * min_of(self.samples@) == min_of(self.samples@) * n) by (nonlinear_arith);
            assert(n * max_of(self.samples@) == max_of(self.samples@) * n) by (nonlinear_arith);
        }
        Ratio { num: total, den: self.samples.len() as u128 }
    }

    /// Median execution time per sample in milliseconds, as the exact
    /// quotient of the sum of the two middle ranked samples and 2.
    pub fn median(&self) -> (median: Ratio)
        ensures
            median.num == middle_of(self@.samples).0 + middle_of(self@.samples).1,
            median.den == 2,
            median.at_least(min_of(self@.samples) as int),
            median.at_most(max_of(self@.samples) as int),
    {
        proof {
            use_type_invariant(self);
            lemma_ranked_within_extrema(self.samples@);
        }
        let len = self.samples.len();
        let low = self.sorted_samples[(len - 1) / 2];
        let high = self.sorted_samples[len / 2];
        Ratio { num: low as u128 + high as u128, den: 2 }
    }

    /// Variance of the execution time in milliseconds, as the exact quotient
    /// of the sum of the squared deviations from the mean and one less than
    /// the number of samples; 0 for fewer than two samples.
    ///
    /// The quotient is computed in 128 bits. Samples so large that the sum
    /// of their squares times their number, or the square of their sum, does
    /// not fit give `None`.
    pub fn variance(&self) -> (variance: Option<Ratio>)
        ensures
            match variance {
                Some(v) => v.num == variance_of(self@.samples).0 && v.den == variance_of(
                    self@.samples,
                ).1 && v.den >= 1,
                None => self@.samples.len() >= 2 && (self@.samples.len() * sum_sq_of(
                    self@.samples,
                ) > u128::MAX || sum_of(self@.samples) * sum_of(self@.samples) > u128::MAX),
            },
    {
        let len = self.samples.len();
        if len < 2 {
            return Some(Ratio { num: 0, den: 1 });
        }
        let sum = self.mean().num;
        let mut squares: u128 = 0;
        let mut i: usize = 0;
        while i < len
            invariant
                len == self.samples@.len(),
                len >= 2,
                i <= len,
                squares == sum_sq_of(self.samples@.take(i as int)),
            decreases len - i,
        {
            assert(self.samples@.take(i + 1).drop_last() == self.samples@.take(i as int));
            let sample = self.samples[i] as u128;
            assert(sample * sample <= 0xffff_ffff_ffff_ffff * 0xffff_ffff_ffff_ffff)
                by (nonlinear_arith)
                requires
                    0 <= sample <= 0xffff_ffff_ffff_ffff,
            ;
            match squares.checked_add(sample * sample) {
                Some(more) => {
                    squares = more;
                },
                None => {
                    proof {
                        lemma_sum_sq_grows(self.samples@, i + 1);
                        let total = sum_sq_of(self.samples@);
                        assert(len * total >= total) by (nonlinear_arith)
                            requires
                                len >= 2,
                                total >= 0,
                        ;
                    }
                    return None;
                },
            }
            i += 1;
        }
        assert(self.samples@.take(i as int) == self.samples@);
        let scaled = match (len as u128).checked_mul(squares) {
            Some(scaled) => scaled,
            None => {
                return None;
            },
        };
        let squared = match sum.checked_mul(sum) {
            Some(squared) => squared,
            None => {
                return None;
            },
        };
        proof {
            lemma_spread_nonnegative(self.samples@);
            assert(len * (len - 1) <= 0xffff_ffff_ffff_ffff * 0xffff_ffff_ffff_ffff)
                by (nonlinear_arith)
                requires
                    2 <= len <= 0xffff_ffff_ffff_ffff,
            ;
            assert(len * (len - 1) >= 1) by (nonlinear_arith)
                requires
                    len >= 2,
            ;
        }
        Some(Ratio { num: scaled - squared, den: len as u128 * (len as u128 - 1) })
    }

    /// Execution time in millisecond that the specified percentage of samples lie below.
    pub fn percentile(&self, percentile: usize) -> (sample: usize)
        ensures
            sample == percentile_of(self@.samples, percentile as nat),
    {
        proof {
            use_type_invariant(self);
            lemma_ranked(self.samples@);
            lemma_percentile_rank_in_range(self.samples@.len(), percentile as nat);
        }
        let capped: usize = if percentile > 100 {
            100
        } else {
            percentile
        };
        let count = self.samples.len();
        assert(count * capped <= count * 100) by (nonlinear_arith)
            requires
                capped <= 100,
        ;
        let rank: u128 = (count as u128 * capped as u128 + 99) / 100;
        let index: usize = if rank == 0 {
            0
        } else {
            (rank - 1) as usize
        };
        self.sorted_samples[index]
    }
}

/// Errors during the benchmark process.
#[derive(Debug)]
pub enum Error {
    /// No bytes are present in the benchmark.
    Empty,
}

impl Error {
    /// Human-readable cause.
    pub fn description(&self) -> (text: &'static str)
        ensures
            text@ == "empty benchmark"@,
    {
        match self {
            Error::Empty => "empty benchmark",
        }
    }
}

/// A location in the file system, carried through as it was found.
#[verifier::external_type_specification]
#[verifier::external_body]
pub struct ExPathBuf(std::path::PathBuf);

/// What a producer contributed: its captured output, or nothing at all when
/// it is absent or could not be run.
pub open spec fn captured(output: Option<Vec<u8>>) -> Seq<u8> {
    match output {
        Some(bytes) => bytes@,
        None => Seq::empty(),
    }
}

/// `count` whole copies of `body`, one after the other.
pub open spec fn repeated(body: Seq<u8>, count: nat) -> Seq<u8>
    decreases count,
{
    if count == 0 {
        Seq::empty()
    } else {
        repeated(body, (count - 1) as nat) + body
    }
}

/// Number of whole copies of a body of `len` bytes that reach `min_bytes`:
/// `ceil(min_bytes / len)`.
pub open spec fn copies_needed(min_bytes: nat, len: nat) -> nat
    recommends
        min_bytes >= 1,
        len >= 1,
{
    ((min_bytes - 1) / len as int + 1) as nat
}

/// `count` copies of a body are `count` times as long as the body.
pub proof fn lemma_repeated_len(body: Seq<u8>, count: nat)
    ensures
        repeated(body, count).len() == count * body.len(),
    decreases count,
{
    if count > 0 {
        lemma_repeated_len(body, (count - 1) as nat);
        assert(count * body.len() == (count - 1) * body.len() + body.len()) by (nonlinear_arith);
    } else {
        assert(count * body.len() == 0) by (nonlinear_arith)
            requires
                count == 0,
        ;
    }
}

/// Replicating a body of `len` bytes up to the floor `min_bytes` takes the
/// least number of whole copies that reaches the floor: the copies cover
/// `min_bytes`, one copy fewer does not, and so no smaller multiple of
/// `len` does.
pub proof fn lemma_copies_needed_is_least(min_bytes: nat, len: nat)
    requires
        min_bytes >= 1,
        len >= 1,
    ensures
        copies_needed(min_bytes, len) >= 1,
        copies_needed(min_bytes, len) * len >= min_bytes,
        (copies_needed(min_bytes, len) - 1) * len < min_bytes,
        forall|k: nat| #[trigger] (k * len) >= min_bytes ==> k >= copies_needed(min_bytes, len),
{
    let q = (min_bytes - 1) / len as int;
    let l = len as int;
    let f = min_bytes as int;
    assert(q * l <= f - 1 < q * l + l && q >= 0) by (nonlinear_arith)
        requires
            q == (f - 1) / l,
            l >= 1,
            f >= 1,
    ;
    assert((q + 1) * l == q * l + l) by (nonlinear_arith);
    assert forall|k: nat| #[trigger] (k * len) >= min_bytes implies k >= q + 1 by {
        if k <= q {
            assert(k * l <= q * l) by (nonlinear_arith)
                requires
                    0 <= k <= q,
                    l >= 1,
            ;
        }
    }
}

/// Replicating a body up to a floor yields a length that is a multiple of
/// the length of the body and no less than the floor, and it is the
/// smallest such multiple.
pub proof fn lemma_replication(body: Seq<u8>, min_bytes: nat)
    requires
        body.len() >= 1,
        min_bytes >= 1,
    ensures
        repeated(body, copies_needed(min_bytes, body.len())).len() == copies_needed(
            min_bytes,
            body.len(),
        ) * body.len(),
        repeated(body, copies_needed(min_bytes, body.len())).len() >= min_bytes,
        forall|k: nat| #[trigger]
            (k * body.len()) >= min_bytes ==> k * body.len() >= repeated(
                body,
                copies_needed(min_bytes, body.len()),
            ).len(),
{
    let copies = copies_needed(min_bytes, body.len());
    lemma_repeated_len(body, copies);
    lemma_copies_needed_is_least(min_bytes, body.len());
    assert forall|k: nat| #[trigger] (k * body.len()) >= min_bytes implies k * body.len() >= copies
        * body.len() by {
        assert(k >= copies);
        assert(k * body.len() >= copies * body.len()) by (nonlinear_arith)
            requires
                k >= copies,
                body.len() >= 1,
        ;
    }
}

/// Mathematical content of a [`Benchmark`].
pub struct BenchmarkView {
    /// Name of the benchmark.
    pub name: Seq<char>,
    /// Bytes written before each pass, outside the measurement.
    pub setup: Seq<u8>,
    /// Bytes whose writing is measured.
    pub benchmark: Seq<u8>,
}

/// The bytes that `op` writes for `benchmark`, if it is a write.
pub open spec fn payload_of(benchmark: BenchmarkView, op: SinkOp) -> Option<Seq<u8>> {
    match op {
        SinkOp::Reset => Some(reset_sequence()),
        SinkOp::Setup => Some(benchmark.setup),
        SinkOp::Body => Some(benchmark.benchmark),
        _ => None,
    }
}

/// A single benchmark with all data cached.
pub struct Benchmark {
    /// Control sequence that resets the terminal.
    reset: Vec<u8>,
    /// Benchmark initialization data.
    setup: Vec<u8>,
    /// Benchmark execution data.
    benchmark: Vec<u8>,
    /// Name of the benchmark.
    name: String,
}

impl View for Benchmark {
    type V = BenchmarkView;

    closed spec fn view(&self) -> BenchmarkView {
        BenchmarkView { name: self.name@, setup: self.setup@, benchmark: self.benchmark@ }
    }
}

impl Benchmark {
    #[verifier::type_invariant]
    spec fn well_formed(&self) -> bool {
        &&& self.benchmark@.len() >= 1
        &&& self.reset@ == reset_sequence()
    }

    /// Load a benchmark from the captured output of its producers.
    ///
    /// If the benchmark is too small, it will be repeated in full until the `min_bytes` parameter
    /// is reached or exceeded.
    pub fn new(
        name: String,
        setup: Option<Vec<u8>>,
        bench: Option<Vec<u8>>,
        min_bytes: usize,
    ) -> (loaded: Result<Self, Error>)
        ensures
            loaded is Err <==> min_bytes == 0 || captured(bench).len() == 0,
            loaded matches Ok(benchmark) ==> {
                &&& benchmark@.name == name@
                &&& benchmark@.setup == captured(setup)
                &&& benchmark@.benchmark == repeated(
                    captured(bench),
                    copies_needed(min_bytes as nat, captured(bench).len()),
                )
                &&& benchmark@.benchmark.len() >= min_bytes
                &&& benchmark@.benchmark.len() < min_bytes + captured(bench).len()
            },
    {
        let setup = match setup {
            Some(bytes) => bytes,
            None => Vec::new(),
        };
        let bench = match bench {
            Some(bytes) => bytes,
            None => Vec::new(),
        };

        // If there's no data, the minimum benchmark size cannot be reached.
        if min_bytes == 0 || bench.len() == 0 {
            return Err(Error::Empty);
        }

        // Repeat until `min_bytes` is reached.
        let count = (min_bytes - 1) / bench.len() + 1;
        let mut bytes: Vec<u8> = Vec::new();
        let mut copies: usize = 0;
        while copies < count
            invariant
                copies <= count,
                bytes@ == repeated(bench@, copies as nat),
            decreases count - copies,
        {
            bytes.extend_from_slice(bench.as_slice());
            copies += 1;
            assert(bytes@ == repeated(bench@, (copies - 1) as nat) + bench@);
        }
        proof {
            lemma_repeated_len(bench@, count as nat);
            lemma_copies_needed_is_least(min_bytes as nat, bench@.len());
            assert((count - 1) * bench@.len() + bench@.len() == count * bench@.len())
                by (nonlinear_arith);
        }
        let mut reset: Vec<u8> = Vec::new();
        reset.push(0x1b);
        reset.push(0x63);
        assert(reset@ =~= reset_sequence());
        Ok(Benchmark { reset, benchmark: bytes, setup, name })
    }

    /// Execute the benchmark.
    ///
    /// This starts the schedule of a run: `warmup_runs` passes whose
    /// durations are discarded, then measured passes until `max_samples` of
    /// them are recorded or `max_secs` seconds have gone by. The driver
    /// carries out the action returned and feeds [`Run::step`].
    pub fn run(&self, warmup_runs: usize, max_secs: u64, max_samples: Option<usize>) -> (started: (
        Run,
        Action,
    ))
        ensures
            started.0@ == start_of(
                self@.name,
                self@.benchmark.len() as usize,
                warmup_runs,
                max_secs,
                max_samples,
            ),
            started.1 == pending(started.0@.phase, max_secs),
    {
        Run::new(self.name.clone(), self.benchmark.len(), warmup_runs, max_secs, max_samples)
    }

    /// Run a single benchmark sample: the operations of one pass, in the
    /// order in which the driver is to perform them.
    pub fn run_sample(&self) -> (ops: Vec<SinkOp>)
        ensures
            ops@ == pass_ops(),
    {
        pass()
    }

    /// The bytes that `op` writes, or `None` where it writes nothing.
    pub fn payload(&self, op: SinkOp) -> (bytes: Option<&[u8]>)
        ensures
            bytes is Some <==> payload_of(self@, op) is Some,
            bytes matches Some(b) ==> payload_of(self@, op) == Some(b@),
    {
        proof {
            use_type_invariant(self);
        }
        match op {
            SinkOp::Reset => Some(self.reset.as_slice()),
            SinkOp::Setup => Some(self.setup.as_slice()),
            SinkOp::Body => Some(self.benchmark.as_slice()),
            _ => None,
        }
    }

    /// Name of the benchmark.
    pub fn name(&self) -> (name: &str)
        ensures
            name@ == self@.name,
    {
        self.name.as_str()
    }

    /// Bytes to write before each pass, outside the measurement.
    pub fn setup(&self) -> (bytes: &[u8])
        ensures
            bytes@ == self@.setup,
    {
        self.setup.as_slice()
    }

    /// Bytes whose writing is measured; never empty.
    pub fn body(&self) -> (bytes: &[u8])
        ensures
            bytes@ == self@.benchmark,
            bytes@.len() >= 1,
    {
        proof {
            use_type_invariant(self);
        }
        self.benchmark.as_slice()
    }
}

/// Mathematical content of a [`BenchmarkLoader`].
pub struct BenchmarkLoaderView {
    /// Name of the benchmark: the directory its producers stand in.
    pub name: Seq<char>,
    /// Producer of the bytes written before each pass, if there is one.
    pub setup_path: Option<std::path::PathBuf>,
    /// Producer of the measured bytes.
    pub bench_path: std::path::PathBuf,
}

/// Benchmark loader.
///
/// This loader stores all state necessary to initialize the benchmark, without allocating the
/// entire benchmark ahead of execution.
pub struct BenchmarkLoader {
    setup_path: Option<std::path::PathBuf>,
    bench_path: std::path::PathBuf,
    name: String,
}

impl View for BenchmarkLoader {
    type V = BenchmarkLoaderView;

    closed spec fn view(&self) -> BenchmarkLoaderView {
        BenchmarkLoaderView {
            name: self.name@,
            setup_path: self.setup_path,
            bench_path: self.bench_path,
        }
    }
}

impl BenchmarkLoader {
    /// A loader for the benchmark `name` with the given producers.
    pub fn new(
        name: String,
        setup_path: Option<std::path::PathBuf>,
        bench_path: std::path::PathBuf,
    ) -> (loader: Self)
        ensures
            loader@ == (BenchmarkLoaderView { name: name@, setup_path, bench_path }),
    {
        BenchmarkLoader { setup_path, bench_path, name }
    }

    /// Name of the benchmark.
    pub fn name(&self) -> (name: &str)
        ensures
            name@ == self@.name,
    {
        self.name.as_str()
    }

    /// The producer to run for the setup bytes, if the benchmark has one.
    pub fn setup_path(&self) -> (path: Option<&std::path::PathBuf>)
        ensures
            path is Some <==> self@.setup_path is Some,
            path matches Some(p) ==> self@.setup_path == Some(*p),
    {
        self.setup_path.as_ref()
    }

    /// The producer to run for the measured bytes.
    pub fn bench_path(&self) -> (path: &std::path::PathBuf)
        ensures
            *path == self@.bench_path,
    {
        &self.bench_path
    }

    /// Create the benchmark from what its producers wrote.
    ///
    /// `setup_output` and `bench_output` are the captured standard output of
    /// the two producers, `None` where a producer could not be run. Output
    /// offered for a setup producer that the loader does not have is ignored.
    pub fn load(
        self,
        setup_output: Option<Vec<u8>>,
        bench_output: Option<Vec<u8>>,
        min_bytes: usize,
    ) -> (loaded: Result<Benchmark, Error>)
        ensures
            loaded is Err <==> min_bytes == 0 || captured(bench_output).len() == 0,
            loaded matches Ok(benchmark) ==> {
                &&& benchmark@.name == self@.name
                &&& benchmark@.setup == if self@.setup_path is Some {
                    captured(setup_output)
                } else {
                    Seq::<u8>::empty()
                }
                &&& benchmark@.benchmark == repeated(
                    captured(bench_output),
                    copies_needed(min_bytes as nat, captured(bench_output).len()),
                )
            },
    {
        let setup = if self.setup_path.is_some() {
            setup_output
        } else {
            None
        };
        Benchmark::new(self.name, setup, bench_output, min_bytes)
    }
}

} // verus!
