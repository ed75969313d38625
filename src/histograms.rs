use vstd::prelude::*;
use crate::calculations::total;
use crate::sums::{
    lemma_sum_by_bounded, lemma_sum_by_same, lemma_sum_by_update, lemma_sum_by_zeros, of_u128, of_u64, of_usize, prefix_sum,
    sum_u64, sum_usize,
};

verus! {

/// One bin of a histogram: values in `[start, end)`, or at least `start` when
/// `end` is `None`.
#[derive(Clone, Copy, Debug, PartialEq, Eq)]
pub struct HistogramBin {
    pub start: u64,
    pub end: Option<u64>,
    pub count: u64,
    pub bases: u128,
}

/// Bins of width `step` covering `[0, max_value)`, then one open-ended bin.
#[derive(Clone, Debug)]
pub struct Histogram {
    pub step: u64,
    pub max_value: u64,
    pub bins: Vec<HistogramBin>,
}

/// The read-length histogram and, for aligned reads, the Q-score histogram.
#[derive(Clone, Debug)]
pub struct Histograms {
    pub read_length: Histogram,
    pub q_score: Option<Histogram>,
}

/// Number of values among the first `n` of `s` in `[lo, hi)`.
pub open spec fn range_count(s: Seq<u128>, n: int, lo: int, hi: int) -> int
    decreases n,
{
    if n <= 0 || s.len() == 0 {
        0
    } else {
        range_count(s, n - 1, lo, hi) + if lo <= s[n - 1] < hi {
            1int
        } else {
            0
        }
    }
}

/// Sum of the values among the first `n` of `s` in `[lo, hi)`.
pub open spec fn range_bases(s: Seq<u128>, n: int, lo: int, hi: int) -> int
    decreases n,
{
    if n <= 0 || s.len() == 0 {
        0
    } else {
        range_bases(s, n - 1, lo, hi) + if lo <= s[n - 1] < hi {
            s[n - 1] as int
        } else {
            0
        }
    }
}

/// Number of values among the first `n` of `s` that are at least `lo`.
pub open spec fn count_at_least(s: Seq<u128>, n: int, lo: int) -> int
    decreases n,
{
    if n <= 0 || s.len() == 0 {
        0
    } else {
        count_at_least(s, n - 1, lo) + if lo <= s[n - 1] {
            1int
        } else {
            0
        }
    }
}

/// Sum of the values among the first `n` of `s` that are at least `lo`.
pub open spec fn bases_at_least(s: Seq<u128>, n: int, lo: int) -> int
    decreases n,
{
    if n <= 0 || s.len() == 0 {
        0
    } else {
        bases_at_least(s, n - 1, lo) + if lo <= s[n - 1] {
            s[n - 1] as int
        } else {
            0
        }
    }
}

/// Sum of the record counts of the first `n` bins.
pub open spec fn bins_count(bins: Seq<HistogramBin>, n: int) -> int
    decreases n,
{
    if n <= 0 || bins.len() == 0 {
        0
    } else {
        bins_count(bins, n - 1) + bins[n - 1].count
    }
}

/// Sum of the base weights of the first `n` bins.
pub open spec fn bins_bases(bins: Seq<HistogramBin>, n: int) -> int
    decreases n,
{
    if n <= 0 || bins.len() == 0 {
        0
    } else {
        bins_bases(bins, n - 1) + bins[n - 1].bases
    }
}

/// Largest of the first `n` values of `s` (zero for none).
pub open spec fn max_prefix(s: Seq<u128>, n: int) -> int
    decreases n,
{
    if n <= 0 || s.len() == 0 {
        0
    } else if s[n - 1] > max_prefix(s, n - 1) {
        s[n - 1] as int
    } else {
        max_prefix(s, n - 1)
    }
}

/// The upper end of the read-length bins for a longest read of `m`: the
/// smallest multiple of 10,000 not below `m`, at most 60,000.
pub open spec fn length_upper_bound(m: int) -> int {
    if (m + 9999) / 10000 * 10000 < 60000 {
        (m + 9999) / 10000 * 10000
    } else {
        60000
    }
}

proof fn lemma_max_prefix(s: Seq<u128>, n: int)
    requires
        0 <= n <= s.len(),
    ensures
        forall|j: int| 0 <= j < n ==> s[j] <= max_prefix(s, n),
        n > 0 ==> exists|j: int| 0 <= j < n && s[j] == max_prefix(s, n),
    decreases n,
{
    if n > 0 {
        lemma_max_prefix(s, n - 1);
        if n > 1 && s[n - 1] <= max_prefix(s, n - 1) {
            let j = choose|j: int| 0 <= j < n - 1 && s[j] == max_prefix(s, n - 1);
            assert(0 <= j < n && s[j] == max_prefix(s, n));
        } else {
            assert(s[n - 1] == max_prefix(s, n));
        }
    }
}

proof fn lemma_range_step(s: Seq<u128>, i: int, lo: int, hi: int)
    requires
        0 <= i < s.len(),
    ensures
        lo <= s[i] < hi ==> range_count(s, i + 1, lo, hi) == range_count(s, i, lo, hi) + 1
            && range_bases(s, i + 1, lo, hi) == range_bases(s, i, lo, hi) + s[i],
        !(lo <= s[i] < hi) ==> range_count(s, i + 1, lo, hi) == range_count(s, i, lo, hi)
            && range_bases(s, i + 1, lo, hi) == range_bases(s, i, lo, hi),
{
}

/// Per-bin record counts and base sums of the read lengths.
pub struct LengthHistogramData {
    pub step: u64,
    pub max_value: u64,
    pub counts: Vec<u64>,
    pub bases: Vec<u128>,
    pub overflow_count: u64,
    pub overflow_bases: u128,
}

/// What the read-length bins of `s` hold: width 2,000 up to
/// `length_upper_bound` of the longest read, each bin with its number of reads
/// and their total length, then the reads from there on; counts add up to the
/// number of reads and weights to their total length.
pub open spec fn length_data_of(s: Seq<u128>, h: LengthHistogramData) -> bool {
    let n = s.len() as int;
    &&& h.step == 2000
    &&& h.max_value == length_upper_bound(max_prefix(s, n))
    &&& h.counts@.len() == h.max_value / 2000
    &&& h.bases@.len() == h.counts@.len()
    &&& forall|k: int|
        0 <= k < h.counts@.len() ==> #[trigger] h.counts@[k] == range_count(
            s,
            n,
            2000 * k,
            2000 * k + 2000,
        ) && h.bases@[k] == range_bases(s, n, 2000 * k, 2000 * k + 2000)
    &&& h.overflow_count == count_at_least(s, n, h.max_value as int)
    &&& h.overflow_bases == bases_at_least(s, n, h.max_value as int)
    &&& sum_u64(h.counts@, h.counts@.len() as int) + h.overflow_count == n
    &&& prefix_sum(h.bases@, h.bases@.len() as int) + h.overflow_bases == total(s)
}

/// Bins the read lengths: width 2,000 up to `length_upper_bound` of the longest
/// read, everything from there on in the overflow bin. No data for no reads.
#[verifier::spinoff_prover]
pub fn compute_length_histogram_data(array: &[u128]) -> (r: Option<LengthHistogramData>)
    requires
        total(array@) <= u128::MAX,
    ensures
        r is None <==> array@.len() == 0,
        r matches Some(h) ==> length_data_of(array@, h),
{
    let len = array.len();
    if len == 0 {
        return None;
    }
    let mut longest: u128 = 0;
    let mut i: usize = 0;
    while i < len
        invariant
            len == array@.len(),
            i <= len,
            longest == max_prefix(array@, i as int),
        decreases len - i,
    {
        if array[i] > longest {
            longest = array[i];
        }
        i = i + 1;
    }
    let max_value: u64 = if longest >= 60000 {
        60000
    } else {
        ((longest as u64 + 9999) / 10000) * 10000
    };
    let step: u64 = 2000;
    let step_count = (max_value / step) as usize;
    proof {
        if longest < 60000 {
            let q = (longest as int + 9999) / 10000;
            assert(max_value == q * 10000);
            assert(max_value == 2000 * step_count) by (nonlinear_arith)
                requires
                    max_value == q * 10000,
                    step_count == max_value / 2000,
            ;
        }
    }
    let mut counts: Vec<u64> = Vec::new();
    let mut bases: Vec<u128> = Vec::new();
    let mut k: usize = 0;
    while k < step_count
        invariant
            k <= step_count,
            counts@.len() == k,
            bases@.len() == k,
            forall|j: int| 0 <= j < k ==> counts@[j] == 0 && bases@[j] == 0,
        decreases step_count - k,
    {
        counts.push(0);
        bases.push(0);
        k = k + 1;
    }
    proof {
        assert(sum_u64(counts@, step_count as int) == 0) by {
            lemma_sum_by_zeros(counts@, of_u64(), step_count as int);
        }
        assert(prefix_sum(bases@, step_count as int) == 0) by {
            lemma_sum_by_zeros(bases@, of_u128(), step_count as int);
        }
    }
    let mut overflow_count: u64 = 0;
    let mut overflow_bases: u128 = 0;
    let mut i: usize = 0;
    while i < len
        invariant
            len == array@.len(),
            i <= len,
            total(array@) <= u128::MAX,
            step_count == max_value / 2000,
            max_value == 2000 * step_count,
            max_value <= 60000,
            counts@.len() == step_count,
            bases@.len() == step_count,
            forall|j: int|
                0 <= j < step_count ==> #[trigger] counts@[j] == range_count(
                    array@,
                    i as int,
                    2000 * j,
                    2000 * j + 2000,
                ) && bases@[j] == range_bases(array@, i as int, 2000 * j, 2000 * j + 2000),
            overflow_count == count_at_least(array@, i as int, max_value as int),
            overflow_bases == bases_at_least(array@, i as int, max_value as int),
            sum_u64(counts@, step_count as int) + overflow_count == i,
            prefix_sum(bases@, step_count as int) + overflow_bases == prefix_sum(array@, i as int),
        decreases len - i,
    {
        let value = array[i];
        proof {
            lemma_sum_by_bounded(array@, of_u128(), i as int + 1, len as int);
            lemma_sum_by_bounded(counts@, of_u64(), step_count as int, step_count as int);
            lemma_sum_by_bounded(bases@, of_u128(), step_count as int, step_count as int);
        }
        if value >= max_value as u128 {
            overflow_count = overflow_count + 1;
            overflow_bases = overflow_bases + value;
            proof {
                assert forall|j: int| 0 <= j < step_count implies #[trigger] counts@[j] == range_count(
                    array@,
                    i as int + 1,
                    2000 * j,
                    2000 * j + 2000,
                ) && bases@[j] == range_bases(array@, i as int + 1, 2000 * j, 2000 * j + 2000) by {
                    assert(2000 * j + 2000 <= max_value) by (nonlinear_arith)
                        requires
                            j < step_count,
                            max_value == 2000 * step_count,
                    ;
                    assert(array@[i as int] == value);
                    assert(!(2000 * j <= array@[i as int] < 2000 * j + 2000));
                    lemma_range_step(array@, i as int, 2000 * j, 2000 * j + 2000);
                    assert(counts@[j] == range_count(array@, i as int, 2000 * j, 2000 * j + 2000));
                    assert(bases@[j] == range_bases(array@, i as int, 2000 * j, 2000 * j + 2000));
                }
            }
        } else {
            let index = (value / 2000) as usize;
            assert(index < step_count) by (nonlinear_arith)
                requires
                    value < max_value,
                    index == value / 2000,
                    max_value == 2000 * step_count,
            ;
            let ghost c0 = counts@;
            let ghost b0 = bases@;
            let c = counts[index];
            let b = bases[index];
            proof {
                lemma_range_count_bounded(array@, i as int, 2000 * index, 2000 * index + 2000);
                lemma_range_bases_bounded(array@, i as int, 2000 * index, 2000 * index + 2000);
            }
            counts.set(index, c + 1);
            bases.set(index, b + value);
            proof {
                lemma_sum_by_update(c0, of_u64(), step_count as int, index as int, (c + 1) as u64);
                lemma_sum_by_update(b0, of_u128(), step_count as int, index as int, (b + value) as u128);
                assert forall|j: int| 0 <= j < step_count implies #[trigger] counts@[j] == range_count(
                    array@,
                    i as int + 1,
                    2000 * j,
                    2000 * j + 2000,
                ) && bases@[j] == range_bases(array@, i as int + 1, 2000 * j, 2000 * j + 2000) by {
                    let lo = 2000 * j;
                    let hi = 2000 * j + 2000;
                    assert(array@[i as int] == value);
                    assert(c0[j] == range_count(array@, i as int, lo, hi));
                    assert(b0[j] == range_bases(array@, i as int, lo, hi));
                    lemma_range_step(array@, i as int, lo, hi);
                    if j != index {
                        assert(!(lo <= value < hi)) by (nonlinear_arith)
                            requires
                                j != index,
                                index == value / 2000,
                                0 <= value,
                                lo == 2000 * j,
                                hi == 2000 * j + 2000,
                        ;
                        assert(counts@[j] == c0[j]);
                        assert(bases@[j] == b0[j]);
                    } else {
                        assert(counts@[j] == c + 1);
                        assert(bases@[j] == b + value);
                        assert(c == c0[j] && b == b0[j]);
                        assert(lo <= value < hi) by (nonlinear_arith)
                            requires
                                j == index,
                                index == value / 2000,
                                0 <= value,
                                lo == 2000 * j,
                                hi == 2000 * j + 2000,
                        ;
                    }
                }
            }
        }
        i = i + 1;
    }
    proof {
        lemma_max_prefix(array@, len as int);
    }
    Some(
        LengthHistogramData {
            step,
            max_value,
            counts,
            bases,
            overflow_count,
            overflow_bases,
        },
    )
}

proof fn lemma_range_count_bounded(s: Seq<u128>, n: int, lo: int, hi: int)
    requires
        0 <= n <= s.len(),
    ensures
        0 <= range_count(s, n, lo, hi) <= n,
    decreases n,
{
    if n > 0 {
        lemma_range_count_bounded(s, n - 1, lo, hi);
    }
}

proof fn lemma_range_bases_bounded(s: Seq<u128>, n: int, lo: int, hi: int)
    requires
        0 <= n <= s.len(),
    ensures
        0 <= range_bases(s, n, lo, hi) <= prefix_sum(s, n),
    decreases n,
{
    if n > 0 {
        lemma_range_bases_bounded(s, n - 1, lo, hi);
    }
}

proof fn lemma_bins_push(bins: Seq<HistogramBin>, n: int, x: HistogramBin)
    requires
        0 <= n <= bins.len(),
    ensures
        bins_count(bins.push(x), n) == bins_count(bins, n),
        bins_bases(bins.push(x), n) == bins_bases(bins, n),
    decreases n,
{
    if n > 0 {
        lemma_bins_push(bins, n - 1, x);
    }
}

/// The bin `[start, end)` with the given count and base weight.
pub open spec fn bin(start: int, end: Option<int>, count: int, bases: int) -> HistogramBin {
    HistogramBin {
        start: start as u64,
        end: match end {
            Some(e) => Some(e as u64),
            None => None,
        },
        count: count as u64,
        bases: bases as u128,
    }
}

/// The read-length histogram of `s`: bins of width 2,000 up to
/// `length_upper_bound` of the longest read, each with its number of reads and
/// their total length, then the open-ended bin of all longer reads; no bins
/// for no reads. The bin counts add up to the number of reads, the weights to
/// their total length.
pub open spec fn length_histogram_of(s: Seq<u128>, r: Histogram) -> bool {
    &&& r.step == 2000
    &&& s.len() == 0 ==> r.max_value == 0 && r.bins@.len() == 0
    &&& s.len() > 0 ==> {
        let n = s.len() as int;
        let m = r.max_value as int;
        &&& m == length_upper_bound(max_prefix(s, n))
        &&& r.bins@.len() == m / 2000 + 1
        &&& forall|k: int|
            0 <= k < m / 2000 ==> #[trigger] r.bins@[k] == bin(
                2000 * k,
                Some(2000 * k + 2000),
                range_count(s, n, 2000 * k, 2000 * k + 2000),
                range_bases(s, n, 2000 * k, 2000 * k + 2000),
            )
        &&& r.bins@[m / 2000] == bin(m, None, count_at_least(s, n, m), bases_at_least(s, n, m))
    }
    &&& bins_count(r.bins@, r.bins@.len() as int) == s.len()
    &&& bins_bases(r.bins@, r.bins@.len() as int) == total(s)
}

/// The read-length histogram: bins of width 2,000 up to `length_upper_bound`
/// of the longest read, each with its number of reads and their total length,
/// then the open-ended bin of all longer reads. No bins for no reads. The bin
/// counts add up to the number of reads, the weights to their total length.
pub fn build_length_histogram(array: &[u128]) -> (r: Histogram)
    requires
        total(array@) <= u128::MAX,
    ensures
        length_histogram_of(array@, r),
{
    let data = compute_length_histogram_data(array);
    match data {
        None => Histogram { step: 2000, max_value: 0, bins: Vec::new() },
        Some(hist) => {
            let n = hist.counts.len();
            let mut bins: Vec<HistogramBin> = Vec::new();
            let mut k: usize = 0;
            while k < n
                invariant
                    n == hist.counts@.len(),
                    n == hist.bases@.len(),
                    n <= 30,
                    k <= n,
                    bins@.len() == k,
                    forall|j: int|
                        0 <= j < k ==> #[trigger] bins@[j] == bin(
                            2000 * j,
                            Some(2000 * j + 2000),
                            hist.counts@[j] as int,
                            hist.bases@[j] as int,
                        ),
                    bins_count(bins@, k as int) == sum_u64(hist.counts@, k as int),
                    bins_bases(bins@, k as int) == prefix_sum(hist.bases@, k as int),
                decreases n - k,
            {
                let b = HistogramBin {
                    start: k as u64 * 2000,
                    end: Some((k as u64 + 1) * 2000),
                    count: hist.counts[k],
                    bases: hist.bases[k],
                };
                proof {
                    lemma_bins_push(bins@, k as int, b);
                }
                bins.push(b);
                k = k + 1;
            }
            let last = HistogramBin {
                start: hist.max_value,
                end: None,
                count: hist.overflow_count,
                bases: hist.overflow_bases,
            };
            proof {
                lemma_bins_push(bins@, n as int, last);
            }
            bins.push(last);
            Histogram { step: hist.step, max_value: hist.max_value, bins }
        },
    }
}

/// Number of the Q-score bins below the open-ended one.
pub const QSCORE_MAX: usize = 40;

/// The Q-score bin of a Phred value: the value itself, or the open-ended bin
/// for 40 and above.
pub open spec fn qscore_bucket(phred: int) -> int {
    if phred < 40 {
        phred
    } else {
        40
    }
}

/// Number of the first `n` Phred values that fall into bin `b`.
pub open spec fn bucket_count(phreds: Seq<usize>, n: int, b: int) -> int
    decreases n,
{
    if n <= 0 || phreds.len() == 0 {
        0
    } else {
        bucket_count(phreds, n - 1, b) + if qscore_bucket(phreds[n - 1] as int) == b {
            1int
        } else {
            0
        }
    }
}

/// Total length of the first `n` reads whose Phred value falls into bin `b`.
pub open spec fn bucket_bases(phreds: Seq<usize>, lengths: Seq<u128>, n: int, b: int) -> int
    decreases n,
{
    if n <= 0 || phreds.len() == 0 {
        0
    } else {
        bucket_bases(phreds, lengths, n - 1, b) + if qscore_bucket(phreds[n - 1] as int) == b {
            lengths[n - 1] as int
        } else {
            0
        }
    }
}

/// Read counts and total lengths per Q-score bin, bins 0 to 39 and then the
/// open-ended bin 40.
#[derive(Clone, Debug)]
pub struct QScoreHistogramData {
    pub counts: Vec<u64>,
    pub bases: Vec<u128>,
}

impl QScoreHistogramData {
    /// Whether there is one count and one weight per bin.
    pub open spec fn wf(&self) -> bool {
        self.counts@.len() == 41 && self.bases@.len() == 41
    }

    /// All bins empty.
    pub fn new() -> (r: Self)
        ensures
            r.wf(),
            forall|b: int| 0 <= b < 41 ==> r.counts@[b] == 0 && r.bases@[b] == 0,
            sum_u64(r.counts@, 41) == 0,
            prefix_sum(r.bases@, 41) == 0,
    {
        let mut counts: Vec<u64> = Vec::new();
        let mut bases: Vec<u128> = Vec::new();
        let mut k: usize = 0;
        while k < 41
            invariant
                k <= 41,
                counts@.len() == k,
                bases@.len() == k,
                forall|j: int| 0 <= j < k ==> counts@[j] == 0 && bases@[j] == 0,
            decreases 41 - k,
        {
            counts.push(0);
            bases.push(0);
            k = k + 1;
        }
        proof {
            lemma_sum_by_zeros(counts@, of_u64(), 41);
            lemma_sum_by_zeros(bases@, of_u128(), 41);
        }
        QScoreHistogramData { counts, bases }
    }

    /// Counts one read of the given Phred value and length in its bin.
    pub fn add(&mut self, phred: usize, length: u128)
        requires
            old(self).wf(),
            old(self).counts@[qscore_bucket(phred as int)] < u64::MAX,
            old(self).bases@[qscore_bucket(phred as int)] + length <= u128::MAX,
        ensures
            final(self).wf(),
            final(self).counts@ == old(self).counts@.update(
                qscore_bucket(phred as int),
                (old(self).counts@[qscore_bucket(phred as int)] + 1) as u64,
            ),
            final(self).bases@ == old(self).bases@.update(
                qscore_bucket(phred as int),
                (old(self).bases@[qscore_bucket(phred as int)] + length) as u128,
            ),
            sum_u64(final(self).counts@, 41) == sum_u64(old(self).counts@, 41) + 1,
            prefix_sum(final(self).bases@, 41) == prefix_sum(old(self).bases@, 41) + length,
    {
        let b: usize = if phred < QSCORE_MAX {
            phred
        } else {
            QSCORE_MAX
        };
        let c = self.counts[b];
        let w = self.bases[b];
        proof {
            lemma_sum_by_update(self.counts@, of_u64(), 41, b as int, (c + 1) as u64);
            lemma_sum_by_update(self.bases@, of_u128(), 41, b as int, (w + length) as u128);
        }
        self.counts.set(b, c + 1);
        self.bases.set(b, w + length);
    }

    /// The bins of reads with the given Phred values and lengths. The counts
    /// add up to the number of reads.
    pub fn from_phred_scores(phreds: &[usize], lengths: &[u128]) -> (r: Self)
        requires
            phreds@.len() == lengths@.len(),
            total(lengths@) <= u128::MAX,
        ensures
            r.wf(),
            forall|b: int|
                0 <= b < 41 ==> #[trigger] r.counts@[b] == bucket_count(
                    phreds@,
                    phreds@.len() as int,
                    b,
                ) && r.bases@[b] == bucket_bases(phreds@, lengths@, phreds@.len() as int, b),
            sum_u64(r.counts@, 41) == phreds@.len(),
    {
        let mut data = QScoreHistogramData::new();
        let mut i: usize = 0;
        while i < phreds.len()
            invariant
                phreds@.len() == lengths@.len(),
                total(lengths@) <= u128::MAX,
                i <= phreds@.len(),
                data.wf(),
                forall|b: int|
                    0 <= b < 41 ==> #[trigger] data.counts@[b] == bucket_count(phreds@, i as int, b)
                        && data.bases@[b] == bucket_bases(phreds@, lengths@, i as int, b),
                sum_u64(data.counts@, 41) == i,
                prefix_sum(data.bases@, 41) == prefix_sum(lengths@, i as int),
            decreases phreds.len() - i,
        {
            proof {
                lemma_sum_by_bounded(data.counts@, of_u64(), 41, 41);
                lemma_sum_by_bounded(data.bases@, of_u128(), 41, 41);
                lemma_sum_by_bounded(lengths@, of_u128(), i as int + 1, lengths@.len() as int);
            }
            let ghost before = data;
            data.add(phreds[i], lengths[i]);
            proof {
                assert forall|b: int| 0 <= b < 41 implies #[trigger] data.counts@[b] == bucket_count(
                    phreds@,
                    i as int + 1,
                    b,
                ) && data.bases@[b] == bucket_bases(phreds@, lengths@, i as int + 1, b) by {
                    assert(before.counts@[b] == bucket_count(phreds@, i as int, b));
                    assert(before.bases@[b] == bucket_bases(phreds@, lengths@, i as int, b));
                    assert(bucket_count(phreds@, i as int + 1, b) == bucket_count(phreds@, i as int, b)
                        + if qscore_bucket(phreds@[i as int] as int) == b { 1int } else { 0 });
                    assert(bucket_bases(phreds@, lengths@, i as int + 1, b) == bucket_bases(
                        phreds@,
                        lengths@,
                        i as int,
                        b,
                    ) + if qscore_bucket(phreds@[i as int] as int) == b {
                        lengths@[i as int] as int
                    } else {
                        0
                    });
                }
            }
            i = i + 1;
        }
        assert(i == phreds@.len());
        assert forall|b: int| 0 <= b < 41 implies #[trigger] data.counts@[b] == bucket_count(
            phreds@,
            phreds@.len() as int,
            b,
        ) && data.bases@[b] == bucket_bases(phreds@, lengths@, phreds@.len() as int, b) by {
            assert(data.counts@[b] == bucket_count(phreds@, i as int, b));
        }
        data
    }
}

/// The value at index `i` of `s`, or zero past its end.
pub open spec fn count_or_zero(s: Seq<u64>, i: int) -> int {
    if i < s.len() {
        s[i] as int
    } else {
        0
    }
}

/// The weight at index `i` of `s`, or zero past its end.
pub open spec fn bases_or_zero(s: Seq<u128>, i: int) -> int {
    if i < s.len() {
        s[i] as int
    } else {
        0
    }
}

/// Whether no read is counted in any Q-score bin.
pub open spec fn no_reads(hist: &QScoreHistogramData) -> bool {
    forall|k: int| 0 <= k < 41 ==> count_or_zero(hist.counts@, k) == 0
}

/// The Q-score histogram of `hist`: unit bins 0 to 39 and the open-ended bin
/// from 40, with the counts and weights of `hist` (zero where it has none); no
/// bins when no read was counted. With one count per bin the bin counts add up
/// to the number of reads counted.
pub open spec fn qscore_histogram_of(hist: QScoreHistogramData, r: Histogram) -> bool {
    &&& r.step == 1
    &&& r.max_value == 40
    &&& no_reads(&hist) ==> r.bins@.len() == 0
    &&& !no_reads(&hist) ==> {
        &&& r.bins@.len() == 41
        &&& forall|k: int|
            0 <= k < 40 ==> #[trigger] r.bins@[k] == bin(
                k,
                Some(k + 1),
                count_or_zero(hist.counts@, k),
                bases_or_zero(hist.bases@, k),
            )
        &&& r.bins@[40] == bin(40, None, count_or_zero(hist.counts@, 40), bases_or_zero(hist.bases@, 40))
    }
    &&& hist.wf() ==> bins_count(r.bins@, r.bins@.len() as int) == sum_u64(hist.counts@, 41)
    &&& hist.wf() && !no_reads(&hist) ==> bins_bases(r.bins@, 41) == prefix_sum(hist.bases@, 41)
}

/// The Q-score histogram: unit bins 0 to 39 and the open-ended bin from 40,
/// with the counts and weights of `hist` (zero where it has none); no bins
/// when no read was counted. With one count per bin the bin counts add up to
/// the number of reads counted.
pub fn build_qscore_histogram(hist: &QScoreHistogramData) -> (r: Histogram)
    ensures
        qscore_histogram_of(*hist, r),
{
    let mut any = false;
    let mut j: usize = 0;
    while j <= QSCORE_MAX
        invariant
            j <= 41,
            any == exists|k: int| 0 <= k < j && count_or_zero(hist.counts@, k) != 0,
        decreases 41 - j,
    {
        if j < hist.counts.len() && hist.counts[j] != 0 {
            any = true;
            assert(count_or_zero(hist.counts@, j as int) != 0);
        } else {
            assert(count_or_zero(hist.counts@, j as int) == 0);
        }
        j = j + 1;
    }
    if !any {
        proof {
            if hist.wf() {
                assert forall|k: int| 0 <= k < 41 implies hist.counts@[k] == 0 by {
                    assert(count_or_zero(hist.counts@, k) == 0);
                }
                lemma_sum_by_zeros(hist.counts@, of_u64(), 41);
            }
        }
        return Histogram { step: 1, max_value: 40, bins: Vec::new() };
    }
    let mut bins: Vec<HistogramBin> = Vec::new();
    let mut k: usize = 0;
    while k <= QSCORE_MAX
        invariant
            k <= 41,
            bins@.len() == k,
            forall|j: int|
                0 <= j < k ==> #[trigger] bins@[j] == bin(
                    j,
                    if j < 40 { Some(j + 1) } else { None },
                    count_or_zero(hist.counts@, j),
                    bases_or_zero(hist.bases@, j),
                ),
            hist.wf() ==> bins_count(bins@, k as int) == sum_u64(hist.counts@, k as int),
            hist.wf() ==> bins_bases(bins@, k as int) == prefix_sum(hist.bases@, k as int),
        decreases 41 - k,
    {
        let count = if k < hist.counts.len() {
            hist.counts[k]
        } else {
            0
        };
        let bases = if k < hist.bases.len() {
            hist.bases[k]
        } else {
            0
        };
        let end = if k < QSCORE_MAX {
            Some(k as u64 + 1)
        } else {
            None
        };
        let b = HistogramBin { start: k as u64, end, count, bases };
        proof {
            lemma_bins_push(bins@, k as int, b);
        }
        bins.push(b);
        k = k + 1;
    }
    Histogram { step: 1, max_value: 40, bins }
}

/// The histograms of the collected metrics: the read-length histogram (with
/// no bins when no lengths were collected) and the Q-score histogram when
/// identities were collected.
pub fn build_histograms(metrics_data: &crate::accumulator::Data) -> (r: Histograms)
    requires
        metrics_data.wf(),
    ensures
        metrics_data.lengths matches Some(l) ==> length_histogram_of(l@, r.read_length),
        metrics_data.lengths is None ==> r.read_length.step == 2000 && r.read_length.max_value == 0
            && r.read_length.bins@.len() == 0,
        r.q_score is Some <==> metrics_data.q_score_hist is Some,
        r.q_score matches Some(q) ==> qscore_histogram_of(metrics_data.q_score_hist->Some_0, q),
{
    let read_length = match &metrics_data.lengths {
        Some(lengths) => build_length_histogram(lengths.as_slice()),
        None => Histogram { step: 2000, max_value: 0, bins: Vec::new() },
    };
    let q_score = match &metrics_data.q_score_hist {
        Some(q) => Some(build_qscore_histogram(q)),
        None => None,
    };
    Histograms { read_length, q_score }
}

/// Bin counts for a text bar chart, the last bin open-ended, and how many
/// records one mark stands for.
#[derive(Clone, Debug)]
pub struct BarChart {
    pub counts: Vec<usize>,
    pub dot_size: usize,
}

/// One mark per 500th of `n`, and at least one.
pub open spec fn dots_for(n: int) -> int {
    if n / 500 > 1 {
        n / 500
    } else {
        1
    }
}

/// How many records one mark stands for when `n` records are charted.
pub fn dot_size(n: usize) -> (r: usize)
    ensures
        r == dots_for(n as int),
{
    if n / 500 > 1 {
        n / 500
    } else {
        1
    }
}

/// How many bases one mark stands for when `n` bases are charted.
pub fn dot_size_bases(n: u128) -> (r: u128)
    ensures
        r == dots_for(n as int),
{
    if n / 500 > 1 {
        n / 500
    } else {
        1
    }
}

/// Number of the first `n` values equal to `k`.
pub open spec fn value_count(s: Seq<usize>, n: int, k: int) -> int
    decreases n,
{
    if n <= 0 || s.len() == 0 {
        0
    } else {
        value_count(s, n - 1, k) + if s[n - 1] == k {
            1int
        } else {
            0
        }
    }
}

/// Number of the first `n` values that are at least `cap`.
pub open spec fn count_from(s: Seq<usize>, n: int, cap: int) -> int
    decreases n,
{
    if n <= 0 || s.len() == 0 {
        0
    } else {
        count_from(s, n - 1, cap) + if s[n - 1] >= cap {
            1int
        } else {
            0
        }
    }
}

/// Per-value counts of `values` below `cap`, then the count of values from
/// `cap` on. The counts add up to the number of values.
pub fn capped_counts(values: &[usize], cap: usize) -> (r: Vec<usize>)
    requires
        cap < usize::MAX,
    ensures
        r@.len() == cap + 1,
        forall|k: int| 0 <= k < cap ==> #[trigger] r@[k] == value_count(values@, values@.len() as int, k),
        r@[cap as int] == count_from(values@, values@.len() as int, cap as int),
        sum_usize(r@, cap + 1) == values@.len(),
{
    let mut counts: Vec<usize> = Vec::new();
    let mut k: usize = 0;
    while k <= cap
        invariant
            cap < usize::MAX,
            k <= cap + 1,
            counts@.len() == k,
            forall|j: int| 0 <= j < k ==> counts@[j] == 0,
            sum_usize(counts@, k as int) == 0,
        decreases cap + 1 - k,
    {
        let ghost before = counts@;
        counts.push(0);
        proof {
            lemma_sum_by_same(before, counts@, of_usize(), k as int);
        }
        k = k + 1;
    }
    let mut i: usize = 0;
    while i < values.len()
        invariant
            cap < usize::MAX,
            i <= values@.len(),
            counts@.len() == cap + 1,
            forall|j: int| 0 <= j < cap ==> #[trigger] counts@[j] == value_count(values@, i as int, j),
            counts@[cap as int] == count_from(values@, i as int, cap as int),
            sum_usize(counts@, cap + 1) == i,
        decreases values.len() - i,
    {
        let v = values[i];
        let b = if v < cap {
            v
        } else {
            cap
        };
        proof {
            lemma_sum_by_bounded(counts@, of_usize(), cap + 1, cap + 1);
        }
        let c = counts[b];
        let ghost before = counts@;
        counts.set(b, c + 1);
        proof {
            lemma_sum_by_update(before, of_usize(), cap + 1, b as int, (c + 1) as usize);
            assert forall|j: int| 0 <= j < cap implies #[trigger] counts@[j] == value_count(values@, i as int + 1, j) by {
                assert(value_count(values@, i as int + 1, j) == value_count(values@, i as int, j) + if values@[i as int] == j { 1int } else { 0 });
                assert(before[j] == value_count(values@, i as int, j));
            }
        }
        i = i + 1;
    }
    counts
}

/// The bar chart of exon counts: one bin per count below 15, then one for
/// 15 and more.
pub fn make_histogram_exons(array: &[usize]) -> (r: BarChart)
    ensures
        r.counts@.len() == 16,
        forall|k: int| 0 <= k < 15 ==> #[trigger] r.counts@[k] == value_count(array@, array@.len() as int, k),
        r.counts@[15] == count_from(array@, array@.len() as int, 15),
        r.dot_size == dots_for(array@.len() as int),
{
    BarChart { counts: capped_counts(array, 15), dot_size: dot_size(array.len()) }
}

/// The bar chart of Phred-scaled accuracies: one bin per value below 40, then
/// one for 40 and more.
pub fn make_histogram_identities(phreds: &[usize]) -> (r: BarChart)
    ensures
        r.counts@.len() == 41,
        forall|k: int| 0 <= k < 40 ==> #[trigger] r.counts@[k] == value_count(phreds@, phreds@.len() as int, k),
        r.counts@[40] == count_from(phreds@, phreds@.len() as int, 40),
        r.dot_size == dots_for(phreds@.len() as int),
{
    BarChart { counts: capped_counts(phreds, 40), dot_size: dot_size(phreds.len()) }
}

/// The phase-block bar-chart bin of a block length: bins of 10,000 up to
/// 1,000,000 (lengths just below zero fall into the first), everything else in
/// the open-ended bin 100.
pub open spec fn phaseblock_bin(v: int) -> int {
    if 0 <= v < 1_000_000 {
        v / 10000
    } else if -10000 < v < 0 {
        0
    } else {
        100
    }
}

/// The bin of a phase-block length.
fn phaseblock_bin_of(v: i64) -> (r: usize)
    ensures
        r == phaseblock_bin(v as int),
        r <= 100,
{
    if 0 <= v && v < 1_000_000 {
        (v / 10000) as usize
    } else if -10000 < v && v < 0 {
        0
    } else {
        100
    }
}

/// Number of the first `n` block lengths in bin `k`.
pub open spec fn block_bin_count(s: Seq<i64>, n: int, k: int) -> int
    decreases n,
{
    if n <= 0 || s.len() == 0 {
        0
    } else {
        block_bin_count(s, n - 1, k) + if phaseblock_bin(s[n - 1] as int) == k {
            1int
        } else {
            0
        }
    }
}

/// The bar chart of phase-block lengths: 100 bins of 10,000 and the
/// open-ended bin from 1,000,000. The counts add up to the number of blocks.
pub fn make_histogram_phaseblocks(array: &[i64]) -> (r: BarChart)
    ensures
        r.counts@.len() == 101,
        forall|k: int| 0 <= k < 101 ==> #[trigger] r.counts@[k] == block_bin_count(array@, array@.len() as int, k),
        sum_usize(r.counts@, 101) == array@.len(),
        r.dot_size == dots_for(array@.len() as int),
{
    let mut counts: Vec<usize> = Vec::new();
    let mut k: usize = 0;
    while k < 101
        invariant
            k <= 101,
            counts@.len() == k,
            forall|j: int| 0 <= j < k ==> counts@[j] == 0,
            sum_usize(counts@, k as int) == 0,
        decreases 101 - k,
    {
        let ghost before = counts@;
        counts.push(0);
        proof {
            lemma_sum_by_same(before, counts@, of_usize(), k as int);
        }
        k = k + 1;
    }
    let mut i: usize = 0;
    while i < array.len()
        invariant
            i <= array@.len(),
            counts@.len() == 101,
            forall|j: int| 0 <= j < 101 ==> #[trigger] counts@[j] == block_bin_count(array@, i as int, j),
            sum_usize(counts@, 101) == i,
        decreases array.len() - i,
    {
        let b = phaseblock_bin_of(array[i]);
        proof {
            lemma_sum_by_bounded(counts@, of_usize(), 101, 101);
        }
        let c = counts[b];
        let ghost before = counts@;
        counts.set(b, c + 1);
        proof {
            lemma_sum_by_update(before, of_usize(), 101, b as int, (c + 1) as usize);
            assert forall|j: int| 0 <= j < 101 implies #[trigger] counts@[j] == block_bin_count(array@, i as int + 1, j) by {
                assert(before[j] == block_bin_count(array@, i as int, j));
            }
        }
        i = i + 1;
    }
    BarChart { counts, dot_size: dot_size(array.len()) }
}

/// The read-length bins for a text chart and how many reads (or, when
/// `scaled`, how many bases) one mark stands for; nothing for no reads.
pub fn make_histogram_lengths(array: &[u128], scaled: bool) -> (r: Option<(LengthHistogramData, u128)>)
    requires
        total(array@) <= u128::MAX,
    ensures
        r is None <==> array@.len() == 0,
        r matches Some(p) ==> length_data_of(array@, p.0),
        r matches Some(p) ==> p.1 == if scaled {
            dots_for(total(array@))
        } else {
            dots_for(array@.len() as int)
        },
{
    match compute_length_histogram_data(array) {
        None => None,
        Some(hist) => {
            let dots = if scaled {
                let mut all: u128 = hist.overflow_bases;
                let mut k: usize = 0;
                while k < hist.bases.len()
                    invariant
                        k <= hist.bases@.len(),
                        all == hist.overflow_bases + prefix_sum(hist.bases@, k as int),
                        prefix_sum(hist.bases@, hist.bases@.len() as int) + hist.overflow_bases == total(array@),
                        total(array@) <= u128::MAX,
                    decreases hist.bases.len() - k,
                {
                    proof {
                        lemma_sum_by_bounded(hist.bases@, of_u128(), k as int + 1, hist.bases@.len() as int);
                    }
                    all = all + hist.bases[k];
                    k = k + 1;
                }
                dot_size_bases(all)
            } else {
                dot_size_bases(array.len() as u128)
            };
            Some((hist, dots))
        },
    }
}

/// One row of the histogram table: bin start, bin end (none for the
/// open-ended bin) and the count or base weight.
pub type CountRow = (u64, Option<u64>, u128);

/// The rows of the read-length histogram table: one per bin with its count,
/// or its base weight when `scaled`, and the open-ended bin only when it holds
/// reads; nothing for no reads.
pub fn histogram_count_rows(array: &[u128], scaled: bool) -> (r: Option<Vec<CountRow>>)
    requires
        total(array@) <= u128::MAX,
    ensures
        r is None <==> array@.len() == 0,
        r matches Some(rows) ==> {
            let n = array@.len() as int;
            let m = length_upper_bound(max_prefix(array@, n));
            let over = count_at_least(array@, n, m);
            &&& rows@.len() == m / 2000 + if over > 0 { 1int } else { 0 }
            &&& forall|k: int|
                0 <= k < m / 2000 ==> #[trigger] rows@[k] == (
                    (2000 * k) as u64,
                    Some((2000 * k + 2000) as u64),
                    (if scaled {
                        range_bases(array@, n, 2000 * k, 2000 * k + 2000)
                    } else {
                        range_count(array@, n, 2000 * k, 2000 * k + 2000)
                    }) as u128,
                )
            &&& over > 0 ==> rows@[m / 2000] == (
                m as u64,
                None::<u64>,
                (if scaled { bases_at_least(array@, n, m) } else { over }) as u128,
            )
        },
{
    match compute_length_histogram_data(array) {
        None => None,
        Some(hist) => {
            let n = hist.counts.len();
            let mut rows: Vec<CountRow> = Vec::new();
            let mut k: usize = 0;
            while k < n
                invariant
                    n == hist.counts@.len(),
                    n == hist.bases@.len(),
                    n <= 30,
                    k <= n,
                    rows@.len() == k,
                    forall|j: int|
                        0 <= j < k ==> #[trigger] rows@[j] == (
                            (2000 * j) as u64,
                            Some((2000 * j + 2000) as u64),
                            (if scaled { hist.bases@[j] as int } else { hist.counts@[j] as int }) as u128,
                        ),
                decreases n - k,
            {
                let value: u128 = if scaled {
                    hist.bases[k]
                } else {
                    hist.counts[k] as u128
                };
                rows.push((k as u64 * 2000, Some((k as u64 + 1) * 2000), value));
                k = k + 1;
            }
            if hist.overflow_count > 0 {
                let value: u128 = if scaled {
                    hist.overflow_bases
                } else {
                    hist.overflow_count as u128
                };
                rows.push((hist.max_value, None, value));
            }
            proof {
                let len = array@.len() as int;
                assert forall|k: int| 0 <= k < hist.max_value / 2000 implies #[trigger] rows@[k] == (
                    (2000 * k) as u64,
                    Some((2000 * k + 2000) as u64),
                    (if scaled {
                        range_bases(array@, len, 2000 * k, 2000 * k + 2000)
                    } else {
                        range_count(array@, len, 2000 * k, 2000 * k + 2000)
                    }) as u128,
                ) by {
                    assert(hist.counts@[k] == range_count(array@, len, 2000 * k, 2000 * k + 2000));
                }
            }
            Some(rows)
        },
    }
}

} // verus!
