use vstd::prelude::*;
use crate::calculations::{
    calculate_data_yield, central_pair, get_n, long_yield, median_floor, median_splice, nx, total,
};
use crate::sorting::{le_usize, sort_usize_ascending};
use crate::sums::{sum_u64, sum_usize};

verus! {

/// Read-length figures of one run; yields in bases.
#[derive(Clone, Copy, Debug, PartialEq, Eq)]
pub struct ReadSummary {
    pub num_alignments: usize,
    pub num_reads: usize,
    pub all_counts: usize,
    pub data_yield: u128,
    pub data_yield_long: u128,
    pub n50: u128,
    pub n75: u128,
    /// The two central lengths; the median length is their mean.
    pub median_pair: (u128, u128),
}

/// The read-length figures of accepted reads with the given lengths (in
/// descending order), primary reads and observed records; none for no reads.
pub fn summarize_reads(lengths: &[u128], num_reads: usize, all_counts: usize) -> (r: Option<ReadSummary>)
    requires
        total(lengths@) <= u128::MAX,
    ensures
        r is None <==> lengths@.len() == 0,
        r matches Some(s) ==> {
            let n = lengths@.len() as int;
            &&& s.num_alignments == n
            &&& s.num_reads == num_reads
            &&& s.all_counts == all_counts
            &&& s.data_yield == total(lengths@)
            &&& s.data_yield_long == long_yield(lengths@, n)
            &&& s.n50 == nx(lengths@, total(lengths@), 1, 2)
            &&& s.n75 == nx(lengths@, total(lengths@), 3, 4)
            &&& s.median_pair == (lengths@[(n - 1) / 2], lengths@[n / 2])
        },
{
    if lengths.len() == 0 {
        return None;
    }
    let (data_yield, data_yield_long) = calculate_data_yield(lengths);
    let n50 = get_n(lengths, data_yield, 1, 2);
    let n75 = get_n(lengths, data_yield, 3, 4);
    let median_pair = central_pair(lengths);
    Some(ReadSummary {
        num_alignments: lengths.len(),
        num_reads,
        all_counts,
        data_yield,
        data_yield_long,
        n50,
        n75,
        median_pair,
    })
}

/// Number of the first `k` counts that equal one.
pub open spec fn ones(s: Seq<usize>, k: int) -> int
    decreases k,
{
    if k <= 0 || s.len() == 0 {
        0
    } else {
        ones(s, k - 1) + if s[k - 1] == 1 {
            1int
        } else {
            0
        }
    }
}

/// Exon figures of one run: the mean is `total_exons / num_reads`, the
/// unspliced fraction `num_single_exon / num_reads`.
#[derive(Clone, Copy, Debug, PartialEq, Eq)]
pub struct SpliceSummary {
    pub median_exons: usize,
    pub total_exons: u128,
    pub num_single_exon: usize,
    pub num_reads: usize,
}

/// The exon figures of reads with the given exon counts, in any order: the
/// median is taken over the sorted counts. None for no reads.
pub fn splice_summary(exons: &Vec<usize>) -> (r: Option<SpliceSummary>)
    ensures
        r is None <==> exons@.len() == 0,
        r matches Some(s) ==> {
            let n = exons@.len() as int;
            &&& s.median_exons == median_floor(exons@.sort_by(le_usize()))
            &&& s.total_exons == sum_usize(exons@, n)
            &&& s.num_single_exon == ones(exons@, n)
            &&& s.num_reads == n
        },
{
    let n = exons.len();
    if n == 0 {
        return None;
    }
    let mut sum: u128 = 0;
    let mut single: usize = 0;
    let mut i: usize = 0;
    while i < n
        invariant
            n == exons@.len(),
            i <= n,
            sum == sum_usize(exons@, i as int),
            sum <= i * 0x1_0000_0000_0000_0000,
            single == ones(exons@, i as int),
            single <= i,
        decreases n - i,
    {
        proof {
            assert(i * 0x1_0000_0000_0000_0000 + 0x1_0000_0000_0000_0000 <= 0x1_0000_0000_0000_0000int
                * 0x1_0000_0000_0000_0000) by (nonlinear_arith)
                requires
                    i < 0x1_0000_0000_0000_0000int,
            ;
        }
        sum = sum + exons[i] as u128;
        if exons[i] == 1 {
            single = single + 1;
        }
        i = i + 1;
    }
    let mut sorted = exons.clone();
    assert(sorted@ == exons@);
    sort_usize_ascending(&mut sorted);
    assert(sorted@.len() == n) by {
        crate::sorting::lemma_integer_orders_total();
        exons@.lemma_sort_by_ensures(le_usize());
        vstd::seq_lib::to_multiset_len(sorted@);
        vstd::seq_lib::to_multiset_len(exons@);
    }
    let median_exons = median_splice(sorted.as_slice());
    Some(SpliceSummary { median_exons, total_exons: sum, num_single_exon: single, num_reads: n })
}

/// The median of sorted counts does not depend on the order of the input:
/// two sequences that hold the same counts have the same median once sorted.
pub proof fn lemma_median_order_independent(a: Seq<usize>, b: Seq<usize>)
    requires
        a.to_multiset() == b.to_multiset(),
    ensures
        median_floor(a.sort_by(le_usize())) == median_floor(b.sort_by(le_usize())),
{
    crate::sorting::lemma_integer_orders_total();
    a.lemma_sort_by_ensures(le_usize());
    b.lemma_sort_by_ensures(le_usize());
    vstd::seq_lib::lemma_sorted_unique(a.sort_by(le_usize()), b.sort_by(le_usize()), le_usize());
}

/// Number of the first `k` records that carry a phase set.
pub open spec fn phased_count(s: Seq<Option<u32>>, k: int) -> int
    decreases k,
{
    if k <= 0 || s.len() == 0 {
        0
    } else {
        phased_count(s, k - 1) + if s[k - 1] is Some {
            1int
        } else {
            0
        }
    }
}

/// Number of records that carry a phase set.
pub fn count_phased(phasesets: &[Option<u32>]) -> (r: usize)
    ensures
        r == phased_count(phasesets@, phasesets@.len() as int),
{
    let mut count: usize = 0;
    let mut i: usize = 0;
    while i < phasesets.len()
        invariant
            i <= phasesets@.len(),
            count == phased_count(phasesets@, i as int),
            count <= i,
        decreases phasesets.len() - i,
    {
        if phasesets[i].is_some() {
            count = count + 1;
        }
        i = i + 1;
    }
    count
}

/// The genome size: the sum of the reference sequence lengths.
pub fn get_genome_size(reference_lengths: &[u64]) -> (r: u128)
    ensures
        r == sum_u64(reference_lengths@, reference_lengths@.len() as int),
{
    let mut size: u128 = 0;
    let mut i: usize = 0;
    while i < reference_lengths.len()
        invariant
            i <= reference_lengths@.len(),
            size == sum_u64(reference_lengths@, i as int),
            size <= i * 0x1_0000_0000_0000_0000,
        decreases reference_lengths.len() - i,
    {
        proof {
            assert(i * 0x1_0000_0000_0000_0000 + 0x1_0000_0000_0000_0000 <= 0x1_0000_0000_0000_0000int
                * 0x1_0000_0000_0000_0000) by (nonlinear_arith)
                requires
                    i < 0x1_0000_0000_0000_0000int,
            ;
        }
        size = size + reference_lengths[i] as u128;
        i = i + 1;
    }
    size
}

} // verus!
