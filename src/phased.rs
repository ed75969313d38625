use vstd::prelude::*;
use crate::sorting::{le_record, sort_i64_descending, sort_records_ascending};
use crate::sums::{sum_i64, sum_ints};

verus! {

/// A phased read: (reference id, start, end, phase set).
pub type PhaseRecord = (i32, i64, i64, u32);

/// The records among the first `n` whose phase set is present, in input order.
pub open spec fn phased_prefix(
    tids: Seq<i32>,
    starts: Seq<i64>,
    ends: Seq<i64>,
    phasesets: Seq<Option<u32>>,
    n: int,
) -> Seq<PhaseRecord>
    decreases n,
{
    if n <= 0 {
        Seq::empty()
    } else {
        let rest = phased_prefix(tids, starts, ends, phasesets, n - 1);
        match phasesets[n - 1] {
            Some(p) => rest.push((tids[n - 1], starts[n - 1], ends[n - 1], p)),
            None => rest,
        }
    }
}

/// The records whose phase set is present, in input order.
pub open spec fn phased_records(
    tids: Seq<i32>,
    starts: Seq<i64>,
    ends: Seq<i64>,
    phasesets: Seq<Option<u32>>,
) -> Seq<PhaseRecord> {
    phased_prefix(tids, starts, ends, phasesets, phasesets.len() as int)
}

/// The lengths of the blocks from index `i` on, given the open block on
/// `chrom` with phase set `ps` that spans `start` to `end`.
pub open spec fn blocks_from(
    s: Seq<PhaseRecord>,
    i: int,
    chrom: i32,
    ps: u32,
    start: i64,
    end: i64,
) -> Seq<int>
    decreases s.len() - i,
{
    if i >= s.len() {
        seq![end - start]
    } else if s[i].0 == chrom && s[i].3 == ps {
        blocks_from(s, i + 1, chrom, ps, start, if s[i].2 > end { s[i].2 } else { end })
    } else {
        seq![end - start] + blocks_from(s, i + 1, s[i].0, s[i].3, s[i].1, s[i].2)
    }
}

/// The phase-block lengths of the sorted records `s`: consecutive records on
/// the same reference with the same phase set form one block, which spans from
/// its first record's start to the largest end among its records.
pub open spec fn phase_blocks(s: Seq<PhaseRecord>) -> Seq<int> {
    if s.len() == 0 {
        Seq::empty()
    } else {
        blocks_from(s, 1, s[0].0, s[0].3, s[0].1, s[0].2)
    }
}

/// Whether two records share reference and phase set.
pub open spec fn same_block_key(a: PhaseRecord, b: PhaseRecord) -> bool {
    a.0 == b.0 && a.3 == b.3
}

/// Number of indices `j` in `[1, n)` where the (reference, phase set) key
/// changes from `s[j - 1]` to `s[j]`.
pub open spec fn key_changes(s: Seq<PhaseRecord>, n: int) -> int
    decreases n,
{
    if n <= 1 {
        0
    } else {
        key_changes(s, n - 1) + if same_block_key(s[n - 2], s[n - 1]) {
            0int
        } else {
            1
        }
    }
}

/// Number of maximal runs of equal (reference, phase set) in `s`.
pub open spec fn key_runs(s: Seq<PhaseRecord>) -> int {
    if s.len() == 0 {
        0
    } else {
        1 + key_changes(s, s.len() as int)
    }
}

proof fn lemma_blocks_from_len(s: Seq<PhaseRecord>, i: int, chrom: i32, ps: u32, start: i64, end: i64)
    requires
        1 <= i <= s.len(),
        s[i - 1].0 == chrom,
        s[i - 1].3 == ps,
    ensures
        blocks_from(s, i, chrom, ps, start, end).len() == 1 + key_changes(s, s.len() as int)
            - key_changes(s, i),
    decreases s.len() - i,
{
    if i < s.len() {
        assert(key_changes(s, i + 1) == key_changes(s, i) + if same_block_key(s[i - 1], s[i]) {
            0int
        } else {
            1
        });
        if s[i].0 == chrom && s[i].3 == ps {
            lemma_blocks_from_len(
                s,
                i + 1,
                chrom,
                ps,
                start,
                if s[i].2 > end { s[i].2 } else { end },
            );
        } else {
            lemma_blocks_from_len(s, i + 1, s[i].0, s[i].3, s[i].1, s[i].2);
        }
    }
}

/// The number of phase blocks equals the number of maximal runs of equal
/// (reference, phase set) in the sorted records.
pub proof fn lemma_block_count_is_run_count(s: Seq<PhaseRecord>)
    ensures
        phase_blocks(s).len() == key_runs(s),
{
    if s.len() > 0 {
        lemma_blocks_from_len(s, 1, s[0].0, s[0].3, s[0].1, s[0].2);
    }
}

proof fn lemma_phased_member(
    tids: Seq<i32>,
    starts: Seq<i64>,
    ends: Seq<i64>,
    phasesets: Seq<Option<u32>>,
    n: int,
    m: int,
)
    requires
        0 <= n <= phasesets.len(),
        0 <= m < phased_prefix(tids, starts, ends, phasesets, n).len(),
    ensures
        exists|j: int|
            0 <= j < n && phased_prefix(tids, starts, ends, phasesets, n)[m].1 == starts[j]
                && phased_prefix(tids, starts, ends, phasesets, n)[m].2 == ends[j],
    decreases n,
{
    let rest = phased_prefix(tids, starts, ends, phasesets, n - 1);
    if m < rest.len() {
        lemma_phased_member(tids, starts, ends, phasesets, n - 1, m);
        let j = choose|j: int| 0 <= j < n - 1 && rest[m].1 == starts[j] && rest[m].2 == ends[j];
        assert(phased_prefix(tids, starts, ends, phasesets, n)[m] == rest[m]);
    } else {
        assert(phased_prefix(tids, starts, ends, phasesets, n)[m].1 == starts[n - 1]);
    }
}

/// Whether `r` holds exactly the phase-block lengths of the sorted phased
/// records.
pub open spec fn phase_blocks_of(
    tids: Seq<i32>,
    starts: Seq<i64>,
    ends: Seq<i64>,
    phasesets: Seq<Option<u32>>,
    r: Seq<i64>,
) -> bool {
    let b = phase_blocks(phased_records(tids, starts, ends, phasesets).sort_by(le_record()));
    &&& r.len() == b.len()
    &&& forall|i: int| 0 <= i < r.len() ==> r[i] as int == #[trigger] b[i]
}

/// Whether index `i` holds the last record of its run of equal (reference,
/// phase set).
pub open spec fn ends_run(s: Seq<PhaseRecord>, i: int) -> bool {
    i == s.len() - 1 || !same_block_key(s[i], s[i + 1])
}

/// Index of the first record of the run that holds index `i`.
pub open spec fn run_first(s: Seq<PhaseRecord>, i: int) -> int
    decreases i,
{
    if i <= 0 {
        0
    } else if same_block_key(s[i - 1], s[i]) {
        run_first(s, i - 1)
    } else {
        i
    }
}

/// Largest end among the records of the run of index `i`, up to `i`.
pub open spec fn run_end(s: Seq<PhaseRecord>, i: int) -> int
    decreases i,
{
    if i <= 0 {
        s[0].2 as int
    } else if same_block_key(s[i - 1], s[i]) {
        if s[i].2 > run_end(s, i - 1) {
            s[i].2 as int
        } else {
            run_end(s, i - 1)
        }
    } else {
        s[i].2 as int
    }
}

/// Sum, over the runs that end among the first `n` records, of their spans:
/// from the run's first start to its largest end.
pub open spec fn run_spans(s: Seq<PhaseRecord>, n: int) -> int
    decreases n,
{
    if n <= 0 {
        0
    } else {
        run_spans(s, n - 1) + if ends_run(s, n - 1) {
            run_end(s, n - 1) - s[run_first(s, n - 1)].1
        } else {
            0
        }
    }
}

proof fn lemma_sum_ints_cons(x: int, q: Seq<int>, k: int)
    requires
        0 <= k <= q.len(),
    ensures
        sum_ints(seq![x] + q, k + 1) == x + sum_ints(q, k),
    decreases k,
{
    let c = seq![x] + q;
    assert(c.len() == q.len() + 1);
    if k > 0 {
        lemma_sum_ints_cons(x, q, k - 1);
        assert(c[k] == q[k - 1]);
        assert(sum_ints(c, k + 1) == sum_ints(c, k) + c[k]);
        assert(sum_ints(q, k) == sum_ints(q, k - 1) + q[k - 1]);
    } else {
        assert(c[0] == x);
        assert(sum_ints(c, 1) == sum_ints(c, 0) + c[0]);
    }
}

proof fn lemma_blocks_from_sum(s: Seq<PhaseRecord>, i: int, chrom: i32, ps: u32, start: i64, end: i64)
    requires
        1 <= i <= s.len(),
        s[i - 1].0 == chrom,
        s[i - 1].3 == ps,
        start == s[run_first(s, i - 1)].1,
        end == run_end(s, i - 1),
    ensures
        sum_ints(blocks_from(s, i, chrom, ps, start, end), blocks_from(s, i, chrom, ps, start, end).len() as int)
            == run_spans(s, s.len() as int) - run_spans(s, i - 1),
    decreases s.len() - i,
{
    let b = blocks_from(s, i, chrom, ps, start, end);
    if i >= s.len() {
        assert(b == seq![end - start]);
        assert(ends_run(s, i - 1));
        assert(sum_ints(b, 1) == sum_ints(b, 0) + b[0]);
    } else if s[i].0 == chrom && s[i].3 == ps {
        let e = if s[i].2 > end { s[i].2 } else { end };
        assert(same_block_key(s[i - 1], s[i]));
        assert(run_first(s, i) == run_first(s, i - 1));
        assert(run_end(s, i) == e);
        assert(!ends_run(s, i - 1));
        lemma_blocks_from_sum(s, i + 1, chrom, ps, start, e);
    } else {
        let rest = blocks_from(s, i + 1, s[i].0, s[i].3, s[i].1, s[i].2);
        assert(!same_block_key(s[i - 1], s[i]));
        assert(run_first(s, i) == i);
        assert(run_end(s, i) == s[i].2);
        assert(ends_run(s, i - 1));
        lemma_blocks_from_sum(s, i + 1, s[i].0, s[i].3, s[i].1, s[i].2);
        assert(b == seq![end - start] + rest);
        lemma_sum_ints_cons(end - start, rest, rest.len() as int);
    }
}

/// The phase-block lengths of any input, as `phase_metrics` returns them,
/// number as many as the maximal runs of equal (reference, phase set) among
/// the sorted phased reads, and add up to the sum of those runs' spans (each
/// from the run's first start to its largest end): the total bases phased.
pub proof fn lemma_phase_blocks_law(
    tids: Seq<i32>,
    starts: Seq<i64>,
    ends: Seq<i64>,
    phasesets: Seq<Option<u32>>,
    r: Seq<i64>,
)
    requires
        phase_blocks_of(tids, starts, ends, phasesets, r),
    ensures
        ({
            let s = phased_records(tids, starts, ends, phasesets).sort_by(le_record());
            &&& r.len() == key_runs(s)
            &&& sum_i64(r, r.len() as int) == run_spans(s, s.len() as int)
        }),
{
    let s = phased_records(tids, starts, ends, phasesets).sort_by(le_record());
    let b = phase_blocks(s);
    lemma_block_count_is_run_count(s);
    lemma_sum_i64_ints(r, b, r.len() as int);
    if s.len() > 0 {
        assert(run_first(s, 0) == 0);
        lemma_blocks_from_sum(s, 1, s[0].0, s[0].3, s[0].1, s[0].2);
    }
}

proof fn lemma_sum_i64_ints(r: Seq<i64>, b: Seq<int>, n: int)
    requires
        0 <= n <= r.len(),
        r.len() == b.len(),
        forall|i: int| 0 <= i < r.len() ==> r[i] as int == #[trigger] b[i],
    ensures
        sum_i64(r, n) == sum_ints(b, n),
    decreases n,
{
    if n > 0 {
        lemma_sum_i64_ints(r, b, n - 1);
    }
}

/// Whether every end minus every start fits in a signed 64-bit integer.
pub open spec fn spans_fit(starts: Seq<i64>, ends: Seq<i64>) -> bool {
    forall|a: int, b: int|
        0 <= a < ends.len() && 0 <= b < starts.len() ==> i64::MIN <= #[trigger] ends[a]
            - #[trigger] starts[b] <= i64::MAX
}

/// Lengths of the phase blocks of the reads that carry a phase set: the phased
/// reads are sorted by (reference, start, end, phase set), and consecutive
/// reads on the same reference with the same phase set are merged into one
/// block spanning from its first start to its largest end. No phased read
/// gives no blocks.
pub fn phase_metrics(
    tids: &[i32],
    starts: &[i64],
    ends: &[i64],
    phasesets: &[Option<u32>],
) -> (r: Vec<i64>)
    requires
        tids@.len() == phasesets@.len(),
        starts@.len() == phasesets@.len(),
        ends@.len() == phasesets@.len(),
        spans_fit(starts@, ends@),
    ensures
        phase_blocks_of(tids@, starts@, ends@, phasesets@, r@),
{
    let n = phasesets.len();
    let mut reads: Vec<PhaseRecord> = Vec::new();
    let mut k: usize = 0;
    while k < n
        invariant
            n == phasesets@.len(),
            tids@.len() == n,
            starts@.len() == n,
            ends@.len() == n,
            k <= n,
            reads@ == phased_prefix(tids@, starts@, ends@, phasesets@, k as int),
        decreases n - k,
    {
        match phasesets[k] {
            Some(p) => {
                reads.push((tids[k], starts[k], ends[k], p));
            },
            None => {},
        }
        k = k + 1;
    }
    let ghost unsorted = reads@;
    sort_records_ascending(&mut reads);
    let ghost s = reads@;
    let mut blocks: Vec<i64> = Vec::new();
    if reads.len() == 0 {
        return blocks;
    }
    proof {
        broadcast use vstd::seq_lib::group_to_multiset_ensures;

        s.lemma_sort_by_ensures(le_record());
        crate::sorting::lemma_record_order_total();
        assert forall|a: int, b: int| 0 <= a < s.len() && 0 <= b < s.len() implies i64::MIN
            <= #[trigger] s[a].2 - #[trigger] s[b].1 <= i64::MAX by {
            unsorted.lemma_sort_by_ensures(le_record());
            assert(unsorted.to_multiset().count(s[a]) > 0);
            assert(unsorted.to_multiset().count(s[b]) > 0);
            assert(unsorted.contains(s[a]));
            assert(unsorted.contains(s[b]));
            let ia = choose|ia: int| 0 <= ia < unsorted.len() && unsorted[ia] == s[a];
            let ib = choose|ib: int| 0 <= ib < unsorted.len() && unsorted[ib] == s[b];
            lemma_phased_member(tids@, starts@, ends@, phasesets@, n as int, ia);
            lemma_phased_member(tids@, starts@, ends@, phasesets@, n as int, ib);
            let ja = choose|ja: int| 0 <= ja < n && unsorted[ia].1 == starts@[ja] && unsorted[ia].2 == ends@[ja];
            let jb = choose|jb: int| 0 <= jb < n && unsorted[ib].1 == starts@[jb] && unsorted[ib].2 == ends@[jb];
            assert(i64::MIN <= ends@[ja] - starts@[jb] <= i64::MAX);
        }
    }
    let (mut chrom, mut block_start, mut block_end, mut ps) = reads[0];
    let ghost mut a: int = 0;
    let ghost mut b: int = 0;
    let mut i: usize = 1;
    while i < reads.len()
        invariant
            s == reads@,
            s.len() > 0,
            1 <= i <= s.len(),
            0 <= a < s.len(),
            0 <= b < s.len(),
            block_start == s[a].1,
            block_end == s[b].2,
            s[i - 1].0 == chrom,
            s[i - 1].3 == ps,
            forall|x: int, y: int| 0 <= x < s.len() && 0 <= y < s.len() ==> i64::MIN
                <= #[trigger] s[x].2 - #[trigger] s[y].1 <= i64::MAX,
            phase_blocks(s) == blocks@.map_values(|v: i64| v as int) + blocks_from(
                s,
                i as int,
                chrom,
                ps,
                block_start,
                block_end,
            ),
        decreases s.len() - i,
    {
        let (c, st, en, p) = reads[i];
        if c == chrom && p == ps {
            if en > block_end {
                block_end = en;
                proof {
                    b = i as int;
                }
            }
        } else {
            let span = block_end - block_start;
            let ghost before = blocks@;
            blocks.push(span);
            proof {
                assert(blocks@.map_values(|v: i64| v as int) =~= before.map_values(|v: i64| v as int)
                    + seq![span as int]);
                assert(before.map_values(|v: i64| v as int) + (seq![span as int] + blocks_from(
                    s,
                    i as int + 1,
                    c,
                    p,
                    st,
                    en,
                )) =~= (before.map_values(|v: i64| v as int) + seq![span as int]) + blocks_from(
                    s,
                    i as int + 1,
                    c,
                    p,
                    st,
                    en,
                ));
                a = i as int;
                b = i as int;
            }
            chrom = c;
            block_start = st;
            block_end = en;
            ps = p;
        }
        i = i + 1;
    }
    let span = block_end - block_start;
    let ghost before = blocks@;
    blocks.push(span);
    proof {
        assert(blocks@.map_values(|v: i64| v as int) =~= before.map_values(|v: i64| v as int)
            + seq![span as int]);
    }
    blocks
}

/// The value at which the running sum from index `i` on first exceeds half of
/// `bases`, or the last value when it never does.
pub open spec fn n50_from(s: Seq<i64>, i: int, bases: int) -> int
    decreases s.len() - i,
{
    if i >= s.len() - 1 {
        s.last() as int
    } else if 2 * sum_i64(s, i + 1) > bases {
        s[i] as int
    } else {
        n50_from(s, i + 1, bases)
    }
}

proof fn lemma_sum_i64_bounds(s: Seq<i64>, k: int)
    requires
        0 <= k <= s.len(),
    ensures
        -k * 0x8000_0000_0000_0000 <= sum_i64(s, k) <= k * 0x8000_0000_0000_0000,
    decreases k,
{
    if k > 0 {
        lemma_sum_i64_bounds(s, k - 1);
    }
}

/// The N50 of `lengths`, expected in descending order: the first value at which
/// the running sum exceeds half of `nb_bases_total`, or the last value when it
/// never does.
pub fn get_n50(lengths: &[i64], nb_bases_total: i64) -> (r: i64)
    requires
        lengths@.len() > 0,
    ensures
        r == n50_from(lengths@, 0, nb_bases_total as int),
{
    let len = lengths.len();
    let t = nb_bases_total as i128;
    let half: i128 = if t >= 0 {
        t / 2
    } else {
        -((1 - t) / 2)
    };
    assert(half == (nb_bases_total as int) / 2);
    let mut acc: i128 = 0;
    let mut i: usize = 0;
    while i + 1 < len
        invariant
            len == lengths@.len(),
            0 <= i < len,
            acc == sum_i64(lengths@, i as int),
            half == (nb_bases_total as int) / 2,
            n50_from(lengths@, 0, nb_bases_total as int) == n50_from(
                lengths@,
                i as int,
                nb_bases_total as int,
            ),
        decreases len - i,
    {
        proof {
            lemma_sum_i64_bounds(lengths@, i as int + 1);
            assert((i as int + 1) * 0x8000_0000_0000_0000 <= 0x1_0000_0000_0000_0000int
                * 0x8000_0000_0000_0000) by (nonlinear_arith)
                requires
                    i as int + 1 <= 0x1_0000_0000_0000_0000int,
            ;
        }
        acc = acc + lengths[i] as i128;
        assert(acc == sum_i64(lengths@, i as int + 1));
        if acc > half {
            return lengths[i];
        }
        i = i + 1;
    }
    lengths[len - 1]
}

/// Figures over the phase blocks of one run.
pub struct PhaseSummary {
    /// Number of blocks.
    pub num_phaseblocks: usize,
    /// Sum of the block lengths.
    pub total_bases_phased: i64,
    /// The two central block lengths in order of size (equal for an odd count);
    /// the median block length is their mean.
    pub median_pair: (i64, i64),
    /// The N50 of the block lengths, taken in descending order.
    pub n50_phaseblock_length: i64,
}

/// Number of blocks, their total length, their median pair and their N50; no
/// summary for an empty block list.
pub fn summarize_phase_blocks(blocks: &Vec<i64>) -> (r: Option<PhaseSummary>)
    requires
        i64::MIN <= sum_i64(blocks@, blocks@.len() as int) <= i64::MAX,
    ensures
        r is None <==> blocks@.len() == 0,
        r matches Some(p) ==> {
            let d = blocks@.sort_by(crate::sorting::ge_i64());
            &&& p.num_phaseblocks == blocks@.len()
            &&& p.total_bases_phased == sum_i64(blocks@, blocks@.len() as int)
            &&& p.median_pair == (d[(d.len() - 1) / 2], d[d.len() as int / 2])
            &&& p.n50_phaseblock_length == n50_from(d, 0, p.total_bases_phased as int)
        },
{
    if blocks.len() == 0 {
        return None;
    }
    let mut acc: i128 = 0;
    let mut i: usize = 0;
    while i < blocks.len()
        invariant
            i <= blocks@.len(),
            acc == sum_i64(blocks@, i as int),
        decreases blocks.len() - i,
    {
        proof {
            lemma_sum_i64_bounds(blocks@, i as int + 1);
            assert((i as int + 1) * 0x8000_0000_0000_0000 <= 0x1_0000_0000_0000_0000int
                * 0x8000_0000_0000_0000) by (nonlinear_arith)
                requires
                    i as int + 1 <= 0x1_0000_0000_0000_0000int,
            ;
        }
        acc = acc + blocks[i] as i128;
        i = i + 1;
    }
    let total = acc as i64;
    let mut sorted = blocks.clone();
    assert(sorted@ == blocks@);
    sort_i64_descending(&mut sorted);
    proof {
        blocks@.lemma_sort_by_ensures(crate::sorting::ge_i64());
        crate::sorting::lemma_integer_orders_total();
    }
    assert(sorted@.len() == blocks@.len()) by {
        vstd::seq_lib::to_multiset_len(sorted@);
        vstd::seq_lib::to_multiset_len(blocks@);
    }
    let pair = crate::calculations::central_pair(sorted.as_slice());
    let n50 = get_n50(sorted.as_slice(), total);
    Some(PhaseSummary {
        num_phaseblocks: blocks.len(),
        total_bases_phased: total,
        median_pair: pair,
        n50_phaseblock_length: n50,
    })
}

} // verus!
