use vstd::prelude::*;
use crate::calculations::{lemma_total_permutation, total};
use crate::derivation::{
    effective_length, get_exon_number, get_phaseset, leading_softclips, phaseset_of, ref_skips,
    trailing_softclips, AuxValue, CigarOp, DerivationError,
};
use crate::filter::{admits, has_flag, is_secondary, is_supplementary, FilterPolicy, FLAG_SECONDARY, FLAG_SUPPLEMENTARY};
use crate::histograms::{qscore_bucket, QScoreHistogramData};
use crate::sums::{lemma_sum_by_bounded, lemma_sum_by_push, of_u128, of_u64, prefix_sum, sum_u64};
use crate::sorting::{ge_u128, sort_u128_descending};

verus! {

/// Which metric families are collected besides the read lengths.
#[derive(Clone, Copy, Debug, PartialEq, Eq)]
pub struct MetricConfig {
    /// Identities (as Q-score bins); off for unaligned reads.
    pub identities: bool,
    /// Reference ids, for per-chromosome counts.
    pub reference_ids: bool,
    /// Reference ids, positions and phase sets.
    pub phasing: bool,
    /// Exon counts.
    pub splicing: bool,
}

/// What the record source tells of one record.
#[derive(Debug)]
pub struct RecordObservation {
    pub flags: u16,
    pub seq_len: usize,
    pub cigar: Vec<CigarOp>,
    pub tid: i32,
    pub pos: i64,
    pub reference_end: i64,
    pub phase_tag: Option<AuxValue>,
    /// Phred value of the read's identity, or why it could not be derived;
    /// read only when identities are collected.
    pub phred: Result<usize, DerivationError>,
}

/// The collected metrics of one pass, lengths in descending order.
pub struct Data {
    pub lengths: Option<Vec<u128>>,
    pub num_reads: usize,
    pub all_counts: usize,
    pub q_score_hist: Option<QScoreHistogramData>,
    pub tids: Option<Vec<i32>>,
    pub starts: Option<Vec<i64>>,
    pub ends: Option<Vec<i64>>,
    pub phasesets: Option<Vec<Option<u32>>>,
    pub exons: Option<Vec<usize>>,
}

impl Data {
    /// The lengths sum to a 128-bit value, the Q-score bins are complete and
    /// the phasing sequences run in lock-step.
    pub open spec fn wf(&self) -> bool {
        &&& self.lengths matches Some(l) ==> total(l@) <= u128::MAX
        &&& self.q_score_hist matches Some(q) ==> q.wf()
        &&& self.phasesets matches Some(p) ==> {
            &&& self.tids matches Some(t) && t@.len() == p@.len()
            &&& self.starts matches Some(s) && s@.len() == p@.len()
            &&& self.ends matches Some(e) && e@.len() == p@.len()
        }
    }
}

/// Collects the metrics of accepted records in one pass.
pub struct Accumulator {
    pub config: MetricConfig,
    pub policy: FilterPolicy,
    pub lengths: Vec<u128>,
    pub num_reads: usize,
    pub all_counts: usize,
    pub skipped: usize,
    /// Sum of the collected lengths.
    pub total_bases: u128,
    pub q_score: QScoreHistogramData,
    pub tids: Vec<i32>,
    pub starts: Vec<i64>,
    pub ends: Vec<i64>,
    pub phasesets: Vec<Option<u32>>,
    pub exons: Vec<usize>,
}

/// The effective length of the record.
pub open spec fn record_length(rec: RecordObservation) -> int {
    rec.seq_len - leading_softclips(rec.cigar@) - trailing_softclips(rec.cigar@)
}

/// Why an admitted record yields no observation, if it does not.
pub open spec fn record_error(config: MetricConfig, rec: RecordObservation) -> Option<DerivationError> {
    if record_length(rec) < 0 {
        Some(DerivationError::NegativeLength)
    } else if config.phasing && phaseset_of(rec.phase_tag) is Err {
        Some(phaseset_of(rec.phase_tag)->Err_0)
    } else if config.identities && rec.phred is Err {
        Some(rec.phred->Err_0)
    } else {
        None
    }
}

impl Accumulator {
    /// The per-record sequences run in lock-step with the lengths, and the
    /// Q-score bins count exactly the accepted records when identities are
    /// collected.
    pub open spec fn wf(&self) -> bool {
        let n = self.lengths@.len();
        &&& self.q_score.wf()
        &&& n + self.skipped <= self.all_counts
        &&& self.num_reads <= n
        &&& self.tids@.len() == if self.config.reference_ids || self.config.phasing { n } else { 0 }
        &&& self.starts@.len() == if self.config.phasing { n } else { 0 }
        &&& self.ends@.len() == if self.config.phasing { n } else { 0 }
        &&& self.phasesets@.len() == if self.config.phasing { n } else { 0 }
        &&& self.exons@.len() == if self.config.splicing { n } else { 0 }
        &&& self.total_bases == total(self.lengths@)
        &&& sum_u64(self.q_score.counts@, 41) == if self.config.identities { n as int } else { 0 }
        &&& prefix_sum(self.q_score.bases@, 41) == if self.config.identities { total(self.lengths@) } else { 0 }
    }

    /// An accumulator with nothing collected.
    pub fn new(config: MetricConfig, policy: FilterPolicy) -> (r: Self)
        ensures
            r.wf(),
            r.config == config,
            r.policy == policy,
            r.lengths@.len() == 0,
            r.num_reads == 0,
            r.all_counts == 0,
            r.skipped == 0,
            r.total_bases == 0,
    {
        Accumulator {
            config,
            policy,
            lengths: Vec::new(),
            num_reads: 0,
            all_counts: 0,
            skipped: 0,
            total_bases: 0,
            q_score: QScoreHistogramData::new(),
            tids: Vec::new(),
            starts: Vec::new(),
            ends: Vec::new(),
            phasesets: Vec::new(),
            exons: Vec::new(),
        }
    }

    /// Takes in one record. Secondary alignments are ignored (`Ok(false)`).
    /// Every other record is counted as observed; one that the policy refuses
    /// gives `Ok(false)`. An admitted record whose derivation fails is counted
    /// as skipped and gives the error; otherwise its effective length and each
    /// enabled metric are appended together, primary reads are counted, and
    /// the result is `Ok(true)`.
    pub fn observe(&mut self, rec: &RecordObservation) -> (r: Result<bool, DerivationError>)
        requires
            old(self).wf(),
            old(self).all_counts < usize::MAX,
            old(self).total_bases + rec.seq_len <= u128::MAX,
            rec.cigar@.len() < usize::MAX,
        ensures
            final(self).wf(),
            final(self).config == old(self).config,
            final(self).policy == old(self).policy,
            has_flag(rec.flags, FLAG_SECONDARY) ==> r == Ok::<bool, DerivationError>(false) && *final(self) == *old(self),
            !has_flag(rec.flags, FLAG_SECONDARY) ==> final(self).all_counts == old(self).all_counts + 1,
            !has_flag(rec.flags, FLAG_SECONDARY) && !admits(old(self).policy, rec.flags, rec.seq_len) ==> {
                &&& r == Ok::<bool, DerivationError>(false)
                &&& *final(self) == (Accumulator { all_counts: (old(self).all_counts + 1) as usize, ..*old(self) })
            },
            !has_flag(rec.flags, FLAG_SECONDARY) && admits(old(self).policy, rec.flags, rec.seq_len)
                && record_error(old(self).config, *rec) is Some ==> {
                &&& r == Err::<bool, DerivationError>(record_error(old(self).config, *rec)->Some_0)
                &&& *final(self) == (Accumulator {
                    all_counts: (old(self).all_counts + 1) as usize,
                    skipped: (old(self).skipped + 1) as usize,
                    ..*old(self)
                })
            },
            !has_flag(rec.flags, FLAG_SECONDARY) && admits(old(self).policy, rec.flags, rec.seq_len)
                && record_error(old(self).config, *rec) is None ==> {
                let c = old(self).config;
                &&& r == Ok::<bool, DerivationError>(true)
                &&& final(self).lengths@ == old(self).lengths@.push(record_length(*rec) as u128)
                &&& final(self).skipped == old(self).skipped
                &&& final(self).num_reads == old(self).num_reads + if has_flag(rec.flags, FLAG_SUPPLEMENTARY) { 0int } else { 1 }
                &&& final(self).tids@ == if c.reference_ids || c.phasing { old(self).tids@.push(rec.tid) } else { old(self).tids@ }
                &&& final(self).starts@ == if c.phasing { old(self).starts@.push(rec.pos) } else { old(self).starts@ }
                &&& final(self).ends@ == if c.phasing { old(self).ends@.push(rec.reference_end) } else { old(self).ends@ }
                &&& final(self).phasesets@ == if c.phasing {
                    old(self).phasesets@.push(phaseset_of(rec.phase_tag)->Ok_0)
                } else {
                    old(self).phasesets@
                }
                &&& final(self).exons@ == if c.splicing {
                    old(self).exons@.push((1 + ref_skips(rec.cigar@, rec.cigar@.len() as int)) as usize)
                } else {
                    old(self).exons@
                }
                &&& final(self).q_score.counts@ == if c.identities {
                    old(self).q_score.counts@.update(
                        qscore_bucket(rec.phred->Ok_0 as int),
                        (old(self).q_score.counts@[qscore_bucket(rec.phred->Ok_0 as int)] + 1) as u64,
                    )
                } else {
                    old(self).q_score.counts@
                }
                &&& final(self).q_score.bases@ == if c.identities {
                    old(self).q_score.bases@.update(
                        qscore_bucket(rec.phred->Ok_0 as int),
                        (old(self).q_score.bases@[qscore_bucket(rec.phred->Ok_0 as int)]
                            + record_length(*rec)) as u128,
                    )
                } else {
                    old(self).q_score.bases@
                }
            },
    {
        if is_secondary(rec.flags) {
            return Ok(false);
        }
        self.all_counts = self.all_counts + 1;
        if !self.policy.passes(rec.flags, rec.seq_len) {
            return Ok(false);
        }
        let length = match effective_length(rec.seq_len, rec.cigar.as_slice()) {
            Ok(v) => v,
            Err(e) => {
                self.skipped = self.skipped + 1;
                return Err(e);
            },
        };
        let mut phaseset: Option<u32> = None;
        if self.config.phasing {
            match get_phaseset(rec.phase_tag) {
                Ok(p) => {
                    phaseset = p;
                },
                Err(e) => {
                    self.skipped = self.skipped + 1;
                    return Err(e);
                },
            }
        }
        let mut phred: usize = 0;
        if self.config.identities {
            match rec.phred {
                Ok(p) => {
                    phred = p;
                },
                Err(e) => {
                    self.skipped = self.skipped + 1;
                    return Err(e);
                },
            }
        }
        proof {
            lemma_total_push(self.lengths@, length);
            if self.config.identities {
                lemma_sum_by_bounded(self.q_score.counts@, of_u64(), 41, 41);
                lemma_sum_by_bounded(self.q_score.bases@, of_u128(), 41, 41);
            }
        }
        if self.config.identities {
            self.q_score.add(phred, length);
        }
        self.lengths.push(length);
        self.total_bases = self.total_bases + length;
        if !is_supplementary(rec.flags) {
            self.num_reads = self.num_reads + 1;
        }
        if self.config.reference_ids || self.config.phasing {
            self.tids.push(rec.tid);
        }
        if self.config.phasing {
            self.starts.push(rec.pos);
            self.ends.push(rec.reference_end);
            self.phasesets.push(phaseset);
        }
        if self.config.splicing {
            let exons = get_exon_number(rec.cigar.as_slice());
            self.exons.push(exons);
        }
        Ok(true)
    }

    /// The collected metrics, lengths sorted in descending order; each family
    /// present exactly when it was enabled.
    pub fn finish(self) -> (r: Data)
        requires
            self.wf(),
        ensures
            r.wf(),
            r.lengths matches Some(l) && l@ == self.lengths@.sort_by(ge_u128()),
            r.num_reads == self.num_reads,
            r.all_counts == self.all_counts,
            r.q_score_hist is Some <==> self.config.identities,
            r.q_score_hist matches Some(q) ==> q == self.q_score,
            r.tids is Some <==> (self.config.reference_ids || self.config.phasing),
            r.tids matches Some(t) ==> t@ == self.tids@,
            r.starts is Some <==> self.config.phasing,
            r.starts matches Some(s) ==> s@ == self.starts@,
            r.ends is Some <==> self.config.phasing,
            r.ends matches Some(e) ==> e@ == self.ends@,
            r.phasesets is Some <==> self.config.phasing,
            r.phasesets matches Some(p) ==> p@ == self.phasesets@,
            r.exons is Some <==> self.config.splicing,
            r.exons matches Some(x) ==> x@ == self.exons@,
    {
        let Accumulator {
            config,
            policy: _,
            mut lengths,
            num_reads,
            all_counts,
            skipped: _,
            total_bases: _,
            q_score,
            tids,
            starts,
            ends,
            phasesets,
            exons,
        } = self;
        let ghost before = lengths@;
        sort_u128_descending(&mut lengths);
        proof {
            crate::sorting::lemma_integer_orders_total();
            before.lemma_sort_by_ensures(ge_u128());
            lemma_total_permutation(lengths@, before);
        }
        Data {
            lengths: Some(lengths),
            num_reads,
            all_counts,
            q_score_hist: if config.identities { Some(q_score) } else { None },
            tids: if config.reference_ids || config.phasing { Some(tids) } else { None },
            starts: if config.phasing { Some(starts) } else { None },
            ends: if config.phasing { Some(ends) } else { None },
            phasesets: if config.phasing { Some(phasesets) } else { None },
            exons: if config.splicing { Some(exons) } else { None },
        }
    }
}

proof fn lemma_total_push(s: Seq<u128>, x: u128)
    ensures
        total(s.push(x)) == total(s) + x,
{
    lemma_sum_by_push(s, of_u128(), x);
}

} // verus!
